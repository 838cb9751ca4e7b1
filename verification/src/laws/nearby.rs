//! What a question brings near, and which links a request shows.

use vstd::prelude::*;

use crate::code_graph::one_of;
use crate::graph::links::LinkModel;
use crate::graph::neighborhood::{
    after_calls, after_parents, call_score, calls_seed, container_kinds, declares, near, nearness,
    seeded, Asked, Placed, TargetModel,
};
use crate::graph::projection::{calling, calls_from, link_record, shown};
use crate::graph::{tail_of, FileModel};
use crate::json::JsonModel;
use crate::order::{lemma_filter_none, lemma_filter_step};

verus! {

/// A call in a file ties an id to what a question names, with this score.
pub open spec fn tied_by_call(
    asked: Asked,
    all: Seq<Placed>,
    files: Seq<FileModel>,
    id: Seq<char>,
    f: int,
    e: int,
    score: i64,
) -> bool {
    &&& 0 <= f < files.len()
    &&& 0 <= e < files[f].graph.edges.len()
    &&& call_score(asked, all, files[f].graph.edges[e], id) == Some(score)
}

/// A declaration in a file that a question names stands inside an id.
pub open spec fn tied_by_parent(
    asked: Asked,
    all: Seq<Placed>,
    files: Seq<FileModel>,
    id: Seq<char>,
    f: int,
    s: int,
) -> bool {
    &&& 0 <= f < files.len()
    &&& 0 <= s < files[f].graph.symbols.len()
    &&& seeded(asked, all, files[f].graph.symbols[s].id)
    &&& files[f].graph.symbols[s].parent == Some(id)
}

proof fn lemma_after_calls(
    asked: Asked,
    all: Seq<Placed>,
    files: Seq<FileModel>,
    id: Seq<char>,
    f: int,
    start: Option<i64>,
    count: nat,
)
    requires
        0 <= f < files.len(),
        count <= files[f].graph.edges.len(),
    ensures
        ({
            let r = after_calls(asked, all, files[f].graph.edges, id, start, count);
            &&& start is Some ==> r == start
            &&& start is None && r is Some ==> exists|e: int|
                #[trigger]
                tied_by_call(asked, all, files, id, f, e, r->0)
            &&& r is None ==> forall|e: int, score: i64|
                e < count ==> !(#[trigger] tied_by_call(asked, all, files, id, f, e, score))
        }),
    decreases count,
{
    if count > 0 {
        lemma_after_calls(asked, all, files, id, f, start, (count - 1) as nat);
        let edges = files[f].graph.edges;
        let was = after_calls(asked, all, edges, id, start, (count - 1) as nat);
        if was is None {
            if let Some(score) = call_score(asked, all, edges[count - 1], id) {
                assert(tied_by_call(asked, all, files, id, f, count - 1, score));
            }
        }
    }
}

proof fn lemma_after_parents(
    asked: Asked,
    all: Seq<Placed>,
    files: Seq<FileModel>,
    id: Seq<char>,
    f: int,
    start: Option<i64>,
    count: nat,
)
    requires
        0 <= f < files.len(),
        count <= files[f].graph.symbols.len(),
    ensures
        ({
            let r = after_parents(asked, all, files[f].graph.symbols, id, start, count);
            &&& start is Some ==> r == start
            &&& start is None && r is Some ==> r == Some(200i64) && exists|s: int|
                #[trigger]
                tied_by_parent(asked, all, files, id, f, s)
            &&& r is None ==> forall|s: int|
                s < count ==> !(#[trigger] tied_by_parent(asked, all, files, id, f, s))
        }),
    decreases count,
{
    if count > 0 {
        lemma_after_parents(asked, all, files, id, f, start, (count - 1) as nat);
        let symbols = files[f].graph.symbols;
        let was = after_parents(asked, all, symbols, id, start, (count - 1) as nat);
        if was is None && seeded(asked, all, symbols[count - 1].id) && symbols[count - 1].parent
            == Some(id) {
            assert(tied_by_parent(asked, all, files, id, f, count - 1));
        }
    }
}

/// What a question names is nearest. Anything else is near just where a call or
/// a parent ties it to what the question names, with the score of such a tie.
pub proof fn ties_bring_near(
    asked: Asked,
    all: Seq<Placed>,
    files: Seq<FileModel>,
    id: Seq<char>,
    count: nat,
)
    requires
        count <= files.len(),
    ensures
        seeded(asked, all, id) ==> nearness(asked, all, files, id, count) == Some(1000i64),
        !seeded(asked, all, id) && nearness(asked, all, files, id, count) is Some ==> ({
            let score = nearness(asked, all, files, id, count)->0;
            ||| exists|f: int, e: int| #[trigger]
                tied_by_call(asked, all, files, id, f, e, score)
            ||| score == 200 && exists|f: int, s: int| #[trigger]
                tied_by_parent(asked, all, files, id, f, s)
        }),
        nearness(asked, all, files, id, count) is None ==> {
            &&& forall|f: int, e: int, score: i64|
                f < count ==> !(#[trigger] tied_by_call(asked, all, files, id, f, e, score))
            &&& forall|f: int, s: int|
                f < count ==> !(#[trigger] tied_by_parent(asked, all, files, id, f, s))
        },
    decreases count,
{
    if count > 0 {
        let f = count - 1;
        ties_bring_near(asked, all, files, id, f as nat);
        let g = files[f].graph;
        let was = nearness(asked, all, files, id, f as nat);
        lemma_after_calls(asked, all, files, id, f, was, g.edges.len());
        let mid = after_calls(asked, all, g.edges, id, was, g.edges.len());
        lemma_after_parents(asked, all, files, id, f, mid, g.symbols.len());
        if was is None && mid is Some {
            let e = choose|e: int| #[trigger] tied_by_call(asked, all, files, id, f, e, mid->0);
            assert(tied_by_call(asked, all, files, id, f, e, mid->0));
        }
        if mid is None && nearness(asked, all, files, id, count) is Some {
            let s = choose|s: int| #[trigger] tied_by_parent(asked, all, files, id, f, s);
            assert(tied_by_parent(asked, all, files, id, f, s));
        }
    }
}

/// A call is worth more where what the question names makes it than where it
/// leads there.
pub proof fn callees_come_before_callers(
    asked: Asked,
    all: Seq<Placed>,
    files: Seq<FileModel>,
    id: Seq<char>,
    f: int,
    e: int,
    score: i64,
)
    requires
        tied_by_call(asked, all, files, id, f, e, score),
    ensures
        files[f].graph.edges[e].kind == "calls"@,
        score == 600 || score == 500,
        score == 600 <==> seeded(asked, all, files[f].graph.edges[e].source) && declares(
            all,
            tail_of(files[f].graph.edges[e].target),
            id,
        ),
        score == 500 ==> files[f].graph.edges[e].source == id && calls_seed(
            asked,
            all,
            tail_of(files[f].graph.edges[e].target),
        ),
{
}

/// A declaration is near.
pub open spec fn is_near(asked: Asked, files: Seq<FileModel>, all: Seq<Placed>) -> spec_fn(
    Placed,
) -> bool {
    |p: Placed| nearness(asked, all, files, p.symbol.id, files.len()) is Some
}

/// What is read of a declaration that is near: its signature where it contains
/// others, and all of it otherwise.
pub open spec fn read_of(asked: Asked, files: Seq<FileModel>, all: Seq<Placed>) -> spec_fn(
    Placed,
) -> TargetModel {
    |p: Placed|
        TargetModel {
            path: p.path,
            span: if one_of(p.symbol.kind, container_kinds()) {
                p.symbol.signature
            } else {
                p.symbol.span
            },
            score: nearness(asked, all, files, p.symbol.id, files.len())->0,
        }
}

/// Every declaration that is near is read, and no other.
pub proof fn everything_near_is_read(
    asked: Asked,
    files: Seq<FileModel>,
    all: Seq<Placed>,
    count: nat,
)
    requires
        count <= all.len(),
    ensures
        near(asked, files, all, count) == all.take(count as int).filter(
            is_near(asked, files, all),
        ).map_values(read_of(asked, files, all)),
    decreases count,
{
    let keep = is_near(asked, files, all);
    let f = read_of(asked, files, all);
    lemma_filter_none(all, keep);
    if count == 0 {
        assert(Seq::<Placed>::empty().map_values(f) =~= Seq::empty());
    } else {
        let n = count - 1;
        everything_near_is_read(asked, files, all, n as nat);
        lemma_filter_step(all, keep, n);
        let before = all.take(n).filter(keep);
        assert(before.push(all[n]).map_values(f) =~= before.map_values(f).push(f(all[n])));
    }
}

/// A link is shown, and starts from a file.
pub open spec fn shown_from(scope: Seq<Seq<char>>, path: Seq<char>) -> spec_fn(LinkModel) -> bool {
    |l: LinkModel|
        l.from_path == path && scope.contains(l.from_path) && (scope.contains(l.to_path)
            && l.to_path.len() > 0 || l.to_path.len() == 0 && exists|k: int|
            0 <= k < l.candidates.len() && scope.contains(#[trigger] l.candidates[k]))
}

/// The record of a link.
pub open spec fn as_record() -> spec_fn(LinkModel) -> JsonModel {
    |l: LinkModel| link_record(l)
}

/// The links of a file are all of those that start from it and lie within the
/// request.
pub proof fn links_within_are_shown(
    links: Seq<LinkModel>,
    scope: Seq<Seq<char>>,
    path: Seq<char>,
    count: nat,
)
    requires
        count <= links.len(),
    ensures
        calls_from(links, scope, path, count) == links.take(count as int).filter(
            shown_from(scope, path),
        ).map_values(as_record()),
        forall|k: int|
            0 <= k < count && shown(#[trigger] links[k], scope) ==> calling(
                links,
                scope,
                count,
            ).contains(links[k].from_path),
    decreases count,
{
    let keep = shown_from(scope, path);
    let f = as_record();
    lemma_filter_none(links, keep);
    if count == 0 {
        assert(Seq::<LinkModel>::empty().map_values(f) =~= Seq::empty());
    } else {
        let n = count - 1;
        links_within_are_shown(links, scope, path, n as nat);
        lemma_filter_step(links, keep, n);
        let before = links.take(n).filter(keep);
        assert(before.push(links[n]).map_values(f) =~= before.map_values(f).push(f(links[n])));
        let was = calling(links, scope, n as nat);
        let now = calling(links, scope, count);
        assert forall|k: int| 0 <= k < count && shown(#[trigger] links[k], scope) implies now.contains(
            links[k].from_path,
        ) by {
            if k < n {
                let j = choose|j: int| 0 <= j < was.len() && was[j] == links[k].from_path;
                assert(now[j] == links[k].from_path);
            } else {
                assert(now[was.len() as int] == links[k].from_path);
            }
        }
    }
}

} // verus!
