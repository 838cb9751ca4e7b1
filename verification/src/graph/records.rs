//! The structure that one request carries: compact records for the passages in
//! it, within a budget that every file has a share of.

use vstd::prelude::*;
use vstd::string::StringExecFns;

use crate::code_graph::{CodeGraph, EdgeModel, GraphModel, Span, SymbolModel};
use crate::editorial::{excerpt, excerpt_of};
use crate::json::{
    field, member, member_models, models, nat_model, Json, JsonModel, Member, MemberModel,
};
use crate::order::{sort_distinct, sorted_distinct};
use crate::text::{same, texts};

verus! {

// ---------------------------------------------------------------------------
// Records
// ---------------------------------------------------------------------------

/// One of the passages is reached by a span.
pub open spec fn meets_any(span: Span, spans: Seq<(u32, u32)>) -> bool {
    exists|k: int|
        0 <= k < spans.len() && span.reaches((#[trigger] spans[k]).0, spans[k].1)
}

/// Whether one of the passages is reached by a span.
fn overlaps_any(span: &Span, spans: &[(u32, u32)]) -> (r: bool)
    ensures
        r == meets_any(*span, spans@),
{
    let mut k: usize = 0;
    while k < spans.len()
        invariant
            k <= spans@.len(),
            forall|j: int| 0 <= j < k ==> !span.reaches((#[trigger] spans@[j]).0, spans@[j].1),
        decreases spans@.len() - k,
    {
        let (a, b) = spans[k];
        if span.overlaps(a, b) {
            assert(span.reaches(spans@[k as int].0, spans@[k as int].1));
            return true;
        }
        k += 1;
    }
    false
}

/// The qualified name of the last of the first `count` symbols with an id.
pub open spec fn owner_of(symbols: Seq<SymbolModel>, id: Seq<char>, count: nat) -> Seq<char>
    decreases count,
{
    if count == 0 {
        "<file>"@
    } else if symbols[count - 1].id == id {
        symbols[count - 1].qualified_name
    } else {
        owner_of(symbols, id, (count - 1) as nat)
    }
}

/// The qualified name of the last symbol with an id.
pub fn find_owner(graph: &CodeGraph, id: &str) -> (r: String)
    ensures
        r@ == owner_of(graph@.symbols, id@, graph@.symbols.len()),
{
    let ghost ss = graph@.symbols;
    let mut at: usize = graph.symbols.len();
    assert(ss.len() == at);
    while at > 0
        invariant
            at <= graph.symbols@.len(),
            ss == graph@.symbols,
            ss.len() == graph.symbols@.len(),
            owner_of(ss, id@, ss.len()) == owner_of(ss, id@, at as nat),
        decreases at,
    {
        at -= 1;
        assert(ss[at as int] == graph.symbols@[at as int]@);
        if same(graph.symbols[at].id.as_str(), id) {
            return graph.symbols[at].qualified_name.clone();
        }
    }
    String::from_str("<file>")
}

/// The record of a declaration.
pub open spec fn symbol_record(s: SymbolModel) -> JsonModel {
    JsonModel::Obj(
        seq![
            field("kind"@, JsonModel::Str(s.kind)),
            field(
                "lines"@,
                JsonModel::Arr(
                    seq![nat_model(s.span.start as nat), nat_model(s.span.end as nat)],
                ),
            ),
            field("symbol"@, JsonModel::Str(s.qualified_name)),
        ],
    )
}

/// The records of the declarations, of the first `count` symbols, in the
/// passages.
pub open spec fn symbol_records(
    symbols: Seq<SymbolModel>,
    spans: Seq<(u32, u32)>,
    count: nat,
) -> Seq<JsonModel>
    decreases count,
{
    if count == 0 {
        Seq::empty()
    } else {
        let so_far = symbol_records(symbols, spans, (count - 1) as nat);
        let s = symbols[count - 1];
        if s.kind != "file"@ && meets_any(s.span, spans) {
            so_far.push(symbol_record(s))
        } else {
            so_far
        }
    }
}

/// The record of a relation to something.
pub open spec fn edge_record(g: GraphModel, e: EdgeModel) -> JsonModel {
    JsonModel::Obj(
        seq![
            field("from"@, JsonModel::Str(owner_of(g.symbols, e.source, g.symbols.len()))),
            field("kind"@, JsonModel::Str(e.kind)),
            field("line"@, nat_model(e.span.start as nat)),
            field("to"@, JsonModel::Str(excerpt_of(e.target, 200))),
        ],
    )
}

/// The records of the calls, or of the other relations, in the passages among
/// the first `count` edges.
pub open spec fn edge_records(
    g: GraphModel,
    spans: Seq<(u32, u32)>,
    calls: bool,
    count: nat,
) -> Seq<JsonModel>
    decreases count,
{
    if count == 0 {
        Seq::empty()
    } else {
        let so_far = edge_records(g, spans, calls, (count - 1) as nat);
        let e = g.edges[count - 1];
        if meets_any(e.span, spans) && e.target.len() > 0 && (e.kind == "calls"@) == calls {
            so_far.push(edge_record(g, e))
        } else {
            so_far
        }
    }
}

/// A site in the passages that relates to nothing else: a branch, an exit.
pub open spec fn bare_site(g: GraphModel, spans: Seq<(u32, u32)>, e: EdgeModel) -> bool {
    meets_any(e.span, spans) && e.target.len() == 0
}

/// The owners of the bare sites among the first `count` edges.
pub open spec fn site_owners(g: GraphModel, spans: Seq<(u32, u32)>, count: nat) -> Seq<Seq<char>>
    decreases count,
{
    if count == 0 {
        Seq::empty()
    } else {
        let so_far = site_owners(g, spans, (count - 1) as nat);
        let e = g.edges[count - 1];
        if bare_site(g, spans, e) {
            so_far.push(owner_of(g.symbols, e.source, g.symbols.len()))
        } else {
            so_far
        }
    }
}

/// The kinds of an owner's bare sites among the first `count` edges.
pub open spec fn site_kinds(
    g: GraphModel,
    spans: Seq<(u32, u32)>,
    owner: Seq<char>,
    count: nat,
) -> Seq<Seq<char>>
    decreases count,
{
    if count == 0 {
        Seq::empty()
    } else {
        let so_far = site_kinds(g, spans, owner, (count - 1) as nat);
        let e = g.edges[count - 1];
        if bare_site(g, spans, e) && owner_of(g.symbols, e.source, g.symbols.len()) == owner {
            so_far.push(e.kind)
        } else {
            so_far
        }
    }
}

/// How often a text occurs among the first `count`.
pub open spec fn occurrences(list: Seq<Seq<char>>, text: Seq<char>, count: nat) -> nat
    decreases count,
{
    if count == 0 {
        0
    } else {
        occurrences(list, text, (count - 1) as nat) + if list[count - 1] == text {
            1nat
        } else {
            0nat
        }
    }
}

/// How often each kind occurs, for the kinds given.
pub open spec fn kind_counts(all: Seq<Seq<char>>, kinds: Seq<Seq<char>>) -> Seq<MemberModel> {
    kinds.map_values(|k: Seq<char>| field(k, nat_model(occurrences(all, k, all.len()))))
}

/// The record of an owner's bare sites: how many of each kind.
pub open spec fn site_record(g: GraphModel, spans: Seq<(u32, u32)>, owner: Seq<char>) -> JsonModel {
    let kinds = site_kinds(g, spans, owner, g.edges.len());
    JsonModel::Obj(
        seq![
            field("in"@, JsonModel::Str(owner)),
            field("sites"@, JsonModel::Obj(kind_counts(kinds, sorted_distinct(kinds)))),
        ],
    )
}

/// The records of the bare sites, one for each owner.
pub open spec fn site_records(g: GraphModel, spans: Seq<(u32, u32)>) -> Seq<JsonModel> {
    sorted_distinct(site_owners(g, spans, g.edges.len())).map_values(
        |owner: Seq<char>| site_record(g, spans, owner),
    )
}

/// The records of the passages in a request, in the order in which a budget is
/// spent on them: declarations, counts of bare sites, dependencies, calls.
pub open spec fn records_of(g: GraphModel, spans: Seq<(u32, u32)>) -> Seq<JsonModel> {
    symbol_records(g.symbols, spans, g.symbols.len()) + site_records(g, spans) + edge_records(
        g,
        spans,
        false,
        g.edges.len(),
    ) + edge_records(g, spans, true, g.edges.len())
}

/// The record of a declaration.
fn symbol_json(kind: &str, span: &Span, name: &str) -> (r: Json)
    ensures
        forall|s: SymbolModel|
            s.kind == kind@ && s.span == *span && s.qualified_name == name@ ==> r@
                == #[trigger] symbol_record(s),
{
    let lines = vec![Json::count(span.start as usize), Json::count(span.end as usize)];
    let ghost numbers = seq![nat_model(span.start as nat), nat_model(span.end as nat)];
    assert(models(lines@) =~= numbers);
    let members = vec![
        member("kind", Json::string(kind)),
        member("lines", Json::array(lines)),
        member("symbol", Json::string(name)),
    ];
    assert(member_models(members@) =~= seq![
        field("kind"@, JsonModel::Str(kind@)),
        field("lines"@, JsonModel::Arr(numbers)),
        field("symbol"@, JsonModel::Str(name@)),
    ]);
    Json::object(members)
}

/// The records of the relations in the passages.
fn edge_jsons(graph: &CodeGraph, spans: &[(u32, u32)], calls: bool) -> (r: Vec<Json>)
    ensures
        models(r@) == edge_records(graph@, spans@, calls, graph@.edges.len()),
{
    let ghost g = graph@;
    let mut r: Vec<Json> = Vec::new();
    let mut i: usize = 0;
    assert(models(r@) =~= Seq::empty());
    assert(g.edges.len() == graph.edges@.len());
    while i < graph.edges.len()
        invariant
            i <= graph.edges@.len(),
            g == graph@,
            g.edges.len() == graph.edges@.len(),
            models(r@) == edge_records(g, spans@, calls, i as nat),
        decreases graph.edges@.len() - i,
    {
        let e = &graph.edges[i];
        assert(g.edges[i as int] == e@);
        if e.target.as_str().unicode_len() > 0 && same(e.kind.as_str(), "calls") == calls
            && overlaps_any(&e.span, spans) {
            let members = vec![
                member("from", Json::Str(find_owner(graph, e.source.as_str()))),
                member("kind", Json::string(e.kind.as_str())),
                member("line", Json::count(e.span.start as usize)),
                member("to", Json::Str(excerpt(e.target.as_str(), 200))),
            ];
            assert(member_models(members@) =~= edge_record(g, e@)->Obj_0);
            let record = Json::object(members);
            assert(models(r@.push(record)) =~= models(r@).push(record@));
            r.push(record);
        }
        i += 1;
    }
    r
}

/// The owners of the bare sites, or the kinds of one owner's.
fn bare_sites(graph: &CodeGraph, spans: &[(u32, u32)]) -> (r: (Vec<String>, Vec<String>))
    ensures
        texts(r.0@) == site_owners(graph@, spans@, graph@.edges.len()),
        r.0@.len() == r.1@.len(),
        forall|owner: Seq<char>|
            kinds_with(r.0@, r.1@, owner, r.0@.len()) == #[trigger] site_kinds(
                graph@,
                spans@,
                owner,
                graph@.edges.len(),
            ),
{
    let ghost g = graph@;
    let mut owners: Vec<String> = Vec::new();
    let mut kinds: Vec<String> = Vec::new();
    let mut i: usize = 0;
    assert(texts(owners@) =~= Seq::empty());
    assert(g.edges.len() == graph.edges@.len());
    while i < graph.edges.len()
        invariant
            i <= graph.edges@.len(),
            g == graph@,
            g.edges.len() == graph.edges@.len(),
            texts(owners@) == site_owners(g, spans@, i as nat),
            owners@.len() == kinds@.len(),
            forall|owner: Seq<char>|
                kinds_with(owners@, kinds@, owner, owners@.len()) == #[trigger] site_kinds(
                    g,
                    spans@,
                    owner,
                    i as nat,
                ),
        decreases graph.edges@.len() - i,
    {
        let ghost next = (i + 1) as nat;
        let e = &graph.edges[i];
        assert(g.edges[i as int] == e@);
        if e.target.as_str().unicode_len() == 0 && overlaps_any(&e.span, spans) {
            let owner = find_owner(graph, e.source.as_str());
            let kind = e.kind.clone();
            let ghost was = (owners@, kinds@);
            assert(texts(owners@.push(owner)) =~= texts(owners@).push(owner@));
            owners.push(owner);
            kinds.push(kind);
            assert forall|o: Seq<char>|
                kinds_with(owners@, kinds@, o, owners@.len()) == #[trigger] site_kinds(
                    g,
                    spans@,
                    o,
                    next,
                ) by {
                assert(site_kinds(g, spans@, o, i as nat) == kinds_with(
                    was.0,
                    was.1,
                    o,
                    was.0.len(),
                ));
                assert(was.0 =~= owners@.take(was.0.len() as int));
                assert(was.1 =~= kinds@.take(was.1.len() as int));
                lemma_kinds_with(was.0, was.1, owners@, kinds@, o, was.0.len());
            }
        } else {
            assert forall|o: Seq<char>|
                kinds_with(owners@, kinds@, o, owners@.len()) == #[trigger] site_kinds(
                    g,
                    spans@,
                    o,
                    next,
                ) by {
                assert(site_kinds(g, spans@, o, i as nat) == kinds_with(
                    owners@,
                    kinds@,
                    o,
                    owners@.len(),
                ));
            }
        }
        i += 1;
        assert(next == i as nat);
    }
    (owners, kinds)
}

/// The kinds that stand beside an owner, among the first `count`.
pub open spec fn kinds_with(
    owners: Seq<String>,
    kinds: Seq<String>,
    owner: Seq<char>,
    count: nat,
) -> Seq<Seq<char>>
    decreases count,
{
    if count == 0 {
        Seq::empty()
    } else {
        let so_far = kinds_with(owners, kinds, owner, (count - 1) as nat);
        if owners[count - 1]@ == owner {
            so_far.push(kinds[count - 1]@)
        } else {
            so_far
        }
    }
}

proof fn lemma_kinds_with(
    owners: Seq<String>,
    kinds: Seq<String>,
    more: Seq<String>,
    more_kinds: Seq<String>,
    owner: Seq<char>,
    count: nat,
)
    requires
        count <= owners.len() <= more.len(),
        kinds.len() == owners.len(),
        more_kinds.len() == more.len(),
        owners == more.take(owners.len() as int),
        kinds == more_kinds.take(kinds.len() as int),
    ensures
        kinds_with(owners, kinds, owner, count) == kinds_with(more, more_kinds, owner, count),
    decreases count,
{
    if count > 0 {
        lemma_kinds_with(owners, kinds, more, more_kinds, owner, (count - 1) as nat);
        assert(owners[count - 1] == more[count - 1]);
        assert(kinds[count - 1] == more_kinds[count - 1]);
    }
}

/// How often each kind occurs.
fn count_kinds(all: &Vec<String>) -> (r: Json)
    ensures
        r@ == JsonModel::Obj(kind_counts(texts(all@), sorted_distinct(texts(all@)))),
{
    let ghost list = texts(all@);
    let kinds = sort_distinct(all);
    let ghost goal = kind_counts(list, sorted_distinct(list));
    let mut members: Vec<Member> = Vec::new();
    let mut i: usize = 0;
    assert(member_models(members@) =~= goal.take(0));
    assert(texts(kinds@).len() == kinds@.len());
    while i < kinds.len()
        invariant
            i <= kinds@.len(),
            list == texts(all@),
            texts(kinds@) == sorted_distinct(list),
            texts(kinds@).len() == kinds@.len(),
            goal == kind_counts(list, sorted_distinct(list)),
            member_models(members@) == goal.take(i as int),
        decreases kinds@.len() - i,
    {
        let kind = kinds[i].as_str();
        assert(texts(kinds@)[i as int] == kind@);
        let mut n: usize = 0;
        let mut k: usize = 0;
        while k < all.len()
            invariant
                k <= all@.len(),
                list == texts(all@),
                n == occurrences(list, kind@, k as nat),
                n <= k,
            decreases all@.len() - k,
        {
            assert(list[k as int] == all@[k as int]@);
            if same(all[k].as_str(), kind) {
                n += 1;
            }
            k += 1;
        }
        assert(list.len() == all@.len());
        let m = member(kind, Json::count(n));
        assert(goal[i as int] == field(kind@, nat_model(n as nat)));
        assert(member_models(members@.push(m)) =~= member_models(members@).push(goal[i as int]));
        assert(goal.take(i + 1) =~= goal.take(i as int).push(goal[i as int]));
        members.push(m);
        i += 1;
    }
    assert(goal.take(i as int) =~= goal);
    Json::object(members)
}

/// The records of the bare sites, one for each owner.
fn site_jsons(graph: &CodeGraph, spans: &[(u32, u32)]) -> (r: Vec<Json>)
    ensures
        models(r@) == site_records(graph@, spans@),
{
    let ghost g = graph@;
    let ghost goal = site_records(g, spans@);
    let (owners, kinds) = bare_sites(graph, spans);
    let sorted = sort_distinct(&owners);
    let mut r: Vec<Json> = Vec::new();
    let mut i: usize = 0;
    assert(models(r@) =~= goal.take(0));
    assert(texts(sorted@).len() == sorted@.len());
    while i < sorted.len()
        invariant
            i <= sorted@.len(),
            g == graph@,
            goal == site_records(g, spans@),
            texts(sorted@) == sorted_distinct(site_owners(g, spans@, g.edges.len())),
            texts(sorted@).len() == sorted@.len(),
            owners@.len() == kinds@.len(),
            forall|owner: Seq<char>|
                kinds_with(owners@, kinds@, owner, owners@.len()) == #[trigger] site_kinds(
                    g,
                    spans@,
                    owner,
                    g.edges.len(),
                ),
            models(r@) == goal.take(i as int),
        decreases sorted@.len() - i,
    {
        let owner = sorted[i].as_str();
        assert(texts(sorted@)[i as int] == owner@);
        let mut own: Vec<String> = Vec::new();
        let mut k: usize = 0;
        assert(texts(own@) =~= Seq::empty());
        while k < owners.len()
            invariant
                k <= owners@.len(),
                owners@.len() == kinds@.len(),
                texts(own@) == kinds_with(owners@, kinds@, owner@, k as nat),
            decreases owners@.len() - k,
        {
            if same(owners[k].as_str(), owner) {
                let kind = kinds[k].clone();
                assert(texts(own@.push(kind)) =~= texts(own@).push(kind@));
                own.push(kind);
            }
            k += 1;
        }
        assert(texts(own@) == site_kinds(g, spans@, owner@, g.edges.len()));
        let members = vec![
            member("in", Json::string(owner)),
            member("sites", count_kinds(&own)),
        ];
        assert(member_models(members@) =~= site_record(g, spans@, owner@)->Obj_0);
        let record = Json::object(members);
        assert(goal[i as int] == site_record(g, spans@, owner@));
        assert(models(r@.push(record)) =~= models(r@).push(record@));
        assert(goal.take(i + 1) =~= goal.take(i as int).push(record@));
        r.push(record);
        i += 1;
    }
    assert(goal.take(i as int) =~= goal);
    r
}

/// Compact records of the structure of some passages of a file. What a budget
/// leaves out of them is not looked at again, so the order counts.
pub fn records(graph: &CodeGraph, spans: &[(u32, u32)]) -> (r: Vec<Json>)
    ensures
        models(r@) == records_of(graph@, spans@),
{
    let ghost g = graph@;
    let mut r: Vec<Json> = Vec::new();
    let mut i: usize = 0;
    assert(models(r@) =~= Seq::empty());
    while i < graph.symbols.len()
        invariant
            i <= graph.symbols@.len(),
            g == graph@,
            models(r@) == symbol_records(g.symbols, spans@, i as nat),
        decreases graph.symbols@.len() - i,
    {
        let s = &graph.symbols[i];
        assert(g.symbols[i as int] == s@);
        if !same(s.kind.as_str(), "file") && overlaps_any(&s.span, spans) {
            let record = symbol_json(s.kind.as_str(), &s.span, s.qualified_name.as_str());
            assert(record@ == symbol_record(s@));
            assert(models(r@.push(record)) =~= models(r@).push(record@));
            r.push(record);
        }
        i += 1;
    }
    assert(g.symbols.len() == graph.symbols@.len());
    let mut sites = site_jsons(graph, spans);
    let mut structural = edge_jsons(graph, spans, false);
    let mut calls = edge_jsons(graph, spans, true);
    let ghost a = models(r@);
    let ghost b = models(sites@);
    let ghost c = models(structural@);
    let ghost d = models(calls@);
    r.append(&mut sites);
    assert(models(r@) =~= a + b);
    r.append(&mut structural);
    assert(models(r@) =~= a + b + c);
    r.append(&mut calls);
    assert(models(r@) =~= a + b + c + d);
    r
}

} // verus!
