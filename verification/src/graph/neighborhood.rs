//! The declarations near a question: those that it names, what they call, what
//! calls them and where they are declared.

use vstd::prelude::*;
use vstd::string::StringExecFns;

use super::{file_models, tail, tail_of, FileGraph, FileModel};
use crate::code_graph::{is_one_of, one_of, EdgeModel, Span, Symbol, SymbolModel};
use crate::text::{blen, contains, has, list_has, lowercase, same, texts, to_lowercase};

verus! {

/// A place to read, and how near it is.
pub struct Target {
    pub path: String,
    pub span: Span,
    pub score: i64,
}

/// The value of a place to read.
pub struct TargetModel {
    pub path: Seq<char>,
    pub span: Span,
    pub score: i64,
}

impl View for Target {
    type V = TargetModel;

    open spec fn view(&self) -> TargetModel {
        TargetModel { path: self.path@, span: self.span, score: self.score }
    }
}

/// The values of a list of places.
pub open spec fn target_models(v: Seq<Target>) -> Seq<TargetModel> {
    v.map_values(|t: Target| t@)
}

/// A symbol and the file that it is in.
pub struct Placed {
    pub path: Seq<char>,
    pub symbol: SymbolModel,
}

/// The first `count` symbols of a file.
pub open spec fn placed_in(f: FileModel, count: nat) -> Seq<Placed> {
    f.graph.symbols.take(count as int).map_values(
        |s: SymbolModel| Placed { path: f.path, symbol: s },
    )
}

/// The symbols of the first `count` files.
pub open spec fn placed(files: Seq<FileModel>, count: nat) -> Seq<Placed>
    decreases count,
{
    if count == 0 {
        Seq::empty()
    } else {
        placed(files, (count - 1) as nat) + placed_in(
            files[count - 1],
            files[count - 1].graph.symbols.len(),
        )
    }
}

/// What a question asks: its text, and the terms to search for.
pub struct Asked {
    pub query: Seq<char>,
    pub terms: Seq<Seq<char>>,
}

/// A question names a declaration.
pub open spec fn names(asked: Asked, s: SymbolModel) -> bool {
    s.kind != "file"@ && (asked.terms.contains(lowercase(s.name)) || (contains(
        asked.query,
        s.qualified_name,
    ) && blen(s.qualified_name) > 2))
}

/// A question names a declaration with this id.
pub open spec fn seeded(asked: Asked, all: Seq<Placed>, id: Seq<char>) -> bool {
    exists|k: int|
        0 <= k < all.len() && names(asked, (#[trigger] all[k]).symbol) && all[k].symbol.id == id
}

/// A declaration with this name and id.
pub open spec fn declares(all: Seq<Placed>, name: Seq<char>, id: Seq<char>) -> bool {
    exists|k: int|
        0 <= k < all.len() && (#[trigger] all[k]).symbol.kind != "file"@ && all[k].symbol.name == name
            && all[k].symbol.id == id
}

/// A question names a declaration that an expression with this last name may
/// call.
pub open spec fn calls_seed(asked: Asked, all: Seq<Placed>, name: Seq<char>) -> bool {
    exists|k: int|
        0 <= k < all.len() && (#[trigger] all[k]).symbol.kind != "file"@ && all[k].symbol.name == name
            && seeded(asked, all, all[k].symbol.id)
}

/// What a call brings near: what a named declaration calls, and what calls one.
pub open spec fn call_score(asked: Asked, all: Seq<Placed>, e: EdgeModel, id: Seq<char>) -> Option<
    i64,
> {
    let name = tail_of(e.target);
    if e.kind != "calls"@ {
        None
    } else if seeded(asked, all, e.source) && declares(all, name, id) {
        Some(600)
    } else if calls_seed(asked, all, name) && e.source == id {
        Some(500)
    } else {
        None
    }
}

/// How near an id is, once the first `count` calls of a file were followed.
pub open spec fn after_calls(
    asked: Asked,
    all: Seq<Placed>,
    edges: Seq<EdgeModel>,
    id: Seq<char>,
    start: Option<i64>,
    count: nat,
) -> Option<i64>
    decreases count,
{
    if count == 0 {
        start
    } else {
        let was = after_calls(asked, all, edges, id, start, (count - 1) as nat);
        if was is Some {
            was
        } else {
            call_score(asked, all, edges[count - 1], id)
        }
    }
}

/// How near an id is, once the parents of the first `count` symbols of a file
/// were followed.
pub open spec fn after_parents(
    asked: Asked,
    all: Seq<Placed>,
    symbols: Seq<SymbolModel>,
    id: Seq<char>,
    start: Option<i64>,
    count: nat,
) -> Option<i64>
    decreases count,
{
    if count == 0 {
        start
    } else {
        let was = after_parents(asked, all, symbols, id, start, (count - 1) as nat);
        let s = symbols[count - 1];
        if was is Some {
            was
        } else if seeded(asked, all, s.id) && s.parent == Some(id) {
            Some(200i64)
        } else {
            None
        }
    }
}

/// How near an id is, once the first `count` files were followed: what the
/// question names is nearest, and otherwise the first thing found counts.
pub open spec fn nearness(
    asked: Asked,
    all: Seq<Placed>,
    files: Seq<FileModel>,
    id: Seq<char>,
    count: nat,
) -> Option<i64>
    decreases count,
{
    if count == 0 {
        if seeded(asked, all, id) {
            Some(1000i64)
        } else {
            None
        }
    } else {
        let g = files[count - 1].graph;
        let was = nearness(asked, all, files, id, (count - 1) as nat);
        after_parents(
            asked,
            all,
            g.symbols,
            id,
            after_calls(asked, all, g.edges, id, was, g.edges.len()),
            g.symbols.len(),
        )
    }
}

/// The kinds of symbols of which only the signature is read.
pub open spec fn container_kinds() -> Seq<&'static str> {
    seq!["file", "class", "type", "implementation", "module", "interface"]
}

/// The places of the first `count` symbols that are near.
pub open spec fn near(
    asked: Asked,
    files: Seq<FileModel>,
    all: Seq<Placed>,
    count: nat,
) -> Seq<TargetModel>
    decreases count,
{
    if count == 0 {
        Seq::empty()
    } else {
        let so_far = near(asked, files, all, (count - 1) as nat);
        let p = all[count - 1];
        match nearness(asked, all, files, p.symbol.id, files.len()) {
            Some(score) => so_far.push(
                TargetModel {
                    path: p.path,
                    span: if one_of(p.symbol.kind, container_kinds()) {
                        p.symbol.signature
                    } else {
                        p.symbol.span
                    },
                    score,
                },
            ),
            None => so_far,
        }
    }
}

/// The values of a list of placed symbols.
pub open spec fn placed_models(v: Seq<(&str, &Symbol)>) -> Seq<Placed> {
    v.map_values(|p: (&str, &Symbol)| Placed { path: p.0@, symbol: p.1@ })
}

/// The symbols of all files.
fn collect<'a>(files: &'a [FileGraph]) -> (r: Vec<(&'a str, &'a Symbol)>)
    ensures
        placed_models(r@) == placed(file_models(files@), files@.len()),
{
    let ghost fs = file_models(files@);
    let mut r: Vec<(&'a str, &'a Symbol)> = Vec::new();
    let mut i: usize = 0;
    assert(placed_models(r@) =~= Seq::empty());
    while i < files.len()
        invariant
            i <= files@.len(),
            fs == file_models(files@),
            placed_models(r@) == placed(fs, i as nat),
        decreases files@.len() - i,
    {
        let f = &files[i];
        assert(fs[i as int] == f@);
        let ghost start = placed_models(r@);
        let mut k: usize = 0;
        assert(start + placed_in(f@, 0) =~= start);
        while k < f.graph.symbols.len()
            invariant
                k <= f.graph.symbols@.len(),
                placed_models(r@) == start + placed_in(f@, k as nat),
            decreases f.graph.symbols@.len() - k,
        {
            let item = (f.path.as_str(), &f.graph.symbols[k]);
            proof {
                let p = Placed { path: item.0@, symbol: item.1@ };
                assert(f@.graph.symbols[k as int] == item.1@);
                assert(placed_models(r@.push(item)) =~= placed_models(r@).push(p));
                assert(start + placed_in(f@, (k + 1) as nat) =~= (start + placed_in(
                    f@,
                    k as nat,
                )).push(p));
            }
            r.push(item);
            k += 1;
        }
        assert(f@.graph.symbols.len() == f.graph.symbols@.len());
        i += 1;
    }
    r
}

/// Whether a question names a declaration.
fn is_named(query: &str, terms: &Vec<String>, s: &Symbol) -> (r: bool)
    ensures
        r == names(Asked { query: query@, terms: texts(terms@) }, s@),
{
    if same(s.kind.as_str(), "file") {
        return false;
    }
    let name = to_lowercase(s.name.as_str());
    list_has(terms, name.as_str()) || (has(query, s.qualified_name.as_str())
        && s.qualified_name.as_str().as_bytes().len() > 2)
}

/// The positions of the declarations that a question names.
fn find_seeds(query: &str, terms: &Vec<String>, all: &Vec<(&str, &Symbol)>) -> (r: Vec<usize>)
    ensures
        forall|k: int| 0 <= k < r@.len() ==> (#[trigger] r@[k]) < all@.len(),
        forall|j: int|
            0 <= j < all@.len() ==> (names(
                Asked { query: query@, terms: texts(terms@) },
                #[trigger] all@[j].1@,
            ) <==> r@.contains(j as usize)),
{
    let ghost asked = Asked { query: query@, terms: texts(terms@) };
    let mut r: Vec<usize> = Vec::new();
    let mut i: usize = 0;
    while i < all.len()
        invariant
            i <= all@.len(),
            asked == (Asked { query: query@, terms: texts(terms@) }),
            forall|k: int| 0 <= k < r@.len() ==> (#[trigger] r@[k]) < i,
            forall|j: int|
                0 <= j < i ==> (names(asked, #[trigger] all@[j].1@) <==> r@.contains(j as usize)),
        decreases all@.len() - i,
    {
        let yes = is_named(query, terms, all[i].1);
        let ghost was = r@;
        if yes {
            r.push(i);
        }
        proof {
            assert forall|j: int| 0 <= j < i + 1 implies (names(asked, #[trigger] all@[j].1@)
                <==> r@.contains(j as usize)) by {
                if j < i {
                    if was.contains(j as usize) {
                        let k = choose|k: int| 0 <= k < was.len() && was[k] == j as usize;
                        assert(r@[k] == j as usize);
                    }
                    if r@.contains(j as usize) {
                        let k = choose|k: int| 0 <= k < r@.len() && r@[k] == j as usize;
                        assert(k < was.len());
                        assert(was[k] == j as usize);
                    }
                } else {
                    if yes {
                        assert(r@[was.len() as int] == i);
                    } else if r@.contains(i) {
                        let k = choose|k: int| 0 <= k < was.len() && was[k] == i;
                        assert(was[k] < i);
                    }
                }
            }
        }
        i += 1;
    }
    r
}

/// The symbols, and which of them the question names.
struct Known<'a> {
    query: &'a str,
    terms: &'a Vec<String>,
    all: Vec<(&'a str, &'a Symbol)>,
    seeds: Vec<usize>,
}

impl<'a> Known<'a> {
    spec fn asked(self) -> Asked {
        Asked { query: self.query@, terms: texts(self.terms@) }
    }

    spec fn placed(self) -> Seq<Placed> {
        placed_models(self.all@)
    }

    spec fn wf(self) -> bool {
        &&& forall|k: int| 0 <= k < self.seeds@.len() ==> (#[trigger] self.seeds@[k]) < self.all@.len()
        &&& forall|j: int|
            0 <= j < self.all@.len() ==> (names(self.asked(), #[trigger] self.all@[j].1@)
                <==> self.seeds@.contains(j as usize))
    }

    /// Whether the question names a declaration with this id.
    fn is_seed(&self, id: &str) -> (r: bool)
        requires
            self.wf(),
        ensures
            r == seeded(self.asked(), self.placed(), id@),
    {
        let ghost ps = self.placed();
        let total: usize = self.all.len();
        let mut k: usize = 0;
        while k < self.seeds.len()
            invariant
                k <= self.seeds@.len(),
                self.wf(),
                ps == self.placed(),
                forall|j: int|
                    0 <= j < k ==> (#[trigger] self.all@[self.seeds@[j] as int]).1@.id != id@,
            decreases self.seeds@.len() - k,
        {
            let at: usize = self.seeds[k];
            assert(self.seeds@.contains(at));
            assert(ps[at as int].symbol == self.all@[at as int].1@);
            if same(self.all[at].1.id.as_str(), id) {
                assert(names(self.asked(), ps[at as int].symbol));
                return true;
            }
            k += 1;
        }
        proof {
            assert forall|j: int| 0 <= j < ps.len() && names(self.asked(), (#[trigger] ps[j]).symbol)
                implies ps[j].symbol.id != id@ by {
                assert(ps[j].symbol == self.all@[j].1@);
                assert(j < total);
                let k = choose|k: int| 0 <= k < self.seeds@.len() && self.seeds@[k] == j as usize;
                assert(self.all@[self.seeds@[k] as int].1@.id != id@);
            }
        }
        false
    }

    /// Whether an expression with this last name may call a declaration that the
    /// question names.
    fn reaches_seed(&self, name: &str) -> (r: bool)
        requires
            self.wf(),
        ensures
            r == calls_seed(self.asked(), self.placed(), name@),
    {
        let ghost ps = self.placed();
        let mut k: usize = 0;
        while k < self.all.len()
            invariant
                k <= self.all@.len(),
                self.wf(),
                ps == self.placed(),
                forall|j: int|
                    0 <= j < k ==> !((#[trigger] ps[j]).symbol.kind != "file"@ && ps[j].symbol.name
                        == name@ && seeded(self.asked(), ps, ps[j].symbol.id)),
            decreases self.all@.len() - k,
        {
            let s = self.all[k].1;
            assert(ps[k as int].symbol == s@);
            if same(s.name.as_str(), name) && !same(s.kind.as_str(), "file") && self.is_seed(
                s.id.as_str(),
            ) {
                return true;
            }
            k += 1;
        }
        false
    }

    /// Whether a declaration has this name and id.
    fn is_declared(&self, name: &str, id: &str) -> (r: bool)
        ensures
            r == declares(self.placed(), name@, id@),
    {
        let ghost ps = self.placed();
        let mut k: usize = 0;
        while k < self.all.len()
            invariant
                k <= self.all@.len(),
                ps == self.placed(),
                forall|j: int|
                    0 <= j < k ==> !((#[trigger] ps[j]).symbol.kind != "file"@ && ps[j].symbol.name
                        == name@ && ps[j].symbol.id == id@),
            decreases self.all@.len() - k,
        {
            let s = self.all[k].1;
            assert(ps[k as int].symbol == s@);
            if same(s.name.as_str(), name) && same(s.id.as_str(), id) && !same(
                s.kind.as_str(),
                "file",
            ) {
                return true;
            }
            k += 1;
        }
        false
    }

    /// Follows the calls of a file.
    fn follow_calls(&self, f: &FileGraph, scores: &mut Vec<Option<i64>>)
        requires
            self.wf(),
            old(scores)@.len() == self.all@.len(),
        ensures
            final(scores)@.len() == self.all@.len(),
            forall|k: int|
                0 <= k < self.all@.len() ==> #[trigger] final(scores)@[k] == after_calls(
                    self.asked(),
                    self.placed(),
                    f@.graph.edges,
                    self.all@[k].1@.id,
                    old(scores)@[k],
                    f@.graph.edges.len(),
                ),
    {
        let ghost asked = self.asked();
        let ghost ps = self.placed();
        let ghost es = f@.graph.edges;
        let ghost first = scores@;
        let mut i: usize = 0;
        assert(es.len() == f.graph.edges@.len());
        while i < f.graph.edges.len()
            invariant
                i <= f.graph.edges@.len(),
                self.wf(),
                asked == self.asked(),
                ps == self.placed(),
                es == f@.graph.edges,
                es.len() == f.graph.edges@.len(),
                scores@.len() == self.all@.len(),
                first.len() == self.all@.len(),
                forall|k: int|
                    0 <= k < self.all@.len() ==> #[trigger] scores@[k] == after_calls(
                        asked,
                        ps,
                        es,
                        self.all@[k].1@.id,
                        first[k],
                        i as nat,
                    ),
            decreases f.graph.edges@.len() - i,
        {
            let e = &f.graph.edges[i];
            assert(es[i as int] == e@);
            let call = same(e.kind.as_str(), "calls");
            let name = tail(e.target.as_str());
            let out = call && self.is_seed(e.source.as_str());
            let back = call && self.reaches_seed(name.as_str());
            let ghost was = scores@;
            let mut k: usize = 0;
            while k < self.all.len()
                invariant
                    k <= self.all@.len(),
                    es.len() == f.graph.edges@.len(),
                    i < es.len(),
                    es[i as int] == e@,
                    ps == self.placed(),
                    name@ == tail_of(e@.target),
                    call == (e@.kind == "calls"@),
                    out == (call && seeded(asked, ps, e@.source)),
                    back == (call && calls_seed(asked, ps, name@)),
                    scores@.len() == self.all@.len(),
                    was.len() == self.all@.len(),
                    first.len() == self.all@.len(),
                    forall|j: int| k <= j < self.all@.len() ==> #[trigger] scores@[j] == was[j],
                    forall|j: int|
                        0 <= j < self.all@.len() ==> #[trigger] was[j] == after_calls(
                            asked,
                            ps,
                            es,
                            self.all@[j].1@.id,
                            first[j],
                            i as nat,
                        ),
                    forall|j: int|
                        0 <= j < k ==> #[trigger] scores@[j] == after_calls(
                            asked,
                            ps,
                            es,
                            self.all@[j].1@.id,
                            first[j],
                            (i + 1) as nat,
                        ),
                decreases self.all@.len() - k,
            {
                assert(scores@[k as int] == was[k as int]);
                if scores[k].is_none() {
                    let id = self.all[k].1.id.as_str();
                    if out && self.is_declared(name.as_str(), id) {
                        scores.set(k, Some(600));
                    } else if back && same(e.source.as_str(), id) {
                        scores.set(k, Some(500));
                    }
                }
                k += 1;
            }
            i += 1;
        }
    }

    /// Follows the parents of a file's symbols.
    fn follow_parents(&self, f: &FileGraph, scores: &mut Vec<Option<i64>>)
        requires
            self.wf(),
            old(scores)@.len() == self.all@.len(),
        ensures
            final(scores)@.len() == self.all@.len(),
            forall|k: int|
                0 <= k < self.all@.len() ==> #[trigger] final(scores)@[k] == after_parents(
                    self.asked(),
                    self.placed(),
                    f@.graph.symbols,
                    self.all@[k].1@.id,
                    old(scores)@[k],
                    f@.graph.symbols.len(),
                ),
    {
        let ghost asked = self.asked();
        let ghost ps = self.placed();
        let ghost ss = f@.graph.symbols;
        let ghost first = scores@;
        let mut i: usize = 0;
        assert(ss.len() == f.graph.symbols@.len());
        while i < f.graph.symbols.len()
            invariant
                i <= f.graph.symbols@.len(),
                self.wf(),
                asked == self.asked(),
                ps == self.placed(),
                ss == f@.graph.symbols,
                ss.len() == f.graph.symbols@.len(),
                scores@.len() == self.all@.len(),
                first.len() == self.all@.len(),
                forall|k: int|
                    0 <= k < self.all@.len() ==> #[trigger] scores@[k] == after_parents(
                        asked,
                        ps,
                        ss,
                        self.all@[k].1@.id,
                        first[k],
                        i as nat,
                    ),
            decreases f.graph.symbols@.len() - i,
        {
            let s = &f.graph.symbols[i];
            assert(ss[i as int] == s@);
            let seed = self.is_seed(s.id.as_str());
            let ghost was = scores@;
            let mut k: usize = 0;
            while k < self.all.len()
                invariant
                    k <= self.all@.len(),
                    i < ss.len(),
                    ss[i as int] == s@,
                    ps == self.placed(),
                    seed == seeded(asked, ps, s@.id),
                    scores@.len() == self.all@.len(),
                    was.len() == self.all@.len(),
                    first.len() == self.all@.len(),
                    forall|j: int| k <= j < self.all@.len() ==> #[trigger] scores@[j] == was[j],
                    forall|j: int|
                        0 <= j < self.all@.len() ==> #[trigger] was[j] == after_parents(
                            asked,
                            ps,
                            ss,
                            self.all@[j].1@.id,
                            first[j],
                            i as nat,
                        ),
                    forall|j: int|
                        0 <= j < k ==> #[trigger] scores@[j] == after_parents(
                            asked,
                            ps,
                            ss,
                            self.all@[j].1@.id,
                            first[j],
                            (i + 1) as nat,
                        ),
                decreases self.all@.len() - k,
            {
                assert(scores@[k as int] == was[k as int]);
                if seed && scores[k].is_none() {
                    if let Some(parent) = &s.parent {
                        if same(parent.as_str(), self.all[k].1.id.as_str()) {
                            scores.set(k, Some(200));
                        }
                    }
                }
                k += 1;
            }
            i += 1;
        }
    }
}

/// The declarations that a question names, and one step from there: what they
/// call, what calls them and their parents. `terms` are the words that the
/// question is searched by.
pub fn neighborhood(files: &[FileGraph], query: &str, terms: &Vec<String>) -> (r: Vec<Target>)
    ensures
        ({
            let fs = file_models(files@);
            let all = placed(fs, fs.len());
            target_models(r@) == near(
                Asked { query: query@, terms: texts(terms@) },
                fs,
                all,
                all.len(),
            )
        }),
{
    let ghost fs = file_models(files@);
    let all = collect(files);
    let seeds = find_seeds(query, terms, &all);
    let known = Known { query, terms, all, seeds };
    let ghost asked = known.asked();
    let ghost ps = known.placed();
    let mut scores: Vec<Option<i64>> = Vec::new();
    let mut k: usize = 0;
    while k < known.all.len()
        invariant
            k <= known.all@.len(),
            known.wf(),
            asked == known.asked(),
            ps == known.placed(),
            scores@.len() == k,
            forall|j: int|
                0 <= j < k ==> #[trigger] scores@[j] == nearness(
                    asked,
                    ps,
                    fs,
                    known.all@[j].1@.id,
                    0,
                ),
        decreases known.all@.len() - k,
    {
        if known.is_seed(known.all[k].1.id.as_str()) {
            scores.push(Some(1000));
        } else {
            scores.push(None);
        }
        k += 1;
    }
    let mut i: usize = 0;
    while i < files.len()
        invariant
            i <= files@.len(),
            known.wf(),
            fs == file_models(files@),
            asked == known.asked(),
            ps == known.placed(),
            scores@.len() == known.all@.len(),
            forall|j: int|
                0 <= j < known.all@.len() ==> #[trigger] scores@[j] == nearness(
                    asked,
                    ps,
                    fs,
                    known.all@[j].1@.id,
                    i as nat,
                ),
        decreases files@.len() - i,
    {
        assert(fs[i as int] == files@[i as int]@);
        let ghost was = scores@;
        known.follow_calls(&files[i], &mut scores);
        let ghost mid = scores@;
        known.follow_parents(&files[i], &mut scores);
        proof {
            assert forall|j: int| 0 <= j < known.all@.len() implies #[trigger] scores@[j]
                == nearness(asked, ps, fs, known.all@[j].1@.id, (i + 1) as nat) by {
                assert(mid[j] == mid[j]);
                assert(was[j] == was[j]);
            }
        }
        i += 1;
    }
    let mut r: Vec<Target> = Vec::new();
    let mut n: usize = 0;
    assert(target_models(r@) =~= Seq::empty());
    assert(fs.len() == files@.len());
    while n < known.all.len()
        invariant
            n <= known.all@.len(),
            ps == known.placed(),
            scores@.len() == known.all@.len(),
            forall|j: int|
                0 <= j < known.all@.len() ==> #[trigger] scores@[j] == nearness(
                    asked,
                    ps,
                    fs,
                    known.all@[j].1@.id,
                    fs.len(),
                ),
            target_models(r@) == near(asked, fs, ps, n as nat),
        decreases known.all@.len() - n,
    {
        assert(ps[n as int] == (Placed {
            path: known.all@[n as int].0@,
            symbol: known.all@[n as int].1@,
        }));
        assert(scores@[n as int] == nearness(asked, ps, fs, ps[n as int].symbol.id, fs.len()));
        if let Some(score) = scores[n] {
            let s = known.all[n].1;
            let kinds = ["file", "class", "type", "implementation", "module", "interface"];
            assert(kinds@ =~= container_kinds());
            let span = if is_one_of(s.kind.as_str(), kinds.as_slice()) {
                s.signature
            } else {
                s.span
            };
            let t = Target { path: String::from_str(known.all[n].0), span, score };
            assert(target_models(r@.push(t)) =~= target_models(r@).push(t@));
            r.push(t);
        }
        n += 1;
    }
    assert(ps.len() == known.all@.len());
    r
}

} // verus!
