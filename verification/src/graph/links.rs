//! Which file calls which: every call of a project resolved to the files that
//! declare its target, folded and counted.

use vstd::prelude::*;
use vstd::string::StringExecFns;

use super::records::{find_owner, owner_of};
use super::{file_models, tail, tail_of, FileGraph, FileModel};
use crate::code_graph::EdgeModel;
use crate::findings::copy_texts;
use crate::order::{
    lemma_insert_at, lemma_ordered, lemma_positions, lemma_sum_at_least, nats, ordered, positions, sum,
};
use crate::text::{before, precedes, same, texts};

verus! {

/// How many files an ambiguous target names.
pub const AMBIGUOUS_CANDIDATES_MAX: usize = 4;

// ---------------------------------------------------------------------------
// Where a name is declared
// ---------------------------------------------------------------------------

/// The first declaration with a name, from position `from` of a file on.
pub open spec fn declaration(f: FileModel, name: Seq<char>, from: nat) -> Option<int>
    decreases f.graph.symbols.len() - from,
{
    if from >= f.graph.symbols.len() {
        None
    } else if f.graph.symbols[from as int].kind != "file"@ && f.graph.symbols[from as int].name
        == name {
        Some(from as int)
    } else {
        declaration(f, name, from + 1)
    }
}

/// Another file than one declares a name.
pub open spec fn elsewhere(files: Seq<FileModel>, index: int, name: Seq<char>) -> spec_fn(
    int,
) -> bool {
    |i: int| i != index && declaration(files[i], name, 0) is Some
}

/// The other files that declare a name.
pub open spec fn others(files: Seq<FileModel>, index: int, name: Seq<char>) -> Seq<usize> {
    positions(elsewhere(files, index, name), files.len())
}

/// A call that may cross files: where it starts, the one file that declares its
/// target where there is only one, and the name that it calls.
pub struct Key {
    pub from: usize,
    pub owner: Seq<char>,
    pub target: Option<usize>,
    pub to: Seq<char>,
}

/// What becomes of a call.
pub enum Resolved {
    /// No file declares its target.
    Nowhere,
    /// Only its own file declares its target.
    Here,
    /// One other file declares its target, or several files do, its own perhaps
    /// among them.
    Across(Key),
}

/// What becomes of a call of a file.
pub open spec fn resolved(files: Seq<FileModel>, index: int, e: EdgeModel) -> Resolved {
    let name = tail_of(e.target);
    let there = others(files, index, name);
    let here = declaration(files[index], name, 0) is Some;
    let g = files[index].graph;
    let owner = owner_of(g.symbols, e.source, g.symbols.len());
    if there.len() == 0 {
        if here {
            Resolved::Here
        } else {
            Resolved::Nowhere
        }
    } else if there.len() == 1 && !here {
        let f = files[there[0] as int];
        Resolved::Across(
            Key {
                from: index as usize,
                owner,
                target: Some(there[0]),
                to: f.graph.symbols[declaration(f, name, 0)->0].qualified_name,
            },
        )
    } else {
        Resolved::Across(Key { from: index as usize, owner, target: None, to: name })
    }
}

/// A call and how many sites make it.
pub struct Folded {
    pub key: Key,
    pub calls: nat,
}

/// One more site of a call.
pub open spec fn fold_call(list: Seq<Folded>, key: Key) -> Seq<Folded>
    decreases list.len(),
{
    if list.len() == 0 {
        seq![Folded { key, calls: 1 }]
    } else if list[0].key == key {
        list.update(0, Folded { key, calls: list[0].calls + 1 })
    } else {
        seq![list[0]] + fold_call(list.skip(1), key)
    }
}

/// An edge is a call.
pub open spec fn is_call(e: EdgeModel) -> bool {
    e.kind == "calls"@
}

/// The calls between files, once the first `count` edges of a file were seen.
pub open spec fn folded_edges(
    files: Seq<FileModel>,
    index: int,
    start: Seq<Folded>,
    count: nat,
) -> Seq<Folded>
    decreases count,
{
    if count == 0 {
        start
    } else {
        let so_far = folded_edges(files, index, start, (count - 1) as nat);
        let e = files[index].graph.edges[count - 1];
        if !is_call(e) {
            so_far
        } else {
            match resolved(files, index, e) {
                Resolved::Across(key) => fold_call(so_far, key),
                _ => so_far,
            }
        }
    }
}

/// The calls between files, once the first `count` files were seen.
pub open spec fn folded_files(files: Seq<FileModel>, count: nat) -> Seq<Folded>
    decreases count,
{
    if count == 0 {
        Seq::empty()
    } else {
        folded_edges(
            files,
            count - 1,
            folded_files(files, (count - 1) as nat),
            files[count - 1].graph.edges.len(),
        )
    }
}

/// How many of the first `count` edges of a file are calls of what the file
/// itself declares, and no other.
pub open spec fn internal_calls(files: Seq<FileModel>, index: int, count: nat) -> nat
    decreases count,
{
    if count == 0 {
        0
    } else {
        let e = files[index].graph.edges[count - 1];
        internal_calls(files, index, (count - 1) as nat) + if is_call(e) && resolved(
            files,
            index,
            e,
        ) is Here {
            1nat
        } else {
            0nat
        }
    }
}

/// How many of the first `count` edges of a file are calls of what no file
/// declares.
pub open spec fn unresolved_calls(files: Seq<FileModel>, index: int, count: nat) -> nat
    decreases count,
{
    if count == 0 {
        0
    } else {
        let e = files[index].graph.edges[count - 1];
        unresolved_calls(files, index, (count - 1) as nat) + if is_call(e) && resolved(
            files,
            index,
            e,
        ) is Nowhere {
            1nat
        } else {
            0nat
        }
    }
}

/// How many of the first `count` edges of a file are calls.
pub open spec fn calls_in(f: FileModel, count: nat) -> nat
    decreases count,
{
    if count == 0 {
        0
    } else {
        calls_in(f, (count - 1) as nat) + if is_call(f.graph.edges[count - 1]) {
            1nat
        } else {
            0nat
        }
    }
}

/// How many calls the first `count` files make.
pub open spec fn all_calls(files: Seq<FileModel>, count: nat) -> nat
    decreases count,
{
    if count == 0 {
        0
    } else {
        all_calls(files, (count - 1) as nat) + calls_in(
            files[count - 1],
            files[count - 1].graph.edges.len(),
        )
    }
}

/// How many sites make some calls.
pub open spec fn sites(list: Seq<Folded>) -> nat {
    sum(list.map_values(|f: Folded| f.calls))
}

/// The calls of each file that stay in it.
pub open spec fn internal_of(files: Seq<FileModel>, count: nat) -> Seq<nat> {
    Seq::new(count, |i: int| internal_calls(files, i, files[i].graph.edges.len()))
}

/// The calls of each file that lead nowhere.
pub open spec fn unresolved_of(files: Seq<FileModel>, count: nat) -> Seq<nat> {
    Seq::new(count, |i: int| unresolved_calls(files, i, files[i].graph.edges.len()))
}

proof fn lemma_sum_push(s: Seq<nat>, n: nat)
    ensures
        sum(s.push(n)) == sum(s) + n,
{
    assert(s.push(n).drop_last() =~= s);
}

proof fn lemma_sum_concat(n: nat, rest: Seq<nat>)
    ensures
        sum(seq![n] + rest) == n + sum(rest),
    decreases rest.len(),
{
    let all = seq![n] + rest;
    if rest.len() == 0 {
        assert(all.drop_last() =~= Seq::<nat>::empty());
        assert(all.last() == n);
        assert(sum(all.drop_last()) == 0);
    } else {
        assert(all.last() == rest.last());
        assert(all.drop_last() =~= seq![n] + rest.drop_last());
        lemma_sum_concat(n, rest.drop_last());
    }
}

proof fn lemma_fold_call(list: Seq<Folded>, key: Key)
    ensures
        sites(fold_call(list, key)) == sites(list) + 1,
    decreases list.len(),
{
    let count = |f: Folded| f.calls;
    let r = fold_call(list, key);
    if list.len() == 0 {
        assert(r.map_values(count) =~= Seq::<nat>::empty().push(1nat));
        assert(list.map_values(count) =~= Seq::<nat>::empty());
        lemma_sum_push(Seq::<nat>::empty(), 1);
    } else {
        let rest = list.skip(1);
        assert(list.map_values(count) =~= seq![list[0].calls] + rest.map_values(count));
        lemma_sum_concat(list[0].calls, rest.map_values(count));
        if list[0].key == key {
            assert(r.map_values(count) =~= seq![(list[0].calls + 1) as nat] + rest.map_values(count));
            lemma_sum_concat((list[0].calls + 1) as nat, rest.map_values(count));
        } else {
            lemma_fold_call(rest, key);
            let deep = fold_call(rest, key);
            assert(r.map_values(count) =~= seq![list[0].calls] + deep.map_values(count));
            lemma_sum_concat(list[0].calls, deep.map_values(count));
        }
    }
}

proof fn lemma_edges_accounted(files: Seq<FileModel>, index: int, start: Seq<Folded>, count: nat)
    ensures
        sites(folded_edges(files, index, start, count)) + internal_calls(files, index, count)
            + unresolved_calls(files, index, count) == sites(start) + calls_in(files[index], count),
    decreases count,
{
    if count > 0 {
        lemma_edges_accounted(files, index, start, (count - 1) as nat);
        let so_far = folded_edges(files, index, start, (count - 1) as nat);
        let e = files[index].graph.edges[count - 1];
        if is_call(e) {
            match resolved(files, index, e) {
                Resolved::Across(key) => {
                    lemma_fold_call(so_far, key);
                },
                _ => {},
            }
        }
    }
}

/// Every call is accounted for: it crosses files, stays in its own or leads to
/// a name that no file declares.
pub proof fn every_call_is_accounted_for(files: Seq<FileModel>, count: nat)
    requires
        count <= files.len(),
    ensures
        sites(folded_files(files, count)) + sum(internal_of(files, count)) + sum(
            unresolved_of(files, count),
        ) == all_calls(files, count),
    decreases count,
{
    if count > 0 {
        let last = count - 1;
        every_call_is_accounted_for(files, (count - 1) as nat);
        lemma_edges_accounted(
            files,
            last,
            folded_files(files, (count - 1) as nat),
            files[last].graph.edges.len(),
        );
        assert(internal_of(files, count) =~= internal_of(files, (count - 1) as nat).push(
            internal_calls(files, last, files[last].graph.edges.len()),
        ));
        assert(unresolved_of(files, count) =~= unresolved_of(files, (count - 1) as nat).push(
            unresolved_calls(files, last, files[last].graph.edges.len()),
        ));
        lemma_sum_push(
            internal_of(files, (count - 1) as nat),
            internal_calls(files, last, files[last].graph.edges.len()),
        );
        lemma_sum_push(
            unresolved_of(files, (count - 1) as nat),
            unresolved_calls(files, last, files[last].graph.edges.len()),
        );
    } else {
        assert(Seq::<Folded>::empty().map_values(|f: Folded| f.calls) =~= Seq::<nat>::empty());
    }
}

/// A call is resolved only where the name that it calls is declared in no more
/// than one file, which is then another one: an ambiguous call never looks
/// resolved.
pub proof fn resolved_calls_have_one_declaration(
    files: Seq<FileModel>,
    index: int,
    e: EdgeModel,
    file: int,
)
    requires
        files.len() <= usize::MAX,
        0 <= file < files.len(),
        0 <= index < files.len(),
        declaration(files[file], tail_of(e.target), 0) is Some,
    ensures
        resolved(files, index, e) matches Resolved::Across(key) ==> (key.target matches Some(t)
            ==> t == file && t != index),
        resolved(files, index, e) is Here ==> file == index,
        !(resolved(files, index, e) is Nowhere),
{
    let keep = elsewhere(files, index, tail_of(e.target));
    lemma_positions(keep, files.len());
    if file != index {
        assert(keep(file));
    }
}

// ---------------------------------------------------------------------------
// Links
// ---------------------------------------------------------------------------

/// A call that may cross files, folded across every site that makes it.
/// `to_path` is empty where several files declare the target, the caller's own
/// counted, and `candidates` then names some of the others.
pub struct CrossLink {
    pub from_path: String,
    pub from: String,
    pub to_path: String,
    pub to: String,
    pub candidates: Vec<String>,
    pub calls: usize,
}

/// The value of a link.
pub struct LinkModel {
    pub from_path: Seq<char>,
    pub from: Seq<char>,
    pub to_path: Seq<char>,
    pub to: Seq<char>,
    pub candidates: Seq<Seq<char>>,
    pub calls: nat,
}

impl View for CrossLink {
    type V = LinkModel;

    open spec fn view(&self) -> LinkModel {
        LinkModel {
            from_path: self.from_path@,
            from: self.from@,
            to_path: self.to_path@,
            to: self.to@,
            candidates: texts(self.candidates@),
            calls: self.calls as nat,
        }
    }
}

/// The values of a list of links.
pub open spec fn link_models(v: Seq<CrossLink>) -> Seq<LinkModel> {
    v.map_values(|l: CrossLink| l@)
}

/// Some files that declare an ambiguous target.
pub open spec fn candidate_paths(files: Seq<FileModel>, there: Seq<usize>) -> Seq<Seq<char>> {
    there.take(
        if there.len() < AMBIGUOUS_CANDIDATES_MAX {
            there.len() as int
        } else {
            AMBIGUOUS_CANDIDATES_MAX as int
        },
    ).map_values(|i: usize| files[i as int].path)
}

/// The link of a folded call.
pub open spec fn link_of(files: Seq<FileModel>, f: Folded) -> LinkModel {
    LinkModel {
        from_path: files[f.key.from as int].path,
        from: f.key.owner,
        to_path: match f.key.target {
            Some(t) => files[t as int].path,
            None => Seq::empty(),
        },
        to: f.key.to,
        candidates: match f.key.target {
            Some(t) => Seq::empty(),
            None => candidate_paths(files, others(files, f.key.from as int, f.key.to)),
        },
        calls: f.calls,
    }
}

/// The links of some folded calls.
pub open spec fn links_of(files: Seq<FileModel>, list: Seq<Folded>) -> Seq<LinkModel> {
    list.map_values(|f: Folded| link_of(files, f))
}

/// The order of links: by file; resolved ones before ambiguous ones; the busiest
/// first; then by name.
pub open spec fn link_before(a: LinkModel, b: LinkModel) -> bool {
    if a.from_path != b.from_path {
        precedes(a.from_path, b.from_path)
    } else if (a.to_path.len() == 0) != (b.to_path.len() == 0) {
        b.to_path.len() == 0
    } else if a.calls != b.calls {
        a.calls > b.calls
    } else if a.to != b.to {
        precedes(a.to, b.to)
    } else {
        precedes(a.from, b.from)
    }
}

/// The order of the links at some positions.
pub open spec fn link_order(links: Seq<LinkModel>) -> spec_fn(usize, usize) -> bool {
    |a: usize, b: usize| link_before(links[a as int], links[b as int])
}

/// Links in order.
pub open spec fn ordered_links(links: Seq<LinkModel>) -> Seq<LinkModel> {
    ordered(links.len(), link_order(links)).map_values(|i: usize| links[i as int])
}

/// Every call of a project, bucketed so that none is unaccounted for. The
/// counts of calls that stay in a file, or that lead to no declaration, stand in
/// the order of the files' paths.
pub struct LinkIndex {
    pub cross: Vec<CrossLink>,
    pub paths: Vec<String>,
    pub internal: Vec<usize>,
    pub unresolved: Vec<usize>,
}

/// How many sites make the links.
pub open spec fn link_sites(links: Seq<LinkModel>) -> nat {
    sum(links.map_values(|l: LinkModel| l.calls))
}

impl LinkIndex {
    /// The counts belong to files, and together are no more than a number holds.
    pub open spec fn wf(self) -> bool {
        &&& self.internal@.len() == self.paths@.len()
        &&& self.unresolved@.len() == self.paths@.len()
        &&& sum(nats(self.internal@)) <= usize::MAX
        &&& sum(nats(self.unresolved@)) <= usize::MAX
        &&& link_sites(link_models(self.cross@)) <= usize::MAX
    }
}

/// The position of the first declaration with a name.
fn find_declaration(f: &FileGraph, name: &str) -> (r: Option<usize>)
    ensures
        match declaration(f@, name@, 0) {
            Some(k) => r is Some && r->0 == k && 0 <= k < f.graph.symbols@.len(),
            None => r is None,
        },
{
    let ghost m = f@;
    let mut k: usize = 0;
    assert(m.graph.symbols.len() == f.graph.symbols@.len());
    while k < f.graph.symbols.len()
        invariant
            k <= f.graph.symbols@.len(),
            m == f@,
            m.graph.symbols.len() == f.graph.symbols@.len(),
            declaration(m, name@, 0) == declaration(m, name@, k as nat),
        decreases f.graph.symbols@.len() - k,
    {
        assert(m.graph.symbols[k as int] == f.graph.symbols@[k as int]@);
        if same(f.graph.symbols[k].name.as_str(), name) && !same(
            f.graph.symbols[k].kind.as_str(),
            "file",
        ) {
            return Some(k);
        }
        k += 1;
    }
    None
}

/// The other files that declare a name.
fn find_others(files: &[FileGraph], index: usize, name: &str) -> (r: Vec<usize>)
    ensures
        r@ == others(file_models(files@), index as int, name@),
        forall|k: int| 0 <= k < r@.len() ==> (#[trigger] r@[k]) < files@.len(),
{
    let ghost fs = file_models(files@);
    let ghost keep = elsewhere(fs, index as int, name@);
    let mut r: Vec<usize> = Vec::new();
    let mut i: usize = 0;
    while i < files.len()
        invariant
            i <= files@.len(),
            fs == file_models(files@),
            keep == elsewhere(fs, index as int, name@),
            r@ == positions(keep, i as nat),
            forall|k: int| 0 <= k < r@.len() ==> (#[trigger] r@[k]) < files@.len(),
        decreases files@.len() - i,
    {
        assert(fs[i as int] == files@[i as int]@);
        assert(keep(i as int) == (i != index && declaration(fs[i as int], name@, 0) is Some));
        if i != index && find_declaration(&files[i], name).is_some() {
            r.push(i);
        }
        i += 1;
    }
    assert(fs.len() == files@.len());
    r
}

/// A call that was met: where it starts, what it leads to, and how many sites
/// make it.
struct Fold {
    from: usize,
    owner: String,
    target: Option<usize>,
    to: String,
    calls: usize,
}

impl View for Fold {
    type V = Folded;

    closed spec fn view(&self) -> Folded {
        Folded {
            key: Key { from: self.from, owner: self.owner@, target: self.target, to: self.to@ },
            calls: self.calls as nat,
        }
    }
}

spec fn fold_models(v: Seq<Fold>) -> Seq<Folded> {
    v.map_values(|f: Fold| f@)
}

proof fn lemma_fold_at(list: Seq<Folded>, key: Key, at: int)
    requires
        0 <= at <= list.len(),
        forall|k: int| 0 <= k < at ==> (#[trigger] list[k]).key != key,
        at < list.len() ==> list[at].key == key,
    ensures
        fold_call(list, key) == (if at < list.len() {
            list.update(at, Folded { key, calls: list[at].calls + 1 })
        } else {
            list.push(Folded { key, calls: 1 })
        }),
    decreases at,
{
    if at == 0 {
        if list.len() == 0 {
            assert(list.push(Folded { key, calls: 1 }) =~= seq![Folded { key, calls: 1 }]);
        }
    } else {
        let rest = list.skip(1);
        assert forall|k: int| 0 <= k < at - 1 implies (#[trigger] rest[k]).key != key by {
            assert(rest[k] == list[k + 1]);
        }
        lemma_fold_at(rest, key, at - 1);
        assert(list[0].key != key);
        if at < list.len() {
            let f = Folded { key, calls: list[at].calls + 1 };
            assert(seq![list[0]] + rest.update(at - 1, f) =~= list.update(at, f));
        } else {
            let f = Folded { key, calls: 1 };
            assert(seq![list[0]] + rest.push(f) =~= list.push(f));
        }
    }
}

/// Every call that was met starts at a file, and leads to one where its target
/// is known.
spec fn folds_ok(list: Seq<Folded>, files: nat) -> bool {
    forall|k: int|
        0 <= k < list.len() ==> (#[trigger] list[k]).key.from < files && match list[k].key.target {
            Some(t) => t < files,
            None => true,
        }
}

/// One more site of a call.
fn add_call(list: &mut Vec<Fold>, from: usize, owner: String, target: Option<usize>, to: String)
    requires
        sites(fold_models(old(list)@)) < usize::MAX,
    ensures
        fold_models(final(list)@) == fold_call(
            fold_models(old(list)@),
            Key { from, owner: owner@, target, to: to@ },
        ),
{
    let ghost all = fold_models(list@);
    let ghost key = Key { from, owner: owner@, target, to: to@ };
    let mut k: usize = 0;
    let mut found = false;
    while k < list.len() && !found
        invariant
            k <= list@.len(),
            list@ == old(list)@,
            all == fold_models(list@),
            key == (Key { from, owner: owner@, target, to: to@ }),
            forall|j: int| 0 <= j < k ==> (#[trigger] all[j]).key != key,
            found ==> k < list@.len() && all[k as int].key == key,
        decreases list@.len() - k, if found { 0int } else { 1int },
    {
        let f = &list[k];
        assert(all[k as int] == f@);
        let target_same = match (f.target, target) {
            (Some(a), Some(b)) => a == b,
            (None, None) => true,
            _ => false,
        };
        if f.from == from && target_same && same(f.owner.as_str(), owner.as_str()) && same(
            f.to.as_str(),
            to.as_str(),
        ) {
            found = true;
        } else {
            k += 1;
        }
    }
    proof {
        lemma_fold_at(all, key, k as int);
    }
    if found {
        proof {
            let counts = all.map_values(|f: Folded| f.calls);
            assert(all[k as int] == list@[k as int]@);
            assert(counts[k as int] == list@[k as int].calls);
            lemma_sum_at_least(counts, k as int);
        }
        let calls: usize = list[k].calls;
        let f = Fold { from, owner, target, to, calls: calls + 1 };
        assert(fold_models(list@.update(k as int, f)) =~= all.update(k as int, f@));
        list.set(k, f);
    } else {
        let f = Fold { from, owner, target, to, calls: 1 };
        assert(fold_models(list@.push(f)) =~= all.push(f@));
        list.push(f);
    }
}

proof fn lemma_fold_ok(list: Seq<Folded>, key: Key, files: nat)
    requires
        folds_ok(list, files),
        key.from < files,
        match key.target {
            Some(t) => t < files,
            None => true,
        },
    ensures
        folds_ok(fold_call(list, key), files),
    decreases list.len(),
{
    let r = fold_call(list, key);
    if list.len() > 0 && list[0].key != key {
        let rest = list.skip(1);
        assert forall|k: int| 0 <= k < rest.len() implies (#[trigger] rest[k]).key.from < files
            && match rest[k].key.target {
            Some(t) => t < files,
            None => true,
        } by {
            assert(rest[k] == list[k + 1]);
        }
        lemma_fold_ok(rest, key, files);
        let deep = fold_call(rest, key);
        assert forall|k: int| 0 <= k < r.len() implies (#[trigger] r[k]).key.from < files
            && match r[k].key.target {
            Some(t) => t < files,
            None => true,
        } by {
            if k == 0 {
                assert(r[0] == list[0]);
            } else {
                assert(r[k] == deep[k - 1]);
            }
        }
    } else {
        assert forall|k: int| 0 <= k < r.len() implies (#[trigger] r[k]).key.from < files
            && match r[k].key.target {
            Some(t) => t < files,
            None => true,
        } by {
            if k > 0 {
                assert(r[k] == list[k]);
            }
        }
    }
}

/// More calls are counted in more files.
proof fn lemma_all_calls(files: Seq<FileModel>, i: nat, count: nat)
    requires
        i <= count <= files.len(),
    ensures
        all_calls(files, i) <= all_calls(files, count),
    decreases count - i,
{
    if i < count {
        lemma_all_calls(files, i, (count - 1) as nat);
    }
}

proof fn lemma_calls_in(f: FileModel, i: nat, count: nat)
    requires
        i <= count,
    ensures
        calls_in(f, i) <= calls_in(f, count),
    decreases count - i,
{
    if i < count {
        lemma_calls_in(f, i, (count - 1) as nat);
    }
}

/// Follows the calls of one file, and counts those that stay in it or lead
/// nowhere.
fn fold_file(files: &[FileGraph], index: usize, list: &mut Vec<Fold>) -> (r: (usize, usize))
    requires
        index < files@.len(),
        folds_ok(fold_models(old(list)@), files@.len()),
        sites(fold_models(old(list)@)) + calls_in(
            files@[index as int]@,
            files@[index as int]@.graph.edges.len(),
        ) <= usize::MAX,
    ensures
        ({
            let fs = file_models(files@);
            let n = fs[index as int].graph.edges.len();
            &&& folds_ok(fold_models(final(list)@), files@.len())
            &&& fold_models(final(list)@) == folded_edges(
                fs,
                index as int,
                fold_models(old(list)@),
                n,
            )
            &&& r.0 == internal_calls(fs, index as int, n)
            &&& r.1 == unresolved_calls(fs, index as int, n)
        }),
{
    let ghost fs = file_models(files@);
    let ghost start = fold_models(list@);
    let f = &files[index];
    let n: usize = f.graph.edges.len();
    let mut internal: usize = 0;
    let mut unresolved: usize = 0;
    let mut i: usize = 0;
    assert(fs[index as int] == f@);
    assert(f@.graph.edges.len() == n);
    while i < n
        invariant
            i <= n,
            index < files@.len(),
            fs == file_models(files@),
            *f == files@[index as int],
            fs[index as int] == f@,
            n == f.graph.edges@.len(),
            f@.graph.edges.len() == n,
            sites(start) + calls_in(f@, n as nat) <= usize::MAX,
            folds_ok(fold_models(list@), files@.len()),
            fold_models(list@) == folded_edges(fs, index as int, start, i as nat),
            internal == internal_calls(fs, index as int, i as nat),
            unresolved == unresolved_calls(fs, index as int, i as nat),
            internal <= i,
            unresolved <= i,
        decreases n - i,
    {
        let e = &f.graph.edges[i];
        assert(f@.graph.edges[i as int] == e@);
        if same(e.kind.as_str(), "calls") {
            proof {
                lemma_edges_accounted(fs, index as int, start, i as nat);
                lemma_calls_in(f@, (i + 1) as nat, n as nat);
            }
            let name = tail(e.target.as_str());
            let there = find_others(files, index, name.as_str());
            let here = find_declaration(f, name.as_str()).is_some();
            if there.len() == 0 {
                if here {
                    internal += 1;
                } else {
                    unresolved += 1;
                }
            } else {
                let owner = find_owner(&f.graph, e.source.as_str());
                let ghost was = fold_models(list@);
                if there.len() == 1 && !here {
                    let at: usize = there[0];
                    proof {
                        assert(fs.len() == files@.len());
                        assert(files.len() == files@.len());
                        let keep = elsewhere(fs, index as int, name@);
                        lemma_positions(keep, fs.len());
                        assert(keep(there@[0] as int));
                        assert(declaration(fs[at as int], name@, 0) is Some);
                        assert(fs[at as int] == files@[at as int]@);
                    }
                    let to = match find_declaration(&files[at], name.as_str()) {
                        Some(k) => {
                            assert(fs[at as int].graph.symbols[k as int]
                                == files@[at as int].graph.symbols@[k as int]@);
                            files[at].graph.symbols[k].qualified_name.clone()
                        },
                        None => String::new(),
                    };
                    proof {
                        lemma_fold_ok(
                            was,
                            Key { from: index, owner: owner@, target: Some(at), to: to@ },
                            files@.len(),
                        );
                    }
                    assert(resolved(fs, index as int, e@) == Resolved::Across(
                        Key { from: index, owner: owner@, target: Some(at), to: to@ },
                    ));
                    add_call(list, index, owner, Some(at), to);
                } else {
                    proof {
                        lemma_fold_ok(
                            was,
                            Key { from: index, owner: owner@, target: None, to: name@ },
                            files@.len(),
                        );
                    }
                    assert(resolved(fs, index as int, e@) == Resolved::Across(
                        Key { from: index, owner: owner@, target: None, to: name@ },
                    ));
                    add_call(list, index, owner, None, name);
                }
            }
        }
        i += 1;
    }
    (internal, unresolved)
}

/// The link of a call that was met.
fn to_link(files: &[FileGraph], f: &Fold) -> (r: CrossLink)
    requires
        f.from < files@.len(),
        match f.target {
            Some(t) => t < files@.len(),
            None => true,
        },
    ensures
        r@ == link_of(file_models(files@), f@),
{
    let ghost fs = file_models(files@);
    assert(fs[f.from as int] == files@[f.from as int]@);
    let mut candidates: Vec<String> = Vec::new();
    assert(texts(candidates@) =~= Seq::empty());
    let to_path = match f.target {
        Some(t) => {
            assert(fs[t as int] == files@[t as int]@);
            files[t].path.clone()
        },
        None => {
            let there = find_others(files, f.from, f.to.as_str());
            let ghost goal = candidate_paths(fs, there@);
            let n: usize = if there.len() < AMBIGUOUS_CANDIDATES_MAX {
                there.len()
            } else {
                AMBIGUOUS_CANDIDATES_MAX
            };
            let mut k: usize = 0;
            assert(texts(candidates@) =~= goal.take(0));
            while k < n
                invariant
                    k <= n <= there@.len(),
                    goal.len() == n,
                    fs == file_models(files@),
                    forall|j: int| 0 <= j < n ==> #[trigger] goal[j] == fs[there@[j] as int].path,
                    forall|j: int| 0 <= j < there@.len() ==> (#[trigger] there@[j]) < files@.len(),
                    texts(candidates@) == goal.take(k as int),
                decreases n - k,
            {
                let at: usize = there[k];
                assert(fs[at as int] == files@[at as int]@);
                let path = files[at].path.clone();
                assert(texts(candidates@.push(path)) =~= texts(candidates@).push(path@));
                assert(goal.take(k + 1) =~= goal.take(k as int).push(goal[k as int]));
                candidates.push(path);
                k += 1;
            }
            assert(goal.take(n as int) =~= goal);
            String::new()
        },
    };
    assert(to_path@ =~= link_of(fs, f@).to_path);
    CrossLink {
        from_path: files[f.from].path.clone(),
        from: f.owner.clone(),
        to_path,
        to: f.to.clone(),
        candidates,
        calls: f.calls,
    }
}

/// Whether a link comes before another.
fn comes_before(a: &CrossLink, b: &CrossLink) -> (r: bool)
    ensures
        r == link_before(a@, b@),
{
    let empty_a = a.to_path.as_str().unicode_len() == 0;
    let empty_b = b.to_path.as_str().unicode_len() == 0;
    if !same(a.from_path.as_str(), b.from_path.as_str()) {
        before(a.from_path.as_str(), b.from_path.as_str())
    } else if empty_a != empty_b {
        empty_b
    } else if a.calls != b.calls {
        a.calls > b.calls
    } else if !same(a.to.as_str(), b.to.as_str()) {
        before(a.to.as_str(), b.to.as_str())
    } else {
        before(a.from.as_str(), b.from.as_str())
    }
}

/// A link that says the same.
fn copy_link(l: &CrossLink) -> (r: CrossLink)
    ensures
        r@ == l@,
{
    CrossLink {
        from_path: l.from_path.clone(),
        from: l.from.clone(),
        to_path: l.to_path.clone(),
        to: l.to.clone(),
        candidates: copy_texts(&l.candidates),
        calls: l.calls,
    }
}

/// Puts links into their order.
fn sort_links(links: &Vec<CrossLink>) -> (r: Vec<CrossLink>)
    ensures
        link_models(r@) == ordered_links(link_models(links@)),
{
    let ghost ls = link_models(links@);
    let ghost less = link_order(ls);
    let mut order: Vec<usize> = Vec::new();
    let mut i: usize = 0;
    assert(ls.len() == links@.len());
    while i < links.len()
        invariant
            i <= links@.len(),
            ls == link_models(links@),
            less == link_order(ls),
            order@ == ordered(i as nat, less),
        decreases links@.len() - i,
    {
        proof {
            lemma_ordered(i as nat, less);
            assert forall|k: int| 0 <= k < order@.len() implies (#[trigger] order@[k]) < i by {
                assert(order@.contains(order@[k]));
            }
        }
        let mut at: usize = order.len();
        assert(ls[i as int] == links@[i as int]@);
        while at > 0 && comes_before(&links[i], &links[order[at - 1]])
            invariant
                at <= order@.len(),
                i < links@.len(),
                ls == link_models(links@),
                less == link_order(ls),
                ls[i as int] == links@[i as int]@,
                forall|k: int| 0 <= k < order@.len() ==> (#[trigger] order@[k]) < i,
                forall|k: int| at <= k < order@.len() ==> less(i, #[trigger] order@[k]),
            decreases at,
        {
            assert(ls[order@[at - 1] as int] == links@[order@[at - 1] as int]@);
            at -= 1;
        }
        proof {
            if at > 0 {
                assert(ls[order@[at - 1] as int] == links@[order@[at - 1] as int]@);
            }
            lemma_insert_at(order@, i, less, at as int);
        }
        order.insert(at, i);
        i += 1;
    }
    let ghost goal = ordered_links(ls);
    proof {
        assert(links.len() == links@.len());
        lemma_ordered(ls.len(), less);
    }
    let mut r: Vec<CrossLink> = Vec::new();
    let mut k: usize = 0;
    assert(link_models(r@) =~= goal.take(0));
    while k < order.len()
        invariant
            k <= order@.len(),
            ls == link_models(links@),
            ls.len() == links@.len(),
            goal == order@.map_values(|i: usize| ls[i as int]),
            forall|y: usize| #[trigger] order@.contains(y) <==> y < ls.len(),
            link_models(r@) == goal.take(k as int),
        decreases order@.len() - k,
    {
        assert(order@.contains(order@[k as int]));
        assert(ls[order@[k as int] as int] == links@[order@[k as int] as int]@);
        let l = copy_link(&links[order[k]]);
        assert(link_models(r@.push(l)) =~= link_models(r@).push(l@));
        assert(goal.take(k + 1) =~= goal.take(k as int).push(l@));
        r.push(l);
        k += 1;
    }
    assert(goal.take(k as int) =~= goal);
    r
}

/// Resolves every call of a project to the files that declare its target, and
/// folds the sites of one call into one link.
pub fn resolve_links(files: &[FileGraph]) -> (r: LinkIndex)
    requires
        all_calls(file_models(files@), files@.len()) <= usize::MAX,
    ensures
        ({
            let fs = file_models(files@);
            &&& link_models(r.cross@) == ordered_links(links_of(fs, folded_files(fs, fs.len())))
            &&& texts(r.paths@) == fs.map_values(|f: FileModel| f.path)
            &&& nats(r.internal@) == internal_of(fs, fs.len())
            &&& nats(r.unresolved@) == unresolved_of(fs, fs.len())
            &&& r.wf()
        }),
{
    let ghost fs = file_models(files@);
    let ghost names = fs.map_values(|f: FileModel| f.path);
    let n: usize = files.len();
    let mut list: Vec<Fold> = Vec::new();
    let mut paths: Vec<String> = Vec::new();
    let mut internal: Vec<usize> = Vec::new();
    let mut unresolved: Vec<usize> = Vec::new();
    let mut i: usize = 0;
    proof {
        assert(fs.len() == n);
        assert(fold_models(list@) =~= Seq::empty());
        assert(texts(paths@) =~= names.take(0));
        assert(nats(internal@) =~= internal_of(fs, 0));
        assert(nats(unresolved@) =~= unresolved_of(fs, 0));
    }
    while i < n
        invariant
            i <= n,
            n == files@.len(),
            fs == file_models(files@),
            fs.len() == n,
            names == fs.map_values(|f: FileModel| f.path),
            all_calls(fs, n as nat) <= usize::MAX,
            folds_ok(fold_models(list@), n as nat),
            fold_models(list@) == folded_files(fs, i as nat),
            texts(paths@) == names.take(i as int),
            nats(internal@) == internal_of(fs, i as nat),
            nats(unresolved@) == unresolved_of(fs, i as nat),
        decreases n - i,
    {
        assert(fs[i as int] == files@[i as int]@);
        proof {
            every_call_is_accounted_for(fs, i as nat);
            lemma_all_calls(fs, (i + 1) as nat, n as nat);
        }
        let (inside, nowhere) = fold_file(files, i, &mut list);
        let path = files[i].path.clone();
        proof {
            assert(texts(paths@.push(path)) =~= texts(paths@).push(path@));
            assert(names.take(i + 1) =~= names.take(i as int).push(path@));
            assert(nats(internal@.push(inside)) =~= internal_of(fs, (i + 1) as nat)) by {
                assert(nats(internal@.push(inside)) =~= nats(internal@).push(inside as nat));
                assert(internal_of(fs, (i + 1) as nat) =~= internal_of(fs, i as nat).push(
                    inside as nat,
                ));
            }
            assert(nats(unresolved@.push(nowhere)) =~= unresolved_of(fs, (i + 1) as nat)) by {
                assert(nats(unresolved@.push(nowhere)) =~= nats(unresolved@).push(nowhere as nat));
                assert(unresolved_of(fs, (i + 1) as nat) =~= unresolved_of(fs, i as nat).push(
                    nowhere as nat,
                ));
            }
        }
        paths.push(path);
        internal.push(inside);
        unresolved.push(nowhere);
        i += 1;
    }
    assert(names.take(n as int) =~= names);
    let ghost goal = links_of(fs, folded_files(fs, n as nat));
    let mut links: Vec<CrossLink> = Vec::new();
    let mut k: usize = 0;
    assert(link_models(links@) =~= goal.take(0));
    while k < list.len()
        invariant
            k <= list@.len(),
            n == files@.len(),
            fs == file_models(files@),
            folds_ok(fold_models(list@), n as nat),
            goal == links_of(fs, fold_models(list@)),
            link_models(links@) == goal.take(k as int),
        decreases list@.len() - k,
    {
        assert(fold_models(list@)[k as int] == list@[k as int]@);
        let l = to_link(files, &list[k]);
        assert(link_models(links@.push(l)) =~= link_models(links@).push(l@));
        assert(goal.take(k + 1) =~= goal.take(k as int).push(l@));
        links.push(l);
        k += 1;
    }
    assert(goal.take(k as int) =~= goal);
    let cross = sort_links(&links);
    proof {
        every_call_is_accounted_for(fs, n as nat);
        let counts = goal.map_values(|l: LinkModel| l.calls);
        assert(counts =~= folded_files(fs, n as nat).map_values(|f: Folded| f.calls));
        assert(links.len() == links@.len());
        lemma_ordered_sites(goal);
    }
    LinkIndex { cross, paths, internal, unresolved }
}

/// Putting links into order changes no count.
proof fn lemma_ordered_sites(links: Seq<LinkModel>)
    requires
        links.len() <= usize::MAX,
    ensures
        link_sites(ordered_links(links)) == link_sites(links),
{
    let order = ordered(links.len(), link_order(links));
    lemma_ordered(links.len(), link_order(links));
    let counts = links.map_values(|l: LinkModel| l.calls);
    lemma_sum_permuted(order, counts, counts.len());
    assert forall|k: int| 0 <= k < order.len() implies (#[trigger] order[k]) < links.len() by {
        assert(order.contains(order[k]));
    }
    assert(ordered_links(links).map_values(|l: LinkModel| l.calls) =~= order.map_values(
        |i: usize| counts[i as int],
    ));
    assert(counts.take(counts.len() as int) =~= counts);
}

/// The numbers at positions that are listed once each add up to the sum.
proof fn lemma_sum_permuted(order: Seq<usize>, counts: Seq<nat>, n: nat)
    requires
        n <= counts.len() <= usize::MAX,
        order.len() == n,
        order.no_duplicates(),
        forall|y: usize| #[trigger] order.contains(y) <==> y < n,
    ensures
        sum(order.map_values(|i: usize| counts[i as int])) == sum(counts.take(n as int)),
    decreases n,
{
    let at = |i: usize| counts[i as int];
    if n == 0 {
        assert(order.map_values(at) =~= Seq::<nat>::empty());
        assert(counts.take(0) =~= Seq::<nat>::empty());
    } else {
        let last = (n - 1) as usize;
        assert(order.contains(last));
        let k = choose|k: int| 0 <= k < order.len() && order[k] == last;
        let rest = order.remove(k);
        assert forall|y: usize| #[trigger] rest.contains(y) <==> y < n - 1 by {
            if rest.contains(y) {
                let j = choose|j: int| 0 <= j < rest.len() && rest[j] == y;
                let oj = if j < k {
                    j
                } else {
                    j + 1
                };
                assert(order[oj] == y);
                assert(order.contains(y));
                assert(y != last);
            }
            if y < n - 1 {
                assert(order.contains(y));
                let j = choose|j: int| 0 <= j < order.len() && order[j] == y;
                if j < k {
                    assert(rest[j] == y);
                } else {
                    assert(rest[j - 1] == y);
                }
            }
        }
        lemma_sum_permuted(rest, counts, (n - 1) as nat);
        lemma_sum_remove(order.map_values(at), k);
        assert(order.map_values(at).remove(k) =~= rest.map_values(at));
        assert(counts.take(n as int).drop_last() =~= counts.take(n - 1));
    }
}

proof fn lemma_sum_remove(s: Seq<nat>, k: int)
    requires
        0 <= k < s.len(),
    ensures
        sum(s) == sum(s.remove(k)) + s[k],
    decreases s.len(),
{
    if k == s.len() - 1 {
        assert(s.remove(k) =~= s.drop_last());
    } else {
        lemma_sum_remove(s.drop_last(), k);
        assert(s.remove(k).drop_last() =~= s.drop_last().remove(k));
        assert(s.remove(k).last() == s.last());
    }
}

} // verus!
