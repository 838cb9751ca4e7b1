//! How files connect: every call is resolved by who declares its target, and
//! every link counts all of its sites.

use vstd::prelude::*;

use super::lists::{firsts, has_key, is_first, lemma_firsts_push, upto};
use crate::code_graph::EdgeModel;
use crate::graph::links::{
    declaration, elsewhere, fold_call, folded_edges, folded_files, internal_calls, link_before, link_order,
    ordered_links, others, resolved, unresolved_calls, Folded, Key, LinkModel, Resolved,
};
use crate::graph::{tail_of, FileModel};
use crate::order::{
    lemma_filter_none, lemma_filter_step, lemma_ordered, lemma_positions, ordered,
    orderings_are_in_order, weak_order,
};
use crate::text::{precedes, texts_are_ordered, the_order_of_texts_is_transitive};

verus! {

/// A file declares a name: one of its symbols but the file itself has it.
pub open spec fn declares_name(f: FileModel, name: Seq<char>) -> bool {
    exists|k: int|
        0 <= k < f.graph.symbols.len() && (#[trigger] f.graph.symbols[k]).name == name
            && f.graph.symbols[k].kind != "file"@
}

proof fn lemma_declares(f: FileModel, name: Seq<char>, from: nat)
    ensures
        match declaration(f, name, from) {
            Some(k) => from <= k < f.graph.symbols.len() && f.graph.symbols[k].name == name
                && f.graph.symbols[k].kind != "file"@ && forall|j: int|
                from <= j < k ==> !((#[trigger] f.graph.symbols[j]).name == name
                    && f.graph.symbols[j].kind != "file"@),
            None => forall|j: int|
                from <= j < f.graph.symbols.len() ==> !((#[trigger] f.graph.symbols[j]).name == name
                    && f.graph.symbols[j].kind != "file"@),
        },
    decreases f.graph.symbols.len() - from,
{
    if from < f.graph.symbols.len() {
        lemma_declares(f, name, from + 1);
    }
}

proof fn lemma_declared(f: FileModel, name: Seq<char>)
    ensures
        declaration(f, name, 0) is Some == declares_name(f, name),
{
    lemma_declares(f, name, 0);
    if let Some(k) = declaration(f, name, 0) {
        assert(f.graph.symbols[k].name == name);
    }
}

/// Only one of the files declares a name.
pub open spec fn only_declarer(files: Seq<FileModel>, name: Seq<char>, t: int) -> bool {
    &&& 0 <= t < files.len()
    &&& declares_name(files[t], name)
    &&& forall|i: int| 0 <= i < files.len() && i != t ==> !declares_name(#[trigger] files[i], name)
}

/// No file declares a name.
pub open spec fn nobody_declares(files: Seq<FileModel>, name: Seq<char>) -> bool {
    forall|i: int| 0 <= i < files.len() ==> !declares_name(#[trigger] files[i], name)
}

/// A call is resolved by who declares the name that it calls: nobody, its own
/// file only, one other file only, or several.
pub proof fn calls_are_resolved_by_declarations(files: Seq<FileModel>, index: int, e: EdgeModel)
    requires
        0 <= index < files.len() <= usize::MAX,
    ensures
        ({
            let name = tail_of(e.target);
            let r = resolved(files, index, e);
            &&& r is Nowhere <==> nobody_declares(files, name)
            &&& r is Here <==> only_declarer(files, name, index)
            &&& forall|t: int| #[trigger]
                only_declarer(files, name, t) && t != index ==> r is Across && r->Across_0.target
                    == Some(t as usize)
            &&& (r matches Resolved::Across(key) ==> key.from == index && match key.target {
                Some(t) => only_declarer(files, name, t as int) && t != index,
                None => key.to == name,
            })
        }),
{
    let name = tail_of(e.target);
    let keep = elsewhere(files, index, name);
    let there = others(files, index, name);
    lemma_positions(keep, files.len());
    assert forall|i: int| 0 <= i < files.len() implies declares_name(#[trigger] files[i], name) == (
    declaration(files[i], name, 0) is Some) by {
        lemma_declared(files[i], name);
    }
    let own = files[index];
    if there.len() == 0 {
        assert forall|i: int| 0 <= i < files.len() && i != index implies !declares_name(
            #[trigger] files[i],
            name,
        ) by {
            if declares_name(files[i], name) {
                assert(keep(i));
                assert(there.contains(i as usize));
            }
        }
    } else {
        let t = there[0] as int;
        assert(keep(t));
        assert(declares_name(files[t], name));
        if there.len() == 1 {
            assert forall|i: int| 0 <= i < files.len() && i != index && i != t implies !declares_name(
                #[trigger] files[i],
                name,
            ) by {
                if declares_name(files[i], name) {
                    assert(keep(i));
                    assert(there.contains(i as usize));
                }
            }
        } else {
            let u = there[1] as int;
            assert(there[0] < there[1]);
            assert(keep(u));
            assert(declares_name(files[u], name));
        }
    }
}

// ---------------------------------------------------------------------------
// Sites
// ---------------------------------------------------------------------------

/// A call that may cross files.
pub open spec fn crosses(files: Seq<FileModel>, index: int) -> spec_fn(EdgeModel) -> bool {
    |e: EdgeModel| e.kind == "calls"@ && resolved(files, index, e) is Across
}

/// A call that stays in its file.
pub open spec fn stays(files: Seq<FileModel>, index: int) -> spec_fn(EdgeModel) -> bool {
    |e: EdgeModel| e.kind == "calls"@ && resolved(files, index, e) is Here
}

/// A call that leads nowhere.
pub open spec fn leads_nowhere(files: Seq<FileModel>, index: int) -> spec_fn(EdgeModel) -> bool {
    |e: EdgeModel| e.kind == "calls"@ && resolved(files, index, e) is Nowhere
}

/// What tells a call that may cross files from others.
pub open spec fn call_key(files: Seq<FileModel>, index: int) -> spec_fn(EdgeModel) -> Key {
    |e: EdgeModel| resolved(files, index, e)->Across_0
}

/// The calls of a file that may cross files, site by site.
pub open spec fn crossing_calls(files: Seq<FileModel>) -> spec_fn(int) -> Seq<Key> {
    |i: int| files[i].graph.edges.filter(crosses(files, i)).map_values(call_key(files, i))
}

/// A key as what tells keys apart.
pub open spec fn own_key() -> spec_fn(Key) -> Key {
    |k: Key| k
}

/// The key of a folded call.
pub open spec fn folded_key() -> spec_fn(Folded) -> Key {
    |f: Folded| f.key
}

/// Folded calls are those of a list of sites, each once, where it comes first,
/// with the number of its sites.
pub open spec fn folds(list: Seq<Folded>, calls: Seq<Key>) -> bool {
    &&& list.map_values(folded_key()) == firsts(calls, own_key())
    &&& forall|k: int|
        0 <= k < list.len() ==> (#[trigger] list[k]).calls == calls.to_multiset().count(list[k].key)
}

proof fn lemma_fold(list: Seq<Folded>, key: Key)
    requires
        list.map_values(folded_key()).no_duplicates(),
    ensures
        ({
            let now = fold_call(list, key);
            let keys = list.map_values(folded_key());
            &&& keys.contains(key) ==> now.map_values(folded_key()) == keys
            &&& !keys.contains(key) ==> now.map_values(folded_key()) == keys.push(key)
            &&& forall|k: int|
                0 <= k < now.len() ==> (#[trigger] now[k]).calls == (if k < list.len() {
                    list[k].calls
                } else {
                    0
                }) + if now[k].key == key {
                    1nat
                } else {
                    0nat
                }
        }),
    decreases list.len(),
{
    let f = folded_key();
    let now = fold_call(list, key);
    let keys = list.map_values(f);
    if list.len() == 0 {
        assert(now.map_values(f) =~= keys.push(key));
    } else if list[0].key == key {
        assert(keys[0] == key);
        assert(now.map_values(f) =~= keys);
        assert forall|k: int| 0 <= k < now.len() implies (#[trigger] now[k]).calls == (if k
            < list.len() {
            list[k].calls
        } else {
            0
        }) + if now[k].key == key {
            1nat
        } else {
            0nat
        } by {
            if k > 0 {
                assert(keys[k] != keys[0]);
            }
        }
    } else {
        let rest = list.skip(1);
        let others = rest.map_values(f);
        assert(others =~= keys.skip(1));
        assert(others.no_duplicates()) by {
            assert forall|i: int, j: int|
                0 <= i < others.len() && 0 <= j < others.len() && i != j implies others[i]
                != others[j] by {
                assert(keys[i + 1] != keys[j + 1]);
            }
        }
        lemma_fold(rest, key);
        let inner = fold_call(rest, key);
        assert(now == seq![list[0]] + inner);
        assert(now.map_values(f) =~= seq![keys[0]] + inner.map_values(f));
        if keys.contains(key) {
            let k = choose|k: int| 0 <= k < keys.len() && keys[k] == key;
            assert(others[k - 1] == key);
            assert(seq![keys[0]] + others =~= keys);
        } else {
            if others.contains(key) {
                let k = choose|k: int| 0 <= k < others.len() && others[k] == key;
                assert(keys[k + 1] == key);
            }
            assert(seq![keys[0]] + others.push(key) =~= keys.push(key));
        }
        assert forall|k: int| 0 <= k < now.len() implies (#[trigger] now[k]).calls == (if k
            < list.len() {
            list[k].calls
        } else {
            0
        }) + if now[k].key == key {
            1nat
        } else {
            0nat
        } by {
            if k > 0 {
                assert(now[k] == inner[k - 1]);
                if k < list.len() {
                    assert(rest[k - 1] == list[k]);
                }
            }
        }
    }
}

proof fn lemma_firsts_distinct(calls: Seq<Key>)
    ensures
        firsts(calls, own_key()).no_duplicates(),
    decreases calls.len(),
{
    if calls.len() == 0 {
        lemma_filter_none(upto(0), is_first(calls, own_key()));
        assert(upto(0) =~= upto(0).take(0));
        assert(firsts(calls, own_key()) =~= Seq::empty());
    } else {
        let t = calls.drop_last();
        let x = calls.last();
        lemma_firsts_distinct(t);
        assert(t.push(x) =~= calls);
        lemma_firsts_push(t, own_key(), x);
        let old = firsts(t, own_key());
        assert(forall|k: int| 0 <= k < old.len() ==> own_key()(#[trigger] old[k]) == old[k]);
    }
}

proof fn lemma_folds_push(list: Seq<Folded>, calls: Seq<Key>, key: Key)
    requires
        folds(list, calls),
    ensures
        folds(fold_call(list, key), calls.push(key)),
{
    broadcast use vstd::seq_lib::group_to_multiset_ensures;

    let old = firsts(calls, own_key());
    let f = folded_key();
    lemma_firsts_distinct(calls);
    lemma_firsts_push(calls, own_key(), key);
    lemma_fold(list, key);
    let now = fold_call(list, key);
    if old.contains(key) {
        let k = choose|k: int| 0 <= k < old.len() && old[k] == key;
        assert(own_key()(old[k]) == key);
    }
    if has_key(old, own_key(), key) {
        let k = choose|k: int| 0 <= k < old.len() && own_key()(#[trigger] old[k]) == key;
        assert(old[k] == key);
    }
    let more = calls.push(key);
    assert(more.to_multiset() =~= calls.to_multiset().insert(key));
    assert forall|k: int| 0 <= k < now.len() implies (#[trigger] now[k]).calls
        == more.to_multiset().count(now[k].key) by {
        assert(now.map_values(f)[k] == now[k].key);
        if k < list.len() {
            assert(list.map_values(f)[k] == list[k].key);
            assert(now[k].key == list[k].key);
        } else {
            let keys = list.map_values(f);
            assert(now.map_values(f).len() == now.len());
            assert(!keys.contains(key));
            assert(now.map_values(f) == keys.push(key));
            assert(keys.push(key)[k] == key);
            assert(!has_key(calls, own_key(), key));
            if calls.contains(key) {
                let j = choose|j: int| 0 <= j < calls.len() && calls[j] == key;
                assert(own_key()(calls[j]) == key);
            }
            assert(calls.to_multiset().count(key) == 0);
        }
    }
}

proof fn lemma_edges(
    files: Seq<FileModel>,
    index: int,
    start: Seq<Folded>,
    calls: Seq<Key>,
    count: nat,
)
    requires
        0 <= index < files.len(),
        count <= files[index].graph.edges.len(),
        folds(start, calls),
    ensures
        folds(
            folded_edges(files, index, start, count),
            calls + files[index].graph.edges.take(count as int).filter(
                crosses(files, index),
            ).map_values(call_key(files, index)),
        ),
        internal_calls(files, index, count) == files[index].graph.edges.take(count as int).filter(
            stays(files, index),
        ).len(),
        unresolved_calls(files, index, count) == files[index].graph.edges.take(
            count as int,
        ).filter(leads_nowhere(files, index)).len(),
    decreases count,
{
    let edges = files[index].graph.edges;
    let keep = crosses(files, index);
    let f = call_key(files, index);
    lemma_filter_none(edges, keep);
    lemma_filter_none(edges, stays(files, index));
    lemma_filter_none(edges, leads_nowhere(files, index));
    if count == 0 {
        assert(calls + Seq::<EdgeModel>::empty().map_values(f) =~= calls);
    } else {
        let n = count - 1;
        lemma_edges(files, index, start, calls, n as nat);
        lemma_filter_step(edges, keep, n);
        lemma_filter_step(edges, stays(files, index), n);
        lemma_filter_step(edges, leads_nowhere(files, index), n);
        let before = edges.take(n).filter(keep);
        let had = calls + before.map_values(f);
        if keep(edges[n]) {
            lemma_folds_push(folded_edges(files, index, start, n as nat), had, f(edges[n]));
            assert(calls + before.push(edges[n]).map_values(f) =~= had.push(f(edges[n])));
        }
    }
}

proof fn lemma_files(files: Seq<FileModel>, count: nat)
    requires
        count <= files.len(),
    ensures
        folds(
            folded_files(files, count),
            upto(files.len()).take(count as int).flat_map(crossing_calls(files)),
        ),
    decreases count,
{
    let at = upto(files.len());
    let f = crossing_calls(files);
    if count == 0 {
        assert(at.take(0).map_values(f) =~= Seq::empty());
        let none = Seq::<Key>::empty();
        lemma_filter_none(upto(0), is_first(none, own_key()));
        assert(upto(0) =~= upto(0).take(0));
        assert(firsts(none, own_key()) =~= none);
        assert(Seq::<Folded>::empty().map_values(folded_key()) =~= none);
    } else {
        let n = count - 1;
        lemma_files(files, n as nat);
        at.lemma_flat_map_take_append(f, n);
        assert(at[n] == n);
        let edges = files[n].graph.edges;
        lemma_edges(
            files,
            n,
            folded_files(files, n as nat),
            at.take(n).flat_map(f),
            edges.len(),
        );
        assert(edges.take(edges.len() as int) =~= edges);
    }
}

/// Every call that may cross files is folded into the link of its kind, which
/// counts all of its sites; and the others are counted with their files.
pub proof fn links_count_all_their_sites(files: Seq<FileModel>)
    ensures
        folds(
            folded_files(files, files.len()),
            upto(files.len()).flat_map(crossing_calls(files)),
        ),
        forall|i: int|
            0 <= i < files.len() ==> internal_calls(
                files,
                i,
                (#[trigger] files[i]).graph.edges.len(),
            ) == files[i].graph.edges.filter(stays(files, i)).len() && unresolved_calls(
                files,
                i,
                files[i].graph.edges.len(),
            ) == files[i].graph.edges.filter(leads_nowhere(files, i)).len(),
{
    lemma_files(files, files.len());
    assert(upto(files.len()).take(files.len() as int) =~= upto(files.len()));
    assert forall|i: int| 0 <= i < files.len() implies internal_calls(
        files,
        i,
        (#[trigger] files[i]).graph.edges.len(),
    ) == files[i].graph.edges.filter(stays(files, i)).len() && unresolved_calls(
        files,
        i,
        files[i].graph.edges.len(),
    ) == files[i].graph.edges.filter(leads_nowhere(files, i)).len() by {
        let edges = files[i].graph.edges;
        let none = Seq::<Key>::empty();
        lemma_filter_none(upto(0), is_first(none, own_key()));
        assert(upto(0) =~= upto(0).take(0));
        assert(firsts(none, own_key()) =~= none);
        assert(Seq::<Folded>::empty().map_values(folded_key()) =~= none);
        lemma_edges(files, i, Seq::empty(), none, edges.len());
        assert(edges.take(edges.len() as int) =~= edges);
    }
}

// ---------------------------------------------------------------------------
// Order
// ---------------------------------------------------------------------------

proof fn lemma_link_order(a: LinkModel, b: LinkModel, c: LinkModel)
    ensures
        link_before(a, b) ==> !link_before(b, a),
        !link_before(b, a) && !link_before(c, b) ==> !link_before(c, a),
{
    texts_are_ordered(a.from_path, b.from_path);
    texts_are_ordered(b.from_path, c.from_path);
    texts_are_ordered(a.from_path, c.from_path);
    texts_are_ordered(a.to, b.to);
    texts_are_ordered(b.to, c.to);
    texts_are_ordered(a.to, c.to);
    texts_are_ordered(a.from, b.from);
    texts_are_ordered(b.from, c.from);
    texts_are_ordered(a.from, c.from);
    if precedes(a.from_path, b.from_path) && precedes(b.from_path, c.from_path) {
        the_order_of_texts_is_transitive(a.from_path, b.from_path, c.from_path);
    }
    if precedes(a.to, b.to) && precedes(b.to, c.to) {
        the_order_of_texts_is_transitive(a.to, b.to, c.to);
    }
    if precedes(a.from, b.from) && precedes(b.from, c.from) {
        the_order_of_texts_is_transitive(a.from, b.from, c.from);
    }
}

/// Links are all there and in order: by the file that calls, the resolved ones
/// before the ambiguous ones, and of these the busiest first.
pub proof fn links_are_in_order(links: Seq<LinkModel>)
    requires
        links.len() <= usize::MAX,
    ensures
        ordered_links(links).len() == links.len(),
        forall|l: LinkModel| #[trigger] ordered_links(links).contains(l) <==> links.contains(l),
        forall|i: int, j: int|
            0 <= i < j < links.len() ==> {
                let a = #[trigger] ordered_links(links)[i];
                let b = #[trigger] ordered_links(links)[j];
                &&& a.from_path == b.from_path || precedes(a.from_path, b.from_path)
                &&& a.from_path == b.from_path && a.to_path.len() == 0 ==> b.to_path.len() == 0
                &&& a.from_path == b.from_path && (a.to_path.len() == 0) == (b.to_path.len() == 0)
                    ==> a.calls >= b.calls
            },
{
    let less = link_order(links);
    let order = ordered(links.len(), less);
    let r = ordered_links(links);
    assert(weak_order(links.len(), less)) by {
        assert forall|a: usize, b: usize| #[trigger] less(a, b) implies !less(b, a) by {
            lemma_link_order(links[a as int], links[b as int], links[b as int]);
        }
        assert forall|a: usize, b: usize, c: usize|
            !(#[trigger] less(b, a)) && !(#[trigger] less(c, b)) implies !less(c, a) by {
            lemma_link_order(links[a as int], links[b as int], links[c as int]);
        }
    }
    orderings_are_in_order(links.len(), less);
    lemma_ordered(links.len(), less);
    assert forall|l: LinkModel| #[trigger] r.contains(l) <==> links.contains(l) by {
        if r.contains(l) {
            let k = choose|k: int| 0 <= k < r.len() && r[k] == l;
            assert(order.contains(order[k]));
            assert(links[order[k] as int] == l);
        }
        if links.contains(l) {
            let k = choose|k: int| 0 <= k < links.len() && links[k] == l;
            assert(order.contains(k as usize));
            let i = choose|i: int| 0 <= i < order.len() && order[i] == k as usize;
            assert(r[i] == l);
        }
    }
    assert forall|i: int, j: int| 0 <= i < j < links.len() implies {
        let a = #[trigger] r[i];
        let b = #[trigger] r[j];
        &&& a.from_path == b.from_path || precedes(a.from_path, b.from_path)
        &&& a.from_path == b.from_path && a.to_path.len() == 0 ==> b.to_path.len() == 0
        &&& a.from_path == b.from_path && (a.to_path.len() == 0) == (b.to_path.len() == 0)
            ==> a.calls >= b.calls
    } by {
        assert(!less(order[j], order[i]));
        assert(!link_before(r[j], r[i]));
        texts_are_ordered(r[i].from_path, r[j].from_path);
    }
}

} // verus!
