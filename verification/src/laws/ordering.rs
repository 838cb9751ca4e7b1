//! The order in which passages are read: what is connected, how strongly, and
//! where the walk goes next.

use vstd::prelude::*;

use super::lists::upto;
use crate::code_graph::Span;
use crate::graph::neighborhood::Placed;
use crate::graph::ordering::{
    bearers, chunks_in, chunks_of, connections, covered, declared, first_reaching, first_unmet,
    heavier, holder, last_of_id, link_all, link_bearers, link_row, linked, linked_anywhere,
    linked_before, linked_calls, linked_files, meet_from, seeded, stronger, visit, with_weight,
    ChunkPlace, Neighbor, Walk, CALL_FANOUT, CALL_WEIGHT, PARENT_WEIGHT,
};
use crate::graph::{tail_of, FileModel};
use crate::order::{lemma_filter_none, lemma_filter_step, lemma_positions, ordered};
use crate::text::lowercase;

verus! {

// ---------------------------------------------------------------------------
// Connections
// ---------------------------------------------------------------------------

/// How strongly a list of neighbors holds a passage; zero where it does not.
pub open spec fn strength(list: Seq<Neighbor>, chunk: usize) -> u32
    decreases list.len(),
{
    if list.len() == 0 {
        0
    } else if list[0].chunk == chunk {
        list[0].weight
    } else {
        strength(list.skip(1), chunk)
    }
}

/// How strongly one passage is connected with another.
pub open spec fn tie(lists: Seq<Seq<Neighbor>>, a: usize, b: usize) -> u32 {
    strength(lists[a as int], b)
}

/// No connection became weaker.
pub open spec fn no_weaker(before: Seq<Seq<Neighbor>>, after: Seq<Seq<Neighbor>>) -> bool {
    &&& before.len() == after.len()
    &&& forall|a: usize, b: usize|
        a < before.len() ==> tie(before, a, b) <= #[trigger] tie(after, a, b)
}

/// Two passages are the same, or connected in both directions, this strongly.
pub open spec fn joined(lists: Seq<Seq<Neighbor>>, a: usize, b: usize, weight: u32) -> bool {
    a != b ==> tie(lists, a, b) >= weight && tie(lists, b, a) >= weight
}

/// All of some numbers are positions of passages.
pub open spec fn within(list: Seq<usize>, count: nat) -> bool {
    forall|k: int| 0 <= k < list.len() ==> (#[trigger] list[k]) < count
}

proof fn lemma_strength(list: Seq<Neighbor>, chunk: usize, weight: u32, other: usize)
    ensures
        strength(with_weight(list, chunk, weight), other) == (if other == chunk {
            heavier(strength(list, chunk), weight)
        } else {
            strength(list, other)
        }),
    decreases list.len(),
{
    let now = with_weight(list, chunk, weight);
    if list.len() == 0 {
        assert(strength(now.skip(1), other) == 0);
        assert(strength(list, chunk) == 0 && strength(list, other) == 0);
    } else if list[0].chunk == chunk {
        assert(now.skip(1) =~= list.skip(1));
    } else {
        lemma_strength(list.skip(1), chunk, weight, other);
        assert(now.skip(1) =~= with_weight(list.skip(1), chunk, weight));
    }
}

/// A connection adds to the two passages that it connects, in both directions,
/// and leaves every other tie as it was.
pub proof fn connections_add_up(
    lists: Seq<Seq<Neighbor>>,
    left: usize,
    right: usize,
    weight: u32,
    a: usize,
    b: usize,
)
    requires
        left < lists.len(),
        right < lists.len(),
        a < lists.len(),
    ensures
        linked(lists, left, right, weight).len() == lists.len(),
        tie(linked(lists, left, right, weight), a, b) == (if left != right && (a == left && b
            == right || a == right && b == left) {
            heavier(tie(lists, a, b), weight)
        } else {
            tie(lists, a, b)
        }),
{
    lemma_strength(lists[left as int], right, weight, b);
    lemma_strength(lists[right as int], left, weight, b);
}

proof fn lemma_linked(lists: Seq<Seq<Neighbor>>, left: usize, right: usize, weight: u32)
    requires
        left < lists.len(),
        right < lists.len(),
    ensures
        no_weaker(lists, linked(lists, left, right, weight)),
        joined(linked(lists, left, right, weight), left, right, weight),
{
    let now = linked(lists, left, right, weight);
    connections_add_up(lists, left, right, weight, left, right);
    connections_add_up(lists, left, right, weight, right, left);
    assert forall|a: usize, b: usize| a < lists.len() implies tie(lists, a, b) <= #[trigger] tie(
        now,
        a,
        b,
    ) by {
        connections_add_up(lists, left, right, weight, a, b);
    }
}

proof fn lemma_still_joined(
    before: Seq<Seq<Neighbor>>,
    after: Seq<Seq<Neighbor>>,
    a: usize,
    b: usize,
    weight: u32,
)
    requires
        no_weaker(before, after),
        joined(before, a, b, weight),
        a < before.len(),
        b < before.len(),
    ensures
        joined(after, a, b, weight),
{
    assert(tie(before, a, b) <= tie(after, a, b));
    assert(tie(before, b, a) <= tie(after, b, a));
}

proof fn lemma_no_weaker(a: Seq<Seq<Neighbor>>, b: Seq<Seq<Neighbor>>, c: Seq<Seq<Neighbor>>)
    requires
        no_weaker(a, b),
        no_weaker(b, c),
    ensures
        no_weaker(a, c),
{
    assert forall|x: usize, y: usize| x < a.len() implies tie(a, x, y) <= #[trigger] tie(
        c,
        x,
        y,
    ) by {
        assert(tie(b, x, y) <= tie(c, x, y));
    }
}

proof fn lemma_link_row(
    lists: Seq<Seq<Neighbor>>,
    left: usize,
    right: Seq<usize>,
    weight: u32,
    count: nat,
)
    requires
        count <= right.len(),
        left < lists.len(),
        within(right, lists.len()),
    ensures
        no_weaker(lists, link_row(lists, left, right, weight, count)),
        forall|k: int|
            0 <= k < count ==> joined(
                link_row(lists, left, right, weight, count),
                left,
                #[trigger] right[k],
                weight,
            ),
    decreases count,
{
    if count > 0 {
        let n = (count - 1) as nat;
        lemma_link_row(lists, left, right, weight, n);
        let was = link_row(lists, left, right, weight, n);
        let now = link_row(lists, left, right, weight, count);
        lemma_linked(was, left, right[count - 1], weight);
        lemma_no_weaker(lists, was, now);
        assert forall|k: int| 0 <= k < count implies joined(
            now,
            left,
            #[trigger] right[k],
            weight,
        ) by {
            if k < n {
                lemma_still_joined(was, now, left, right[k], weight);
            }
        }
    }
}

proof fn lemma_link_all(
    lists: Seq<Seq<Neighbor>>,
    left: Seq<usize>,
    right: Seq<usize>,
    weight: u32,
    count: nat,
)
    requires
        count <= left.len(),
        within(left, lists.len()),
        within(right, lists.len()),
    ensures
        no_weaker(lists, link_all(lists, left, right, weight, count)),
        forall|i: int, k: int|
            0 <= i < count && 0 <= k < right.len() ==> joined(
                link_all(lists, left, right, weight, count),
                #[trigger] left[i],
                #[trigger] right[k],
                weight,
            ),
    decreases count,
{
    if count > 0 {
        let n = (count - 1) as nat;
        lemma_link_all(lists, left, right, weight, n);
        let was = link_all(lists, left, right, weight, n);
        let now = link_all(lists, left, right, weight, count);
        lemma_link_row(was, left[count - 1], right, weight, right.len());
        lemma_no_weaker(lists, was, now);
        assert forall|i: int, k: int| 0 <= i < count && 0 <= k < right.len() implies joined(
            now,
            #[trigger] left[i],
            #[trigger] right[k],
            weight,
        ) by {
            if i < n {
                lemma_still_joined(was, now, left[i], right[k], weight);
            }
        }
    }
}

proof fn lemma_covered(chunks: Seq<ChunkPlace>, p: Placed)
    requires
        chunks.len() <= usize::MAX,
    ensures
        within(covered(chunks, p), chunks.len()),
{
    let keep = |i: int|
        chunks[i].path == p.path && p.symbol.span.reaches(chunks[i].start, chunks[i].end);
    lemma_positions(keep, chunks.len());
    assert forall|k: int| 0 <= k < covered(chunks, p).len() implies (#[trigger] covered(
        chunks,
        p,
    )[k]) < chunks.len() by {
        assert(covered(chunks, p).contains(covered(chunks, p)[k]));
    }
}

proof fn lemma_chunks_of(chunks: Seq<ChunkPlace>, all: Seq<Placed>, id: Seq<char>, count: nat)
    requires
        chunks.len() <= usize::MAX,
    ensures
        within(chunks_of(chunks, all, id, count), chunks.len()),
    decreases count,
{
    if count > 0 {
        lemma_covered(chunks, all[count - 1]);
        lemma_chunks_of(chunks, all, id, (count - 1) as nat);
    }
}

proof fn lemma_linked_before(
    chunks: Seq<ChunkPlace>,
    all: Seq<Placed>,
    lists: Seq<Seq<Neighbor>>,
    count: nat,
)
    requires
        count <= all.len(),
        lists.len() == chunks.len() <= usize::MAX,
    ensures
        no_weaker(lists, linked_before(chunks, all, lists, count)),
    decreases count,
{
    if count > 0 {
        lemma_linked_before(chunks, all, lists, (count - 1) as nat);
        let was = linked_before(chunks, all, lists, (count - 1) as nat);
        let p = all[count - 1];
        let mine = covered(chunks, p);
        lemma_covered(chunks, p);
        if let Some(parent) = p.symbol.parent {
            lemma_chunks_of(chunks, all, parent, count);
            lemma_link_all(
                was,
                mine,
                chunks_of(chunks, all, parent, count),
                PARENT_WEIGHT,
                mine.len(),
            );
            lemma_no_weaker(lists, was, linked_before(chunks, all, lists, count));
        }
    }
}

/// The passages of a declaration are joined with those of its parent.
pub open spec fn with_parent(
    chunks: Seq<ChunkPlace>,
    all: Seq<Placed>,
    lists: Seq<Seq<Neighbor>>,
    d: int,
) -> bool {
    all[d].symbol.parent matches Some(parent) ==> last_of_id(all, d) ==> forall|a: int, b: int|
        0 <= a < chunks_of(chunks, all, all[d].symbol.id, all.len()).len() && 0 <= b < chunks_of(
            chunks,
            all,
            parent,
            all.len(),
        ).len() ==> joined(
            lists,
            #[trigger] chunks_of(chunks, all, all[d].symbol.id, all.len())[a],
            #[trigger] chunks_of(chunks, all, parent, all.len())[b],
            PARENT_WEIGHT,
        )
}

proof fn lemma_with_parent_stays(
    chunks: Seq<ChunkPlace>,
    all: Seq<Placed>,
    before: Seq<Seq<Neighbor>>,
    after: Seq<Seq<Neighbor>>,
    d: int,
)
    requires
        before.len() == chunks.len() <= usize::MAX,
        no_weaker(before, after),
        with_parent(chunks, all, before, d),
    ensures
        with_parent(chunks, all, after, d),
{
    if let Some(parent) = all[d].symbol.parent {
        if last_of_id(all, d) {
            let mine = chunks_of(chunks, all, all[d].symbol.id, all.len());
            let above = chunks_of(chunks, all, parent, all.len());
            lemma_chunks_of(chunks, all, all[d].symbol.id, all.len());
            lemma_chunks_of(chunks, all, parent, all.len());
            assert forall|a: int, b: int| 0 <= a < mine.len() && 0 <= b < above.len() implies joined(
                after,
                #[trigger] mine[a],
                #[trigger] above[b],
                PARENT_WEIGHT,
            ) by {
                lemma_still_joined(before, after, mine[a], above[b], PARENT_WEIGHT);
            }
        }
    }
}

proof fn lemma_linked_anywhere(
    chunks: Seq<ChunkPlace>,
    all: Seq<Placed>,
    lists: Seq<Seq<Neighbor>>,
    count: nat,
)
    requires
        count <= all.len(),
        lists.len() == chunks.len() <= usize::MAX,
    ensures
        no_weaker(lists, linked_anywhere(chunks, all, lists, count)),
        forall|d: int|
            0 <= d < count ==> #[trigger] with_parent(
                chunks,
                all,
                linked_anywhere(chunks, all, lists, count),
                d,
            ),
    decreases count,
{
    if count > 0 {
        let n = count - 1;
        lemma_linked_anywhere(chunks, all, lists, n as nat);
        let was = linked_anywhere(chunks, all, lists, n as nat);
        let now = linked_anywhere(chunks, all, lists, count);
        let p = all[n];
        let mine = chunks_of(chunks, all, p.symbol.id, all.len());
        lemma_chunks_of(chunks, all, p.symbol.id, all.len());
        if let Some(parent) = p.symbol.parent {
            if last_of_id(all, n) {
                lemma_chunks_of(chunks, all, parent, all.len());
                lemma_link_all(
                    was,
                    mine,
                    chunks_of(chunks, all, parent, all.len()),
                    PARENT_WEIGHT,
                    mine.len(),
                );
                lemma_no_weaker(lists, was, now);
            }
        }
        assert(no_weaker(was, now));
        assert forall|d: int| 0 <= d < count implies #[trigger] with_parent(
            chunks,
            all,
            now,
            d,
        ) by {
            if d < n {
                assert(with_parent(chunks, all, was, d));
                lemma_with_parent_stays(chunks, all, was, now, d);
            }
        }
    }
}

/// The first passage of a declaration, where it has any, is joined with a site.
pub open spec fn with_site(
    chunks: Seq<ChunkPlace>,
    all: Seq<Placed>,
    lists: Seq<Seq<Neighbor>>,
    site: usize,
    d: usize,
) -> bool {
    let there = chunks_of(chunks, all, all[d as int].symbol.id, all.len());
    there.len() > 0 ==> joined(lists, site, there[0], CALL_WEIGHT)
}

proof fn lemma_with_site_stays(
    chunks: Seq<ChunkPlace>,
    all: Seq<Placed>,
    before: Seq<Seq<Neighbor>>,
    after: Seq<Seq<Neighbor>>,
    site: usize,
    d: usize,
)
    requires
        before.len() == chunks.len() <= usize::MAX,
        site < chunks.len(),
        no_weaker(before, after),
        with_site(chunks, all, before, site, d),
    ensures
        with_site(chunks, all, after, site, d),
{
    let there = chunks_of(chunks, all, all[d as int].symbol.id, all.len());
    lemma_chunks_of(chunks, all, all[d as int].symbol.id, all.len());
    if there.len() > 0 {
        lemma_still_joined(before, after, site, there[0], CALL_WEIGHT);
    }
}

proof fn lemma_link_bearers(
    chunks: Seq<ChunkPlace>,
    all: Seq<Placed>,
    lists: Seq<Seq<Neighbor>>,
    site: usize,
    named: Seq<usize>,
    count: nat,
)
    requires
        count <= named.len(),
        lists.len() == chunks.len() <= usize::MAX,
        site < chunks.len(),
    ensures
        no_weaker(lists, link_bearers(chunks, all, lists, site, named, count)),
        forall|k: int|
            0 <= k < count ==> with_site(
                chunks,
                all,
                link_bearers(chunks, all, lists, site, named, count),
                site,
                #[trigger] named[k],
            ),
    decreases count,
{
    if count > 0 {
        let n = count - 1;
        lemma_link_bearers(chunks, all, lists, site, named, n as nat);
        let was = link_bearers(chunks, all, lists, site, named, n as nat);
        let now = link_bearers(chunks, all, lists, site, named, count);
        let id = all[named[n] as int].symbol.id;
        let there = chunks_of(chunks, all, id, all.len());
        lemma_chunks_of(chunks, all, id, all.len());
        if there.len() > 0 {
            lemma_linked(was, site, there[0], CALL_WEIGHT);
            lemma_no_weaker(lists, was, now);
        }
        assert(no_weaker(was, now));
        assert forall|k: int| 0 <= k < count implies with_site(
            chunks,
            all,
            now,
            site,
            #[trigger] named[k],
        ) by {
            if k < n {
                lemma_with_site_stays(chunks, all, was, now, site, named[k]);
            }
        }
    }
}

/// The site of a call is joined with the declarations that bear the name called.
pub open spec fn with_callees(
    chunks: Seq<ChunkPlace>,
    all: Seq<Placed>,
    lists: Seq<Seq<Neighbor>>,
    f: FileModel,
    e: int,
) -> bool {
    let edge = f.graph.edges[e];
    holder(chunks, chunks_in(chunks, f.path), edge.span) matches Some(site) ==> edge.kind
        == "calls"@ ==> forall|k: int|
        0 <= k < bearers(all, lowercase(tail_of(edge.target)), all.len()).len() ==> with_site(
            chunks,
            all,
            lists,
            site,
            #[trigger] bearers(all, lowercase(tail_of(edge.target)), all.len())[k],
        )
}

/// Where a file's passages stand in line order, a site is held by the first one
/// that does not end before it, if that one reaches the site.
pub proof fn sites_are_held_by_their_passages(
    chunks: Seq<ChunkPlace>,
    file_chunks: Seq<usize>,
    span: Span,
    from: nat,
)
    requires
        from <= file_chunks.len(),
    ensures
        ({
            let at = first_reaching(chunks, file_chunks, span.start, from);
            &&& from <= at <= file_chunks.len()
            &&& at < file_chunks.len() ==> chunks[file_chunks[at as int] as int].end >= span.start
            &&& forall|k: int|
                from <= k < at ==> chunks[#[trigger] file_chunks[k] as int].end < span.start
        }),
        holder(chunks, file_chunks, span) matches Some(c) ==> file_chunks.contains(c)
            && span.reaches(chunks[c as int].start, chunks[c as int].end),
    decreases file_chunks.len() - from,
{
    if from < file_chunks.len() && chunks[file_chunks[from as int] as int].end < span.start {
        sites_are_held_by_their_passages(chunks, file_chunks, span, from + 1);
    }
}

proof fn lemma_holder(chunks: Seq<ChunkPlace>, path: Seq<char>, span: Span)
    requires
        chunks.len() <= usize::MAX,
    ensures
        holder(chunks, chunks_in(chunks, path), span) matches Some(c) ==> c < chunks.len(),
{
    let mine = chunks_in(chunks, path);
    sites_are_held_by_their_passages(chunks, mine, span, 0);
    lemma_positions(|i: int| chunks[i].path == path, chunks.len());
}

proof fn lemma_with_callees_stays(
    chunks: Seq<ChunkPlace>,
    all: Seq<Placed>,
    before: Seq<Seq<Neighbor>>,
    after: Seq<Seq<Neighbor>>,
    f: FileModel,
    e: int,
)
    requires
        before.len() == chunks.len() <= usize::MAX,
        no_weaker(before, after),
        with_callees(chunks, all, before, f, e),
    ensures
        with_callees(chunks, all, after, f, e),
{
    let edge = f.graph.edges[e];
    lemma_holder(chunks, f.path, edge.span);
    if edge.kind == "calls"@ {
        if let Some(site) = holder(chunks, chunks_in(chunks, f.path), edge.span) {
            let named = bearers(all, lowercase(tail_of(edge.target)), all.len());
            assert forall|k: int| 0 <= k < named.len() implies with_site(
                chunks,
                all,
                after,
                site,
                #[trigger] named[k],
            ) by {
                assert(with_site(chunks, all, before, site, named[k]));
                lemma_with_site_stays(chunks, all, before, after, site, named[k]);
            }
        }
    }
}

proof fn lemma_linked_calls(
    chunks: Seq<ChunkPlace>,
    all: Seq<Placed>,
    lists: Seq<Seq<Neighbor>>,
    f: FileModel,
    count: nat,
)
    requires
        count <= f.graph.edges.len(),
        lists.len() == chunks.len() <= usize::MAX,
    ensures
        no_weaker(lists, linked_calls(chunks, all, lists, f, count)),
        forall|e: int|
            0 <= e < count ==> #[trigger] with_callees(
                chunks,
                all,
                linked_calls(chunks, all, lists, f, count),
                f,
                e,
            ),
    decreases count,
{
    if count > 0 {
        let n = count - 1;
        lemma_linked_calls(chunks, all, lists, f, n as nat);
        let was = linked_calls(chunks, all, lists, f, n as nat);
        let now = linked_calls(chunks, all, lists, f, count);
        let edge = f.graph.edges[n];
        lemma_holder(chunks, f.path, edge.span);
        if edge.kind == "calls"@ {
            if let Some(site) = holder(chunks, chunks_in(chunks, f.path), edge.span) {
                let named = bearers(all, lowercase(tail_of(edge.target)), all.len());
                lemma_link_bearers(chunks, all, was, site, named, named.len());
                lemma_no_weaker(lists, was, now);
            }
        }
        assert(no_weaker(was, now));
        assert forall|e: int| 0 <= e < count implies #[trigger] with_callees(
            chunks,
            all,
            now,
            f,
            e,
        ) by {
            if e < n {
                assert(with_callees(chunks, all, was, f, e));
                lemma_with_callees_stays(chunks, all, was, now, f, e);
            }
        }
    }
}

proof fn lemma_linked_files(
    chunks: Seq<ChunkPlace>,
    all: Seq<Placed>,
    lists: Seq<Seq<Neighbor>>,
    files: Seq<FileModel>,
    count: nat,
)
    requires
        count <= files.len(),
        lists.len() == chunks.len() <= usize::MAX,
    ensures
        no_weaker(lists, linked_files(chunks, all, lists, files, count)),
        forall|f: int, e: int|
            0 <= f < count && 0 <= e < files[f].graph.edges.len() ==> #[trigger] with_callees(
                chunks,
                all,
                linked_files(chunks, all, lists, files, count),
                files[f],
                e,
            ),
    decreases count,
{
    if count > 0 {
        let n = count - 1;
        lemma_linked_files(chunks, all, lists, files, n as nat);
        let was = linked_files(chunks, all, lists, files, n as nat);
        let now = linked_files(chunks, all, lists, files, count);
        lemma_linked_calls(chunks, all, was, files[n], files[n].graph.edges.len());
        lemma_no_weaker(lists, was, now);
        assert forall|f: int, e: int|
            0 <= f < count && 0 <= e < files[f].graph.edges.len() implies #[trigger] with_callees(
            chunks,
            all,
            now,
            files[f],
            e,
        ) by {
            if f < n {
                assert(with_callees(chunks, all, was, files[f], e));
                lemma_with_callees_stays(chunks, all, was, now, files[f], e);
            }
        }
    }
}

/// Passages are connected with what belongs to them: those of a declaration with
/// those of its parent, and the site of a call with the declarations that bear
/// the name called.
pub proof fn related_passages_are_connected(files: Seq<FileModel>, chunks: Seq<ChunkPlace>)
    requires
        chunks.len() <= usize::MAX,
    ensures
        ({
            let all = declared(files, chunks, files.len());
            let lists = connections(files, chunks);
            &&& lists.len() == chunks.len()
            &&& forall|d: int|
                0 <= d < all.len() ==> #[trigger] with_parent(chunks, all, lists, d)
            &&& forall|f: int, e: int|
                0 <= f < files.len() && 0 <= e < files[f].graph.edges.len()
                    ==> #[trigger] with_callees(chunks, all, lists, files[f], e)
        }),
{
    let all = declared(files, chunks, files.len());
    let lists = connections(files, chunks);
    let none = Seq::new(chunks.len(), |i: int| Seq::<Neighbor>::empty());
    lemma_linked_before(chunks, all, none, all.len());
    let first = linked_before(chunks, all, none, all.len());
    lemma_linked_anywhere(chunks, all, first, all.len());
    let second = linked_anywhere(chunks, all, first, all.len());
    lemma_linked_files(chunks, all, second, files, files.len());
    assert(lists == linked_files(chunks, all, second, files, files.len()));
    assert forall|d: int| 0 <= d < all.len() implies #[trigger] with_parent(
        chunks,
        all,
        lists,
        d,
    ) by {
        assert(with_parent(chunks, all, second, d));
        lemma_with_parent_stays(chunks, all, second, lists, d);
    }
}

/// A declaration bears a name, whatever its case.
pub open spec fn bears(all: Seq<Placed>, name: Seq<char>) -> spec_fn(int) -> bool {
    |d: int| lowercase(all[d].symbol.name) == name
}

/// A call is connected with the first declarations that bear the name called, as
/// many as the fan-out allows.
pub proof fn the_first_bearers_count(all: Seq<Placed>, name: Seq<char>, count: nat)
    requires
        count <= all.len() <= usize::MAX,
    ensures
        ({
            let every = upto(count).filter(bears(all, name));
            bearers(all, name, count) == every.take(
                if every.len() < CALL_FANOUT {
                    every.len() as int
                } else {
                    CALL_FANOUT as int
                },
            ).map_values(|d: int| d as usize)
        }),
    decreases count,
{
    let keep = bears(all, name);
    let every = upto(count).filter(keep);
    lemma_filter_none(upto(count), keep);
    if count == 0 {
        assert(upto(0) =~= upto(0).take(0));
        assert(bearers(all, name, 0) =~= every.take(0).map_values(|d: int| d as usize));
    } else {
        let n = count - 1;
        the_first_bearers_count(all, name, n as nat);
        lemma_filter_step(upto(count), keep, n);
        assert(upto(count).take(n) =~= upto(n as nat));
        assert(upto(count).take(n + 1) =~= upto(count));
        assert(upto(count)[n] == n);
        let before = upto(n as nat).filter(keep);
        let shown = if every.len() < CALL_FANOUT {
            every.len() as int
        } else {
            CALL_FANOUT as int
        };
        assert(bearers(all, name, count) =~= every.take(shown).map_values(|d: int| d as usize));
    }
}

// ---------------------------------------------------------------------------
// The walk
// ---------------------------------------------------------------------------

/// Where nothing is pending, the walk goes on at the first passage that was not
/// met.
pub proof fn walks_start_at_the_first_unmet(seen: Seq<bool>, from: nat)
    requires
        from <= seen.len(),
    ensures
        ({
            let at = first_unmet(seen, from);
            &&& from <= at <= seen.len()
            &&& at < seen.len() ==> !seen[at as int]
            &&& forall|k: int| from <= k < at ==> #[trigger] seen[k]
        }),
    decreases seen.len() - from,
{
    if from < seen.len() && seen[from as int] {
        walks_start_at_the_first_unmet(seen, from + 1);
    }
}

proof fn lemma_meet_from(w: Walk, list: Seq<Neighbor>, order: Seq<usize>, left: nat, chunk: usize)
    requires
        left <= order.len(),
        chunk < w.seen.len(),
        forall|k: int|
            left <= k < order.len() ==> list[#[trigger] order[k] as int].chunk != chunk,
    ensures
        meet_from(w, list, order, left).seen.len() == w.seen.len(),
        meet_from(w, list, order, left).seen[chunk as int] == w.seen[chunk as int],
        meet_from(w, list, order, left).order == w.order,
    decreases order.len() - left,
{
    if left < order.len() {
        lemma_meet_from(w, list, order, left + 1, chunk);
        assert(list[order[left as int] as int].chunk != chunk);
    }
}

proof fn lemma_met_stays(w: Walk, list: Seq<Neighbor>, order: Seq<usize>, left: nat, c: int)
    requires
        left <= order.len(),
        0 <= c < w.seen.len(),
        w.seen[c],
    ensures
        meet_from(w, list, order, left).seen.len() == w.seen.len(),
        meet_from(w, list, order, left).seen[c],
    decreases order.len() - left,
{
    if left < order.len() {
        lemma_met_stays(w, list, order, left + 1, c);
    }
}

proof fn lemma_top(w: Walk, list: Seq<Neighbor>, order: Seq<usize>, left: nat, k: int)
    requires
        left <= k < order.len(),
        list[order[k] as int].chunk < w.seen.len(),
        !w.seen[list[order[k] as int].chunk as int],
        forall|j: int|
            k < j < order.len() ==> list[#[trigger] order[j] as int].chunk
                != list[order[k] as int].chunk,
        forall|j: int|
            left <= j < k ==> list[#[trigger] order[j] as int].chunk < w.seen.len()
                && w.seen[list[order[j] as int].chunk as int],
    ensures
        meet_from(w, list, order, left).pending.len() > 0,
        meet_from(w, list, order, left).pending.last() == list[order[k] as int].chunk,
        meet_from(w, list, order, left).order == w.order,
    decreases order.len() - left,
{
    let chunk = list[order[k] as int].chunk;
    if left == k {
        lemma_meet_from(w, list, order, left + 1, chunk);
    } else {
        lemma_top(w, list, order, left + 1, k);
        let c = list[order[left as int] as int].chunk;
        assert(w.seen[c as int]);
        lemma_met_stays(w, list, order, left + 1, c as int);
    }
}

/// After a passage comes the strongest of its neighbors that was not met: of the
/// neighbors by rank, the first one that was not met is on top of the pile.
pub proof fn the_strongest_neighbor_comes_next(lists: Seq<Seq<Neighbor>>, w: Walk, k: int)
    requires
        seeded(w).pending.len() > 0,
        ({
            let s = seeded(w);
            let list = lists[s.pending.last() as int];
            let rank = ordered(list.len(), stronger(list));
            &&& 0 <= k < rank.len()
            &&& list[rank[k] as int].chunk < s.seen.len()
            &&& !s.seen[list[rank[k] as int].chunk as int]
            &&& forall|j: int|
                k < j < rank.len() ==> list[#[trigger] rank[j] as int].chunk
                    != list[rank[k] as int].chunk
            &&& forall|j: int|
                0 <= j < k ==> list[#[trigger] rank[j] as int].chunk < s.seen.len()
                    && s.seen[list[rank[j] as int].chunk as int]
        }),
    ensures
        ({
            let list = lists[seeded(w).pending.last() as int];
            let next = visit(lists, w);
            &&& next.order == seeded(w).order.push(seeded(w).pending.last())
            &&& next.pending.len() > 0
            &&& next.pending.last() == list[ordered(list.len(), stronger(list))[k] as int].chunk
        }),
{
    let s = seeded(w);
    let current = s.pending.last();
    let list = lists[current as int];
    lemma_top(
        Walk { seen: s.seen, pending: s.pending.drop_last(), order: s.order.push(current) },
        list,
        ordered(list.len(), stronger(list)),
        0,
        k,
    );
}

} // verus!
