//! Choosing whole passages for a request.

use vstd::prelude::*;

use crate::editorial::has_id;
use crate::model::Evidence;
use crate::text::{blen, same};

verus! {

/// What a passage costs a request: its content, its path and what goes around
/// them.
pub open spec fn cost(e: Evidence) -> nat {
    blen(e.content@) + blen(e.path@) + 256
}

/// What some passages cost together.
pub open spec fn total_cost(list: Seq<Evidence>) -> nat
    decreases list.len(),
{
    if list.len() == 0 {
        0
    } else {
        total_cost(list.drop_last()) + cost(list.last())
    }
}

/// The passages of a list of groups.
pub open spec fn evidence_lists(groups: Seq<Vec<Evidence>>) -> Seq<Seq<Evidence>> {
    groups.map_values(|g: Vec<Evidence>| g@)
}

/// A passage is taken where it still fits and was not taken before.
pub open spec fn taken(selected: Seq<Evidence>, e: Evidence, limit: nat) -> Seq<Evidence> {
    if total_cost(selected) + cost(e) <= limit && !has_id(selected, e.id@) {
        selected.push(e)
    } else {
        selected
    }
}

/// The passages at position `row` of the first `count` groups, each taken where
/// it can be.
pub open spec fn pack_row(
    groups: Seq<Seq<Evidence>>,
    row: int,
    selected: Seq<Evidence>,
    limit: nat,
    count: nat,
) -> Seq<Evidence>
    decreases count,
{
    if count == 0 {
        selected
    } else {
        let before = pack_row(groups, row, selected, limit, (count - 1) as nat);
        let group = groups[count - 1];
        if row < group.len() {
            taken(before, group[row], limit)
        } else {
            before
        }
    }
}

/// The first `rows` passages of all groups, one from each before a second from
/// any.
pub open spec fn pack_rows(groups: Seq<Seq<Evidence>>, limit: nat, rows: nat) -> Seq<Evidence>
    decreases rows,
{
    if rows == 0 {
        Seq::empty()
    } else {
        pack_row(
            groups,
            rows - 1,
            pack_rows(groups, limit, (rows - 1) as nat),
            limit,
            groups.len(),
        )
    }
}

/// The length of the longest of the first `count` groups.
pub open spec fn longest(groups: Seq<Seq<Evidence>>, count: nat) -> nat
    decreases count,
{
    if count == 0 {
        0
    } else {
        let before = longest(groups, (count - 1) as nat);
        if groups[count - 1].len() > before {
            groups[count - 1].len()
        } else {
            before
        }
    }
}

/// The passages that fit in a limit, in turns of the groups.
pub open spec fn packed(groups: Seq<Seq<Evidence>>, limit: nat) -> Seq<Evidence> {
    pack_rows(groups, limit, longest(groups, groups.len()))
}

/// No two passages of a list have one id.
pub open spec fn distinct_ids(list: Seq<Evidence>) -> bool {
    forall|j: int, k: int|
        0 <= j < k < list.len() ==> (#[trigger] list[j]).id@ != (#[trigger] list[k]).id@
}

/// Every passage of a list stands in one of the groups.
pub open spec fn drawn_from(list: Seq<Evidence>, groups: Seq<Seq<Evidence>>) -> bool {
    forall|j: int|
        0 <= j < list.len() ==> exists|g: int|
            0 <= g < groups.len() && (#[trigger] groups[g]).contains(#[trigger] list[j])
}

/// A list that may be packed: it fits, holds nothing twice and only supplied
/// passages.
pub open spec fn well_packed(list: Seq<Evidence>, groups: Seq<Seq<Evidence>>, limit: nat) -> bool {
    total_cost(list) <= limit && distinct_ids(list) && drawn_from(list, groups)
}

proof fn lemma_taken(
    selected: Seq<Evidence>,
    groups: Seq<Seq<Evidence>>,
    g: int,
    row: int,
    limit: nat,
)
    requires
        well_packed(selected, groups, limit),
        0 <= g < groups.len(),
        0 <= row < groups[g].len(),
    ensures
        well_packed(taken(selected, groups[g][row], limit), groups, limit),
{
    let e = groups[g][row];
    let now = taken(selected, e, limit);
    if now.len() > selected.len() {
        assert(now.drop_last() =~= selected);
        assert(groups[g].contains(e));
        assert forall|j: int| 0 <= j < now.len() implies exists|g: int|
            0 <= g < groups.len() && (#[trigger] groups[g]).contains(#[trigger] now[j]) by {
            if j < selected.len() {
                assert(now[j] == selected[j]);
            }
        }
        assert forall|j: int, k: int| 0 <= j < k < now.len() implies (#[trigger] now[j]).id@ != (
        #[trigger] now[k]).id@ by {
            assert(now[j] == selected[j]);
            if k < selected.len() {
                assert(now[k] == selected[k]);
            }
        }
    }
}

proof fn lemma_pack_row(
    groups: Seq<Seq<Evidence>>,
    row: int,
    selected: Seq<Evidence>,
    limit: nat,
    count: nat,
)
    requires
        well_packed(selected, groups, limit),
        0 <= row,
        count <= groups.len(),
    ensures
        well_packed(pack_row(groups, row, selected, limit, count), groups, limit),
    decreases count,
{
    if count > 0 {
        lemma_pack_row(groups, row, selected, limit, (count - 1) as nat);
        if row < groups[count - 1].len() {
            lemma_taken(
                pack_row(groups, row, selected, limit, (count - 1) as nat),
                groups,
                count - 1,
                row,
                limit,
            );
        }
    }
}

proof fn lemma_pack_rows(groups: Seq<Seq<Evidence>>, limit: nat, rows: nat)
    ensures
        well_packed(pack_rows(groups, limit, rows), groups, limit),
    decreases rows,
{
    if rows > 0 {
        lemma_pack_rows(groups, limit, (rows - 1) as nat);
        lemma_pack_row(
            groups,
            rows - 1,
            pack_rows(groups, limit, (rows - 1) as nat),
            limit,
            groups.len(),
        );
    }
}

/// What is packed fits in the limit, holds no passage twice, and holds whole
/// passages of the groups.
pub proof fn packed_passages_fit(groups: Seq<Seq<Evidence>>, limit: nat)
    ensures
        total_cost(packed(groups, limit)) <= limit,
        distinct_ids(packed(groups, limit)),
        drawn_from(packed(groups, limit), groups),
{
    lemma_pack_rows(groups, limit, longest(groups, groups.len()));
}

/// Costs add up, and a passage costs its content, its path and 256 bytes.
pub proof fn costs_add_up(list: Seq<Evidence>, e: Evidence)
    ensures
        total_cost(Seq::<Evidence>::empty()) == 0,
        total_cost(list.push(e)) == total_cost(list) + blen(e.content@) + blen(e.path@) + 256,
{
    assert(list.push(e).drop_last() =~= list);
}

proof fn lemma_costs_grow(list: Seq<Evidence>, count: int)
    requires
        0 <= count <= list.len(),
    ensures
        total_cost(list.take(count)) <= total_cost(list),
    decreases list.len(),
{
    if count == list.len() {
        assert(list.take(count) =~= list);
    } else {
        lemma_costs_grow(list.drop_last(), count);
        assert(list.drop_last().take(count) =~= list.take(count));
    }
}

/// The turn of a place comes before that of another: a smaller row, or the same
/// row of an earlier group. A place is a row and a group.
pub open spec fn sooner(a: (int, int), b: (int, int)) -> bool {
    a.0 < b.0 || (a.0 == b.0 && a.1 < b.1)
}

/// One of the passages before position `upto` has this id.
pub open spec fn named_before(list: Seq<Evidence>, upto: int, id: Seq<char>) -> bool {
    exists|k: int| 0 <= k < upto && (#[trigger] list[k]).id@ == id
}

/// A list holds the passages at these places, in the order of their turns.
pub open spec fn stands_at(
    list: Seq<Evidence>,
    groups: Seq<Seq<Evidence>>,
    places: Seq<(int, int)>,
) -> bool {
    &&& places.len() == list.len()
    &&& forall|k: int|
        0 <= k < places.len() ==> 0 <= (#[trigger] places[k]).1 < groups.len() && 0 <= places[k].0
            < groups[places[k].1].len() && groups[places[k].1][places[k].0] == list[k]
    &&& forall|j: int, k: int|
        0 <= j < k < places.len() ==> sooner(#[trigger] places[j], #[trigger] places[k])
}

/// When its turn came, a passage was taken, or its id had been taken before, or
/// there was no room for it beside what had been taken. `turn` is how many were
/// taken before.
pub open spec fn fairly_treated(
    list: Seq<Evidence>,
    places: Seq<(int, int)>,
    limit: nat,
    place: (int, int),
    e: Evidence,
    turn: int,
) -> bool {
    &&& 0 <= turn <= list.len()
    &&& forall|k: int| 0 <= k < turn ==> sooner(#[trigger] places[k], place)
    &&& forall|k: int| turn <= k < places.len() ==> !sooner(#[trigger] places[k], place)
    &&& (turn < places.len() && places[turn] == place) || named_before(list, turn, e.id@)
        || total_cost(list.take(turn)) + blen(e.content@) + blen(e.path@) + 256 > limit
}

/// The passage at a place was fairly treated.
pub open spec fn had_its_turn(
    list: Seq<Evidence>,
    groups: Seq<Seq<Evidence>>,
    places: Seq<(int, int)>,
    limit: nat,
    g: int,
    i: int,
) -> bool {
    exists|turn: int| fairly_treated(list, places, limit, (i, g), groups[g][i], turn)
}

/// Every passage whose turn comes before that of `end` was fairly treated.
spec fn all_treated(
    list: Seq<Evidence>,
    groups: Seq<Seq<Evidence>>,
    places: Seq<(int, int)>,
    limit: nat,
    end: (int, int),
) -> bool {
    &&& stands_at(list, groups, places)
    &&& forall|k: int| 0 <= k < places.len() ==> sooner(#[trigger] places[k], end)
    &&& forall|g: int, i: int|
        0 <= g < groups.len() && 0 <= i < groups[g].len() && sooner((i, g), end)
            ==> #[trigger] had_its_turn(list, groups, places, limit, g, i)
}

proof fn lemma_treat_row(
    groups: Seq<Seq<Evidence>>,
    row: int,
    selected: Seq<Evidence>,
    before: Seq<(int, int)>,
    limit: nat,
    count: nat,
) -> (places: Seq<(int, int)>)
    requires
        0 <= row,
        count <= groups.len(),
        all_treated(selected, groups, before, limit, (row, 0)),
    ensures
        all_treated(
            pack_row(groups, row, selected, limit, count),
            groups,
            places,
            limit,
            (row, count as int),
        ),
    decreases count,
{
    if count == 0 {
        before
    } else {
        let old = lemma_treat_row(groups, row, selected, before, limit, (count - 1) as nat);
        let had = pack_row(groups, row, selected, limit, (count - 1) as nat);
        let now = pack_row(groups, row, selected, limit, count);
        let here = (row, count - 1);
        let places = if now.len() > had.len() {
            old.push(here)
        } else {
            old
        };
        assert forall|j: int, k: int| 0 <= j < k < places.len() implies sooner(
            #[trigger] places[j],
            #[trigger] places[k],
        ) by {
            assert(places[j] == old[j]);
            if k < old.len() {
                assert(places[k] == old[k]);
            }
        }
        assert forall|k: int| 0 <= k < places.len() implies 0 <= (#[trigger] places[k]).1
            < groups.len() && 0 <= places[k].0 < groups[places[k].1].len()
            && groups[places[k].1][places[k].0] == now[k] && sooner(
            places[k],
            (row, count as int),
        ) by {
            if k < old.len() {
                assert(places[k] == old[k]);
            }
        }
        assert forall|g: int, i: int|
            0 <= g < groups.len() && 0 <= i < groups[g].len() && sooner(
                (i, g),
                (row, count as int),
            ) implies #[trigger] had_its_turn(now, groups, places, limit, g, i) by {
            let e = groups[g][i];
            if (i, g) == here {
                let turn = had.len() as int;
                assert(had.take(turn) =~= had);
                assert(now.take(turn) =~= had);
                assert forall|k: int| 0 <= k < turn implies sooner(#[trigger] places[k], here) by {
                    assert(places[k] == old[k]);
                }
                if now.len() == had.len() && has_id(had, e.id@) {
                    let k = choose|k: int|
                        0 <= k < had.len() && (#[trigger] had[k]).id@ == e.id@;
                    assert(now[k].id@ == e.id@);
                }
                assert(fairly_treated(now, places, limit, (i, g), e, turn));
            } else {
                assert(sooner((i, g), here));
                assert(had_its_turn(had, groups, old, limit, g, i));
                let turn = choose|turn: int|
                    fairly_treated(had, old, limit, (i, g), groups[g][i], turn);
                assert(now.take(turn) =~= had.take(turn));
                assert forall|k: int| 0 <= k < turn implies sooner(#[trigger] places[k], (i, g)) by {
                    assert(places[k] == old[k]);
                }
                assert forall|k: int| turn <= k < places.len() implies !sooner(
                    #[trigger] places[k],
                    (i, g),
                ) by {
                    if k < old.len() {
                        assert(places[k] == old[k]);
                    }
                }
                if named_before(had, turn, e.id@) {
                    let k = choose|k: int| 0 <= k < turn && (#[trigger] had[k]).id@ == e.id@;
                    assert(now[k].id@ == e.id@);
                }
                assert(fairly_treated(now, places, limit, (i, g), e, turn));
            }
        }
        places
    }
}

proof fn lemma_treat_rows(groups: Seq<Seq<Evidence>>, limit: nat, rows: nat) -> (places: Seq<
    (int, int),
>)
    ensures
        all_treated(pack_rows(groups, limit, rows), groups, places, limit, (rows as int, 0)),
    decreases rows,
{
    if rows == 0 {
        Seq::empty()
    } else {
        let before = lemma_treat_rows(groups, limit, (rows - 1) as nat);
        let had = pack_rows(groups, limit, (rows - 1) as nat);
        let places = lemma_treat_row(groups, rows - 1, had, before, limit, groups.len());
        let now = pack_rows(groups, limit, rows);
        let end = (rows - 1, groups.len() as int);
        assert forall|g: int, i: int|
            0 <= g < groups.len() && 0 <= i < groups[g].len() && sooner(
                (i, g),
                (rows as int, 0),
            ) implies #[trigger] had_its_turn(now, groups, places, limit, g, i) by {
            assert(sooner((i, g), end));
            assert(had_its_turn(now, groups, places, limit, g, i));
        }
        assert forall|k: int| 0 <= k < places.len() implies sooner(
            #[trigger] places[k],
            (rows as int, 0),
        ) by {
            assert(sooner(places[k], end));
        }
        places
    }
}

proof fn lemma_longest(groups: Seq<Seq<Evidence>>, count: nat, g: int)
    requires
        0 <= g < count <= groups.len(),
    ensures
        groups[g].len() <= longest(groups, count),
    decreases count,
{
    if g < count - 1 {
        lemma_longest(groups, (count - 1) as nat, g);
    }
}

/// Groups take turns, one passage of each before a second of any, and each
/// passage is taken in its turn unless its id was taken before or there is no
/// room left for it. This fixes what is packed, and in which order.
pub proof fn groups_take_turns(groups: Seq<Seq<Evidence>>, limit: nat)
    ensures
        exists|places: Seq<(int, int)>|
            {
                &&& #[trigger] stands_at(packed(groups, limit), groups, places)
                &&& forall|g: int, i: int|
                    0 <= g < groups.len() && 0 <= i < groups[g].len() ==> #[trigger] had_its_turn(
                        packed(groups, limit),
                        groups,
                        places,
                        limit,
                        g,
                        i,
                    )
            },
{
    let rows = longest(groups, groups.len());
    let list = packed(groups, limit);
    let places = lemma_treat_rows(groups, limit, rows);
    assert(stands_at(list, groups, places));
    assert forall|g: int, i: int|
        0 <= g < groups.len() && 0 <= i < groups[g].len() implies #[trigger] had_its_turn(
        list,
        groups,
        places,
        limit,
        g,
        i,
    ) by {
        lemma_longest(groups, groups.len(), g);
        assert(sooner((i, g), (rows as int, 0)));
    }
}

/// Packing leaves out nothing that fits: for every passage of every group, one
/// with its id is packed, or it does not fit beside those that are.
pub proof fn what_fits_is_packed(groups: Seq<Seq<Evidence>>, limit: nat, g: int, i: int)
    requires
        0 <= g < groups.len(),
        0 <= i < groups[g].len(),
    ensures
        (exists|k: int|
            0 <= k < packed(groups, limit).len() && (#[trigger] packed(groups, limit)[k]).id@
                == groups[g][i].id@) || total_cost(packed(groups, limit)) + blen(
            groups[g][i].content@,
        ) + blen(groups[g][i].path@) + 256 > limit,
{
    let list = packed(groups, limit);
    let e = groups[g][i];
    groups_take_turns(groups, limit);
    let places = choose|places: Seq<(int, int)>|
        {
            &&& #[trigger] stands_at(list, groups, places)
            &&& forall|g: int, i: int|
                0 <= g < groups.len() && 0 <= i < groups[g].len() ==> #[trigger] had_its_turn(
                    list,
                    groups,
                    places,
                    limit,
                    g,
                    i,
                )
        };
    assert(had_its_turn(list, groups, places, limit, g, i));
    let turn = choose|turn: int| fairly_treated(list, places, limit, (i, g), groups[g][i], turn);
    lemma_costs_grow(list, turn);
    if turn < places.len() && places[turn] == (i, g) {
        assert(list[turn].id@ == e.id@);
    }
}

/// Whether one of the passages has this id.
pub fn contains_id(list: &Vec<Evidence>, id: &str) -> (r: bool)
    ensures
        r == has_id(list@, id@),
{
    let mut k: usize = 0;
    while k < list.len()
        invariant
            k <= list@.len(),
            forall|j: int| 0 <= j < k ==> (#[trigger] list@[j]).id@ != id@,
        decreases list@.len() - k,
    {
        if same(list[k].id.as_str(), id) {
            return true;
        }
        k += 1;
    }
    false
}

/// Keeps passages whole, and gives each group a turn before taking more from
/// any one of them.
pub fn pack_evidence(groups: &Vec<Vec<Evidence>>, limit: usize) -> (r: Vec<Evidence>)
    ensures
        r@ == packed(evidence_lists(groups@), limit as nat),
{
    let ghost lists = evidence_lists(groups@);
    let mut rows: usize = 0;
    let mut g: usize = 0;
    while g < groups.len()
        invariant
            g <= groups@.len(),
            lists == evidence_lists(groups@),
            rows == longest(lists, g as nat),
        decreases groups@.len() - g,
    {
        assert(lists[g as int] == groups@[g as int]@);
        if groups[g].len() > rows {
            rows = groups[g].len();
        }
        g += 1;
    }
    let mut selected: Vec<Evidence> = Vec::new();
    let mut used: usize = 0;
    let mut row: usize = 0;
    while row < rows
        invariant
            row <= rows,
            rows == longest(lists, lists.len()),
            lists == evidence_lists(groups@),
            used <= limit,
            used == total_cost(selected@),
            selected@ == pack_rows(lists, limit as nat, row as nat),
        decreases rows - row,
    {
        let ghost start = selected@;
        let mut i: usize = 0;
        while i < groups.len()
            invariant
                i <= groups@.len(),
                lists == evidence_lists(groups@),
                used <= limit,
                used == total_cost(selected@),
                selected@ == pack_row(lists, row as int, start, limit as nat, i as nat),
            decreases groups@.len() - i,
        {
            assert(lists[i as int] == groups@[i as int]@);
            if row < groups[i].len() {
                let e = &groups[i][row];
                let content: usize = e.content.as_str().as_bytes().len();
                let path: usize = e.path.as_str().as_bytes().len();
                let room: usize = limit - used;
                if content <= room && path <= room - content && 256 <= room - content - path
                    && !contains_id(&selected, e.id.as_str()) {
                    let copy = e.clone();
                    assert(selected@.push(copy).drop_last() =~= selected@);
                    used = used + content + path + 256;
                    selected.push(copy);
                }
            }
            i += 1;
        }
        row += 1;
    }
    selected
}

/// What the first `count` passages of a list add to those before it.
pub open spec fn merge_list(list: Seq<Evidence>, before: Seq<Evidence>, count: nat) -> Seq<Evidence>
    decreases count,
{
    if count == 0 {
        before
    } else {
        let so_far = merge_list(list, before, (count - 1) as nat);
        if has_id(so_far, list[count - 1].id@) {
            so_far
        } else {
            so_far.push(list[count - 1])
        }
    }
}

/// The passages of the first `count` groups, each id once.
pub open spec fn merged(groups: Seq<Seq<Evidence>>, count: nat) -> Seq<Evidence>
    decreases count,
{
    if count == 0 {
        Seq::empty()
    } else {
        merge_list(
            groups[count - 1],
            merged(groups, (count - 1) as nat),
            groups[count - 1].len(),
        )
    }
}

proof fn lemma_merge_list(list: Seq<Evidence>, before: Seq<Evidence>, count: nat)
    requires
        distinct_ids(before),
        count <= list.len(),
    ensures
        distinct_ids(merge_list(list, before, count)),
        before.len() <= merge_list(list, before, count).len(),
        forall|k: int|
            0 <= k < before.len() ==> #[trigger] merge_list(list, before, count)[k] == before[k],
        forall|i: int|
            0 <= i < count ==> has_id(merge_list(list, before, count), (#[trigger] list[i]).id@),
    decreases count,
{
    if count > 0 {
        lemma_merge_list(list, before, (count - 1) as nat);
        let so_far = merge_list(list, before, (count - 1) as nat);
        let now = merge_list(list, before, count);
        assert forall|j: int, k: int| 0 <= j < k < now.len() implies (#[trigger] now[j]).id@ != (
        #[trigger] now[k]).id@ by {
            assert(now[j] == so_far[j]);
            if k < so_far.len() {
                assert(now[k] == so_far[k]);
            }
        }
        assert forall|i: int| 0 <= i < count implies has_id(now, (#[trigger] list[i]).id@) by {
            if i < count - 1 {
                let k = choose|k: int|
                    0 <= k < so_far.len() && (#[trigger] so_far[k]).id@ == list[i].id@;
                assert(now[k].id@ == list[i].id@);
            } else if now.len() > so_far.len() {
                assert(now[so_far.len() as int].id@ == list[i].id@);
            }
        }
    }
}

/// A merge holds every id of its groups, and none twice.
pub proof fn merging_keeps_every_passage_once(groups: Seq<Seq<Evidence>>, count: nat)
    requires
        count <= groups.len(),
    ensures
        distinct_ids(merged(groups, count)),
        forall|g: int, i: int|
            0 <= g < count && 0 <= i < groups[g].len() ==> has_id(
                merged(groups, count),
                (#[trigger] groups[g][i]).id@,
            ),
    decreases count,
{
    if count > 0 {
        merging_keeps_every_passage_once(groups, (count - 1) as nat);
        let before = merged(groups, (count - 1) as nat);
        let now = merged(groups, count);
        lemma_merge_list(groups[count - 1], before, groups[count - 1].len());
        assert forall|g: int, i: int| 0 <= g < count && 0 <= i < groups[g].len() implies has_id(
            now,
            (#[trigger] groups[g][i]).id@,
        ) by {
            if g < count - 1 {
                let k = choose|k: int|
                    0 <= k < before.len() && (#[trigger] before[k]).id@ == groups[g][i].id@;
                assert(now[k].id@ == groups[g][i].id@);
            } else {
                assert(has_id(now, groups[count - 1][i].id@));
            }
        }
    }
}

/// The passages of some groups, each id once.
pub fn merge_evidence(groups: &Vec<Vec<Evidence>>) -> (r: Vec<Evidence>)
    ensures
        r@ == merged(evidence_lists(groups@), groups@.len()),
{
    let ghost lists = evidence_lists(groups@);
    let mut r: Vec<Evidence> = Vec::new();
    let mut g: usize = 0;
    while g < groups.len()
        invariant
            g <= groups@.len(),
            lists == evidence_lists(groups@),
            r@ == merged(lists, g as nat),
        decreases groups@.len() - g,
    {
        let ghost before = r@;
        let list = &groups[g];
        assert(lists[g as int] == list@);
        let mut i: usize = 0;
        while i < list.len()
            invariant
                i <= list@.len(),
                r@ == merge_list(list@, before, i as nat),
            decreases list@.len() - i,
        {
            if !contains_id(&r, list[i].id.as_str()) {
                r.push(list[i].clone());
            }
            i += 1;
        }
        g += 1;
    }
    r
}

// ---------------------------------------------------------------------------
// Turns of files
// ---------------------------------------------------------------------------

/// The position of the first group of a path.
pub open spec fn group_of(groups: Seq<Seq<Evidence>>, path: Seq<char>, from: nat) -> Option<int>
    decreases groups.len() - from,
{
    if from >= groups.len() {
        None
    } else if groups[from as int].len() > 0 && groups[from as int][0].path@ == path {
        Some(from as int)
    } else {
        group_of(groups, path, from + 1)
    }
}

/// The first `count` passages, grouped by path, in the order in which paths are
/// first met.
pub open spec fn by_path(list: Seq<Evidence>, count: nat) -> Seq<Seq<Evidence>>
    decreases count,
{
    if count == 0 {
        Seq::empty()
    } else {
        let before = by_path(list, (count - 1) as nat);
        let e = list[count - 1];
        match group_of(before, e.path@, 0) {
            Some(g) => before.update(g, before[g].push(e)),
            None => before.push(seq![e]),
        }
    }
}

/// The passages that fit in a limit, in turns of the files.
pub open spec fn packed_by_file(list: Seq<Evidence>, limit: nat) -> Seq<Evidence> {
    packed(by_path(list, list.len()), limit)
}

/// Gives different files a turn.
pub fn pack_by_file(list: &Vec<Evidence>, limit: usize) -> (r: Vec<Evidence>)
    ensures
        r@ == packed_by_file(list@, limit as nat),
{
    let mut groups: Vec<Vec<Evidence>> = Vec::new();
    let mut i: usize = 0;
    assert(evidence_lists(groups@) =~= Seq::empty());
    while i < list.len()
        invariant
            i <= list@.len(),
            evidence_lists(groups@) == by_path(list@, i as nat),
        decreases list@.len() - i,
    {
        let ghost before = evidence_lists(groups@);
        let e = &list[i];
        let mut g: usize = 0;
        while g < groups.len() && !(groups[g].len() > 0 && same(
            groups[g][0].path.as_str(),
            e.path.as_str(),
        ))
            invariant
                g <= groups@.len(),
                before == evidence_lists(groups@),
                group_of(before, e.path@, g as nat) == group_of(before, e.path@, 0),
            decreases groups@.len() - g,
        {
            assert(before[g as int] == groups@[g as int]@);
            g += 1;
        }
        if g < groups.len() {
            assert(before[g as int] == groups@[g as int]@);
            let copy = e.clone();
            let ghost grown = groups@[g as int]@.push(copy);
            groups[g].push(copy);
            assert(evidence_lists(groups@) =~= before.update(g as int, grown));
        } else {
            let mut fresh: Vec<Evidence> = Vec::new();
            fresh.push(e.clone());
            assert(fresh@ =~= seq![*e]);
            assert(evidence_lists(groups@.push(fresh)) =~= before.push(fresh@));
            groups.push(fresh);
        }
        i += 1;
    }
    pack_evidence(&groups, limit)
}

} // verus!
