//! What an audit is for: every verdict is screened by the same rules, everything
//! that is missing is reported, and nothing that is owed is dropped.

use vstd::prelude::*;

use crate::audit::{
    absorbed, assessed, item_with, missing_issues, missing_owners, owed, pages_owned, prioritized,
    put_verdict, screened, still_pending, tallied, unsettled, unsettled_items, verdict_problem, with_status,
    AssessmentModel, DraftIssue, Ledger, Status,
};
use crate::coverage::ObligationModel;
use crate::order::{lemma_filter_none, lemma_filter_step};
use crate::pages::{flat, PageModel};
use crate::text::{
    blen, contains, decimal, precedes, texts_are_ordered, the_order_of_texts_is_transitive, trim,
};

verus! {

/// A verdict says this.
pub open spec fn says(status: Status) -> spec_fn(AssessmentModel) -> bool {
    |a: AssessmentModel| a.status == status
}

proof fn lemma_counts(results: Seq<AssessmentModel>, status: Status, count: nat)
    requires
        count <= results.len(),
    ensures
        with_status(results, status, count) == results.take(count as int).filter(
            says(status),
        ).len(),
    decreases count,
{
    lemma_filter_none(results, says(status));
    if count > 0 {
        lemma_counts(results, status, (count - 1) as nat);
        lemma_filter_step(results, says(status), count - 1);
    }
}

proof fn lemma_item(items: Seq<ObligationModel>, id: Seq<char>, from: nat)
    ensures
        match item_with(items, id, from) {
            Some(k) => from <= k < items.len() && items[k].id == id && forall|j: int|
                from <= j < k ==> (#[trigger] items[j]).id != id,
            None => forall|j: int| from <= j < items.len() ==> (#[trigger] items[j]).id != id,
        },
    decreases items.len() - from,
{
    if from < items.len() && items[from as int].id != id {
        lemma_item(items, id, from + 1);
    }
}

/// An issue reports that a verdict misses the explanation of an obligation: it is
/// major, stands with the section that the verdict names, asks for the file and
/// the subject, and tells where they are and why they are missing.
pub open spec fn reports(issue: DraftIssue, o: ObligationModel, a: AssessmentModel) -> bool {
    &&& issue.severity == "major"@
    &&& issue.section == a.section
    &&& issue.query == o.path + " "@ + o.subject
    &&& issue.message == "원본 대조에서 누락된 설명 ("@ + o.path + ":"@ + decimal(
        o.span.start as nat,
    ) + "–"@ + decimal(o.span.end as nat) + ", "@ + o.subject + "): "@ + a.reason
}

/// An issue reports the first obligation with the id of a verdict.
pub open spec fn reports_one(
    issue: DraftIssue,
    items: Seq<ObligationModel>,
    a: AssessmentModel,
) -> bool {
    exists|k: int|
        0 <= k < items.len() && reports(issue, #[trigger] items[k], a) && items[k].id == a.id
            && forall|j: int| 0 <= j < k ==> (#[trigger] items[j]).id != a.id
}

proof fn lemma_missing(items: Seq<ObligationModel>, results: Seq<AssessmentModel>, count: nat)
    requires
        count <= results.len(),
    ensures
        match missing_issues(items, results, count) {
            Some(issues) => {
                let missing = results.take(count as int).filter(says(Status::Missing));
                &&& issues.len() == missing.len()
                &&& forall|k: int|
                    0 <= k < issues.len() ==> reports_one(#[trigger] issues[k], items, missing[k])
            },
            None => exists|i: int|
                0 <= i < count && (#[trigger] results[i]).status == Status::Missing && forall|
                    k: int,
                |
                    0 <= k < items.len() ==> (#[trigger] items[k]).id != results[i].id,
        },
    decreases count,
{
    lemma_filter_none(results, says(Status::Missing));
    if count > 0 {
        let i = count - 1;
        lemma_missing(items, results, i as nat);
        lemma_filter_step(results, says(Status::Missing), i);
        lemma_item(items, results[i].id, 0);
        let a = results[i];
        let now = missing_issues(items, results, count);
        match missing_issues(items, results, i as nat) {
            None => {
                let w = choose|w: int|
                    0 <= w < i && (#[trigger] results[w]).status == Status::Missing && forall|
                        k: int,
                    |
                        0 <= k < items.len() ==> (#[trigger] items[k]).id != results[w].id;
                assert(results[w].status == Status::Missing);
            },
            Some(issues) => {
                if a.status == Status::Missing {
                    match item_with(items, a.id, 0) {
                        None => {
                            assert(results[i].status == Status::Missing);
                        },
                        Some(k) => {
                            let all = now->0;
                            let missing = results.take(count as int).filter(says(Status::Missing));
                            let before = results.take(i).filter(says(Status::Missing));
                            assert forall|j: int| 0 <= j < all.len() implies reports_one(
                                #[trigger] all[j],
                                items,
                                missing[j],
                            ) by {
                                if j < issues.len() {
                                    assert(all[j] == issues[j]);
                                    assert(missing[j] == before[j]);
                                } else {
                                    assert(missing[j] == a);
                                    assert(reports(all[j], items[k], a));
                                }
                            }
                        },
                    }
                }
            },
        }
    }
}

/// Everything that is missing is reported: the issues of a tally are one for
/// each missing verdict, in the order of the verdicts, and each reports the
/// obligation that its verdict is about. A tally fails only where a missing
/// verdict is about none of the obligations.
pub proof fn missing_verdicts_are_reported(
    items: Seq<ObligationModel>,
    results: Seq<AssessmentModel>,
)
    ensures
        missing_issues(items, results, results.len()) matches Some(issues) ==> issues.len()
            == results.filter(says(Status::Missing)).len() && forall|k: int|
            0 <= k < issues.len() ==> reports_one(
                #[trigger] issues[k],
                items,
                results.filter(says(Status::Missing))[k],
            ),
        missing_issues(items, results, results.len()) is None <==> exists|i: int|
            0 <= i < results.len() && (#[trigger] results[i]).status == Status::Missing && forall|
                k: int,
            |
                0 <= k < items.len() ==> (#[trigger] items[k]).id != results[i].id,
{
    lemma_missing(items, results, results.len());
    assert(results.take(results.len() as int) =~= results);
    if missing_issues(items, results, results.len()) is Some {
        let issues = missing_issues(items, results, results.len())->0;
        let missing = results.filter(says(Status::Missing));
        assert forall|i: int|
            0 <= i < results.len() && (#[trigger] results[i]).status == Status::Missing implies !(
        forall|k: int| 0 <= k < items.len() ==> (#[trigger] items[k]).id != results[i].id) by {
            results.lemma_filter_contains(says(Status::Missing), i);
            let j = choose|j: int| 0 <= j < missing.len() && missing[j] == results[i];
            assert(reports_one(issues[j], items, missing[j]));
            let k = choose|k: int|
                0 <= k < items.len() && reports(issues[j], #[trigger] items[k], missing[j])
                    && items[k].id == missing[j].id && forall|j2: int|
                    0 <= j2 < k ==> (#[trigger] items[j2]).id != missing[j].id;
            assert(items[k].id == results[i].id);
        }
    }
}

/// A ledger grows by what the verdicts say: each is checked, and counted under
/// its status; what a group was not given a verdict on stays unresolved.
pub proof fn ledgers_count_verdicts(l: Ledger, group: nat, results: Seq<AssessmentModel>)
    requires
        l.checked + results.len() <= u64::MAX,
        l.covered + results.len() <= u64::MAX,
        l.out_of_scope + results.len() <= u64::MAX,
        l.missing + results.len() <= u64::MAX,
        l.unresolved + group <= u64::MAX,
    ensures
        ({
            let t = tallied(l, group, results);
            &&& t.checked == l.checked + results.len()
            &&& t.covered == l.covered + results.filter(says(Status::Covered)).len()
            &&& t.out_of_scope == l.out_of_scope + results.filter(says(Status::OutOfScope)).len()
            &&& t.missing == l.missing + results.filter(says(Status::Missing)).len()
            &&& results.len() <= group ==> t.unresolved == l.unresolved + group - results.len()
            &&& results.len() >= group ==> t.unresolved == l.unresolved
        }),
{
    lemma_counts(results, Status::Covered, results.len());
    lemma_counts(results, Status::OutOfScope, results.len());
    lemma_counts(results, Status::Missing, results.len());
    assert(results.take(results.len() as int) =~= results);
    results.lemma_filter_len(says(Status::Covered));
    results.lemma_filter_len(says(Status::OutOfScope));
    results.lemma_filter_len(says(Status::Missing));
}

// ---------------------------------------------------------------------------
// Screening
// ---------------------------------------------------------------------------

/// The numbers from zero on, below a limit.
pub open spec fn upto(n: nat) -> Seq<int> {
    Seq::new(n, |i: int| i)
}

/// The verdict at a position is accepted: it is about an obligation that is owed
/// and that no earlier verdict is about, it gives a reason of at most 4000 bytes,
/// and its quote or its section bears it out.
pub open spec fn acceptable(
    list: Seq<AssessmentModel>,
    items: Seq<ObligationModel>,
    prose: Seq<char>,
    sections: nat,
) -> spec_fn(int) -> bool {
    |i: int|
        {
            let a = list[i];
            &&& exists|k: int| 0 <= k < items.len() && (#[trigger] items[k]).id == a.id
            &&& forall|j: int| 0 <= j < i ==> (#[trigger] list[j]).id != a.id
            &&& trim(a.reason).len() > 0
            &&& blen(a.reason) <= 4000
            &&& a.status == Status::Covered ==> flat(a.quote).len() >= 12 && blen(flat(a.quote))
                <= 8000 && contains(prose, flat(a.quote))
            &&& a.status != Status::Covered ==> a.section < sections
        }
}

/// How the verdict at a position is kept: of the page that was read where it
/// says covered, and without a quote otherwise.
pub open spec fn kept_at(list: Seq<AssessmentModel>, section: usize) -> spec_fn(
    int,
) -> AssessmentModel {
    |i: int|
        AssessmentModel {
            id: list[i].id,
            status: list[i].status,
            section: if list[i].status == Status::Covered {
                section
            } else {
                list[i].section
            },
            quote: if list[i].status == Status::Covered {
                list[i].quote
            } else {
                Seq::empty()
            },
            reason: list[i].reason,
        }
}

proof fn lemma_screened(
    list: Seq<AssessmentModel>,
    items: Seq<ObligationModel>,
    section: usize,
    prose: Seq<char>,
    sections: nat,
    count: nat,
)
    requires
        count <= list.len(),
    ensures
        ({
            let s = screened(list, items, section, prose, sections, count);
            let ok = upto(list.len()).take(count as int).filter(
                acceptable(list, items, prose, sections),
            );
            &&& s.accepted == ok.map_values(kept_at(list, section))
            &&& s.accepted.len() + s.problems.len() == count
            &&& forall|id: Seq<char>| #[trigger]
                s.seen.contains(id) <==> owed(items, id) && exists|j: int|
                    0 <= j < count && (#[trigger] list[j]).id == id
        }),
    decreases count,
{
    let at = upto(list.len());
    let good = acceptable(list, items, prose, sections);
    lemma_filter_none(at, good);
    let now = screened(list, items, section, prose, sections, count);
    if count == 0 {
        assert(Seq::<int>::empty().map_values(kept_at(list, section)) =~= Seq::empty());
    } else {
        let i = count - 1;
        lemma_screened(list, items, section, prose, sections, i as nat);
        lemma_filter_step(at, good, i);
        let was = screened(list, items, section, prose, sections, i as nat);
        let before = at.take(i).filter(good);
        let a = list[i];
        assert(at[i] == i);
        assert(before.push(i).map_values(kept_at(list, section)) =~= before.map_values(
            kept_at(list, section),
        ).push(kept_at(list, section)(i)));
        assert(was.seen.contains(a.id) <==> owed(items, a.id) && exists|j: int|
            0 <= j < i && (#[trigger] list[j]).id == a.id);
        assert(good(i) == (owed(items, a.id) && !was.seen.contains(a.id) && verdict_problem(
            a,
            prose,
            sections,
        ) is None));
        assert forall|id: Seq<char>| #[trigger] now.seen.contains(id) <==> owed(items, id)
            && exists|j: int| 0 <= j < count && (#[trigger] list[j]).id == id by {
            assert(was.seen.contains(id) <==> owed(items, id) && exists|j: int|
                0 <= j < i && (#[trigger] list[j]).id == id);
            if now.seen.len() > was.seen.len() {
                assert(now.seen =~= was.seen.push(a.id));
                assert(now.seen[was.seen.len() as int] == a.id);
                if was.seen.contains(id) {
                    let k = choose|k: int| 0 <= k < was.seen.len() && was.seen[k] == id;
                    assert(now.seen[k] == id);
                }
            }
            assert(list[i].id == a.id);
        }
    }
}

/// Screening keeps exactly the acceptable verdicts, in their order, and says one
/// thing of each of the others.
pub proof fn acceptable_verdicts_are_kept(
    list: Seq<AssessmentModel>,
    items: Seq<ObligationModel>,
    section: usize,
    prose: Seq<char>,
    sections: nat,
)
    ensures
        ({
            let s = screened(list, items, section, prose, sections, list.len());
            &&& s.accepted == upto(list.len()).filter(
                acceptable(list, items, prose, sections),
            ).map_values(kept_at(list, section))
            &&& s.accepted.len() + s.problems.len() == list.len()
        }),
{
    lemma_screened(list, items, section, prose, sections, list.len());
    assert(upto(list.len()).take(list.len() as int) =~= upto(list.len()));
}

/// No verdict is about this obligation.
pub open spec fn unanswered(list: Seq<AssessmentModel>) -> spec_fn(ObligationModel) -> bool {
    |o: ObligationModel|
        forall|k: int| 0 <= k < list.len() ==> (#[trigger] list[k]).id != o.id
}

/// No verdict but that it is missing is about this obligation.
pub open spec fn unexplained(list: Seq<AssessmentModel>) -> spec_fn(ObligationModel) -> bool {
    |o: ObligationModel|
        forall|k: int|
            0 <= k < list.len() && (#[trigger] list[k]).id == o.id ==> list[k].status
                == Status::Missing
}

proof fn lemma_pending(items: Seq<ObligationModel>, list: Seq<AssessmentModel>, count: nat)
    requires
        count <= items.len(),
    ensures
        still_pending(items, list, count) == items.take(count as int).filter(unanswered(list)),
        unsettled_items(items, list, count) == items.take(count as int).filter(unexplained(list)),
    decreases count,
{
    lemma_filter_none(items, unanswered(list));
    lemma_filter_none(items, unexplained(list));
    if count > 0 {
        lemma_pending(items, list, (count - 1) as nat);
        lemma_filter_step(items, unanswered(list), count - 1);
        lemma_filter_step(items, unexplained(list), count - 1);
        let o = items[count - 1];
        assert(assessed(list, o.id) == !unanswered(list)(o));
        assert(unsettled(list, o.id) == unexplained(list)(o));
    }
}

/// What is asked again is what no verdict answered, all of it and in its order;
/// the next page is asked about everything that no page has explained yet.
pub proof fn open_obligations_are_asked_again(
    items: Seq<ObligationModel>,
    list: Seq<AssessmentModel>,
)
    ensures
        still_pending(items, list, items.len()) == items.filter(unanswered(list)),
        unsettled_items(items, list, items.len()) == items.filter(unexplained(list)),
{
    lemma_pending(items, list, items.len());
    assert(items.take(items.len() as int) =~= items);
}

// ---------------------------------------------------------------------------
// The walk over pages
// ---------------------------------------------------------------------------

/// A page belongs to one of these sections.
pub open spec fn owned_by(pages: Seq<PageModel>, owners: Seq<usize>) -> spec_fn(usize) -> bool {
    |p: usize|
        exists|k: int| 0 <= k < owners.len() && #[trigger] owners[k] == pages[p as int].section
}

/// A page belongs to none of these sections.
pub open spec fn not_owned_by(pages: Seq<PageModel>, owners: Seq<usize>) -> spec_fn(usize) -> bool {
    |p: usize| !owned_by(pages, owners)(p)
}

proof fn lemma_owned(
    order: Seq<usize>,
    pages: Seq<PageModel>,
    owners: Seq<usize>,
    count: nat,
)
    requires
        count <= order.len(),
    ensures
        pages_owned(order, pages, owners, true, count) == order.take(count as int).filter(
            owned_by(pages, owners),
        ),
        pages_owned(order, pages, owners, false, count) == order.take(count as int).filter(
            not_owned_by(pages, owners),
        ),
    decreases count,
{
    lemma_filter_none(order, owned_by(pages, owners));
    lemma_filter_none(order, not_owned_by(pages, owners));
    if count > 0 {
        lemma_owned(order, pages, owners, (count - 1) as nat);
        lemma_filter_step(order, owned_by(pages, owners), count - 1);
        lemma_filter_step(order, not_owned_by(pages, owners), count - 1);
        let p = order[count - 1];
        let section = pages[p as int].section;
        if owners.contains(section) {
            let k = choose|k: int| 0 <= k < owners.len() && owners[k] == section;
            assert(owners[k] == section);
        }
    }
}

/// The pages of named sections come first, in their order, and the others behind
/// them in theirs.
pub proof fn named_sections_come_first(
    order: Seq<usize>,
    pages: Seq<PageModel>,
    owners: Seq<usize>,
)
    ensures
        prioritized(order, pages, owners) == order.filter(owned_by(pages, owners)) + order.filter(
            not_owned_by(pages, owners),
        ),
{
    lemma_owned(order, pages, owners, order.len());
    assert(order.take(order.len() as int) =~= order);
}

/// The section that a verdict names.
pub open spec fn section_named() -> spec_fn(AssessmentModel) -> usize {
    |a: AssessmentModel| a.section
}

proof fn lemma_owners(list: Seq<AssessmentModel>, count: nat)
    requires
        count <= list.len(),
    ensures
        missing_owners(list, count) == list.take(count as int).filter(
            says(Status::Missing),
        ).map_values(section_named()),
    decreases count,
{
    lemma_filter_none(list, says(Status::Missing));
    if count == 0 {
        assert(Seq::<AssessmentModel>::empty().map_values(section_named()) =~= Seq::empty());
    } else {
        lemma_owners(list, (count - 1) as nat);
        lemma_filter_step(list, says(Status::Missing), count - 1);
        let before = list.take(count - 1).filter(says(Status::Missing));
        assert(before.push(list[count - 1]).map_values(section_named()) =~= before.map_values(
            section_named(),
        ).push(list[count - 1].section));
    }
}

/// The sections looked at next are those that the missing verdicts name.
pub proof fn owners_are_those_of_missing_verdicts(list: Seq<AssessmentModel>)
    ensures
        missing_owners(list, list.len()) == list.filter(says(Status::Missing)).map_values(
            section_named(),
        ),
{
    lemma_owners(list, list.len());
    assert(list.take(list.len() as int) =~= list);
}

/// Verdicts are ordered by ids, and none has the id of another.
pub open spec fn by_id(list: Seq<AssessmentModel>) -> bool {
    forall|j: int, k: int|
        0 <= j < k < list.len() ==> precedes((#[trigger] list[j]).id, (#[trigger] list[k]).id)
}

proof fn lemma_put(list: Seq<AssessmentModel>, a: AssessmentModel)
    requires
        by_id(list),
    ensures
        by_id(put_verdict(list, a)),
        put_verdict(list, a).contains(a),
        forall|x: AssessmentModel| #[trigger]
            put_verdict(list, a).contains(x) <==> x == a || (list.contains(x) && x.id != a.id),
    decreases list.len(),
{
    let now = put_verdict(list, a);
    if list.len() == 0 {
        assert(now[0] == a);
    } else {
        let head = list.drop_last();
        let last = list.last();
        assert forall|j: int, k: int| 0 <= j < k < head.len() implies precedes(
            (#[trigger] head[j]).id,
            (#[trigger] head[k]).id,
        ) by {
            assert(list[j] == head[j] && list[k] == head[k]);
        }
        assert forall|x: AssessmentModel| head.contains(x) implies precedes(x.id, last.id)
            && list.contains(x) by {
            let j = choose|j: int| 0 <= j < head.len() && head[j] == x;
            assert(list[j] == x);
        }
        assert forall|x: AssessmentModel| list.contains(x) implies x == last || head.contains(
            x,
        ) by {
            let j = choose|j: int| 0 <= j < list.len() && list[j] == x;
            if j < head.len() {
                assert(head[j] == x);
            }
        }
        assert(list[list.len() - 1] == last);
        texts_are_ordered(last.id, a.id);
        if last.id == a.id {
            assert(now[now.len() - 1] == a);
            assert forall|x: AssessmentModel| #[trigger] now.contains(x) <==> x == a || (
            list.contains(x) && x.id != a.id) by {
                if head.contains(x) {
                    let j = choose|j: int| 0 <= j < head.len() && head[j] == x;
                    assert(now[j] == x);
                    texts_are_ordered(x.id, last.id);
                }
                if now.contains(x) {
                    let j = choose|j: int| 0 <= j < now.len() && now[j] == x;
                    if j < head.len() {
                        assert(head[j] == x);
                    }
                }
            }
            assert forall|j: int, k: int| 0 <= j < k < now.len() implies precedes(
                (#[trigger] now[j]).id,
                (#[trigger] now[k]).id,
            ) by {
                assert(now[j] == list[j]);
                if k < head.len() {
                    assert(now[k] == list[k]);
                } else {
                    assert(precedes(list[j].id, list[list.len() - 1].id));
                }
            }
        } else if precedes(last.id, a.id) {
            assert(now[now.len() - 1] == a);
            assert forall|x: AssessmentModel| #[trigger] now.contains(x) <==> x == a || (
            list.contains(x) && x.id != a.id) by {
                if list.contains(x) {
                    let j = choose|j: int| 0 <= j < list.len() && list[j] == x;
                    assert(now[j] == x);
                    if x != last {
                        the_order_of_texts_is_transitive(x.id, last.id, a.id);
                    }
                    texts_are_ordered(x.id, a.id);
                }
                if now.contains(x) {
                    let j = choose|j: int| 0 <= j < now.len() && now[j] == x;
                    if j < list.len() {
                        assert(list[j] == x);
                    }
                }
            }
            assert forall|j: int, k: int| 0 <= j < k < now.len() implies precedes(
                (#[trigger] now[j]).id,
                (#[trigger] now[k]).id,
            ) by {
                assert(now[j] == list[j]);
                if k < list.len() {
                    assert(now[k] == list[k]);
                } else if j < list.len() - 1 {
                    assert(precedes(list[j].id, list[list.len() - 1].id));
                    the_order_of_texts_is_transitive(list[j].id, last.id, a.id);
                }
            }
        } else {
            lemma_put(head, a);
            let inner = put_verdict(head, a);
            assert(now == inner.push(last));
            assert(now[now.len() - 1] == last);
            assert forall|x: AssessmentModel| inner.contains(x) implies now.contains(x)
                && precedes(x.id, last.id) by {
                let j = choose|j: int| 0 <= j < inner.len() && inner[j] == x;
                assert(now[j] == x);
            }
            assert forall|x: AssessmentModel| #[trigger] now.contains(x) <==> x == a || (
            list.contains(x) && x.id != a.id) by {
                assert(inner.contains(x) <==> x == a || (head.contains(x) && x.id != a.id));
                if now.contains(x) {
                    let j = choose|j: int| 0 <= j < now.len() && now[j] == x;
                    if j < inner.len() {
                        assert(inner[j] == x);
                        assert(inner.contains(x));
                    }
                }
            }
            assert forall|j: int, k: int| 0 <= j < k < now.len() implies precedes(
                (#[trigger] now[j]).id,
                (#[trigger] now[k]).id,
            ) by {
                assert(now[j] == inner[j]);
                assert(inner.contains(inner[j]));
                if k < inner.len() {
                    assert(now[k] == inner[k]);
                }
            }
        }
    }
}

/// A verdict is the last of the first `count` that explain an obligation.
pub open spec fn explains_last(more: Seq<AssessmentModel>, count: nat, i: int) -> bool {
    &&& 0 <= i < count
    &&& more[i].status != Status::Missing
    &&& forall|j: int|
        i < j < count && (#[trigger] more[j]).id == more[i].id ==> more[j].status == Status::Missing
}

/// None of the first `count` verdicts explains an obligation.
pub open spec fn none_explains(more: Seq<AssessmentModel>, count: nat, id: Seq<char>) -> bool {
    forall|j: int|
        0 <= j < count && (#[trigger] more[j]).id == id ==> more[j].status == Status::Missing
}

/// A verdict is the last of the first `count` that explain its obligation.
pub open spec fn last_word(more: Seq<AssessmentModel>, count: nat, x: AssessmentModel) -> bool {
    exists|i: int| #[trigger] explains_last(more, count, i) && more[i] == x
}

/// A verdict was known before, and none of the first `count` explains its
/// obligation.
pub open spec fn still_known(
    list: Seq<AssessmentModel>,
    more: Seq<AssessmentModel>,
    count: nat,
    x: AssessmentModel,
) -> bool {
    list.contains(x) && none_explains(more, count, x.id)
}

/// Nothing was known of the obligation of a verdict, and it is the first that
/// says it is missing.
pub open spec fn newly_missing(
    list: Seq<AssessmentModel>,
    more: Seq<AssessmentModel>,
    count: nat,
    x: AssessmentModel,
) -> bool {
    &&& none_explains(more, count, x.id)
    &&& forall|k: int| 0 <= k < list.len() ==> (#[trigger] list[k]).id != x.id
    &&& exists|i: int| #[trigger] comes_first(more, i, x) && 0 <= i < count
}

/// A verdict stands at a position, and none before it is about its obligation.
pub open spec fn comes_first(more: Seq<AssessmentModel>, i: int, x: AssessmentModel) -> bool {
    more[i] == x && forall|j: int| 0 <= j < i ==> (#[trigger] more[j]).id != x.id
}

/// What is known of an obligation: the last verdict that explains it; otherwise
/// what was known before; otherwise the first verdict that it is missing.
pub open spec fn is_known(
    list: Seq<AssessmentModel>,
    more: Seq<AssessmentModel>,
    count: nat,
    x: AssessmentModel,
) -> bool {
    last_word(more, count, x) || still_known(list, more, count, x) || newly_missing(
        list,
        more,
        count,
        x,
    )
}

/// The verdicts of a page are taken in without losing any: what is known
/// afterwards of every obligation is its last explanation, or else what was
/// known, or else that it is missing, once each and ordered by ids.
pub proof fn verdicts_are_taken_in(
    list: Seq<AssessmentModel>,
    more: Seq<AssessmentModel>,
    count: nat,
)
    requires
        by_id(list),
        count <= more.len(),
    ensures
        by_id(absorbed(list, more, count)),
        forall|x: AssessmentModel| #[trigger]
            absorbed(list, more, count).contains(x) <==> is_known(list, more, count, x),
    decreases count,
{
    let now = absorbed(list, more, count);
    if count == 0 {
        assert forall|x: AssessmentModel| #[trigger] now.contains(x) <==> is_known(
            list,
            more,
            count,
            x,
        ) by {
            assert(none_explains(more, 0, x.id));
        }
    } else {
        let n = (count - 1) as nat;
        verdicts_are_taken_in(list, more, n);
        let was = absorbed(list, more, n);
        let a = more[n as int];
        lemma_put(was, a);
        if assessed(was, a.id) {
            let k = choose|k: int| 0 <= k < was.len() && (#[trigger] was[k]).id == a.id;
            assert(was.contains(was[k]));
            assert(is_known(list, more, n, was[k]));
            lemma_known_is_met(list, more, n, was[k]);
        } else {
            assert forall|k: int| 0 <= k < list.len() implies (#[trigger] list[k]).id != a.id by {
                if list[k].id == a.id {
                    let x = list[k];
                    lemma_some_known(list, more, n, x.id, k, -1);
                    let y = choose|y: AssessmentModel|
                        is_known(list, more, n, y) && y.id == x.id;
                    assert(was.contains(y));
                    let q = choose|q: int| 0 <= q < was.len() && was[q] == y;
                    assert(was[q].id == a.id);
                }
            }
            assert forall|j: int| 0 <= j < n implies (#[trigger] more[j]).id != a.id by {
                if more[j].id == a.id {
                    lemma_some_known(list, more, n, a.id, -1, j);
                    let y = choose|y: AssessmentModel|
                        is_known(list, more, n, y) && y.id == a.id;
                    assert(was.contains(y));
                    let q = choose|q: int| 0 <= q < was.len() && was[q] == y;
                    assert(was[q].id == a.id);
                }
            }
        }
        assert forall|x: AssessmentModel| #[trigger] now.contains(x) <==> is_known(
            list,
            more,
            count,
            x,
        ) by {
            assert(was.contains(x) <==> is_known(list, more, n, x));
            lemma_known_step(list, more, n, x);
        }
    }
}

proof fn lemma_known_is_met(
    list: Seq<AssessmentModel>,
    more: Seq<AssessmentModel>,
    n: nat,
    x: AssessmentModel,
)
    requires
        is_known(list, more, n, x),
    ensures
        met(list, more, n, x.id),
{
    if last_word(more, n, x) {
        let i = choose|i: int| #[trigger] explains_last(more, n, i) && more[i] == x;
        assert(more[i].id == x.id);
    } else if list.contains(x) {
        let k = choose|k: int| 0 <= k < list.len() && list[k] == x;
        assert(list[k].id == x.id);
    } else {
        let i = choose|i: int| #[trigger] comes_first(more, i, x) && 0 <= i < n;
        assert(more[i].id == x.id);
    }
}

/// Something is known of every obligation that was met.
proof fn lemma_some_known(
    list: Seq<AssessmentModel>,
    more: Seq<AssessmentModel>,
    count: nat,
    id: Seq<char>,
    k: int,
    j: int,
)
    requires
        (0 <= k < list.len() && list[k].id == id) || (0 <= j < count && more[j].id == id),
    ensures
        exists|y: AssessmentModel| is_known(list, more, count, y) && y.id == id,
{
    if none_explains(more, count, id) {
        if exists|k: int| 0 <= k < list.len() && (#[trigger] list[k]).id == id {
            let k = choose|k: int| 0 <= k < list.len() && (#[trigger] list[k]).id == id;
            assert(list.contains(list[k]));
            assert(is_known(list, more, count, list[k]));
        } else {
            let i = lemma_first(more, id, j);
            assert(comes_first(more, i, more[i]));
            assert(is_known(list, more, count, more[i]));
        }
    } else {
        let w = choose|w: int|
            0 <= w < count && (#[trigger] more[w]).id == id && more[w].status != Status::Missing;
        let i = lemma_last(more, count, w);
        assert(is_known(list, more, count, more[i]));
    }
}

proof fn lemma_first(more: Seq<AssessmentModel>, id: Seq<char>, j: int) -> (i: int)
    requires
        0 <= j,
        more[j].id == id,
    ensures
        0 <= i <= j,
        more[i].id == id,
        forall|k: int| 0 <= k < i ==> (#[trigger] more[k]).id != id,
    decreases j,
{
    if exists|k: int| 0 <= k < j && (#[trigger] more[k]).id == id {
        let k = choose|k: int| 0 <= k < j && (#[trigger] more[k]).id == id;
        lemma_first(more, id, k)
    } else {
        j
    }
}

proof fn lemma_last(more: Seq<AssessmentModel>, count: nat, w: int) -> (i: int)
    requires
        0 <= w < count,
        more[w].status != Status::Missing,
    ensures
        w <= i,
        explains_last(more, count, i),
        more[i].id == more[w].id,
    decreases count - w,
{
    if explains_last(more, count, w) {
        w
    } else {
        let v = choose|v: int|
            w < v < count && (#[trigger] more[v]).id == more[w].id && more[v].status
                != Status::Missing;
        lemma_last(more, count, v)
    }
}

/// One of the known verdicts, or of the first `count` others, is about an
/// obligation.
spec fn met(list: Seq<AssessmentModel>, more: Seq<AssessmentModel>, count: nat, id: Seq<char>) -> bool {
    (exists|k: int| 0 <= k < list.len() && (#[trigger] list[k]).id == id) || (exists|j: int|
        0 <= j < count && (#[trigger] more[j]).id == id)
}

proof fn lemma_last_word_step(more: Seq<AssessmentModel>, n: nat, x: AssessmentModel)
    requires
        n < more.len(),
    ensures
        none_explains(more, n + 1, x.id) <==> none_explains(more, n, x.id) && !(more[n as int].id
            == x.id && more[n as int].status != Status::Missing),
        last_word(more, n + 1, x) <==> (last_word(more, n, x) && !(more[n as int].id == x.id
            && more[n as int].status != Status::Missing)) || (x == more[n as int] && x.status
            != Status::Missing),
{
    let a = more[n as int];
    let m = n + 1;
    if last_word(more, m, x) {
        let i = choose|i: int| #[trigger] explains_last(more, m, i) && more[i] == x;
        if i < n {
            assert(explains_last(more, n, i));
            assert(more[n as int].id == x.id ==> more[n as int].status == Status::Missing);
        }
    }
    if last_word(more, n, x) && !(a.id == x.id && a.status != Status::Missing) {
        let i = choose|i: int| #[trigger] explains_last(more, n, i) && more[i] == x;
        assert(explains_last(more, m, i));
    }
    if x == a && a.status != Status::Missing {
        assert(explains_last(more, m, n as int));
    }
}

proof fn lemma_newly_missing_step(
    list: Seq<AssessmentModel>,
    more: Seq<AssessmentModel>,
    n: nat,
    x: AssessmentModel,
)
    requires
        n < more.len(),
    ensures
        newly_missing(list, more, n + 1, x) <==> (newly_missing(list, more, n, x) && !(
        more[n as int].id == x.id && more[n as int].status != Status::Missing)) || (x
            == more[n as int] && x.status == Status::Missing && !met(list, more, n, x.id)),
{
    let a = more[n as int];
    let m = n + 1;
    lemma_last_word_step(more, n, x);
    if newly_missing(list, more, m, x) {
        let i = choose|i: int| #[trigger] comes_first(more, i, x) && 0 <= i < m;
        if i < n {
            assert(newly_missing(list, more, n, x));
        } else {
            assert(!met(list, more, n, x.id));
        }
    }
    if newly_missing(list, more, n, x) && !(a.id == x.id && a.status != Status::Missing) {
        let i = choose|i: int| #[trigger] comes_first(more, i, x) && 0 <= i < n;
        assert(comes_first(more, i, x) && 0 <= i < m);
    }
    if x == a && x.status == Status::Missing && !met(list, more, n, x.id) {
        assert(comes_first(more, n as int, x) && 0 <= n < m);
        assert(none_explains(more, n, x.id));
    }
}

/// How one verdict more changes what is known.
proof fn lemma_known_step(
    list: Seq<AssessmentModel>,
    more: Seq<AssessmentModel>,
    n: nat,
    x: AssessmentModel,
)
    requires
        n < more.len(),
    ensures
        ({
            let a = more[n as int];
            let same = is_known(list, more, n + 1, x) == is_known(list, more, n, x);
            &&& x.id != a.id ==> same
            &&& x.id == a.id && a.status != Status::Missing ==> (is_known(list, more, n + 1, x)
                <==> x == a)
            &&& x.id == a.id && a.status == Status::Missing && met(list, more, n, a.id) ==> same
            &&& x.id == a.id && a.status == Status::Missing && !met(list, more, n, a.id) ==> (
            is_known(list, more, n + 1, x) <==> x == a)
        }),
{
    let a = more[n as int];
    lemma_last_word_step(more, n, x);
    lemma_newly_missing_step(list, more, n, x);
    if x.id == a.id && !met(list, more, n, a.id) {
        if list.contains(x) {
            let k = choose|k: int| 0 <= k < list.len() && list[k] == x;
            assert(list[k].id == a.id);
        }
        if last_word(more, n, x) {
            let i = choose|i: int| #[trigger] explains_last(more, n, i) && more[i] == x;
            assert(more[i].id == a.id);
        }
        if newly_missing(list, more, n, x) {
            let i = choose|i: int| #[trigger] comes_first(more, i, x) && 0 <= i < n;
            assert(more[i].id == a.id);
        }
    }
}

} // verus!
