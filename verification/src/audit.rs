//! The course of an omission audit: what one request carries, which verdicts a
//! page settles, and what is reported.

use vstd::prelude::*;
use vstd::string::StringExecFns;

use crate::coverage::{obligation_models, Obligation, ObligationModel};
use crate::model::{Evidence, Issue, Section};
use crate::order::{ascending, order_ascending, ordered};
use crate::pages::{flat, flatten, page_models, page_prose, prose_of, Page, PageModel};
use crate::text::{
    before, blen, contains, decimal, has, is_blank, join, join_with, list_has, number, precedes, same,
    texts, to_chars, trim,
};

verus! {

// ---------------------------------------------------------------------------
// Verdicts
// ---------------------------------------------------------------------------

/// What an assessment says of an obligation.
#[derive(Clone, Copy, Debug, PartialEq, Eq, Structural)]
pub enum Status {
    Covered,
    OutOfScope,
    Missing,
}

/// The assessment of an obligation.
pub struct Assessment {
    pub id: String,
    pub status: Status,
    pub section: usize,
    pub quote: String,
    pub reason: String,
}

/// The answer to an audit request.
pub struct Response {
    pub assessments: Vec<Assessment>,
}

/// The value of an assessment.
pub struct AssessmentModel {
    pub id: Seq<char>,
    pub status: Status,
    pub section: usize,
    pub quote: Seq<char>,
    pub reason: Seq<char>,
}

impl View for Assessment {
    type V = AssessmentModel;

    open spec fn view(&self) -> AssessmentModel {
        AssessmentModel {
            id: self.id@,
            status: self.status,
            section: self.section,
            quote: self.quote@,
            reason: self.reason@,
        }
    }
}

impl Clone for Assessment {
    fn clone(&self) -> (r: Self)
        ensures
            r == *self,
    {
        Assessment {
            id: self.id.clone(),
            status: self.status,
            section: self.section,
            quote: self.quote.clone(),
            reason: self.reason.clone(),
        }
    }
}

/// The values of a list of assessments.
pub open spec fn assessment_models(v: Seq<Assessment>) -> Seq<AssessmentModel> {
    v.map_values(|a: Assessment| a@)
}

/// One of the obligations has this id.
pub open spec fn owed(items: Seq<ObligationModel>, id: Seq<char>) -> bool {
    exists|k: int| 0 <= k < items.len() && (#[trigger] items[k]).id == id
}

/// What a page settles so far: the verdicts that it stands behind, the ids that
/// were met, and what is wrong with the rest.
pub struct Screened {
    pub accepted: Seq<AssessmentModel>,
    pub seen: Seq<Seq<char>>,
    pub problems: Seq<Seq<char>>,
}

/// What is wrong with a verdict that is otherwise due.
pub open spec fn verdict_problem(
    a: AssessmentModel,
    prose: Seq<char>,
    sections: nat,
) -> Option<Seq<char>> {
    let quote = flat(a.quote);
    if trim(a.reason).len() == 0 || blen(a.reason) > 4000 {
        Some(a.id + ": give a concrete reason under 4000 bytes"@)
    } else if a.status == Status::Covered {
        if quote.len() < 12 || blen(quote) > 8000 {
            Some(a.id + ": covered needs an explanatory quote of 12 characters or more"@)
        } else if !contains(prose, quote) {
            Some(
                a.id
                    + ": that quote is not explanatory prose on this page; quote this page exactly or use missing"@,
            )
        } else {
            None
        }
    } else if a.section >= sections {
        Some(a.id + ": owning section must be a valid index"@)
    } else {
        None
    }
}

/// A verdict as it is accepted: one that says covered is of the page that was
/// read, and any other carries no quote.
pub open spec fn accepted_verdict(a: AssessmentModel, section: usize) -> AssessmentModel {
    if a.status == Status::Covered {
        AssessmentModel { section, ..a }
    } else {
        AssessmentModel { quote: Seq::empty(), ..a }
    }
}

/// What one verdict adds.
pub open spec fn screen_one(
    a: AssessmentModel,
    items: Seq<ObligationModel>,
    section: usize,
    prose: Seq<char>,
    sections: nat,
    s: Screened,
) -> Screened {
    if !owed(items, a.id) || s.seen.contains(a.id) {
        Screened { problems: s.problems.push("an unknown or repeated obligation id"@), ..s }
    } else {
        let seen = s.seen.push(a.id);
        match verdict_problem(a, prose, sections) {
            Some(problem) => Screened { seen, problems: s.problems.push(problem), ..s },
            None => Screened { seen, accepted: s.accepted.push(accepted_verdict(a, section)), ..s },
        }
    }
}

/// What the first `count` verdicts settle.
pub open spec fn screened(
    list: Seq<AssessmentModel>,
    items: Seq<ObligationModel>,
    section: usize,
    prose: Seq<char>,
    sections: nat,
    count: nat,
) -> Screened
    decreases count,
{
    if count == 0 {
        Screened { accepted: Seq::empty(), seen: Seq::empty(), problems: Seq::empty() }
    } else {
        screen_one(
            list[count - 1],
            items,
            section,
            prose,
            sections,
            screened(list, items, section, prose, sections, (count - 1) as nat),
        )
    }
}

/// A verdict that a page stands behind: it is owed; one that says covered quotes
/// the page's prose, and any other names a section and carries no quote.
pub open spec fn stands(
    a: AssessmentModel,
    items: Seq<ObligationModel>,
    section: usize,
    prose: Seq<char>,
    sections: nat,
) -> bool {
    &&& owed(items, a.id)
    &&& a.status == Status::Covered ==> a.section == section && flat(a.quote).len() >= 12
        && contains(prose, flat(a.quote))
    &&& a.status != Status::Covered ==> a.section < sections && a.quote.len() == 0
}

/// A page settles only verdicts that it stands behind, and none twice.
pub proof fn settled_verdicts_stand(
    list: Seq<AssessmentModel>,
    items: Seq<ObligationModel>,
    section: usize,
    prose: Seq<char>,
    sections: nat,
    count: nat,
)
    requires
        count <= list.len(),
    ensures
        ({
            let s = screened(list, items, section, prose, sections, count);
            &&& forall|k: int|
                0 <= k < s.accepted.len() ==> stands(
                    #[trigger] s.accepted[k],
                    items,
                    section,
                    prose,
                    sections,
                )
            &&& forall|k: int|
                0 <= k < s.accepted.len() ==> s.seen.contains((#[trigger] s.accepted[k]).id)
            &&& forall|j: int, k: int|
                0 <= j < k < s.accepted.len() ==> (#[trigger] s.accepted[j]).id != (
                #[trigger] s.accepted[k]).id
        }),
    decreases count,
{
    if count > 0 {
        settled_verdicts_stand(list, items, section, prose, sections, (count - 1) as nat);
        let was = screened(list, items, section, prose, sections, (count - 1) as nat);
        let now = screened(list, items, section, prose, sections, count);
        let a = list[count - 1];
        assert forall|k: int| 0 <= k < now.accepted.len() implies now.seen.contains(
            (#[trigger] now.accepted[k]).id,
        ) && stands(now.accepted[k], items, section, prose, sections) by {
            if k < was.accepted.len() {
                assert(now.accepted[k] == was.accepted[k]);
                assert(was.seen.contains(was.accepted[k].id));
                let j = choose|j: int| 0 <= j < was.seen.len() && was.seen[j] == was.accepted[k].id;
                assert(now.seen[j] == was.accepted[k].id);
            } else {
                assert(now.seen[was.seen.len() as int] == a.id);
            }
        }
        assert forall|j: int, k: int| 0 <= j < k < now.accepted.len() implies (
        #[trigger] now.accepted[j]).id != (#[trigger] now.accepted[k]).id by {
            assert(now.accepted[j] == was.accepted[j]);
            if k < was.accepted.len() {
                assert(now.accepted[k] == was.accepted[k]);
            } else {
                assert(was.seen.contains(was.accepted[j].id));
            }
        }
    }
}

/// Whether one of the obligations has this id.
fn is_owed(items: &Vec<Obligation>, id: &str) -> (r: bool)
    ensures
        r == owed(obligation_models(items@), id@),
{
    let ghost ms = obligation_models(items@);
    let mut k: usize = 0;
    while k < items.len()
        invariant
            k <= items@.len(),
            ms == obligation_models(items@),
            forall|j: int| 0 <= j < k ==> (#[trigger] ms[j]).id != id@,
        decreases items@.len() - k,
    {
        if same(items[k].id.as_str(), id) {
            assert(ms[k as int].id == id@);
            return true;
        }
        k += 1;
    }
    false
}

/// A problem with a verdict.
fn problem_text(id: &str, what: &str) -> (r: String)
    ensures
        r@ == id@ + what@,
{
    let mut s = String::from_str(id);
    s.push_str(what);
    s
}

/// What is wrong with a verdict.
fn find_problem(a: &Assessment, prose: &str, sections: usize) -> (r: Option<String>)
    ensures
        match verdict_problem(a@, prose@, sections as nat) {
            Some(p) => r is Some && r->0@ == p,
            None => r is None,
        },
{
    let id = a.id.as_str();
    if is_blank(a.reason.as_str()) || a.reason.as_str().as_bytes().len() > 4000 {
        return Some(problem_text(id, ": give a concrete reason under 4000 bytes"));
    }
    if a.status == Status::Covered {
        let quote = flatten(a.quote.as_str());
        let chars = to_chars(quote.as_str());
        if chars.len() < 12 || quote.as_str().as_bytes().len() > 8000 {
            return Some(
                problem_text(id, ": covered needs an explanatory quote of 12 characters or more"),
            );
        }
        let quoted = has(prose, quote.as_str());
        if !quoted {
            return Some(
                problem_text(
                    id,
                    ": that quote is not explanatory prose on this page; quote this page exactly or use missing",
                ),
            );
        }
        None
    } else if a.section >= sections {
        Some(problem_text(id, ": owning section must be a valid index"))
    } else {
        None
    }
}

/// Keeps the verdicts that a page stands behind, and describes the rest.
pub fn screen(response: &Response, items: &Vec<Obligation>, page: &Page, sections: &[Section]) -> (r: (
    Vec<Assessment>,
    String,
))
    ensures
        ({
            let s = screened(
                assessment_models(response.assessments@),
                obligation_models(items@),
                page.section,
                prose_of(page@, sections@),
                sections@.len(),
                response.assessments@.len(),
            );
            &&& assessment_models(r.0@) == s.accepted
            &&& r.1@ == join(s.problems, "; "@)
        }),
{
    let ghost all = assessment_models(response.assessments@);
    let ghost os = obligation_models(items@);
    let count: usize = sections.len();
    let prose = page_prose(page, sections);
    let mut accepted: Vec<Assessment> = Vec::new();
    let mut seen: Vec<String> = Vec::new();
    let mut problems: Vec<String> = Vec::new();
    let mut i: usize = 0;
    proof {
        assert(assessment_models(accepted@) =~= Seq::empty());
        assert(texts(seen@) =~= Seq::empty());
        assert(texts(problems@) =~= Seq::empty());
    }
    while i < response.assessments.len()
        invariant
            i <= response.assessments@.len(),
            all == assessment_models(response.assessments@),
            os == obligation_models(items@),
            count == sections@.len(),
            prose@ == prose_of(page@, sections@),
            screened(all, os, page.section, prose@, count as nat, i as nat) == (Screened {
                accepted: assessment_models(accepted@),
                seen: texts(seen@),
                problems: texts(problems@),
            }),
        decreases response.assessments@.len() - i,
    {
        let a = &response.assessments[i];
        assert(all[i as int] == a@);
        if !is_owed(items, a.id.as_str()) || list_has(&seen, a.id.as_str()) {
            let p = String::from_str("an unknown or repeated obligation id");
            assert(texts(problems@.push(p)) =~= texts(problems@).push(p@));
            problems.push(p);
        } else {
            let id = a.id.clone();
            assert(texts(seen@.push(id)) =~= texts(seen@).push(id@));
            seen.push(id);
            match find_problem(a, prose.as_str(), count) {
                Some(p) => {
                    assert(texts(problems@.push(p)) =~= texts(problems@).push(p@));
                    problems.push(p);
                },
                None => {
                    let mut kept = a.clone();
                    if kept.status == Status::Covered {
                        kept.section = page.section;
                    } else {
                        kept.quote = String::new();
                    }
                    assert(assessment_models(accepted@.push(kept)) =~= assessment_models(
                        accepted@,
                    ).push(kept@));
                    accepted.push(kept);
                },
            }
        }
        i += 1;
    }
    (accepted, join_with(&problems, "; "))
}

/// One of the assessments is of this id.
pub open spec fn assessed(list: Seq<AssessmentModel>, id: Seq<char>) -> bool {
    exists|k: int| 0 <= k < list.len() && (#[trigger] list[k]).id == id
}

/// The first `count` obligations that none of the assessments is of.
pub open spec fn still_pending(
    items: Seq<ObligationModel>,
    list: Seq<AssessmentModel>,
    count: nat,
) -> Seq<ObligationModel>
    decreases count,
{
    if count == 0 {
        Seq::empty()
    } else {
        let so_far = still_pending(items, list, (count - 1) as nat);
        if assessed(list, items[count - 1].id) {
            so_far
        } else {
            so_far.push(items[count - 1])
        }
    }
}

/// Whether one of the assessments is of this id.
fn is_assessed(list: &Vec<Assessment>, id: &str) -> (r: bool)
    ensures
        r == assessed(assessment_models(list@), id@),
{
    let ghost ms = assessment_models(list@);
    let mut k: usize = 0;
    while k < list.len()
        invariant
            k <= list@.len(),
            ms == assessment_models(list@),
            forall|j: int| 0 <= j < k ==> (#[trigger] ms[j]).id != id@,
        decreases list@.len() - k,
    {
        if same(list[k].id.as_str(), id) {
            assert(ms[k as int].id == id@);
            return true;
        }
        k += 1;
    }
    false
}

/// The obligations that are asked about again.
pub fn retain_pending(items: &Vec<Obligation>, list: &Vec<Assessment>) -> (r: Vec<Obligation>)
    ensures
        obligation_models(r@) == still_pending(
            obligation_models(items@),
            assessment_models(list@),
            items@.len(),
        ),
{
    let ghost os = obligation_models(items@);
    let ghost ls = assessment_models(list@);
    let mut r: Vec<Obligation> = Vec::new();
    let mut i: usize = 0;
    assert(obligation_models(r@) =~= Seq::empty());
    while i < items.len()
        invariant
            i <= items@.len(),
            os == obligation_models(items@),
            ls == assessment_models(list@),
            obligation_models(r@) == still_pending(os, ls, i as nat),
        decreases items@.len() - i,
    {
        assert(os[i as int] == items@[i as int]@);
        if !is_assessed(list, items[i].id.as_str()) {
            let o = items[i].clone();
            assert(obligation_models(r@.push(o)) =~= obligation_models(r@).push(o@));
            r.push(o);
        }
        i += 1;
    }
    r
}

// ---------------------------------------------------------------------------
// The walk over pages
// ---------------------------------------------------------------------------

/// The pages, among the first `count` of an order, whose section is or is not
/// one of those named.
pub open spec fn pages_owned(
    order: Seq<usize>,
    pages: Seq<PageModel>,
    owners: Seq<usize>,
    named: bool,
    count: nat,
) -> Seq<usize>
    decreases count,
{
    if count == 0 {
        Seq::empty()
    } else {
        let so_far = pages_owned(order, pages, owners, named, (count - 1) as nat);
        if owners.contains(pages[order[count - 1] as int].section) == named {
            so_far.push(order[count - 1])
        } else {
            so_far
        }
    }
}

/// An order in which the pages of named sections come first; otherwise as it
/// was.
pub open spec fn prioritized(
    order: Seq<usize>,
    pages: Seq<PageModel>,
    owners: Seq<usize>,
) -> Seq<usize> {
    pages_owned(order, pages, owners, true, order.len()) + pages_owned(
        order,
        pages,
        owners,
        false,
        order.len(),
    )
}

proof fn lemma_pages_owned(
    order: Seq<usize>,
    pages: Seq<PageModel>,
    owners: Seq<usize>,
    count: nat,
)
    requires
        count <= order.len(),
    ensures
        pages_owned(order, pages, owners, true, count).to_multiset().add(
            pages_owned(order, pages, owners, false, count).to_multiset(),
        ) == order.take(count as int).to_multiset(),
    decreases count,
{
    broadcast use vstd::seq_lib::group_to_multiset_ensures;

    let yes = pages_owned(order, pages, owners, true, count);
    let no = pages_owned(order, pages, owners, false, count);
    if count == 0 {
        assert(order.take(0) =~= Seq::<usize>::empty());
        assert(yes.to_multiset().add(no.to_multiset()) =~= order.take(0).to_multiset());
    } else {
        lemma_pages_owned(order, pages, owners, (count - 1) as nat);
        let head = order.take(count - 1);
        let x = order[count - 1];
        assert(order.take(count as int) =~= head.push(x));
        assert(yes.to_multiset().add(no.to_multiset()) =~= order.take(
            count as int,
        ).to_multiset());
    }
}

/// Looking at named sections first only reorders: every page is still visited
/// exactly as often.
pub proof fn prioritizing_only_reorders(
    order: Seq<usize>,
    pages: Seq<PageModel>,
    owners: Seq<usize>,
)
    ensures
        prioritized(order, pages, owners).to_multiset() == order.to_multiset(),
        prioritized(order, pages, owners).len() == order.len(),
{
    broadcast use vstd::seq_lib::group_to_multiset_ensures;

    lemma_pages_owned(order, pages, owners, order.len());
    assert(order.take(order.len() as int) =~= order);
    let yes = pages_owned(order, pages, owners, true, order.len());
    let no = pages_owned(order, pages, owners, false, order.len());
    vstd::seq_lib::lemma_multiset_commutative(yes, no);
    assert(prioritized(order, pages, owners).to_multiset().len() == order.to_multiset().len());
}

/// Whether a list holds a number.
fn holds_number(list: &Vec<usize>, n: usize) -> (r: bool)
    ensures
        r == list@.contains(n),
{
    let mut i: usize = 0;
    while i < list.len()
        invariant
            i <= list@.len(),
            forall|k: int| 0 <= k < i ==> list@[k] != n,
        decreases list@.len() - i,
    {
        if list[i] == n {
            return true;
        }
        i += 1;
    }
    false
}

/// The pages whose section is or is not one of those named.
fn select_pages(order: &Vec<usize>, pages: &Vec<Page>, owners: &Vec<usize>, named: bool) -> (r: Vec<
    usize,
>)
    requires
        forall|k: int| 0 <= k < order@.len() ==> (#[trigger] order@[k]) < pages@.len(),
    ensures
        r@ == pages_owned(order@, page_models(pages@), owners@, named, order@.len()),
{
    let ghost ps = page_models(pages@);
    let mut r: Vec<usize> = Vec::new();
    let mut i: usize = 0;
    while i < order.len()
        invariant
            i <= order@.len(),
            forall|k: int| 0 <= k < order@.len() ==> (#[trigger] order@[k]) < pages@.len(),
            ps == page_models(pages@),
            r@ == pages_owned(order@, ps, owners@, named, i as nat),
        decreases order@.len() - i,
    {
        let at: usize = order[i];
        assert(ps[at as int] == pages@[at as int]@);
        if holds_number(owners, pages[at].section) == named {
            r.push(at);
        }
        i += 1;
    }
    r
}

/// Visits the pages of sections that an unsettled obligation names as its owner
/// before the rest of the document.
pub fn prioritize(order: &Vec<usize>, pages: &Vec<Page>, owners: &Vec<usize>) -> (r: Vec<usize>)
    requires
        forall|k: int| 0 <= k < order@.len() ==> (#[trigger] order@[k]) < pages@.len(),
    ensures
        r@ == prioritized(order@, page_models(pages@), owners@),
{
    let mut r = select_pages(order, pages, owners, true);
    let mut rest = select_pages(order, pages, owners, false);
    let ghost a = r@;
    let ghost b = rest@;
    r.append(&mut rest);
    assert(r@ =~= a + b);
    r
}

/// A verdict put into a list ordered by ids, in place of the one with its id.
pub open spec fn put_verdict(list: Seq<AssessmentModel>, a: AssessmentModel) -> Seq<AssessmentModel>
    decreases list.len(),
{
    if list.len() == 0 {
        seq![a]
    } else if list.last().id == a.id {
        list.drop_last().push(a)
    } else if precedes(list.last().id, a.id) {
        list.push(a)
    } else {
        put_verdict(list.drop_last(), a).push(list.last())
    }
}

/// A verdict replaces what was known of its obligation, unless it only says
/// again that something is missing.
pub open spec fn absorb_one(list: Seq<AssessmentModel>, a: AssessmentModel) -> Seq<AssessmentModel> {
    if a.status != Status::Missing || !assessed(list, a.id) {
        put_verdict(list, a)
    } else {
        list
    }
}

/// What is known after the first `count` verdicts of a page.
pub open spec fn absorbed(
    list: Seq<AssessmentModel>,
    more: Seq<AssessmentModel>,
    count: nat,
) -> Seq<AssessmentModel>
    decreases count,
{
    if count == 0 {
        list
    } else {
        absorb_one(absorbed(list, more, (count - 1) as nat), more[count - 1])
    }
}

/// An obligation is not settled: nothing is known of it, or only that it is
/// missing.
pub open spec fn unsettled(list: Seq<AssessmentModel>, id: Seq<char>) -> bool {
    forall|k: int|
        0 <= k < list.len() && (#[trigger] list[k]).id == id ==> list[k].status == Status::Missing
}

/// The first `count` obligations that are not settled.
pub open spec fn unsettled_items(
    items: Seq<ObligationModel>,
    list: Seq<AssessmentModel>,
    count: nat,
) -> Seq<ObligationModel>
    decreases count,
{
    if count == 0 {
        Seq::empty()
    } else {
        let so_far = unsettled_items(items, list, (count - 1) as nat);
        if unsettled(list, items[count - 1].id) {
            so_far.push(items[count - 1])
        } else {
            so_far
        }
    }
}

/// The sections that the first `count` verdicts name as owners of what is
/// missing.
pub open spec fn missing_owners(list: Seq<AssessmentModel>, count: nat) -> Seq<usize>
    decreases count,
{
    if count == 0 {
        Seq::empty()
    } else {
        let so_far = missing_owners(list, (count - 1) as nat);
        if list[count - 1].status == Status::Missing {
            so_far.push(list[count - 1].section)
        } else {
            so_far
        }
    }
}

/// The place at which a verdict goes into a list ordered by ids.
proof fn lemma_put_verdict(list: Seq<AssessmentModel>, a: AssessmentModel, at: int)
    requires
        0 <= at <= list.len(),
        forall|k: int|
            at <= k < list.len() ==> (#[trigger] list[k]).id != a.id && !precedes(list[k].id, a.id),
        at > 0 ==> list[at - 1].id == a.id || precedes(list[at - 1].id, a.id),
    ensures
        put_verdict(list, a) == (if at > 0 && list[at - 1].id == a.id {
            list.update(at - 1, a)
        } else {
            list.insert(at, a)
        }),
    decreases list.len(),
{
    if list.len() == 0 {
        assert(list.insert(0, a) =~= seq![a]);
    } else if at == list.len() {
        if list.last().id == a.id {
            assert(list.drop_last().push(a) =~= list.update(at - 1, a));
        } else {
            assert(list.insert(at, a) =~= list.push(a));
        }
    } else {
        let t = list.drop_last();
        let last = list[list.len() - 1];
        lemma_put_verdict(t, a, at);
        if at > 0 && list[at - 1].id == a.id {
            assert(t.update(at - 1, a).push(last) =~= list.update(at - 1, a));
        } else {
            assert(t.insert(at, a).push(last) =~= list.insert(at, a));
        }
    }
}

/// Puts a verdict into a list ordered by ids.
fn put(list: &mut Vec<Assessment>, a: Assessment)
    ensures
        assessment_models(final(list)@) == put_verdict(assessment_models(old(list)@), a@),
{
    let ghost all = assessment_models(list@);
    let mut at: usize = list.len();
    while at > 0 && !same(list[at - 1].id.as_str(), a.id.as_str()) && !before(
        list[at - 1].id.as_str(),
        a.id.as_str(),
    )
        invariant
            at <= list@.len(),
            all == assessment_models(list@),
            list@ == old(list)@,
            forall|k: int|
                at <= k < all.len() ==> (#[trigger] all[k]).id != a@.id && !precedes(
                    all[k].id,
                    a@.id,
                ),
        decreases at,
    {
        assert(all[at - 1] == list@[at - 1]@);
        at -= 1;
    }
    proof {
        if at > 0 {
            assert(all[at - 1] == list@[at - 1]@);
        }
        lemma_put_verdict(all, a@, at as int);
    }
    if at > 0 && same(list[at - 1].id.as_str(), a.id.as_str()) {
        assert(assessment_models(list@.update(at - 1, a)) =~= all.update(at - 1, a@));
        list.set(at - 1, a);
    } else {
        assert(assessment_models(list@.insert(at as int, a)) =~= all.insert(at as int, a@));
        list.insert(at, a);
    }
}

/// A walk over the pages of a document with one group of obligations.
pub struct PageWalk {
    /// The pages that were not visited yet, the next one first.
    pub order: Vec<usize>,
    /// What is known, ordered by the ids of obligations.
    pub decisions: Vec<Assessment>,
}

impl PageWalk {
    /// The pages that remain are pages of the document.
    pub open spec fn wf(self, pages: nat) -> bool {
        forall|k: int| 0 <= k < self.order@.len() ==> (#[trigger] self.order@[k]) < pages
    }

    /// A walk that has visited nothing yet.
    pub fn start(pages: usize) -> (r: PageWalk)
        ensures
            r.wf(pages as nat),
            r.order@.len() == pages,
            forall|k: int| 0 <= k < pages ==> r.order@[k] == k,
            r.decisions@.len() == 0,
    {
        let mut order: Vec<usize> = Vec::new();
        let mut i: usize = 0;
        while i < pages
            invariant
                i <= pages,
                order@.len() == i,
                forall|k: int| 0 <= k < i ==> order@[k] == k,
            decreases pages - i,
        {
            order.push(i);
            i += 1;
        }
        PageWalk { order, decisions: Vec::new() }
    }

    /// The obligations that the next page is asked about.
    pub fn pending(&self, group: &Vec<Obligation>) -> (r: Vec<Obligation>)
        ensures
            obligation_models(r@) == unsettled_items(
                obligation_models(group@),
                assessment_models(self.decisions@),
                group@.len(),
            ),
    {
        let ghost os = obligation_models(group@);
        let ghost ds = assessment_models(self.decisions@);
        let mut r: Vec<Obligation> = Vec::new();
        let mut i: usize = 0;
        assert(obligation_models(r@) =~= Seq::empty());
        while i < group.len()
            invariant
                i <= group@.len(),
                os == obligation_models(group@),
                ds == assessment_models(self.decisions@),
                obligation_models(r@) == unsettled_items(os, ds, i as nat),
            decreases group@.len() - i,
        {
            let o = &group[i];
            assert(os[i as int] == o@);
            let mut open = true;
            let mut k: usize = 0;
            while k < self.decisions.len()
                invariant
                    k <= self.decisions@.len(),
                    ds == assessment_models(self.decisions@),
                    open == forall|j: int|
                        0 <= j < k && (#[trigger] ds[j]).id == o@.id ==> ds[j].status
                            == Status::Missing,
                decreases self.decisions@.len() - k,
            {
                assert(ds[k as int] == self.decisions@[k as int]@);
                if same(self.decisions[k].id.as_str(), o.id.as_str())
                    && self.decisions[k].status != Status::Missing {
                    open = false;
                }
                k += 1;
            }
            if open {
                let copy = o.clone();
                assert(obligation_models(r@.push(copy)) =~= obligation_models(r@).push(copy@));
                r.push(copy);
            }
            i += 1;
        }
        r
    }

    /// Takes in the verdicts of the page that was visited, and looks next where
    /// they name an owner of what is missing.
    pub fn absorb(&mut self, pages: &Vec<Page>, response: &Vec<Assessment>)
        requires
            old(self).wf(pages@.len()),
            old(self).order@.len() > 0,
        ensures
            final(self).wf(pages@.len()),
            ({
                let known = absorbed(
                    assessment_models(old(self).decisions@),
                    assessment_models(response@),
                    response@.len(),
                );
                &&& assessment_models(final(self).decisions@) == known
                &&& final(self).order@ == prioritized(
                    old(self).order@.skip(1),
                    page_models(pages@),
                    missing_owners(known, known.len()),
                )
            }),
            final(self).order@.len() == old(self).order@.len() - 1,
    {
        let ghost start = assessment_models(self.decisions@);
        let ghost more = assessment_models(response@);
        let mut i: usize = 0;
        while i < response.len()
            invariant
                i <= response@.len(),
                more == assessment_models(response@),
                self.order@ == old(self).order@,
                assessment_models(self.decisions@) == absorbed(start, more, i as nat),
            decreases response@.len() - i,
        {
            let a = &response[i];
            assert(more[i as int] == a@);
            if a.status != Status::Missing || !is_assessed(&self.decisions, a.id.as_str()) {
                put(&mut self.decisions, a.clone());
            }
            i += 1;
        }
        let ghost known = assessment_models(self.decisions@);
        let mut owners: Vec<usize> = Vec::new();
        let mut k: usize = 0;
        while k < self.decisions.len()
            invariant
                k <= self.decisions@.len(),
                known == assessment_models(self.decisions@),
                owners@ == missing_owners(known, k as nat),
            decreases self.decisions@.len() - k,
        {
            assert(known[k as int] == self.decisions@[k as int]@);
            if self.decisions[k].status == Status::Missing {
                owners.push(self.decisions[k].section);
            }
            k += 1;
        }
        assert(known.len() == self.decisions@.len());
        self.order.remove(0);
        let ghost rest = self.order@;
        proof {
            assert(rest =~= old(self).order@.skip(1));
            assert forall|j: int| 0 <= j < rest.len() implies (#[trigger] rest[j]) < pages@.len() by {
                assert(rest[j] == old(self).order@[j + 1]);
            }
        }
        let next = prioritize(&self.order, pages, &owners);
        proof {
            prioritizing_only_reorders(rest, page_models(pages@), owners@);
            assert forall|j: int| 0 <= j < next@.len() implies (#[trigger] next@[j])
                < pages@.len() by {
                broadcast use vstd::seq_lib::group_to_multiset_ensures;

                assert(next@.contains(next@[j]));
                assert(next@.to_multiset().count(next@[j]) > 0);
                assert(rest.to_multiset().count(next@[j]) > 0);
                assert(rest.contains(next@[j]));
            }
        }
        self.order = next;
    }
}

// ---------------------------------------------------------------------------
// Rooms and batches
// ---------------------------------------------------------------------------

/// The order in which an audit walks files: what the document cited, then what
/// the analysis considered, then the rest.
pub open spec fn tier(path: Seq<char>, cited: Seq<Seq<char>>, considered: Seq<Seq<char>>) -> u8 {
    if cited.contains(path) {
        0
    } else if considered.contains(path) {
        1
    } else {
        2
    }
}

/// Where a file stands in the order of an audit.
pub fn audit_tier(path: &str, cited: &Vec<String>, considered: &Vec<String>) -> (r: u8)
    ensures
        r == tier(path@, texts(cited@), texts(considered@)),
{
    if list_has(cited, path) {
        0
    } else if list_has(considered, path) {
        1
    } else {
        2
    }
}

/// The tiers of some files.
pub open spec fn tiers(
    paths: Seq<Seq<char>>,
    cited: Seq<Seq<char>>,
    considered: Seq<Seq<char>>,
) -> Seq<usize> {
    paths.map_values(|p: Seq<char>| tier(p, cited, considered) as usize)
}

/// The order in which an audit walks some files.
pub fn audit_order(paths: &Vec<String>, cited: &Vec<String>, considered: &Vec<String>) -> (r: Vec<
    usize,
>)
    ensures
        r@ == ordered(
            paths@.len(),
            ascending(tiers(texts(paths@), texts(cited@), texts(considered@))),
        ),
{
    let ghost goal = tiers(texts(paths@), texts(cited@), texts(considered@));
    let mut ranks: Vec<usize> = Vec::new();
    let mut i: usize = 0;
    assert(ranks@ =~= goal.take(0));
    while i < paths.len()
        invariant
            i <= paths@.len(),
            goal == tiers(texts(paths@), texts(cited@), texts(considered@)),
            ranks@ == goal.take(i as int),
        decreases paths@.len() - i,
    {
        let t: usize = audit_tier(paths[i].as_str(), cited, considered) as usize;
        assert(goal.take(i + 1) =~= goal.take(i as int).push(t));
        ranks.push(t);
        i += 1;
    }
    assert(goal.take(i as int) =~= goal);
    order_ascending(&ranks)
}

/// How many obligations one request asks about.
pub open spec fn obligations_within(room: nat) -> nat {
    if room / 2000 < 1 {
        1
    } else if room / 2000 > 24 {
        24
    } else {
        room / 2000
    }
}

/// How many obligations one request asks about.
pub fn group_size(room: usize) -> (r: usize)
    ensures
        r == obligations_within(room as nat),
        1 <= r <= 24,
{
    let n: usize = room / 2000;
    if n < 1 {
        1
    } else if n > 24 {
        24
    } else {
        n
    }
}

/// What the parts of an audit request may take.
#[derive(Clone, Copy, Debug, PartialEq, Eq, Structural)]
pub struct AuditRooms {
    pub page: usize,
    pub passage: usize,
    pub batch: usize,
}

/// The least room that an audit works in.
pub const AUDIT_ROOM_MIN: usize = 4096;

/// The most room that an audit uses.
pub const AUDIT_ROOM_MAX: usize = 64_000;

/// Divides the room of an audit request: half for the page, a quarter for one
/// passage, and for a batch of passages what the page and the obligations leave.
/// `None` where there is too little.
pub fn audit_rooms(limit: usize) -> (r: Option<AuditRooms>)
    ensures
        limit < AUDIT_ROOM_MIN ==> r is None,
        limit >= AUDIT_ROOM_MIN ==> {
            let room = if limit < AUDIT_ROOM_MAX {
                limit
            } else {
                AUDIT_ROOM_MAX
            };
            let page = if room / 2 < 24_000 {
                room / 2
            } else {
                24_000
            };
            let passage = if room / 4 < 8000 {
                room / 4
            } else {
                8000
            };
            let rest = room - page - 300 * obligations_within(room as nat);
            r == Some(
                AuditRooms {
                    page,
                    passage,
                    batch: if rest < passage {
                        passage
                    } else {
                        rest as usize
                    },
                },
            )
        },
{
    let room: usize = if limit < AUDIT_ROOM_MAX {
        limit
    } else {
        AUDIT_ROOM_MAX
    };
    if room < AUDIT_ROOM_MIN {
        return None;
    }
    let page: usize = if room / 2 < 24_000 {
        room / 2
    } else {
        24_000
    };
    let passage: usize = if room / 4 < 8000 {
        room / 4
    } else {
        8000
    };
    let asked: usize = group_size(room) * 300;
    let left: usize = room - page;
    let rest: usize = if left < asked {
        0
    } else {
        left - asked
    };
    Some(
        AuditRooms {
            page,
            passage,
            batch: if rest < passage {
                passage
            } else {
                rest
            },
        },
    )
}

/// One source passage and where it begins in its file.
pub struct Passage {
    pub evidence: Evidence,
    pub start_byte: usize,
}

/// A passage with the obligations that an audit asks about it.
pub struct Unit {
    pub evidence: Evidence,
    pub start_byte: usize,
    pub items: Vec<Obligation>,
}

/// A request in the making.
pub struct Filling {
    pub passages: Seq<Passage>,
    pub group: Seq<Obligation>,
    pub bytes: nat,
    pub cursor: nat,
    pub taken: nat,
}

/// The smaller of two numbers.
pub open spec fn least(a: int, b: int) -> int {
    if a < b {
        a
    } else {
        b
    }
}

/// Fills a request with passages and obligations, until it asks about `size`
/// obligations, its passages exceed `room` or nothing is left. A passage that is
/// asked about in part begins the next request.
pub open spec fn fill(units: Seq<Unit>, size: nat, room: nat, f: Filling) -> Filling
    decreases units.len() - f.cursor,
{
    if f.cursor >= units.len() || f.group.len() >= size {
        f
    } else {
        let unit = units[f.cursor as int];
        let fresh = f.passages.len() == 0 || f.passages.last().evidence.id@ != unit.evidence.id@;
        if fresh && f.passages.len() > 0 && f.bytes + blen(unit.evidence.content@) > room {
            f
        } else {
            let take = least(unit.items@.len() - f.taken, size - f.group.len());
            let next = Filling {
                passages: if fresh {
                    f.passages.push(
                        Passage { evidence: unit.evidence, start_byte: unit.start_byte },
                    )
                } else {
                    f.passages
                },
                group: f.group + unit.items@.subrange(f.taken as int, f.taken + take),
                bytes: if fresh {
                    f.bytes + blen(unit.evidence.content@)
                } else {
                    f.bytes
                },
                cursor: if f.taken + take == unit.items@.len() {
                    f.cursor + 1
                } else {
                    f.cursor
                },
                taken: if f.taken + take == unit.items@.len() {
                    0
                } else {
                    (f.taken + take) as nat
                },
            };
            if f.taken + take == unit.items@.len() {
                fill(units, size, room, next)
            } else {
                next
            }
        }
    }
}

/// A request with nothing in it, at a place in the units.
pub open spec fn nothing_filled(cursor: nat, taken: nat) -> Filling {
    Filling { passages: Seq::empty(), group: Seq::empty(), bytes: 0, cursor, taken }
}

/// The obligations from a place in the units on.
pub open spec fn remaining(units: Seq<Unit>, cursor: nat, taken: nat) -> Seq<Obligation>
    decreases units.len() - cursor,
{
    if cursor >= units.len() {
        Seq::empty()
    } else {
        units[cursor as int].items@.skip(taken as int) + remaining(units, cursor + 1, 0)
    }
}

/// A place in the units.
pub open spec fn place_ok(units: Seq<Unit>, cursor: nat, taken: nat) -> bool {
    cursor <= units.len() && (cursor < units.len() ==> taken <= units[cursor as int].items@.len())
        && (cursor == units.len() ==> taken == 0)
}

proof fn lemma_fill(units: Seq<Unit>, size: nat, room: nat, f: Filling)
    requires
        place_ok(units, f.cursor, f.taken),
        f.group.len() <= size,
    ensures
        ({
            let g = fill(units, size, room, f);
            &&& place_ok(units, g.cursor, g.taken)
            &&& g.group.len() <= size
            &&& f.group.len() <= g.group.len()
            &&& g.group + remaining(units, g.cursor, g.taken) == f.group + remaining(
                units,
                f.cursor,
                f.taken,
            )
        }),
    decreases units.len() - f.cursor,
{
    if f.cursor < units.len() && f.group.len() < size {
        let unit = units[f.cursor as int];
        let items = unit.items@;
        let fresh = f.passages.len() == 0 || f.passages.last().evidence.id@ != unit.evidence.id@;
        if !(fresh && f.passages.len() > 0 && f.bytes + blen(unit.evidence.content@) > room) {
            let take = least(items.len() - f.taken, size - f.group.len());
            let part = items.subrange(f.taken as int, f.taken + take);
            let rest = remaining(units, f.cursor + 1, 0);
            if f.taken + take == items.len() {
                let next = Filling {
                    passages: if fresh {
                        f.passages.push(
                            Passage { evidence: unit.evidence, start_byte: unit.start_byte },
                        )
                    } else {
                        f.passages
                    },
                    group: f.group + part,
                    bytes: if fresh {
                        f.bytes + blen(unit.evidence.content@)
                    } else {
                        f.bytes
                    },
                    cursor: f.cursor + 1,
                    taken: 0,
                };
                lemma_fill(units, size, room, next);
                assert(part =~= items.skip(f.taken as int));
                assert(f.group + part + rest =~= f.group + (items.skip(f.taken as int) + rest));
            } else {
                assert(items.skip(f.taken as int) =~= part + items.skip(f.taken + take));
                assert(f.group + part + (items.skip(f.taken + take) + rest) =~= f.group + (part
                    + items.skip(f.taken + take) + rest));
            }
        }
    }
}

/// Requests ask about every obligation once and in order: what a request asks
/// about, and what remains behind it, is what remained before it. A request asks
/// about no more than its size.
pub proof fn batches_ask_everything_once(
    units: Seq<Unit>,
    size: nat,
    room: nat,
    cursor: nat,
    taken: nat,
)
    requires
        place_ok(units, cursor, taken),
    ensures
        ({
            let f = fill(units, size, room, nothing_filled(cursor, taken));
            &&& f.group.len() <= size
            &&& place_ok(units, f.cursor, f.taken)
            &&& f.group + remaining(units, f.cursor, f.taken) == remaining(units, cursor, taken)
        }),
{
    let start = nothing_filled(cursor, taken);
    lemma_fill(units, size, room, start);
    assert(start.group + remaining(units, cursor, taken) =~= remaining(units, cursor, taken));
}

/// What one audit request carries, and the place in the units behind it.
pub struct AuditBatch {
    pub passages: Vec<Passage>,
    pub group: Vec<Obligation>,
    pub cursor: usize,
    pub taken: usize,
}

/// Batches consecutive passages into one request.
pub fn next_batch(units: &Vec<Unit>, cursor: usize, taken: usize, size: usize, room: usize) -> (r:
    AuditBatch)
    requires
        place_ok(units@, cursor as nat, taken as nat),
    ensures
        ({
            let f = fill(
                units@,
                size as nat,
                room as nat,
                nothing_filled(cursor as nat, taken as nat),
            );
            &&& r.passages@ == f.passages
            &&& r.group@ == f.group
            &&& r.cursor == f.cursor
            &&& r.taken == f.taken
        }),
        place_ok(units@, r.cursor as nat, r.taken as nat),
{
    let ghost goal = fill(
        units@,
        size as nat,
        room as nat,
        nothing_filled(cursor as nat, taken as nat),
    );
    proof {
        lemma_fill(
            units@,
            size as nat,
            room as nat,
            nothing_filled(cursor as nat, taken as nat),
        );
    }
    let mut passages: Vec<Passage> = Vec::new();
    let mut group: Vec<Obligation> = Vec::new();
    let mut bytes: usize = 0;
    let mut at: usize = cursor;
    let mut done: usize = taken;
    while at < units.len() && group.len() < size
        invariant
            place_ok(units@, at as nat, done as nat),
            passages@.len() == 0 ==> bytes == 0,
            group@.len() <= size,
            goal == fill(
                units@,
                size as nat,
                room as nat,
                nothing_filled(cursor as nat, taken as nat),
            ),
            goal == fill(
                units@,
                size as nat,
                room as nat,
                Filling {
                    passages: passages@,
                    group: group@,
                    bytes: bytes as nat,
                    cursor: at as nat,
                    taken: done as nat,
                },
            ),
            place_ok(units@, goal.cursor, goal.taken),
        decreases units@.len() - at,
    {
        let unit = &units[at];
        let content: usize = unit.evidence.content.as_str().as_bytes().len();
        let held: usize = passages.len();
        let fresh = held == 0 || !same(
            passages[held - 1].evidence.id.as_str(),
            unit.evidence.id.as_str(),
        );
        if fresh && held > 0 && (bytes > room || content > room - bytes) {
            return AuditBatch { passages, group, cursor: at, taken: done };
        }
        if fresh {
            bytes += content;
            passages.push(
                Passage { evidence: unit.evidence.clone(), start_byte: unit.start_byte },
            );
        }
        let owed: usize = unit.items.len();
        let left: usize = owed - done;
        let free: usize = size - group.len();
        let take: usize = if left < free {
            left
        } else {
            free
        };
        let ghost start = group@;
        let mut k: usize = 0;
        assert(start + unit.items@.subrange(done as int, done as int) =~= start);
        while k < take
            invariant
                k <= take,
                done + take <= unit.items@.len(),
                unit.items@.len() <= usize::MAX,
                group@ == start + unit.items@.subrange(done as int, done + k),
                group@.len() == start.len() + k,
            decreases take - k,
        {
            let o = unit.items[done + k].clone();
            assert(start + unit.items@.subrange(done as int, done + k + 1) =~= (start
                + unit.items@.subrange(done as int, done + k)).push(o));
            group.push(o);
            k += 1;
        }
        if done + take == unit.items.len() {
            at += 1;
            done = 0;
        } else {
            return AuditBatch { passages, group, cursor: at, taken: done + take };
        }
    }
    AuditBatch { passages, group, cursor: at, taken: done }
}

/// The files of the first passages, each where it comes first.
pub open spec fn passage_paths(passages: Seq<Passage>, count: nat) -> Seq<Seq<char>>
    decreases count,
{
    if count == 0 {
        Seq::empty()
    } else {
        let so_far = passage_paths(passages, (count - 1) as nat);
        let path = passages[count - 1].evidence.path@;
        if so_far.contains(path) {
            so_far
        } else {
            so_far.push(path)
        }
    }
}

/// A batch's files are named once each, and they are the files of its passages
/// and no others.
pub proof fn paths_are_distinct(passages: Seq<Passage>, count: nat)
    requires
        count <= passages.len(),
    ensures
        passage_paths(passages, count).no_duplicates(),
        forall|path: Seq<char>| #[trigger]
            passage_paths(passages, count).contains(path) <==> exists|i: int|
                0 <= i < count && (#[trigger] passages[i]).evidence.path@ == path,
    decreases count,
{
    let all = passage_paths(passages, count);
    if count > 0 {
        paths_are_distinct(passages, (count - 1) as nat);
        let so_far = passage_paths(passages, (count - 1) as nat);
        let last = passages[count - 1].evidence.path@;
        if !so_far.contains(last) {
            assert(all[all.len() - 1] == last);
            assert forall|path: Seq<char>| so_far.contains(path) implies all.contains(path) by {
                let i = choose|i: int| 0 <= i < so_far.len() && so_far[i] == path;
                assert(all[i] == path);
            }
        }
        assert forall|path: Seq<char>| #[trigger] all.contains(path) <==> exists|i: int|
            0 <= i < count && (#[trigger] passages[i]).evidence.path@ == path by {
            if all.contains(path) && path != last {
                let i = choose|i: int| 0 <= i < all.len() && all[i] == path;
                assert(so_far[i] == path);
                assert(so_far.contains(path));
            }
        }
    }
}

/// The distinct files that a batch of passages came from.
pub fn paths(passages: &[Passage]) -> (r: Vec<String>)
    ensures
        texts(r@) == passage_paths(passages@, passages@.len()),
{
    let mut r: Vec<String> = Vec::new();
    let mut i: usize = 0;
    assert(texts(r@) =~= Seq::empty());
    while i < passages.len()
        invariant
            i <= passages@.len(),
            texts(r@) == passage_paths(passages@, i as nat),
        decreases passages@.len() - i,
    {
        let path = &passages[i].evidence.path;
        if !list_has(&r, path.as_str()) {
            let p = path.clone();
            assert(texts(r@.push(p)) =~= texts(r@).push(p@));
            r.push(p);
        }
        i += 1;
    }
    r
}

// ---------------------------------------------------------------------------
// Reports
// ---------------------------------------------------------------------------

/// What an audit found so far.
#[derive(Clone, Copy, Debug, PartialEq, Eq, Structural)]
pub struct Ledger {
    pub checked: u64,
    pub covered: u64,
    pub out_of_scope: u64,
    pub missing: u64,
    pub unresolved: u64,
}

/// A verdict is about none of the obligations.
#[derive(Clone, Copy, Debug, PartialEq, Eq, Structural)]
pub struct StaleObligation;

/// The value of an issue of a draft.
pub struct DraftIssue {
    pub severity: Seq<char>,
    pub section: usize,
    pub message: Seq<char>,
    pub query: Seq<char>,
}

impl View for Issue {
    type V = DraftIssue;

    open spec fn view(&self) -> DraftIssue {
        DraftIssue {
            severity: self.severity@,
            section: self.section,
            message: self.message@,
            query: self.query@,
        }
    }
}

/// The values of a list of issues.
pub open spec fn draft_issues(v: Seq<Issue>) -> Seq<DraftIssue> {
    v.map_values(|i: Issue| i@)
}

/// The first obligation with an id, from position `from` on.
pub open spec fn item_with(items: Seq<ObligationModel>, id: Seq<char>, from: nat) -> Option<int>
    decreases items.len() - from,
{
    if from >= items.len() {
        None
    } else if items[from as int].id == id {
        Some(from as int)
    } else {
        item_with(items, id, from + 1)
    }
}

/// The issue about an explanation that is missing.
pub open spec fn missing_issue(o: ObligationModel, a: AssessmentModel) -> DraftIssue {
    DraftIssue {
        severity: "major"@,
        section: a.section,
        message: "원본 대조에서 누락된 설명 ("@ + o.path + ":"@ + decimal(o.span.start as nat)
            + "–"@ + decimal(o.span.end as nat) + ", "@ + o.subject + "): "@ + a.reason,
        query: o.path + " "@ + o.subject,
    }
}

/// The issues about what the first `count` verdicts miss; none where a verdict
/// is about none of the obligations.
pub open spec fn missing_issues(
    items: Seq<ObligationModel>,
    results: Seq<AssessmentModel>,
    count: nat,
) -> Option<Seq<DraftIssue>>
    decreases count,
{
    if count == 0 {
        Some(Seq::empty())
    } else {
        let a = results[count - 1];
        match missing_issues(items, results, (count - 1) as nat) {
            None => None,
            Some(so_far) => if a.status != Status::Missing {
                Some(so_far)
            } else {
                match item_with(items, a.id, 0) {
                    Some(k) => Some(so_far.push(missing_issue(items[k], a))),
                    None => None,
                }
            },
        }
    }
}

/// How many of the first `count` verdicts have a status.
pub open spec fn with_status(results: Seq<AssessmentModel>, status: Status, count: nat) -> nat
    decreases count,
{
    if count == 0 {
        0
    } else {
        with_status(results, status, (count - 1) as nat) + if results[count - 1].status == status {
            1nat
        } else {
            0nat
        }
    }
}

/// A sum, as far as 64 bits hold it.
pub open spec fn sum64(a: u64, b: nat) -> u64 {
    if a + b > u64::MAX {
        u64::MAX
    } else {
        (a + b) as u64
    }
}

/// The ledger behind a group and the verdicts on it. What no page could settle
/// stays unresolved.
pub open spec fn tallied(l: Ledger, group: nat, results: Seq<AssessmentModel>) -> Ledger {
    let n = results.len();
    Ledger {
        checked: sum64(l.checked, n),
        covered: sum64(l.covered, with_status(results, Status::Covered, n)),
        out_of_scope: sum64(l.out_of_scope, with_status(results, Status::OutOfScope, n)),
        missing: sum64(l.missing, with_status(results, Status::Missing, n)),
        unresolved: sum64(
            l.unresolved,
            if group < n {
                0
            } else {
                (group - n) as nat
            },
        ),
    }
}

proof fn lemma_with_status(results: Seq<AssessmentModel>, count: nat)
    requires
        count <= results.len(),
    ensures
        with_status(results, Status::Covered, count) + with_status(
            results,
            Status::OutOfScope,
            count,
        ) + with_status(results, Status::Missing, count) == count,
    decreases count,
{
    if count > 0 {
        lemma_with_status(results, (count - 1) as nat);
    }
}

/// Every verdict is counted once: as covered, out of scope or missing.
pub proof fn every_verdict_is_counted(l: Ledger, group: nat, results: Seq<AssessmentModel>)
    requires
        l.checked == l.covered + l.out_of_scope + l.missing,
        l.checked + results.len() <= u64::MAX,
    ensures
        ({
            let t = tallied(l, group, results);
            t.checked == t.covered + t.out_of_scope + t.missing
        }),
{
    lemma_with_status(results, results.len());
}

/// The issue about an explanation that is missing.
fn issue_of(o: &Obligation, a: &Assessment) -> (r: Issue)
    ensures
        r@ == missing_issue(o@, a@),
{
    let mut message = String::from_str("원본 대조에서 누락된 설명 (");
    message.push_str(o.path.as_str());
    message.push_str(":");
    message.push_str(number(o.span.start as u64).as_str());
    message.push_str("–");
    message.push_str(number(o.span.end as u64).as_str());
    message.push_str(", ");
    message.push_str(o.subject.as_str());
    message.push_str("): ");
    message.push_str(a.reason.as_str());
    let mut query = o.path.clone();
    query.push_str(" ");
    query.push_str(o.subject.as_str());
    Issue { severity: String::from_str("major"), section: a.section, message, query }
}

proof fn lemma_missing_stop(
    items: Seq<ObligationModel>,
    results: Seq<AssessmentModel>,
    count: nat,
    all: nat,
)
    requires
        count <= all,
    ensures
        missing_issues(items, results, count) is None ==> missing_issues(items, results, all) is None,
    decreases all - count,
{
    if count < all {
        lemma_missing_stop(items, results, count, (all - 1) as nat);
    }
}

/// Enters the verdicts on a group into the ledger, and reports what is missing.
pub fn tally(ledger: &mut Ledger, group: &Vec<Obligation>, results: &Vec<Assessment>) -> (r: Result<
    Vec<Issue>,
    StaleObligation,
>)
    ensures
        match missing_issues(
            obligation_models(group@),
            assessment_models(results@),
            results@.len(),
        ) {
            Some(issues) => {
                &&& r is Ok
                &&& draft_issues(r->Ok_0@) == issues
                &&& *final(ledger) == tallied(
                    *old(ledger),
                    group@.len(),
                    assessment_models(results@),
                )
            },
            None => r is Err && *final(ledger) == *old(ledger),
        },
{
    let ghost os = obligation_models(group@);
    let ghost rs = assessment_models(results@);
    let mut issues: Vec<Issue> = Vec::new();
    let mut covered: u64 = 0;
    let mut out_of_scope: u64 = 0;
    let mut missing: u64 = 0;
    let mut i: usize = 0;
    assert(draft_issues(issues@) =~= Seq::empty());
    while i < results.len()
        invariant
            i <= results@.len(),
            os == obligation_models(group@),
            rs == assessment_models(results@),
            *ledger == *old(ledger),
            missing_issues(os, rs, i as nat) == Some(draft_issues(issues@)),
            covered == with_status(rs, Status::Covered, i as nat),
            out_of_scope == with_status(rs, Status::OutOfScope, i as nat),
            missing == with_status(rs, Status::Missing, i as nat),
            covered <= i,
            out_of_scope <= i,
            missing <= i,
        decreases results@.len() - i,
    {
        let a = &results[i];
        proof {
            assert(rs[i as int] == a@);
            lemma_missing_stop(os, rs, (i + 1) as nat, rs.len());
        }
        match a.status {
            Status::Covered => {
                covered += 1;
            },
            Status::OutOfScope => {
                out_of_scope += 1;
            },
            Status::Missing => {
                missing += 1;
                let mut k: usize = 0;
                while k < group.len() && !same(group[k].id.as_str(), a.id.as_str())
                    invariant
                        k <= group@.len(),
                        os == obligation_models(group@),
                        item_with(os, a@.id, k as nat) == item_with(os, a@.id, 0),
                    decreases group@.len() - k,
                {
                    assert(os[k as int] == group@[k as int]@);
                    k += 1;
                }
                if k == group.len() {
                    return Err(StaleObligation);
                }
                assert(os[k as int] == group@[k as int]@);
                let issue = issue_of(&group[k], a);
                assert(draft_issues(issues@.push(issue)) =~= draft_issues(issues@).push(issue@));
                issues.push(issue);
            },
        }
        i += 1;
    }
    let left: usize = if group.len() < results.len() {
        0
    } else {
        group.len() - results.len()
    };
    *ledger =
    Ledger {
        checked: ledger.checked.saturating_add(results.len() as u64),
        covered: ledger.covered.saturating_add(covered),
        out_of_scope: ledger.out_of_scope.saturating_add(out_of_scope),
        missing: ledger.missing.saturating_add(missing),
        unresolved: ledger.unresolved.saturating_add(left as u64),
    };
    Ok(issues)
}

} // verus!
