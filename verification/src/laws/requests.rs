//! What requests carry and what answers to them may say: everything in scope,
//! nothing passed over in silence, and names of sections that are unambiguous.

use vstd::prelude::*;

use super::lists::upto;
use crate::config::entries;
use crate::editorial::has_id;
use crate::findings::FindingModel;
use crate::json::{field, nat_model, text_of, JsonModel};
use crate::model::{Evidence, Outline};
use crate::order::{lemma_filter_none, lemma_filter_step, lemma_positions};
use crate::planning::accounting::{full_ids, plan_ids, sections_named, IssueModel};
use crate::planning::branches::Branch;
use crate::planning::places::relative_to;
use crate::planning::requests::{
    anchor_record, anchor_records, cites_one, findings_citing, narrowed, passages_of_files,
    seen_before,
};
use crate::planning::rounds::{issue_ok, reviewed};
use crate::planning::views::{
    branch_records, fits_view, not_shown, view_of, view_prefix, view_shrunk, view_within,
};
use crate::purpose::DiscoveryModel;
use crate::text::{blen, starts_with, trim};

verus! {

// ---------------------------------------------------------------------------
// Narrowing to a chapter
// ---------------------------------------------------------------------------

/// A passage is of one of these files, shown against the sources.
pub open spec fn in_files(files: Seq<Seq<char>>, roots: Seq<Seq<char>>) -> spec_fn(Evidence) -> bool {
    |e: Evidence|
        exists|k: int| 0 <= k < files.len() && #[trigger] files[k] == relative_to(e.path@, roots)
}

/// A finding cites one of these passages.
pub open spec fn rests_on_one(evidence: Seq<Evidence>) -> spec_fn(FindingModel) -> bool {
    |f: FindingModel|
        exists|i: int, k: int|
            0 <= i < f.evidence_ids.len() && 0 <= k < evidence.len()
                && #[trigger] f.evidence_ids[i] == (#[trigger] evidence[k]).id@
}

proof fn lemma_of_files(
    evidence: Seq<Evidence>,
    files: Seq<Seq<char>>,
    roots: Seq<Seq<char>>,
    count: nat,
)
    requires
        count <= evidence.len(),
    ensures
        passages_of_files(evidence, files, roots, count) == evidence.take(count as int).filter(
            in_files(files, roots),
        ),
    decreases count,
{
    let keep = in_files(files, roots);
    lemma_filter_none(evidence, keep);
    if count > 0 {
        lemma_of_files(evidence, files, roots, (count - 1) as nat);
        lemma_filter_step(evidence, keep, count - 1);
        let path = relative_to(evidence[count - 1].path@, roots);
        if files.contains(path) {
            let k = choose|k: int| 0 <= k < files.len() && files[k] == path;
            assert(files[k] == path);
        }
    }
}

proof fn lemma_citing(findings: Seq<FindingModel>, evidence: Seq<Evidence>, count: nat)
    requires
        count <= findings.len(),
    ensures
        findings_citing(findings, evidence, count) == findings.take(count as int).filter(
            rests_on_one(evidence),
        ),
    decreases count,
{
    let keep = rests_on_one(evidence);
    lemma_filter_none(findings, keep);
    if count > 0 {
        lemma_citing(findings, evidence, (count - 1) as nat);
        lemma_filter_step(findings, keep, count - 1);
        let f = findings[count - 1];
        if cites_one(f, evidence) {
            let i = choose|i: int|
                0 <= i < f.evidence_ids.len() && has_id(evidence, #[trigger] f.evidence_ids[i]);
            let k = choose|k: int|
                0 <= k < evidence.len() && (#[trigger] evidence[k]).id@ == f.evidence_ids[i];
            assert(f.evidence_ids[i] == evidence[k].id@);
        }
        if keep(f) {
            let (i, k) = choose|i: int, k: int|
                0 <= i < f.evidence_ids.len() && 0 <= k < evidence.len()
                    && #[trigger] f.evidence_ids[i] == (#[trigger] evidence[k]).id@;
            assert(has_id(evidence, f.evidence_ids[i]));
        }
    }
}

/// A chapter is given everything that was read of its files: all passages of
/// them, and all findings and details that rest on one of those.
pub proof fn chapters_get_all_of_their_files(
    d: DiscoveryModel,
    files: Seq<Seq<char>>,
    roots: Seq<Seq<char>>,
)
    ensures
        ({
            let n = narrowed(d, files, roots);
            &&& n.evidence == d.evidence.filter(in_files(files, roots))
            &&& n.brief.findings == d.brief.findings.filter(rests_on_one(n.evidence))
            &&& n.details == d.details.filter(rests_on_one(n.evidence))
        }),
{
    lemma_of_files(d.evidence, files, roots, d.evidence.len());
    assert(d.evidence.take(d.evidence.len() as int) =~= d.evidence);
    let evidence = narrowed(d, files, roots).evidence;
    lemma_citing(d.brief.findings, evidence, d.brief.findings.len());
    lemma_citing(d.details, evidence, d.details.len());
    assert(d.brief.findings.take(d.brief.findings.len() as int) =~= d.brief.findings);
    assert(d.details.take(d.details.len() as int) =~= d.details);
}

/// A passage is the first with its id, and its text is not shown.
pub open spec fn is_anchor(retained: Seq<Evidence>, shown: Seq<Evidence>) -> spec_fn(int) -> bool {
    |i: int|
        (forall|k: int| 0 <= k < shown.len() ==> (#[trigger] shown[k]).id@ != retained[i].id@)
            && forall|k: int| 0 <= k < i ==> (#[trigger] retained[k]).id@ != retained[i].id@
}

/// A passage as an anchor.
pub open spec fn anchor_at(retained: Seq<Evidence>, implementation: Seq<bool>) -> spec_fn(
    int,
) -> JsonModel {
    |i: int| anchor_record(retained[i], implementation[i])
}

/// Every passage that was read is an anchor where its text is not shown, once.
pub proof fn what_is_not_shown_is_anchored(
    retained: Seq<Evidence>,
    implementation: Seq<bool>,
    shown: Seq<Evidence>,
    count: nat,
)
    requires
        count <= retained.len(),
    ensures
        anchor_records(retained, implementation, shown, count) == upto(retained.len()).take(
            count as int,
        ).filter(is_anchor(retained, shown)).map_values(anchor_at(retained, implementation)),
    decreases count,
{
    let at = upto(retained.len());
    let keep = is_anchor(retained, shown);
    let f = anchor_at(retained, implementation);
    lemma_filter_none(at, keep);
    if count == 0 {
        assert(Seq::<int>::empty().map_values(f) =~= Seq::empty());
    } else {
        let n = count - 1;
        what_is_not_shown_is_anchored(retained, implementation, shown, n as nat);
        lemma_filter_step(at, keep, n);
        assert(at[n] == n);
        let before = at.take(n).filter(keep);
        assert(before.push(n).map_values(f) =~= before.map_values(f).push(f(n)));
        let id = retained[n].id@;
        let head = retained.take(n);
        assert(seen_before(retained, n, id) <==> exists|k: int|
            0 <= k < n && (#[trigger] retained[k]).id@ == id) by {
            if seen_before(retained, n, id) {
                let k = choose|k: int| 0 <= k < head.len() && (#[trigger] head[k]).id@ == id;
                assert(retained[k].id@ == id);
            }
            if exists|k: int| 0 <= k < n && (#[trigger] retained[k]).id@ == id {
                let k = choose|k: int| 0 <= k < n && (#[trigger] retained[k]).id@ == id;
                assert(head[k].id@ == id);
            }
        }
    }
}

// ---------------------------------------------------------------------------
// Views of branches
// ---------------------------------------------------------------------------

/// A view passes over no branch in silence: it has a record of every branch, or
/// of the first ones and then says how many are left out.
pub open spec fn tells_of_all(level: Seq<Branch>, view: Seq<JsonModel>) -> bool {
    ||| exists|topics: nat, room: nat, files: nat, parts: bool|
        view == #[trigger] branch_records(level, topics, room, files, parts)
    ||| exists|shown: nat|
        0 < shown < level.len() && view == (#[trigger] branch_records(
            level.take(shown as int),
            1,
            crate::planning::views::OBSERVATION_FLOOR_BYTES as nat,
            0,
            false,
        )).push(
            JsonModel::Obj(
                seq![
                    field("branches_not_shown"@, nat_model((level.len() - shown) as nat)),
                ],
            ),
        )
    ||| view == seq![
        JsonModel::Obj(seq![field("branches_not_shown"@, nat_model(level.len()))]),
    ]
}

proof fn lemma_prefix(level: Seq<Branch>, shown: nat)
    requires
        shown <= level.len(),
    ensures
        tells_of_all(level, view_prefix(level, shown)),
    decreases shown,
{
    if shown > 1 {
        let fewer = shown * 4 / 5;
        let floor = crate::planning::views::OBSERVATION_FLOOR_BYTES as nat;
        let records = branch_records(level.take(fewer as int), 1, floor, 0, false);
        let view = records.push(not_shown((level.len() - fewer) as nat));
        if fits_view(view) {
            assert(0 < fewer < level.len());
            assert(view == branch_records(level.take(fewer as int), 1, floor, 0, false).push(
                JsonModel::Obj(
                    seq![
                        field("branches_not_shown"@, nat_model((level.len() - fewer) as nat)),
                    ],
                ),
            ));
        } else {
            lemma_prefix(level, fewer);
        }
    }
}

proof fn lemma_shrunk(level: Seq<Branch>, allowance: nat, tries: nat)
    ensures
        tells_of_all(level, view_shrunk(level, allowance, tries)),
    decreases tries,
{
    if tries == 0 {
        lemma_prefix(level, level.len());
    } else if !fits_view(view_within(level, allowance)) {
        lemma_shrunk(level, allowance * 4 / 5, (tries - 1) as nat);
    }
}

/// A planner is told of every branch; and where the fullest view fits in 24,000
/// bytes, that is the one it is shown.
pub proof fn planners_are_told_of_every_branch(level: Seq<Branch>)
    ensures
        tells_of_all(level, view_of(level)),
        blen(text_of(JsonModel::Arr(view_within(level, 24_000)))) <= 24_000 ==> view_of(level)
            == view_within(level, 24_000),
{
    lemma_shrunk(level, 24_000, 24);
}

// ---------------------------------------------------------------------------
// Answers
// ---------------------------------------------------------------------------

/// A shortened id names one section only: the one at a position.
pub open spec fn names_section(plan: Outline, wanted: Seq<char>, s: int) -> bool {
    &&& wanted.len() > 0
    &&& 0 <= s < plan.sections@.len()
    &&& starts_with(plan.sections@[s].id@, wanted)
    &&& forall|t: int|
        0 <= t < plan.sections@.len() && t != s ==> !starts_with(
            (#[trigger] plan.sections@[t]).id@,
            wanted,
        )
}

/// A shortened id names the section with this id, and no other.
pub open spec fn means(plan: Outline, wanted: Seq<char>, id: Seq<char>) -> bool {
    exists|s: int| #[trigger] names_section(plan, wanted, s) && plan.sections@[s].id@ == id
}

proof fn lemma_section_named(plan: Outline, wanted: Seq<char>)
    requires
        plan.sections@.len() <= usize::MAX,
    ensures
        sections_named(plan, wanted).len() == 1 ==> names_section(
            plan,
            wanted,
            sections_named(plan, wanted)[0] as int,
        ),
        forall|s: int| #[trigger]
            names_section(plan, wanted, s) ==> sections_named(plan, wanted).len() == 1
                && sections_named(plan, wanted)[0] == s,
{
    let keep = |i: int| wanted.len() > 0 && starts_with(plan_ids(plan)[i], wanted);
    lemma_positions(keep, plan.sections@.len());
    let at = sections_named(plan, wanted);
    if at.len() == 1 {
        assert(keep(at[0] as int));
        assert forall|t: int| 0 <= t < plan.sections@.len() && t != at[0] implies !starts_with(
            (#[trigger] plan.sections@[t]).id@,
            wanted,
        ) by {
            if starts_with(plan.sections@[t].id@, wanted) {
                assert(keep(t));
                assert(at.contains(t as usize));
            }
        }
    }
    assert forall|s: int| #[trigger] names_section(plan, wanted, s) implies at.len() == 1 && at[0]
        == s by {
        assert(keep(s));
        assert(at.contains(s as usize));
        assert forall|j: int| 0 <= j < at.len() implies at[j] == s by {
            assert(keep(at[j] as int));
        }
        if at.len() > 1 {
            assert(at[0] < at[1]);
        }
    }
}

/// Shortened ids resolve just where each names one section only, to the ids of
/// those sections in their order.
pub proof fn shortened_ids_resolve(
    ids: Seq<Seq<char>>,
    plan: Outline,
    count: nat,
    full: Seq<Seq<char>>,
)
    requires
        count <= ids.len(),
        plan.sections@.len() <= usize::MAX,
    ensures
        full_ids(ids, plan, count) == Some(full) <==> full.len() == count && forall|i: int|
            0 <= i < count ==> means(plan, trim(ids[i]), #[trigger] full[i]),
    decreases count,
{
    if count == 0 {
        if full.len() == 0 {
            assert(full =~= Seq::empty());
        }
    } else {
        let n = (count - 1) as nat;
        let wanted = trim(ids[n as int]);
        lemma_section_named(plan, wanted);
        if full.len() == count {
            let head = full.drop_last();
            shortened_ids_resolve(ids, plan, n, head);
            assert(full =~= head.push(full.last()));
            assert forall|i: int| 0 <= i < n implies #[trigger] full[i] == head[i] by {}
            if full_ids(ids, plan, count) == Some(full) {
                let done = full_ids(ids, plan, n)->0;
                let s = sections_named(plan, wanted)[0] as int;
                assert(full == done.push(plan_ids(plan)[s]));
                assert(done =~= head);
                assert(names_section(plan, wanted, s));
                assert forall|i: int| 0 <= i < count implies means(
                    plan,
                    trim(ids[i]),
                    #[trigger] full[i],
                ) by {
                    if i < n {
                        assert(means(plan, trim(ids[i]), head[i]));
                    }
                }
            }
            if forall|i: int| 0 <= i < count ==> means(plan, trim(ids[i]), #[trigger] full[i]) {
                assert(means(plan, wanted, full[n as int]));
                assert forall|i: int| 0 <= i < n implies means(
                    plan,
                    trim(ids[i]),
                    #[trigger] head[i],
                ) by {
                    assert(means(plan, trim(ids[i]), full[i]));
                }
                let s = choose|s: int|
                    #[trigger] names_section(plan, wanted, s) && plan.sections@[s].id@
                        == full[n as int];
                assert(plan_ids(plan)[s] == full[n as int]);
            }
        } else {
            lemma_full_len(ids, plan, count);
        }
    }
}

proof fn lemma_full_len(ids: Seq<Seq<char>>, plan: Outline, count: nat)
    ensures
        full_ids(ids, plan, count) matches Some(full) ==> full.len() == count,
    decreases count,
{
    if count > 0 {
        lemma_full_len(ids, plan, (count - 1) as nat);
    }
}

/// An issue is usable: major or minor, with a message and a code in bounds, and
/// about sections of the plan. `now` is the issue with their ids in full.
pub open spec fn is_usable(was: IssueModel, plan: Outline, now: IssueModel) -> bool {
    &&& was.severity == "major"@ || was.severity == "minor"@
    &&& trim(was.message).len() > 0 && blen(was.message) <= 4000
    &&& trim(was.code).len() > 0 && blen(was.code) <= 100
    &&& blen(was.query) <= 2000
    &&& now == (IssueModel { section_ids: now.section_ids, ..was })
    &&& now.section_ids.len() == was.section_ids.len()
    &&& forall|i: int|
        0 <= i < now.section_ids.len() ==> means(
            plan,
            trim(was.section_ids[i]),
            #[trigger] now.section_ids[i],
        )
}

/// A review is taken just where every issue is usable, and then all of them are,
/// with the ids of their sections in full.
pub proof fn usable_reviews_are_taken(
    issues: Seq<IssueModel>,
    plan: Outline,
    count: nat,
    now: Seq<IssueModel>,
)
    requires
        count <= issues.len(),
        plan.sections@.len() <= usize::MAX,
    ensures
        reviewed(issues, plan, count) == Some(now) <==> now.len() == count && forall|i: int|
            0 <= i < count ==> is_usable(issues[i], plan, #[trigger] now[i]),
    decreases count,
{
    if count == 0 {
        if now.len() == 0 {
            assert(now =~= Seq::empty());
        }
    } else {
        let n = (count - 1) as nat;
        let issue = issues[n as int];
        if now.len() == count {
            let head = now.drop_last();
            let last = now.last();
            usable_reviews_are_taken(issues, plan, n, head);
            shortened_ids_resolve(
                issue.section_ids,
                plan,
                issue.section_ids.len(),
                last.section_ids,
            );
            assert(now =~= head.push(last));
            assert forall|i: int| 0 <= i < n implies #[trigger] now[i] == head[i] by {}
            if reviewed(issues, plan, count) == Some(now) {
                let done = reviewed(issues, plan, n)->0;
                let ids = full_ids(issue.section_ids, plan, issue.section_ids.len())->0;
                assert(now == done.push(IssueModel { section_ids: ids, ..issue }));
                assert(done =~= head);
                assert(is_usable(issue, plan, last));
                assert forall|i: int| 0 <= i < count implies is_usable(
                    issues[i],
                    plan,
                    #[trigger] now[i],
                ) by {
                    if i < n {
                        assert(is_usable(issues[i], plan, head[i]));
                    }
                }
            }
            if forall|i: int| 0 <= i < count ==> is_usable(issues[i], plan, #[trigger] now[i]) {
                assert(is_usable(issue, plan, now[n as int]));
                assert forall|i: int| 0 <= i < n implies is_usable(
                    issues[i],
                    plan,
                    #[trigger] head[i],
                ) by {
                    assert(is_usable(issues[i], plan, now[i]));
                }
                assert(issue_ok(issue));
            }
        } else {
            lemma_reviewed_len(issues, plan, count);
        }
    }
}

proof fn lemma_reviewed_len(issues: Seq<IssueModel>, plan: Outline, count: nat)
    ensures
        reviewed(issues, plan, count) matches Some(now) ==> now.len() == count,
    decreases count,
{
    if count > 0 {
        lemma_reviewed_len(issues, plan, (count - 1) as nat);
    }
}

// ---------------------------------------------------------------------------
// Settings
// ---------------------------------------------------------------------------

/// A text without white space at its ends.
pub open spec fn without_ends() -> spec_fn(Seq<char>) -> Seq<char> {
    |s: Seq<char>| trim(s)
}

/// A text that says something.
pub open spec fn not_empty() -> spec_fn(Seq<char>) -> bool {
    |s: Seq<char>| s.len() > 0
}

/// The entries of a list are all that say something, without white space at
/// their ends and in their order.
pub proof fn entries_that_say_something_stay(list: Seq<Seq<char>>, count: nat)
    requires
        count <= list.len(),
    ensures
        entries(list, count) == list.take(count as int).map_values(without_ends()).filter(
            not_empty(),
        ),
    decreases count,
{
    let all = list.map_values(without_ends());
    let keep = not_empty();
    lemma_filter_none(all, keep);
    assert(list.take(count as int).map_values(without_ends()) =~= all.take(count as int));
    if count > 0 {
        let n = count - 1;
        entries_that_say_something_stay(list, n as nat);
        assert(list.take(n).map_values(without_ends()) =~= all.take(n));
        lemma_filter_step(all, keep, n);
    }
}

} // verus!
