//! The branches of a source as requests describe them, inside a byte budget.

use vstd::prelude::*;
use vstd::string::StringExecFns;

use crate::editorial::{at_most, excerpt, excerpt_of};
use crate::findings::{copy_texts, Finding, MAX_FINDINGS};
use crate::json::{
    array_size, field, member, member_models, models, nat_model, text_of, texts_json, texts_model, Json,
    JsonModel, MemberModel,
};
use crate::planning::branches::{Branch, BranchView, Group, Part};
use crate::planning::places::{fullest, main_dirs, shared_dir, shared_root};
use crate::text::{blen, texts};

verus! {

/// Bytes that the branch view may spend.
pub const BRANCH_VIEW_BYTES: usize = 24_000;

/// The shortest observation still worth reading; below this a topic is a title.
pub const OBSERVATION_FLOOR_BYTES: usize = 120;

/// A finding as a view shows it.
pub open spec fn shown_finding(f: Finding, room: nat) -> JsonModel {
    JsonModel::Obj(
        seq![
            field("observation"@, JsonModel::Str(excerpt_of(f.observation@, room))),
            field("topic"@, JsonModel::Str(excerpt_of(f.topic@, 200))),
        ],
    )
}

/// The first texts of a list, each shortened.
pub open spec fn shortened(list: Seq<Seq<char>>, count: nat, limit: nat) -> JsonModel {
    texts_model(at_most(list, count as int).map_values(|t: Seq<char>| excerpt_of(t, limit)))
}

/// A part of a branch as a view shows it.
pub open spec fn shown_part(p: Part) -> JsonModel {
    JsonModel::Obj(
        seq![
            field("branch"@, JsonModel::Str(p.label@)),
            field("file_count"@, nat_model(p.files as nat)),
            field("topics"@, shortened(texts(p.topics@), 2, 60)),
        ],
    )
}

/// The parts of a branch as a view shows them.
pub open spec fn shown_parts(parts: Seq<Part>) -> JsonModel {
    JsonModel::Arr(parts.map_values(|p: Part| shown_part(p)))
}

/// How large a branch is.
pub open spec fn branch_size(b: Branch) -> Seq<MemberModel> {
    seq![
        field("branch"@, JsonModel::Str(b.label@)),
        field("file_count"@, nat_model(b.files@.len())),
    ]
}

/// The first files of a branch.
pub open spec fn branch_files(b: Branch, files: nat) -> Seq<MemberModel> {
    seq![field("files"@, texts_model(at_most(texts(b.files@), files as int)))]
}

/// What a branch is about, and where it lives.
pub open spec fn branch_subject(b: Branch, topics: nat, room: nat) -> Seq<MemberModel> {
    seq![
        field("topic_count"@, nat_model(b.findings@.len())),
        field(
            "topics"@,
            JsonModel::Arr(
                at_most(b.findings@, topics as int).map_values(|f: Finding| shown_finding(f, room)),
            ),
        ),
        field("where"@, JsonModel::Str(shared_dir(texts(b.files@), b.files@.len()))),
    ]
}

/// The directories that hold most of a branch's files, where files are listed
/// and there is something to say.
pub open spec fn branch_dirs(b: Branch, files: nat) -> Seq<MemberModel> {
    let dirs = fullest(texts(b.files@), shared_dir(texts(b.files@), b.files@.len()));
    if files > 0 && dirs.len() > 0 {
        seq![field("main_dirs"@, JsonModel::Arr(dirs))]
    } else {
        Seq::empty()
    }
}

/// The parts of a branch, where they are shown and there are some.
pub open spec fn branch_parts(b: Branch, parts: bool) -> Seq<MemberModel> {
    if parts && b.parts@.len() > 0 {
        seq![field("parts"@, shown_parts(b.parts@))]
    } else {
        Seq::empty()
    }
}

/// A mark on a branch whose files were not all seen.
pub open spec fn branch_floor(b: Branch) -> Seq<MemberModel> {
    if b.whole {
        Seq::empty()
    } else {
        seq![field("file_count_is_a_floor"@, JsonModel::Bool(true))]
    }
}

/// A branch as a view shows it. The counts travel even when the lists are
/// trimmed.
pub open spec fn branch_record(
    b: Branch,
    topics: nat,
    room: nat,
    files: nat,
    parts: bool,
) -> JsonModel {
    JsonModel::Obj(
        branch_size(b) + branch_floor(b) + branch_files(b, files) + branch_dirs(b, files)
            + branch_parts(b, parts) + branch_subject(b, topics, room),
    )
}

/// Branches as a view shows them.
pub open spec fn branch_records(
    level: Seq<Branch>,
    topics: nat,
    room: nat,
    files: nat,
    parts: bool,
) -> Seq<JsonModel> {
    level.map_values(|b: Branch| branch_record(b, topics, room, files, parts))
}

/// A list of borrowed branches as a list of branches.
pub open spec fn listed(level: Seq<&Branch>) -> Seq<Branch> {
    level.map_values(|b: &Branch| *b)
}

/// The first texts of a list, each shortened.
fn shorten(list: &Vec<String>, count: usize, limit: usize) -> (r: Json)
    ensures
        r@ == shortened(texts(list@), count as nat, limit as nat),
{
    let ghost shown = at_most(texts(list@), count as int);
    let ghost goal = shown.map_values(|t: Seq<char>| excerpt_of(t, limit as nat));
    let n: usize = if list.len() <= count {
        list.len()
    } else {
        count
    };
    let mut r: Vec<String> = Vec::new();
    let mut i: usize = 0;
    assert(texts(r@) =~= goal.take(0));
    while i < n
        invariant
            i <= n <= list@.len(),
            n == shown.len(),
            shown == at_most(texts(list@), count as int),
            goal == shown.map_values(|t: Seq<char>| excerpt_of(t, limit as nat)),
            texts(r@) == goal.take(i as int),
        decreases n - i,
    {
        let t = excerpt(list[i].as_str(), limit);
        assert(shown[i as int] == list@[i as int]@);
        assert(texts(r@.push(t)) =~= texts(r@).push(t@));
        assert(goal.take(i + 1) =~= goal.take(i as int).push(t@));
        r.push(t);
        i += 1;
    }
    assert(goal.take(i as int) =~= goal);
    texts_json(&r)
}

/// A part of a branch as a view shows it.
fn part_json(p: &Part) -> (r: Json)
    ensures
        r@ == shown_part(*p),
{
    let members = vec![
        member("branch", Json::string(p.label.as_str())),
        member("file_count", Json::count(p.files)),
        member("topics", shorten(&p.topics, 2, 60)),
    ];
    assert(member_models(members@) =~= shown_part(*p)->Obj_0);
    Json::object(members)
}

/// The parts of a branch as a view shows them.
fn parts_json(parts: &Vec<Part>) -> (r: Json)
    ensures
        r@ == shown_parts(parts@),
{
    let ghost goal = parts@.map_values(|p: Part| shown_part(p));
    let mut items: Vec<Json> = Vec::new();
    let mut i: usize = 0;
    assert(models(items@) =~= goal.take(0));
    while i < parts.len()
        invariant
            i <= parts@.len(),
            goal == parts@.map_values(|p: Part| shown_part(p)),
            models(items@) == goal.take(i as int),
        decreases parts@.len() - i,
    {
        let item = part_json(&parts[i]);
        assert(models(items@.push(item)) =~= models(items@).push(item@));
        assert(goal.take(i + 1) =~= goal.take(i as int).push(item@));
        items.push(item);
        i += 1;
    }
    assert(goal.take(i as int) =~= goal);
    Json::array(items)
}

/// The first findings of a branch as a view shows them.
fn findings_json(findings: &Vec<Finding>, topics: usize, room: usize) -> (r: Json)
    ensures
        r@ == JsonModel::Arr(
            at_most(findings@, topics as int).map_values(
                |f: Finding| shown_finding(f, room as nat),
            ),
        ),
{
    let ghost shown = at_most(findings@, topics as int);
    let ghost goal = shown.map_values(|f: Finding| shown_finding(f, room as nat));
    let n: usize = if findings.len() <= topics {
        findings.len()
    } else {
        topics
    };
    let mut items: Vec<Json> = Vec::new();
    let mut i: usize = 0;
    assert(models(items@) =~= goal.take(0));
    while i < n
        invariant
            i <= n <= findings@.len(),
            n == shown.len(),
            shown == at_most(findings@, topics as int),
            goal == shown.map_values(|f: Finding| shown_finding(f, room as nat)),
            models(items@) == goal.take(i as int),
        decreases n - i,
    {
        let f = &findings[i];
        let members = vec![
            member("observation", Json::string(excerpt(f.observation.as_str(), room).as_str())),
            member("topic", Json::string(excerpt(f.topic.as_str(), 200).as_str())),
        ];
        let item = Json::object(members);
        proof {
            assert(shown[i as int] == *f);
            assert(member_models(members@) =~= shown_finding(*f, room as nat)->Obj_0);
            assert(models(items@.push(item)) =~= models(items@).push(item@));
            assert(goal.take(i + 1) =~= goal.take(i as int).push(item@));
        }
        items.push(item);
        i += 1;
    }
    assert(goal.take(i as int) =~= goal);
    Json::array(items)
}

/// The first texts of a list.
pub fn first_texts(list: &Vec<String>, count: usize) -> (r: Vec<String>)
    ensures
        texts(r@) == at_most(texts(list@), count as int),
{
    let mut r = copy_texts(list);
    if list.len() > count {
        r.truncate(count);
        assert(texts(r@) =~= texts(list@).take(count as int));
    }
    r
}

/// A branch as a view shows it.
fn branch_json(b: &Branch, topics: usize, room: usize, files: usize, parts: bool) -> (r: Json)
    ensures
        r@ == branch_record(*b, topics as nat, room as nat, files as nat, parts),
{
    let root = shared_root(&b.files);
    let mut members = vec![
        member("branch", Json::string(b.label.as_str())),
        member("file_count", Json::count(b.files.len())),
    ];
    let ghost size = branch_size(*b);
    assert(member_models(members@) =~= size);
    if !b.whole {
        let m = member("file_count_is_a_floor", Json::Bool(true));
        assert(member_models(members@.push(m)) =~= size + branch_floor(*b));
        members.push(m);
    }
    let ghost counted = size + branch_floor(*b);
    assert(member_models(members@) =~= counted);
    let m = member("files", texts_json(&first_texts(&b.files, files)));
    let ghost listed = counted + branch_files(*b, files as nat);
    assert(member_models(members@.push(m)) =~= listed);
    members.push(m);
    if files > 0 {
        let dirs = main_dirs(&b.files, root.as_str());
        assert(models(dirs@).len() == dirs@.len());
        if dirs.len() > 0 {
            let m = member("main_dirs", Json::array(dirs));
            assert(member_models(members@.push(m)) =~= listed + branch_dirs(*b, files as nat));
            members.push(m);
        }
    }
    let ghost placed = listed + branch_dirs(*b, files as nat);
    assert(member_models(members@) =~= placed);
    if parts && b.parts.len() > 0 {
        let m = member("parts", parts_json(&b.parts));
        assert(member_models(members@.push(m)) =~= placed + branch_parts(*b, parts));
        members.push(m);
    }
    let ghost divided = placed + branch_parts(*b, parts);
    assert(member_models(members@) =~= divided);
    members.push(member("topic_count", Json::count(b.findings.len())));
    members.push(member("topics", findings_json(&b.findings, topics, room)));
    members.push(member("where", Json::string(root.as_str())));
    assert(member_models(members@) =~= divided + branch_subject(*b, topics as nat, room as nat));
    Json::object(members)
}

/// The first `shown` branches as a view shows them.
fn render_branches(
    level: &Vec<&Branch>,
    shown: usize,
    topics: usize,
    room: usize,
    files: usize,
    parts: bool,
) -> (r: Vec<Json>)
    requires
        shown <= level@.len(),
    ensures
        models(r@) == branch_records(
            listed(level@).take(shown as int),
            topics as nat,
            room as nat,
            files as nat,
            parts,
        ),
{
    let ghost goal = branch_records(
        listed(level@).take(shown as int),
        topics as nat,
        room as nat,
        files as nat,
        parts,
    );
    let mut r: Vec<Json> = Vec::new();
    let mut i: usize = 0;
    assert(models(r@) =~= goal.take(0));
    while i < shown
        invariant
            i <= shown <= level@.len(),
            goal == branch_records(
                listed(level@).take(shown as int),
                topics as nat,
                room as nat,
                files as nat,
                parts,
            ),
            models(r@) == goal.take(i as int),
        decreases shown - i,
    {
        let item = branch_json(level[i], topics, room, files, parts);
        proof {
            assert(listed(level@).take(shown as int)[i as int] == *level@[i as int]);
            assert(goal[i as int] == item@);
            assert(models(r@.push(item)) =~= models(r@).push(item@));
            assert(goal.take(i + 1) =~= goal.take(i as int).push(item@));
        }
        r.push(item);
        i += 1;
    }
    assert(goal.take(i as int) =~= goal);
    r
}

// ---------------------------------------------------------------------------
// Fitting the budget
// ---------------------------------------------------------------------------

/// A view fits its budget.
pub open spec fn fits_view(view: Seq<JsonModel>) -> bool {
    blen(text_of(JsonModel::Arr(view))) <= BRANCH_VIEW_BYTES
}

/// Whether a view fits its budget.
pub fn fits(view: &Vec<Json>) -> (r: bool)
    ensures
        r == fits_view(models(view@)),
{
    array_size(view) <= BRANCH_VIEW_BYTES
}

/// The bytes that the parts of the first `count` branches take.
pub open spec fn parts_bytes(level: Seq<Branch>, count: nat) -> nat
    decreases count,
{
    if count == 0 {
        0
    } else {
        let b = level[count - 1];
        let shown = if b.parts@.len() > 0 {
            shown_parts(b.parts@)
        } else {
            JsonModel::Null
        };
        parts_bytes(level, (count - 1) as nat) + blen(text_of(shown))
    }
}

/// Parts stay in every attempt while they take no more than half the budget.
pub open spec fn keeps_parts(level: Seq<Branch>) -> bool {
    parts_bytes(level, level.len()) <= BRANCH_VIEW_BYTES / 2
}

/// What an allowance leaves to each branch.
pub open spec fn per_branch(allowance: nat, branches: nat) -> nat {
    allowance / if branches == 0 {
        1nat
    } else {
        branches
    }
}

/// How many topics a branch shows in `per` bytes.
pub open spec fn topics_within(per: nat) -> nat {
    let n = per / OBSERVATION_FLOOR_BYTES as nat;
    if n < 1 {
        1
    } else if n > MAX_FINDINGS {
        MAX_FINDINGS as nat
    } else {
        n
    }
}

/// The branches as an allowance of bytes shows them.
pub open spec fn view_within(level: Seq<Branch>, allowance: nat) -> Seq<JsonModel> {
    let per = per_branch(allowance, level.len());
    let topics = topics_within(per);
    let room = if per / topics < OBSERVATION_FLOOR_BYTES {
        OBSERVATION_FLOOR_BYTES as nat
    } else {
        per / topics
    };
    let files = if per / 600 < 12 {
        per / 600
    } else {
        12
    };
    branch_records(level, topics, room, files, keeps_parts(level) || per >= 400)
}

/// A record of the branches that are not shown.
pub open spec fn not_shown(count: nat) -> JsonModel {
    JsonModel::Obj(seq![field("branches_not_shown"@, nat_model(count))])
}

/// The first branches, as many as fit, and how many were left out.
pub open spec fn view_prefix(level: Seq<Branch>, shown: nat) -> Seq<JsonModel>
    decreases shown,
{
    if shown <= 1 {
        seq![not_shown(level.len())]
    } else {
        let fewer = shown * 4 / 5;
        let view = branch_records(
            level.take(fewer as int),
            1,
            OBSERVATION_FLOOR_BYTES as nat,
            0,
            false,
        ).push(not_shown((level.len() - fewer) as nat));
        if fits_view(view) {
            view
        } else {
            view_prefix(level, fewer)
        }
    }
}

/// The first of `tries` shrinking allowances that fits, and a prefix of the
/// branches where none does.
pub open spec fn view_shrunk(level: Seq<Branch>, allowance: nat, tries: nat) -> Seq<JsonModel>
    decreases tries,
{
    if tries == 0 {
        view_prefix(level, level.len())
    } else if fits_view(view_within(level, allowance)) {
        view_within(level, allowance)
    } else {
        view_shrunk(level, allowance * 4 / 5, (tries - 1) as nat)
    }
}

/// The branches as a request describes them.
pub open spec fn view_of(level: Seq<Branch>) -> Seq<JsonModel> {
    view_shrunk(level, BRANCH_VIEW_BYTES as nat, 24)
}

/// A view fits its budget, unless it shows nothing but how many branches there
/// are.
pub proof fn branch_views_fit(level: Seq<Branch>)
    ensures
        fits_view(view_of(level)) || view_of(level) == seq![not_shown(level.len())],
{
    lemma_shrunk_fits(level, BRANCH_VIEW_BYTES as nat, 24);
}

proof fn lemma_shrunk_fits(level: Seq<Branch>, allowance: nat, tries: nat)
    ensures
        fits_view(view_shrunk(level, allowance, tries)) || view_shrunk(level, allowance, tries)
            == seq![not_shown(level.len())],
    decreases tries,
{
    if tries == 0 {
        lemma_prefix_fits(level, level.len());
    } else if !fits_view(view_within(level, allowance)) {
        lemma_shrunk_fits(level, allowance * 4 / 5, (tries - 1) as nat);
    }
}

proof fn lemma_prefix_fits(level: Seq<Branch>, shown: nat)
    ensures
        fits_view(view_prefix(level, shown)) || view_prefix(level, shown) == seq![
            not_shown(level.len()),
        ],
    decreases shown,
{
    if shown > 1 {
        lemma_prefix_fits(level, shown * 4 / 5);
    }
}

/// Whether parts stay in every attempt.
fn parts_stay(level: &Vec<&Branch>) -> (r: bool)
    ensures
        r == keeps_parts(listed(level@)),
{
    let ghost all = listed(level@);
    let half: usize = BRANCH_VIEW_BYTES / 2;
    let mut total: usize = 0;
    let mut over = false;
    let mut i: usize = 0;
    while i < level.len()
        invariant
            i <= level@.len(),
            all == listed(level@),
            half == BRANCH_VIEW_BYTES / 2,
            total <= half,
            over ==> parts_bytes(all, i as nat) > half,
            !over ==> total == parts_bytes(all, i as nat),
        decreases level@.len() - i,
    {
        let b = level[i];
        assert(all[i as int] == *b);
        let shown = if b.parts.len() > 0 {
            parts_json(&b.parts)
        } else {
            Json::Null
        };
        let size = shown.size();
        if !over {
            if size > half - total {
                over = true;
            } else {
                total += size;
            }
        }
        i += 1;
    }
    !over
}

/// How many branches are not shown.
fn not_shown_json(count: usize) -> (r: Json)
    ensures
        r@ == not_shown(count as nat),
{
    let members = vec![member("branches_not_shown", Json::count(count))];
    assert(member_models(members@) =~= not_shown(count as nat)->Obj_0);
    Json::object(members)
}

/// Describes each branch inside a shared byte budget. A source with many parts
/// has every part described briefly; where not even that fits, as many as fit
/// and how many were left out.
pub fn branch_view(level: &Vec<&Branch>) -> (r: Vec<Json>)
    ensures
        models(r@) == view_of(listed(level@)),
{
    let ghost all = listed(level@);
    let count: usize = level.len();
    let keep = parts_stay(level);
    let mut allowance: usize = BRANCH_VIEW_BYTES;
    let mut tries: usize = 24;
    assert(all.take(count as int) =~= all);
    while tries > 0
        invariant
            tries <= 24,
            all == listed(level@),
            count == level@.len() == all.len(),
            all.take(count as int) == all,
            keep == keeps_parts(all),
            allowance <= BRANCH_VIEW_BYTES,
            view_shrunk(all, allowance as nat, tries as nat) == view_of(all),
        decreases tries,
    {
        let per: usize = allowance / (if count == 0 {
            1
        } else {
            count
        });
        let floor: usize = per / OBSERVATION_FLOOR_BYTES;
        let topics: usize = if floor < 1 {
            1
        } else if floor > MAX_FINDINGS {
            MAX_FINDINGS
        } else {
            floor
        };
        let each: usize = per / topics;
        let room: usize = if each < OBSERVATION_FLOOR_BYTES {
            OBSERVATION_FLOOR_BYTES
        } else {
            each
        };
        let paths: usize = per / 600;
        let files: usize = if paths < 12 {
            paths
        } else {
            12
        };
        let view = render_branches(level, count, topics, room, files, keep || per >= 400);
        assert(models(view@) == view_within(all, allowance as nat));
        if fits(&view) {
            return view;
        }
        allowance = allowance * 4 / 5;
        tries -= 1;
    }
    let mut shown: usize = count;
    while shown > 1
        invariant
            shown <= count == level@.len() == all.len(),
            all == listed(level@),
            view_prefix(all, shown as nat) == view_of(all),
        decreases shown,
    {
        let whole: usize = shown / 5;
        let rest: usize = shown % 5;
        shown = whole * 4 + rest * 4 / 5;
        let mut view = render_branches(level, shown, 1, OBSERVATION_FLOOR_BYTES, 0, false);
        let left = not_shown_json(count - shown);
        assert(models(view@.push(left)) =~= models(view@).push(left@));
        view.push(left);
        if fits(&view) {
            return view;
        }
    }
    let left = not_shown_json(count);
    let view = vec![left];
    assert(models(view@) =~= seq![not_shown(all.len())]);
    view
}

// ---------------------------------------------------------------------------
// Groups
// ---------------------------------------------------------------------------

/// How much of groups and branches a view tells: topics of a group, topics of a
/// branch (or labels alone), and bytes of a title.
pub struct GroupDetail {
    pub group_topics: usize,
    pub branch_topics: Option<usize>,
    pub title: usize,
}

/// The attempts at a view of groups, from the most told to the least.
pub open spec fn group_detail(attempt: int) -> GroupDetail {
    if attempt == 0 {
        GroupDetail { group_topics: 6, branch_topics: Some(4), title: 160 }
    } else if attempt == 1 {
        GroupDetail { group_topics: 4, branch_topics: Some(3), title: 120 }
    } else if attempt == 2 {
        GroupDetail { group_topics: 3, branch_topics: Some(2), title: 80 }
    } else if attempt == 3 {
        GroupDetail { group_topics: 2, branch_topics: Some(1), title: 60 }
    } else if attempt == 4 {
        GroupDetail { group_topics: 6, branch_topics: None, title: 120 }
    } else if attempt == 5 {
        GroupDetail { group_topics: 3, branch_topics: None, title: 80 }
    } else {
        GroupDetail { group_topics: 0, branch_topics: None, title: 0 }
    }
}

/// The files of some branches, end to end.
pub open spec fn member_files(
    branches: Seq<Branch>,
    members: Seq<usize>,
    count: nat,
) -> Seq<Seq<char>>
    decreases count,
{
    if count == 0 {
        Seq::empty()
    } else {
        member_files(branches, members, (count - 1) as nat) + texts(
            branches[members[count - 1] as int].files@,
        )
    }
}

/// The topics of some findings.
pub open spec fn finding_topics(findings: Seq<Finding>) -> Seq<Seq<char>> {
    findings.map_values(|f: Finding| f.topic@)
}

/// A branch of a group as a view shows it.
pub open spec fn member_record(b: Branch, topics: nat, title: nat) -> JsonModel {
    JsonModel::Obj(
        seq![
            field("branch"@, JsonModel::Str(b.label@)),
            field("file_count"@, nat_model(b.files@.len())),
            field("topics"@, shortened(finding_topics(b.findings@), topics, title)),
            field("where"@, JsonModel::Str(shared_dir(texts(b.files@), b.files@.len()))),
        ],
    )
}

/// The branches of a group as a view shows them.
pub open spec fn member_records(
    branches: Seq<Branch>,
    members: Seq<usize>,
    detail: GroupDetail,
) -> JsonModel {
    match detail.branch_topics {
        Some(topics) => JsonModel::Arr(
            members.map_values(
                |i: usize|
                    member_record(branches[i as int], topics as nat, detail.title as nat),
            ),
        ),
        None => texts_model(members.map_values(|i: usize| branches[i as int].label@)),
    }
}

/// A group as a view shows it.
pub open spec fn group_record(branches: Seq<Branch>, group: Group, detail: GroupDetail) -> JsonModel {
    let files = member_files(branches, group.members@, group.members@.len());
    JsonModel::Obj(
        seq![
            field("branches"@, member_records(branches, group.members@, detail)),
            field("file_count"@, nat_model(files.len())),
            field("group"@, JsonModel::Str(group.label@)),
            field(
                "topics"@,
                shortened(
                    texts(group.topics@),
                    detail.group_topics as nat,
                    if detail.title < 80 {
                        80
                    } else {
                        detail.title as nat
                    },
                ),
            ),
            field("where"@, JsonModel::Str(shared_dir(files, files.len()))),
        ],
    )
}

/// The groups at one attempt.
pub open spec fn group_records(view: BranchView, detail: GroupDetail) -> Seq<JsonModel> {
    view.groups@.map_values(|g: Group| group_record(view.branches@, g, detail))
}

/// The first attempt, from `attempt` on, that fits, and the last where none
/// does.
pub open spec fn groups_shown(view: BranchView, attempt: nat) -> Seq<JsonModel>
    decreases 6 - attempt,
{
    let records = group_records(view, group_detail(attempt as int));
    if attempt >= 6 || fits_view(records) {
        records
    } else {
        groups_shown(view, attempt + 1)
    }
}

/// The topics of some findings.
pub fn topics_list(findings: &Vec<Finding>) -> (r: Vec<String>)
    ensures
        texts(r@) == finding_topics(findings@),
{
    let ghost goal = finding_topics(findings@);
    let mut r: Vec<String> = Vec::new();
    let mut i: usize = 0;
    assert(texts(r@) =~= goal.take(0));
    while i < findings.len()
        invariant
            i <= findings@.len(),
            goal == finding_topics(findings@),
            texts(r@) == goal.take(i as int),
        decreases findings@.len() - i,
    {
        let t = findings[i].topic.clone();
        assert(texts(r@.push(t)) =~= texts(r@).push(t@));
        assert(goal.take(i + 1) =~= goal.take(i as int).push(t@));
        r.push(t);
        i += 1;
    }
    assert(goal.take(i as int) =~= goal);
    r
}

/// The branches of a group as a view shows them.
fn members_json(branches: &Vec<Branch>, members: &Vec<usize>, detail: &GroupDetail) -> (r: Json)
    requires
        forall|m: int| 0 <= m < members@.len() ==> (#[trigger] members@[m]) < branches@.len(),
    ensures
        r@ == member_records(branches@, members@, *detail),
{
    match detail.branch_topics {
        Some(topics) => {
            let ghost goal = member_records(branches@, members@, *detail)->Arr_0;
            let mut items: Vec<Json> = Vec::new();
            let mut m: usize = 0;
            assert(models(items@) =~= goal.take(0));
            while m < members.len()
                invariant
                    m <= members@.len(),
                    forall|m: int|
                        0 <= m < members@.len() ==> (#[trigger] members@[m]) < branches@.len(),
                    detail.branch_topics == Some(topics),
                    goal == member_records(branches@, members@, *detail)->Arr_0,
                    models(items@) == goal.take(m as int),
                decreases members@.len() - m,
            {
                let b = &branches[members[m]];
                let root = shared_root(&b.files);
                let list = vec![
                    member("branch", Json::string(b.label.as_str())),
                    member("file_count", Json::count(b.files.len())),
                    member("topics", shorten(&topics_list(&b.findings), topics, detail.title)),
                    member("where", Json::string(root.as_str())),
                ];
                let item = Json::object(list);
                proof {
                    assert(member_models(list@) =~= member_record(
                        *b,
                        topics as nat,
                        detail.title as nat,
                    )->Obj_0);
                    assert(goal[m as int] == item@);
                    assert(models(items@.push(item)) =~= models(items@).push(item@));
                    assert(goal.take(m + 1) =~= goal.take(m as int).push(item@));
                }
                items.push(item);
                m += 1;
            }
            assert(goal.take(m as int) =~= goal);
            Json::array(items)
        },
        None => {
            let ghost goal = members@.map_values(|i: usize| branches@[i as int].label@);
            let mut labels: Vec<String> = Vec::new();
            let mut m: usize = 0;
            assert(texts(labels@) =~= goal.take(0));
            while m < members.len()
                invariant
                    m <= members@.len(),
                    forall|m: int|
                        0 <= m < members@.len() ==> (#[trigger] members@[m]) < branches@.len(),
                    goal == members@.map_values(|i: usize| branches@[i as int].label@),
                    texts(labels@) == goal.take(m as int),
                decreases members@.len() - m,
            {
                let label = branches[members[m]].label.clone();
                assert(texts(labels@.push(label)) =~= texts(labels@).push(label@));
                assert(goal.take(m + 1) =~= goal.take(m as int).push(label@));
                labels.push(label);
                m += 1;
            }
            assert(goal.take(m as int) =~= goal);
            texts_json(&labels)
        },
    }
}

/// The files of the branches of a group, end to end.
fn files_of(branches: &Vec<Branch>, members: &Vec<usize>) -> (r: Vec<String>)
    requires
        forall|m: int| 0 <= m < members@.len() ==> (#[trigger] members@[m]) < branches@.len(),
    ensures
        texts(r@) == member_files(branches@, members@, members@.len()),
{
    let mut r: Vec<String> = Vec::new();
    let mut m: usize = 0;
    assert(texts(r@) =~= Seq::empty());
    while m < members.len()
        invariant
            m <= members@.len(),
            forall|m: int| 0 <= m < members@.len() ==> (#[trigger] members@[m]) < branches@.len(),
            texts(r@) == member_files(branches@, members@, m as nat),
        decreases members@.len() - m,
    {
        let files = &branches[members[m]].files;
        let ghost before = texts(r@);
        let mut f: usize = 0;
        assert(before + texts(files@).take(0) =~= before);
        while f < files.len()
            invariant
                f <= files@.len(),
                texts(r@) == before + texts(files@).take(f as int),
            decreases files@.len() - f,
        {
            let path = files[f].clone();
            assert(texts(r@.push(path)) =~= texts(r@).push(path@));
            assert(before + texts(files@).take(f + 1) =~= (before + texts(files@).take(
                f as int,
            )).push(path@));
            r.push(path);
            f += 1;
        }
        assert(texts(files@).take(f as int) =~= texts(files@));
        m += 1;
    }
    r
}

/// The groups at one attempt.
fn render_groups(view: &BranchView, detail: &GroupDetail) -> (r: Vec<Json>)
    requires
        view.wf(),
    ensures
        models(r@) == group_records(*view, *detail),
{
    let ghost goal = group_records(*view, *detail);
    let mut r: Vec<Json> = Vec::new();
    let mut g: usize = 0;
    assert(models(r@) =~= goal.take(0));
    while g < view.groups.len()
        invariant
            view.wf(),
            g <= view.groups@.len(),
            goal == group_records(*view, *detail),
            models(r@) == goal.take(g as int),
        decreases view.groups@.len() - g,
    {
        let group = &view.groups[g];
        proof {
            assert forall|m: int| 0 <= m < group.members@.len() implies (
            #[trigger] group.members@[m]) < view.branches@.len() by {
                assert(view.groups@[g as int].members@[m] < view.branches@.len());
            }
        }
        let files = files_of(&view.branches, &group.members);
        assert(texts(files@).len() == files@.len());
        let root = shared_root(&files);
        let title: usize = if detail.title < 80 {
            80
        } else {
            detail.title
        };
        let list = vec![
            member("branches", members_json(&view.branches, &group.members, detail)),
            member("file_count", Json::count(files.len())),
            member("group", Json::string(group.label.as_str())),
            member("topics", shorten(&group.topics, detail.group_topics, title)),
            member("where", Json::string(root.as_str())),
        ];
        let item = Json::object(list);
        proof {
            assert(member_models(list@) =~= group_record(
                view.branches@,
                *group,
                *detail,
            )->Obj_0);
            assert(goal[g as int] == item@);
            assert(models(r@.push(item)) =~= models(r@).push(item@));
            assert(goal.take(g + 1) =~= goal.take(g as int).push(item@));
        }
        r.push(item);
        g += 1;
    }
    assert(goal.take(g as int) =~= goal);
    r
}

/// One attempt at a view of groups.
fn detail_of(attempt: usize) -> (r: GroupDetail)
    ensures
        r == group_detail(attempt as int),
{
    if attempt == 0 {
        GroupDetail { group_topics: 6, branch_topics: Some(4), title: 160 }
    } else if attempt == 1 {
        GroupDetail { group_topics: 4, branch_topics: Some(3), title: 120 }
    } else if attempt == 2 {
        GroupDetail { group_topics: 3, branch_topics: Some(2), title: 80 }
    } else if attempt == 3 {
        GroupDetail { group_topics: 2, branch_topics: Some(1), title: 60 }
    } else if attempt == 4 {
        GroupDetail { group_topics: 6, branch_topics: None, title: 120 }
    } else if attempt == 5 {
        GroupDetail { group_topics: 3, branch_topics: None, title: 80 }
    } else {
        GroupDetail { group_topics: 0, branch_topics: None, title: 0 }
    }
}

/// The groups that a large source's branches sit in, for dividing the document
/// into chapters. Past what the budget can describe, each group lists only its
/// branch labels.
pub fn group_view(view: &BranchView) -> (r: Vec<Json>)
    requires
        view.wf(),
    ensures
        models(r@) == groups_shown(*view, 0),
{
    let mut attempt: usize = 0;
    loop
        invariant
            view.wf(),
            attempt <= 6,
            groups_shown(*view, attempt as nat) == groups_shown(*view, 0),
        decreases 6 - attempt,
    {
        let detail = detail_of(attempt);
        let records = render_groups(view, &detail);
        if attempt >= 6 || fits(&records) {
            return records;
        }
        attempt += 1;
    }
}

} // verus!
