use doccraft::answers::{
    brief_from_json, decode_brief, decode_division, decode_review, division_from_json, finding_kind,
    review_from_json,
};
use doccraft::findings::{
    resolve_ids, validate_brief, BriefFault, Discovery, Finding, FindingKind, IdFault, SourceBrief,
    ACCEPTED_EVIDENCE_IDS, ACCEPTED_FINDINGS, ACCEPTED_UNCERTAINTIES, MAX_EVIDENCE_IDS, MAX_FINDINGS,
    MAX_UNCERTAINTIES,
};
use doccraft::json::Json;
use doccraft::llm::repair::decode;
use doccraft::model::{BranchExclusion, Evidence, Outline, OutlineIssue, SectionPlan};
use doccraft::packing::pack_evidence;
use doccraft::planning::accounting::{
    branch_coverage, coverage_view, names_label, resolve_section_ids, scope_issue, unassigned_issues,
};
use doccraft::planning::asking::{
    accept_plan, part_scope, plan_chapter, plan_whole, request_chapters, review_outline, Asking, PartShare,
    Purpose, RejectedPlan,
};
use doccraft::planning::branches::{Branch, BranchView, Group, Part, CHAPTER_BRANCHES};
use doccraft::planning::chapters::{
    chapter_batches, decode_chapters, Batch, Chapter, Chapters, ChaptersDraft,
};
use doccraft::planning::feedback::{feedback_view, outline_view, OUTLINE_VIEW_BYTES};
use doccraft::planning::stored::outline_from_json;
use doccraft::planning::generated::{decode_generated_outline, GeneratedFault, Label};
use doccraft::planning::levels::{branch_groups, branch_level, branch_target, closer_level};
use doccraft::planning::messages::{brief_message, chapter_message, generated_message, outline_message};
use doccraft::planning::outline::{
    section_ceiling, validate_outline, OutlineFault, SECTIONS_MAX, SECTIONS_WITHOUT_BRANCHES,
};
use doccraft::planning::places::{main_dirs, relative, shared_root};
use doccraft::planning::requests::{dependency_repair_context, scope_discovery};
use doccraft::planning::rounds::Next;
use doccraft::planning::shares::{chapter_shares, diagram_shares};
use doccraft::planning::tree::{TreeIndex, TreeNode};
use doccraft::planning::views::{branch_view, group_view, BRANCH_VIEW_BYTES};
use doccraft::prompts::{chapters_instruction, plan_instruction};
use doccraft::reading::brief_json;
use doccraft::source::hash;
use serde_json::Value;
use std::collections::HashSet;

fn json(text: &str) -> Json {
    decode(text).ok().expect("JSON")
}

fn value(json: &Json) -> Value {
    serde_json::from_str(&json.to_text()).expect("JSON")
}

fn values(list: &[Json]) -> Vec<Value> {
    list.iter().map(value).collect()
}

fn size(list: &[Json]) -> usize {
    serde_json::to_vec(&values(list)).expect("JSON").len()
}

fn parse(text: &str) -> Value {
    serde_json::from_str(text).expect("JSON")
}

fn outline(text: &str) -> Outline {
    outline_from_json(&json(text)).expect("outline")
}

fn evidence(path: &str, content: &str) -> Evidence {
    Evidence {
        id: hash(format!("{path}:{content}").as_bytes()),
        path: path.into(),
        start: 1,
        end: 1,
        content: content.into(),
    }
}

/// Which passages hold implementation, by the endings of their files.
fn implementation(list: &[Evidence]) -> Vec<bool> {
    list.iter()
        .map(|e| e.path.ends_with(".py") || e.path.ends_with(".rs"))
        .collect()
}

fn finding(topic: &str, observation: &str, kind: FindingKind, ids: &[&str]) -> Finding {
    Finding {
        topic: topic.into(),
        observation: observation.into(),
        kind,
        evidence_ids: ids.iter().map(|i| i.to_string()).collect(),
    }
}

fn brief(findings: Vec<Finding>) -> SourceBrief {
    SourceBrief {
        findings,
        uncertainties: vec![],
        followup_queries: vec![],
    }
}

/// What is told of a brief that is refused.
fn refused(brief: &SourceBrief, sources: &Vec<Evidence>) -> String {
    let fault = validate_brief(brief, sources, &implementation(sources), true)
        .err()
        .expect("a brief that must not validate");
    brief_message(&fault, brief, sources, true)
}

fn accepted(brief: &SourceBrief, sources: &Vec<Evidence>, final_pass: bool) -> bool {
    validate_brief(brief, sources, &implementation(sources), final_pass).is_ok()
}

fn test_branch(index: usize, files: usize, topics: usize) -> Branch {
    Branch {
        label: format!("B{}", index + 1),
        key: format!("understanding:node:{index}"),
        findings: (0..topics)
            .map(|i| finding(&format!("주제 {i}"), &"관".repeat(4000), FindingKind::Context, &[]))
            .collect(),
        files: (0..files).map(|i| format!("src/m{i}.rs")).collect(),
        whole: true,
        parts: vec![],
    }
}

fn level(branches: &[Branch]) -> Vec<&Branch> {
    branches.iter().collect()
}

#[test]
fn a_branch_says_where_it_lives_and_the_views_are_related() {
    // One directory for a branch that sits in one; the nearest shared one when it
    // spans several; nothing when it spans the whole tree.
    let at = |paths: &[&str]| shared_root(&paths.iter().map(|p| p.to_string()).collect::<Vec<_>>());
    assert_eq!(at(&["a/b/one.rs", "a/b/two.rs"]), "a/b");
    assert_eq!(at(&["a/b/one.rs", "a/c/two.rs"]), "a");
    assert_eq!(at(&["a/one.rs", "b/two.rs"]), "");
    assert_eq!(at(&[]), "");
    // A prefix that is not a directory boundary must not match.
    assert_eq!(at(&["a/bc/one.rs", "a/bd/two.rs"]), "a");
    // Paths are shown against the source the user named, so a branch does not
    // repeat the same long prefix in `where` and in every file it lists.
    let roots = vec!["/w/proj".to_string(), "/w/proj/vendor".to_string()];
    assert_eq!(relative("/w/proj/backend/a.rs", &roots), "backend/a.rs");
    // The nearest root wins when they nest.
    assert_eq!(relative("/w/proj/vendor/b.rs", &roots), "b.rs");
    // A path under no named source is left as it is rather than mangled.
    assert_eq!(relative("/elsewhere/c.rs", &roots), "/elsewhere/c.rs");
    // A trailing slash on the source must not leave a leading one behind.
    assert_eq!(relative("/w/p/a.rs", &vec!["/w/p/".to_string()]), "a.rs");
    // The planner is told the three views are one thing at three depths, and
    // which order the branches are in, or it merges them as three unrelated lists
    // and the narrative wanders.
    let plan = plan_instruction();
    assert!(plan.contains("one thing at three depths"), "{plan}");
    // The spine is the through-line, not the order the files happen to sit in: a
    // file layout is not a reader's journey.
    assert!(plan.contains("spine is source_brief's through-line"), "{plan}");
    assert!(plan.contains("must not become the document's structure"), "{plan}");
    assert!(!plan.contains("{MAX_"), "{plan}");
}

#[test]
fn branches_raise_the_ceiling_without_obliging_a_section() {
    // The branch view is read from the understanding tree, which knows nothing of
    // the purpose: a large source with a narrow purpose is a short document.
    let instruction = plan_instruction();
    assert!(instruction.contains("Choose the smallest number of sections"));
    assert!(instruction.contains("not what this document owes a section"));
    assert!(instruction.contains("gets no section"));
    // And the ceiling is only a ceiling: nothing requires a plan to reach it.
    let source = evidence("/project/a.py", "def process(): return 1");
    let mut plan = outline(&format!(
        r#"{{"reader_goal":"Understand processing","storyline":"One step",
            "terminology":[],"sections":[{{"title":"Only","query":"process",
                "key_points":["Describe it"],"evidence_ids":["{}"],"diagrams":[]}}]}}"#,
        source.id
    ));
    assert!(validate_outline(&mut plan, &vec![source], Some(0), Some(40)).is_ok());
    assert!(plan.sections.iter().all(|s| !s.id.is_empty()));
}

#[test]
fn the_document_widens_with_the_source_rather_than_a_fixed_ceiling() {
    // The tree fans in by four, so a larger source only deepens it. Picking the
    // branch level by an absolute threshold therefore described 520 leaves with
    // fewer branches than 52; the target follows the leaves.
    assert!(branch_target(520) > branch_target(52));
    assert!(branch_target(5200) >= branch_target(520));
    // A small project is not squeezed by the same rule.
    assert_eq!(branch_target(4), 8);
    // Sections follow the branches, with a floor for a small project and an
    // absolute limit because one file has to end somewhere.
    assert!(section_ceiling(Some(branch_target(520))) > section_ceiling(Some(branch_target(52))));
    // Never tighter than the flat ceiling it replaced: the change was to let a
    // large source have more, not to take from a small one.
    assert_eq!(section_ceiling(Some(0)), SECTIONS_WITHOUT_BRANCHES);
    assert!(
        (0..=SECTIONS_MAX).all(|n| section_ceiling(Some(n)) >= SECTIONS_WITHOUT_BRANCHES),
        "a branch count must never narrow the document"
    );
    assert_eq!(section_ceiling(Some(usize::MAX)), SECTIONS_MAX);
    // Levels step by the fan-in, so the first past the target can overshoot it
    // several times; the closer of the two is chosen.
    assert!(closer_level(21, 82, 64));
    assert!(!closer_level(60, 300, 64));
    // The old flat ceiling is no longer the answer for a large source.
    assert!(section_ceiling(Some(branch_target(5200))) > 32);
    // An outline re-read without its branches keeps the widest bound, or one that
    // was valid when planned would be rejected on the next read.
    assert_eq!(section_ceiling(None), SECTIONS_MAX);
}

#[test]
fn a_branch_view_describes_every_branch_inside_one_budget() {
    // A wide tree must not spend the budget on its first branches and leave the
    // rest out of the document: every branch is described.
    let wide: Vec<Branch> = (0..16).map(|i| test_branch(i, 3, MAX_FINDINGS)).collect();
    let view = values(&branch_view(&level(&wide)));
    assert_eq!(view.len(), 16);
    assert_eq!(view[0]["file_count"], 3);
    // Every branch carries the label a plan names it by.
    assert_eq!(view[15]["branch"], "B16");
    assert!(view
        .iter()
        .all(|b| b["topics"].as_array().is_some_and(|t| !t.is_empty())));
    // The budget is measured, not divided and hoped for.
    for count in [2usize, 16, 64] {
        let branches: Vec<Branch> = (0..count)
            .map(|i| test_branch(i, 3, MAX_FINDINGS))
            .collect();
        let shown = branch_view(&level(&branches));
        let bytes = size(&shown);
        let wide = values(&shown);
        assert_eq!(wide.len(), count, "every branch is described");
        assert!(bytes <= BRANCH_VIEW_BYTES, "{count} branches took {bytes}");
        assert!(
            wide.iter()
                .all(|b| b["topics"].as_array().is_some_and(|t| !t.is_empty())),
            "{count} branches left one silent"
        );
        // A branch whose lists were trimmed still says how much it holds, and
        // where it lives.
        assert_eq!(wide[0]["topic_count"], MAX_FINDINGS);
        assert_eq!(wide[0]["file_count"], 3);
        assert_eq!(wide[0]["where"], "src");
    }
    // Wider than the budget can describe at all: carry what fits and say how many
    // were left out, rather than presenting a prefix as the whole source.
    let huge: Vec<Branch> = (0..200).map(|i| test_branch(i, 3, MAX_FINDINGS)).collect();
    let shown = branch_view(&level(&huge));
    assert!(size(&shown) <= BRANCH_VIEW_BYTES);
    let view = values(&shown);
    let omitted = view
        .last()
        .and_then(|v| v["branches_not_shown"].as_u64())
        .expect("an omission must be named");
    assert_eq!(omitted as usize + view.len() - 1, 200);
    // The file count travels even when the list is capped, so a large branch is
    // recognisable as large.
    let big = [test_branch(0, 40, 1)];
    let big = values(&branch_view(&level(&big)));
    assert_eq!(big[0]["file_count"], 40);
    assert_eq!(big[0]["files"].as_array().map(Vec::len), Some(12));
    // A walk that could not reach every leaf says so, or an undercount reads as a
    // small branch and the branch earns fewer sections.
    let mut partial = test_branch(0, 1, 1);
    partial.whole = false;
    let partial = values(&branch_view(&vec![&partial]));
    assert_eq!(partial[0]["file_count_is_a_floor"], true);
    assert!(view[0]["file_count_is_a_floor"].is_null());
    // Fewer branches each get more room than many do.
    let narrow = [
        test_branch(0, 1, MAX_FINDINGS),
        test_branch(1, 1, MAX_FINDINGS),
    ];
    let narrow = values(&branch_view(&level(&narrow)));
    let narrow_len = narrow[0]["topics"][0]["observation"]
        .as_str()
        .unwrap_or("")
        .len();
    let wide_len = view[0]["topics"][0]["observation"]
        .as_str()
        .unwrap_or("")
        .len();
    assert!(narrow_len > wide_len, "{narrow_len} vs {wide_len}");
}

#[test]
fn a_branch_spread_across_directories_names_where_its_files_are() {
    let files: Vec<String> = [
        "api/a.rs", "api/b.rs", "db/c.rs", "ui/d.rs", "ui/e.rs", "ui/f.rs",
    ]
    .iter()
    .map(|p| p.to_string())
    .collect();
    assert_eq!(shared_root(&files), "");
    let dirs = values(&main_dirs(&files, ""));
    assert_eq!(dirs[0], parse(r#"["ui",3]"#));
    assert_eq!(dirs.len(), 3);
    // A branch in one directory is already named by `where`.
    let local: Vec<String> = vec!["api/a.rs".into(), "api/b.rs".into()];
    assert!(main_dirs(&local, "api").is_empty());
}

fn issue(severity: &str, code: &str, message: &str) -> OutlineIssue {
    OutlineIssue {
        severity: severity.into(),
        code: code.into(),
        message: message.into(),
        section_ids: vec![],
        requirement_ids: vec![],
        query: String::new(),
    }
}

/// What is told of a generated plan that is refused.
fn refused_plan(text: &str, labels: &Vec<Label>) -> String {
    let value = json(text);
    let fault = decode_generated_outline(&value, labels)
        .err()
        .expect("a plan that must not decode");
    generated_message(&fault, &value, labels)
}

#[test]
fn every_branch_is_covered_excluded_or_reported_unassigned() {
    let view = BranchView {
        branches: (0..3).map(|i| test_branch(i, 2, 2)).collect(),
        groups: vec![],
    };
    let labels = view.keys_by_label();
    // Labels resolve to node keys; a label the request never showed is named.
    let response = r#"{"reader_goal":"goal","storyline":"story","sections":[
        {"title":"A","query":"a","key_points":["a"],"evidence_ids":[],"diagrams":[],"branches":["B1","B1"]}],
        "excluded_branches":[{"branch":"B2","reason":"설치 절차는 목적 밖이다"}]}"#;
    let mut plan = decode_generated_outline(&json(response), &labels).ok().expect("plan");
    assert_eq!(
        plan.sections[0].branches,
        vec!["understanding:node:0".to_string()]
    );
    assert_eq!(plan.excluded_branches[0].branch, "understanding:node:1");
    // A section planned from branches needs no anchor from elsewhere.
    assert!(validate_outline(&mut plan, &vec![], Some(0), view.count()).is_ok());
    let counted = branch_coverage(&plan, &view).expect("coverage");
    let coverage = value(&coverage_view(&counted));
    assert_eq!(coverage["covered"], 1);
    assert_eq!(coverage["excluded"][0]["branch"], "B2");
    assert_eq!(coverage["unassigned"][0]["branch"], "B3");
    assert_eq!(coverage["unassigned"].as_array().map(Vec::len), Some(1));
    // What no section took and no exclusion named becomes an issue whether or not
    // the review named it, so the next plan has to decide.
    let judged = issue(
        "minor",
        "missing_topic",
        "B3 is a test harness the purpose does not ask about",
    );
    assert!(unassigned_issues(&counted, &vec![judged]).is_empty());
    // A review that named a longer label has not answered for this one.
    let other = issue(
        "minor",
        "missing_topic",
        "B31 and B3.2 are covered by section two",
    );
    assert_eq!(unassigned_issues(&counted, &vec![other]).len(), 1);
    assert!(names_label("B3 is unassigned", "B3"));
    assert!(names_label("sections cover B3, and B4", "B3"));
    assert!(!names_label("B31 is crowded", "B3"));
    assert!(!names_label("B3.2 is crowded", "B3"));
    // A full stop ends a sentence unless a digit follows it.
    assert!(names_label("The plan omits B3.", "B3"));
    assert!(names_label("Nothing covers B3. Add a section.", "B3"));
    assert!(names_label("The plan omits B3.2.", "B3.2"));
    assert!(!names_label("The plan omits B3.21.", "B3.2"));
    let raised = unassigned_issues(&counted, &vec![]);
    assert_eq!(raised.len(), 1);
    assert_eq!(raised[0].severity, "major");
    assert_eq!(raised[0].code, "unassigned_branch");
    assert!(raised[0].message.contains("B3"), "{}", raised[0].message);
    // A branch cannot be explained and excluded at once.
    let contradiction = refused_plan(
        r#"{"reader_goal":"goal","storyline":"story","sections":[
        {"title":"A","query":"a","key_points":["a"],"evidence_ids":[],"diagrams":[],"branches":["B1","B2"]}],
        "excluded_branches":[{"branch":"B2","reason":"설치 절차는 목적 밖이다"}]}"#,
        &labels,
    );
    assert!(contradiction.contains("B2"), "{contradiction}");
    assert!(contradiction.contains("excluded_branches"), "{contradiction}");

    let error = refused_plan(
        r#"{"reader_goal":"goal","storyline":"story","sections":[
        {"title":"A","query":"a","key_points":["a"],"evidence_ids":[],"diagrams":[],"branches":["B9"]}]}"#,
        &labels,
    );
    assert!(
        error.contains("B9") && error.contains("sections[0]"),
        "{error}"
    );
    let unreasoned = json(
        r#"{"reader_goal":"goal","storyline":"story","sections":[],
        "excluded_branches":[{"branch":"B1","reason":""}]}"#,
    );
    assert!(decode_generated_outline(&unreasoned, &labels).is_err());
    // Without branches a section still needs an anchor.
    plan.sections[0].branches.clear();
    assert!(validate_outline(&mut plan, &vec![], Some(0), view.count()).is_err());
    // Stored plans are shown to a request by label, never by node key.
    let shown = outline_view(&plan, &labels, &vec![true], OUTLINE_VIEW_BYTES).to_text();
    assert!(!shown.contains("understanding:node:"), "{shown}");
    // A plan made without a branch view keeps no branches it was not shown.
    let plain = decode_generated_outline(&json(response), &vec![]).ok().expect("plan");
    assert!(plain.sections[0].branches.is_empty() && plain.excluded_branches.is_empty());
    let none = BranchView {
        branches: vec![],
        groups: vec![],
    };
    assert!(branch_coverage(&plain, &none).is_none());
}

/// A division, read from JSON.
fn division(text: &str) -> ChaptersDraft {
    division_from_json(&json(text)).expect("division")
}

fn chapter(range: std::ops::Range<usize>) -> String {
    let title = format!("장 {}", range.start);
    let branches: Vec<String> = range.map(|i| format!("\"B{}\"", i + 1)).collect();
    format!(
        r#"{{"title":"{title}","summary":"요약","branches":[{}]}}"#,
        branches.join(",")
    )
}

/// What is told of a division that is refused.
fn refused_division(draft: &ChaptersDraft, view: &BranchView) -> String {
    let error = decode_chapters(draft, view).err().expect("an invalid division");
    chapter_message(&error, draft, view)
}

#[test]
fn a_large_source_is_divided_into_chapters_that_account_for_every_branch() {
    let view = BranchView {
        branches: (0..40).map(|i| test_branch(i, 2, 3)).collect(),
        groups: (0..5)
            .map(|g| Group {
                label: format!("G{}", g + 1),
                topics: vec!["그룹 주제".into()],
                members: (g * 8..g * 8 + 8).collect(),
            })
            .collect(),
    };
    assert!(view.chapters_needed());
    // The chapter view names every branch within one budget.
    let shown = group_view(&view);
    assert!(size(&shown) <= BRANCH_VIEW_BYTES);
    let groups = values(&shown);
    assert_eq!(
        groups
            .iter()
            .map(|g| g["branches"].as_array().map_or(0, Vec::len))
            .sum::<usize>(),
        40
    );
    let complete = division(&format!(
        r#"{{"reader_goal":"goal","storyline":"story","chapters":[{},{}],
        "excluded_branches":[{{"branch":"B40","reason":"테스트 도구는 목적 밖이다"}}]}}"#,
        chapter(0..20),
        chapter(20..39)
    ));
    let chapters = decode_chapters(&complete, &view).ok().expect("division");
    assert_eq!(chapters.chapters[1].branches.len(), 19);
    // A branch in no chapter and not excluded is named, not silently lost.
    let missing = division(&format!(
        r#"{{"reader_goal":"goal","storyline":"story","chapters":[{},{}],"excluded_branches":[]}}"#,
        chapter(0..20),
        chapter(20..38)
    ));
    let error = refused_division(&missing, &view);
    assert!(error.contains("B39") && error.contains("B40"), "{error}");
    // A branch in two chapters is rejected.
    let twice = division(&format!(
        r#"{{"reader_goal":"goal","storyline":"story","chapters":[{},{}],"excluded_branches":[]}}"#,
        chapter(0..21),
        chapter(20..40)
    ));
    assert!(decode_chapters(&twice, &view).is_err());
    // Sections and diagrams are shared by branch count without exceeding the
    // document's limits.
    let sections = chapter_shares(64, &vec![20, 19, 1]);
    assert!(sections.iter().sum::<usize>() <= 64 && sections.iter().all(|s| *s >= 1));
    assert!(sections[0] > sections[2]);
    assert_eq!(chapter_shares(3, &vec![1, 1, 1, 1]).iter().sum::<usize>(), 4);
    let diagrams = diagram_shares(5, &vec![20, 19, 1]);
    assert_eq!(diagrams.iter().sum::<u32>(), 5);
    assert_eq!(diagram_shares(0, &vec![3, 3]), vec![0, 0]);
    let instruction = chapters_instruction();
    assert!(instruction.contains("exactly one chapter") && !instruction.contains("{MAX_"));
    // A chapter can take a whole group by label; a branch named on its own leaves
    // the group for the chapter that names it; a group can be excluded whole.
    let by_group = division(
        r#"{"reader_goal":"goal","storyline":"story",
        "chapters":[{"title":"앞","summary":"요약","groups":["G1","G2"],"branches":["B20"]},
                    {"title":"뒤","summary":"요약","groups":["G3","G4"]}],
        "excluded_branches":[{"branch":"G5","reason":"테스트 도구는 목적 밖이다"},{"branch":"B1","reason":"예제는 목적 밖이다"}]}"#,
    );
    let chapters = decode_chapters(&by_group, &view).ok().expect("division");
    let first: HashSet<&str> = chapters.chapters[0]
        .branches
        .iter()
        .map(String::as_str)
        .collect();
    assert!(
        first.contains("understanding:node:19"),
        "B20 moved to the chapter naming it"
    );
    assert!(
        !first.contains("understanding:node:0"),
        "B1 excluded from its group"
    );
    assert_eq!(chapters.chapters[1].branches.len(), 15);
    assert_eq!(chapters.excluded_branches.len(), 9);
    // Branches of a chapter stay in reading order.
    assert!(chapters.chapters[0]
        .branches
        .windows(2)
        .all(|w| view.index(&w[0]) < view.index(&w[1])));
    for (bad, expected) in [
        (
            r#"{"reader_goal":"g","storyline":"s","chapters":[
            {"title":"a","summary":"s","groups":["G1","G2","G3"]},{"title":"b","summary":"s","groups":["G3","G4","G5"]}]}"#,
            "Group G3",
        ),
        (
            r#"{"reader_goal":"g","storyline":"s","chapters":[
            {"title":"a","summary":"s","groups":["G1","G2","G3","G4","G5"]}],
            "excluded_branches":[{"branch":"G2","reason":"r"}]}"#,
            "taken by",
        ),
        (
            r#"{"reader_goal":"g","storyline":"s","chapters":[
            {"title":"a","summary":"s","groups":["G1","G2","G3","G4","G9"]}]}"#,
            "G9",
        ),
    ] {
        let error = refused_division(&division(bad), &view);
        assert!(error.contains(expected), "{error}");
    }
    // Each chapter is planned sixteen branches to a request.
    let big = Chapters {
        chapters: vec![Chapter {
            title: "전체".into(),
            summary: "요약".into(),
            branches: view.branches.iter().rev().map(|b| b.key.clone()).collect(),
        }],
        excluded_branches: vec![],
        reader_goal: "g".into(),
        storyline: "s".into(),
    };
    let batches = chapter_batches(&big, &view);
    assert_eq!(
        batches.iter().map(|b| b.branches.len()).collect::<Vec<_>>(),
        [16, 16, 8]
    );
    assert_eq!((batches[2].part, batches[2].parts), (2, 3));
    assert_eq!(batches[0].branches[0], "understanding:node:0");
}

#[test]
fn every_rule_of_a_division_is_named() {
    let view = BranchView {
        branches: (0..2).map(|i| test_branch(i, 1, 1)).collect(),
        groups: vec![],
    };
    for (bad, expected) in [
        (r#"{"reader_goal":"g","storyline":"s","chapters":[]}"#, "Supply 1-16 chapters"),
        (
            r#"{"reader_goal":"","storyline":"s","chapters":[{"title":"a","summary":"s","branches":["B1"]}]}"#,
            "Supply a bounded reader_goal and storyline",
        ),
        (
            r#"{"reader_goal":"g","storyline":"s","chapters":[{"title":"a","summary":"s","branches":["B1"]},{"title":" A ","summary":"s","branches":["B2"]}]}"#,
            "chapters[1] needs a distinct title under 300 bytes and a summary under 1500 bytes",
        ),
        (
            r#"{"reader_goal":"g","storyline":"s","chapters":[{"title":"a","summary":"s","branches":["B7"]}]}"#,
            "chapters[0].branches names \"B7\", which is neither a group nor a branch label in source_groups",
        ),
        (
            r#"{"reader_goal":"g","storyline":"s","chapters":[{"title":"a","summary":"s","branches":["B1"]},{"title":"b","summary":"s","branches":["B1"]}]}"#,
            "Branch B1 is named in both \"a\" and \"b\"; name each branch in one chapter",
        ),
        (
            r#"{"reader_goal":"g","storyline":"s","chapters":[{"title":"a","summary":"s","branches":["B1","B2"]}],"excluded_branches":[{"branch":"B2","reason":"r"}]}"#,
            "Branch B2 is named in \"a\" and excluded; choose one",
        ),
        (
            r#"{"reader_goal":"g","storyline":"s","chapters":[{"title":"a","summary":"s","branches":["B1"]}],"excluded_branches":[{"branch":"X","reason":"r"}]}"#,
            "excluded_branches[0] names \"X\", which is neither a group nor a branch label in source_groups",
        ),
        (
            r#"{"reader_goal":"g","storyline":"s","chapters":[{"title":"a","summary":"s","branches":["B1"]}],"excluded_branches":[{"branch":"B2","reason":""}]}"#,
            "excluded_branches[0] needs a short reason tied to the purpose",
        ),
        (
            r#"{"reader_goal":"g","storyline":"s","chapters":[{"title":"a","summary":"s","branches":["B1"]}]}"#,
            "1 branches are in no chapter and not excluded: B2. Give each to a chapter, by group or by label, or exclude it with a reason",
        ),
        (
            r#"{"reader_goal":"g","storyline":"s","chapters":[{"title":"a","summary":"s","branches":["B1","B2"]},{"title":"b","summary":"s"}]}"#,
            "chapters[1] (\"b\") ends up with no branch; give it groups or branches, or remove it",
        ),
    ] {
        assert_eq!(refused_division(&division(bad), &view), expected);
    }
}

#[test]
fn a_large_branch_is_split_into_parts_and_judged_part_by_part() {
    let mut large = test_branch(0, 8, 2);
    large.parts = (0..3)
        .map(|i| Part {
            label: format!("B1.{}", i + 1),
            key: format!("understanding:node:0.{i}"),
            topics: vec![format!("부분 {i}")],
            files: 2,
        })
        .collect();
    let view = BranchView {
        branches: vec![large, test_branch(1, 2, 2)],
        groups: vec![],
    };
    let rendered = values(&branch_view(&level(&view.branches)));
    assert_eq!(rendered[0]["parts"][2]["branch"], "B1.3");
    // A full single request - sixteen branches of four parts, every topic a real
    // sentence - still carries every part inside the budget.
    let dense: Vec<Branch> = (0..CHAPTER_BRANCHES)
        .map(|i| {
            let mut b = test_branch(i, 30, MAX_FINDINGS);
            for f in &mut b.findings {
                f.topic = "요청 처리와 취소 전파를 담당하는 실행 흐름".into();
            }
            b.parts = (0..4)
                .map(|k| Part {
                    label: format!("B{}.{}", i + 1, k + 1),
                    key: format!("understanding:node:{i}.{k}"),
                    topics: vec!["하위 흐름의 입력 검증과 결과 반환".into(); 12],
                    files: 8,
                })
                .collect();
            b
        })
        .collect();
    let shown = branch_view(&level(&dense));
    assert!(size(&shown) <= BRANCH_VIEW_BYTES);
    let dense_view = values(&shown);
    assert!(
        dense_view
            .iter()
            .all(|b| b["parts"].as_array().is_some_and(|p| p.len() == 4)),
        "{dense_view:?}"
    );
    let labels = view.keys_by_label();
    assert!(labels
        .iter()
        .any(|l| l.label == "B1.2" && l.key == "understanding:node:0.1"));
    assert_eq!(
        view.owner("understanding:node:0.1")
            .map(|i| view.branches[i].label.as_str()),
        Some("B1")
    );
    let response = r#"{"reader_goal":"goal","storyline":"story","sections":[
        {"title":"A","query":"a","key_points":["a"],"evidence_ids":[],"diagrams":[],"branches":["B1.1"]},
        {"title":"B","query":"b","key_points":["b"],"evidence_ids":[],"diagrams":[],"branches":["B1.3","B2"]}],
        "excluded_branches":[]}"#;
    let plan = decode_generated_outline(&json(response), &labels).ok().expect("plan");
    let coverage = value(&coverage_view(&branch_coverage(&plan, &view).expect("coverage")));
    // The part nobody took is named, not hidden inside a covered branch.
    assert_eq!(coverage["covered"], 2);
    assert_eq!(coverage["unassigned"].as_array().map(Vec::len), Some(1));
    assert_eq!(coverage["unassigned"][0]["branch"], "B1.2");
    assert!(coverage["crowded_sections"]
        .as_array()
        .is_some_and(Vec::is_empty));
    // A section that takes many branches at once is named for review.
    let wide = BranchView {
        branches: (0..6).map(|i| test_branch(i, 3, 1)).collect(),
        groups: vec![],
    };
    let crowded = r#"{"reader_goal":"goal","storyline":"story","sections":[
        {"title":"전부","query":"q","key_points":["k"],"evidence_ids":[],"diagrams":[],"branches":["B1","B2","B3","B4"]},
        {"title":"나머지","query":"q","key_points":["k"],"evidence_ids":[],"diagrams":[],"branches":["B5","B6"]}]}"#;
    let mut plan = decode_generated_outline(&json(crowded), &wide.keys_by_label()).ok().expect("plan");
    assert!(validate_outline(&mut plan, &vec![], None, wide.count()).is_ok());
    let coverage = value(&coverage_view(&branch_coverage(&plan, &wide).expect("coverage")));
    let listed = coverage["crowded_sections"].as_array().expect("crowded");
    assert_eq!(listed.len(), 1);
    assert_eq!(listed[0]["title"], "전부");
    assert_eq!(listed[0]["file_count"], 12);
    assert_eq!(listed[0]["branches"], parse(r#"["B1","B2","B3","B4"]"#));
    let instruction = plan_instruction();
    assert!(instruction.contains("Choose the smallest number of sections"));
    assert!(instruction.contains("different workflows their own sections"));
}

fn long_section(i: usize) -> String {
    let points: Vec<String> = (0..5).map(|_| format!("\"{}\"", "가".repeat(80))).collect();
    format!(
        r#"{{"title":"섹션 {i} {}","query":"backend/src/runner.rs write_section section_output::write",
            "key_points":[{}],"evidence_ids":[],"diagrams":["흐름"],"branches":["understanding:node:{}"]}}"#,
        "제목".repeat(12),
        points.join(","),
        i % 64
    )
}

fn long_outline(count: usize, goal: &str, story: &str) -> Outline {
    let sections: Vec<String> = (0..count).map(long_section).collect();
    let mut plan = outline(&format!(
        r#"{{"reader_goal":"{goal}","storyline":"{story}","sections":[{}]}}"#,
        sections.join(",")
    ));
    assert!(validate_outline(&mut plan, &vec![], None, None).is_ok());
    plan
}

/// A plan as it is stored.
fn stored(plan: &Outline) -> String {
    let list = |items: &[String]| serde_json::to_string(items).expect("JSON");
    let text = |t: &str| serde_json::to_string(t).expect("JSON");
    let sections: Vec<String> = plan
        .sections
        .iter()
        .map(|s| {
            format!(
                r#"{{"id":{},"title":{},"query":{},"key_points":{},"diagrams":{},"branches":{}}}"#,
                text(&s.id),
                text(&s.title),
                text(&s.query),
                list(&s.key_points),
                list(s.diagrams.as_ref().expect("diagrams")),
                list(&s.branches)
            )
        })
        .collect();
    format!(
        r#"{{"reader_goal":{},"storyline":{},"sections":[{}]}}"#,
        text(&plan.reader_goal),
        text(&plan.storyline),
        sections.join(",")
    )
}

#[test]
fn reviews_and_corrections_see_a_bounded_plan() {
    let view = BranchView {
        branches: (0..64).map(|i| test_branch(i, 2, 2)).collect(),
        groups: vec![],
    };
    let labels = view.keys_by_label();
    for count in [64usize, 128, 256] {
        let plan = long_outline(count, &"가".repeat(200), &"가".repeat(600));
        let whole = stored(&plan).len();
        let view = outline_view(&plan, &labels, &vec![true; count], OUTLINE_VIEW_BYTES);
        let text = view.to_text();
        let size = text.len();
        assert!(size <= OUTLINE_VIEW_BYTES, "{count} sections: {size} bytes");
        assert!(size * 4 < whole, "{count} sections: {size} of {whole}");
        let shown = value(&view);
        assert_eq!(shown["sections"].as_array().map(Vec::len), Some(count));
        assert!(!text.contains("understanding:node:") && !text.contains("\"query\""));
        // A review names sections by the short id it was shown.
        let ids = vec![shown["sections"][count - 1]["id"]
            .as_str()
            .unwrap_or_default()
            .to_string()];
        let resolved = resolve_section_ids(&ids, &plan).expect("a shown id");
        assert_eq!(resolved[0], plan.sections[count - 1].id);
        assert!(resolve_section_ids(&vec!["".to_string()], &plan).is_none());
        assert!(resolve_section_ids(&vec!["zzzz".to_string()], &plan).is_none());
    }
    // A chapter's correction round sees only its sections and their issues.
    let plan = long_outline(64, "g", "s");
    let feedback = json(&format!(
        r#"{{"previous_plan":{},"issues":[
        {{"severity":"major","code":"overlap","message":"앞 장 문제","section_ids":["{}"],"query":""}},
        {{"severity":"major","code":"scope","message":"뒤 장 문제","section_ids":["{}"],"query":""}},
        {{"severity":"minor","code":"order","message":"전체 문제","section_ids":[],"query":""}}]}}"#,
        stored(&plan),
        plan.sections[1].id,
        plan.sections[40].id
    ));
    let scope: Vec<String> = (0..16).map(|i| format!("understanding:node:{i}")).collect();
    let scoped = value(&feedback_view(&feedback, &view, Some(&scope), OUTLINE_VIEW_BYTES / 2));
    assert_eq!(
        scoped["previous_plan"]["sections"].as_array().map(Vec::len),
        Some(16)
    );
    let messages: Vec<&str> = scoped["issues"]
        .as_array()
        .into_iter()
        .flatten()
        .filter_map(|i| i["message"].as_str())
        .collect();
    assert_eq!(messages, ["앞 장 문제", "전체 문제"]);
    let whole = value(&feedback_view(&feedback, &view, None, OUTLINE_VIEW_BYTES));
    assert_eq!(whole["issues"].as_array().map(Vec::len), Some(3));
    assert_eq!(
        feedback_view(&json("{}"), &view, None, OUTLINE_VIEW_BYTES).to_text(),
        "{}"
    );
}

#[test]
fn a_chapter_request_carries_only_its_own_files() {
    let inside = evidence("/project/api/handler.rs", "fn handle() {}");
    let outside = evidence("/project/ui/view.ts", "function view() {}");
    let runtime = |id: &str, topic: &str| finding(topic, "관찰", FindingKind::Runtime, &[id]);
    let discovery = Discovery {
        brief: SourceBrief {
            findings: vec![runtime(&inside.id, "api"), runtime(&outside.id, "ui")],
            uncertainties: vec!["미확인".into()],
            followup_queries: vec![],
        },
        details: vec![runtime(&outside.id, "ui detail")],
        evidence: vec![inside.clone(), outside],
        validation_unresolved: false,
    };
    let files = vec!["api/handler.rs".to_string()];
    let scoped = scope_discovery(&discovery, &files, &vec!["/project".to_string()]);
    assert_eq!(scoped.evidence.len(), 1);
    assert_eq!(scoped.evidence[0].id, inside.id);
    assert_eq!(scoped.brief.findings.len(), 1);
    assert_eq!(scoped.brief.findings[0].topic, "api");
    assert!(scoped.details.is_empty());
}

fn node(key: &str, children: Vec<String>) -> TreeNode {
    TreeNode {
        key: key.into(),
        files: vec![],
        children,
        findings: vec![],
        details: vec![],
        spans: vec![],
    }
}

#[test]
fn branches_come_from_one_level_and_group_under_a_narrower_one() {
    // root -> 4 groups -> 5 branches each -> leaves
    let mut nodes = vec![];
    let mut levels: Vec<Vec<String>> = vec![vec!["root".into()], vec![], vec![], vec![]];
    for g in 0..4 {
        let mut members = vec![];
        for b in 0..5 {
            let leaves: Vec<String> = (0..2).map(|l| format!("l{g}{b}{l}")).collect();
            for leaf in &leaves {
                nodes.push(node(leaf, vec![]));
                levels[3].push(leaf.clone());
            }
            let key = format!("b{g}{b}");
            nodes.push(node(&key, leaves));
            levels[2].push(key.clone());
            members.push(key);
        }
        let key = format!("g{g}");
        nodes.push(node(&key, members));
        levels[1].push(key);
    }
    nodes.push(node("root", levels[1].clone()));
    let tree = TreeIndex {
        root: Some("root".into()),
        leaves: vec![],
        nodes,
    };
    assert_eq!(
        levels.iter().map(Vec::len).collect::<Vec<_>>(),
        [1, 4, 20, 40]
    );
    let chosen = branch_level(&levels, 20).unwrap_or(0);
    assert_eq!(levels[chosen].len(), 20);
    let branches: Vec<Branch> = levels[chosen]
        .iter()
        .enumerate()
        .map(|(i, key)| Branch {
            key: key.clone(),
            ..test_branch(i, 1, 0)
        })
        .collect();
    let groups = branch_groups(&tree, &levels, chosen, &branches);
    assert_eq!(groups.len(), 4);
    assert!(groups.iter().all(|g| g.members.len() == 5));
    assert_eq!(groups[1].members, vec![5, 6, 7, 8, 9]);
    assert_eq!(branch_level(&vec![vec!["root".into()]], 8), None);
}

#[test]
fn an_uncitable_item_is_named_so_a_repair_knows_which_one_to_fix() {
    let source = evidence("/project/main.py", "def process(): return 1");
    let brief = brief(vec![
        finding("첫 관찰", "근거가 있다", FindingKind::Context, &[&source.id]),
        finding("근거 없는 관찰", "근거가 없다", FindingKind::Context, &[]),
    ]);
    let error = refused(&brief, &vec![source]);
    // A bare count leaves the next attempt guessing which of a dozen items was
    // empty, so it repeats the mistake until the retries run out.
    assert!(error.contains("근거 없는 관찰"), "{error}");
    assert!(error.contains("supplied 0"), "{error}");
    assert!(!error.contains("첫 관찰"), "{error}");
}

#[test]
fn implementation_alias_is_runtime_and_still_requires_implementation_evidence() {
    let code = evidence("/project/main.rs", "fn main() {}");
    let xml = evidence("/project/mapper.xml", "<mapper />");
    for (source, valid) in [(code, true), (xml, false)] {
        let brief = brief_from_json(&json(&format!(
            r#"{{"findings":[{{"topic":"entry","observation":"A runtime claim",
                "kind":"implementation","evidence_ids":["{}"]}}],
                "uncertainties":[],"followup_queries":[]}}"#,
            source.id
        )))
        .expect("brief");
        assert!(matches!(brief.findings[0].kind, FindingKind::Runtime));
        assert_eq!(value(&brief_json(&brief))["findings"][0]["kind"], "runtime");
        let sources = vec![source];
        assert_eq!(accepted(&brief, &sources, true), valid);
        if !valid {
            assert!(refused(&brief, &sources)
                .starts_with("Finding \"entry\" cites only context evidence ([\"/project/mapper.xml\"]);"));
        }
    }
    assert!(finding_kind("unknown").is_none());
}

#[test]
fn an_answer_without_the_form_that_was_asked_for_is_none() {
    for bad in [
        r#"{"findings":[],"uncertainties":[]}"#,
        r#"{"findings":{},"uncertainties":[],"followup_queries":[]}"#,
        r#"{"findings":[{}],"uncertainties":[],"followup_queries":[]}"#,
        r#"{"findings":[],"uncertainties":[1],"followup_queries":[]}"#,
        r#"{"findings":[{"topic":"t","observation":"o","kind":"other","evidence_ids":[]}],"uncertainties":[],"followup_queries":[]}"#,
    ] {
        assert!(brief_from_json(&json(bad)).is_none(), "{bad}");
    }
    assert!(division_from_json(&json(r#"{"chapters":[],"storyline":"s"}"#)).is_none());
    let review = review_from_json(&json(
        r#"{"issues":[{"severity":"major","code":"c","message":"m","section_ids":["x"]}]}"#,
    ))
    .expect("review");
    assert_eq!(review.issues[0].section_ids, ["x"]);
    assert!(review.issues[0].query.is_empty());
    assert!(review_from_json(&json(r#"{"issues":[{"severity":"major"}]}"#)).is_none());
}

#[test]
fn an_answer_is_read_through_what_stands_around_it() {
    let brief = r#"{"findings":[],"uncertainties":["u"],"followup_queries":[]}"#;
    for text in [
        brief.to_string(),
        format!("```json\n{brief}\n```"),
        format!("Here it is: {brief} Done."),
        format!("[{brief}]"),
        brief.replace("[\"u\"]", "[\"u said \"so\" twice\"]"),
    ] {
        let read = decode_brief(&text);
        assert!(read.is_some_and(|b| b.uncertainties.len() == 1), "{text}");
    }
    assert!(decode_brief("nothing").is_none());
    assert!(decode_review("x {\"issues\":[]} y").is_some_and(|r| r.issues.is_empty()));
    assert!(decode_division(r#"{"chapters":[],"reader_goal":"g","storyline":"s"}"#).is_some());
    assert!(decode_division("{}").is_none());
}

#[test]
fn a_section_that_cannot_be_shown_its_own_scope_is_reported_however_coherent() {
    let plan = outline(
        r#"{"reader_goal":"g","storyline":"s","sections":[{
        "id":"37d5c3b904b0aaaabbbbccccdddd","title":"벡터 검색·임베딩 동기화·지식 데이터 모델",
        "key_points":["a"],"query":"q","evidence_ids":[],"diagrams":[],
        "branches":["B1","B2","B3","B4","B5","B6"]}]}"#,
    );
    let section: &SectionPlan = &plan.sections[0];
    // What fits is the checklist its writer is given; what does not is what the
    // reading found and the document will not be told.
    let issue = scope_issue(section, 14, 61).expect("a mostly deferred scope is an issue");
    assert_eq!(issue.severity, "major");
    assert_eq!(issue.code, "section_scope_not_shown");
    assert_eq!(issue.section_ids, vec![section.id.clone()]);
    assert!(issue.message.contains("61"), "{}", issue.message);
    assert!(issue.message.contains('6'), "{}", issue.message);
    // A section whose scope reaches its writer is left alone, crowded or not.
    assert!(scope_issue(section, 40, 3).is_none());
    assert!(scope_issue(section, 12, 12).is_none());
}

#[test]
fn a_reading_past_the_requested_count_is_kept_when_it_is_valid_otherwise() {
    let code = evidence("/project/a.py", "def receive(x): return finish(x)");
    let sources = vec![code.clone()];
    let brief_of = |count: usize| -> SourceBrief {
        brief(
            (0..count)
                .map(|n| {
                    finding(
                        &format!("topic {n}"),
                        "receive passes input to finish",
                        FindingKind::Runtime,
                        &[&code.id[..8]],
                    )
                })
                .collect(),
        )
    };
    // What the request asks for, and two past it: the second is a reading that
    // said more true things, not a defect, so it is not sent back.
    assert!(accepted(&brief_of(MAX_FINDINGS), &sources, true));
    assert!(accepted(&brief_of(MAX_FINDINGS + 2), &sources, true));
    assert!(accepted(&brief_of(ACCEPTED_FINDINGS), &sources, true));
    // Past the ceiling the reading has stopped grouping at all, and the error
    // names both numbers so the retry knows which one it missed.
    let error = refused(&brief_of(ACCEPTED_FINDINGS + 1), &sources);
    assert!(error.contains(&ACCEPTED_FINDINGS.to_string()), "{error}");
    assert!(error.contains(&MAX_FINDINGS.to_string()), "{error}");
    // A reading with nothing in it is still nothing.
    assert!(!accepted(&brief_of(0), &sources, true));

    // Unresolved links follow the same split, and the refusal says which rule
    // broke rather than "Invalid uncertainties".
    let gaps = |count: usize, size: usize| -> SourceBrief {
        let mut brief = brief_of(1);
        brief.uncertainties = (0..count).map(|n| format!("{n}{}", "가".repeat(size))).collect();
        brief
    };
    assert!(accepted(&gaps(MAX_UNCERTAINTIES + 4, 1), &sources, true));
    assert!(accepted(&gaps(ACCEPTED_UNCERTAINTIES, 1), &sources, true));
    let error = refused(&gaps(ACCEPTED_UNCERTAINTIES + 1, 1), &sources);
    assert!(error.contains(&(ACCEPTED_UNCERTAINTIES + 1).to_string()), "{error}");
    assert!(error.contains(&MAX_UNCERTAINTIES.to_string()), "{error}");
    // One too long is still refused, and the lengths say which.
    let long = refused(&gaps(1, 600), &sources);
    assert!(long.contains("1500"), "{long}");
    assert!(long.contains("lengths"), "{long}");

    // Told its summary was over budget, a reading groups passages under one
    // observation and cites them together - what the instruction asks for. The
    // citation target must not reject it for obeying.
    let passages: Vec<Evidence> = (0..ACCEPTED_EVIDENCE_IDS + 1)
        .map(|n| evidence(&format!("/project/p{n}.py"), &format!("def f{n}(): return {n}")))
        .collect();
    let grouped = |count: usize| -> SourceBrief {
        let ids: Vec<&str> = passages[..count].iter().map(|e| e.id.as_str()).collect();
        brief(vec![finding(
            "픽스처 묶음",
            "같은 계약을 여러 원문이 함께 뒷받침한다",
            FindingKind::Runtime,
            &ids,
        )])
    };
    assert!(accepted(&grouped(MAX_EVIDENCE_IDS), &passages, true));
    assert!(accepted(&grouped(MAX_EVIDENCE_IDS + 4), &passages, true));
    assert!(accepted(&grouped(ACCEPTED_EVIDENCE_IDS), &passages, true));
    let error = refused(&grouped(ACCEPTED_EVIDENCE_IDS + 1), &passages);
    assert!(error.contains(&ACCEPTED_EVIDENCE_IDS.to_string()), "{error}");
    assert!(error.contains(&MAX_EVIDENCE_IDS.to_string()), "{error}");
}

#[test]
fn discovery_requires_real_unambiguous_implementation_anchors() {
    let code = evidence("/project/a.py", "def receive(x): return finish(x)");
    let readme = evidence("/project/README.md", "The application returns a result.");
    let mut asked = SourceBrief {
        findings: vec![finding(
            "entry",
            "receive passes input to finish",
            FindingKind::Runtime,
            &[&code.id[..8]],
        )],
        uncertainties: vec!["finish implementation is missing".into()],
        followup_queries: vec!["finish".into(), "".into(), "  ".into()],
    };
    let sources = vec![code.clone(), readme.clone()];
    let flags = implementation(&sources);
    let mut brief = validate_brief(&asked, &sources, &flags, false).ok().expect("brief");
    assert_eq!(brief.findings[0].evidence_ids[0], code.id);
    brief
        .followup_queries
        .extend(["input", "output", "cancel"].map(String::from));
    assert!(validate_brief(&brief, &sources, &flags, false).is_err());
    brief = validate_brief(&brief, &sources, &flags, true).ok().expect("brief");
    assert!(brief.followup_queries.is_empty());
    assert!(brief.uncertainties.iter().any(|s| s == "finish"));
    brief.followup_queries.clear();
    brief.findings[0].evidence_ids = vec![readme.id];
    assert!(validate_brief(&brief, &sources, &flags, true).is_err());
    brief.findings[0].kind = FindingKind::Context;
    assert!(validate_brief(&brief, &sources, &flags, true).is_ok());
    brief.findings[0].evidence_ids = vec!["ffffffff".into()];
    assert!(validate_brief(&brief, &sources, &flags, true).is_err());
    let mut collision = code.clone();
    collision.id.replace_range(
        8..9,
        if &code.id[8..9] == "0" { "1" } else { "0" },
    );
    brief.findings[0].evidence_ids = vec![code.id[..8].into()];
    assert!(validate_brief(&brief, &vec![code, collision], &vec![true, true], true).is_err());
    asked.findings[0].topic = String::new();
    assert_eq!(
        validate_brief(&asked, &sources, &flags, true).err(),
        Some(BriefFault::Text(0))
    );
}

#[test]
fn citations_name_one_passage_each() {
    let a = evidence("a.rs", "a");
    let b = evidence("b.rs", "b");
    let known = vec![a.clone(), b.clone()];
    let ids = |list: &[&str]| -> Vec<String> { list.iter().map(|i| i.to_string()).collect() };
    assert_eq!(
        resolve_ids(&ids(&[&a.id[..8], &b.id[..12]]), &known, 2).ok(),
        Some(vec![a.id.clone(), b.id.clone()])
    );
    assert_eq!(resolve_ids(&ids(&[]), &known, 2).err(), Some(IdFault::Count));
    assert_eq!(
        resolve_ids(&ids(&[&a.id, "short"]), &known, 2).err(),
        Some(IdFault::NotAnId(1))
    );
    assert_eq!(
        resolve_ids(&ids(&["00000000"]), &known, 2).err(),
        Some(IdFault::Unknown(0))
    );
    assert_eq!(
        resolve_ids(&ids(&[&a.id, &a.id[..9]]), &known, 2).err(),
        Some(IdFault::Repeated(1))
    );
}

fn generated_plan(count: usize, prerequisites: &dyn Fn(usize) -> String, ids: &str) -> String {
    let sections: Vec<String> = (0..count)
        .map(|index| {
            format!(
                r#"{{"title":"단계 {n}","query":"process","reader_question":"What does step {n} do?","handoff":"{}","diagrams":[],"evidence_ids":[{ids}]{}}}"#,
                if index + 1 < count { "Use the result in the next step" } else { "" },
                prerequisites(index),
                n = index + 1
            )
        })
        .collect();
    format!(
        r#"{{"reader_goal":"Understand the workflow","storyline":"Prepare, process, inspect","terminology":[],"sections":[{}]}}"#,
        sections.join(",")
    )
}

/// Each section needs the one before it.
fn chained(index: usize) -> String {
    if index > 0 {
        format!(r#","prerequisite_titles":["단계 {index}"]"#)
    } else {
        r#","prerequisite_titles":[]"#.to_string()
    }
}

#[test]
fn generated_title_prerequisites_resolve_through_32_sections() {
    let source = evidence("/project/main.py", "def process(): return 1");
    let text = generated_plan(
        32,
        &|i| {
            if i == 31 {
                r#","prerequisite_titles":["단계 1","단계 31","단계 1"]"#.to_string()
            } else {
                chained(i)
            }
        },
        &format!("\"{}\"", source.id),
    );
    let mut plan = decode_generated_outline(&json(&text), &vec![]).ok().expect("plan");
    assert!(plan.sections[0].depends_on.is_empty());
    assert_eq!(plan.sections[1].depends_on, vec![0]);
    assert_eq!(plan.sections[30].depends_on, vec![29]);
    assert_eq!(plan.sections[31].depends_on, vec![0, 30]);
    assert!(validate_outline(&mut plan, &vec![source], Some(0), None).is_ok());
    assert_eq!(plan.sections[31].depends_on, vec![0, 30]);
}

#[test]
fn generated_dependencies_report_bad_references_without_guessing() {
    for (index, titles, expected) in [
        (0, r#"["단계 1"]"#, "the current section"),
        (0, r#"["단계 2"]"#, "a later section"),
        (1, r#"["missing"]"#, "matches 0 sections"),
        (1, "[0]", "array of exact title strings"),
        (1, "null", "array of exact title strings"),
    ] {
        let text = generated_plan(
            3,
            &|i| {
                if i == index {
                    format!(r#","prerequisite_titles":{titles}"#)
                } else {
                    chained(i)
                }
            },
            "",
        );
        let error = refused_plan(&text, &vec![]);
        assert!(error.contains(expected), "{error}");
        assert!(error.contains(&format!("sections[{index}]")), "{error}");
    }
    let duplicate = generated_plan(
        3,
        &|i| {
            if i == 2 {
                r#","prerequisite_titles":["단계 1"]"#.to_string()
            } else {
                r#","prerequisite_titles":[]"#.to_string()
            }
        },
        "",
    )
    .replace("\"title\":\"단계 2\"", "\"title\":\"단계 1\"");
    let error = refused_plan(&duplicate, &vec![]);
    assert!(error.contains("matches 2 sections"), "{error}");
}

/// What is told of a plan that is refused.
fn refused_outline(plan: &mut Outline, sources: &Vec<Evidence>) -> String {
    let fault = validate_outline(plan, sources, Some(0), None)
        .err()
        .expect("a plan that must not validate");
    outline_message(&fault, plan, sources, None)
}

#[test]
fn legacy_generated_dependencies_deduplicate_but_do_not_shift_numbering() {
    let source = evidence("/project/main.py", "def process(): return 1");
    let text = generated_plan(
        3,
        &|i| {
            if i == 1 {
                r#","depends_on":[0,0]"#.to_string()
            } else {
                String::new()
            }
        },
        &format!("\"{}\"", source.id),
    );
    let mut plan = decode_generated_outline(&json(&text), &vec![]).ok().expect("plan");
    assert_eq!(plan.sections[1].depends_on, vec![0]);
    let sources = vec![source];
    assert!(validate_outline(&mut plan, &sources, Some(0), None).is_ok());
    for (reference, reason) in [
        (1, "a self-reference"),
        (2, "a forward reference"),
        (3, "outside the section array"),
    ] {
        plan.sections[1].depends_on = vec![reference];
        let error = refused_outline(&mut plan, &sources);
        assert!(error.contains("sections[1]"), "{error}");
        assert!(error.contains(reason), "{error}");
    }
}

#[test]
fn dependency_repair_includes_middle_sections_of_long_responses() {
    let text = generated_plan(
        32,
        &|i| format!(r#"{},"key_points":["{}"]"#, chained(i), "detail".repeat(1000)),
        "",
    );
    let context = value(&dependency_repair_context(&text));
    assert_eq!(context.as_array().map(Vec::len), Some(32));
    assert_eq!(context[16]["title"], "단계 17");
    assert_eq!(context[16]["prerequisite_titles"], parse(r#"["단계 16"]"#));
    assert!(context[16].get("key_points").is_none());
}

#[test]
fn plans_reject_forward_prerequisites_duplicate_titles_and_missing_evidence() {
    let source = evidence("/project/a.py", "def receive(x): return finish(x)");
    let id = &source.id[..8];
    let mut plan = outline(&format!(
        r#"{{"reader_goal":"Send input and understand the result","storyline":"Prepare input, then interpret its result","terminology":[],
        "sections":[
            {{"title":"Prepare input","query":"receive","reader_question":"Which input is valid?","handoff":"The validated input can be submitted","diagrams":[],"depends_on":[],"evidence_ids":["{id}"]}},
            {{"title":"Interpret the result","query":"finish","reader_question":"What does the result mean?","handoff":"","diagrams":[],"depends_on":[0],"evidence_ids":["{id}"]}}
        ]}}"#
    ));
    let sources = vec![source.clone()];
    assert!(validate_outline(&mut plan, &sources, Some(0), None).is_ok());
    assert_eq!(plan.sections[0].evidence_ids, vec![source.id.clone()]);
    plan.sections[0].depends_on = vec![1];
    assert!(validate_outline(&mut plan, &sources, None, None).is_err());
    plan.sections[0].depends_on.clear();
    plan.sections[0].handoff.clear();
    assert!(validate_outline(&mut plan, &sources, None, None).is_ok());
    plan.sections[0].handoff = "Valid input".into();
    plan.sections[1].title = "  Prepare   INPUT  ".into();
    assert!(validate_outline(&mut plan, &sources, None, None).is_err());
    plan.sections[1].title = "Interpret result".into();
    plan.sections[1].reader_question = "What does the result mean?".into();
    plan.sections[1].evidence_ids.clear();
    assert!(validate_outline(&mut plan, &sources, None, None).is_err());
}

#[test]
fn an_outline_is_bounded_by_the_branches_it_was_planned_from() {
    let source = evidence("/project/a.py", "def process(): return 1");
    let sources = vec![source.clone()];
    // Read back without its branches, an outline keeps the widest bound.
    for count in [0, 1, 8, 9, 16, 32, SECTIONS_MAX, SECTIONS_MAX + 1] {
        let sections: Vec<String> = (0..count)
            .map(|index| {
                format!(
                    r#"{{"title":"Topic {index}","query":"process","reader_question":"What is step {index}?","handoff":"{}","depends_on":[{}],"diagrams":[],"evidence_ids":["{}"]}}"#,
                    if index + 1 < count { "Result for next step" } else { "" },
                    if index > 0 { (index - 1).to_string() } else { String::new() },
                    source.id
                )
            })
            .collect();
        let mut plan = outline(&format!(
            r#"{{"reader_goal":"Understand processing","storyline":"Follow distinct steps","terminology":[],"sections":[{}]}}"#,
            sections.join(",")
        ));
        let result = validate_outline(&mut plan, &sources, Some(0), None);
        assert_eq!(
            result.is_ok(),
            (1..=SECTIONS_MAX).contains(&count),
            "section count {count}: {result:?}"
        );
        // Planned from four branches, the same outline is held to the floor:
        // sections follow what the source was read in, not a flat number.
        let narrow = validate_outline(&mut plan, &sources, Some(0), Some(4));
        assert_eq!(
            narrow.is_ok(),
            (1..=SECTIONS_WITHOUT_BRANCHES).contains(&count),
            "narrow section count {count}: {narrow:?}"
        );
    }
}

#[test]
fn simple_outlines_require_no_generated_questions_or_ownership() {
    let e = evidence("/project/main.rs", "fn main() {}");
    for count in [1, 2, 32] {
        let sections: Vec<String> = (0..count)
            .map(|i| {
                format!(
                    r#"{{"title":"Topic {i}","query":"main.rs","key_points":["Describe relevant behavior"],"evidence_ids":["{}"],"diagrams":[],"owns_requirement_ids":"obsolete metadata"}}"#,
                    e.id
                )
            })
            .collect();
        let response = format!(
            r#"{{"reader_goal":"Code summary","storyline":"Group related behavior","requirements":"obsolete metadata","requirement_owners":42,"sections":[{}]}}"#,
            sections.join(",")
        );
        let mut plan = decode_generated_outline(&json(&response), &vec![]).ok().expect("plan");
        assert!(validate_outline(&mut plan, &vec![e.clone()], Some(0), None).is_ok());
        assert!(plan.requirements.is_empty());
        assert!(plan.sections.iter().all(|s| s.reader_question.is_empty()
            && s.handoff.is_empty()
            && s.owns_requirement_ids.is_empty()
            && s.depends_on.is_empty()));
    }
}

#[test]
fn legacy_outlines_still_load() {
    let o = outline(r#"{"sections":[{"title":"Old","query":"old.rs"}]}"#);
    assert!(o.storyline.is_empty());
    assert_eq!(o.sections[0].title, "Old");
}

#[test]
fn source_budget_preserves_whole_passages_and_balances_searches() {
    let a = evidence("/project/a.py", &"준비".repeat(50));
    let b = evidence("/project/b.py", &"결과".repeat(50));
    let c = evidence("/project/c.py", &"오류".repeat(50));
    let size = a.content.len() + a.path.len() + 256;
    let result = pack_evidence(&vec![vec![a.clone(), c], vec![b.clone(), a.clone()]], size * 2);
    assert_eq!(result.len(), 2);
    assert_eq!(result[0].id, a.id);
    assert_eq!(result[1].id, b.id);
    assert_eq!(result[0].content, a.content);
    assert!(pack_evidence(&vec![vec![a]], size - 1).is_empty());
}

#[test]
fn every_rule_of_a_plan_is_named() {
    let source = evidence("/project/a.py", "x");
    let sources = vec![source.clone()];
    let good = || {
        let mut plan = outline(&format!(
            r#"{{"reader_goal":"g","storyline":"s","sections":[{{"title":"A","query":"q","key_points":["k"],"diagrams":[],"evidence_ids":["{}"]}}]}}"#,
            source.id
        ));
        assert!(validate_outline(&mut plan, &sources, Some(0), None).is_ok());
        plan
    };
    let fault = |change: &dyn Fn(&mut Outline)| {
        let mut plan = good();
        change(&mut plan);
        validate_outline(&mut plan, &sources, Some(0), None).err()
    };
    assert_eq!(fault(&|_| {}), None);
    assert_eq!(fault(&|p| p.sections.clear()), Some(OutlineFault::Sections));
    assert_eq!(fault(&|p| p.storyline.clear()), Some(OutlineFault::Framing));
    assert_eq!(fault(&|p| p.terminology = vec!["".into()]), Some(OutlineFault::Terminology));
    assert_eq!(fault(&|p| p.sections[0].id = "a b".into()), Some(OutlineFault::Id(0)));
    assert_eq!(fault(&|p| p.sections[0].key_points.clear()), Some(OutlineFault::KeyPoints(0)));
    assert_eq!(fault(&|p| p.sections[0].query.clear()), Some(OutlineFault::Title(0)));
    assert_eq!(
        fault(&|p| p.sections[0].handoff = "x".repeat(1501)),
        Some(OutlineFault::Context(0))
    );
    assert_eq!(fault(&|p| p.sections[0].diagrams = None), Some(OutlineFault::Diagrams(0)));
    assert_eq!(
        fault(&|p| p.sections[0].diagrams = Some(vec!["d".into()])),
        Some(OutlineFault::DiagramLimit)
    );
    assert_eq!(
        fault(&|p| p.sections[0].branches = vec!["".into()]),
        Some(OutlineFault::Branches(0))
    );
    assert_eq!(
        fault(&|p| p.sections[0].evidence_ids = vec!["zz".into()]),
        Some(OutlineFault::Anchors(0, IdFault::NotAnId(0)))
    );
    assert_eq!(
        fault(&|p| p.excluded_branches = vec![BranchExclusion { branch: "b".into(), reason: "".into() }]),
        Some(OutlineFault::Exclusions)
    );
    assert_eq!(
        fault(&|p| p.sections[0].depends_on = vec![0]),
        Some(OutlineFault::Dependency(0, 0))
    );
}

#[test]
fn requests_for_plans_say_what_was_wrong_before() {
    let view = BranchView {
        branches: (0..2).map(|i| test_branch(i, 1, 1)).collect(),
        groups: vec![],
    };
    let discovery = Discovery {
        brief: brief(vec![]),
        details: vec![],
        evidence: vec![],
        validation_unresolved: false,
    };
    let purpose = Purpose {
        direction: "explain it",
        language: "English",
    };
    let mut asking = Asking::start();
    let first = value(&Json::object(plan_whole(
        &asking,
        &purpose,
        &discovery,
        &view,
        &json("{}"),
        3,
        Some(2),
    )));
    assert_eq!(first["attempt"], 1);
    assert_eq!(first["max_diagrams"], 2);
    assert_eq!(first["purpose"], "explain it");
    assert_eq!(first["source_branches"][1]["branch"], "B2");
    assert!(first["instruction"]
        .as_str()
        .is_some_and(|s| s.ends_with("At most 32 sections for this document. Respect user feedback and preserve valid existing section IDs when supplied.")));
    assert!(first["previous_section_dependencies"].is_null());
    // An answer that is no JSON, one that is no plan, and one that breaks a rule.
    let labels = view.keys_by_label();
    let answer = |asking: &mut Asking, text: &str| {
        accept_plan(&mut asking.repair, text, &labels, &vec![], Some(2), view.count(), 3)
    };
    assert!(matches!(
        answer(&mut asking, "sorry"),
        Err(RejectedPlan::Unreadable(_))
    ));
    assert!(matches!(
        answer(&mut asking, "{\"sections\":1}"),
        Err(RejectedPlan::Unresolved(_))
    ));
    assert!(matches!(
        answer(&mut asking, r#"{"reader_goal":"g","storyline":"s","sections":[]}"#),
        Err(RejectedPlan::Invalid(OutlineFault::Sections, _))
    ));
    assert_eq!(asking.failed("CONTEXT_BUDGET: too large", 1500), Next::Retry);
    assert_eq!((asking.attempts.made, asking.attempts.reductions), (1, 1));
    let second = value(&Json::object(plan_whole(
        &asking,
        &purpose,
        &discovery,
        &view,
        &json("{}"),
        3,
        None,
    )));
    assert_eq!(second["attempt"], 2);
    assert_eq!(second["previous_error"], "CONTEXT_BUDGET: too large");
    assert!(second["max_diagrams"].is_null());
    assert_eq!(second["previous_section_dependencies"], parse("[]"));
    assert!(second["previous_response"].as_str().is_some_and(|s| s.contains("storyline")));
    let plan = answer(
        &mut asking,
        r#"{"reader_goal":"g","storyline":"s","sections":[{"title":"A","query":"q","key_points":["k"],"diagrams":[],"branches":["B1"]}]}"#,
    )
    .ok()
    .expect("plan");
    assert_eq!(plan.revision, 3);
    assert_eq!(plan.sections[0].branches, ["understanding:node:0"]);
    // The review is shown what the plan covers.
    let coverage = branch_coverage(&plan, &view);
    let review = value(&review_outline(&Asking::start(), &purpose, &discovery, &view, &plan, &coverage));
    assert_eq!(review["attempt"], 0);
    assert_eq!(review["branch_coverage"]["covered"], 1);
    assert!(review["coverage_rules"].is_string());
    let bare = value(&review_outline(&Asking::start(), &purpose, &discovery, &view, &plan, &None));
    assert!(bare["coverage_rules"].is_null());
    // Chapters are asked for by group, and their parts with their own branches.
    let chapters = value(&request_chapters(
        &Asking::start(),
        &purpose,
        &discovery.brief,
        &view,
        &json("{}"),
    ));
    assert_eq!(chapters["phase"], "outline_chapters");
    let batch = Batch {
        chapter: 0,
        part: 1,
        parts: 2,
        branches: vec!["understanding:node:1".into(), "gone".into()],
    };
    let list = vec![Chapter {
        title: "T".into(),
        summary: "S".into(),
        branches: vec![],
    }];
    let share = PartShare {
        sections: 4,
        diagrams: Some(1),
    };
    let part = value(&Json::object(plan_chapter(
        &Asking::start(),
        &purpose,
        &discovery,
        &view,
        &list,
        &batch,
        &share,
        &vec!["Earlier".to_string()],
        &json("{}"),
        3,
    )));
    assert_eq!(part["chapter"], parse(r#"{"index":0,"summary":"S","title":"T"}"#));
    assert_eq!(part["part"], parse(r#"{"part":2,"parts":2}"#));
    assert_eq!(part["source_branches"].as_array().map(Vec::len), Some(1));
    assert_eq!(part["earlier_section_titles"], parse(r#"["Earlier"]"#));
    assert!(part["instruction"]
        .as_str()
        .is_some_and(|s| s.ends_with(" At most 4 sections for this part.")));
    let scope = part_scope(&view, &batch);
    assert_eq!(scope.labels.len(), 1);
    assert_eq!(scope.labels[0].label, "B2");
    assert_eq!(scope.files, ["src/m0.rs"]);
}

#[test]
fn a_stored_plan_keeps_its_requirements() {
    let plan = outline(r#"{"sections":[],"requirements":[{"id":"r1","question":"why"},{"id":"r2","question":"how"}],"revision":3}"#);
    let kept: Vec<(&str, &str)> =
        plan.requirements.iter().map(|r| (r.id.as_str(), r.question.as_str())).collect();
    assert_eq!(kept, vec![("r1", "why"), ("r2", "how")]);
    assert_eq!(plan.revision, 3);
    assert!(outline_from_json(&json(r#"{"sections":[],"requirements":[{"id":"r1"}]}"#)).is_none());
    assert!(outline_from_json(&json(r#"{"sections":[],"requirements":{}}"#)).is_none());
}

#[test]
fn a_plan_may_write_its_records_as_arrays() {
    let labels = vec![Label {
        label: "B1".into(),
        key: "k1".into(),
    }];
    // A section by position: what is left out at the end is empty.
    let mixed = json(
        r#"{"sections":[["s1","First","q"],{"title":"Second","query":"q","branches":["B1"]},
            ["s3","Third","q","why","next",["flow"],[1,0,1],["e"],["r1"],["point"],["other"],["B1"]]],
            "reader_goal":"g","storyline":"s"}"#,
    );
    let plan = decode_generated_outline(&mixed, &labels).ok().expect("plan");
    let titles: Vec<&str> = plan.sections.iter().map(|s| s.title.as_str()).collect();
    assert_eq!(titles, ["First", "Second", "Third"]);
    assert!(plan.sections[0].diagrams.is_none() && plan.sections[0].branches.is_empty());
    // Labels are resolved by name, and stand as they are in an array.
    assert_eq!(plan.sections[1].branches, ["k1"]);
    let third = &plan.sections[2];
    assert_eq!(third.branches, ["B1"]);
    assert_eq!(third.depends_on, [1, 0]);
    assert_eq!(third.diagrams, Some(vec!["flow".to_string()]));
    assert!(third.owns_requirement_ids.is_empty());
    // Two fields are required, one too many is refused, and each has its type.
    for bad in [
        r#"{"sections":[["s1","First"]]}"#,
        r#"{"sections":[["s1","First","q","","",null,[],[],[],[],[],[],0]]}"#,
        r#"{"sections":[["s1","First",7]]}"#,
        r#"{"sections":[["s1","First","q","","",null,[],[],[7]]]}"#,
        r#"{"sections":["s1"]}"#,
    ] {
        assert_eq!(
            decode_generated_outline(&json(bad), &labels).err(),
            Some(GeneratedFault::Shape),
            "{bad}"
        );
    }
}

#[test]
fn a_plan_without_names_has_nothing_to_resolve() {
    let labels = vec![Label {
        label: "B1".into(),
        key: "k1".into(),
    }];
    let array = json(
        r#"[[{"title":"T","query":"q","depends_on":[2,2],"branches":["B1"],"owns_requirement_ids":["r"]}],
            "goal","story",["term"],[["r","why"]],4,[["B2","not asked for"]]]"#,
    );
    let plan = decode_generated_outline(&array, &labels).ok().expect("plan");
    assert_eq!((plan.reader_goal.as_str(), plan.storyline.as_str(), plan.revision), ("goal", "story", 4));
    assert_eq!(plan.terminology, ["term"]);
    assert!(plan.requirements.is_empty());
    assert_eq!(plan.sections[0].branches, ["B1"]);
    assert_eq!(plan.sections[0].depends_on, [2]);
    assert!(plan.sections[0].owns_requirement_ids.is_empty());
    assert_eq!(plan.excluded_branches[0].branch, "B2");
    assert_eq!(plan.excluded_branches[0].reason, "not asked for");
    // An object in an array that is no plan counts as the plan.
    let wrapped = json(r#"[{"sections":[{"title":"T","query":"q","branches":["B9"]}]}]"#);
    let plan = decode_generated_outline(&wrapped, &labels).ok().expect("plan");
    assert_eq!(plan.sections[0].branches, ["B9"]);
    for bad in [r#"[]"#, r#"[[],"g","s",[],[],0,[],1]"#, r#"[{"sections":{}}]"#, r#""text""#, "7"] {
        assert!(decode_generated_outline(&json(bad), &labels).is_err(), "{bad}");
    }
}

#[test]
fn answers_may_write_their_records_as_arrays() {
    let brief = brief_from_json(&json(r#"[[["t","o",{"context":null},["e"]]],["u"],[]]"#)).expect("brief");
    assert_eq!(brief.findings[0].topic, "t");
    assert!(matches!(brief.findings[0].kind, FindingKind::Context));
    assert_eq!(brief.findings[0].evidence_ids, ["e"]);
    assert_eq!(brief.uncertainties, ["u"]);
    for bad in [
        r#"[[["t","o","context"]],[],[]]"#,
        r#"[[["t","o",{"context":1},[]]],[],[]]"#,
        r#"[[["t","o",{"context":null,"runtime":null},[]]],[],[]]"#,
        r#"[[],[]]"#,
        r#"[[],[],[],[]]"#,
    ] {
        assert!(brief_from_json(&json(bad)).is_none(), "{bad}");
    }
    let review = review_from_json(&json(r#"[[["major","c","m",["s"]]]]"#)).expect("review");
    assert_eq!(review.issues[0].section_ids, ["s"]);
    assert!(review.issues[0].requirement_ids.is_empty() && review.issues[0].query.is_empty());
    assert!(review_from_json(&json(r#"[[["major","c"]]]"#)).is_none());
    let division =
        division_from_json(&json(r#"[[["t","s",["G1"]]],[["B1","why"]],"goal","story"]"#)).expect("division");
    assert_eq!(division.chapters[0].groups, ["G1"]);
    assert!(division.chapters[0].branches.is_empty());
    assert_eq!(division.excluded_branches[0].reason, "why");
    assert_eq!(division.storyline, "story");
    assert!(division_from_json(&json(r#"[[],[],"goal"]"#)).is_none());
}
