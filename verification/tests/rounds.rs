use doccraft::citations::compact_evidence_ids;
use doccraft::context::Density;
use doccraft::findings::{resolve_ids, Discovery, Finding, FindingKind, SourceBrief};
use doccraft::json::{member, Json};
use doccraft::leaves::{
    branch_memory, gather_passages, scope_counts, section_memory, CitedPassage, OpenedLeaf,
};
use doccraft::llm::repair::decode;
use doccraft::llm::request::{detach_passages, payload, relative_paths};
use doccraft::model::{
    BranchExclusion, Evidence, LlmConfig, Outline, OutlineIssue, OutlineReview, SectionPlan,
};
use doccraft::order::{order_ascending, order_descending, sort_distinct};
use doccraft::planning::accounting::{complete_review, unshowable_sections, Coverage, UnassignedPart};
use doccraft::planning::chapters::{Chapter, Chapters};
use doccraft::planning::stored::outline_from_json;
use doccraft::planning::levels::{branch_target, branch_topics};
use doccraft::planning::requests::{
    anchors, classified, evidence_budget, pack_planning_evidence, planning_limit, uncited,
};
use doccraft::planning::rounds::{
    check_part, check_review, join_chapters, judge_review, section_evidence, Attempts, MissingEvidence, Next,
    OutlineState, OutlineStep, Outcome, PartFault,
};
use doccraft::planning::tree::{covered_files, PassageSpan, TreeIndex, TreeNode};
use doccraft::purpose::{count_terms, merge_findings};
use doccraft::source::hash;
use doccraft::text::{before, comparable_title, has, replace_all, split_words};

fn json(text: &str) -> Json {
    decode(text).ok().expect("JSON")
}

fn evidence(name: &str, content: &str) -> Evidence {
    Evidence {
        id: hash(name.as_bytes()),
        path: name.into(),
        start: 1,
        end: 2,
        content: content.into(),
    }
}

fn finding(topic: &str, ids: &[&str]) -> Finding {
    Finding {
        topic: topic.into(),
        observation: format!("about {topic}"),
        kind: FindingKind::Runtime,
        evidence_ids: ids.iter().map(|i| i.to_string()).collect(),
    }
}

fn plan(titles: &[&str]) -> Outline {
    let sections: Vec<String> = titles
        .iter()
        .enumerate()
        .map(|(i, t)| {
            let needs = if i > 0 { (i - 1).to_string() } else { String::new() };
            format!(
                r#"{{"id":"id-{t}","title":"{t}","query":"q","key_points":["k"],"diagrams":[],"branches":["b"],"depends_on":[{needs}]}}"#
            )
        })
        .collect();
    outline_from_json(&json(&format!(
        r#"{{"reader_goal":"g","storyline":"s","sections":[{}]}}"#,
        sections.join(",")
    )))
    .expect("outline")
}

fn issue(severity: &str, ids: &[&str], query: &str) -> OutlineIssue {
    OutlineIssue {
        severity: severity.into(),
        code: "c".into(),
        message: "m".into(),
        section_ids: ids.iter().map(|i| i.to_string()).collect(),
        requirement_ids: vec![],
        query: query.into(),
    }
}

#[test]
fn a_request_is_attempted_three_times() {
    let mut a = Attempts::first();
    let small = Outcome::Rejected { context_budget: false };
    let large = Outcome::Rejected { context_budget: true };
    assert_eq!(a.settle(large), Next::Retry);
    assert_eq!(a.settle(small), Next::Retry);
    assert_eq!((a.made, a.reductions), (2, 1));
    assert_eq!(a.settle(large), Next::GiveUp);
    assert_eq!(Attempts::first().settle(Outcome::Accepted), Next::Take);
    assert_eq!(Attempts::first().settle(Outcome::Fatal), Next::Fail);
}

#[test]
fn parts_are_held_to_their_share_and_to_new_titles() {
    let part = plan(&["One", "Two"]);
    let earlier = vec!["Zero".to_string(), " two ".to_string()];
    assert!(check_part(&part, 2, &vec!["Zero".to_string()]).is_ok());
    assert!(matches!(check_part(&part, 1, &vec![]), Err(PartFault::Sections)));
    assert!(matches!(
        check_part(&part, 2, &earlier),
        Err(PartFault::Reused(at)) if at == [1]
    ));
}

#[test]
fn joined_parts_need_the_sections_that_they_needed() {
    let chapters = Chapters {
        chapters: vec![Chapter {
            title: "T".into(),
            summary: "S".into(),
            branches: vec![],
        }],
        excluded_branches: vec![BranchExclusion {
            branch: "x".into(),
            reason: "r".into(),
        }],
        reader_goal: "goal".into(),
        storyline: "story".into(),
    };
    let mut second = plan(&["C", "D"]);
    second.excluded_branches.push(BranchExclusion {
        branch: "y".into(),
        reason: "r".into(),
    });
    let whole = join_chapters(&chapters, &vec![plan(&["A", "B"]), second], 7);
    let titles: Vec<&str> = whole.sections.iter().map(|s| s.title.as_str()).collect();
    assert_eq!(titles, ["A", "B", "C", "D"]);
    let needs: Vec<&[usize]> = whole.sections.iter().map(|s| s.depends_on.as_slice()).collect();
    assert_eq!(needs, [&[] as &[usize], &[0], &[], &[2]]);
    assert_eq!((whole.revision, whole.reader_goal.as_str()), (7, "goal"));
    let gone: Vec<&str> = whole.excluded_branches.iter().map(|e| e.branch.as_str()).collect();
    assert_eq!(gone, ["x", "y"]);
}

#[test]
fn a_review_decides_what_follows() {
    let p = plan(&["A"]);
    let ok = OutlineReview {
        issues: vec![issue("minor", &["id-A"], "")],
    };
    assert_eq!(check_review(&ok, &p).expect("review").issues[0].section_ids, ["id-A"]);
    let strange = OutlineReview {
        issues: vec![issue("minor", &["unknown"], "")],
    };
    assert!(check_review(&strange, &p).is_none());
    let state = OutlineState {
        revision: 1,
        round: 0,
        extra_queries: 2,
    };
    let minor = vec![issue("minor", &[], "")];
    let major = vec![issue("major", &[], "a"), issue("minor", &[], " "), issue("minor", &[], "b")];
    assert!(matches!(judge_review(state, 1, &minor, false, None).0, OutlineStep::Accept));
    assert!(matches!(judge_review(state, 1, &minor, true, None).0, OutlineStep::AwaitApproval));
    assert!(matches!(judge_review(state, 1, &minor, true, Some(1)).0, OutlineStep::Accept));
    let (step, next) = judge_review(state, 1, &major, false, None);
    assert!(matches!(step, OutlineStep::Revise(asked) if asked == [0]));
    assert_eq!((next.round, next.extra_queries), (1, 3));
    let late = OutlineState { round: 2, ..state };
    assert!(matches!(judge_review(late, 1, &major, false, None).0, OutlineStep::AwaitDecision));
}

#[test]
fn sections_keep_the_passages_that_they_were_planned_with() {
    let known = vec![evidence("a", "x"), evidence("b", "y")];
    let id = known[1].id.clone();
    let found = section_evidence(&known, &vec![id]).ok().expect("evidence");
    assert_eq!(found[0].content, "y");
    assert_eq!(
        section_evidence(&known, &vec!["gone".to_string()]).err(),
        Some(MissingEvidence)
    );
    // A section whose scope is mostly deferred is reported, once.
    let p = plan(&["A", "B"]);
    let section: &SectionPlan = &p.sections[1];
    let raised = unshowable_sections(&p, &vec![(40, 3), (14, 61)], &vec![]);
    assert_eq!(raised.len(), 1);
    assert_eq!(raised[0].section_ids, [section.id.clone()]);
    assert!(unshowable_sections(&p, &vec![(40, 3), (14, 61)], &raised).is_empty());
}

fn node(key: &str, files: &[&str], children: &[&str], topic: &str) -> TreeNode {
    TreeNode {
        key: key.into(),
        files: files.iter().map(|f| f.to_string()).collect(),
        children: children.iter().map(|c| c.to_string()).collect(),
        findings: vec![finding(topic, &["p1"])],
        details: vec![],
        spans: vec![PassageSpan {
            id: "p1".into(),
            path: "/r/a.rs".into(),
            start: 3,
            end: 9,
        }],
    }
}

fn tree() -> TreeIndex {
    TreeIndex {
        root: Some("root".into()),
        leaves: vec!["l1".into(), "l2".into()],
        nodes: vec![
            node("root", &[], &["l1", "l2"], "whole"),
            node("l1", &["/r/a.rs", "/r/b.rs"], &[], "first"),
            node("l2", &["/r/c.rs"], &[], "second"),
        ],
    }
}

#[test]
fn branches_are_the_level_closest_to_the_target() {
    let tree = tree();
    let roots = vec!["/r".to_string()];
    let (mut files, whole) = covered_files(&tree, "root", &roots);
    files.sort();
    assert_eq!(files, ["a.rs", "b.rs", "c.rs"]);
    assert!(whole);
    let levels = vec![vec!["root".to_string()], vec!["l1".to_string(), "l2".to_string()]];
    let view = branch_topics(&tree, &levels, &roots);
    let labels: Vec<&str> = view.branches.iter().map(|b| b.label.as_str()).collect();
    assert_eq!(labels, ["B1", "B2"]);
    assert_eq!(view.branches[0].findings[0].topic, "first");
}

#[test]
fn a_section_remembers_what_its_leaves_observed() {
    let tree = tree();
    let roots = vec!["/r".to_string()];
    let leaves = vec!["l1".to_string(), "l2".to_string()];
    let (memory, cited) = branch_memory(&tree, &leaves, 4, &roots, 10_000);
    assert_eq!(cited.len(), 2);
    assert_eq!((cited[0].leaf.as_str(), cited[0].id.as_str()), ("l1", "p1"));
    let text = memory.to_text();
    assert!(text.contains(r#""leaves":2,"leaves_left_to_other_sections":4"#), "{text}");
    assert!(text.contains("a.rs:3-9"), "{text}");
    // Two sections that reach the same leaves share them out.
    let reached = vec![leaves.clone(), vec![], leaves.clone()];
    let terms = vec![vec!["first".to_string()], vec![], vec!["second".to_string()]];
    assert_eq!(scope_counts(&tree, &reached, &terms, &roots, 10_000), vec![(1, 0), (0, 0), (1, 0)]);
    assert_eq!(scope_counts(&tree, &reached, &terms, &roots, 0), vec![(0, 1), (0, 0), (0, 1)]);
    // Without room everything is deferred.
    let (none, _) = branch_memory(&tree, &leaves, 0, &roots, 0);
    assert!(none.to_text().contains(r#""deferred_findings":2,"findings":[]"#));
    // The passages behind what was shown, each once.
    let mut passage = evidence("/r/a.rs", "code");
    passage.id = "p1".into();
    let opened = vec![OpenedLeaf {
        key: "l1".into(),
        passages: vec![passage],
    }];
    let again = vec![
        CitedPassage { leaf: "l1".into(), id: "p1".into() },
        CitedPassage { leaf: "l1".into(), id: "p1".into() },
        CitedPassage { leaf: "l2".into(), id: "p1".into() },
    ];
    let found = gather_passages(&again, &opened);
    assert_eq!(found.len(), 1);
    assert_eq!(found[0].content, "code");
    // What rests on supplied passages is recalled.
    let mut supplied = evidence("/r/a.rs", "code");
    supplied.start = 5;
    supplied.end = 6;
    let recalled = section_memory(&tree, &vec![supplied], 10_000).to_text();
    assert!(recalled.contains("about first"), "{recalled}");
    let unrelated = section_memory(&tree, &vec![evidence("/r/z.rs", "code")], 10_000).to_text();
    assert!(!unrelated.contains("about first"), "{unrelated}");
}

#[test]
fn planning_packs_passages_into_the_room_that_is_left() {
    let c = LlmConfig::default();
    let density = Density { samples: 0, floor: 0 };
    let discovery = Discovery {
        brief: SourceBrief {
            findings: vec![finding("t", &["p"])],
            uncertainties: vec!["u".into()],
            followup_queries: vec!["f".into()],
        },
        evidence: vec![evidence("a.rs", "x"), evidence("b.md", "y")],
        details: vec![],
        validation_unresolved: false,
    };
    let flags = vec![true, false];
    let rest = vec![member("attempt", Json::count(1)), member("purpose", Json::string("p"))];
    let (input, count) = pack_planning_evidence(&discovery, &flags, rest, &c, 0, &density, 0, true)
        .ok()
        .expect("request");
    assert_eq!(count, 2);
    let text = input.to_text();
    assert!(text.starts_with(r#"{"attempt":1,"evidence":[{"content":"x","end":2,"#), "{text}");
    assert!(text.ends_with(r#""purpose":"p","source_anchors":[]}"#), "{text}");
    // Each reduction halves the room; where nothing fits, a request that needs
    // passages is not made.
    assert_eq!(planning_limit(&c, 0, &density, 0, 0), 48_000);
    assert_eq!(planning_limit(&c, 0, &density, 0, 2), 12_000);
    assert_eq!(evidence_budget(&c, 0, &density, 10), 48_000);
    assert!(pack_planning_evidence(&discovery, &flags, vec![], &c, 0, &density, 16, true).is_err());
    let shown = classified(&discovery.evidence, &flags);
    assert_eq!(shown[1].get("runtime_allowed").map(Json::to_text).as_deref(), Some("false"));
    let left = anchors(&discovery.evidence, &flags, &vec![evidence("a.rs", "x")]);
    assert_eq!(left.len(), 1);
    assert!(left[0].to_text().contains(r#""path":"b.md","previously_read":true"#));
    assert_eq!(
        uncited(&discovery.brief).to_text(),
        r#"{"findings":[{"kind":"runtime","observation":"about t","topic":"t"}],"uncertainties":["u"]}"#
    );
}

#[test]
fn requests_name_their_limits_and_carry_passages_outside_the_json() {
    let c = LlmConfig {
        model: "m".into(),
        reasoning: "on".into(),
        reasoning_parameter: "enable_thinking".into(),
        max_output_tokens: 5,
        ..Default::default()
    };
    assert_eq!(
        payload(&c, json("[]")).to_text(),
        r#"{"chat_template_kwargs":{"enable_thinking":true},"max_completion_tokens":5,"messages":[],"model":"m","stream":false}"#
    );
    let short = relative_paths(
        &json(r#"{"path":"/w/p/a.rs","list":[{"path":"/other"}],"content":{"path":"/w/p/b.rs"}}"#),
        &vec!["/w".to_string(), "/w/p/".to_string()],
    );
    assert_eq!(
        short.to_text(),
        r#"{"content":{"path":"/w/p/b.rs"},"list":[{"path":"/other"}],"path":"a.rs"}"#
    );
    let passage = r#"{"content":"x","end":2,"id":"ab","path":"p \"q\"","start":1}"#;
    let mut blocks = vec![];
    let mut seen = vec![];
    let left = detach_passages(&json(&format!("[{passage},{passage}]")), &mut blocks, &mut seen);
    assert_eq!(left.to_text(), r#"[{"passage":"ab"},{"passage":"ab"}]"#);
    assert_eq!(
        blocks,
        ["<passage id=\"ab\" path=\"p &quot;q&quot;\" lines=\"1-2\">\nx\n</passage id=\"ab\">"]
    );
    assert_eq!(seen, ["ab"]);
}

#[test]
fn findings_merge_and_words_count() {
    let merged = merge_findings(&vec![
        vec![finding("a", &["1"]), finding("b", &["2"])],
        vec![finding("a", &["1"]), finding("a", &["3"])],
    ]);
    assert_eq!(merged.len(), 3);
    let terms = vec!["alpha".to_string(), "beta".to_string(), "gamma".to_string()];
    assert_eq!(count_terms("alpha and beta", &terms), 2);
}

#[test]
fn orders_and_texts() {
    let sizes = vec![3usize, 1, 3, 2];
    assert_eq!(order_descending(&sizes), [0, 2, 3, 1]);
    assert_eq!(order_ascending(&sizes), [1, 3, 0, 2]);
    let names = vec!["b".to_string(), "a".to_string(), "b".to_string()];
    assert_eq!(sort_distinct(&names), ["a", "b"]);
    assert!(before("a", "ab") && before("가", "나") && !before("b", "ab"));
    assert_eq!(comparable_title("  A   Big\tTitle "), "a big title");
    assert_eq!(comparable_title("ÄÖ"), "äö");
    assert_eq!(replace_all("aXbXX", "X", "--"), "a--b----");
    assert_eq!(split_words(" a\u{3000}b\n c"), ["a", "b", "c"]);
    assert!(has("hay needle", "needle") && !has("hay", "needle"));
}

#[test]
fn completing_a_review_twice_adds_nothing() {
    let p = plan(&["A", "B"]);
    let coverage = Some(Coverage {
        branches: 2,
        covered: 1,
        excluded: vec![],
        unassigned: vec![UnassignedPart {
            branch: "B2".into(),
            place: "src".into(),
            file_count: 3,
            topics: vec!["t".into()],
        }],
        crowded_sections: vec![],
    });
    let counts = vec![(1, 0), (1, 5)];
    let review = OutlineReview {
        issues: vec![issue("minor", &[], "")],
    };
    let (once, grew) = complete_review(review, &coverage, &p, &counts);
    assert!(grew);
    assert_eq!(
        once.issues.iter().map(|i| i.code.as_str()).collect::<Vec<_>>(),
        ["c", "unassigned_branch", "section_scope_not_shown"]
    );
    let (twice, again) = complete_review(once, &coverage, &p, &counts);
    assert!(!again);
    assert_eq!(twice.issues.len(), 3);
}

#[test]
fn the_state_of_planning_is_stored_and_read() {
    let state = OutlineState {
        revision: 4,
        round: 1,
        extra_queries: 2,
    };
    assert_eq!(state.to_json().to_text(), r#"{"extra_queries":2,"revision":4,"round":1}"#);
    assert_eq!(OutlineState::from_json(&state.to_json()), state);
    assert_eq!(OutlineState::from_json(&json("{}")).revision, 0);
    assert_eq!(state.begin(true), Some(state));
    assert_eq!(state.begin(false).map(|s| s.revision), Some(5));
    assert_eq!(OutlineState { revision: u32::MAX, ..state }.begin(false), None);
}

#[test]
fn an_alias_names_its_passage() {
    // Two ids that begin alike get longer aliases.
    let mut a = evidence("a", "x");
    let mut b = evidence("b", "y");
    a.id = format!("{}{}", "0123456789", "a".repeat(54));
    b.id = format!("{}{}", "0123456789", "b".repeat(54));
    let shown = compact_evidence_ids(&json(&format!(
        r#"{{"evidence":[{{"content":"x","end":1,"id":"{}","path":"p","start":1}},{{"content":"y","end":1,"id":"{}","path":"p","start":1}}]}}"#,
        a.id, b.id
    )));
    let items = shown.items("evidence").expect("evidence");
    let aliases: Vec<String> = items
        .iter()
        .map(|e| e.text("id").expect("id").to_string())
        .collect();
    assert_eq!(aliases, ["0123456789a", "0123456789b"]);
    let known = vec![a, b];
    for (alias, passage) in aliases.iter().zip(&known) {
        assert_eq!(
            resolve_ids(&vec![alias.clone()], &known, 1).ok(),
            Some(vec![passage.id.clone()])
        );
    }
}

#[test]
fn more_leaves_make_more_branches() {
    let targets: Vec<usize> = (0..2000).map(branch_target).collect();
    assert!(targets.windows(2).all(|w| w[0] <= w[1]));
    assert_eq!((targets[0], targets[100], targets[1999]), (8, 25, 256));
}
