use doccraft::findings::{Discovery, Finding, FindingKind, SourceBrief};
use doccraft::leaves::{assign_leaves, context};
use doccraft::model::Evidence;
use doccraft::packing::merge_evidence;
use doccraft::planning::tree::{TreeIndex, TreeNode};
use doccraft::purpose::{pack, recover, retain_details, seed, select_details};
use doccraft::reading::{
    accept_reading, gather, intent_key, needs_second_pass, query_bytes, reading_scope, scope_changed, Asked,
    Reading, Turn,
};
use doccraft::source::hash;

fn empty_brief() -> SourceBrief {
    SourceBrief {
        findings: vec![],
        uncertainties: vec![],
        followup_queries: vec![],
    }
}

fn discovery(topic: &str, observation: &str, path: &str) -> Discovery {
    let content = format!("fn {topic}() {{ /* {observation} */ }}");
    let id = hash(format!("{path}:1:{}", hash(content.as_bytes())).as_bytes());
    Discovery {
        brief: SourceBrief {
            findings: vec![Finding {
                topic: topic.into(),
                observation: observation.into(),
                kind: FindingKind::Runtime,
                evidence_ids: vec![id.clone()],
            }],
            ..empty_brief()
        },
        evidence: vec![Evidence {
            id,
            path: path.into(),
            start: 1,
            end: 1,
            content,
        }],
        details: vec![],
        validation_unresolved: false,
    }
}

fn terms(text: &str) -> Vec<String> {
    text.split_whitespace().map(str::to_lowercase).collect()
}

#[test]
fn relevant_details_survive_root_omission_without_a_question_list() {
    let detail = discovery(
        "cancel",
        "취소 요청은 결과 반환 전에 작업을 종료한다",
        "worker.rs",
    );
    let irrelevant = discovery("options", "서버 설정을 읽는다", "config.rs");
    let mut best = vec![];
    let terms = terms("취소 결과 반환");
    select_details(&mut best, &irrelevant, &terms);
    select_details(&mut best, &detail, &terms);
    assert_eq!(best[0].finding.topic, "cancel");
    assert_eq!(best[0].evidence[0].path, "worker.rs");
    let seeded = seed(&irrelevant, &best);
    assert_eq!(seeded.details.len(), 2);
    assert_eq!(seeded.evidence.len(), 2);
}

#[test]
fn selections_are_ranked_bounded_and_distinct() {
    let mut best = vec![];
    let terms = terms("cancel result");
    for i in 0..40 {
        let topic = if i % 3 == 0 { "cancel result" } else if i % 3 == 1 { "cancel" } else { "other" };
        let path = format!("f{}.rs", i % 10);
        select_details(&mut best, &discovery(topic, &format!("note {i}"), &path), &terms);
        assert!(best.len() <= 24);
        for pair in best.windows(2) {
            assert!(pair[0].score >= pair[1].score);
            if pair[0].score == pair[1].score {
                assert!(pair[0].finding.evidence_ids <= pair[1].finding.evidence_ids);
            }
        }
        for (k, d) in best.iter().enumerate() {
            assert_eq!(d.evidence.len(), d.finding.evidence_ids.len());
            let path = &d.evidence[0].path;
            assert!(best.iter().filter(|o| &o.evidence[0].path == path).count() <= 4);
            for other in &best[k + 1..] {
                assert!(
                    other.finding.topic != d.finding.topic
                        || other.finding.evidence_ids != d.finding.evidence_ids
                );
            }
        }
    }
    assert_eq!(best[0].score, 2);
}

#[test]
fn summary_compression_keeps_distinct_details_and_replaces_corrected_topics() {
    let mut prior = discovery("input", "old input", "input.rs");
    let branch = discovery("cancel", "stop pending work", "cancel.rs");
    prior.details = branch.brief.findings;
    prior.evidence.extend(branch.evidence);
    let latest = discovery("input", "corrected input", "input.rs");
    let retained = retain_details(
        &prior,
        latest.brief,
        merge_evidence(&vec![prior.evidence.clone(), latest.evidence]),
    );
    assert_eq!(retained.brief.findings[0].observation, "corrected input");
    assert_eq!(retained.details.len(), 1);
    assert_eq!(retained.details[0].topic, "cancel");
    let shown = context(&retained, true);
    assert_eq!(shown[0].text("topic"), Some("cancel"));
    let _ = pack(&retained, 1024);
    assert_eq!(retained.details.len(), 1);
    assert_eq!(retained.evidence.len(), 3);
}

#[test]
fn evidence_packing_balances_files_without_dropping_stored_originals() {
    let mut d = discovery("a", "a", "a.rs");
    let b = discovery("b", "b", "a.rs");
    let c = discovery("c", "c", "c.rs");
    d.evidence.extend(b.evidence);
    d.evidence.extend(c.evidence);
    let size = |e: &Evidence| e.content.len() + e.path.len() + 256;
    let packed = pack(&d, size(&d.evidence[0]) + size(&d.evidence[2]));
    assert_eq!(
        packed.iter().map(|e| e.path.as_str()).collect::<Vec<_>>(),
        vec!["a.rs", "c.rs"]
    );
    assert_eq!(d.evidence.len(), 3);
}

fn leaf(key: &str, topic: &str) -> TreeNode {
    TreeNode {
        key: key.into(),
        files: vec![],
        children: vec![],
        findings: vec![Finding {
            topic: topic.into(),
            observation: format!("{topic} 처리를 설명한다"),
            kind: FindingKind::Runtime,
            evidence_ids: vec![],
        }],
        details: vec![],
        spans: vec![],
    }
}

#[test]
fn sections_sharing_a_branch_split_its_leaves_instead_of_repeating_the_first() {
    let topics = ["취소", "재시도", "캐시", "인증", "취소 복구", "로그"];
    let leaves: Vec<String> = (0..topics.len()).map(|i| format!("leaf{i}")).collect();
    let mut nodes: Vec<TreeNode> = leaves
        .iter()
        .zip(topics)
        .map(|(key, topic)| leaf(key, topic))
        .collect();
    nodes.push(TreeNode {
        children: leaves.clone(),
        ..leaf("branch", "branch")
    });
    let tree = TreeIndex {
        root: Some("branch".into()),
        leaves: leaves.clone(),
        nodes,
    };
    let mine = leaves.clone();
    // Two sections name the branch, and a third one names nothing.
    let reached = vec![mine.clone(), mine.clone(), vec![]];
    let asked = vec![
        terms("취소 흐름 취소와 복구 취소 cancel"),
        terms("인증과 캐시 인증 캐시 auth"),
        terms("다른 절 x"),
    ];
    let (first, left_first) = assign_leaves(&tree, &reached, &asked, 0, &mine);
    let (second, left_second) = assign_leaves(&tree, &reached, &asked, 1, &mine);
    // Each leaf has exactly one owner among the sections that share the branch.
    let mut all: Vec<&String> = first.iter().chain(&second).collect();
    all.sort();
    all.dedup();
    assert_eq!(all.len(), leaves.len());
    assert_eq!(first.len() + second.len(), leaves.len());
    assert_eq!(left_first, second.len());
    assert_eq!(left_second, first.len());
    // Matching leaves go to the section they match, most relevant first.
    assert!(first.contains(&"leaf0".to_string()) && first.contains(&"leaf4".to_string()));
    assert!(second.contains(&"leaf2".to_string()) && second.contains(&"leaf3".to_string()));
    // Leaves neither matches are spread rather than all given to one section.
    let unmatched = ["leaf1", "leaf5"];
    assert!(
        unmatched.iter().any(|l| first.contains(&l.to_string()))
            && unmatched.iter().any(|l| second.contains(&l.to_string()))
    );
    // A branch nobody else names keeps all of its leaves.
    assert_eq!(
        assign_leaves(&tree, &vec![mine.clone()], &vec![terms("전부 q")], 0, &mine),
        (mine.clone(), 0)
    );
}

#[test]
fn a_failed_reading_goes_on_with_what_was_read() {
    let mut prior = discovery("a", "b", "c.rs");
    prior.brief.followup_queries = vec!["q".into()];
    let recovered = recover(&prior);
    assert!(recovered.validation_unresolved);
    assert!(recovered.brief.followup_queries.is_empty());
    assert_eq!(recovered.brief.uncertainties.len(), 2);
    assert_eq!(recovered.brief.findings.len(), 1);
}

#[test]
fn a_reading_is_asked_for_three_times_and_for_less_where_there_is_no_room() {
    let mut reading = Reading::start(50_000);
    assert_eq!(reading.limit, 32_000);
    assert_eq!(reading.turn(), Turn::Ask);
    reading.failed("CONTEXT_BUDGET: too large");
    assert_eq!(reading.limit, 16_000);
    reading.failed("malformed");
    assert_eq!(reading.limit, 16_000);
    assert_eq!(reading.turn(), Turn::Ask);
    reading.failed("malformed");
    assert_eq!(reading.turn(), Turn::GiveUp);
    let mut tight = Reading::start(1000);
    assert_eq!(tight.turn(), Turn::GiveUp);
    assert_eq!(tight.error, "CONTEXT_BUDGET: insufficient room for source summary");
    assert_eq!(query_bytes(32_000, 1), 16_000);
    assert_eq!(query_bytes(32_000, 9), 5333);
    assert_eq!(query_bytes(100, 2), 512);
}

#[test]
fn a_reading_shows_its_passages_and_keeps_what_it_does_not_replace() {
    let prior = discovery("input", "old input", "input.rs");
    let found = discovery("cancel", "stop", "cancel.rs");
    let shown = gather(&prior, &vec![found.evidence.clone()], 32_000);
    assert_eq!(shown.evidence.len(), 2);
    assert_eq!(shown.available.len(), 2);
    let mut reading = Reading::start(32_000);
    reading.repair.note("{broken", true);
    let asked = Asked { direction: "d", language: "l", final_pass: false };
    let request = reading.request(&asked, &prior, &vec![true], &shown.evidence, &vec![true, true]);
    assert_eq!(request.text("phase"), Some("purpose_reading"));
    assert_eq!(request.text("previous_response"), Some("{broken"));
    assert_eq!(request.items("evidence").map(Vec::len), Some(2));
    let answer = discovery("cancel", "stops pending work", "cancel.rs");
    let mut brief = answer.brief;
    brief.findings[0].evidence_ids = vec![found.evidence[0].id[..8].to_string()];
    let flags = vec![true; shown.available.len()];
    let read = accept_reading(&prior, &brief, shown.available, &flags, true).ok().expect("reading");
    assert_eq!(read.brief.findings[0].evidence_ids[0], found.evidence[0].id);
    assert_eq!(read.details[0].topic, "input");
    assert!(!needs_second_pass(&read));
}

#[test]
fn keys_change_with_what_they_stand_for() {
    let key = intent_key("direction", "ko");
    assert_eq!(
        key,
        hash(br#"{"language":"ko","purpose":"direction","version":1}"#)
    );
    assert!(scope_changed(Some("other"), &key));
    assert!(!scope_changed(Some(&key), &key));
    assert!(!scope_changed(None, &key));
    let c = doccraft::model::LlmConfig::default();
    let one = reading_scope(&key, doccraft::json::Json::Null, doccraft::json::Json::Null, &c, "s");
    let two = reading_scope(&key, doccraft::json::Json::Null, doccraft::json::Json::Null, &c, "t");
    assert_eq!(one.len(), 64);
    assert_ne!(one, two);
}
