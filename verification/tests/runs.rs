use doccraft::composition::{
    check_request, continue_outline, outline_state, revise, Approval, ApprovalFault, Revision, RevisionFault,
};
use doccraft::config::Observed;
use doccraft::context::{check, event_backoff, Reserved, Stop};
use doccraft::llm::repair::decode;
use doccraft::maintenance::{cache_limit, cleanup_due, next_cycle, recover_again, trim_again};
use doccraft::model::{
    Evidence, LlmConfig, Outline, OutlineIssue, OutlineReview, RunSnapshot, SectionPlan, Settings, TaskConfig,
};
use doccraft::planning::stored::outline_from_json;
use doccraft::planning::outline::OutlineFault;
use doccraft::publish::{
    conflict_name, diagnose, may_replace, needs_validation, save, was_written, Draft, PublishFault,
};
use doccraft::resume::{
    can_resume, reconciled_budget, released_tokens, resume_run, ResumeFault, ResumeOptions, TokenEvent,
};
use doccraft::source::hash;

const FINE: Observed = Observed {
    roots_exist: true,
    prices_valid: true,
};

fn snapshot() -> RunSnapshot {
    RunSnapshot {
        task: TaskConfig::default(),
        settings: Settings::default(),
        original_hash: Some("before".into()),
    }
}

#[test]
fn a_resumed_run_takes_what_it_is_asked_to() {
    let mut present = LlmConfig {
        api_key: "new".into(),
        ..Default::default()
    };
    present.model = "other".into();
    let plain = ResumeOptions::default();
    // Its own settings with the present credentials.
    let next = resume_run(snapshot(), "failed", "", &plain, &present, None, None, &FINE)
        .ok()
        .expect("resumed");
    assert_eq!(next.settings.llm.api_key, "new");
    assert_eq!(next.settings.llm.model, LlmConfig::default().model);
    assert_eq!(next.original_hash.as_deref(), Some("before"));
    // The present settings and limits.
    let all = ResumeOptions {
        current_llm: true,
        current_token_limit: true,
        current_review_limit: true,
    };
    let task = TaskConfig {
        max_tokens: 7,
        max_iterations: 9,
        ..Default::default()
    };
    let next = resume_run(snapshot(), "cancelled", "", &all, &present, Some(&task), None, &FINE)
        .ok()
        .expect("resumed");
    assert_eq!(next.settings.llm.model, "other");
    assert_eq!((next.task.max_tokens, next.task.max_iterations), (7, 9));
    // A document with warnings goes on from what it published.
    let limit = ResumeOptions {
        current_review_limit: true,
        ..ResumeOptions::default()
    };
    let next = resume_run(
        snapshot(),
        "completed_with_warnings",
        "",
        &limit,
        &present,
        Some(&task),
        Some("written".into()),
        &FINE,
    )
    .ok()
    .expect("resumed");
    assert_eq!(next.original_hash.as_deref(), Some("written"));
    let fault = |status: &str, progress: &str, o: &ResumeOptions, observed: &Observed| {
        resume_run(snapshot(), status, progress, o, &present, None, None, observed).err()
    };
    assert_eq!(fault("completed", "", &plain, &FINE), Some(ResumeFault::NotStopped));
    assert_eq!(fault("failed", "", &limit, &FINE), Some(ResumeFault::NoTask));
    assert_eq!(
        fault("completed_with_warnings", "", &plain, &FINE),
        Some(ResumeFault::ReviewLimit)
    );
    assert_eq!(
        fault("completed_with_warnings", "… this document is incomplete", &plain, &FINE),
        None
    );
    let unpriced = Observed {
        prices_valid: false,
        ..FINE
    };
    assert!(matches!(
        fault("failed", "", &all, &unpriced),
        Some(ResumeFault::Settings(_))
    ));
    assert!(can_resume("awaiting_outline") && !can_resume("running"));
}

#[test]
fn tokens_that_were_never_used_are_given_back() {
    let event = |request: bool, text: &str| TokenEvent {
        request,
        data: decode(text).ok().expect("JSON"),
    };
    let events = vec![
        event(true, r#"{"budget":{"input":100,"output":50}}"#),
        event(false, r#"{"input_tokens":60,"output_tokens":10,"usage_estimated":false}"#),
        event(true, r#"{"budget":{"input":10,"output":5}}"#),
        event(
            false,
            r#"{"input_tokens":1,"output_tokens":1,"usage_estimated":false,"reservation_released":13}"#,
        ),
        event(true, r#"{"budget":{"input":10,"output":5}}"#),
        event(false, r#"{"input_tokens":1,"output_tokens":1,"usage_estimated":true}"#),
    ];
    assert_eq!(released_tokens(&events), 80);
    let budget = decode(r#"{"cost":1,"tokens":100}"#).ok().expect("JSON");
    assert_eq!(
        reconciled_budget(&budget, 80).expect("budget").to_text(),
        r#"{"cost":1,"tokens":20}"#
    );
    assert_eq!(
        reconciled_budget(&budget, 200).expect("budget").to_text(),
        r#"{"cost":1,"tokens":0}"#
    );
    let broken = decode("[1]").ok().expect("JSON");
    assert!(reconciled_budget(&broken, 1).is_none());
}

fn evidence() -> Evidence {
    Evidence {
        id: hash(b"a"),
        path: "a.rs".into(),
        start: 1,
        end: 1,
        content: "a".into(),
    }
}

fn outline() -> Outline {
    let text = format!(
        r#"{{"reader_goal":"g","storyline":"s","sections":[{{"title":"A","query":"q","key_points":["k"],"diagrams":[],"evidence_ids":["{}"]}}]}}"#,
        evidence().id
    );
    outline_from_json(&decode(&text).ok().expect("JSON")).expect("outline")
}

fn edit(base: u32, id: &str, plan: Option<Outline>, feedback: Option<String>) -> Revision {
    Revision {
        base_revision: base,
        request_id: id.into(),
        outline: plan,
        feedback,
    }
}

#[test]
fn an_outline_is_edited_once_from_where_it_stands() {
    let known = vec![evidence()];
    let revised = revise(edit(4, "r-1", Some(outline()), None), false, 4, vec![], Some(&known), None)
        .ok()
        .expect("revised");
    assert_eq!((revised.revision, revised.state_revision), (5, 5));
    let plan = revised.candidate.expect("candidate");
    assert_eq!(plan.revision, 5);
    let section: &SectionPlan = &plan.sections[0];
    assert!(!section.id.is_empty());
    // Feedback alone asks for a new plan.
    let asked = revise(edit(4, "r-2", None, Some("shorter".into())), false, 4, vec![], None, None)
        .ok()
        .expect("revised");
    assert!(asked.candidate.is_none());
    let fault = |e: Revision, known: Option<&Vec<Evidence>>| revise(e, false, 4, vec![], known, None).err();
    assert_eq!(fault(edit(3, "r", None, None), None), Some(RevisionFault::Stale));
    assert_eq!(fault(edit(4, "r", None, None), None), Some(RevisionFault::Nothing));
    assert_eq!(fault(edit(4, "a b", None, None), None), Some(RevisionFault::RequestId));
    assert_eq!(
        fault(edit(4, "r", None, Some("x".repeat(16_001))), None),
        Some(RevisionFault::Feedback)
    );
    assert_eq!(
        fault(edit(4, "r", Some(outline()), None), None),
        Some(RevisionFault::NoEvidence)
    );
    assert_eq!(
        revise(edit(3, "r", None, None), true, 4, vec![], None, None).err(),
        Some(RevisionFault::Active)
    );
    let mut bad = outline();
    bad.sections.clear();
    assert_eq!(
        fault(edit(4, "r", Some(bad), None), Some(&known)),
        Some(RevisionFault::Outline(OutlineFault::Sections))
    );
    assert!(check_request(&edit(1, "abc-1", None, None)).is_ok());
    assert_eq!(outline_state(5).to_text(), r#"{"revision":5,"round":0}"#);
}

#[test]
fn only_a_reviewed_outline_is_approved() {
    let review = |severity: &str| OutlineReview {
        issues: vec![OutlineIssue {
            severity: severity.into(),
            code: "c".into(),
            message: "m".into(),
            section_ids: vec![],
            requirement_ids: vec![],
            query: String::new(),
        }],
    };
    let minor = review("minor");
    let major = review("major");
    let seen = Approval { revision: 2 };
    let go = |active: bool, revision: Option<u32>, r: Option<&OutlineReview>, status: &str| {
        continue_outline(active, revision, &seen, r, status).err()
    };
    assert_eq!(go(false, Some(2), Some(&minor), "awaiting_outline"), None);
    assert_eq!(
        go(true, Some(2), Some(&minor), "awaiting_outline"),
        Some(ApprovalFault::Active)
    );
    assert_eq!(
        go(false, None, Some(&minor), "awaiting_outline"),
        Some(ApprovalFault::NoOutline)
    );
    assert_eq!(
        go(false, Some(3), Some(&minor), "awaiting_outline"),
        Some(ApprovalFault::Stale)
    );
    assert_eq!(
        go(false, Some(2), None, "awaiting_outline"),
        Some(ApprovalFault::NoReview)
    );
    assert_eq!(
        go(false, Some(2), Some(&major), "awaiting_outline"),
        Some(ApprovalFault::Major)
    );
    assert_eq!(
        go(false, Some(2), Some(&minor), "failed"),
        Some(ApprovalFault::NotWaiting)
    );
}

fn draft(warnings: Vec<String>) -> Draft {
    Draft {
        id: "p".into(),
        run_id: "run".into(),
        task_id: "task".into(),
        markdown: "# Text".into(),
        warnings,
    }
}

#[test]
fn foreign_changes_make_a_copy() {
    let was = Some("h".to_string());
    let p = save(draft(vec![]), "doc.md".into(), "copy.md".into(), &was, &was);
    assert_eq!((p.path.as_str(), p.status.as_str()), ("doc.md", "completed"));
    assert_eq!(p.hash, hash(b"# Text"));
    assert_eq!(
        p.progress().to_text(),
        r#"{"path":"doc.md","stage":"finished","warnings":[]}"#
    );
    assert!(was_written(&Some(hash(b"# Text")), &p) && !was_written(&was, &p));
    let p = save(draft(vec![]), "doc.md".into(), "copy.md".into(), &None, &was);
    assert_eq!((p.path.as_str(), p.status.as_str()), ("copy.md", "completed_with_warnings"));
    assert_eq!(
        p.warnings,
        ["Target changed externally; result saved as a conflict copy"]
    );
    assert_eq!(
        p.terminal_event().to_text(),
        r#"{"path":"copy.md","status":"completed_with_warnings","warnings":["Target changed externally; result saved as a conflict copy"]}"#
    );
    let other = Some("x".to_string());
    assert_eq!(may_replace(true, &was, &was, false), Ok(()));
    assert_eq!(may_replace(true, &other, &was, false), Err(PublishFault::Changed));
    assert_eq!(may_replace(false, &other, &was, false), Ok(()));
    assert_eq!(may_replace(true, &was, &was, true), Err(PublishFault::Cancelled));
    assert_eq!(conflict_name(Some("guide"), "r1"), "guide.conflict-r1.md");
    assert!(needs_validation("```mermaid\n") && !needs_validation("text"));
    assert_eq!(diagnose(" line 2 \n"), "MERMAID_INVALID: line 2");
    assert_eq!(diagnose(" "), "MERMAID_INVALID: diagram failed syntax validation");
}

#[test]
fn a_run_stops_at_its_limits() {
    assert_eq!(check(false, false, 10, 5, 16), Ok(()));
    assert_eq!(check(false, false, 10, 6, 16), Err(Stop::Time));
    assert_eq!(check(false, true, 10, 6, 16), Ok(()));
    assert_eq!(check(true, true, 0, 0, 16), Err(Stop::Cancelled));
    let mut r = Reserved { tokens: 90, cost: 1 };
    assert_eq!(r.reserve(11, 5, 100, false), Err(Stop::Tokens));
    assert_eq!(r.reserve(10, 5, 100, true), Err(Stop::Cost));
    assert_eq!(r.reserve(10, 5, 100, false), Ok(()));
    assert_eq!((r.tokens, r.cost), (100, 6));
    assert_eq!(r.reconcile_tokens(10, 4), 6);
    assert_eq!(r.tokens, 94);
    assert_eq!(
        (0..7).map(event_backoff).collect::<Vec<_>>(),
        [Some(1), Some(2), Some(4), Some(8), Some(10), Some(10), None]
    );
}

#[test]
fn upkeep_waits_for_idle_time() {
    assert!(cleanup_due(0, false) && !cleanup_due(0, true) && !cleanup_due(1, false));
    assert_eq!((next_cycle(3), next_cycle(u32::MAX)), (4, 0));
    assert_eq!(recover_again(0), Some(1));
    assert_eq!(recover_again(u64::MAX), None);
    assert!(cache_limit(100) > 0 && cache_limit(0) == 0);
    assert!(trim_again(2, 1, 0) && !trim_again(1, 1, 0));
}
