use doccraft::answers::{decode_response, response_from_json};
use doccraft::audit::{
    audit_order, audit_rooms, audit_tier, group_size, next_batch, paths, prioritize, retain_pending, screen,
    tally, Assessment, Ledger, PageWalk, Passage, Response, StaleObligation, Status, Unit,
};
use doccraft::audit_run::{
    audit_scope, batch_key, considered_paths, file_units, item_key, AuditFault, AuditRun,
};
use doccraft::budget::{check, ESCAPE_EXPANSION_PERCENT};
use doccraft::code_graph::{CodeGraph, Span};
use doccraft::comparison::{comparison_request, Comparison};
use doccraft::coverage::{audited_kind, audited_obligations, obligations, Obligation};
use doccraft::json::Json;
use doccraft::llm::repair::decode;
use doccraft::model::{Evidence, LlmConfig, Section, SectionPlan};
use doccraft::pages::{pages, Page};
use doccraft::parser::parse_source;
use doccraft::source::hash;
use std::collections::HashSet;

fn graph(content: &str, language: &str, path: &str) -> CodeGraph {
    parse_source(content, language).ok().expect("parse").graph.at_path(path)
}

fn section(markdown: &str) -> Section {
    Section {
        title: "Flow".into(),
        markdown: markdown.into(),
        evidence: vec![],
    }
}

fn obligation(id: &str, subject: &str) -> Obligation {
    Obligation {
        id: id.into(),
        path: "/project/flow.rs".into(),
        subject: subject.into(),
        kind: "function".into(),
        span: Span { start_byte: 0, end_byte: 0, start: 0, end: 0 },
    }
}

fn verdict(id: &str, section: usize, quote: &str) -> Assessment {
    Assessment {
        id: id.into(),
        status: Status::Covered,
        section,
        quote: quote.into(),
        reason: "The contract is explained.".into(),
    }
}

fn missing(id: &str, section: usize) -> Assessment {
    Assessment {
        id: id.into(),
        status: Status::Missing,
        section,
        quote: String::new(),
        reason: "Explain it.".into(),
    }
}

/// Whole lines of a passage in pieces of at most `room` bytes.
fn segments(e: &Evidence, room: usize) -> Vec<Evidence> {
    let mut result: Vec<Evidence> = vec![];
    let mut line = e.start;
    let mut content = String::new();
    let mut start = line;
    for text in e.content.split_inclusive('\n') {
        if !content.is_empty() && content.len() + text.len() > room {
            result.push(piece(e, start, line - 1, &content));
            content.clear();
            start = line;
        }
        content.push_str(text);
        line += 1;
    }
    if !content.is_empty() {
        result.push(piece(e, start, line - 1, &content));
    }
    result
}

fn piece(e: &Evidence, start: u32, end: u32, content: &str) -> Evidence {
    Evidence {
        id: hash(format!("{}:{start}:{content}", e.path).as_bytes()),
        path: e.path.clone(),
        start,
        end,
        content: content.into(),
    }
}

#[test]
fn the_audit_asks_about_declarations_not_every_statement() {
    let content = "export function run(x) {\n  if (x) { return fail(); }\n  return ok();\n}\nconst tail = 1;\n";
    let graph = graph(content, "javascript", "run.js");
    let e = Evidence {
        id: hash(b"run"),
        path: "/project/run.js".into(),
        start: 1,
        end: 5,
        content: content.into(),
    };
    let all = obligations(&e, &graph, 0);
    let asked: Vec<&Obligation> = all.iter().filter(|o| audited_kind(&o.kind)).collect();
    // The declaration is what a reader looks up, and it is what survives.
    assert!(asked.iter().any(|o| o.kind == "function"));
    assert!(!asked.is_empty() && asked.len() < all.len());
    // Branch and exit sites, and the top-level code outside a declaration, are
    // recorded by the graph but are not what the document is asked for.
    assert!(all.iter().any(|o| o.kind == "branch" || o.kind == "returns"));
    assert!(asked.iter().all(|o| o.kind != "passage"));
    let kept = audited_obligations(&e, &graph, 0);
    assert_eq!(
        kept.iter().map(|o| o.id.as_str()).collect::<Vec<_>>(),
        asked.iter().map(|o| o.id.as_str()).collect::<Vec<_>>()
    );
}

#[test]
fn a_batch_holds_more_source_than_a_single_passage() {
    // Sizing the batch like one passage put one passage in it. The request
    // carries a document page and an instruction either way, so the source budget
    // has to be what is left over, not what one passage costs.
    let room = 64_000usize;
    let rooms = audit_rooms(room).expect("room");
    assert_eq!(rooms.page, (room / 2).min(24_000));
    assert_eq!(rooms.passage, (room / 4).min(8000));
    assert_eq!(
        rooms.batch,
        room.saturating_sub(rooms.page)
            .saturating_sub(group_size(room) * 300)
            .max(rooms.passage)
    );
    assert!(
        rooms.batch >= rooms.passage * 3,
        "{} leaves room for {} passages",
        rooms.batch,
        rooms.batch / rooms.passage
    );
    // And the whole request may still be sent.
    let c = LlmConfig {
        max_output_tokens: 32_000,
        ..Default::default()
    };
    let serialized = (room as u64 + 21_000) * ESCAPE_EXPANSION_PERCENT / 100;
    assert!(check(&c, serialized, 0).is_ok());
    assert!(audit_rooms(4095).is_none());
    assert_eq!(audit_rooms(4096).map(|r| (r.page, r.passage, r.batch)), Some((2048, 1024, 1448)));
}

#[test]
fn a_request_carries_obligations_from_more_than_one_passage() {
    // A file with no parsed graph yields one obligation per passage. Batching
    // only within a passage spent a whole request on that single obligation.
    let content = "plain text with no declarations\n".repeat(400);
    let source = Evidence {
        id: String::new(),
        path: "/project/notes.txt".into(),
        start: 1,
        end: 400,
        content,
    };
    let empty = CodeGraph::unsupported();
    let mut offset = 0usize;
    let mut units = vec![];
    for e in segments(&source, 900) {
        let items = obligations(&e, &empty, offset);
        offset += e.content.len();
        if !items.is_empty() {
            units.push(Unit { evidence: e, start_byte: offset, items });
        }
    }
    assert!(units.len() > 4, "{} passages", units.len());
    assert!(
        units.iter().all(|u| u.items.len() == 1),
        "a graphless passage carries exactly one obligation"
    );
    // Those passages have to share a request rather than each taking one.
    let per_request = group_size(48_000);
    assert!(
        per_request >= units.len(),
        "{per_request} obligations per request should cover {} passages",
        units.len()
    );
    let batch = next_batch(&units, 0, 0, per_request, 64_000);
    assert_eq!(batch.group.len(), units.len());
    assert_eq!((batch.cursor, batch.taken), (units.len(), 0));
    assert_eq!(paths(&batch.passages), vec!["/project/notes.txt"]);
}

#[test]
fn the_named_owning_section_is_visited_next_without_skipping_the_rest() {
    let sections: Vec<Section> = (0..5)
        .map(|_| section("Some prose that is long enough."))
        .collect();
    let pages = pages(&sections, 4000);
    assert_eq!(pages.len(), 5);
    let order: Vec<usize> = (0..pages.len()).collect();
    // Page 0 is visited, and the verdict names section 3 as the owner.
    let rest = prioritize(&order[1..].to_vec(), &pages, &vec![3]);
    assert_eq!([&order[..1], &rest[..]].concat(), vec![0, 3, 1, 2, 4]);
    // A wrong guess only reorders: every page is still in the list.
    let next = prioritize(&rest[1..].to_vec(), &pages, &vec![4]);
    assert_eq!(next, vec![4, 1, 2]);
    let visited: HashSet<usize> = [0, 3].into_iter().chain(next).collect();
    assert_eq!(visited, (0..5).collect());
    // No named owner leaves the remaining order untouched.
    assert_eq!(prioritize(&order[1..].to_vec(), &pages, &vec![]), vec![1, 2, 3, 4]);
}

#[test]
fn the_audit_reaches_cited_then_considered_then_unread_files() {
    let cited = vec!["/p/cited.rs".to_string()];
    let considered = vec!["/p/cited.rs".to_string(), "/p/seen.rs".to_string()];
    let mut files = [
        (1u64, "/p/other.rs".to_string()),
        (2, "/p/seen.rs".to_string()),
        (3, "/p/cited.rs".to_string()),
        (4, "/p/another.rs".to_string()),
    ];
    let listed: Vec<String> = files.iter().map(|(_, path)| path.clone()).collect();
    let order = audit_order(&listed, &cited, &considered);
    assert_eq!(
        order.iter().map(|i| files[*i].0).collect::<Vec<_>>(),
        vec![3, 2, 1, 4]
    );
    files.sort_by_key(|(_, path)| audit_tier(path, &cited, &considered));
    assert_eq!(
        files.iter().map(|(id, _)| *id).collect::<Vec<_>>(),
        vec![3, 2, 1, 4],
        "cited first, then considered, then the rest in index order"
    );
}

#[test]
fn an_audit_request_carries_the_obligations_its_room_affords() {
    // A ceiling the room always exceeds makes the sizing formula dead and spends
    // one whole request, document page and source passage included, on a handful
    // of items.
    assert_eq!(group_size(48_000), 24);
    assert_eq!(group_size(20_000), 10);
    assert_eq!(group_size(4_096), 2);
    assert_eq!(group_size(500), 1);
}

#[test]
fn every_document_byte_survives_unicode_paging() {
    let text = format!(
        "start\n{}\nimportant cancellation at the end",
        "한글🦀".repeat(6000)
    );
    let sections = vec![section(&text)];
    let parts = pages(&sections, 513);
    let mut visited = vec![false; text.len()];
    for p in parts {
        assert!(p.content.len() <= 513);
        visited[p.offset..p.offset + p.content.len()].fill(true);
    }
    assert!(visited.into_iter().all(|v| v));
}

#[test]
fn a_page_settles_the_verdicts_it_can_and_names_only_the_rest() {
    let items = vec![
        obligation("a", "cancel"),
        obligation("b", "publish"),
        obligation("c", "retry"),
    ];
    let sections = vec![section(
        "Cancellation stops the worker\nbefore publication.\n```\nOnly a code example exists here.\n```\n",
    )];
    let page = &pages(&sections, 4000)[0];
    let response = Response {
        assessments: vec![
            // Reproduced with different line breaks, and naming a section the
            // model guessed rather than the page under audit.
            verdict("a", 7, "Cancellation stops the worker before publication."),
            verdict("b", 0, "Only a code example exists here."),
            verdict("c", 0, "The original draft never said this."),
        ],
    };
    let (accepted, problems) = screen(&response, &items, page, &sections);
    // One unusable verdict no longer discards the batch.
    assert_eq!(accepted.len(), 1, "{problems}");
    assert_eq!(accepted[0].id, "a");
    // The covering section is the page under audit, not what the model said.
    assert_eq!(accepted[0].section, page.section);
    assert!(problems.contains('b') && problems.contains('c'), "{problems}");
    let rest = retain_pending(&items, &accepted);
    assert_eq!(rest.iter().map(|o| o.id.as_str()).collect::<Vec<_>>(), vec!["b", "c"]);
}

#[test]
fn a_quote_must_be_this_page_prose_and_other_verdicts_carry_none() {
    let items = vec![obligation("a", "cancel")];
    let sections = vec![section("Cancellation stops the worker before publication.\n")];
    let page = &pages(&sections, 4000)[0];
    // Too short to be an explanation.
    let (accepted, _) = screen(
        &Response {
            assessments: vec![verdict("a", 0, "stops")],
        },
        &items,
        page,
        &sections,
    );
    assert!(accepted.is_empty());
    // Unknown ids and empty reasons are still refused.
    let (accepted, _) = screen(
        &Response {
            assessments: vec![verdict("zzz", 0, "Cancellation stops the worker.")],
        },
        &items,
        page,
        &sections,
    );
    assert!(accepted.is_empty());
    // A non-covered verdict keeps its owning section and carries no quote.
    let (accepted, problems) = screen(
        &Response {
            assessments: vec![Assessment {
                id: "a".into(),
                status: Status::Missing,
                section: 0,
                quote: "left over".into(),
                reason: "Explain the cancellation contract.".into(),
            }],
        },
        &items,
        page,
        &sections,
    );
    assert_eq!(accepted.len(), 1, "{problems}");
    assert!(accepted[0].quote.is_empty());
}

#[test]
fn every_problem_with_a_verdict_is_described() {
    let items = vec![obligation("a", "cancel"), obligation("b", "x")];
    let sections = vec![section("Cancellation stops the worker before publication.\n")];
    let page = &pages(&sections, 4000)[0];
    let mut blank = verdict("a", 0, "Cancellation stops the worker");
    blank.reason = " ".into();
    let (accepted, problems) = screen(
        &Response {
            assessments: vec![
                blank,
                verdict("a", 0, "Cancellation stops the worker"),
                missing("b", 1),
            ],
        },
        &items,
        page,
        &sections,
    );
    assert!(accepted.is_empty());
    assert_eq!(
        problems,
        "a: give a concrete reason under 4000 bytes; an unknown or repeated obligation id; b: owning section must be a valid index"
    );
}

#[test]
fn late_error_branches_and_nested_calls_have_distinct_obligations() {
    let content = format!(
        "def run():\n{}    raise RuntimeError('cancel')\n    factory()()\n",
        "    value = 1\n".repeat(1500)
    );
    let graph = graph(&content, "python", "worker.py");
    let source = Evidence {
        id: String::new(),
        path: "worker.py".into(),
        start: 1,
        end: 1505,
        content,
    };
    let mut offset = 0;
    let mut items = vec![];
    for e in segments(&source, 8000) {
        items.extend(obligations(&e, &graph, offset));
        offset += e.content.len();
    }
    assert_eq!(offset, source.content.len());
    assert!(items
        .iter()
        .any(|o| o.kind == "error_path" && o.span.start > 1500));
    assert_eq!(
        items
            .iter()
            .filter(|o| o.kind == "calls" && o.subject == "factory")
            .count(),
        1
    );
    let unique: HashSet<_> = items.iter().map(|o| &o.id).collect();
    assert_eq!(unique.len(), items.len());
}

#[test]
fn a_walk_asks_every_page_until_an_obligation_is_settled() {
    let sections: Vec<Section> = (0..3).map(|_| section("Prose.")).collect();
    let pages: Vec<Page> = pages(&sections, 4000);
    let group = vec![obligation("b", "x"), obligation("a", "y")];
    let mut walk = PageWalk::start(pages.len());
    assert_eq!(walk.order, vec![0, 1, 2]);
    assert_eq!(walk.pending(&group).len(), 2);
    walk.absorb(&pages, &vec![missing("b", 2), missing("a", 0)]);
    assert_eq!(walk.order, vec![2, 1]);
    assert_eq!(walk.pending(&group).len(), 2);
    walk.absorb(&pages, &vec![missing("b", 1), verdict("a", 2, "q")]);
    assert_eq!(walk.order, vec![1]);
    assert_eq!(
        walk.decisions.iter().map(|a| (a.id.as_str(), a.section)).collect::<Vec<_>>(),
        vec![("a", 2), ("b", 2)]
    );
    let open = walk.pending(&group);
    assert_eq!(open.iter().map(|o| o.id.as_str()).collect::<Vec<_>>(), vec!["b"]);
}

#[test]
fn batches_split_passages_and_ask_everything_once() {
    let unit = |id: &str, size: usize, items: usize| Unit {
        evidence: Evidence {
            id: id.into(),
            path: format!("{id}.rs"),
            start: 1,
            end: 1,
            content: "x".repeat(size),
        },
        start_byte: 0,
        items: (0..items).map(|i| obligation(&format!("{id}{i}"), "s")).collect(),
    };
    let units = vec![unit("a", 10, 3), unit("b", 10, 1), unit("c", 90, 1)];
    let first = next_batch(&units, 0, 0, 2, 50);
    assert_eq!(first.group.iter().map(|o| o.id.as_str()).collect::<Vec<_>>(), vec!["a0", "a1"]);
    assert_eq!((first.cursor, first.taken), (0, 2));
    let second = next_batch(&units, first.cursor, first.taken, 9, 50);
    assert_eq!(second.group.iter().map(|o| o.id.as_str()).collect::<Vec<_>>(), vec!["a2", "b0"]);
    assert_eq!(second.passages.len(), 2);
    // A passage that is larger than the room still has a request of its own.
    let third = next_batch(&units, second.cursor, second.taken, 9, 50);
    assert_eq!(third.group.iter().map(|o| o.id.as_str()).collect::<Vec<_>>(), vec!["c0"]);
    assert_eq!(third.cursor, 3);
    let passages: Vec<Passage> = second.passages;
    assert_eq!(paths(&passages), vec!["a.rs", "b.rs"]);
    // Each file once, however its passages are interleaved.
    let passage = |path: &str| Passage {
        evidence: Evidence {
            id: path.into(),
            path: path.into(),
            start: 1,
            end: 1,
            content: String::new(),
        },
        start_byte: 0,
    };
    let mixed = [passage("a.rs"), passage("b.rs"), passage("a.rs")];
    assert_eq!(paths(&mixed), vec!["a.rs", "b.rs"]);
    assert!(paths(&[]).is_empty());
}

#[test]
fn verdicts_are_counted_once_and_what_is_missing_is_reported() {
    let mut ledger = Ledger { checked: 0, covered: 0, out_of_scope: 0, missing: 0, unresolved: 0 };
    let group = vec![obligation("a", "cancel"), obligation("b", "x"), obligation("c", "y")];
    let issues = tally(&mut ledger, &group, &vec![verdict("a", 0, "q"), missing("b", 1)])
        .ok()
        .expect("issues");
    assert_eq!(
        (ledger.checked, ledger.covered, ledger.missing, ledger.unresolved),
        (2, 1, 1, 1)
    );
    assert_eq!(
        issues[0].message,
        "원본 대조에서 누락된 설명 (/project/flow.rs:0–0, x): Explain it."
    );
    assert_eq!(issues[0].query, "/project/flow.rs x");
    assert_eq!((issues[0].severity.as_str(), issues[0].section), ("major", 1));
    assert_eq!(
        tally(&mut ledger, &group, &vec![missing("zzz", 0)]).err(),
        Some(StaleObligation)
    );
    assert_eq!(ledger.checked, 2);
}

#[test]
fn a_comparison_asks_again_only_about_the_rest() {
    let items = vec![obligation("a", "cancel"), obligation("b", "x")];
    let sections = vec![section("Cancellation stops the worker before publication.\n")];
    let page = &pages(&sections, 4000)[0];
    let mut comparison = Comparison::start(&items);
    assert!(comparison.asks());
    comparison.failed("no answer");
    assert_eq!(comparison.error, "no answer");
    comparison.answered(
        &Response {
            assessments: vec![verdict("a", 0, "Cancellation stops the worker"), verdict("b", 0, "no")],
        },
        page,
        &sections,
    );
    assert_eq!(comparison.accepted.len(), 1);
    assert_eq!(comparison.pending.len(), 1);
    assert!(comparison.error.starts_with("Reassess only the supplied obligations. b: covered needs"));
    let plan: Vec<SectionPlan> = vec![];
    let request = comparison_request(&comparison, "d", "l", &plan, page, &vec![], &vec![]);
    assert_eq!(request.items("obligations").map(Vec::len), Some(1));
    assert_eq!(request.text("phase"), Some("coverage_audit"));
    comparison.failed("again");
    assert!(!comparison.asks());
}

#[test]
fn an_audit_stops_while_there_is_budget_left_and_says_how_far_it_got() {
    let mut run = AuditRun::start(3, 2, 40);
    assert_eq!(run.finish(), Err(AuditFault::NothingInspected));
    // The first file is audited whatever was spent.
    assert_eq!(run.next_file(true), Some(0));
    run.read(5, 7);
    let group = vec![obligation("a", "alpha"), obligation("b", "beta"), obligation("c", "gamma")];
    assert_eq!(run.record(&group, &vec![verdict("a", 0, "q"), missing("b", 2)]), Ok(()));
    run.file_done();
    assert_eq!(run.next_file(false), Some(1));
    // A verdict about something else is noticed.
    assert_eq!(
        run.record(&group, &vec![missing("z", 0)]),
        Err(AuditFault::StaleObligation)
    );
    assert_eq!(run.issues.len(), 1);
    // The budget is spent: two files stay unaudited.
    assert_eq!(run.next_file(true), None);
    assert_eq!(run.finish(), Ok(()));
    assert_eq!(
        run.report.to_json("s").to_text(),
        r#"{"audited_files":1,"checked":2,"chunks":5,"complete":true,"covered":1,"excluded_files":2,"missing":1,"out_of_scope":0,"passages":7,"scope":"s","total_chunks":40,"unaudited_files":2,"unresolved":1}"#
    );
    assert_eq!(
        AuditFault::NoRoom.message(),
        "COVERAGE_AUDIT_INCOMPLETE: insufficient context for original-source omission audit"
    );
}

#[test]
fn an_audit_knows_its_files_and_its_requests() {
    let analysis = decode(r#"{"evidence":[{"path":"a"},{"id":1},{"path":"b"}]}"#).ok().expect("JSON");
    assert_eq!(considered_paths(&analysis), ["a", "b"]);
    assert!(considered_paths(&Json::Null).is_empty());
    // A unit begins where the passages before it end.
    let content = "fn one() {}\nfn two() {}\n";
    let whole = Evidence {
        id: hash(b"x"),
        path: "x.rs".into(),
        start: 1,
        end: 2,
        content: content.into(),
    };
    let units = file_units(&segments(&whole, 12), &graph(content, "rust", "x.rs"));
    assert_eq!(
        units.iter().map(|u| (u.start_byte, u.items[0].subject.as_str())).collect::<Vec<_>>(),
        [(0, "one"), (12, "two")]
    );
    // What a request is kept under depends on all that it asks about.
    let passages = vec![Passage { evidence: whole.clone(), start_byte: 0 }];
    let one = vec![obligation("a", "alpha")];
    let text = format!(
        r#"{{"items":[{{"id":"a","kind":"function","path":"/project/flow.rs","span":{{"end":0,"end_byte":0,"start":0,"start_byte":0}},"subject":"alpha"}}],"passages":["{}"],"scope":"s"}}"#,
        whole.id
    );
    assert_eq!(
        batch_key("s", &passages, &one),
        format!("coverage:batch:{}", hash(text.as_bytes()))
    );
    let kept = r#"[{"id":"a","path":"/project/flow.rs","subject":"alpha","kind":"function","span":{"start_byte":0,"end_byte":0,"start":0,"end":0}}]"#;
    assert_eq!(item_key(&one), format!("coverage:item:{}", hash(kept.as_bytes())));
    // A repair of the prose invalidates every earlier verdict.
    let c = LlmConfig::default();
    let scope = |text: &str| audit_scope(&c, Json::Null, Json::string(text), Json::Null, "d", "l", "s");
    assert_eq!(scope("a"), scope("a"));
    assert_ne!(scope("a"), scope("b"));
}

#[test]
fn verdicts_are_read_in_the_form_that_was_asked_for() {
    let read = |text: &str| response_from_json(&decode(text).ok().expect("JSON"));
    let response = read(
        r#"{"assessments":[{"id":"a","status":"out_of_scope","section":2,"quote":"","reason":"r"}]}"#,
    )
    .expect("response");
    assert_eq!(response.assessments[0].status, Status::OutOfScope);
    assert_eq!(response.assessments[0].section, 2);
    assert!(read(r#"{"assessments":[{"id":"a","status":"fine","section":2,"quote":"","reason":"r"}]}"#).is_none());
    assert!(read(r#"{"assessments":[{"id":"a","status":"missing","section":-1,"quote":"","reason":"r"}]}"#).is_none());
    assert!(read("{}").is_none());
    assert!(decode_response("```\n{\"assessments\":[]}\n```").is_some());
    assert!(decode_response("[]").is_none());
    // Records as arrays of their fields.
    let listed = decode_response(r#"[[["o1",{"out_of_scope":null},2,"","why"]]]"#).expect("verdicts");
    assert_eq!(listed.assessments[0].id, "o1");
    assert_eq!(listed.assessments[0].status, Status::OutOfScope);
    assert_eq!((listed.assessments[0].section, listed.assessments[0].reason.as_str()), (2, "why"));
    assert!(decode_response(r#"[[["o1","covered",2,""]]]"#).is_none());
}

#[test]
fn nothing_of_a_passage_is_passed_over() {
    let content = "const A: u8 = 1; // é\n\nfn one() {}\n;\nstruct T { a: u8 }\nconst B: u8 = 2;\n";
    let e = Evidence {
        id: hash(b"whole"),
        path: "x.rs".into(),
        start: 1,
        end: 6,
        content: content.into(),
    };
    let offset = 40;
    let mut g = graph(content, "rust", "x.rs");
    for s in &mut g.symbols {
        for span in [&mut s.span, &mut s.signature] {
            span.start_byte += offset;
            span.end_byte += offset;
        }
    }
    g.edges.clear();
    let owed = obligations(&e, &g, offset);
    assert!(owed.iter().any(|o| o.kind == "passage"));
    for (at, c) in content.char_indices() {
        let filler = c.is_whitespace() || "{};,".contains(c);
        let asked = owed
            .iter()
            .any(|o| o.span.start_byte <= at + offset && at + offset < o.span.end_byte);
        assert!(filler || asked, "byte {at} ({c:?})");
    }
}
