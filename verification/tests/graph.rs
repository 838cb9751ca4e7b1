use doccraft::code_graph::{CodeGraph, Span};
use doccraft::graph::links::{resolve_links, LinkIndex, AMBIGUOUS_CANDIDATES_MAX};
use doccraft::graph::neighborhood::neighborhood;
use doccraft::graph::ordering::{chunk_at, graph_order, link, order_chunks, ChunkSpan, Neighbor};
use doccraft::graph::projection::{named, project};
use doccraft::graph::rationing::ration;
use doccraft::graph::records::records;
use doccraft::graph::structure::{describe, evidence_paths, Loaded};
use doccraft::graph::{tail, FileGraph, GraphCounts};
use doccraft::json::Json;
use doccraft::llm::repair::decode;
use doccraft::model::Evidence;
use doccraft::parser::parse_source;
use serde_json::Value;
use std::collections::{HashMap, HashSet};

fn graph(path: &str, source: &str) -> CodeGraph {
    parse_source(source, "rust").ok().expect("parse").graph.at_path(path)
}

fn parsed(path: &str, source: &str) -> FileGraph {
    FileGraph {
        path: path.into(),
        graph: graph(path, source),
    }
}

fn scope_of(paths: &[&str]) -> Vec<String> {
    paths.iter().map(|p| p.to_string()).collect()
}

fn value(json: &Json) -> Value {
    serde_json::from_str(&json.to_text()).expect("JSON")
}

fn json(text: &str) -> Json {
    decode(text).ok().expect("JSON")
}

fn parse(text: &str) -> Value {
    serde_json::from_str(text).expect("JSON")
}

/// The calls of a file that stay in it.
fn internal(index: &LinkIndex, path: &str) -> Option<usize> {
    let at = index.paths.iter().position(|p| p == path)?;
    Some(index.internal[at])
}

#[test]
fn a_call_into_another_file_folds_into_one_counted_link() {
    let files = [
        parsed("a.rs", "fn run() { helper(); helper(); helper(); }"),
        parsed("b.rs", "fn helper() {}"),
    ];
    let index = resolve_links(&files);
    assert_eq!(index.cross.len(), 1);
    let link = &index.cross[0];
    assert_eq!(
        (link.from_path.as_str(), link.from.as_str()),
        ("a.rs", "run")
    );
    assert_eq!(
        (link.to_path.as_str(), link.to.as_str()),
        ("b.rs", "helper")
    );
    // Three sites, one record: the count is what keeps the table sendable.
    assert_eq!(link.calls, 3);
    let value = value(&project(&index, &scope_of(&["a.rs", "b.rs"]), 4000));
    assert_eq!(value["items"][0]["to"], "b.rs::helper");
    assert_eq!(value["items"][0]["calls"], 3);
    assert_eq!(value["items"][0]["path"], "a.rs");
}

#[test]
fn a_same_file_call_is_counted_rather_than_sent() {
    let files = [parsed("a.rs", "fn run() { helper(); }\nfn helper() {}")];
    let index = resolve_links(&files);
    assert!(index.cross.is_empty());
    // The child summary already describes what happens inside one file, so the
    // budget must not be spent restating it - but it is still reported.
    assert_eq!(internal(&index, "a.rs"), Some(1));
    let value = value(&project(&index, &scope_of(&["a.rs"]), 4000));
    assert_eq!(value["not_shown"]["same_file_calls"], 1);
    assert_eq!(value["files_without_links"][0], "a.rs");
}

#[test]
fn an_ambiguous_target_is_never_dressed_up_as_resolved() {
    let files = [
        parsed("a.rs", "fn run() { helper(); }"),
        parsed("b.rs", "fn helper() {}"),
        parsed("c.rs", "fn helper() {}"),
    ];
    let index = resolve_links(&files);
    assert_eq!(index.cross.len(), 1);
    assert!(index.cross[0].to_path.is_empty());
    let value = value(&project(&index, &scope_of(&["a.rs", "b.rs", "c.rs"]), 4000));
    let record = &value["items"][0];
    assert_eq!(record["resolved"], false);
    assert_eq!(record["to"], "helper");
    assert_eq!(record["declared_in"], parse(r#"["b.rs","c.rs"]"#));
}

#[test]
fn a_call_to_a_name_no_file_declares_is_separated_from_a_missing_link() {
    let files = [parsed(
        "a.rs",
        "fn run() { println!(\"x\"); external_thing(); }",
    )];
    let index = resolve_links(&files);
    assert!(index.cross.is_empty());
    assert!(index.unresolved[0] >= 1);
    let value = value(&project(&index, &scope_of(&["a.rs"]), 4000));
    assert!(
        value["not_shown"]["calls_to_undeclared_names"]
            .as_u64()
            .unwrap_or(0)
            >= 1
    );
}

#[test]
fn a_link_leaving_the_request_is_counted_not_silently_dropped() {
    let files = [
        parsed("a.rs", "fn run() { helper(); helper(); }"),
        parsed("b.rs", "fn helper() {}"),
    ];
    let index = resolve_links(&files);
    let value = value(&project(&index, &scope_of(&["a.rs"]), 4000));
    assert_eq!(value["items"].as_array().map(Vec::len), Some(0));
    // A reduction that cannot see the far end must know the group is open, not
    // conclude that the caller talks to nobody.
    assert_eq!(value["not_shown"]["calls_leaving_this_request"], 2);
}

#[test]
fn a_file_the_graph_never_saw_is_named_apart_from_one_without_links() {
    let files = [
        parsed("a.rs", "fn run() { helper(); }"),
        parsed("b.rs", "fn helper() {}"),
    ];
    let index = resolve_links(&files);
    let value = value(&project(&index, &scope_of(&["a.rs", "b.rs", "z.md"]), 4000));
    assert_eq!(value["files_without_graph"], parse(r#"["z.md"]"#));
    // b.rs is graphed and calls nothing; that is not the same as unseen.
    assert_eq!(value["files_without_links"], parse(r#"["b.rs"]"#));
}

#[test]
fn a_name_that_the_calling_file_declares_too_is_ambiguous() {
    let files = [
        parsed("a.rs", "fn run() { helper(); }\nfn helper() {}"),
        parsed("b.rs", "fn helper() {}"),
    ];
    let index = resolve_links(&files);
    assert_eq!(index.cross.len(), 1);
    assert_eq!(index.cross[0].to_path, "");
    assert_eq!(index.cross[0].candidates, vec!["b.rs"]);
    assert_eq!(internal(&index, "a.rs").unwrap_or(0), 0);
}

#[test]
fn a_name_hundreds_of_files_declare_resolves_once_and_caps_its_candidates() {
    let mut files = vec![parsed(
        "caller.rs",
        "fn run() { handle(); handle(); handle(); }",
    )];
    for i in 0..300 {
        files.push(parsed(&format!("m{i:03}.rs"), "fn handle() {}"));
    }
    let index = resolve_links(&files);
    assert_eq!(index.cross.len(), 1);
    let link = &index.cross[0];
    assert!(link.to_path.is_empty());
    assert_eq!(link.calls, 3);
    assert_eq!(link.candidates.len(), AMBIGUOUS_CANDIDATES_MAX);
}

#[test]
fn a_squeezed_budget_still_describes_every_calling_file() {
    let files = [
        parsed("a.rs", "fn a1() { t1(); t1(); t1(); }\nfn a2() { t2(); }"),
        parsed("b.rs", "fn b1() { t1(); }\nfn b2() { t2(); t2(); }"),
        parsed("t.rs", "fn t1() {}\nfn t2() {}"),
    ];
    let index = resolve_links(&files);
    let scope = scope_of(&["a.rs", "b.rs", "t.rs"]);
    let full = value(&project(&index, &scope, 4000));
    assert_eq!(full["items"].as_array().map(Vec::len), Some(4));
    let tight = value(&project(&index, &scope, 150));
    let items = tight["items"].as_array().cloned().unwrap_or_default();
    assert!(!items.is_empty() && items.len() < 4);
    let described: HashSet<&str> = items.iter().filter_map(|i| i["path"].as_str()).collect();
    // Breadth-first: a long first file cannot consume the whole budget.
    assert_eq!(described.len(), 2);
    assert!(tight["deferred_links"].as_u64().unwrap_or(0) > 0);
    // The busiest pair survives the squeeze.
    let kept = items.iter().find(|i| i["path"] == "a.rs").expect("a.rs");
    assert_eq!(kept["calls"], 3);
}

#[test]
fn site_records_fold_targetless_edges_and_drop_storage_only_fields() {
    let g = graph(
        "a.rs",
        "fn run(x: i32) -> i32 { if x > 0 { return helper(x); } while x > 1 { break; } 0 }\nfn helper(v: i32) -> i32 { v }\n",
    );
    let items: Vec<Value> = records(&g, &[(1, 99)]).iter().map(value).collect();
    let text = serde_json::to_string(&items).expect("JSON");
    assert!(items
        .iter()
        .any(|r| r["symbol"] == "run" && r["kind"] == "function"));
    assert!(items
        .iter()
        .any(|r| r["from"] == "run" && r["to"] == "helper"));
    // Every branch/return site of one symbol becomes a single counted record
    // instead of one near-empty record per site.
    let counted = items
        .iter()
        .find(|r| r["in"] == "run")
        .expect("run site counts");
    assert!(counted["sites"]["branch"].as_u64().unwrap_or(0) >= 2);
    assert_eq!(counted["sites"]["returns"], 1);
    assert_eq!(items.iter().filter(|r| r["in"] == "run").count(), 1);
    // Symbol ids and byte offsets are storage, not something the reader can check
    // against a passage.
    assert!(!text.contains("start_byte"), "{text}");
    assert!(!text.contains("\"id\""), "{text}");
}

#[test]
fn a_projection_over_several_files_carries_both_ends_of_a_connection() {
    // a.rs calls validate(), which b.rs declares. Unless the projection carries
    // the call site and the declaration together a reduction has nothing to name
    // that link with.
    let a = graph("a.rs", "fn start() { validate(); }");
    let b = graph("b.rs", "fn validate() -> bool { true }");
    let files = vec![
        ("a.rs".to_string(), records(&a, &[(1, 99)])),
        ("b.rs".to_string(), records(&b, &[(1, 99)])),
    ];
    let result = ration(&files, 4000);
    assert!(result.omitted.is_empty());
    let items: Vec<Value> = result.items.iter().map(value).collect();
    assert!(
        items
            .iter()
            .any(|r| r["path"] == "a.rs" && r["from"] == "start" && r["to"] == "validate"),
        "{items:?}"
    );
    assert!(
        items
            .iter()
            .any(|r| r["path"] == "b.rs" && r["symbol"] == "validate"),
        "{items:?}"
    );
}

#[test]
fn every_file_in_a_request_is_described_and_omissions_are_named() {
    let files = vec![
        (
            "a.rs".to_string(),
            vec![
                json(r#"{"symbol":"a1"}"#),
                json(r#"{"symbol":"a2"}"#),
                json(r#"{"symbol":"a3"}"#),
            ],
        ),
        ("b.rs".to_string(), vec![json(r#"{"symbol":"b1"}"#)]),
    ];
    let one = r#"{"path":"a.rs","symbol":"a1"}"#.len() + 1;
    let result = ration(&files, one * 2);
    // A budget for two records describes both files, not the first twice.
    assert_eq!(result.items.len(), 2);
    assert!(result.items.iter().any(|r| value(r)["path"] == "b.rs"));
    assert_eq!(
        result.omitted.iter().map(value).collect::<Vec<_>>(),
        vec![parse(r#"{"path":"a.rs","omitted_records":2}"#)]
    );
    // With room for everything nothing is reported as omitted.
    let all = ration(&files, one * 10);
    assert_eq!(all.items.len(), 4);
    assert!(all.omitted.is_empty());
}

#[test]
fn a_call_site_maps_to_one_chunk_by_line() {
    let span = |start: u32, end: u32| ChunkSpan {
        path: "a.rs".into(),
        start,
        end,
    };
    let chunks = vec![span(1, 100), span(101, 200), span(201, 300)];
    let file_chunks = vec![0usize, 1, 2];
    let at = |line: u32| {
        chunk_at(
            &chunks,
            &file_chunks,
            &Span {
                start: line,
                end: line,
                start_byte: 0,
                end_byte: 0,
            },
        )
    };
    // A site resolves to the one chunk that holds it, so a declaration split
    // across chunks no longer multiplies out against its call targets.
    assert_eq!(at(1), Some(0));
    assert_eq!(at(100), Some(0));
    assert_eq!(at(101), Some(1));
    assert_eq!(at(300), Some(2));
    assert_eq!(at(301), None);
}

#[test]
fn graph_order_keeps_connected_chunks_adjacent_and_preserves_isolates() {
    let mut adjacency: Vec<Vec<Neighbor>> = vec![vec![], vec![], vec![], vec![]];
    link(&mut adjacency, 0, 2, 5);
    link(&mut adjacency, 2, 3, 3);
    let order = graph_order(&adjacency);
    let positions: HashMap<usize, usize> = order
        .iter()
        .enumerate()
        .map(|(position, index)| (*index, position))
        .collect();
    assert!(positions[&2].abs_diff(positions[&0]) == 1);
    assert!(positions[&3].abs_diff(positions[&2]) == 1);
    assert_eq!(
        order.iter().copied().collect::<HashSet<_>>(),
        (0..4).collect()
    );
}

#[test]
fn one_hop_retrieval_reaches_callers_and_callees_without_cycle_expansion() {
    let files = vec![
        parsed(
            "a.rs",
            "fn start() { validate(); } fn validate() { store(); }",
        ),
        parsed("b.rs", "fn store() { validate(); } fn unrelated() {}"),
    ];
    let ask = |query: &str| neighborhood(&files, query, &vec![query.to_string()]);
    let selected = ask("validate");
    assert!(selected.iter().any(|t| t.path == "b.rs" && t.score == 600));
    assert!(selected.iter().any(|t| t.path == "a.rs" && t.score == 500));
    assert_eq!(selected.iter().filter(|t| t.score == 1000).count(), 1);
    assert!(ask("unknown_identifier").is_empty());
}

#[test]
fn connected_passages_are_read_together_and_none_is_lost() {
    let files = vec![
        parsed("a.rs", "fn start() { finish(); }\n"),
        parsed("b.rs", "fn other() {}\n"),
        parsed("c.rs", "fn finish() {}\n"),
    ];
    let chunk = |path: &str| ChunkSpan { path: path.into(), start: 1, end: 1 };
    let chunks = vec![chunk("a.rs"), chunk("b.rs"), chunk("c.rs"), chunk("z.md")];
    assert_eq!(order_chunks(&files, &chunks), vec![0, 2, 1, 3]);
    assert_eq!(order_chunks(&files, &vec![chunk("a.rs")]), vec![0]);
    assert!(order_chunks(&files, &vec![]).is_empty());
}

#[test]
fn weights_add_up_in_both_directions() {
    let mut adjacency: Vec<Vec<Neighbor>> = vec![vec![], vec![]];
    link(&mut adjacency, 0, 1, 3);
    link(&mut adjacency, 1, 0, 5);
    link(&mut adjacency, 1, 1, 5);
    assert_eq!(adjacency[0], vec![Neighbor { chunk: 1, weight: 8 }]);
    assert_eq!(adjacency[1], vec![Neighbor { chunk: 0, weight: 8 }]);
}

#[test]
fn structure_that_is_not_known_is_named() {
    let passage = |path: &str| Evidence {
        id: path.into(),
        path: path.into(),
        start: 1,
        end: 9,
        content: String::new(),
    };
    let evidence = vec![passage("b.md"), passage("a.rs"), passage("b.md"), passage("c.rs")];
    assert_eq!(evidence_paths(&evidence), vec!["a.rs", "b.md", "c.rs"]);
    let loaded = vec![
        Loaded { path: "a.rs".into(), graph: Some(graph("a.rs", "fn run() {}")) },
        Loaded { path: "b.md".into(), graph: Some(CodeGraph::unsupported()) },
        Loaded { path: "c.rs".into(), graph: None },
    ];
    let view = value(&describe(&loaded, &evidence, 4000));
    assert_eq!(view["items"][0]["symbol"], "run");
    assert_eq!(view["files_without_graph"][0]["reason"], "unsupported_language");
    assert_eq!(view["files_without_graph"][1]["reason"], "not_indexed");
    assert_eq!(view["deferred_records"], 0);
}

#[test]
fn names_counts_and_lists_are_capped() {
    assert_eq!(tail("a::b.c"), "c");
    assert_eq!(tail("plain"), "plain");
    assert_eq!(tail("a."), "");
    let many: Vec<String> = (0..13).map(|i| format!("f{i}")).collect();
    let view = value(&named(&many));
    assert_eq!(view["further"], 1);
    assert_eq!(view["paths"].as_array().map(Vec::len), Some(12));
    let mut counts = GraphCounts::none();
    counts.count(&graph("a.rs", "fn a() { b(); }"));
    counts.count(&CodeGraph::unsupported());
    assert_eq!((counts.files, counts.symbols, counts.unsupported), (2, 1, 1));
    assert!(!counts.syntax_complete());
}
