use doccraft::code_graph::{edge_kind, symbol_kind, CodeGraph};
use doccraft::parser::{chunk_text, language, parse_source, Name};

fn parse(source: &str, language: &str) -> CodeGraph {
    parse_source(source, language).ok().expect("parse").graph
}

#[test]
fn classes_methods_nested_scopes_and_inheritance_keep_distinct_identities() {
    let graph = parse("class Base:\n    pass\nclass A(Base):\n    def save(self):\n        def validate():\n            return True\n        return validate()\nclass B:\n    def save(self):\n        raise ValueError('cancelled')\n", "python").at_path("service.py");
    let a = graph
        .symbols
        .iter()
        .find(|s| s.qualified_name == "A::save")
        .expect("A.save");
    let b = graph
        .symbols
        .iter()
        .find(|s| s.qualified_name == "B::save")
        .expect("B.save");
    let nested = graph
        .symbols
        .iter()
        .find(|s| s.qualified_name == "A::save::validate")
        .expect("nested function");
    assert_ne!(a.id, b.id);
    assert_eq!(nested.parent.as_deref(), Some(a.id.as_str()));
    assert!(graph
        .edges
        .iter()
        .any(|e| e.kind == "calls" && e.source == a.id && e.target == "validate"));
    assert!(graph
        .edges
        .iter()
        .any(|e| e.kind == "error_path" && e.source == b.id));
    assert!(graph
        .edges
        .iter()
        .any(|e| e.kind == "inherits" && e.target.contains("Base")));
}

#[test]
fn graph_does_not_truncate_relations_or_symbols_at_old_limits() {
    let text = format!(
        "fn entry() {{ {} }}\n{}",
        "work();".repeat(10_050),
        (0..130)
            .map(|n| format!("fn helper_{n}() {{}}\n"))
            .collect::<String>()
    );
    let graph = parse(&text, "rust");
    assert_eq!(
        graph.edges.iter().filter(|e| e.kind == "calls").count(),
        10_050
    );
    assert_eq!(graph.symbols.len(), 132);
    let a = graph.at_path("a.rs");
    let b = graph.at_path("b.rs");
    assert_ne!(a.symbols[1].id, b.symbols[1].id);
    let again = graph.at_path("a.rs");
    let ids = |g: &CodeGraph| g.symbols.iter().map(|s| s.id.clone()).collect::<Vec<_>>();
    assert_eq!(ids(&a), ids(&again));
}

#[test]
fn go_receiver_methods_and_javascript_arrow_functions_are_named() {
    let go = parse(
        "package p\ntype A struct{}\ntype B struct{}\nfunc (a A) Save() {}\nfunc (b B) Save() {}",
        "go",
    );
    let methods: Vec<_> = go.symbols.iter().filter(|s| s.name == "Save").collect();
    assert_eq!(methods.len(), 2);
    assert_ne!(methods[0].qualified_name, methods[1].qualified_name);
    let js = parse(
        "export const save = () => { if (cancelled) throw new Error('cancel'); return store(); };",
        "javascript",
    );
    assert!(js
        .symbols
        .iter()
        .any(|s| s.name == "save" && s.kind == "closure"));
    assert!(js.edges.iter().any(|e| e.kind == "error_path"));
}

#[test]
fn eight_languages_name_their_functions_and_lose_no_text() {
    for (path, text) in [
        ("service.rs", "fn save(x: i32) -> i32 { if x > 0 { return x; } 0 }\n"),
        ("service.py", "def save(x):\n    if x:\n        return x\n"),
        ("service.js", "function save(x) { if (x) { return x; } }\n"),
        ("service.ts", "function save(x: number): number { if (x) { return x; } return 0; }\n"),
        ("Service.java", "class Service { int save(int x) { if (x > 0) { return x; } return 0; } }\n"),
        ("service.go", "package p\nfunc save(x int) int { if x > 0 { return x }; return 0 }\n"),
        ("service.c", "int save(int x) { if (x) { return x; } return 0; }\n"),
        ("service.cpp", "int save(int x) { if (x) { return x; } return 0; }\n"),
    ] {
        let parsed = parse_source(text, language(path)).ok().expect(path);
        assert!(parsed.graph.supported && !parsed.graph.parse_errors, "{path}");
        let functions: Vec<_> = parsed
            .graph
            .symbols
            .iter()
            .filter(|s| matches!(s.kind.as_str(), "method" | "function"))
            .collect();
        assert!(!functions.is_empty(), "{path}");
        for s in functions {
            assert!(text[s.span.start_byte..s.span.end_byte].contains(&s.name), "{path}: {}", s.name);
            assert_eq!(s.name, "save", "{path}");
        }
        assert!(parsed.graph.edges.iter().any(|e| e.kind == "branch"), "{path}");
        assert!(!parsed.has_errors, "{path}");
        assert_eq!(
            parsed.chunks.iter().map(|c| c.content.as_str()).collect::<String>(),
            text
        );
    }
}

#[test]
fn unicode_byte_limit_preserves_available_line_boundary() {
    let first_line = format!("{}\n", "a".repeat(11989));
    let text = format!("{first_line}{}", "가".repeat(10));
    let chunks = chunk_text(&text, &vec![0], &vec![]);
    assert_eq!(chunks[0].content, first_line);
    assert_eq!((chunks[0].start, chunks[0].end), (1, 1));
    assert_eq!(
        chunks
            .iter()
            .map(|c| c.content.as_str())
            .collect::<String>(),
        text
    );
}

#[test]
fn long_unicode_line_is_lossless() {
    let text = "한글🦀".repeat(9000);
    let chunks = chunk_text(&text, &vec![0], &vec![]);
    assert!(chunks.len() > 1);
    assert_eq!(
        chunks
            .iter()
            .map(|c| c.content.as_str())
            .collect::<String>(),
        text
    );
    assert!(chunks
        .iter()
        .all(|c| c.content.len() <= 12_000 && c.start == 1));
}

#[test]
fn line_ranges_are_exact() {
    let chunks = chunk_text("a\nb\n", &vec![0], &vec![]);
    assert_eq!(chunks.first().map(|c| (c.start, c.end)), Some((1, 2)));
}

#[test]
fn chunks_carry_the_names_they_declare() {
    let names = vec![
        Name { at: 0, name: "a".into() },
        Name { at: 9, name: "z".into() },
    ];
    let chunks = chunk_text("one\ntwo\n", &vec![0], &names);
    assert_eq!(chunks[0].symbols, vec!["a"]);
}

#[test]
fn kinds_and_languages_are_known_by_their_names() {
    assert_eq!(language("a/B.TSX"), "tsx");
    assert_eq!(language("Makefile"), "text");
    assert_eq!(symbol_kind("function_item"), Some("function"));
    assert_eq!(symbol_kind("identifier"), None);
    assert_eq!(edge_kind("call_expression"), Some("calls"));
    assert_eq!(edge_kind("identifier"), None);
    let plain = parse_source("just text\n", "text").ok().expect("text");
    assert!(!plain.graph.supported);
}
