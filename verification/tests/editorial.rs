use doccraft::citations::{compact_against, compact_evidence_ids, warning_citations};
use doccraft::editorial::{
    cited, code_ranges, count_mermaid, digest, excerpt, has_unclosed_fence, markdown_headings, render_sections,
    replace_citation,
};
use doccraft::json::Json;
use doccraft::llm::repair::decode;
use doccraft::model::{Evidence, Section};
use serde_json::Value;

fn value(json: &Json) -> Value {
    serde_json::from_str(&json.to_text()).expect("JSON")
}

#[test]
fn excerpts_bound_unicode_and_keep_both_ends() {
    let text = format!("시작{}끝", "한글본문".repeat(10000));
    let summary = excerpt(&text, 1000);
    assert!(summary.len() <= 1000);
    assert!(summary.starts_with("시작") && summary.ends_with("끝"));
    assert!(excerpt(&text, 3).len() <= 3);
}

#[test]
fn a_review_warning_lands_on_the_same_footnote_as_the_body() {
    let cited_ev = Evidence {
        id: "a".repeat(64),
        path: "/repo/backend/src/server.js".into(),
        start: 2,
        end: 9,
        content: "source".into(),
    };
    let only_supplied = Evidence {
        id: "b".repeat(64),
        path: "/repo/backend/src/oracle.js".into(),
        ..cited_ev.clone()
    };
    let section = Section {
        title: "요청 처리".into(),
        markdown: format!("응답을 기록한다 [E:{}].", cited_ev.id),
        evidence: vec![cited_ev.clone(), only_supplied.clone()],
    };
    let sections = [section];
    let (body, _) = render_sections(&sections);
    assert!(body.contains("[^s1]"));

    // Cited by the body: the warning points at the footnote the reader already
    // has, not at a hash they can do nothing with.
    let fixed = warning_citations(
        &format!(
            "[minor] 근거 [E:{}]에서 훅 존재까지만 확인된다.",
            &cited_ev.id[..8]
        ),
        &sections,
    );
    assert_eq!(fixed, "[minor] 근거 [^s1]에서 훅 존재까지만 확인된다.");

    // Supplied but never cited, so it has no footnote; the file is what the
    // sentence is about.
    let fixed = warning_citations(
        &format!(
            "[minor] 제공된 [E:{}] 발췌에는 정리 코드가 없다.",
            &only_supplied.id[..10]
        ),
        &sections,
    );
    assert_eq!(
        fixed,
        "[minor] 제공된 `oracle.js` 발췌에는 정리 코드가 없다."
    );

    // Names no supplied passage at all, so it identified nothing to keep.
    let fixed = warning_citations("[minor] 근거 [E:deadbeef99]는 확인되지 않는다.", &sections);
    assert_eq!(fixed, "[minor] 근거 는 확인되지 않는다.");
    assert!(!fixed.contains("[E:"));
}

#[test]
fn a_warning_that_quotes_the_citation_syntax_keeps_it() {
    let e = Evidence {
        id: "a".repeat(64),
        path: "/repo/src/server.js".into(),
        start: 2,
        end: 9,
        content: "source".into(),
    };
    let sections = [Section {
        title: "인용".into(),
        markdown: format!("본문 [E:{}].", e.id),
        evidence: vec![e.clone()],
    }];
    let warning = format!(
        "[minor] 예시 `[E:{}]` 표기는 그대로 두어야 한다.",
        &e.id[..8]
    );
    assert_eq!(warning_citations(&warning, &sections), warning);
}

#[test]
fn citations_are_short_but_traceable_and_unused_evidence_is_omitted() {
    let e = Evidence {
        id: "a".repeat(64),
        path: "source.rs".into(),
        start: 2,
        end: 9,
        content: "source".into(),
    };
    let unused = Evidence {
        id: "unused".into(),
        ..e.clone()
    };
    let s = Section {
        title: "Operate".into(),
        markdown: format!("First [E:{}]. Then [E:{}].", e.id, e.id),
        evidence: vec![e.clone(), unused],
    };
    let (body, refs) = render_sections(&[s]);
    assert_eq!(body.matches("[^s1]").count(), 2);
    assert!(!body.contains(&e.id));
    assert!(refs.contains(&e.id) && refs.contains("L2–L9"));
    assert!(!refs.contains("unused"));
}

#[test]
fn fence_balance_follows_commonmark_closing_rules() {
    assert!(!has_unclosed_fence(
        "~~~~rust\nlet value = 1;\n~~~~\n\n```text\nplain\n```"
    ));
    assert!(has_unclosed_fence(
        "```markdown\n```mermaid\nflowchart LR\nA-->B\n```\n```"
    ));
    assert!(has_unclosed_fence("~~~rust\nlet value = 1;"));
}

#[test]
fn a_code_span_does_not_cross_a_blank_line() {
    let e = Evidence {
        id: "d".repeat(64),
        path: "parse.js".into(),
        start: 1,
        end: 9,
        content: "function parseCandidate() {}".into(),
    };
    // A stray backtick with no closer in its own paragraph used to pair with one
    // several paragraphs later, marking every citation between them as a code
    // example.
    let section = Section {
        title: "파싱".into(),
        markdown: format!(
            "여는 ` 문자는 문자열 안에만 온다.\n\n파서는 중괄호 깊이를 센다 [E:{id}].\n\n`parseCandidate`가 끝을 정한다.\n",
            id = e.id
        ),
        evidence: vec![e.clone()],
    };
    let (body, refs) = render_sections(std::slice::from_ref(&section));
    assert!(body.contains("[^s1]"), "{body}");
    assert!(
        !body.contains(&e.id),
        "a raw citation reached the document: {body}"
    );
    assert!(refs.contains(&e.id));
    // A span that opens and closes normally is still a literal.
    let ranges = code_ranges("Call `parseCandidate` now.");
    assert!(ranges.iter().any(|r| r.contains(&6)), "{ranges:?}");
}

#[test]
fn list_indentation_is_not_code_but_real_indented_blocks_still_are() {
    let e = Evidence {
        id: "b".repeat(64),
        path: "source.rs".into(),
        start: 1,
        end: 4,
        content: "source".into(),
    };
    // Four spaces is an ordinary third-level bullet, and a continuation line
    // under an ordered item is item text, not a code literal.
    let nested = format!(
        "- 상위\n  - 중간\n    - 하위는 값을 검증한다 [E:{id}]\n\n1. 첫째\n    이어지는 설명 [E:{id}]\n",
        id = e.id
    );
    let section = Section {
        title: "절차".into(),
        markdown: nested,
        evidence: vec![e.clone()],
    };
    let (body, refs) = render_sections(std::slice::from_ref(&section));
    assert_eq!(body.matches("[^s1]").count(), 2, "{body}");
    assert!(
        !body.contains(&e.id),
        "a raw citation reached the document: {body}"
    );
    assert!(refs.contains(&e.id));
    // A genuinely indented block after a blank line, and one right after a
    // closing fence, are still literals.
    let literal = format!(
        "설명\n\n    [E:{id}]\n\n~~~~\ncode\n~~~~\n    [E:{id}]\n",
        id = e.id
    );
    let ranges = code_ranges(&literal);
    assert_eq!(
        literal
            .match_indices(&format!("[E:{}]", e.id))
            .filter(|(at, _)| ranges.iter().any(|r| r.contains(at)))
            .count(),
        2,
        "{ranges:?}"
    );
}

#[test]
fn digest_counts_only_rendered_headings() {
    let section = Section {
        title: "Examples".into(),
        markdown:
            "### 실제 제목\n\n```text\n# 명령 예시\n## 출력 예시\n```\n\n    # 들여쓴 코드\n"
                .into(),
        evidence: vec![],
    };
    let digest = digest(&[section], 4000);
    assert_eq!(value(&digest[0])["heading_count"], 1);
    assert_eq!(value(&digest[0])["headings"], "### 실제 제목");
}

#[test]
fn aliases_are_unique_and_source_content_is_unchanged() {
    let a = format!("12345678a{}", "0".repeat(55));
    let b = format!("12345678b{}", "0".repeat(55));
    let source = format!("// Source contains [E:{a}]");
    let input = decode(&format!(
        r#"{{"evidence":[{{"id":"{a}","path":"a.rs","content":"{source}"}},{{"id":"{b}","path":"b.rs","content":"code"}}],"source_anchors":[{{"id":"{a}","path":"a.rs","previously_read":true}}],"correction":{{"previous":"Fact [E:{a}] [E:{b}] [E:unknown]"}}}}"#
    ))
    .ok()
    .expect("JSON");
    let input = value(&compact_evidence_ids(&input));
    assert_eq!(input["evidence"][0]["id"], "12345678a");
    assert_eq!(input["source_anchors"][0]["id"], "12345678a");
    assert_eq!(input["evidence"][1]["id"], "12345678b");
    assert_eq!(input["evidence"][0]["content"], source);
    assert_eq!(
        input["correction"]["previous"],
        "Fact [E:12345678a] [E:12345678b] [E:unknown]"
    );
}

#[test]
fn ids_are_shortened_against_a_given_list() {
    let a = "a".repeat(64);
    let input = decode(&format!("[\"{a}\",\"other\"]")).ok().expect("JSON");
    assert_eq!(
        compact_against(&input, &vec![a]).to_text(),
        "[\"aaaaaaaa\",\"other\"]"
    );
}

#[test]
fn headings_diagrams_and_citations_are_counted_outside_code() {
    assert_eq!(
        markdown_headings("# One\n```\n# no\n```\n   ## Two\n    # code\n"),
        vec!["# One", "## Two"]
    );
    assert_eq!(count_mermaid("```mermaid\nA\n```\n  ```mermaid\nB\n```\n"), 2);
    assert_eq!(
        replace_citation("`[E:x]` and [E:x]", "x", "[^s1]"),
        "`[E:x]` and [^s1]"
    );
    let e = Evidence {
        id: "abc".into(),
        path: "p".into(),
        start: 1,
        end: 1,
        content: String::new(),
    };
    let section = |text: &str| Section {
        title: "t".into(),
        markdown: text.into(),
        evidence: vec![e.clone()],
    };
    assert_eq!(cited(&[section("[E:abc]"), section("[E:abc]")]).len(), 1);
    assert!(cited(&[section("none")]).is_empty());
}
