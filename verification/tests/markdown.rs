use doccraft::markdown::citing::normalize_citations;
use doccraft::markdown::fences::{fence_spec, mermaid_blocks, unwrap_outer_markdown_fence};
use doccraft::markdown::headings::{canonical_heading, normalize_section_headings, strip_heading_number};
use doccraft::markdown::prepare_section_markdown;
use doccraft::markdown::prose::prose_blocks;
use doccraft::markdown::subsections::{splice_subsections, subsections, SpliceFault, SUBSECTION_MARKER};
use doccraft::model::{Evidence, Section};

fn passage(id: &str) -> Evidence {
    Evidence {
        id: id.into(),
        path: "a.rs".into(),
        start: 1,
        end: 2,
        content: "code".into(),
    }
}

fn parts(list: &[&str]) -> Vec<String> {
    list.iter().map(|p| p.to_string()).collect()
}

#[test]
fn a_fence_is_up_to_three_spaces_and_three_marks() {
    let f = fence_spec("  ````rust").expect("fence");
    assert_eq!((f.marker, f.width, f.info.as_str()), ('`', 4, "rust"));
    assert_eq!(fence_spec("~~~").map(|f| f.marker), Some('~'));
    assert!(fence_spec("    ```").is_none());
    assert!(fence_spec("``").is_none());
    assert!(fence_spec("text").is_none());
}

#[test]
fn an_outer_markdown_fence_is_taken_off() {
    assert_eq!(
        unwrap_outer_markdown_fence("```markdown\n## A\n\ntext\n```\n"),
        "## A\n\ntext"
    );
    assert_eq!(unwrap_outer_markdown_fence("````MD\nx\n`````"), "x");
    // Another language, a shorter end and a lone fence stay.
    assert_eq!(unwrap_outer_markdown_fence("```rust\nx\n```"), "```rust\nx\n```");
    assert_eq!(unwrap_outer_markdown_fence("````md\nx\n```"), "````md\nx\n```");
    assert_eq!(unwrap_outer_markdown_fence("```md"), "```md");
    assert_eq!(unwrap_outer_markdown_fence("  "), "");
}

#[test]
fn numbers_leave_headings() {
    assert_eq!(strip_heading_number("1. Start"), "Start");
    assert_eq!(strip_heading_number("2.3 Flow"), "Flow");
    assert_eq!(strip_heading_number("제 3 장: 개요"), "개요");
    assert_eq!(strip_heading_number("4) Next"), "Next");
    // A number that belongs to a word is no number of a heading.
    assert_eq!(strip_heading_number("3D rendering"), "3D rendering");
    assert_eq!(strip_heading_number("Plain"), "Plain");
    assert_eq!(canonical_heading("1. The (Big) FLOW: a–b"), "thebigflowab");
}

#[test]
fn section_headings_stay_below_their_section() {
    // Shallow headings move down, deep ones up, and the section's own title goes.
    assert_eq!(
        normalize_section_headings("# Title\n\ntext\n## Part\n```\n# code\n```", "title"),
        "text\n### Part\n```\n# code\n```"
    );
    assert_eq!(
        normalize_section_headings("##### Deep\n###### Deeper", "t"),
        "### Deep\n#### Deeper"
    );
}

#[test]
fn citations_resolve_to_supplied_passages() {
    let evidence = [passage("0123456789abcdef"), passage("fedcba9876543210")];
    let text = "a [E:01234567] b [E:fedcba98, 01234567] c `[E:01234567]`";
    assert_eq!(
        normalize_citations(text, &evidence),
        "a [E:0123456789abcdef] b [E:fedcba9876543210][E:0123456789abcdef] c `[E:01234567]`"
    );
    assert_eq!(
        prepare_section_markdown("```md\n# T\n\nx [E:01234567]\n```", &evidence, "T"),
        "x [E:0123456789abcdef]"
    );
}

#[test]
fn diagrams_are_found_by_their_bytes() {
    let text = "é\n```mermaid\nflowchart\n```\n```rust\n```\n";
    let found = mermaid_blocks(text);
    assert_eq!(found.len(), 1);
    assert_eq!(&text[found[0].clone()], "```mermaid\nflowchart\n```\n");
    // One that is not closed is none.
    assert!(mermaid_blocks("```mermaid\nflowchart").is_empty());
}

#[test]
fn prose_is_compared_by_its_words() {
    let words: Vec<String> = (0..40).map(|i| format!("Word{i}")).collect();
    let section = Section {
        title: "T".into(),
        markdown: format!(
            "## Heading\n{} [E:abc]\n\n```\ncode code\n```\n\nshort",
            words.join(", ")
        ),
        evidence: vec![],
    };
    let blocks = prose_blocks(&[section]);
    assert_eq!(blocks.len(), 1);
    assert_eq!((blocks[0].section, blocks[0].block), (0, 0));
    assert!(blocks[0].normalized.starts_with("word0 word1 word2"));
    assert!(blocks[0].normalized.ends_with("word39"));
    assert_eq!(blocks[0].shingles.len(), 39);
    assert!(blocks[0].shingles.contains(&"word0\u{0}word1".to_string()));
}

#[test]
fn a_draft_is_split_at_its_top_headings() {
    assert_eq!(
        subsections("intro\n### A\na\n#### B\nb\n### C\n```\n### no\n```\n"),
        ["intro", "### A\na\n#### B\nb", "### C\n```\n### no\n```"]
    );
    assert_eq!(subsections("plain"), ["plain"]);
}

#[test]
fn only_the_subsections_that_were_shown_change() {
    let draft = parts(&["intro", "### A\na", "### B\nb"]);
    let marker = |n: usize| format!("{SUBSECTION_MARKER}{n} -->");
    // Several subsections, one of them new, each behind its marker.
    let output = format!("{}\n### A\nbetter\n{}\n### New\nn", marker(1), marker(3));
    assert_eq!(
        splice_subsections(&draft, &output, Some(&[1, 3])).ok().flatten().as_deref(),
        Some("intro\n\n### A\nbetter\n\n### B\nb\n\n### New\nn")
    );
    // An answer to a single one needs no marker, and may wrap itself in a fence.
    assert_eq!(
        splice_subsections(&draft, "```md\n### B\nc\n```", Some(&[2])).ok().flatten().as_deref(),
        Some("intro\n\n### A\na\n\n### B\nc")
    );
    // A whole rewrite is taken as one.
    assert_eq!(splice_subsections(&draft, "### Whole\nlong enough", None).ok(), Some(None));
    let fault = |output: &str, targets: Option<&[usize]>| splice_subsections(&draft, output, targets).err();
    assert!(matches!(fault("x", None), Some(SpliceFault::TooShort(1, 19))));
    assert!(matches!(fault("x", Some(&[1, 2])), Some(SpliceFault::NoMarkers)));
    assert!(matches!(
        fault(&format!("before\n{}\nx", marker(1)), Some(&[1, 2])),
        Some(SpliceFault::Before)
    ));
    assert!(matches!(
        fault(&format!("{}\nx", marker(0)), Some(&[1, 2])),
        Some(SpliceFault::NotShown(0))
    ));
    assert!(matches!(
        fault(&format!("{}\nx", marker(7)), None),
        Some(SpliceFault::NoSuch(7))
    ));
    assert!(matches!(
        fault(&format!("{}\nx\n{}\ny", marker(1), marker(1)), None),
        Some(SpliceFault::Twice(1))
    ));
    // Digits of other scripts make a marker whose number cannot be read.
    assert!(matches!(
        fault("<!-- DOCCRAFT_SUBSECTION #١ -->\nx", None),
        Some(SpliceFault::Number)
    ));
    assert_eq!(
        SpliceFault::Twice(1).message(3, &[]),
        "Subsection 1 is replaced twice"
    );
    assert_eq!(
        SpliceFault::NotShown(0).message(3, &[1, 2]),
        "Subsection marker 0 names a subsection this repair was not shown; return only [1, 2]"
    );
}
