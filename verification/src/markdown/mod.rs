//! Markdown that a document is put together from: fences, headings, citations
//! and subsections of what a model wrote. Code is literal text throughout.

pub mod citing;
pub mod fences;
pub mod headings;
pub mod lines;
pub mod prose;
pub mod subsections;

use vstd::prelude::*;

use crate::model::Evidence;

use self::citing::{normalize_citations, normalized_citations};
use self::fences::{unwrap_outer_markdown_fence, unwrapped};
use self::headings::{normalize_section_headings, normalized_headings};

verus! {

/// The text of a section made ready: without an outer fence, with citations in
/// full and headings at their depth.
pub open spec fn prepared(markdown: Seq<char>, evidence: Seq<Evidence>, title: Seq<char>) -> Seq<char> {
    normalized_headings(normalized_citations(unwrapped(markdown), evidence), title)
}

/// Makes the text of a section ready.
pub fn prepare_section_markdown(markdown: &str, evidence: &[Evidence], title: &str) -> (r: String)
    ensures
        r@ == prepared(markdown@, evidence@, title@),
{
    let bare = unwrap_outer_markdown_fence(markdown);
    let cited = normalize_citations(bare.as_str(), evidence);
    normalize_section_headings(cited.as_str(), title)
}

} // verus!
