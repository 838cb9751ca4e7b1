//! Fences: the one that opens or closes a code block, the one around a whole
//! answer, and those of diagrams.

use vstd::prelude::*;
use vstd::string::StringExecFns;

use super::lines::{
    joined_lines, line_models, lines_in, lines_ok, split_lines, strip_ending, LineModel,
};
use crate::code_blocks::{char_at, find_run_end, run_end, Extent};
use crate::editorial::{bare_line, in_bytes};
use crate::text::{
    ascii_lower, blen, byte_offsets, is_blank, join_with, slice, texts, to_chars, trim, trimmed,
};

verus! {

/// A fence: its character, its width and what follows it on its line.
pub struct FenceModel {
    pub marker: char,
    pub width: int,
    pub info: Seq<char>,
}

/// The fence that a line is: up to three spaces and three or more backticks or
/// tildes.
pub open spec fn fence_of(line: Seq<char>) -> Option<FenceModel> {
    let indent = run_end(line, ' ', 0);
    let rest = line.skip(indent);
    let marker = char_at(rest, 0);
    let width = run_end(rest, marker, 0);
    if indent <= 3 && rest.len() > 0 && (marker == '`' || marker == '~') && width >= 3 {
        Some(FenceModel { marker, width, info: rest.skip(width) })
    } else {
        None
    }
}

/// A fence on a line.
pub struct FenceSpec {
    pub marker: char,
    pub width: usize,
    pub info: String,
}

impl View for FenceSpec {
    type V = FenceModel;

    open spec fn view(&self) -> FenceModel {
        FenceModel { marker: self.marker, width: self.width as int, info: self.info@ }
    }
}

/// The fence that a line is.
pub fn fence_spec(line: &str) -> (r: Option<FenceSpec>)
    ensures
        match fence_of(line@) {
            Some(f) => r is Some && r->0@ == f,
            None => r is None,
        },
{
    let chars = to_chars(line);
    let n: usize = chars.len();
    assert(line@.subrange(0, n as int) =~= line@);
    let lead: usize = find_run_end(chars.as_slice(), ' ', 0, n);
    let ghost rest = line@.skip(lead as int);
    assert(rest =~= line@.subrange(lead as int, n as int));
    if lead > 3 || lead == n {
        return None;
    }
    let marker = chars[lead];
    assert(rest[0] == marker);
    if marker != '`' && marker != '~' {
        return None;
    }
    let end: usize = find_run_end(chars.as_slice(), marker, lead, n);
    if end - lead < 3 {
        return None;
    }
    let info = slice(chars.as_slice(), end, n);
    assert(info@ =~= rest.skip(end - lead));
    Some(FenceSpec { marker, width: end - lead, info })
}

/// Two texts are the same but for the case of ASCII letters.
pub open spec fn same_letters(a: Seq<char>, b: Seq<char>) -> bool {
    a.map_values(|c: char| ascii_lower(c)) == b.map_values(|c: char| ascii_lower(c))
}

/// The lower case of an ASCII letter.
fn lower(c: char) -> (r: char)
    ensures
        r == ascii_lower(c),
{
    if 'A' <= c && c <= 'Z' {
        ((c as u8) + 32) as char
    } else {
        c
    }
}

/// Whether two texts are the same but for the case of ASCII letters.
pub fn equal_ignoring_case(a: &str, b: &str) -> (r: bool)
    ensures
        r == same_letters(a@, b@),
{
    let x = to_chars(a);
    let y = to_chars(b);
    let ghost p = a@.map_values(|c: char| ascii_lower(c));
    let ghost q = b@.map_values(|c: char| ascii_lower(c));
    if x.len() != y.len() {
        assert(p.len() != q.len());
        return false;
    }
    let mut i: usize = 0;
    while i < x.len()
        invariant
            i <= x@.len(),
            x@.len() == y@.len(),
            x@ == a@,
            y@ == b@,
            p == a@.map_values(|c: char| ascii_lower(c)),
            q == b@.map_values(|c: char| ascii_lower(c)),
            forall|k: int| 0 <= k < i ==> ascii_lower(#[trigger] a@[k]) == ascii_lower(b@[k]),
        decreases x@.len() - i,
    {
        if lower(x[i]) != lower(y[i]) {
            assert(p[i as int] != q[i as int]);
            return false;
        }
        i += 1;
    }
    assert(p =~= q);
    true
}

// ---------------------------------------------------------------------------
// The outer fence
// ---------------------------------------------------------------------------

/// The texts of some lines, without their endings.
pub open spec fn bare_lines(lines: Seq<LineModel>) -> Seq<Seq<char>> {
    lines.map_values(|l: LineModel| bare_line(l.text))
}

/// An answer stands in a fence that says it is Markdown.
pub open spec fn is_wrapped(lines: Seq<Seq<char>>) -> bool {
    lines.len() >= 2 && match (fence_of(lines[0]), fence_of(lines.last())) {
        (Some(open), Some(close)) => {
            &&& same_letters(trim(open.info), "markdown"@) || same_letters(
                trim(open.info),
                "md"@,
            )
            &&& open.marker == close.marker
            &&& close.width >= open.width
            &&& trim(close.info).len() == 0
        },
        _ => false,
    }
}

/// An answer without the fence around it.
pub open spec fn unwrapped(markdown: Seq<char>) -> Seq<char> {
    let whole = trim(markdown);
    let lines = bare_lines(lines_in(whole));
    if is_wrapped(lines) {
        trim(joined_lines(lines.subrange(1, lines.len() - 1)))
    } else {
        whole
    }
}

/// Removes the Markdown fence that models occasionally put around the Markdown
/// they were asked for, so that the fences in it are structure again.
pub fn unwrap_outer_markdown_fence(markdown: &str) -> (r: String)
    ensures
        r@ == unwrapped(markdown@),
{
    let whole = trimmed(markdown);
    let lines = split_lines(whole.as_str());
    let ghost ls = line_models(lines@);
    let ghost bare = bare_lines(ls);
    assert(bare.len() == lines@.len());
    let n: usize = lines.len();
    if n < 2 {
        return whole;
    }
    assert(bare[0] == bare_line(lines@[0].text@));
    assert(bare.last() == bare_line(lines@[n - 1].text@));
    let first = strip_ending(lines[0].text.as_str());
    let last = strip_ending(lines[n - 1].text.as_str());
    let open = match fence_spec(first.as_str()) {
        Some(f) => f,
        None => {
            return whole;
        },
    };
    let close = match fence_spec(last.as_str()) {
        Some(f) => f,
        None => {
            return whole;
        },
    };
    let info = trimmed(open.info.as_str());
    if !equal_ignoring_case(info.as_str(), "markdown") && !equal_ignoring_case(info.as_str(), "md") {
        return whole;
    }
    if open.marker != close.marker || close.width < open.width || !is_blank(close.info.as_str()) {
        return whole;
    }
    assert(is_wrapped(bare));
    let ghost goal = bare.subrange(1, n - 1);
    let mut inner: Vec<String> = Vec::new();
    let mut i: usize = 1;
    assert(texts(inner@) =~= goal.take(0));
    while i < n - 1
        invariant
            1 <= i <= n - 1,
            n == lines@.len(),
            ls == line_models(lines@),
            bare == bare_lines(ls),
            goal == bare.subrange(1, n - 1),
            texts(inner@) == goal.take(i - 1),
        decreases n - i,
    {
        assert(bare[i as int] == bare_line(lines@[i as int].text@));
        let text = strip_ending(lines[i].text.as_str());
        assert(texts(inner@.push(text)) =~= texts(inner@).push(text@));
        assert(goal.take(i as int) =~= goal.take(i - 1).push(text@));
        inner.push(text);
        i += 1;
    }
    assert(goal.take(n - 2) =~= goal);
    trimmed(join_with(&inner, "\n").as_str())
}

// ---------------------------------------------------------------------------
// Diagrams
// ---------------------------------------------------------------------------

/// A fence that is open: its character and width, where it begins, and whether
/// it holds a diagram.
pub struct OpenFence {
    pub marker: char,
    pub width: int,
    pub start: int,
    pub diagram: bool,
}

/// A line closes an open fence.
pub open spec fn closes(line: Seq<char>, open: OpenFence) -> bool {
    match fence_of(line) {
        Some(f) => f.marker == open.marker && f.width >= open.width && trim(f.info).len() == 0,
        None => false,
    }
}

/// The diagrams that end in the first `count` lines, and the fence that is then
/// open.
pub open spec fn diagrams(lines: Seq<LineModel>, count: nat) -> (Seq<Extent>, Option<OpenFence>)
    decreases count,
{
    if count == 0 {
        (Seq::empty(), None)
    } else {
        let (found, open) = diagrams(lines, (count - 1) as nat);
        let l = lines[count - 1];
        match open {
            Some(o) => if closes(l.text, o) {
                (
                    if o.diagram {
                        found.push((o.start, l.at + l.text.len() as int))
                    } else {
                        found
                    },
                    None,
                )
            } else {
                (found, open)
            },
            None => match fence_of(l.text) {
                Some(f) => (
                    found,
                    Some(
                        OpenFence {
                            marker: f.marker,
                            width: f.width,
                            start: l.at,
                            diagram: same_letters(trim(f.info), "mermaid"@),
                        },
                    ),
                ),
                None => (found, None),
            },
        }
    }
}

/// The diagrams of a text, fences included.
pub open spec fn diagram_blocks(s: Seq<char>) -> Seq<Extent> {
    diagrams(lines_in(s), lines_in(s).len()).0
}

/// Byte ranges of the diagrams of a text, fences included.
pub fn mermaid_blocks(markdown: &str) -> (r: Vec<core::ops::Range<usize>>)
    ensures
        r@.len() == diagram_blocks(markdown@).len(),
        forall|k: int|
            0 <= k < r@.len() ==> in_bytes(
                markdown@,
                diagram_blocks(markdown@)[k],
                (#[trigger] r@[k]).start,
                r@[k].end,
            ),
{
    let ghost s = markdown@;
    let lines = split_lines(markdown);
    let offsets = byte_offsets(markdown);
    let ghost ls = line_models(lines@);
    let n: usize = lines.len();
    assert(ls.len() == n);
    let mut r: Vec<core::ops::Range<usize>> = Vec::new();
    let mut open: Option<(char, usize, usize, bool)> = None;
    let mut i: usize = 0;
    while i < n
        invariant
            i <= n,
            n == lines@.len(),
            s == markdown@,
            ls == line_models(lines@),
            ls.len() == n,
            lines_ok(s, ls, 0),
            offsets@.len() == s.len() + 1,
            forall|k: int| 0 <= k <= s.len() ==> #[trigger] offsets@[k] == blen(s.take(k)),
            match open {
                Some((marker, width, start, diagram)) => {
                    &&& start <= s.len()
                    &&& diagrams(ls, i as nat).1 == Some(
                        OpenFence { marker, width: width as int, start: start as int, diagram },
                    )
                },
                None => diagrams(ls, i as nat).1 is None,
            },
            r@.len() == diagrams(ls, i as nat).0.len(),
            forall|k: int|
                0 <= k < r@.len() ==> in_bytes(
                    s,
                    diagrams(ls, i as nat).0[k],
                    (#[trigger] r@[k]).start,
                    r@[k].end,
                ),
        decreases n - i,
    {
        let l = &lines[i];
        assert(ls[i as int] == l@);
        let fence = fence_spec(l.text.as_str());
        match open {
            Some((marker, width, start, diagram)) => {
                let closed = match &fence {
                    Some(f) => f.marker == marker && f.width >= width && is_blank(f.info.as_str()),
                    None => false,
                };
                if closed {
                    if diagram {
                        let size: usize = to_chars(l.text.as_str()).len();
                        let total: usize = offsets.len();
                        assert(l.at + size < total);
                        let end: usize = l.at + size;
                        r.push(offsets[start]..offsets[end]);
                    }
                    open = None;
                }
            },
            None => {
                if let Some(f) = fence {
                    let info = trimmed(f.info.as_str());
                    let diagram = equal_ignoring_case(info.as_str(), "mermaid");
                    open = Some((f.marker, f.width, l.at, diagram));
                }
            },
        }
        i += 1;
    }
    r
}

} // verus!
