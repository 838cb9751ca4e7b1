//! Headings: their text without a number, and their depth in a section.

use vstd::prelude::*;
use vstd::string::StringExecFns;

use super::lines::{joined_lines, line_models, lines_in, split_lines, strip_ending, Line, LineModel};
use crate::code_blocks::{
    char_at, code, extents, find_code, find_run_end, lies_within, run_end, within, Extent,
};
use crate::editorial::bare_line;
use crate::text::{
    is_ascii_digit, is_space, join_with, lower_char, same, slice, space, texts, to_chars, to_lower_char, trim,
    trim_bounds, trim_start, trimmed,
};

verus! {

// ---------------------------------------------------------------------------
// The text of a heading
// ---------------------------------------------------------------------------

/// Where the number that starts at `from` ends: a run of digits and dots.
pub open spec fn number_end(s: Seq<char>, from: int) -> int
    decreases s.len() - from,
{
    if 0 <= from < s.len() && (is_ascii_digit(s[from]) || s[from] == '.') {
        number_end(s, from + 1)
    } else {
        from
    }
}

/// A character that sets a number apart from the text behind it.
pub open spec fn separates(c: char) -> bool {
    c == ':' || c == '：' || c == ')' || c == '）' || c == '-' || c == '–' || c == '—'
}

/// A character that may be left behind a number.
pub open spec fn leftover(c: char) -> bool {
    separates(c) || c == '.' || c == ' '
}

/// A text without what may be left behind a number.
pub open spec fn without_leftover(s: Seq<char>) -> Seq<char>
    decreases s.len(),
{
    if s.len() > 0 && leftover(s[0]) {
        without_leftover(s.skip(1))
    } else {
        s
    }
}

/// The text of a heading without its number, such as `2.1`, `3)` or `제 4장`.
pub open spec fn unnumbered(text: Seq<char>) -> Seq<char> {
    let original = trim(text);
    let prefixed = original.len() > 0 && original[0] == '제';
    let rest = if prefixed {
        trim_start(original.skip(1))
    } else {
        original
    };
    if rest.len() == 0 || !is_ascii_digit(rest[0]) {
        original
    } else {
        let tail = rest.skip(number_end(rest, 0));
        let after = trim_start(tail);
        if after.len() > 0 && after[0] == '장' {
            without_leftover(trim_start(after.skip(1)))
        } else if after.len() > 0 && separates(after[0]) {
            without_leftover(trim_start(after.skip(1)))
        } else if !prefixed && after.len() == tail.len() {
            original
        } else {
            without_leftover(after)
        }
    }
}

/// Where a text begins behind white space.
fn after_space(chars: &[char], from: usize) -> (r: usize)
    requires
        from <= chars@.len(),
    ensures
        from <= r <= chars@.len(),
        chars@.skip(r as int) == trim_start(chars@.skip(from as int)),
{
    let n: usize = chars.len();
    let b = trim_bounds(chars, from, n);
    assert(chars@.skip(b.0 as int) =~= chars@.subrange(b.0 as int, n as int));
    assert(chars@.skip(from as int) =~= chars@.subrange(from as int, n as int));
    b.0
}

/// Whether a character sets a number apart from the text behind it.
fn is_separator(c: char) -> (r: bool)
    ensures
        r == separates(c),
{
    c == ':' || c == '：' || c == ')' || c == '）' || c == '-' || c == '–' || c == '—'
}

/// A text without what may be left behind a number.
fn drop_leftover(chars: &[char], from: usize) -> (r: String)
    requires
        from <= chars@.len(),
    ensures
        r@ == without_leftover(chars@.skip(from as int)),
{
    let mut i: usize = from;
    while i < chars.len() && (is_separator(chars[i]) || chars[i] == '.' || chars[i] == ' ')
        invariant
            from <= i <= chars@.len(),
            without_leftover(chars@.skip(i as int)) == without_leftover(chars@.skip(from as int)),
        decreases chars@.len() - i,
    {
        assert(chars@.skip(i as int).skip(1) =~= chars@.skip(i + 1));
        i += 1;
    }
    assert(chars@.skip(i as int) =~= chars@.subrange(i as int, chars@.len() as int));
    slice(chars, i, chars.len())
}

/// The text of a heading without its number.
pub fn strip_heading_number(text: &str) -> (r: String)
    ensures
        r@ == unnumbered(text@),
{
    let original = trimmed(text);
    let chars = to_chars(original.as_str());
    let ghost s = original@;
    let n: usize = chars.len();
    let prefixed = n > 0 && chars[0] == '제';
    let from: usize = if prefixed {
        after_space(chars.as_slice(), 1)
    } else {
        0
    };
    assert(s.skip(0) =~= s);
    let ghost rest = s.skip(from as int);
    if from == n || !('0' <= chars[from] && chars[from] <= '9') {
        return original;
    }
    let mut end: usize = from;
    while end < n && (('0' <= chars[end] && chars[end] <= '9') || chars[end] == '.')
        invariant
            from <= end <= n == chars@.len(),
            chars@ == s,
            rest == s.skip(from as int),
            number_end(rest, end - from) == number_end(rest, 0),
        decreases n - end,
    {
        assert(rest[end - from] == s[end as int]);
        end += 1;
    }
    let ghost tail = rest.skip(end - from);
    proof {
        if end < n {
            assert(rest[end - from] == s[end as int]);
        }
        assert(tail =~= s.skip(end as int));
    }
    let at: usize = after_space(chars.as_slice(), end);
    let ghost after = s.skip(at as int);
    if at < n && (chars[at] == '장' || is_separator(chars[at])) {
        assert(after.skip(1) =~= s.skip(at + 1));
        let next: usize = after_space(chars.as_slice(), at + 1);
        return drop_leftover(chars.as_slice(), next);
    }
    if !prefixed && at == end {
        return original;
    }
    drop_leftover(chars.as_slice(), at)
}

/// A character that headings are not told apart by.
pub open spec fn ignorable(c: char) -> bool {
    is_space(c) || c == ':' || c == '：' || c == '.' || c == ',' || c == '，' || c == '(' || c == ')'
        || c == '（' || c == '）' || c == '-' || c == '–' || c == '—'
}

/// The first `count` characters in lower case, without those that headings are
/// not told apart by.
pub open spec fn heading_key(s: Seq<char>, count: nat) -> Seq<char>
    decreases count,
{
    if count == 0 {
        Seq::empty()
    } else {
        let so_far = heading_key(s, (count - 1) as nat);
        if ignorable(s[count - 1]) {
            so_far
        } else {
            so_far + lower_char(s[count - 1])
        }
    }
}

/// What headings are compared by.
pub open spec fn canonical(text: Seq<char>) -> Seq<char> {
    heading_key(unnumbered(text), unnumbered(text).len())
}

/// What headings are compared by: their text without number, case, white space
/// and punctuation.
pub fn canonical_heading(text: &str) -> (r: String)
    ensures
        r@ == canonical(text@),
{
    let bare = strip_heading_number(text);
    let chars = to_chars(bare.as_str());
    let mut out = String::new();
    let mut i: usize = 0;
    while i < chars.len()
        invariant
            i <= chars@.len(),
            chars@ == bare@,
            out@ == heading_key(bare@, i as nat),
        decreases chars@.len() - i,
    {
        let c = chars[i];
        let skip = space(c) || c == ':' || c == '：' || c == '.' || c == ',' || c == '，' || c == '('
            || c == ')' || c == '（' || c == '）' || c == '-' || c == '–' || c == '—';
        if !skip {
            out.push_str(to_lower_char(c).as_str());
        }
        i += 1;
    }
    out
}

// ---------------------------------------------------------------------------
// The depth of headings
// ---------------------------------------------------------------------------

/// A heading: its level and its text.
pub struct HeadingModel {
    pub level: int,
    pub text: Seq<char>,
}

/// The heading that a line is: up to three spaces, one to six number signs, a
/// space and its text.
pub open spec fn heading_of(line: Seq<char>) -> Option<HeadingModel> {
    let indent = run_end(line, ' ', 0);
    let rest = line.skip(indent);
    let level = run_end(rest, '#', 0);
    if indent <= 3 && 1 <= level <= 6 && char_at(rest, level) == ' ' {
        Some(HeadingModel { level, text: trim(rest.skip(level)) })
    } else {
        None
    }
}

/// The heading that a line of a text is, outside code.
pub open spec fn heading_at(l: LineModel, literals: Seq<Extent>) -> Option<HeadingModel> {
    if within(literals, l.at) {
        None
    } else {
        heading_of(bare_line(l.text))
    }
}

/// The highest level of the headings in the first `count` lines, but for the
/// title; 0 where there is none.
pub open spec fn top_level(
    lines: Seq<LineModel>,
    literals: Seq<Extent>,
    title: Seq<char>,
    count: nat,
) -> int
    decreases count,
{
    if count == 0 {
        0
    } else {
        let so_far = top_level(lines, literals, title, (count - 1) as nat);
        match heading_at(lines[count - 1], literals) {
            Some(h) => if canonical(h.text) != title && (so_far == 0 || h.level < so_far) {
                h.level
            } else {
                so_far
            },
            None => so_far,
        }
    }
}

/// How many levels the headings of a section come up.
pub open spec fn shift_of(top: int) -> int {
    if top > 3 {
        top - 3
    } else {
        0
    }
}

/// A character some times.
pub open spec fn repeated(c: char, count: int) -> Seq<char> {
    Seq::new(count as nat, |i: int| c)
}

/// The level of a heading in a section: the third at least.
pub open spec fn level_in_section(level: int, shift: int) -> int {
    if level < 3 {
        3
    } else {
        level - shift
    }
}

/// The first `count` lines with the headings at their depth, and without the
/// title.
pub open spec fn leveled(
    lines: Seq<LineModel>,
    literals: Seq<Extent>,
    title: Seq<char>,
    shift: int,
    count: nat,
) -> Seq<Seq<char>>
    decreases count,
{
    if count == 0 {
        Seq::empty()
    } else {
        let so_far = leveled(lines, literals, title, shift, (count - 1) as nat);
        let l = lines[count - 1];
        match heading_at(l, literals) {
            Some(h) => if canonical(h.text) == title {
                so_far
            } else {
                so_far.push(
                    repeated('#', level_in_section(h.level, shift)) + " "@ + h.text,
                )
            },
            None => so_far.push(bare_line(l.text)),
        }
    }
}

/// The text of a section with its headings at their depth.
pub open spec fn normalized_headings(markdown: Seq<char>, title: Seq<char>) -> Seq<char> {
    let lines = lines_in(markdown);
    let literals = code(markdown);
    let key = canonical(title);
    let shift = shift_of(top_level(lines, literals, key, lines.len()));
    trim(joined_lines(leveled(lines, literals, key, shift, lines.len())))
}

/// The top level is that of a heading, and no heading is above it.
proof fn lemma_top_level(
    lines: Seq<LineModel>,
    literals: Seq<Extent>,
    title: Seq<char>,
    count: nat,
    k: int,
)
    requires
        0 <= k < count <= lines.len(),
        heading_at(lines[k], literals) is Some,
        canonical(heading_at(lines[k], literals)->0.text) != title,
    ensures
        1 <= top_level(lines, literals, title, count) <= heading_at(lines[k], literals)->0.level,
    decreases count,
{
    if k < count - 1 {
        lemma_top_level(lines, literals, title, (count - 1) as nat, k);
    } else {
        lemma_top_bounds(lines, literals, title, (count - 1) as nat);
    }
}

proof fn lemma_top_bounds(
    lines: Seq<LineModel>,
    literals: Seq<Extent>,
    title: Seq<char>,
    count: nat,
)
    ensures
        0 <= top_level(lines, literals, title, count) <= 6,
    decreases count,
{
    if count > 0 {
        lemma_top_bounds(lines, literals, title, (count - 1) as nat);
    }
}

/// In a section every heading stands at the third level or below it, and below
/// no other than before.
pub proof fn headings_stay_below_the_section(markdown: Seq<char>, title: Seq<char>, k: int)
    requires
        0 <= k < lines_in(markdown).len(),
        heading_at(lines_in(markdown)[k], code(markdown)) is Some,
        canonical(heading_at(lines_in(markdown)[k], code(markdown))->0.text) != canonical(title),
    ensures
        ({
            let lines = lines_in(markdown);
            let shift = shift_of(
                top_level(lines, code(markdown), canonical(title), lines.len()),
            );
            3 <= level_in_section(heading_at(lines[k], code(markdown))->0.level, shift) <= 6
        }),
{
    lemma_top_level(
        lines_in(markdown),
        code(markdown),
        canonical(title),
        lines_in(markdown).len(),
        k,
    );
}

/// A heading in code is an example, not structure: its line stays, whatever the
/// depth of the headings and the title of the section.
pub proof fn lines_of_code_stay(
    lines: Seq<LineModel>,
    literals: Seq<Extent>,
    title: Seq<char>,
    shift: int,
    k: int,
)
    requires
        0 <= k < lines.len(),
        within(literals, lines[k].at),
    ensures
        leveled(lines, literals, title, shift, (k + 1) as nat) == leveled(
            lines,
            literals,
            title,
            shift,
            k as nat,
        ).push(bare_line(lines[k].text)),
        top_level(lines, literals, title, (k + 1) as nat) == top_level(
            lines,
            literals,
            title,
            k as nat,
        ),
{
}

/// A heading.
struct Heading {
    level: usize,
    text: String,
}

impl View for Heading {
    type V = HeadingModel;

    closed spec fn view(&self) -> HeadingModel {
        HeadingModel { level: self.level as int, text: self.text@ }
    }
}

/// The heading that a line is.
fn find_heading(line: &str) -> (r: Option<Heading>)
    ensures
        match heading_of(line@) {
            Some(h) => r is Some && r->0@ == h,
            None => r is None,
        },
{
    let chars = to_chars(line);
    let n: usize = chars.len();
    assert(line@.subrange(0, n as int) =~= line@);
    let lead: usize = find_run_end(chars.as_slice(), ' ', 0, n);
    let ghost rest = line@.skip(lead as int);
    assert(rest =~= line@.subrange(lead as int, n as int));
    let end: usize = find_run_end(chars.as_slice(), '#', lead, n);
    let level: usize = end - lead;
    if lead > 3 || level < 1 || level > 6 || end == n || chars[end] != ' ' {
        return None;
    }
    let b = trim_bounds(chars.as_slice(), end, n);
    assert(rest.skip(level as int) =~= line@.subrange(end as int, n as int));
    Some(Heading { level, text: slice(chars.as_slice(), b.0, b.1) })
}

/// The heading that a line of a text is, outside code.
fn find_heading_at(l: &Line, literals: &Vec<(usize, usize)>) -> (r: Option<Heading>)
    ensures
        match heading_at(l@, extents(literals@)) {
            Some(h) => r is Some && r->0@ == h,
            None => r is None,
        },
{
    if lies_within(literals, l.at) {
        return None;
    }
    find_heading(strip_ending(l.text.as_str()).as_str())
}

/// Puts the headings of a section at their depth, below the section's own, and
/// leaves out the title.
pub fn normalize_section_headings(markdown: &str, title: &str) -> (r: String)
    ensures
        r@ == normalized_headings(markdown@, title@),
{
    let ghost s = markdown@;
    let chars = to_chars(markdown);
    let literals = find_code(chars.as_slice());
    let ghost lits = code(s);
    let lines = split_lines(markdown);
    let ghost ls = line_models(lines@);
    let key = canonical_heading(title);
    let n: usize = lines.len();
    assert(ls.len() == n);
    let mut top: usize = 0;
    let mut i: usize = 0;
    while i < n
        invariant
            i <= n == lines@.len(),
            ls == line_models(lines@),
            extents(literals@) == lits,
            top == top_level(ls, lits, key@, i as nat),
        decreases n - i,
    {
        assert(ls[i as int] == lines@[i as int]@);
        if let Some(Heading { level, text }) = find_heading_at(&lines[i], &literals) {
            let own = canonical_heading(text.as_str());
            if !same(own.as_str(), key.as_str()) && (top == 0 || level < top) {
                top = level;
            }
        }
        i += 1;
    }
    let shift: usize = if top > 3 {
        top - 3
    } else {
        0
    };
    let mut parts: Vec<String> = Vec::new();
    let mut k: usize = 0;
    assert(texts(parts@) =~= Seq::empty());
    while k < n
        invariant
            k <= n == lines@.len(),
            ls == line_models(lines@),
            ls.len() == n,
            extents(literals@) == lits,
            top == top_level(ls, lits, key@, n as nat),
            shift == shift_of(top as int),
            texts(parts@) == leveled(ls, lits, key@, shift as int, k as nat),
        decreases n - k,
    {
        assert(ls[k as int] == lines@[k as int]@);
        match find_heading_at(&lines[k], &literals) {
            Some(Heading { level, text }) => {
                let own = canonical_heading(text.as_str());
                if !same(own.as_str(), key.as_str()) {
                    proof {
                        lemma_top_level(ls, lits, key@, n as nat, k as int);
                    }
                    let depth: usize = if level < 3 {
                        3
                    } else {
                        level - shift
                    };
                    let mut line = String::new();
                    let mut j: usize = 0;
                    assert(line@ =~= repeated('#', 0));
                    while j < depth
                        invariant
                            j <= depth,
                            line@ == repeated('#', j as int),
                        decreases depth - j,
                    {
                        line.push('#');
                        j += 1;
                        assert(line@ =~= repeated('#', j as int));
                    }
                    line.push_str(" ");
                    line.push_str(text.as_str());
                    assert(texts(parts@.push(line)) =~= texts(parts@).push(line@));
                    parts.push(line);
                }
            },
            None => {
                let line = strip_ending(lines[k].text.as_str());
                assert(texts(parts@.push(line)) =~= texts(parts@).push(line@));
                parts.push(line);
            },
        }
        k += 1;
    }
    trimmed(join_with(&parts, "\n").as_str())
}

} // verus!
