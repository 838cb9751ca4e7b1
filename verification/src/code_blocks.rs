//! Where a Markdown text holds code: fenced and indented blocks, and spans
//! between backticks. Positions are positions of characters.

use vstd::prelude::*;

use crate::text::{is_ascii_digit, trim, trim_bounds};

verus! {

/// A stretch of text, from its first character to the one behind its last.
pub type Extent = (int, int);

/// Stretches of text as numbers.
pub open spec fn extents(v: Seq<(usize, usize)>) -> Seq<Extent> {
    v.map_values(|e: (usize, usize)| (e.0 as int, e.1 as int))
}

/// A position lies in one of the stretches.
pub open spec fn within(ranges: Seq<Extent>, at: int) -> bool {
    exists|k: int| 0 <= k < ranges.len() && (#[trigger] ranges[k]).0 <= at < ranges[k].1
}

// ---------------------------------------------------------------------------
// Lines
// ---------------------------------------------------------------------------

/// Where the line that holds position `from` ends, its line feed included.
pub open spec fn line_end(s: Seq<char>, from: int) -> int
    decreases s.len() - from,
{
    if from < 0 || from >= s.len() {
        s.len() as int
    } else if s[from] == '\n' {
        from + 1
    } else {
        line_end(s, from + 1)
    }
}

/// Where the run of `c` that starts at `from` ends.
pub open spec fn run_end(s: Seq<char>, c: char, from: int) -> int
    decreases s.len() - from,
{
    if 0 <= from < s.len() && s[from] == c {
        run_end(s, c, from + 1)
    } else {
        from
    }
}

/// Where the run of decimal digits that starts at `from` ends.
pub open spec fn digits_end(s: Seq<char>, from: int) -> int
    decreases s.len() - from,
{
    if 0 <= from < s.len() && is_ascii_digit(s[from]) {
        digits_end(s, from + 1)
    } else {
        from
    }
}

/// A line ends behind its beginning.
pub proof fn lemma_line_end(s: Seq<char>, from: int)
    requires
        0 <= from <= s.len(),
    ensures
        from <= line_end(s, from) <= s.len(),
        from < s.len() ==> from < line_end(s, from),
        forall|i: int| from <= i < line_end(s, from) - 1 ==> s[i] != '\n',
        line_end(s, from) < s.len() ==> line_end(s, from) > from && s[line_end(s, from) - 1]
            == '\n',
    decreases s.len() - from,
{
    if from < s.len() && s[from] != '\n' {
        lemma_line_end(s, from + 1);
    }
}

/// A run ends at or behind its beginning.
pub proof fn lemma_run_end(s: Seq<char>, c: char, from: int)
    requires
        0 <= from <= s.len(),
    ensures
        from <= run_end(s, c, from) <= s.len(),
        from < s.len() && s[from] == c ==> from < run_end(s, c, from),
    decreases s.len() - from,
{
    if from < s.len() && s[from] == c {
        lemma_run_end(s, c, from + 1);
    }
}

proof fn lemma_digits_end(s: Seq<char>, from: int)
    requires
        0 <= from <= s.len(),
    ensures
        from <= digits_end(s, from) <= s.len(),
    decreases s.len() - from,
{
    if from < s.len() && is_ascii_digit(s[from]) {
        lemma_digits_end(s, from + 1);
    }
}

/// A character of a text, and a null character outside it.
pub open spec fn char_at(s: Seq<char>, i: int) -> char {
    if 0 <= i < s.len() {
        s[i]
    } else {
        '\0'
    }
}

/// The rest of a line holds nothing but whitespace.
pub open spec fn blank(s: Seq<char>) -> bool {
    trim(s).len() == 0
}

/// A bullet or an ordered list marker stands at the beginning.
pub open spec fn list_marker(trimmed: Seq<char>) -> bool {
    let first = char_at(trimmed, 0);
    let gap = |c: char| c == ' ' || c == '\t';
    let n = digits_end(trimmed, 0);
    ||| (first == '-' || first == '*' || first == '+') && gap(char_at(trimmed, 1))
    ||| 1 <= n <= 9 && (char_at(trimmed, n) == '.' || char_at(trimmed, n) == ')') && gap(
        char_at(trimmed, n + 1),
    )
}

// ---------------------------------------------------------------------------
// Blocks
// ---------------------------------------------------------------------------

/// An open fence: its character, its width and where its line begins.
pub struct Fence {
    pub kind: char,
    pub width: int,
    pub start: int,
}

/// What is known at the beginning of a line.
pub struct BlockState {
    pub fence: Option<Fence>,
    /// The line before leaves a paragraph open.
    pub paragraph: bool,
    pub in_list: bool,
    /// The blocks that ended so far.
    pub ranges: Seq<Extent>,
}

/// What a line adds. An indented block cannot interrupt a paragraph, and inside
/// a list the same indentation continues an item.
pub open spec fn block_step(line: Seq<char>, offset: int, state: BlockState) -> BlockState {
    let indent = run_end(line, ' ', 0);
    let trimmed = line.skip(indent);
    let marker = char_at(trimmed, 0);
    let width = run_end(trimmed, marker, 0);
    let rest = trimmed.skip(width);
    let here = (offset, offset + line.len());
    match state.fence {
        Some(fence) => {
            if indent <= 3 && marker == fence.kind && width >= fence.width && blank(rest) {
                BlockState {
                    fence: None,
                    paragraph: false,
                    in_list: state.in_list,
                    ranges: state.ranges.push((fence.start, offset + line.len())),
                }
            } else {
                BlockState { paragraph: false, ..state }
            }
        },
        None => {
            if indent <= 3 && (marker == '`' || marker == '~') && width >= 3 && (marker != '`'
                || !rest.contains('`')) {
                BlockState {
                    fence: Some(Fence { kind: marker, width, start: offset }),
                    paragraph: false,
                    ..state
                }
            } else if (indent >= 4 || char_at(line, 0) == '\t') && !state.paragraph
                && !state.in_list {
                BlockState { paragraph: false, ranges: state.ranges.push(here), ..state }
            } else {
                BlockState {
                    paragraph: !blank(line),
                    in_list: if list_marker(trimmed) {
                        true
                    } else if !blank(line) && indent == 0 {
                        false
                    } else {
                        state.in_list
                    },
                    ..state
                }
            }
        },
    }
}

/// The state behind the last line, from the line at `offset` on.
pub open spec fn block_scan(s: Seq<char>, offset: int, state: BlockState) -> BlockState
    decreases s.len() - offset,
{
    if 0 <= offset < line_end(s, offset) <= s.len() {
        let end = line_end(s, offset);
        block_scan(s, end, block_step(s.subrange(offset, end), offset, state))
    } else {
        state
    }
}

/// The state at the beginning of a text.
pub open spec fn block_start() -> BlockState {
    BlockState { fence: None, paragraph: false, in_list: false, ranges: Seq::empty() }
}

/// The blocks of code of a text. A fence that is never closed runs to the end.
pub open spec fn blocks(s: Seq<char>) -> Seq<Extent> {
    let state = block_scan(s, 0, block_start());
    match state.fence {
        Some(fence) => state.ranges.push((fence.start, s.len() as int)),
        None => state.ranges,
    }
}

/// A fence is opened and never closed.
pub open spec fn unclosed(s: Seq<char>) -> bool {
    block_scan(s, 0, block_start()).fence is Some
}

// ---------------------------------------------------------------------------
// Spans
// ---------------------------------------------------------------------------

/// The end of the first of the stretches that holds a position.
pub open spec fn leave(ranges: Seq<Extent>, at: int) -> int
    decreases ranges.len(),
{
    if ranges.len() == 0 {
        at
    } else if ranges[0].0 <= at < ranges[0].1 {
        ranges[0].1
    } else {
        leave(ranges.skip(1), at)
    }
}

/// Where the spaces, tabs and carriage returns that start at `from` end.
pub open spec fn blanks_end(s: Seq<char>, from: int) -> int
    decreases s.len() - from,
{
    if 0 <= from < s.len() && (s[from] == ' ' || s[from] == '\t' || s[from] == '\r') {
        blanks_end(s, from + 1)
    } else {
        from
    }
}

/// A line feed at this position is followed by a blank line or by the end.
pub open spec fn paragraph_ends(s: Seq<char>, at: int) -> bool {
    s[at] == '\n' && (blanks_end(s, at + 1) >= s.len() || s[blanks_end(s, at + 1)] == '\n')
}

/// The end of the run of exactly `width` backticks that closes a span, from
/// position `from` on. A span crosses neither a block nor a blank line.
pub open spec fn closing(s: Seq<char>, blocks: Seq<Extent>, from: int, width: int) -> Option<int>
    decreases s.len() - from,
{
    if from < 0 || from >= s.len() || within(blocks, from) || paragraph_ends(s, from) {
        None
    } else if s[from] != '`' {
        closing(s, blocks, from + 1, width)
    } else {
        let end = run_end(s, '`', from);
        if !(from < end <= s.len()) {
            None
        } else if end - from == width {
            Some(end)
        } else {
            closing(s, blocks, end, width)
        }
    }
}

/// The spans of code outside the blocks, from position `from` on.
pub open spec fn spans(s: Seq<char>, blocks: Seq<Extent>, from: int) -> Seq<Extent>
    decreases s.len() - from,
{
    if from < 0 || from >= s.len() {
        Seq::empty()
    } else if within(blocks, from) {
        if from < leave(blocks, from) <= s.len() {
            spans(s, blocks, leave(blocks, from))
        } else {
            Seq::empty()
        }
    } else if s[from] == '\\' && from + 1 < s.len() {
        spans(s, blocks, from + 2)
    } else if s[from] != '`' {
        spans(s, blocks, from + 1)
    } else {
        let run = run_end(s, '`', from);
        if !(from < run <= s.len()) {
            Seq::empty()
        } else {
            match closing(s, blocks, run, run - from) {
                Some(end) => if from < end <= s.len() {
                    seq![(from, end)] + spans(s, blocks, end)
                } else {
                    Seq::empty()
                },
                None => spans(s, blocks, run),
            }
        }
    }
}

/// The code of a text: its blocks, and then its spans.
pub open spec fn code(s: Seq<char>) -> Seq<Extent> {
    blocks(s) + spans(s, blocks(s), 0)
}

// ---------------------------------------------------------------------------
// Laws
// ---------------------------------------------------------------------------

/// Stretches lie inside a text and are not empty.
pub open spec fn inside(ranges: Seq<Extent>, len: int) -> bool {
    forall|k: int|
        0 <= k < ranges.len() ==> 0 <= (#[trigger] ranges[k]).0 && ranges[k].0 < ranges[k].1
            && ranges[k].1 <= len
}

proof fn lemma_scan_inside(s: Seq<char>, offset: int, state: BlockState)
    requires
        0 <= offset <= s.len(),
        inside(state.ranges, offset),
        state.fence matches Some(f) ==> 0 <= f.start < offset,
    ensures
        inside(block_scan(s, offset, state).ranges, s.len() as int),
        block_scan(s, offset, state).fence matches Some(f) ==> 0 <= f.start < s.len(),
    decreases s.len() - offset,
{
    lemma_line_end(s, offset);
    if offset < s.len() {
        let end = line_end(s, offset);
        let line = s.subrange(offset, end);
        let next = block_step(line, offset, state);
        assert(inside(next.ranges, end)) by {
            assert forall|k: int| 0 <= k < next.ranges.len() implies 0 <= (
            #[trigger] next.ranges[k]).0 && next.ranges[k].0 < next.ranges[k].1
                && next.ranges[k].1 <= end by {
                if k < state.ranges.len() {
                    assert(next.ranges[k] == state.ranges[k]);
                }
            }
        }
        lemma_scan_inside(s, end, next);
    }
}

/// Every block of code is a stretch of the text.
pub proof fn blocks_lie_inside(s: Seq<char>)
    ensures
        inside(blocks(s), s.len() as int),
{
    lemma_scan_inside(s, 0, block_start());
    let state = block_scan(s, 0, block_start());
    assert forall|k: int| 0 <= k < blocks(s).len() implies 0 <= (#[trigger] blocks(s)[k]).0
        && blocks(s)[k].0 < blocks(s)[k].1 && blocks(s)[k].1 <= s.len() by {
        if k < state.ranges.len() {
            assert(blocks(s)[k] == state.ranges[k]);
        }
    }
}

proof fn lemma_closing(s: Seq<char>, blocks: Seq<Extent>, from: int, width: int)
    requires
        0 <= from <= s.len(),
    ensures
        closing(s, blocks, from, width) matches Some(end) ==> from < end <= s.len(),
    decreases s.len() - from,
{
    if from < s.len() && !within(blocks, from) && !paragraph_ends(s, from) {
        lemma_run_end(s, '`', from);
        if s[from] != '`' {
            lemma_closing(s, blocks, from + 1, width);
        } else if run_end(s, '`', from) - from != width {
            lemma_closing(s, blocks, run_end(s, '`', from), width);
        }
    }
}

proof fn lemma_leave(ranges: Seq<Extent>, at: int, len: int)
    requires
        within(ranges, at),
        inside(ranges, len),
    ensures
        at < leave(ranges, at) <= len,
    decreases ranges.len(),
{
    let k = choose|k: int| 0 <= k < ranges.len() && (#[trigger] ranges[k]).0 <= at < ranges[k].1;
    assert(ranges[0].1 <= len);
    if !(ranges[0].0 <= at < ranges[0].1) {
        let rest = ranges.skip(1);
        assert(rest[k - 1] == ranges[k]);
        assert(inside(rest, len)) by {
            assert forall|j: int| 0 <= j < rest.len() implies 0 <= (#[trigger] rest[j]).0
                && rest[j].0 < rest[j].1 && rest[j].1 <= len by {
                assert(rest[j] == ranges[j + 1]);
            }
        }
        lemma_leave(rest, at, len);
    }
}

/// Spans come one behind the other, inside the text, and begin outside blocks.
pub proof fn lemma_spans(s: Seq<char>, blocks: Seq<Extent>, from: int)
    requires
        0 <= from,
        inside(blocks, s.len() as int),
    ensures
        forall|k: int|
            0 <= k < spans(s, blocks, from).len() ==> from <= (#[trigger] spans(
                s,
                blocks,
                from,
            )[k]).0 && spans(s, blocks, from)[k].0 < spans(s, blocks, from)[k].1 <= s.len()
                && !within(blocks, spans(s, blocks, from)[k].0),
        forall|j: int, k: int|
            0 <= j < k < spans(s, blocks, from).len() ==> (#[trigger] spans(s, blocks, from)[j]).1
                <= (#[trigger] spans(s, blocks, from)[k]).0,
    decreases s.len() - from,
{
    let whole = spans(s, blocks, from);
    if from < s.len() {
        if within(blocks, from) {
            lemma_leave(blocks, from, s.len() as int);
            lemma_spans(s, blocks, leave(blocks, from));
            assert(whole == spans(s, blocks, leave(blocks, from)));
        } else if s[from] == '\\' && from + 1 < s.len() {
            lemma_spans(s, blocks, from + 2);
            assert(whole == spans(s, blocks, from + 2));
        } else if s[from] != '`' {
            lemma_spans(s, blocks, from + 1);
            assert(whole == spans(s, blocks, from + 1));
        } else {
            lemma_run_end(s, '`', from);
            let run = run_end(s, '`', from);
            lemma_closing(s, blocks, run, run - from);
            match closing(s, blocks, run, run - from) {
                Some(end) => {
                    lemma_spans(s, blocks, end);
                    let tail = spans(s, blocks, end);
                    let all = spans(s, blocks, from);
                    assert(all =~= seq![(from, end)] + tail);
                    assert forall|k: int| 0 <= k < all.len() implies from <= (#[trigger] all[k]).0
                        && all[k].0 < all[k].1 <= s.len() && !within(blocks, all[k].0) by {
                        if k > 0 {
                            assert(all[k] == tail[k - 1]);
                        }
                    }
                    assert forall|j: int, k: int| 0 <= j < k < all.len() implies (
                    #[trigger] all[j]).1 <= (#[trigger] all[k]).0 by {
                        assert(all[k] == tail[k - 1]);
                        if j > 0 {
                            assert(all[j] == tail[j - 1]);
                        }
                    }
                },
                None => {
                    lemma_spans(s, blocks, run);
                    assert(whole == spans(s, blocks, run));
                },
            }
        }
    }
}

/// All code lies inside the text, and no stretch of it is empty.
pub proof fn code_lies_inside(s: Seq<char>)
    ensures
        inside(code(s), s.len() as int),
{
    blocks_lie_inside(s);
    lemma_spans(s, blocks(s), 0);
    let b = blocks(s);
    let t = spans(s, b, 0);
    assert forall|k: int| 0 <= k < code(s).len() implies 0 <= (#[trigger] code(s)[k]).0 && code(
        s,
    )[k].0 < code(s)[k].1 && code(s)[k].1 <= s.len() by {
        if k < b.len() {
            assert(code(s)[k] == b[k]);
        } else {
            assert(code(s)[k] == t[k - b.len()]);
        }
    }
}

// ---------------------------------------------------------------------------
// Executable functions
// ---------------------------------------------------------------------------

/// Where the line that holds position `from` ends.
pub fn find_line_end(chars: &[char], from: usize) -> (r: usize)
    requires
        from <= chars@.len(),
    ensures
        r == line_end(chars@, from as int),
        from <= r <= chars@.len(),
        from < chars@.len() ==> from < r,
{
    let mut i: usize = from;
    while i < chars.len()
        invariant
            from <= i <= chars@.len(),
            line_end(chars@, i as int) == line_end(chars@, from as int),
        decreases chars@.len() - i,
    {
        if chars[i] == '\n' {
            return i + 1;
        }
        i += 1;
    }
    i
}

/// Where the run of `c` that starts at `from` ends.
pub fn find_run_end(chars: &[char], c: char, from: usize, to: usize) -> (r: usize)
    requires
        from <= to <= chars@.len(),
    ensures
        r == from + run_end(chars@.subrange(from as int, to as int), c, 0),
        from <= r <= to,
{
    let ghost s = chars@.subrange(from as int, to as int);
    let mut i: usize = from;
    while i < to && chars[i] == c
        invariant
            from <= i <= to <= chars@.len(),
            s == chars@.subrange(from as int, to as int),
            run_end(s, c, i - from) == run_end(s, c, 0),
        decreases to - i,
    {
        i += 1;
    }
    i
}

/// Runs inside a stretch end where they end in the text.
pub proof fn lemma_run_shift(s: Seq<char>, c: char, from: int, at: int)
    requires
        0 <= from <= at <= s.len(),
    ensures
        run_end(s, c, at) == from + run_end(s.skip(from), c, at - from),
    decreases s.len() - at,
{
    if at < s.len() && s[at] == c {
        lemma_run_shift(s, c, from, at + 1);
    }
}

/// Whether the characters `from..to` are all whitespace.
pub fn blank_between(chars: &[char], from: usize, to: usize) -> (r: bool)
    requires
        from <= to <= chars@.len(),
    ensures
        r == blank(chars@.subrange(from as int, to as int)),
{
    let b = trim_bounds(chars, from, to);
    b.0 == b.1
}

/// Whether a bullet or an ordered list marker stands at `from`.
fn marks_item(chars: &[char], from: usize, to: usize) -> (r: bool)
    requires
        from <= to <= chars@.len(),
    ensures
        r == list_marker(chars@.subrange(from as int, to as int)),
{
    let ghost t = chars@.subrange(from as int, to as int);
    if from == to {
        assert(digits_end(t, 0) == 0);
        return false;
    }
    let first = chars[from];
    let second = if to - from > 1 {
        chars[from + 1]
    } else {
        '\0'
    };
    if (first == '-' || first == '*' || first == '+') && (second == ' ' || second == '\t') {
        return true;
    }
    let mut i: usize = from;
    while i < to && '0' <= chars[i] && chars[i] <= '9'
        invariant
            from <= i <= to <= chars@.len(),
            t == chars@.subrange(from as int, to as int),
            digits_end(t, i - from) == digits_end(t, 0),
        decreases to - i,
    {
        i += 1;
    }
    let n: usize = i - from;
    assert(n == digits_end(t, 0));
    if n < 1 || n > 9 || to - i < 2 {
        assert(char_at(t, n as int) == '\0' || char_at(t, n + 1) == '\0' || n < 1 || n > 9);
        return false;
    }
    (chars[i] == '.' || chars[i] == ')') && (chars[i + 1] == ' ' || chars[i + 1] == '\t')
}

/// Whether the characters `from..to` hold `c`.
fn holds(chars: &[char], from: usize, to: usize, c: char) -> (r: bool)
    requires
        from <= to <= chars@.len(),
    ensures
        r == chars@.subrange(from as int, to as int).contains(c),
{
    let mut i: usize = from;
    while i < to
        invariant
            from <= i <= to <= chars@.len(),
            forall|k: int| from <= k < i ==> chars@[k] != c,
        decreases to - i,
    {
        if chars[i] == c {
            assert(chars@.subrange(from as int, to as int)[i - from] == c);
            return true;
        }
        i += 1;
    }
    false
}

/// The value of an open fence.
pub open spec fn fence_model(fence: Option<(char, usize, usize)>) -> Option<Fence> {
    match fence {
        Some(f) => Some(Fence { kind: f.0, width: f.1 as int, start: f.2 as int }),
        None => None,
    }
}

/// The blocks of code of a text, and whether a fence is never closed.
pub fn find_blocks(chars: &[char]) -> (r: (Vec<(usize, usize)>, bool))
    ensures
        extents(r.0@) == blocks(chars@),
        r.1 == unclosed(chars@),
{
    let n: usize = chars.len();
    let ghost s = chars@;
    let mut ranges: Vec<(usize, usize)> = Vec::new();
    let mut fence: Option<(char, usize, usize)> = None;
    let mut paragraph = false;
    let mut in_list = false;
    let mut offset: usize = 0;
    assert(extents(ranges@) =~= Seq::empty());
    let ghost mut state = block_start();
    while offset < n
        invariant
            offset <= n == s.len(),
            s == chars@,
            state.paragraph == paragraph,
            state.in_list == in_list,
            state.ranges == extents(ranges@),
            state.fence == fence_model(fence),
            block_scan(s, 0, block_start()) == block_scan(s, offset as int, state),
        decreases n - offset,
    {
        let end = find_line_end(chars, offset);
        let ghost line = s.subrange(offset as int, end as int);
        let ghost before = extents(ranges@);
        let lead = find_run_end(chars, ' ', offset, end);
        let indent: usize = lead - offset;
        let ghost trimmed = line.skip(indent as int);
        let marker = if lead < end {
            chars[lead]
        } else {
            '\0'
        };
        let mark_end = find_run_end(chars, marker, lead, end);
        let width: usize = mark_end - lead;
        proof {
            assert(trimmed =~= s.subrange(lead as int, end as int));
            assert(marker == char_at(trimmed, 0));
            assert(trimmed.skip(width as int) =~= s.subrange(mark_end as int, end as int));
            assert(width == run_end(trimmed, marker, 0));
        }
        if let Some((kind, size, start)) = fence {
            if indent <= 3 && marker == kind && width >= size && blank_between(
                chars,
                mark_end,
                end,
            ) {
                assert(extents(ranges@.push((start, end))) =~= before.push(
                    (start as int, end as int),
                ));
                ranges.push((start, end));
                fence = None;
            }
            paragraph = false;
        } else if indent <= 3 && (marker == '`' || marker == '~') && width >= 3 && (marker != '`'
            || !holds(chars, mark_end, end, '`')) {
            fence = Some((marker, width, offset));
            paragraph = false;
        } else if (indent >= 4 || chars[offset] == '\t') && !paragraph && !in_list {
            assert(extents(ranges@.push((offset, end))) =~= before.push(
                (offset as int, end as int),
            ));
            ranges.push((offset, end));
            paragraph = false;
        } else {
            let empty = blank_between(chars, offset, end);
            paragraph = !empty;
            if marks_item(chars, lead, end) {
                in_list = true;
            } else if !empty && indent == 0 {
                in_list = false;
            }
        }
        proof {
            let next = BlockState {
                fence: fence_model(fence),
                paragraph,
                in_list,
                ranges: extents(ranges@),
            };
            assert(next == block_step(line, offset as int, state));
            assert(block_scan(s, offset as int, state) == block_scan(s, end as int, next));
            state = next;
        }
        offset = end;
    }
    assert(block_scan(s, n as int, state) == state);
    match fence {
        Some((_, _, start)) => {
            assert(extents(ranges@.push((start, n))) =~= extents(ranges@).push(
                (start as int, n as int),
            ));
            ranges.push((start, n));
            (ranges, true)
        },
        None => (ranges, false),
    }
}

/// Whether a position lies in one of the stretches.
pub fn lies_within(ranges: &Vec<(usize, usize)>, at: usize) -> (r: bool)
    ensures
        r == within(extents(ranges@), at as int),
{
    let mut k: usize = 0;
    while k < ranges.len()
        invariant
            k <= ranges@.len(),
            forall|j: int| 0 <= j < k ==> !((#[trigger] ranges@[j]).0 <= at < ranges@[j].1),
        decreases ranges@.len() - k,
    {
        if ranges[k].0 <= at && at < ranges[k].1 {
            assert(extents(ranges@)[k as int].0 <= at);
            return true;
        }
        k += 1;
    }
    assert forall|j: int| 0 <= j < extents(ranges@).len() implies !((#[trigger] extents(
        ranges@,
    )[j]).0 <= at < extents(ranges@)[j].1) by {
        assert(!(ranges@[j].0 <= at < ranges@[j].1));
    }
    false
}

/// The end of the first of the stretches that holds a position.
fn find_leave(ranges: &Vec<(usize, usize)>, at: usize) -> (r: usize)
    ensures
        r == leave(extents(ranges@), at as int),
{
    let ghost all = extents(ranges@);
    let mut k: usize = 0;
    assert(all.skip(0) =~= all);
    while k < ranges.len()
        invariant
            k <= ranges@.len(),
            all == extents(ranges@),
            leave(all.skip(k as int), at as int) == leave(all, at as int),
        decreases ranges@.len() - k,
    {
        assert(all.skip(k as int)[0] == all[k as int]);
        assert(all.skip(k as int).skip(1) =~= all.skip(k + 1));
        if ranges[k].0 <= at && at < ranges[k].1 {
            return ranges[k].1;
        }
        k += 1;
    }
    at
}

/// Whether a line feed at this position is followed by a blank line or by the
/// end.
fn ends_paragraph(chars: &[char], at: usize) -> (r: bool)
    requires
        at < chars@.len(),
    ensures
        r == paragraph_ends(chars@, at as int),
{
    if chars[at] != '\n' {
        return false;
    }
    let n: usize = chars.len();
    let mut peek: usize = at + 1;
    while peek < n && (chars[peek] == ' ' || chars[peek] == '\t' || chars[peek] == '\r')
        invariant
            at < peek <= n == chars@.len(),
            blanks_end(chars@, peek as int) == blanks_end(chars@, at + 1),
        decreases n - peek,
    {
        peek += 1;
    }
    peek >= n || chars[peek] == '\n'
}

/// The end of the run of backticks that closes a span.
fn find_closing(chars: &[char], ranges: &Vec<(usize, usize)>, from: usize, width: usize) -> (r:
    Option<usize>)
    requires
        from <= chars@.len(),
    ensures
        match closing(chars@, extents(ranges@), from as int, width as int) {
            Some(end) => r is Some && r->0 == end,
            None => r is None,
        },
        r matches Some(end) ==> from < end <= chars@.len(),
{
    let n: usize = chars.len();
    let ghost b = extents(ranges@);
    let mut end: usize = from;
    while end < n
        invariant
            from <= end <= n == chars@.len(),
            b == extents(ranges@),
            closing(chars@, b, end as int, width as int) == closing(
                chars@,
                b,
                from as int,
                width as int,
            ),
        decreases n - end,
    {
        if lies_within(ranges, end) || ends_paragraph(chars, end) {
            return None;
        }
        if chars[end] != '`' {
            end += 1;
        } else {
            let close: usize = end;
            let run = find_run_end(chars, '`', end, n);
            proof {
                assert(chars@.subrange(end as int, n as int) =~= chars@.skip(end as int));
                lemma_run_shift(chars@, '`', end as int, end as int);
                lemma_run_end(chars@, '`', end as int);
            }
            if run - close == width {
                return Some(run);
            }
            end = run;
        }
    }
    None
}

/// The code of a text: its blocks, and then its spans.
pub fn find_code(chars: &[char]) -> (r: Vec<(usize, usize)>)
    ensures
        extents(r@) == code(chars@),
{
    let n: usize = chars.len();
    let (found, _) = find_blocks(chars);
    let ghost b = blocks(chars@);
    let mut r: Vec<(usize, usize)> = Vec::new();
    let mut k: usize = 0;
    while k < found.len()
        invariant
            k <= found@.len(),
            r@ == found@.take(k as int),
        decreases found@.len() - k,
    {
        r.push(found[k]);
        assert(found@.take(k + 1) =~= found@.take(k as int).push(found@[k as int]));
        k += 1;
    }
    assert(found@.take(k as int) =~= found@);
    let mut i: usize = 0;
    proof {
        blocks_lie_inside(chars@);
    }
    while i < n
        invariant
            i <= n == chars@.len(),
            b == blocks(chars@),
            extents(found@) == b,
            inside(b, n as int),
            extents(r@) + spans(chars@, b, i as int) == code(chars@),
        decreases n - i,
    {
        if lies_within(&found, i) {
            proof {
                lemma_leave(b, i as int, n as int);
            }
            i = find_leave(&found, i);
        } else if chars[i] == '\\' && i + 1 < n {
            i += 2;
        } else if chars[i] != '`' {
            i += 1;
        } else {
            let start: usize = i;
            let run = find_run_end(chars, '`', i, n);
            proof {
                assert(chars@.subrange(i as int, n as int) =~= chars@.skip(i as int));
                lemma_run_shift(chars@, '`', i as int, i as int);
                lemma_run_end(chars@, '`', i as int);
            }
            match find_closing(chars, &found, run, run - start) {
                Some(end) => {
                    proof {
                        let rest = spans(chars@, b, end as int);
                        let span = (start as int, end as int);
                        assert(extents(r@.push((start, end))) =~= extents(r@).push(span));
                        assert(extents(r@).push(span) + rest =~= extents(r@) + (seq![span] + rest));
                    }
                    r.push((start, end));
                    i = end;
                },
                None => {
                    i = run;
                },
            }
        }
    }
    assert(extents(r@) + spans(chars@, b, i as int) =~= extents(r@));
    r
}

} // verus!
