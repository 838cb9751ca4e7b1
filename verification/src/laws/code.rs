//! What counts as code in a text, and how ids are shortened.

use vstd::prelude::*;

use crate::citations::{alias, alias_length, shared_beginning};
use crate::code_blocks::{
    block_scan, block_start, block_step, blocks, char_at, closing, leave, lemma_line_end, line_end,
    paragraph_ends, run_end, spans, within, BlockState, Extent,
};
use crate::text::trim;

verus! {

/// A line begins at a position.
pub open spec fn begins_line(s: Seq<char>, at: int) -> bool {
    0 <= at < s.len() && (at == 0 || s[at - 1] == '\n')
}

/// The line that begins at a position.
pub open spec fn line_at(s: Seq<char>, at: int) -> Seq<char> {
    s.subrange(at, line_end(s, at))
}

/// How many spaces a line begins with.
pub open spec fn indent_of(line: Seq<char>) -> int {
    run_end(line, ' ', 0)
}

/// The character that a line begins with behind its spaces.
pub open spec fn mark_of(line: Seq<char>) -> char {
    char_at(line.skip(indent_of(line)), 0)
}

/// How often a line has that character in a row.
pub open spec fn marks_of(line: Seq<char>) -> int {
    run_end(line.skip(indent_of(line)), mark_of(line), 0)
}

/// What stands behind these characters.
pub open spec fn info_of(line: Seq<char>) -> Seq<char> {
    line.skip(indent_of(line)).skip(marks_of(line))
}

/// A line may open a fence: three or more backticks or tildes, with no backtick
/// behind backticks.
pub open spec fn opens_fence(line: Seq<char>) -> bool {
    &&& indent_of(line) <= 3
    &&& mark_of(line) == '`' || mark_of(line) == '~'
    &&& marks_of(line) >= 3
    &&& mark_of(line) == '`' ==> !info_of(line).contains('`')
}

/// A line closes the fence that another one opened: the same character at least
/// as often, and nothing behind it.
pub open spec fn closes_fence(line: Seq<char>, opener: Seq<char>) -> bool {
    &&& indent_of(line) <= 3
    &&& mark_of(line) == mark_of(opener)
    &&& marks_of(line) >= marks_of(opener)
    &&& trim(info_of(line)).len() == 0
}

/// No line between two positions closes the fence that was opened at the first.
pub open spec fn stays_open(s: Seq<char>, from: int, to: int) -> bool {
    forall|p: int|
        from < p < to && #[trigger] begins_line(s, p) ==> !closes_fence(
            line_at(s, p),
            line_at(s, from),
        )
}

/// A stretch is a fenced block: from the line that opens the fence through the
/// first one that closes it.
pub open spec fn is_fenced(s: Seq<char>, r: Extent, last: int) -> bool {
    &&& begins_line(s, r.0)
    &&& opens_fence(line_at(s, r.0))
    &&& begins_line(s, last)
    &&& r.0 < last
    &&& stays_open(s, r.0, last)
    &&& closes_fence(line_at(s, last), line_at(s, r.0))
    &&& r.1 == line_end(s, last)
}

/// A stretch is a fence that is never closed.
pub open spec fn is_open_ended(s: Seq<char>, r: Extent) -> bool {
    &&& begins_line(s, r.0)
    &&& opens_fence(line_at(s, r.0))
    &&& stays_open(s, r.0, s.len() as int)
    &&& r.1 == s.len()
}

/// A stretch is one indented line.
pub open spec fn is_indented(s: Seq<char>, r: Extent) -> bool {
    &&& begins_line(s, r.0)
    &&& indent_of(line_at(s, r.0)) >= 4 || char_at(line_at(s, r.0), 0) == '\t'
    &&& r.1 == line_end(s, r.0)
}

/// A stretch is a block of code.
pub open spec fn is_block(s: Seq<char>, r: Extent) -> bool {
    is_indented(s, r) || is_open_ended(s, r) || exists|last: int| #[trigger] is_fenced(s, r, last)
}

/// What holds between two lines of a scan.
pub open spec fn scan_holds(s: Seq<char>, offset: int, state: BlockState) -> bool {
    &&& 0 <= offset <= s.len()
    &&& offset == s.len() || begins_line(s, offset)
    &&& forall|k: int| 0 <= k < state.ranges.len() ==> is_block(s, #[trigger] state.ranges[k])
    &&& state.fence matches Some(f) ==> {
        &&& f.start < offset
        &&& begins_line(s, f.start)
        &&& opens_fence(line_at(s, f.start))
        &&& f.kind == mark_of(line_at(s, f.start))
        &&& f.width == marks_of(line_at(s, f.start))
        &&& stays_open(s, f.start, offset)
    }
    &&& forall|p: int|
        0 <= p < offset && #[trigger] begins_line(s, p) && opens_fence(line_at(s, p))
            ==> within(state.ranges, p) || (state.fence matches Some(f) && f.start <= p)
}

proof fn lemma_step(s: Seq<char>, offset: int, state: BlockState)
    requires
        scan_holds(s, offset, state),
        offset < s.len(),
    ensures
        scan_holds(
            s,
            line_end(s, offset),
            block_step(line_at(s, offset), offset, state),
        ),
{
    lemma_line_end(s, offset);
    let end = line_end(s, offset);
    let line = line_at(s, offset);
    let next = block_step(line, offset, state);
    assert(begins_line(s, offset));
    assert(offset + line.len() == end);
    assert forall|p: int| offset < p < end implies !begins_line(s, p) by {
        assert(s[p - 1] != '\n');
    }
    assert forall|k: int| 0 <= k < next.ranges.len() implies is_block(
        s,
        #[trigger] next.ranges[k],
    ) by {
        if k < state.ranges.len() {
            assert(next.ranges[k] == state.ranges[k]);
        } else if let Some(f) = state.fence {
            assert(is_fenced(s, next.ranges[k], offset));
        } else {
            assert(is_indented(s, next.ranges[k]));
        }
    }
    assert forall|p: int|
        0 <= p < end && #[trigger] begins_line(s, p) && opens_fence(line_at(s, p)) implies (
    within(next.ranges, p) || (next.fence matches Some(f) && f.start <= p)) by {
        if p < offset {
            if within(state.ranges, p) {
                let k = choose|k: int|
                    0 <= k < state.ranges.len() && (#[trigger] state.ranges[k]).0 <= p
                        < state.ranges[k].1;
                assert(next.ranges[k] == state.ranges[k]);
                assert(within(next.ranges, p));
            } else if next.fence is None {
                let k = state.ranges.len() as int;
                assert(next.ranges[k].0 <= p < next.ranges[k].1);
            }
        } else {
            assert(p == offset);
            if state.fence is Some && next.fence is None {
                let k = state.ranges.len() as int;
                assert(next.ranges[k].0 <= p < next.ranges[k].1);
            }
        }
    }
}

proof fn lemma_scan(s: Seq<char>, offset: int, state: BlockState)
    requires
        scan_holds(s, offset, state),
    ensures
        scan_holds(s, s.len() as int, block_scan(s, offset, state)),
    decreases s.len() - offset,
{
    lemma_line_end(s, offset);
    if offset < s.len() {
        lemma_step(s, offset, state);
        lemma_scan(
            s,
            line_end(s, offset),
            block_step(line_at(s, offset), offset, state),
        );
    }
}

/// Blocks of code are fenced, from the line that opens the fence through the
/// first one that closes it or through the end, or are indented lines. No fence
/// opens outside them.
pub proof fn code_blocks_are_fenced_or_indented(s: Seq<char>)
    ensures
        forall|k: int| 0 <= k < blocks(s).len() ==> is_block(s, #[trigger] blocks(s)[k]),
        forall|p: int| #[trigger]
            begins_line(s, p) && opens_fence(line_at(s, p)) ==> within(blocks(s), p),
{
    lemma_scan(s, 0, block_start());
    let state = block_scan(s, 0, block_start());
    let all = blocks(s);
    assert forall|k: int| 0 <= k < all.len() implies is_block(s, #[trigger] all[k]) by {
        if k < state.ranges.len() {
            assert(all[k] == state.ranges[k]);
        } else {
            assert(is_open_ended(s, all[k]));
        }
    }
    assert forall|p: int| #[trigger]
        begins_line(s, p) && opens_fence(line_at(s, p)) implies within(all, p) by {
        if within(state.ranges, p) {
            let k = choose|k: int|
                0 <= k < state.ranges.len() && (#[trigger] state.ranges[k]).0 <= p
                    < state.ranges[k].1;
            assert(all[k] == state.ranges[k]);
        } else {
            assert(all[state.ranges.len() as int].0 <= p < all[state.ranges.len() as int].1);
        }
    }
}

// ---------------------------------------------------------------------------
// Spans
// ---------------------------------------------------------------------------

/// Exactly the characters from one position to another are a run of backticks.
pub open spec fn is_run(s: Seq<char>, from: int, to: int) -> bool {
    &&& 0 <= from < to <= s.len()
    &&& forall|i: int| from <= i < to ==> #[trigger] s[i] == '`'
    &&& to < s.len() ==> s[to] != '`'
}

/// Code goes on from one position to another: outside runs of backticks neither a
/// block nor the end of a paragraph stands between them.
pub open spec fn unbroken(s: Seq<char>, blocks: Seq<Extent>, from: int, to: int) -> bool {
    forall|i: int|
        from <= i < to && #[trigger] s[i] != '`' ==> !within(blocks, i) && !paragraph_ends(s, i)
}

/// A stretch is a span of code: between a run of backticks and the next one of
/// the same length, unbroken.
pub open spec fn is_span(s: Seq<char>, blocks: Seq<Extent>, r: Extent, width: int) -> bool {
    &&& is_run(s, r.0, r.0 + width)
    &&& is_run(s, r.1 - width, r.1)
    &&& r.0 + width < r.1 - width
    &&& s[r.1 - width - 1] != '`'
    &&& unbroken(s, blocks, r.0 + width, r.1 - width)
}

proof fn lemma_run(s: Seq<char>, from: int)
    requires
        0 <= from <= s.len(),
    ensures
        from <= run_end(s, '`', from) <= s.len(),
        from < s.len() && s[from] == '`' ==> is_run(s, from, run_end(s, '`', from)),
        from == s.len() || s[from] != '`' ==> run_end(s, '`', from) == from,
    decreases s.len() - from,
{
    if from < s.len() && s[from] == '`' {
        lemma_run(s, from + 1);
    }
}

proof fn lemma_closing(s: Seq<char>, blocks: Seq<Extent>, from: int, start: int, width: int)
    requires
        0 <= start <= from <= s.len(),
        width >= 1,
        from < s.len() && s[from] == '`' ==> from > start && s[from - 1] != '`',
        unbroken(s, blocks, start, from),
        closing(s, blocks, from, width) is Some,
    ensures
        ({
            let end = closing(s, blocks, from, width)->0;
            &&& is_run(s, end - width, end)
            &&& start < end - width
            &&& s[end - width - 1] != '`'
            &&& unbroken(s, blocks, start, end - width)
        }),
    decreases s.len() - from,
{
    if s[from] != '`' {
        lemma_closing(s, blocks, from + 1, start, width);
    } else {
        lemma_run(s, from);
        let end = run_end(s, '`', from);
        if end - from != width {
            lemma_closing(s, blocks, end, start, width);
        }
    }
}

/// A span of code is closed by a run of backticks as long as the one that opens
/// it, and crosses neither a block nor the end of a paragraph.
pub proof fn spans_are_closed_by_equal_runs(
    s: Seq<char>,
    blocks: Seq<Extent>,
    from: int,
    k: int,
) -> (width: int)
    requires
        0 <= from,
        0 <= k < spans(s, blocks, from).len(),
    ensures
        is_span(s, blocks, spans(s, blocks, from)[k], width),
    decreases s.len() - from,
{
    if within(blocks, from) {
        spans_are_closed_by_equal_runs(s, blocks, leave(blocks, from), k)
    } else if s[from] == '\\' && from + 1 < s.len() {
        spans_are_closed_by_equal_runs(s, blocks, from + 2, k)
    } else if s[from] != '`' {
        spans_are_closed_by_equal_runs(s, blocks, from + 1, k)
    } else {
        lemma_run(s, from);
        let run = run_end(s, '`', from);
        match closing(s, blocks, run, run - from) {
            Some(end) => {
                lemma_closing(s, blocks, run, run, run - from);
                if k == 0 {
                    run - from
                } else {
                    assert(spans(s, blocks, from)[k] == spans(s, blocks, end)[k - 1]);
                    spans_are_closed_by_equal_runs(s, blocks, end, k - 1)
                }
            },
            None => spans_are_closed_by_equal_runs(s, blocks, run, k),
        }
    }
}

// ---------------------------------------------------------------------------
// Aliases
// ---------------------------------------------------------------------------

proof fn lemma_alias_length(ids: Seq<Seq<char>>, id: Seq<char>, length: int)
    requires
        0 <= length,
    ensures
        alias_length(ids, id, length) >= length,
        length <= id.len() ==> alias_length(ids, id, length) <= id.len(),
        alias_length(ids, id, length) < id.len() ==> !shared_beginning(
            ids,
            id,
            alias_length(ids, id, length),
        ),
        forall|n: int|
            length <= n < alias_length(ids, id, length) ==> #[trigger] shared_beginning(ids, id, n),
    decreases id.len() - length,
{
    if length < id.len() && shared_beginning(ids, id, length) {
        lemma_alias_length(ids, id, length + 1);
    }
}

/// An alias is the shortest beginning of an id, of at least eight characters,
/// that no other id begins with; where there is none it is the id itself.
pub proof fn aliases_tell_ids_apart(ids: Seq<Seq<char>>, id: Seq<char>)
    requires
        id.len() >= 8,
    ensures
        8 <= alias(ids, id).len() <= id.len(),
        alias(ids, id) == id.take(alias(ids, id).len() as int),
        alias(ids, id).len() < id.len() ==> forall|k: int|
            0 <= k < ids.len() && #[trigger] ids[k] != id && ids[k].len() >= alias(ids, id).len()
                ==> ids[k].take(alias(ids, id).len() as int) != alias(ids, id),
        forall|n: int|
            8 <= n < alias(ids, id).len() ==> #[trigger] shared_beginning(ids, id, n),
{
    lemma_alias_length(ids, id, 8);
    let n = alias_length(ids, id, 8);
    assert(alias(ids, id) =~= id.take(n));
}

} // verus!
