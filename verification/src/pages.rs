//! A document in pages that an audit reads one at a time, and the prose of a
//! page.

use vstd::prelude::*;
use vstd::string::StringExecFns;
use vstd::utf8::{
    encode_utf8, encode_utf8_valid_utf8, is_char_boundary, is_char_boundary_start_end_of_seq,
};

use crate::code_blocks::code;
use crate::editorial::{code_ranges, in_bytes};
use crate::model::Section;
use crate::order::{ascending, lemma_ordered, order_ascending, ordered};
use crate::parser::{find_floor, floor_boundary, lemma_floor_boundary, lemma_slice_bytes};
use crate::text::{blen, bytes_or_empty, join, join_with, slice_or_empty, split_words, words};

verus! {

/// A stretch of a section that is read at once.
pub struct Page {
    pub section: usize,
    /// Where it begins in the section, in bytes.
    pub offset: usize,
    pub content: String,
}

/// The value of a page.
pub struct PageModel {
    pub section: usize,
    pub offset: usize,
    pub content: Seq<char>,
}

impl View for Page {
    type V = PageModel;

    open spec fn view(&self) -> PageModel {
        PageModel { section: self.section, offset: self.offset, content: self.content@ }
    }
}

/// The values of a list of pages.
pub open spec fn page_models(v: Seq<Page>) -> Seq<PageModel> {
    v.map_values(|p: Page| p@)
}

// ---------------------------------------------------------------------------
// Pages
// ---------------------------------------------------------------------------

/// The first boundary of characters at or above a byte position.
pub open spec fn ceil_boundary(bytes: Seq<u8>, at: int) -> int
    decreases bytes.len() - at,
{
    if at >= bytes.len() || is_char_boundary(bytes, at) {
        at
    } else {
        ceil_boundary(bytes, at + 1)
    }
}

/// The bytes that a page may have.
pub open spec fn page_bytes(limit: nat) -> nat {
    if limit < 4 {
        4
    } else {
        limit
    }
}

/// How far a page reaches back into the one before it.
pub open spec fn page_overlap(limit: nat) -> nat {
    if limit / 8 < 512 {
        limit / 8
    } else {
        512
    }
}

/// Where a page ends.
pub open spec fn page_end(bytes: Seq<u8>, offset: int, limit: nat) -> int {
    floor_boundary(
        bytes,
        if offset + page_bytes(limit) < bytes.len() {
            offset + page_bytes(limit)
        } else {
            bytes.len() as int
        },
    )
}

/// Where the page behind one begins: a little before its end, and at least one
/// character behind its beginning.
pub open spec fn next_offset(bytes: Seq<u8>, offset: int, limit: nat) -> int {
    let end = page_end(bytes, offset, limit);
    let back = ceil_boundary(
        bytes,
        if end < page_overlap(limit) {
            0
        } else {
            end - page_overlap(limit)
        },
    );
    let step = ceil_boundary(bytes, offset + 1);
    if back < step {
        step
    } else {
        back
    }
}

/// The pages of a text from a byte position on.
pub open spec fn pages_from(
    markdown: Seq<char>,
    section: usize,
    offset: int,
    limit: nat,
) -> Seq<PageModel>
    decreases blen(markdown) - offset,
{
    let bytes = encode_utf8(markdown);
    if 0 <= offset < bytes.len() {
        let end = page_end(bytes, offset, limit);
        let next = next_offset(bytes, offset, limit);
        let page = PageModel {
            section,
            offset: offset as usize,
            content: slice_or_empty(markdown, offset, end),
        };
        if end >= bytes.len() || !(offset < next <= bytes.len()) {
            seq![page]
        } else {
            seq![page] + pages_from(markdown, section, next, limit)
        }
    } else {
        Seq::empty()
    }
}

/// The pages of the first `count` sections.
pub open spec fn pages_of(sections: Seq<Section>, limit: nat, count: nat) -> Seq<PageModel>
    decreases count,
{
    if count == 0 {
        Seq::empty()
    } else {
        pages_of(sections, limit, (count - 1) as nat) + pages_from(
            sections[count - 1].markdown@,
            (count - 1) as usize,
            0,
            limit,
        )
    }
}

proof fn lemma_ceil_boundary(content: Seq<char>, at: int)
    requires
        0 <= at <= blen(content),
    ensures
        ({
            let bytes = encode_utf8(content);
            let c = ceil_boundary(bytes, at);
            &&& at <= c <= bytes.len()
            &&& is_char_boundary(bytes, c)
            &&& forall|b: int| at <= b < c ==> !is_char_boundary(bytes, b)
        }),
    decreases blen(content) - at,
{
    let bytes = encode_utf8(content);
    encode_utf8_valid_utf8(content);
    is_char_boundary_start_end_of_seq(bytes);
    if at < bytes.len() && !is_char_boundary(bytes, at) {
        lemma_ceil_boundary(content, at + 1);
    }
}

/// A page is not empty, fits its limit, and the next one begins inside it.
proof fn lemma_page(content: Seq<char>, offset: int, limit: nat)
    requires
        0 <= offset < blen(content),
        is_char_boundary(encode_utf8(content), offset),
    ensures
        ({
            let bytes = encode_utf8(content);
            let end = page_end(bytes, offset, limit);
            let next = next_offset(bytes, offset, limit);
            &&& offset < end <= bytes.len()
            &&& end - offset <= page_bytes(limit)
            &&& is_char_boundary(bytes, end)
            &&& offset < next <= end
            &&& is_char_boundary(bytes, next)
        }),
{
    let bytes = encode_utf8(content);
    encode_utf8_valid_utf8(content);
    is_char_boundary_start_end_of_seq(bytes);
    let wanted = if offset + page_bytes(limit) < bytes.len() {
        offset + page_bytes(limit)
    } else {
        bytes.len() as int
    };
    lemma_floor_boundary(content, wanted);
    let end = page_end(bytes, offset, limit);
    assert(end > offset) by {
        if wanted == bytes.len() {
            assert(floor_boundary(bytes, wanted) == wanted);
        }
    }
    lemma_ceil_boundary(content, offset + 1);
    let from = if end < page_overlap(limit) {
        0
    } else {
        end - page_overlap(limit)
    };
    lemma_ceil_boundary(content, from);
    assert(ceil_boundary(bytes, offset + 1) <= end);
    assert(ceil_boundary(bytes, from) <= end);
}

/// A byte lies on a page.
pub open spec fn on_page(page: PageModel, at: int) -> bool {
    page.offset <= at < page.offset + blen(page.content)
}

/// A page holds the bytes of a text from its offset on, and fits a limit.
pub open spec fn page_holds(page: PageModel, markdown: Seq<char>, limit: nat) -> bool {
    let bytes = encode_utf8(markdown);
    let own = encode_utf8(page.content);
    &&& 0 < own.len() <= page_bytes(limit)
    &&& page.offset + own.len() <= bytes.len()
    &&& own == bytes.subrange(page.offset as int, page.offset + own.len())
}

proof fn lemma_pages(markdown: Seq<char>, section: usize, offset: int, limit: nat, at: int)
    requires
        0 <= offset <= at < blen(markdown) <= usize::MAX,
        is_char_boundary(encode_utf8(markdown), offset),
    ensures
        ({
            let pages = pages_from(markdown, section, offset, limit);
            &&& exists|k: int| 0 <= k < pages.len() && on_page(#[trigger] pages[k], at)
            &&& forall|k: int|
                0 <= k < pages.len() ==> page_holds(#[trigger] pages[k], markdown, limit)
                    && pages[k].section == section
        }),
    decreases blen(markdown) - offset,
{
    let bytes = encode_utf8(markdown);
    let pages = pages_from(markdown, section, offset, limit);
    lemma_page(markdown, offset, limit);
    let end = page_end(bytes, offset, limit);
    let next = next_offset(bytes, offset, limit);
    lemma_slice_bytes(markdown, offset, end);
    assert(page_holds(pages[0], markdown, limit));
    if end >= bytes.len() {
        assert(on_page(pages[0], at));
    } else {
        let rest = pages_from(markdown, section, next, limit);
        assert(pages =~= seq![pages[0]] + rest);
        let aim = if at < next {
            next
        } else {
            at
        };
        lemma_pages(markdown, section, next, limit, aim);
        assert forall|k: int| 0 <= k < pages.len() implies page_holds(
            #[trigger] pages[k],
            markdown,
            limit,
        ) && pages[k].section == section by {
            if k > 0 {
                assert(pages[k] == rest[k - 1]);
            }
        }
        if at < end {
            assert(on_page(pages[0], at));
        } else {
            let k = choose|k: int| 0 <= k < rest.len() && on_page(#[trigger] rest[k], at);
            assert(on_page(pages[k + 1], at));
        }
    }
}

/// Every byte of a section lies on one of its pages, and every page holds the
/// bytes of the section at its offset, within the limit.
pub proof fn every_byte_lies_on_a_page(
    sections: Seq<Section>,
    limit: nat,
    count: nat,
    section: int,
    at: int,
)
    requires
        0 <= section < count <= sections.len() <= usize::MAX,
        0 <= at < blen(sections[section].markdown@) <= usize::MAX,
    ensures
        exists|k: int|
            0 <= k < pages_of(sections, limit, count).len() && (#[trigger] pages_of(
                sections,
                limit,
                count,
            )[k]).section == section && on_page(pages_of(sections, limit, count)[k], at)
                && page_holds(
                pages_of(sections, limit, count)[k],
                sections[section].markdown@,
                limit,
            ),
    decreases count,
{
    let all = pages_of(sections, limit, count);
    let before = pages_of(sections, limit, (count - 1) as nat);
    let own = pages_from(sections[count - 1].markdown@, (count - 1) as usize, 0, limit);
    if section == count - 1 {
        let markdown = sections[section].markdown@;
        encode_utf8_valid_utf8(markdown);
        is_char_boundary_start_end_of_seq(encode_utf8(markdown));
        lemma_pages(markdown, section as usize, 0, limit, at);
        let k = choose|k: int| 0 <= k < own.len() && on_page(#[trigger] own[k], at);
        assert(all[before.len() + k] == own[k]);
        assert(page_holds(own[k], markdown, limit));
    } else {
        every_byte_lies_on_a_page(sections, limit, (count - 1) as nat, section, at);
        let k = choose|k: int|
            0 <= k < before.len() && (#[trigger] before[k]).section == section && on_page(
                before[k],
                at,
            ) && page_holds(before[k], sections[section].markdown@, limit);
        assert(all[k] == before[k]);
    }
}

/// The first boundary of characters at or above a byte position.
fn find_ceil(content: &str, at: usize) -> (r: usize)
    requires
        at <= blen(content@),
    ensures
        r == ceil_boundary(encode_utf8(content@), at as int),
        at <= r <= blen(content@),
{
    let n: usize = content.as_bytes().len();
    let ghost bytes = encode_utf8(content@);
    let mut i: usize = at;
    while i < n && !content.is_char_boundary(i)
        invariant
            at <= i <= n == bytes.len(),
            bytes == encode_utf8(content@),
            ceil_boundary(bytes, i as int) == ceil_boundary(bytes, at as int),
        decreases n - i,
    {
        i += 1;
    }
    i
}

/// The pages of a document, with an overlap that keeps the context around a
/// split. No page leaves out the middle of a section.
pub fn pages(sections: &[Section], limit: usize) -> (r: Vec<Page>)
    ensures
        page_models(r@) == pages_of(sections@, limit as nat, sections@.len()),
{
    let most: usize = if limit < 4 {
        4
    } else {
        limit
    };
    let overlap: usize = if limit / 8 < 512 {
        limit / 8
    } else {
        512
    };
    let mut r: Vec<Page> = Vec::new();
    let mut s: usize = 0;
    assert(page_models(r@) =~= Seq::empty());
    while s < sections.len()
        invariant
            s <= sections@.len(),
            most == page_bytes(limit as nat),
            overlap == page_overlap(limit as nat),
            page_models(r@) == pages_of(sections@, limit as nat, s as nat),
        decreases sections@.len() - s,
    {
        let markdown = sections[s].markdown.as_str();
        let n: usize = markdown.as_bytes().len();
        let ghost bytes = encode_utf8(markdown@);
        let ghost before = page_models(r@);
        let ghost goal = pages_from(markdown@, s, 0, limit as nat);
        let mut offset: usize = 0;
        let mut done = n == 0;
        proof {
            encode_utf8_valid_utf8(markdown@);
            is_char_boundary_start_end_of_seq(bytes);
            assert(before + goal == page_models(r@) + goal);
            if n == 0 {
                assert(goal =~= Seq::empty());
                assert(before + goal =~= before);
            }
        }
        while !done
            invariant
                n == bytes.len(),
                bytes == encode_utf8(markdown@),
                most == page_bytes(limit as nat),
                overlap == page_overlap(limit as nat),
                !done ==> offset < n && is_char_boundary(bytes, offset as int),
                !done ==> page_models(r@) + pages_from(markdown@, s, offset as int, limit as nat)
                    == before + goal,
                done ==> page_models(r@) == before + goal,
            decreases (if done {
                0
            } else {
                n - offset
            }),
        {
            let end = find_floor(
                markdown,
                if n - offset > most {
                    offset + most
                } else {
                    n
                },
            );
            proof {
                lemma_page(markdown@, offset as int, limit as nat);
                assert(end == page_end(bytes, offset as int, limit as nat));
            }
            let page = Page {
                section: s,
                offset,
                content: bytes_or_empty(markdown, offset, end),
            };
            let ghost so_far = page_models(r@);
            assert(page_models(r@.push(page)) =~= so_far.push(page@));
            r.push(page);
            if end >= n {
                done = true;
                assert(so_far + seq![page@] =~= so_far.push(page@));
            } else {
                let back = find_ceil(
                    markdown,
                    if end < overlap {
                        0
                    } else {
                        end - overlap
                    },
                );
                let step = find_ceil(markdown, offset + 1);
                let next: usize = if back < step {
                    step
                } else {
                    back
                };
                proof {
                    let rest = pages_from(markdown@, s, next as int, limit as nat);
                    assert(so_far + (seq![page@] + rest) =~= so_far.push(page@) + rest);
                }
                offset = next;
            }
        }
        s += 1;
    }
    r
}

// ---------------------------------------------------------------------------
// Prose
// ---------------------------------------------------------------------------

/// A text with every run of whitespace as one space, and none at its ends.
pub open spec fn flat(s: Seq<char>) -> Seq<char> {
    join(words(s), " "@)
}

/// Collapses every run of whitespace to one space.
pub fn flatten(text: &str) -> (r: String)
    ensures
        r@ == flat(text@),
{
    join_with(&split_words(text), " ")
}

/// A stretch of bytes.
pub struct ByteRange {
    pub start: usize,
    pub end: usize,
}

/// The code of a text, in bytes.
pub open spec fn code_bytes(s: Seq<char>) -> Seq<ByteRange> {
    Seq::new(
        code(s).len(),
        |k: int|
            ByteRange {
                start: blen(s.take(code(s)[k].0)) as usize,
                end: blen(s.take(code(s)[k].1)) as usize,
            },
    )
}

/// Stretches in the order of their beginnings.
pub open spec fn by_start(ranges: Seq<ByteRange>) -> Seq<ByteRange> {
    let starts = ranges.map_values(|r: ByteRange| r.start);
    ordered(ranges.len(), ascending(starts)).map_values(|i: usize| ranges[i as int])
}

/// Prose so far, and the byte position up to which a text was read.
pub struct ProseState {
    pub prose: Seq<char>,
    pub cursor: int,
}

/// What stands before the next stretch of code, and the position behind it.
pub open spec fn skip_code(
    markdown: Seq<char>,
    state: ProseState,
    range: ByteRange,
    end: int,
) -> ProseState {
    let from = if range.start > state.cursor {
        range.start as int
    } else {
        state.cursor
    };
    let stop = if from < end {
        from
    } else {
        end
    };
    let behind = if range.end > state.cursor {
        range.end as int
    } else {
        state.cursor
    };
    if range.end <= state.cursor || range.start >= end {
        state
    } else {
        ProseState {
            prose: if stop > state.cursor {
                state.prose + slice_or_empty(markdown, state.cursor, stop) + " "@
            } else {
                state.prose
            },
            cursor: if behind < end {
                behind
            } else {
                end
            },
        }
    }
}

/// What stands outside the first `count` stretches of code.
pub open spec fn outside_code(
    markdown: Seq<char>,
    ranges: Seq<ByteRange>,
    from: int,
    end: int,
    count: nat,
) -> ProseState
    decreases count,
{
    if count == 0 {
        ProseState { prose: Seq::empty(), cursor: from }
    } else {
        skip_code(
            markdown,
            outside_code(markdown, ranges, from, end, (count - 1) as nat),
            ranges[count - 1],
            end,
        )
    }
}

/// The prose of a stretch of a text: what stands outside code, flattened.
pub open spec fn prose_between(markdown: Seq<char>, from: int, end: int) -> Seq<char> {
    let ranges = by_start(code_bytes(markdown));
    let state = outside_code(markdown, ranges, from, end, ranges.len());
    flat(
        if state.cursor < end {
            state.prose + slice_or_empty(markdown, state.cursor, end)
        } else {
            state.prose
        },
    )
}

/// The explanatory prose of a page.
pub open spec fn prose_of(page: PageModel, sections: Seq<Section>) -> Seq<char> {
    if page.section >= sections.len() {
        Seq::empty()
    } else {
        let markdown = sections[page.section as int].markdown@;
        let n = blen(markdown) as int;
        let end = if page.offset + blen(page.content) < n {
            page.offset + blen(page.content)
        } else {
            n
        };
        let from = if page.offset < end {
            page.offset as int
        } else {
            end
        };
        prose_between(markdown, from, end)
    }
}

/// The code of a text, in bytes and in the order of its beginnings.
fn sorted_code(markdown: &str) -> (r: Vec<ByteRange>)
    ensures
        r@ == by_start(code_bytes(markdown@)),
{
    let found = code_ranges(markdown);
    let ghost all = code_bytes(markdown@);
    let ghost starts = all.map_values(|r: ByteRange| r.start);
    let mut firsts: Vec<usize> = Vec::new();
    let mut i: usize = 0;
    assert(firsts@ =~= starts.take(0));
    while i < found.len()
        invariant
            i <= found@.len() == all.len(),
            all == code_bytes(markdown@),
            starts == all.map_values(|r: ByteRange| r.start),
            forall|k: int|
                0 <= k < found@.len() ==> in_bytes(
                    markdown@,
                    code(markdown@)[k],
                    (#[trigger] found@[k]).start,
                    found@[k].end,
                ),
            firsts@ == starts.take(i as int),
        decreases found@.len() - i,
    {
        let start: usize = found[i].start;
        assert(in_bytes(
            markdown@,
            code(markdown@)[i as int],
            found@[i as int].start,
            found@[i as int].end,
        ));
        assert(starts.take(i + 1) =~= starts.take(i as int).push(start));
        firsts.push(start);
        i += 1;
    }
    assert(starts.take(i as int) =~= starts);
    let order = order_ascending(&firsts);
    let ghost goal = by_start(all);
    proof {
        assert(found.len() == all.len());
        lemma_ordered(all.len(), ascending(starts));
        assert forall|k: int| 0 <= k < order@.len() implies #[trigger] order@[k] < found@.len() by {
            assert(order@.contains(order@[k]));
        }
    }
    let mut r: Vec<ByteRange> = Vec::new();
    let mut k: usize = 0;
    assert(r@ =~= goal.take(0));
    while k < order.len()
        invariant
            k <= order@.len(),
            found@.len() == all.len(),
            all == code_bytes(markdown@),
            goal == order@.map_values(|i: usize| all[i as int]),
            forall|k: int| 0 <= k < order@.len() ==> #[trigger] order@[k] < found@.len(),
            forall|k: int|
                0 <= k < found@.len() ==> in_bytes(
                    markdown@,
                    code(markdown@)[k],
                    (#[trigger] found@[k]).start,
                    found@[k].end,
                ),
            r@ == goal.take(k as int),
        decreases order@.len() - k,
    {
        let at: usize = order[k];
        assert(in_bytes(
            markdown@,
            code(markdown@)[at as int],
            found@[at as int].start,
            found@[at as int].end,
        ));
        let range = ByteRange { start: found[at].start, end: found[at].end };
        assert(goal.take(k + 1) =~= goal.take(k as int).push(range));
        r.push(range);
        k += 1;
    }
    assert(goal.take(k as int) =~= goal);
    r
}

/// The explanatory prose of a page: code removed, whitespace flattened.
pub fn page_prose(page: &Page, sections: &[Section]) -> (r: String)
    ensures
        r@ == prose_of(page@, sections@),
{
    if page.section >= sections.len() {
        return String::new();
    }
    let markdown = sections[page.section].markdown.as_str();
    let n: usize = markdown.as_bytes().len();
    let own: usize = page.content.as_str().as_bytes().len();
    let end: usize = if page.offset < n && own < n - page.offset {
        page.offset + own
    } else {
        n
    };
    let from: usize = if page.offset < end {
        page.offset
    } else {
        end
    };
    let ranges = sorted_code(markdown);
    let ghost all = by_start(code_bytes(markdown@));
    let mut prose = String::new();
    let mut cursor: usize = from;
    let mut i: usize = 0;
    while i < ranges.len()
        invariant
            i <= ranges@.len(),
            ranges@ == all,
            cursor <= end,
            outside_code(markdown@, all, from as int, end as int, i as nat) == (ProseState {
                prose: prose@,
                cursor: cursor as int,
            }),
        decreases ranges@.len() - i,
    {
        let start: usize = ranges[i].start;
        let behind: usize = ranges[i].end;
        if !(behind <= cursor || start >= end) {
            let at: usize = if start > cursor {
                start
            } else {
                cursor
            };
            let stop: usize = if at < end {
                at
            } else {
                end
            };
            if stop > cursor {
                prose.push_str(bytes_or_empty(markdown, cursor, stop).as_str());
                prose.push_str(" ");
            }
            cursor = if behind < end {
                behind
            } else {
                end
            };
        }
        i += 1;
    }
    if cursor < end {
        prose.push_str(bytes_or_empty(markdown, cursor, end).as_str());
    }
    flatten(prose.as_str())
}

} // verus!
