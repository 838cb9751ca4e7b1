//! What the chunks of a file are: its text cut at the right places, each with
//! its own lines and the symbols that it declares.

use vstd::prelude::*;
use vstd::utf8::{
    encode_scalar, encode_utf8, encode_utf8_valid_utf8, is_char_boundary,
    is_char_boundary_start_end_of_seq,
};

use crate::order::{lemma_filter_none, lemma_filter_step};
use crate::parser::{
    behind_last_feed, chunk_end, chunks_from, end_line, feeds, floor_boundary, largest_between,
    lemma_behind_ascii, lemma_chunk_end, lemma_feeds, lemma_feeds_split, lemma_floor_boundary, lemma_slice_bytes,
    names_between, reach, ChunkModel, NameModel,
};
use crate::text::{blen, lemma_blen_concat, lemma_blen_push, lemma_width, slice_or_empty};

verus! {

/// A character ends a line.
pub open spec fn feeds_line() -> spec_fn(char) -> bool {
    |c: char| c == '\n'
}

/// How many line feeds a text holds.
pub open spec fn line_feeds(s: Seq<char>) -> nat {
    s.filter(feeds_line()).len()
}

/// The text of a chunk.
pub open spec fn text_of_chunk() -> spec_fn(ChunkModel) -> Seq<char> {
    |c: ChunkModel| c.content
}

/// The text of the chunks before one.
pub open spec fn text_before(chunks: Seq<ChunkModel>, k: int) -> Seq<char> {
    chunks.take(k).flat_map(text_of_chunk())
}

/// A declaration begins between two byte positions.
pub open spec fn declared_between(from: int, to: int) -> spec_fn(NameModel) -> bool {
    |n: NameModel| from <= n.at < to
}

/// What is declared.
pub open spec fn declared_name() -> spec_fn(NameModel) -> Seq<char> {
    |n: NameModel| n.name
}

proof fn lemma_one_feed(c: char)
    ensures
        feeds(encode_scalar(c as u32), 0, encode_scalar(c as u32).len() as int) == (if c == '\n' {
            1nat
        } else {
            0nat
        }),
{
    let v = c as u32;
    let b = encode_scalar(v);
    assert(v <= 0x7F ==> (v & 0x7F) == v) by (bit_vector);
    assert((0xC0u8 | ((v >> 6) & 0x1F) as u8) >= 0x80 && (0xE0u8 | ((v >> 12) & 0x0F) as u8)
        >= 0x80 && (0xF0u8 | ((v >> 18) & 0x7) as u8) >= 0x80 && (0x80u8 | (v & 0x3F) as u8)
        >= 0x80 && (0x80u8 | ((v >> 6) & 0x3F) as u8) >= 0x80 && (0x80u8 | ((v >> 12) & 0x3F) as u8)
        >= 0x80) by (bit_vector);
    lemma_width(c);
    reveal_with_fuel(feeds, 5);
}

proof fn lemma_feeds_shift(a: Seq<u8>, b: Seq<u8>, from: int, to: int)
    requires
        0 <= from <= to <= b.len(),
    ensures
        feeds(a + b, a.len() + from, a.len() + to) == feeds(b, from, to),
        feeds(b + a, from, to) == feeds(b, from, to),
    decreases to - from,
{
    if from < to {
        lemma_feeds_shift(a, b, from, to - 1);
        assert((a + b)[a.len() + to - 1] == b[to - 1]);
        assert((b + a)[to - 1] == b[to - 1]);
    }
}

/// Line feeds are the same in bytes and in characters.
proof fn lemma_feeds_of_text(s: Seq<char>)
    ensures
        feeds(encode_utf8(s), 0, encode_utf8(s).len() as int) == line_feeds(s),
    decreases s.len(),
{
    reveal(Seq::filter);
    if s.len() > 0 {
        let t = s.drop_last();
        let c = s.last();
        lemma_feeds_of_text(t);
        assert(t.push(c) =~= s);
        lemma_blen_push(t, c);
        let head = encode_utf8(t);
        let tail = encode_scalar(c as u32);
        lemma_one_feed(c);
        lemma_feeds_split(head + tail, 0, head.len() as int, (head + tail).len() as int);
        lemma_feeds_shift(head, tail, 0, tail.len() as int);
        lemma_feeds_shift(tail, head, 0, head.len() as int);
    }
}

proof fn lemma_feeds_between(content: Seq<char>, from: int, to: int)
    requires
        0 <= from <= to <= blen(content),
        is_char_boundary(encode_utf8(content), from),
        is_char_boundary(encode_utf8(content), to),
    ensures
        feeds(encode_utf8(content), from, to) == line_feeds(slice_or_empty(content, from, to)),
{
    let bytes = encode_utf8(content);
    lemma_slice_bytes(content, from, to);
    let part = bytes.subrange(from, to);
    lemma_feeds_of_text(slice_or_empty(content, from, to));
    let front = bytes.subrange(0, from);
    let back = bytes.subrange(to, bytes.len() as int);
    assert(bytes =~= front + (part + back));
    lemma_feeds_shift(front, part + back, 0, to - from);
    lemma_feeds_shift(back, part, 0, to - from);
}

proof fn lemma_names(names: Seq<NameModel>, from: int, to: int, count: nat)
    requires
        count <= names.len(),
    ensures
        names_between(names, from, to, count) == names.take(count as int).filter(
            declared_between(from, to),
        ).map_values(declared_name()),
    decreases count,
{
    lemma_filter_none(names, declared_between(from, to));
    if count == 0 {
        assert(Seq::<NameModel>::empty().map_values(declared_name()) =~= Seq::empty());
    } else {
        lemma_names(names, from, to, (count - 1) as nat);
        lemma_filter_step(names, declared_between(from, to), count - 1);
        let before = names.take(count - 1).filter(declared_between(from, to));
        assert(before.push(names[count - 1]).map_values(declared_name()) =~= before.map_values(
            declared_name(),
        ).push(names[count - 1].name));
    }
}

/// A chunk from one byte position to another, the first of which is on a line.
spec fn chunk_between(
    content: Seq<char>,
    names: Seq<NameModel>,
    from: int,
    to: int,
    line: nat,
) -> ChunkModel {
    ChunkModel {
        start: line as u32,
        end: end_line(encode_utf8(content), from, to, line) as u32,
        symbols: names_between(names, from, to, names.len()),
        content: slice_or_empty(content, from, to),
    }
}

/// Where the chunk at a position begins.
proof fn lemma_place(
    content: Seq<char>,
    boundaries: Seq<usize>,
    names: Seq<NameModel>,
    start: int,
    line: nat,
    k: int,
)
    requires
        0 <= start <= blen(content),
        is_char_boundary(encode_utf8(content), start),
        0 <= k < chunks_from(content, boundaries, names, start, line).len(),
    ensures
        ({
            let bytes = encode_utf8(content);
            let chunks = chunks_from(content, boundaries, names, start, line);
            let from = start + blen(text_before(chunks, k));
            let to = chunk_end(bytes, boundaries, from);
            &&& start <= from < to <= bytes.len()
            &&& is_char_boundary(bytes, from)
            &&& is_char_boundary(bytes, to)
            &&& encode_utf8(text_before(chunks, k)) == bytes.subrange(start, from)
            &&& to == start + blen(text_before(chunks, k + 1))
            &&& chunks[k] == chunk_between(
                content,
                names,
                from,
                to,
                line + feeds(bytes, start, from),
            )
        }),
    decreases k,
{
    let bytes = encode_utf8(content);
    let chunks = chunks_from(content, boundaries, names, start, line);
    let f = text_of_chunk();
    assert(start < bytes.len());
    lemma_chunk_end(content, boundaries, start);
    let end = chunk_end(bytes, boundaries, start);
    let next = line + feeds(bytes, start, end);
    let rest = chunks_from(content, boundaries, names, end, next);
    let first = chunk_between(content, names, start, end, line);
    assert(chunks =~= seq![first] + rest);
    lemma_slice_bytes(content, start, end);
    chunks.lemma_flat_map_take_append(f, k);
    assert(chunks.take(0).map_values(f) =~= Seq::empty());
    assert(text_before(chunks, 0) =~= Seq::empty());
    assert(encode_utf8(Seq::<char>::empty()) =~= Seq::<u8>::empty());
    if k == 0 {
        assert(text_before(chunks, 1) =~= first.content);
        assert(bytes.subrange(start, start) =~= Seq::<u8>::empty());
    } else {
        lemma_place(content, boundaries, names, end, next, k - 1);
        lemma_head(first, rest, k);
        lemma_head(first, rest, k + 1);
        let from = end + blen(text_before(rest, k - 1));
        lemma_blen_concat(first.content, text_before(rest, k - 1));
        lemma_blen_concat(first.content, text_before(rest, k));
        lemma_feeds_split(bytes, start, end, from);
        assert(bytes.subrange(start, from) =~= bytes.subrange(start, end) + bytes.subrange(
            end,
            from,
        ));
        assert(chunks[k] == rest[k - 1]);
    }
}

proof fn lemma_head(first: ChunkModel, rest: Seq<ChunkModel>, k: int)
    requires
        1 <= k <= rest.len() + 1,
    ensures
        text_before(seq![first] + rest, k) == first.content + text_before(rest, k - 1),
{
    let f = text_of_chunk();
    let all = (seq![first] + rest).take(k).map_values(f);
    assert(all.drop_first() =~= rest.take(k - 1).map_values(f));
    assert(all.first() == first.content);
}

/// Every chunk has the lines of its own text: it begins one line behind as many
/// line feeds as stand before it in the file, and ends as many lines on as it
/// holds line feeds, but one at its end begins no other line. Its symbols are
/// those that are declared in its bytes.
pub proof fn chunks_have_their_own_lines(
    content: Seq<char>,
    boundaries: Seq<usize>,
    names: Seq<NameModel>,
    k: int,
)
    requires
        line_feeds(content) < u32::MAX,
        0 <= k < chunks_from(content, boundaries, names, 0, 1).len(),
    ensures
        ({
            let chunks = chunks_from(content, boundaries, names, 0, 1);
            let c = chunks[k];
            &&& c.start == 1 + line_feeds(text_before(chunks, k))
            &&& c.content.len() > 0
            &&& c.end == c.start + line_feeds(c.content) - (if c.content.last() == '\n' {
                1int
            } else {
                0
            })
            &&& c.symbols == names.filter(
                declared_between(
                    blen(text_before(chunks, k)) as int,
                    blen(text_before(chunks, k + 1)) as int,
                ),
            ).map_values(declared_name())
        }),
{
    let bytes = encode_utf8(content);
    let chunks = chunks_from(content, boundaries, names, 0, 1);
    encode_utf8_valid_utf8(content);
    is_char_boundary_start_end_of_seq(bytes);
    lemma_place(content, boundaries, names, 0, 1, k);
    let from = blen(text_before(chunks, k)) as int;
    let to = chunk_end(bytes, boundaries, from);
    let c = chunks[k];
    lemma_feeds_of_text(content);
    lemma_feeds_of_text(text_before(chunks, k));
    lemma_feeds_between(content, from, to);
    lemma_slice_bytes(content, from, to);
    lemma_feeds_split(bytes, 0, from, to);
    lemma_feeds_split(bytes, 0, to, bytes.len() as int);
    let head = bytes.subrange(0, from);
    let tail = bytes.subrange(from, bytes.len() as int);
    assert(head + tail =~= bytes);
    lemma_feeds_shift(tail, head, 0, from);
    lemma_names(names, from, to, names.len());
    assert(names.take(names.len() as int) =~= names);
    lemma_feeds(bytes, from, to);
    assert(c.content.len() > 0) by {
        if c.content.len() == 0 {
            assert(c.content =~= Seq::empty());
            assert(encode_utf8(c.content) =~= Seq::<u8>::empty());
        }
    }
    lemma_last_byte(c.content);
    assert(bytes.subrange(from, to).last() == bytes[to - 1]);
}

proof fn lemma_last_byte(s: Seq<char>)
    requires
        s.len() > 0,
    ensures
        encode_utf8(s).len() > 0,
        encode_utf8(s).last() == 10 <==> s.last() == '\n',
{
    let t = s.drop_last();
    let c = s.last();
    assert(t.push(c) =~= s);
    lemma_blen_push(t, c);
    let tail = encode_scalar(c as u32);
    lemma_one_feed(c);
    lemma_width(c);
    assert(encode_utf8(s).last() == tail.last());
    lemma_feeds(tail, 0, tail.len() as int);
    if c == '\n' {
        reveal_with_fuel(feeds, 3);
    }
}

proof fn lemma_largest(list: Seq<usize>, low: int, high: int, count: nat)
    requires
        count <= list.len(),
    ensures
        match largest_between(list, low, high, count) {
            Some(b) => low < b <= high && (exists|i: int| 0 <= i < count && #[trigger] list[i] == b)
                && forall|i: int|
                0 <= i < count && low < #[trigger] list[i] <= high ==> list[i] <= b,
            None => forall|i: int| 0 <= i < count ==> !(low < #[trigger] list[i] <= high),
        },
    decreases count,
{
    if count > 0 {
        lemma_largest(list, low, high, (count - 1) as nat);
        assert(list[count - 1] == list[count - 1]);
        if let Some(b) = largest_between(list, low, high, (count - 1) as nat) {
            let i = choose|i: int| 0 <= i < count - 1 && #[trigger] list[i] == b;
            assert(list[i] == b);
        }
    }
}

proof fn lemma_last_feed(bytes: Seq<u8>, from: int, to: int)
    requires
        0 <= from <= to <= bytes.len(),
    ensures
        match behind_last_feed(bytes, from, to) {
            Some(e) => from < e <= to && bytes[e - 1] == 10 && forall|i: int|
                e <= i < to ==> #[trigger] bytes[i] != 10,
            None => forall|i: int| from <= i < to ==> #[trigger] bytes[i] != 10,
        },
    decreases to - from,
{
    if from < to && bytes[to - 1] != 10 {
        lemma_last_feed(bytes, from, to - 1);
    }
}

proof fn lemma_floor(bytes: Seq<u8>, at: int)
    requires
        is_char_boundary(bytes, 0),
        0 <= at,
    ensures
        0 <= floor_boundary(bytes, at) <= at,
        is_char_boundary(bytes, floor_boundary(bytes, at)),
        forall|i: int| floor_boundary(bytes, at) < i <= at ==> !(#[trigger] is_char_boundary(bytes, i)),
    decreases at,
{
    if at > 0 && !is_char_boundary(bytes, at) {
        lemma_floor(bytes, at - 1);
    }
}

/// A position is the last boundary of characters up to a limit.
pub open spec fn last_boundary(bytes: Seq<u8>, at: int, limit: int) -> bool {
    &&& 0 <= at <= limit
    &&& is_char_boundary(bytes, at)
    &&& forall|i: int| at < i <= limit ==> !(#[trigger] is_char_boundary(bytes, i))
}

/// A chunk reaches as far as 12,000 bytes let it. Where the file goes on behind
/// that, it ends at the last declaration that leaves it more than 4,000 bytes;
/// where there is none, behind its last line feed; and otherwise where it can
/// reach no further.
pub proof fn chunks_end_in_good_places(
    content: Seq<char>,
    boundaries: Seq<usize>,
    names: Seq<NameModel>,
    k: int,
)
    requires
        0 <= k < chunks_from(content, boundaries, names, 0, 1).len(),
    ensures
        ({
            let bytes = encode_utf8(content);
            let chunks = chunks_from(content, boundaries, names, 0, 1);
            let from = blen(text_before(chunks, k)) as int;
            let to = blen(text_before(chunks, k + 1)) as int;
            &&& bytes.len() - from <= 12_000 ==> to == bytes.len()
            &&& bytes.len() - from > 12_000 ==> exists|far: int|
                {
                    &&& #[trigger] last_boundary(bytes, far, from + 12_000)
                    &&& (exists|i: int|
                        0 <= i < boundaries.len() && from + 4_000 < #[trigger] boundaries[i]
                            <= far) ==> exists|i: int|
                        {
                            &&& 0 <= i < boundaries.len()
                            &&& from + 4_000 < #[trigger] boundaries[i] <= far
                            &&& last_boundary(bytes, to, boundaries[i] as int)
                            &&& forall|j: int|
                                0 <= j < boundaries.len() && from + 4_000 < #[trigger] boundaries[j]
                                    <= far ==> boundaries[j] <= boundaries[i]
                        }
                    &&& (forall|i: int|
                        0 <= i < boundaries.len() ==> !(from + 4_000 < #[trigger] boundaries[i]
                            <= far)) ==> if exists|i: int|
                        from <= i < far && #[trigger] bytes[i] == 10 {
                        bytes[to - 1] == 10 && from < to <= far && forall|i: int|
                            to <= i < far ==> #[trigger] bytes[i] != 10
                    } else {
                        to == far
                    }
                }
        }),
{
    let bytes = encode_utf8(content);
    let chunks = chunks_from(content, boundaries, names, 0, 1);
    encode_utf8_valid_utf8(content);
    is_char_boundary_start_end_of_seq(bytes);
    lemma_place(content, boundaries, names, 0, 1, k);
    let from = blen(text_before(chunks, k)) as int;
    let to = blen(text_before(chunks, k + 1)) as int;
    let far = reach(bytes, from);
    if bytes.len() - from <= 12_000 {
        lemma_floor(bytes, bytes.len() as int);
    } else {
        lemma_floor_boundary(content, from + 12_000);
        lemma_floor(bytes, from + 12_000);
        assert(last_boundary(bytes, far, from + 12_000));
        lemma_largest(boundaries, from + 4_000, far, boundaries.len());
        lemma_last_feed(bytes, from, far);
        if let Some(b) = largest_between(boundaries, from + 4_000, far, boundaries.len()) {
            lemma_floor(bytes, b);
            let i = choose|i: int| 0 <= i < boundaries.len() && #[trigger] boundaries[i] == b;
            assert(last_boundary(bytes, to, boundaries[i] as int));
        } else if let Some(e) = behind_last_feed(bytes, from, far) {
            assert(bytes[e - 1] == 10);
            lemma_behind_ascii(content, e);
            assert(floor_boundary(bytes, e) == e);
        }
    }
}

} // verus!
