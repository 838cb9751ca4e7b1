//! Cutting a source file into chunks, with its symbols and relations.

use vstd::prelude::*;
use vstd::string::StringExecFns;
use vstd::utf8::{
    encode_utf8, encode_utf8_valid_utf8, is_char_boundary, is_char_boundary_start_end_of_seq,
    is_char_boundary_iff_not_is_continuation_byte,
};

use crate::code_graph::{extract, graph_of, grounded, CodeGraph};
use crate::syntax::{
    child, find_child, node_models, parse_tree, syntax_tree, Grammar, NodeModel, SyntaxNode,
};
use crate::text::{
    blen, byte_slice, contains, decimal, get_bytes, has, lemma_blen_concat, lemma_blen_one, lemma_blen_push,
    lemma_same_bytes, lowercase, number, same, slice, slice_or_empty, texts, to_chars, to_lowercase,
};

verus! {

/// The version of what parsing yields.
pub const VERSION: &'static str = "parser-v3-graph";

/// The most bytes of one chunk.
pub const CHUNK_BYTES: usize = 12_000;

/// How many bytes a chunk has before it may end at a declaration.
pub const CHUNK_FLOOR_BYTES: usize = 4_000;

/// The most relations that are listed of one file.
pub const MAX_RELATIONS: usize = 10_000;

/// What parsing a file yields.
pub struct Parsed {
    pub language: String,
    pub has_errors: bool,
    pub chunks: Vec<Chunk>,
    pub relations: Vec<String>,
    pub graph: CodeGraph,
}

/// A stretch of a file, with its lines and the symbols that it declares.
pub struct Chunk {
    pub start: u32,
    pub end: u32,
    pub symbols: Vec<String>,
    pub content: String,
}

/// A declared name and where its declaration begins.
pub struct Name {
    pub at: usize,
    pub name: String,
}

/// The value of a chunk.
pub struct ChunkModel {
    pub start: u32,
    pub end: u32,
    pub symbols: Seq<Seq<char>>,
    pub content: Seq<char>,
}

impl View for Chunk {
    type V = ChunkModel;

    open spec fn view(&self) -> ChunkModel {
        ChunkModel {
            start: self.start,
            end: self.end,
            symbols: texts(self.symbols@),
            content: self.content@,
        }
    }
}

/// The value of a declared name.
pub struct NameModel {
    pub at: usize,
    pub name: Seq<char>,
}

impl View for Name {
    type V = NameModel;

    open spec fn view(&self) -> NameModel {
        NameModel { at: self.at, name: self.name@ }
    }
}

/// The values of a list of chunks.
pub open spec fn chunk_models(v: Seq<Chunk>) -> Seq<ChunkModel> {
    v.map_values(|c: Chunk| c@)
}

/// The values of a list of names.
pub open spec fn name_models(v: Seq<Name>) -> Seq<NameModel> {
    v.map_values(|n: Name| n@)
}

// ---------------------------------------------------------------------------
// Languages
// ---------------------------------------------------------------------------

/// A path without the slashes and the empty steps at its end.
pub open spec fn strip_tail(path: Seq<char>) -> Seq<char>
    decreases path.len(),
{
    if path.len() > 0 && path.last() == '/' {
        strip_tail(path.drop_last())
    } else if path.len() > 1 && path.last() == '.' && path[path.len() - 2] == '/' {
        strip_tail(path.drop_last())
    } else {
        path
    }
}

/// The last position of a character in a text.
pub open spec fn last_position(s: Seq<char>, c: char, to: int) -> Option<int>
    decreases to,
{
    if to <= 0 || to > s.len() {
        None
    } else if s[to - 1] == c {
        Some(to - 1)
    } else {
        last_position(s, c, to - 1)
    }
}

/// The last step of a path.
pub open spec fn last_step(path: Seq<char>) -> Seq<char> {
    match last_position(path, '/', path.len() as int) {
        Some(at) => path.skip(at + 1),
        None => path,
    }
}

/// What stands behind the last dot of a file name, unless the name begins with
/// it.
pub open spec fn extension(path: Seq<char>) -> Seq<char> {
    let name = last_step(strip_tail(path));
    match last_position(name, '.', name.len() as int) {
        Some(at) if at > 0 && name != seq!['.', '.'] => name.skip(at + 1),
        _ => Seq::empty(),
    }
}

/// The language of a file, by its extension.
pub open spec fn language_of(path: Seq<char>) -> Seq<char> {
    let ext = lowercase(extension(path));
    if ext == "rs"@ {
        "rust"@
    } else if ext == "js"@ || ext == "jsx"@ || ext == "mjs"@ || ext == "cjs"@ {
        "javascript"@
    } else if ext == "ts"@ {
        "typescript"@
    } else if ext == "tsx"@ {
        "tsx"@
    } else if ext == "py"@ {
        "python"@
    } else if ext == "java"@ {
        "java"@
    } else if ext == "go"@ {
        "go"@
    } else if ext == "c"@ || ext == "h"@ {
        "c"@
    } else if ext == "cpp"@ || ext == "cc"@ || ext == "cxx"@ || ext == "hpp"@ || ext == "hxx"@ {
        "cpp"@
    } else {
        "text"@
    }
}

/// The last position of a character among the first `to`.
fn find_last(chars: &Vec<char>, c: char, from: usize, to: usize) -> (r: Option<usize>)
    requires
        from <= to <= chars@.len(),
    ensures
        ({
            let s = chars@.subrange(from as int, to as int);
            match last_position(s, c, s.len() as int) {
                Some(at) => r is Some && r->0 == from + at,
                None => r is None,
            }
        }),
        r matches Some(at) ==> from <= at < to,
{
    let ghost s = chars@.subrange(from as int, to as int);
    let mut i: usize = to;
    while i > from
        invariant
            from <= i <= to <= chars@.len(),
            s == chars@.subrange(from as int, to as int),
            last_position(s, c, i - from) == last_position(s, c, s.len() as int),
        decreases i,
    {
        assert(s[i - from - 1] == chars@[i - 1]);
        if chars[i - 1] == c {
            return Some((i - 1) as usize);
        }
        i -= 1;
    }
    None
}

/// What stands behind the last dot of a file name.
fn find_extension(path: &str) -> (r: String)
    ensures
        r@ == extension(path@),
{
    let chars = to_chars(path);
    let mut end: usize = chars.len();
    assert(chars@.take(end as int) =~= path@);
    while end > 0 && (chars[end - 1] == '/' || (end > 1 && chars[end - 1] == '.' && chars[end - 2]
        == '/'))
        invariant
            end <= chars@.len(),
            chars@ == path@,
            strip_tail(chars@.take(end as int)) == strip_tail(path@),
        decreases end,
    {
        let ghost cur = chars@.take(end as int);
        assert(cur.last() == chars@[end - 1]);
        assert(cur.drop_last() =~= chars@.take(end - 1));
        end -= 1;
    }
    let ghost stripped = chars@.take(end as int);
    proof {
        if end > 0 {
            assert(stripped.last() == chars@[end - 1]);
        }
        assert(stripped == strip_tail(path@));
        assert(chars@.subrange(0, end as int) =~= stripped);
    }
    let start: usize = match find_last(&chars, '/', 0, end) {
        Some(at) => at + 1,
        None => 0,
    };
    let ghost name = chars@.subrange(start as int, end as int);
    proof {
        assert(name =~= last_step(stripped));
    }
    if end - start == 2 && chars[start] == '.' && chars[start + 1] == '.' {
        assert(name =~= seq!['.', '.']);
        return String::new();
    }
    assert(name != seq!['.', '.']) by {
        if name == seq!['.', '.'] {
            assert(name.len() == 2 && name[0] == '.' && name[1] == '.');
        }
    }
    match find_last(&chars, '.', start, end) {
        Some(at) => {
            if at > start {
                assert(chars@.subrange(at + 1, end as int) =~= name.skip(at - start + 1));
                slice(chars.as_slice(), at + 1, end)
            } else {
                String::new()
            }
        },
        None => String::new(),
    }
}

/// The language of a file, by its extension.
pub fn language(path: &str) -> (r: &'static str)
    ensures
        r@ == language_of(path@),
{
    let found = find_extension(path);
    let lower = to_lowercase(found.as_str());
    let ext = lower.as_str();
    if same(ext, "rs") {
        "rust"
    } else if same(ext, "js") || same(ext, "jsx") || same(ext, "mjs") || same(ext, "cjs") {
        "javascript"
    } else if same(ext, "ts") {
        "typescript"
    } else if same(ext, "tsx") {
        "tsx"
    } else if same(ext, "py") {
        "python"
    } else if same(ext, "java") {
        "java"
    } else if same(ext, "go") {
        "go"
    } else if same(ext, "c") || same(ext, "h") {
        "c"
    } else if same(ext, "cpp") || same(ext, "cc") || same(ext, "cxx") || same(ext, "hpp") || same(
        ext,
        "hxx",
    ) {
        "cpp"
    } else {
        "text"
    }
}

/// The grammar of a language.
pub open spec fn grammar_of(lang: Seq<char>) -> Option<Grammar> {
    if lang == "rust"@ {
        Some(Grammar::Rust)
    } else if lang == "javascript"@ {
        Some(Grammar::JavaScript)
    } else if lang == "typescript"@ {
        Some(Grammar::TypeScript)
    } else if lang == "tsx"@ {
        Some(Grammar::Tsx)
    } else if lang == "python"@ {
        Some(Grammar::Python)
    } else if lang == "java"@ {
        Some(Grammar::Java)
    } else if lang == "go"@ {
        Some(Grammar::Go)
    } else if lang == "c"@ {
        Some(Grammar::C)
    } else if lang == "cpp"@ {
        Some(Grammar::Cpp)
    } else {
        None
    }
}

/// The grammar of a language.
pub fn grammar(lang: &str) -> (r: Option<Grammar>)
    ensures
        r == grammar_of(lang@),
{
    if same(lang, "rust") {
        Some(Grammar::Rust)
    } else if same(lang, "javascript") {
        Some(Grammar::JavaScript)
    } else if same(lang, "typescript") {
        Some(Grammar::TypeScript)
    } else if same(lang, "tsx") {
        Some(Grammar::Tsx)
    } else if same(lang, "python") {
        Some(Grammar::Python)
    } else if same(lang, "java") {
        Some(Grammar::Java)
    } else if same(lang, "go") {
        Some(Grammar::Go)
    } else if same(lang, "c") {
        Some(Grammar::C)
    } else if same(lang, "cpp") {
        Some(Grammar::Cpp)
    } else {
        None
    }
}

// ---------------------------------------------------------------------------
// Chunks
// ---------------------------------------------------------------------------

/// The last boundary of characters at or below a byte position.
pub open spec fn floor_boundary(bytes: Seq<u8>, at: int) -> int
    decreases at,
{
    if at <= 0 || is_char_boundary(bytes, at) {
        at
    } else {
        floor_boundary(bytes, at - 1)
    }
}

/// The largest of the first `count` positions above `low` and up to `high`.
pub open spec fn largest_between(list: Seq<usize>, low: int, high: int, count: nat) -> Option<int>
    decreases count,
{
    if count == 0 {
        None
    } else {
        let before = largest_between(list, low, high, (count - 1) as nat);
        let here = list[count - 1] as int;
        if !(low < here <= high) {
            before
        } else {
            match before {
                Some(b) if b >= here => before,
                _ => Some(here),
            }
        }
    }
}

/// Behind the last line feed between two byte positions.
pub open spec fn behind_last_feed(bytes: Seq<u8>, from: int, to: int) -> Option<int>
    decreases to - from,
{
    if to <= from {
        None
    } else if bytes[to - 1] == 10 {
        Some(to)
    } else {
        behind_last_feed(bytes, from, to - 1)
    }
}

/// The furthest that a chunk may reach.
pub open spec fn reach(bytes: Seq<u8>, start: int) -> int {
    floor_boundary(
        bytes,
        if start + CHUNK_BYTES < bytes.len() {
            start + CHUNK_BYTES
        } else {
            bytes.len() as int
        },
    )
}

/// Where a chunk ends: at the last declaration that leaves it large enough, else
/// behind its last line, else as far as it may reach.
pub open spec fn chunk_end(bytes: Seq<u8>, boundaries: Seq<usize>, start: int) -> int {
    let max_end = reach(bytes, start);
    if max_end >= bytes.len() {
        max_end
    } else {
        match largest_between(
            boundaries,
            start + CHUNK_FLOOR_BYTES,
            max_end,
            boundaries.len(),
        ) {
            Some(b) => floor_boundary(bytes, b),
            None => match behind_last_feed(bytes, start, max_end) {
                Some(e) => floor_boundary(bytes, e),
                None => max_end,
            },
        }
    }
}

/// How many line feeds stand between two byte positions.
pub open spec fn feeds(bytes: Seq<u8>, from: int, to: int) -> nat
    decreases to - from,
{
    if to <= from {
        0
    } else {
        feeds(bytes, from, to - 1) + if bytes[to - 1] == 10 {
            1nat
        } else {
            0nat
        }
    }
}

/// The names whose declarations begin between two byte positions, among the
/// first `count`.
pub open spec fn names_between(
    names: Seq<NameModel>,
    from: int,
    to: int,
    count: nat,
) -> Seq<Seq<char>>
    decreases count,
{
    if count == 0 {
        Seq::empty()
    } else {
        let before = names_between(names, from, to, (count - 1) as nat);
        if from <= names[count - 1].at < to {
            before.push(names[count - 1].name)
        } else {
            before
        }
    }
}

/// The last line of a chunk that begins on a line: a line feed at its end does
/// not begin another one.
pub open spec fn end_line(bytes: Seq<u8>, start: int, end: int, line: nat) -> nat {
    let lines = line + feeds(bytes, start, end);
    if bytes[end - 1] == 10 && lines > line {
        (lines - 1) as nat
    } else {
        lines
    }
}

/// The chunks of a text from a byte position on, whose line is `line`.
pub open spec fn chunks_from(
    content: Seq<char>,
    boundaries: Seq<usize>,
    names: Seq<NameModel>,
    start: int,
    line: nat,
) -> Seq<ChunkModel>
    decreases blen(content) - start,
{
    let bytes = encode_utf8(content);
    let end = chunk_end(bytes, boundaries, start);
    if 0 <= start < end <= bytes.len() {
        seq![
            ChunkModel {
                start: line as u32,
                end: end_line(bytes, start, end, line) as u32,
                symbols: names_between(names, start, end, names.len()),
                content: slice_or_empty(content, start, end),
            },
        ] + chunks_from(content, boundaries, names, end, line + feeds(bytes, start, end))
    } else {
        Seq::empty()
    }
}

/// The contents of the first `count` chunks, end to end.
pub open spec fn contents(chunks: Seq<ChunkModel>, count: nat) -> Seq<char>
    decreases count,
{
    if count == 0 {
        Seq::empty()
    } else {
        contents(chunks, (count - 1) as nat) + chunks[count - 1].content
    }
}

/// A boundary is found within three bytes.
pub proof fn lemma_floor_boundary(content: Seq<char>, at: int)
    requires
        0 <= at <= blen(content),
    ensures
        ({
            let bytes = encode_utf8(content);
            let f = floor_boundary(bytes, at);
            &&& 0 <= f <= at
            &&& is_char_boundary(bytes, f)
            &&& at - f <= 3
        }),
{
    let bytes = encode_utf8(content);
    encode_utf8_valid_utf8(content);
    is_char_boundary_start_end_of_seq(bytes);
    lemma_near_boundary(content, at);
    reveal_with_fuel(floor_boundary, 4);
}

/// One of four neighbouring positions is a boundary.
proof fn lemma_near_boundary(content: Seq<char>, at: int)
    requires
        0 <= at <= blen(content),
    ensures
        ({
            let bytes = encode_utf8(content);
            exists|b: int|
                0 <= b && at - 3 <= b <= at && #[trigger] is_char_boundary(bytes, b)
        }),
    decreases content.len(),
{
    let bytes = encode_utf8(content);
    encode_utf8_valid_utf8(content);
    is_char_boundary_start_end_of_seq(bytes);
    if at == 0 {
        assert(is_char_boundary(bytes, 0));
    } else if at == bytes.len() {
        assert(is_char_boundary(bytes, at));
    } else {
        let t = content.drop_last();
        let c = content.last();
        assert(t.push(c) =~= content);
        lemma_blen_push(t, c);
        let head = encode_utf8(t);
        encode_utf8_valid_utf8(t);
        is_char_boundary_start_end_of_seq(head);
        if at <= head.len() {
            lemma_near_boundary(t, at);
            let b = choose|b: int|
                0 <= b && at - 3 <= b <= at && #[trigger] is_char_boundary(head, b);
            lemma_boundary_of_prefix(t, c, b);
            assert(is_char_boundary(bytes, b));
        } else {
            lemma_boundary_of_prefix(t, c, head.len() as int);
            assert(is_char_boundary(bytes, head.len() as int));
        }
    }
}

/// A boundary of a beginning of a text is a boundary of the text.
proof fn lemma_boundary_of_prefix(t: Seq<char>, c: char, b: int)
    requires
        0 <= b <= blen(t),
        is_char_boundary(encode_utf8(t), b),
    ensures
        is_char_boundary(encode_utf8(t.push(c)), b),
{
    let head = encode_utf8(t);
    let bytes = encode_utf8(t.push(c));
    lemma_blen_push(t, c);
    encode_utf8_valid_utf8(t);
    encode_utf8_valid_utf8(t.push(c));
    assert(bytes == head + vstd::utf8::encode_scalar(c as u32));
    if b < head.len() {
        is_char_boundary_iff_not_is_continuation_byte(head, b);
        is_char_boundary_iff_not_is_continuation_byte(bytes, b);
        assert(bytes[b] == head[b]);
    } else {
        is_char_boundary_iff_not_is_continuation_byte(bytes, b);
        let one = seq![c];
        lemma_blen_one(c);
        let tail = encode_utf8(one);
        encode_utf8_valid_utf8(one);
        is_char_boundary_start_end_of_seq(tail);
        is_char_boundary_iff_not_is_continuation_byte(tail, 0);
        assert(bytes[b] == tail[0]);
    }
}

proof fn lemma_largest_between(list: Seq<usize>, low: int, high: int, count: nat)
    requires
        count <= list.len(),
    ensures
        largest_between(list, low, high, count) matches Some(b) ==> low < b <= high,
    decreases count,
{
    if count > 0 {
        lemma_largest_between(list, low, high, (count - 1) as nat);
    }
}

proof fn lemma_behind_last_feed(bytes: Seq<u8>, from: int, to: int)
    requires
        0 <= from <= to <= bytes.len(),
    ensures
        behind_last_feed(bytes, from, to) matches Some(e) ==> from < e <= to && bytes[e - 1] == 10,
    decreases to - from,
{
    if from < to && bytes[to - 1] != 10 {
        lemma_behind_last_feed(bytes, from, to - 1);
    }
}

/// A chunk ends at a boundary behind its beginning, and within its limit.
pub proof fn lemma_chunk_end(content: Seq<char>, boundaries: Seq<usize>, start: int)
    requires
        0 <= start < blen(content),
        is_char_boundary(encode_utf8(content), start),
    ensures
        ({
            let bytes = encode_utf8(content);
            let end = chunk_end(bytes, boundaries, start);
            &&& start < end <= bytes.len()
            &&& end - start <= CHUNK_BYTES
            &&& is_char_boundary(bytes, end)
        }),
{
    let bytes = encode_utf8(content);
    let wanted = if start + CHUNK_BYTES < bytes.len() {
        start + CHUNK_BYTES
    } else {
        bytes.len() as int
    };
    lemma_floor_boundary(content, wanted);
    encode_utf8_valid_utf8(content);
    is_char_boundary_start_end_of_seq(bytes);
    let max_end = reach(bytes, start);
    assert(max_end > start) by {
        if wanted == bytes.len() {
            assert(floor_boundary(bytes, wanted) == wanted);
        }
    }
    if max_end < bytes.len() {
        lemma_largest_between(
            boundaries,
            start + CHUNK_FLOOR_BYTES,
            max_end,
            boundaries.len(),
        );
        lemma_behind_last_feed(bytes, start, max_end);
        match largest_between(
            boundaries,
            start + CHUNK_FLOOR_BYTES,
            max_end,
            boundaries.len(),
        ) {
            Some(b) => {
                lemma_floor_boundary(content, b);
            },
            None => {
                match behind_last_feed(bytes, start, max_end) {
                    Some(e) => {
                        lemma_floor_boundary(content, e);
                        if e < bytes.len() {
                            lemma_behind_ascii(content, e);
                        }
                        assert(floor_boundary(bytes, e) == e);
                    },
                    None => {},
                }
            },
        }
    }
}

/// A boundary of characters follows an ASCII byte.
pub proof fn lemma_behind_ascii(content: Seq<char>, e: int)
    requires
        0 < e < blen(content),
        encode_utf8(content)[e - 1] == 10,
    ensures
        is_char_boundary(encode_utf8(content), e),
{
    let bytes = encode_utf8(content);
    encode_utf8_valid_utf8(content);
    lemma_ascii_stands_alone(bytes, e - 1);
}

/// Behind an ASCII byte of valid UTF-8 a character begins.
proof fn lemma_ascii_stands_alone(bytes: Seq<u8>, at: int)
    requires
        vstd::utf8::valid_utf8(bytes),
        0 <= at < bytes.len() - 1,
        bytes[at] < 0x80,
    ensures
        is_char_boundary(bytes, at + 1),
    decreases bytes.len(),
{
    let n = vstd::utf8::length_of_first_scalar(bytes);
    let rest = vstd::utf8::pop_first_scalar(bytes);
    if at < n {
        assert(at == 0 && n == 1);
        assert(is_char_boundary(rest, 0)) by {
            is_char_boundary_start_end_of_seq(rest);
        }
    } else {
        assert(rest[at - n] == bytes[at]);
        lemma_ascii_stands_alone(rest, at - n);
    }
}

/// The text between boundaries has the bytes between them.
pub proof fn lemma_slice_bytes(content: Seq<char>, from: int, to: int)
    requires
        0 <= from <= to <= blen(content),
        is_char_boundary(encode_utf8(content), from),
        is_char_boundary(encode_utf8(content), to),
    ensures
        encode_utf8(slice_or_empty(content, from, to)) == encode_utf8(content).subrange(from, to),
{
    let bytes = encode_utf8(content);
    encode_utf8_valid_utf8(content);
    let front = bytes.subrange(0, to);
    vstd::utf8::valid_utf8_split(bytes, to);
    if from == to {
        is_char_boundary_start_end_of_seq(front);
    } else {
        is_char_boundary_iff_not_is_continuation_byte(bytes, from);
        is_char_boundary_iff_not_is_continuation_byte(front, from);
    }
    vstd::utf8::valid_utf8_split(front, from);
    assert(front.subrange(from, front.len() as int) =~= bytes.subrange(from, to));
    vstd::utf8::decode_utf8_encode_utf8(bytes.subrange(from, to));
}

/// Chunks from a boundary on hold the rest of the text, each within its limit.
proof fn lemma_chunks(
    content: Seq<char>,
    boundaries: Seq<usize>,
    names: Seq<NameModel>,
    start: int,
    line: nat,
)
    requires
        0 <= start <= blen(content),
        is_char_boundary(encode_utf8(content), start),
    ensures
        ({
            let chunks = chunks_from(content, boundaries, names, start, line);
            &&& encode_utf8(contents(chunks, chunks.len())) == encode_utf8(content).skip(start)
            &&& forall|k: int|
                0 <= k < chunks.len() ==> 0 < blen((#[trigger] chunks[k]).content) <= CHUNK_BYTES
        }),
    decreases blen(content) - start,
{
    let bytes = encode_utf8(content);
    let chunks = chunks_from(content, boundaries, names, start, line);
    if start < bytes.len() {
        lemma_chunk_end(content, boundaries, start);
        let end = chunk_end(bytes, boundaries, start);
        let next = line + feeds(bytes, start, end);
        lemma_chunks(content, boundaries, names, end, next);
        let rest = chunks_from(content, boundaries, names, end, next);
        lemma_slice_bytes(content, start, end);
        let first = chunks[0];
        assert(chunks =~= seq![first] + rest);
        lemma_contents_head(first, rest, rest.len());
        lemma_blen_concat(first.content, contents(rest, rest.len()));
        assert(bytes.skip(start) =~= bytes.subrange(start, end) + bytes.skip(end));
        assert forall|k: int| 0 <= k < chunks.len() implies 0 < blen(
            (#[trigger] chunks[k]).content,
        ) <= CHUNK_BYTES by {
            if k > 0 {
                assert(chunks[k] == rest[k - 1]);
            }
        }
    } else {
        assert(contents(chunks, 0) =~= Seq::empty());
        assert(encode_utf8(Seq::<char>::empty()) =~= Seq::<u8>::empty());
        assert(bytes.skip(start) =~= Seq::<u8>::empty());
    }
}

proof fn lemma_contents_head(first: ChunkModel, rest: Seq<ChunkModel>, count: nat)
    requires
        count <= rest.len(),
    ensures
        contents(seq![first] + rest, count + 1) == first.content + contents(rest, count),
    decreases count,
{
    let all = seq![first] + rest;
    if count == 0 {
        assert(contents(all, 0) =~= Seq::empty());
        assert(contents(all, 1) =~= first.content);
        assert(first.content + contents(rest, 0) =~= first.content);
    } else {
        lemma_contents_head(first, rest, (count - 1) as nat);
        assert(all[count as int] == rest[count - 1]);
        assert(contents(all, count + 1) =~= first.content + contents(rest, count));
    }
}

/// Cutting a text into chunks loses nothing: end to end the chunks are the text,
/// none is empty and none exceeds its limit.
pub proof fn chunks_are_lossless(content: Seq<char>, boundaries: Seq<usize>, names: Seq<NameModel>)
    ensures
        ({
            let chunks = chunks_from(content, boundaries, names, 0, 1);
            &&& contents(chunks, chunks.len()) == content
            &&& forall|k: int|
                0 <= k < chunks.len() ==> 0 < blen((#[trigger] chunks[k]).content) <= CHUNK_BYTES
        }),
{
    let bytes = encode_utf8(content);
    encode_utf8_valid_utf8(content);
    is_char_boundary_start_end_of_seq(bytes);
    lemma_chunks(content, boundaries, names, 0, 1);
    let chunks = chunks_from(content, boundaries, names, 0, 1);
    assert(bytes.skip(0) =~= bytes);
    lemma_same_bytes(contents(chunks, chunks.len()), content);
}

/// Line feeds add up.
pub proof fn lemma_feeds_split(bytes: Seq<u8>, from: int, mid: int, to: int)
    requires
        from <= mid <= to,
    ensures
        feeds(bytes, from, to) == feeds(bytes, from, mid) + feeds(bytes, mid, to),
    decreases to - mid,
{
    if mid < to {
        lemma_feeds_split(bytes, from, mid, to - 1);
    }
}

pub proof fn lemma_feeds(bytes: Seq<u8>, from: int, to: int)
    requires
        0 <= from <= to <= bytes.len(),
    ensures
        feeds(bytes, from, to) <= to - from,
        from < to && bytes[to - 1] == 10 ==> feeds(bytes, from, to) >= 1,
    decreases to - from,
{
    if from < to {
        lemma_feeds(bytes, from, to - 1);
    }
}

/// The last boundary of characters at or below a byte position.
pub fn find_floor(content: &str, at: usize) -> (r: usize)
    requires
        at <= blen(content@),
    ensures
        r == floor_boundary(encode_utf8(content@), at as int),
        r <= at,
{
    let ghost bytes = encode_utf8(content@);
    let mut i: usize = at;
    while i > 0 && !content.is_char_boundary(i)
        invariant
            i <= at,
            bytes == encode_utf8(content@),
            floor_boundary(bytes, i as int) == floor_boundary(bytes, at as int),
        decreases i,
    {
        i -= 1;
    }
    i
}

/// Where a chunk ends.
fn find_chunk_end(content: &str, boundaries: &Vec<usize>, start: usize) -> (r: usize)
    requires
        start < blen(content@),
        is_char_boundary(encode_utf8(content@), start as int),
    ensures
        r == chunk_end(encode_utf8(content@), boundaries@, start as int),
        start < r <= blen(content@),
{
    let bytes = content.as_bytes();
    let n: usize = bytes.len();
    let ghost bs = encode_utf8(content@);
    proof {
        lemma_chunk_end(content@, boundaries@, start as int);
    }
    let wanted: usize = if n - start > CHUNK_BYTES {
        start + CHUNK_BYTES
    } else {
        n
    };
    let max_end = find_floor(content, wanted);
    if max_end >= n {
        return max_end;
    }
    assert(wanted < n) by {
        encode_utf8_valid_utf8(content@);
        is_char_boundary_start_end_of_seq(bs);
    }
    let low: usize = start + CHUNK_FLOOR_BYTES;
    let mut best: Option<usize> = None;
    let mut i: usize = 0;
    while i < boundaries.len()
        invariant
            i <= boundaries@.len(),
            match largest_between(boundaries@, low as int, max_end as int, i as nat) {
                Some(b) => best is Some && best->0 == b,
                None => best is None,
            },
        decreases boundaries@.len() - i,
    {
        let b: usize = boundaries[i];
        if low < b && b <= max_end {
            match best {
                Some(x) if x >= b => {},
                _ => {
                    best = Some(b);
                },
            }
        }
        i += 1;
    }
    proof {
        lemma_largest_between(boundaries@, low as int, max_end as int, boundaries@.len());
    }
    if let Some(b) = best {
        return find_floor(content, b);
    }
    let mut e: usize = max_end;
    while e > start
        invariant
            start <= e <= max_end < n,
            n == bytes@.len(),
            bytes@ == bs,
            behind_last_feed(bs, start as int, e as int) == behind_last_feed(
                bs,
                start as int,
                max_end as int,
            ),
            bs == encode_utf8(content@),
            largest_between(boundaries@, low as int, max_end as int, boundaries@.len()) is None,
            max_end == reach(bs, start as int),
            low == start + CHUNK_FLOOR_BYTES,
            start < chunk_end(bs, boundaries@, start as int) <= bs.len(),
        decreases e,
    {
        if bytes[e - 1] == 10 {
            return find_floor(content, e);
        }
        e -= 1;
    }
    max_end
}

/// How many line feeds stand between two byte positions.
pub fn count_feeds(bytes: &[u8], from: usize, to: usize) -> (r: usize)
    requires
        from <= to <= bytes@.len(),
    ensures
        r == feeds(bytes@, from as int, to as int),
        r <= to - from,
{
    let mut count: usize = 0;
    let mut i: usize = from;
    while i < to
        invariant
            from <= i <= to <= bytes@.len(),
            count == feeds(bytes@, from as int, i as int),
            count <= i - from,
        decreases to - i,
    {
        if bytes[i] == 10 {
            count += 1;
        }
        i += 1;
    }
    count
}

/// The names whose declarations begin between two byte positions.
fn list_names(names: &Vec<Name>, from: usize, to: usize) -> (r: Vec<String>)
    ensures
        texts(r@) == names_between(name_models(names@), from as int, to as int, names@.len()),
{
    let ghost ns = name_models(names@);
    let mut r: Vec<String> = Vec::new();
    let mut i: usize = 0;
    assert(texts(r@) =~= Seq::empty());
    while i < names.len()
        invariant
            i <= names@.len(),
            ns == name_models(names@),
            texts(r@) == names_between(ns, from as int, to as int, i as nat),
        decreases names@.len() - i,
    {
        assert(ns[i as int] == names@[i as int]@);
        if from <= names[i].at && names[i].at < to {
            let n = names[i].name.clone();
            assert(texts(r@.push(n)) =~= texts(r@).push(n@));
            r.push(n);
        }
        i += 1;
    }
    r
}

/// Cuts a text into chunks at declarations and lines, so that each fits its
/// limit and nothing is lost. Lines are numbered in 32 bits.
pub fn chunk_text(content: &str, boundaries: &Vec<usize>, names: &Vec<Name>) -> (r: Vec<Chunk>)
    requires
        feeds(encode_utf8(content@), 0, blen(content@) as int) < u32::MAX,
    ensures
        chunk_models(r@) == chunks_from(content@, boundaries@, name_models(names@), 0, 1),
{
    let bytes = content.as_bytes();
    let n: usize = bytes.len();
    let ghost bs = encode_utf8(content@);
    let ghost ns = name_models(names@);
    let ghost goal = chunks_from(content@, boundaries@, ns, 0, 1);
    let mut r: Vec<Chunk> = Vec::new();
    let mut start: usize = 0;
    let mut line: usize = 1;
    proof {
        encode_utf8_valid_utf8(content@);
        is_char_boundary_start_end_of_seq(bs);
        assert(chunk_models(r@) + goal =~= goal);
    }
    while start < n
        invariant
            start <= n == bytes@.len(),
            feeds(bs, 0, n as int) < u32::MAX,
            bytes@ == bs,
            bs == encode_utf8(content@),
            ns == name_models(names@),
            is_char_boundary(bs, start as int),
            line == 1 + feeds(bs, 0, start as int),
            chunk_models(r@) + chunks_from(content@, boundaries@, ns, start as int, line as nat)
                == goal,
        decreases n - start,
    {
        let end = find_chunk_end(content, boundaries, start);
        proof {
            lemma_chunk_end(content@, boundaries@, start as int);
            lemma_feeds(bs, start as int, end as int);
            lemma_feeds_split(bs, 0, start as int, end as int);
            lemma_feeds_split(bs, 0, end as int, n as int);
        }
        let lines = count_feeds(bytes, start, end);
        let last: usize = if bytes[end - 1] == 10 && lines > 0 {
            line + lines - 1
        } else {
            line + lines
        };
        let part = match get_bytes(content, start, end) {
            Some(part) => String::from_str(part),
            None => String::new(),
        };
        let chunk = Chunk {
            start: line as u32,
            end: last as u32,
            symbols: list_names(names, start, end),
            content: part,
        };
        proof {
            let rest = chunks_from(
                content@,
                boundaries@,
                ns,
                end as int,
                (line + lines) as nat,
            );
            assert(last == end_line(bs, start as int, end as int, line as nat));
            assert(chunk_models(r@.push(chunk)) =~= chunk_models(r@).push(chunk@));
            assert(chunk_models(r@.push(chunk)) + rest =~= chunk_models(r@) + (seq![chunk@] + rest));
        }
        r.push(chunk);
        line += lines;
        start = end;
    }
    assert(chunk_models(r@) + chunks_from(content@, boundaries@, ns, start as int, line as nat)
        =~= chunk_models(r@)) by {
        assert(chunks_from(content@, boundaries@, ns, start as int, line as nat) =~= Seq::empty());
    }
    r
}

// ---------------------------------------------------------------------------
// Files
// ---------------------------------------------------------------------------

/// A chunk may end where a node of this kind begins.
pub open spec fn opens_chunk(kind: Seq<char>) -> bool {
    contains(kind, "function"@) || contains(kind, "class"@) || contains(kind, "method"@) || kind
        == "struct_item"@ || kind == "impl_item"@
}

/// A node of this kind is listed as a relation.
pub open spec fn is_relation(kind: Seq<char>) -> bool {
    contains(kind, "import"@) || kind == "use_declaration"@ || kind == "call_expression"@ || kind
        == "method_invocation"@
}

/// At most `count` characters of a text.
pub open spec fn cut_to(s: Seq<char>, count: int) -> Seq<char> {
    if s.len() <= count {
        s
    } else {
        s.take(count)
    }
}

/// The text of a node, where its bytes are whole characters.
pub open spec fn whole_text(nodes: Seq<NodeModel>, i: int, source: Seq<char>) -> Option<Seq<char>> {
    byte_slice(source, nodes[i].start_byte as int, nodes[i].end_byte as int)
}

/// Where chunks may end: at the beginning, and where some of the first `count`
/// nodes begin.
pub open spec fn boundaries_of(nodes: Seq<NodeModel>, count: nat) -> Seq<usize>
    decreases count,
{
    if count == 0 {
        seq![0usize]
    } else {
        let before = boundaries_of(nodes, (count - 1) as nat);
        if opens_chunk(nodes[count - 1].kind) {
            before.push(nodes[count - 1].start_byte)
        } else {
            before
        }
    }
}

/// The name of a node that may open a chunk.
pub open spec fn opened_name(nodes: Seq<NodeModel>, i: int, source: Seq<char>) -> Option<Seq<char>> {
    if !opens_chunk(nodes[i].kind) {
        None
    } else {
        match child(nodes, i, "name"@) {
            Some(c) => match whole_text(nodes, c, source) {
                Some(name) => Some(cut_to(name, 200)),
                None => None,
            },
            None => None,
        }
    }
}

/// The names that the first `count` nodes declare.
pub open spec fn names_of(nodes: Seq<NodeModel>, source: Seq<char>, count: nat) -> Seq<NameModel>
    decreases count,
{
    if count == 0 {
        Seq::empty()
    } else {
        let before = names_of(nodes, source, (count - 1) as nat);
        match opened_name(nodes, count - 1, source) {
            Some(name) => before.push(NameModel { at: nodes[count - 1].start_byte, name }),
            None => before,
        }
    }
}

/// A relation as it is listed: its line, its kind and the beginning of its
/// text.
pub open spec fn relation_line(n: NodeModel, text: Seq<char>) -> Seq<char> {
    decimal((n.start_row + 1) as nat) + ":"@ + n.kind + ":"@ + cut_to(text, 180)
}

/// The relations that the first `count` nodes state, up to a limit.
pub open spec fn relations_of(nodes: Seq<NodeModel>, source: Seq<char>, count: nat) -> Seq<Seq<char>>
    decreases count,
{
    if count == 0 {
        Seq::empty()
    } else {
        let before = relations_of(nodes, source, (count - 1) as nat);
        if before.len() < MAX_RELATIONS && is_relation(nodes[count - 1].kind) {
            match whole_text(nodes, count - 1, source) {
                Some(text) => before.push(relation_line(nodes[count - 1], text)),
                None => before,
            }
        } else {
            before
        }
    }
}

/// Why a source is not parsed.
#[derive(Clone, Copy, Debug, PartialEq, Eq, Structural)]
pub enum ParseFault {
    /// It is larger than what is parsed at all.
    TooLarge,
    /// The parser returned no tree.
    NoTree,
}

/// The most bytes of a source that is parsed.
pub const MAX_SOURCE_BYTES: usize = 104_857_600;

/// At most `count` characters of a text.
fn cut_chars(s: &str, count: usize) -> (r: String)
    ensures
        r@ == cut_to(s@, count as int),
{
    let chars = to_chars(s);
    if chars.len() <= count {
        String::from_str(s)
    } else {
        let r = slice(chars.as_slice(), 0, count);
        assert(r@ =~= s@.take(count as int));
        r
    }
}

/// Whether a chunk may end where a node of this kind begins.
fn may_open(kind: &str) -> (r: bool)
    ensures
        r == opens_chunk(kind@),
{
    has(kind, "function") || has(kind, "class") || has(kind, "method") || same(kind, "struct_item")
        || same(kind, "impl_item")
}

/// Whether a node of this kind is listed as a relation.
fn is_listed(kind: &str) -> (r: bool)
    ensures
        r == is_relation(kind@),
{
    has(kind, "import") || same(kind, "use_declaration") || same(kind, "call_expression") || same(
        kind,
        "method_invocation",
    )
}

/// What parsing a source yields. A language without a grammar has chunks only.
pub open spec fn is_parsed(content: Seq<char>, lang: Seq<char>, p: Parsed) -> bool {
    match grammar_of(lang) {
        Some(g) => {
            let tree = syntax_tree(g, content)->0;
            let n = tree.nodes.len();
            &&& p.language@ == lang
            &&& p.has_errors == tree.has_error
            &&& chunk_models(p.chunks@) == chunks_from(
                content,
                boundaries_of(tree.nodes, n),
                names_of(tree.nodes, content, n),
                0,
                1,
            )
            &&& texts(p.relations@) == relations_of(tree.nodes, content, n)
            &&& p.graph@ == graph_of(tree, content)
        },
        None => {
            &&& p.language@ == lang
            &&& !p.has_errors
            &&& chunk_models(p.chunks@) == chunks_from(content, seq![0usize], Seq::empty(), 0, 1)
            &&& p.relations@.len() == 0
            &&& p.graph@.symbols.len() == 0
            &&& p.graph@.edges.len() == 0
            &&& !p.graph.parse_errors
            &&& !p.graph.supported
        },
    }
}

/// A parse of a source yields a tree, where its language has a grammar.
pub open spec fn has_tree(content: Seq<char>, lang: Seq<char>) -> bool {
    match grammar_of(lang) {
        Some(g) => match syntax_tree(g, content) {
            Some(tree) => 0 < tree.nodes.len() < usize::MAX && forall|i: int|
                0 <= i < tree.nodes.len() ==> (#[trigger] tree.nodes[i]).start_row < usize::MAX,
            None => false,
        },
        None => true,
    }
}

/// Whether the rows of all nodes can be counted from one.
fn rows_countable(nodes: &Vec<SyntaxNode>) -> (r: bool)
    ensures
        r == forall|i: int|
            0 <= i < nodes@.len() ==> (#[trigger] node_models(nodes@)[i]).start_row < usize::MAX,
{
    let mut i: usize = 0;
    while i < nodes.len()
        invariant
            i <= nodes@.len(),
            forall|k: int|
                0 <= k < i ==> (#[trigger] node_models(nodes@)[k]).start_row < usize::MAX,
        decreases nodes@.len() - i,
    {
        if nodes[i].start_row == usize::MAX {
            assert(node_models(nodes@)[i as int].start_row == usize::MAX);
            return false;
        }
        i += 1;
    }
    true
}

/// Parses a source in a language: its chunks, its relations and its graph.
pub fn parse_source(content: &str, lang: &str) -> (r: Result<Parsed, ParseFault>)
    ensures
        if blen(content@) > MAX_SOURCE_BYTES {
            r == Err::<Parsed, ParseFault>(ParseFault::TooLarge)
        } else if !has_tree(content@, lang@) {
            r == Err::<Parsed, ParseFault>(ParseFault::NoTree)
        } else {
            r is Ok && is_parsed(content@, lang@, r->Ok_0)
        },
        r matches Ok(p) ==> grounded(p.graph@),
{
    if content.as_bytes().len() > MAX_SOURCE_BYTES {
        return Err(ParseFault::TooLarge);
    }
    proof {
        lemma_feeds(encode_utf8(content@), 0, blen(content@) as int);
    }
    let mut boundaries: Vec<usize> = Vec::new();
    boundaries.push(0);
    let mut names: Vec<Name> = Vec::new();
    let mut relations: Vec<String> = Vec::new();
    assert(boundaries@ =~= seq![0usize]);
    assert(name_models(names@) =~= Seq::empty());
    assert(texts(relations@) =~= Seq::empty());
    let chosen = match grammar(lang) {
        Some(chosen) => chosen,
        None => {
            let chunks = chunk_text(content, &boundaries, &names);
            return Ok(
                Parsed {
                    language: String::from_str(lang),
                    has_errors: false,
                    chunks,
                    relations,
                    graph: CodeGraph::unsupported(),
                },
            );
        },
    };
    let tree = match parse_tree(chosen, content) {
        Some(tree) => tree,
        None => {
            return Err(ParseFault::NoTree);
        },
    };
    let nodes = &tree.nodes;
    let count: usize = nodes.len();
    let ghost ms = node_models(nodes@);
    assert(ms.len() == count);
    if count == 0 || count == usize::MAX || !rows_countable(nodes) {
        return Err(ParseFault::NoTree);
    }
    let mut i: usize = 0;
    while i < count
        invariant
            i <= count == nodes@.len(),
            ms == node_models(nodes@),
            forall|k: int| 0 <= k < ms.len() ==> (#[trigger] ms[k]).start_row < usize::MAX,
            boundaries@ == boundaries_of(ms, i as nat),
            name_models(names@) == names_of(ms, content@, i as nat),
            texts(relations@) == relations_of(ms, content@, i as nat),
        decreases count - i,
    {
        let node = &nodes[i];
        let kind = node.kind.as_str();
        assert(ms[i as int] == node@);
        if may_open(kind) {
            boundaries.push(node.start_byte);
            if let Some(c) = find_child(nodes, i, "name") {
                assert(ms[c as int] == nodes@[c as int]@);
                if let Some(text) = get_bytes(content, nodes[c].start_byte, nodes[c].end_byte) {
                    let name = Name { at: node.start_byte, name: cut_chars(text, 200) };
                    assert(name_models(names@.push(name)) =~= name_models(names@).push(name@));
                    names.push(name);
                }
            }
        }
        assert(texts(relations@).len() == relations@.len());
        if relations.len() < MAX_RELATIONS && is_listed(kind) {
            if let Some(text) = get_bytes(content, node.start_byte, node.end_byte) {
                let mut line = number(node.start_row as u64 + 1);
                line.push_str(":");
                line.push_str(kind);
                line.push_str(":");
                line.push_str(cut_chars(text, 180).as_str());
                assert(texts(relations@.push(line)) =~= texts(relations@).push(line@));
                relations.push(line);
            }
        }
        i += 1;
    }
    let graph = extract(&tree, content);
    let chunks = chunk_text(content, &boundaries, &names);
    Ok(
        Parsed {
            language: String::from_str(lang),
            has_errors: tree.has_error,
            chunks,
            relations,
            graph,
        },
    )
}

} // verus!
