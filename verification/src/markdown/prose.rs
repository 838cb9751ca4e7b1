//! The prose of sections in blocks that can be compared.

use vstd::prelude::*;
use vstd::string::StringExecFns;

use super::lines::{line_models, lines_in, split_lines, strip_ending, LineModel};
use crate::code_blocks::{code, code_lies_inside, extents, find_code, inside, Extent};
use crate::editorial::bare_line;
use crate::model::Section;
use crate::order::{ascending, first_occurrences, lemma_ordered, order_ascending, ordered};
use crate::text::{
    alphanumeric, find_from, first_at, has_prefix, is_alphanumeric, is_space, join, join_with, lemma_first_at,
    list_has, lower_char, matches_at, occurs_at, slice, space, split_words, starts_with, texts, to_chars,
    to_lower_char, trim, trim_bounds, trim_start, trimmed, words,
};

verus! {

// ---------------------------------------------------------------------------
// Prose
// ---------------------------------------------------------------------------

/// Stretches of text in the order of their beginnings.
pub open spec fn by_beginning(ranges: Seq<Extent>, starts: Seq<usize>) -> Seq<Extent> {
    ordered(ranges.len(), ascending(starts)).map_values(|i: usize| ranges[i as int])
}

/// The beginnings of stretches of text.
pub open spec fn beginnings(ranges: Seq<Extent>) -> Seq<usize> {
    ranges.map_values(|r: Extent| r.0 as usize)
}

/// The prose before the end of the first `count` stretches of code, and where it
/// goes on. An empty line stands for code.
pub open spec fn prose_before(s: Seq<char>, ranges: Seq<Extent>, count: nat) -> (Seq<char>, int)
    decreases count,
{
    if count == 0 {
        (Seq::empty(), 0)
    } else {
        let (so_far, cursor) = prose_before(s, ranges, (count - 1) as nat);
        let r = ranges[count - 1];
        if r.0 >= cursor {
            (so_far + s.subrange(cursor, r.0) + "\n\n"@, r.1)
        } else {
            (so_far, cursor)
        }
    }
}

/// The prose of a text.
pub open spec fn prose_in(s: Seq<char>) -> Seq<char> {
    let ranges = by_beginning(code(s), beginnings(code(s)));
    let (so_far, cursor) = prose_before(s, ranges, ranges.len());
    so_far + s.skip(cursor)
}

/// A text at every `part` from position `from` on.
pub open spec fn split_by(s: Seq<char>, part: Seq<char>, from: int) -> Seq<Seq<char>>
    decreases s.len() - from,
{
    match first_at(s, part, from) {
        Some(at) if 0 <= from <= at && part.len() > 0 && at + part.len() <= s.len() => seq![
            s.subrange(from, at),
        ] + split_by(s, part, at + part.len()),
        _ => seq![s.skip(from)],
    }
}

/// A line without its ending, where it has one.
pub open spec fn ended(raw: Seq<char>) -> Seq<char> {
    if raw.len() > 0 && raw.last() == '\n' {
        bare_line(raw)
    } else {
        raw
    }
}

/// The first `count` lines that are no headings.
pub open spec fn no_headings(lines: Seq<LineModel>, count: nat) -> Seq<Seq<char>>
    decreases count,
{
    if count == 0 {
        Seq::empty()
    } else {
        let so_far = no_headings(lines, (count - 1) as nat);
        let line = ended(lines[count - 1].text);
        if starts_with(trim_start(line), "#"@) {
            so_far
        } else {
            so_far.push(line)
        }
    }
}

/// Where the run of characters that an id may hold ends.
pub open spec fn id_end(s: Seq<char>, from: int) -> int
    decreases s.len() - from,
{
    if 0 <= from < s.len() && s[from] != ']' && !is_space(s[from]) {
        id_end(s, from + 1)
    } else {
        from
    }
}

/// Where a citation of one id that starts at `at` ends.
pub open spec fn plain_citation_end(s: Seq<char>, at: int) -> Option<int> {
    let end = id_end(s, at + 3);
    if occurs_at(s, "[E:"@, at) && at + 3 < end < s.len() && s[end] == ']' {
        Some(end + 1)
    } else {
        None
    }
}

/// A text from position `from` on with a space for every citation.
pub open spec fn without_marks(s: Seq<char>, from: int) -> Seq<char>
    decreases s.len() - from,
{
    if from < 0 || from >= s.len() {
        Seq::empty()
    } else {
        match plain_citation_end(s, from) {
            Some(end) if from < end <= s.len() => " "@ + without_marks(s, end),
            _ => seq![s[from]] + without_marks(s, from + 1),
        }
    }
}

/// The first `count` characters in lower case.
pub open spec fn lowered(s: Seq<char>, count: nat) -> Seq<char>
    decreases count,
{
    if count == 0 {
        Seq::empty()
    } else {
        lowered(s, (count - 1) as nat) + lower_char(s[count - 1])
    }
}

/// The letters and numbers among the first `count` characters, with one space
/// for whatever stands between them, and whether a space would be one too many.
pub open spec fn spaced(s: Seq<char>, count: nat) -> (Seq<char>, bool)
    decreases count,
{
    if count == 0 {
        (Seq::empty(), true)
    } else {
        let (so_far, free) = spaced(s, (count - 1) as nat);
        let c = s[count - 1];
        if alphanumeric(c) {
            (so_far.push(c), false)
        } else if !free {
            (so_far.push(' '), true)
        } else {
            (so_far, free)
        }
    }
}

/// The words of a text, in lower case and with single spaces.
pub open spec fn normal_form(s: Seq<char>) -> Seq<char> {
    let low = lowered(s, s.len());
    trim(spaced(low, low.len()).0)
}

/// The pairs of neighboring words.
pub open spec fn word_pairs(list: Seq<Seq<char>>) -> Seq<Seq<char>> {
    Seq::new(
        if list.len() == 0 {
            0
        } else {
            (list.len() - 1) as nat
        },
        |i: int| list[i].push('\0') + list[i + 1],
    )
}

/// The least length of a block that is compared, in characters.
pub const PROSE_BLOCK_MIN: usize = 120;

/// A block of prose: its section and its number there, its text, its words, and
/// the distinct pairs of neighboring words.
pub struct ProseBlock {
    pub section: usize,
    pub block: usize,
    pub text: String,
    pub normalized: String,
    pub shingles: Vec<String>,
}

/// The value of a block of prose.
pub struct ProseModel {
    pub section: usize,
    pub block: usize,
    pub text: Seq<char>,
    pub normalized: Seq<char>,
    pub shingles: Seq<Seq<char>>,
}

impl View for ProseBlock {
    type V = ProseModel;

    open spec fn view(&self) -> ProseModel {
        ProseModel {
            section: self.section,
            block: self.block,
            text: self.text@,
            normalized: self.normalized@,
            shingles: texts(self.shingles@),
        }
    }
}

/// The values of some blocks.
pub open spec fn prose_models(v: Seq<ProseBlock>) -> Seq<ProseModel> {
    v.map_values(|b: ProseBlock| b@)
}

/// The text of a paragraph, without headings and citations.
pub open spec fn paragraph_text(paragraph: Seq<char>) -> Seq<char> {
    let lines = lines_in(paragraph);
    without_marks(join(no_headings(lines, lines.len()), " "@), 0)
}

/// The block of a paragraph.
pub open spec fn block_of(section: usize, block: usize, paragraph: Seq<char>) -> ProseModel {
    let text = paragraph_text(paragraph);
    let pairs = word_pairs(words(normal_form(text)));
    ProseModel {
        section,
        block,
        text: trim(text),
        normalized: normal_form(text),
        shingles: first_occurrences(pairs, pairs.len()),
    }
}

/// The blocks among the first `count` paragraphs that are long enough.
pub open spec fn blocks_in(section: usize, paragraphs: Seq<Seq<char>>, count: nat) -> Seq<ProseModel>
    decreases count,
{
    if count == 0 {
        Seq::empty()
    } else {
        let so_far = blocks_in(section, paragraphs, (count - 1) as nat);
        let block = block_of(section, (count - 1) as usize, paragraphs[count - 1]);
        if block.normalized.len() < PROSE_BLOCK_MIN {
            so_far
        } else {
            so_far.push(block)
        }
    }
}

/// The paragraphs of a section.
pub open spec fn paragraphs_of(section: Section) -> Seq<Seq<char>> {
    split_by(prose_in(section.markdown@), "\n\n"@, 0)
}

/// The blocks of the first `count` sections.
pub open spec fn prose_of_sections(sections: Seq<Section>, count: nat) -> Seq<ProseModel>
    decreases count,
{
    if count == 0 {
        Seq::empty()
    } else {
        prose_of_sections(sections, (count - 1) as nat) + blocks_in(
            (count - 1) as usize,
            paragraphs_of(sections[count - 1]),
            paragraphs_of(sections[count - 1]).len(),
        )
    }
}

// ---------------------------------------------------------------------------
// Executable functions
// ---------------------------------------------------------------------------

/// The prose of a text.
fn find_prose(markdown: &str) -> (r: String)
    ensures
        r@ == prose_in(markdown@),
{
    let ghost s = markdown@;
    let chars = to_chars(markdown);
    let n: usize = chars.len();
    let found = find_code(chars.as_slice());
    let ghost all = code(s);
    proof {
        code_lies_inside(s);
    }
    let mut starts: Vec<usize> = Vec::new();
    let mut i: usize = 0;
    while i < found.len()
        invariant
            i <= found@.len(),
            starts@.len() == i,
            forall|k: int| 0 <= k < i ==> #[trigger] starts@[k] == found@[k].0,
        decreases found@.len() - i,
    {
        starts.push(found[i].0);
        i += 1;
    }
    assert(all.len() == found@.len());
    assert forall|k: int| 0 <= k < found@.len() implies #[trigger] starts@[k]
        == beginnings(all)[k] by {
        assert(all[k] == (found@[k].0 as int, found@[k].1 as int));
    }
    assert(starts@ =~= beginnings(all));
    let order = order_ascending(&starts);
    let ghost ranges = by_beginning(all, beginnings(all));
    proof {
        assert(found.len() == found@.len());
        lemma_ordered(all.len(), ascending(starts@));
    }
    let mut out = String::new();
    let mut cursor: usize = 0;
    let mut k: usize = 0;
    while k < order.len()
        invariant
            k <= order@.len(),
            chars@ == s,
            n == s.len(),
            all == code(s),
            extents(found@) == all,
            all.len() == found@.len(),
            inside(all, s.len() as int),
            ranges == order@.map_values(|i: usize| all[i as int]),
            forall|y: usize| #[trigger] order@.contains(y) <==> y < all.len(),
            cursor <= n,
            prose_before(s, ranges, k as nat) == (out@, cursor as int),
        decreases order@.len() - k,
    {
        assert(order@.contains(order@[k as int]));
        let (start, end) = found[order[k]];
        assert(ranges[k as int] == (start as int, end as int)) by {
            assert(all[order@[k as int] as int] == (start as int, end as int));
        }
        if start >= cursor {
            out.push_str(slice(chars.as_slice(), cursor, start).as_str());
            out.push_str("\n\n");
            cursor = end;
        }
        k += 1;
    }
    assert(s.skip(cursor as int) =~= s.subrange(cursor as int, n as int));
    out.push_str(slice(chars.as_slice(), cursor, n).as_str());
    out
}

/// A text at every empty line.
fn split_paragraphs(text: &str) -> (r: Vec<String>)
    ensures
        texts(r@) == split_by(text@, "\n\n"@, 0),
{
    let ghost s = text@;
    let chars = to_chars(text);
    let n: usize = chars.len();
    let mark = to_chars("\n\n");
    let ghost goal = split_by(s, "\n\n"@, 0);
    let mut r: Vec<String> = Vec::new();
    let mut from: usize = 0;
    proof {
        reveal_strlit("\n\n");
        assert(texts(r@) + goal =~= goal);
    }
    loop
        invariant
            from <= n == s.len(),
            s == text@,
            chars@ == s,
            mark@ == "\n\n"@,
            "\n\n"@.len() == 2,
            goal == split_by(s, "\n\n"@, 0),
            texts(r@) + split_by(s, "\n\n"@, from as int) == goal,
        decreases n - from,
    {
        proof {
            lemma_first_at(s, "\n\n"@, from as int);
        }
        match find_from(chars.as_slice(), mark.as_slice(), from) {
            Some(at) => {
                let part = slice(chars.as_slice(), from, at);
                proof {
                    let rest = split_by(s, "\n\n"@, at + 2);
                    assert(texts(r@.push(part)) =~= texts(r@).push(part@));
                    assert(texts(r@) + (seq![part@] + rest) =~= texts(r@).push(part@) + rest);
                }
                r.push(part);
                from = at + 2;
            },
            None => {
                let part = slice(chars.as_slice(), from, n);
                proof {
                    assert(part@ =~= s.skip(from as int));
                    assert(texts(r@.push(part)) =~= texts(r@) + seq![part@]);
                }
                r.push(part);
                return r;
            },
        }
    }
}

/// The text of a paragraph, without headings and citations.
fn find_paragraph_text(paragraph: &str) -> (r: String)
    ensures
        r@ == paragraph_text(paragraph@),
{
    let lines = split_lines(paragraph);
    let ghost ls = line_models(lines@);
    let mut kept: Vec<String> = Vec::new();
    let mut i: usize = 0;
    assert(texts(kept@) =~= Seq::empty());
    assert(ls.len() == lines@.len());
    while i < lines.len()
        invariant
            i <= lines@.len(),
            ls == line_models(lines@),
            texts(kept@) == no_headings(ls, i as nat),
        decreases lines@.len() - i,
    {
        assert(ls[i as int] == lines@[i as int]@);
        let raw = to_chars(lines[i].text.as_str());
        let line = if raw.len() > 0 && raw[raw.len() - 1] == '\n' {
            strip_ending(lines[i].text.as_str())
        } else {
            lines[i].text.clone()
        };
        let letters = to_chars(line.as_str());
        let b = trim_bounds(letters.as_slice(), 0, letters.len());
        assert(letters@.subrange(0, letters@.len() as int) =~= line@);
        let front = slice(letters.as_slice(), b.0, letters.len());
        if !has_prefix(front.as_str(), "#") {
            assert(texts(kept@.push(line)) =~= texts(kept@).push(line@));
            kept.push(line);
        }
        i += 1;
    }
    let whole = join_with(&kept, " ");
    drop_citations(whole.as_str())
}

/// A text with a space for every citation.
fn drop_citations(text: &str) -> (r: String)
    ensures
        r@ == without_marks(text@, 0),
{
    let ghost s = text@;
    let chars = to_chars(text);
    let n: usize = chars.len();
    let mark = to_chars("[E:");
    let ghost goal = without_marks(s, 0);
    let mut out = String::new();
    let mut from: usize = 0;
    proof {
        reveal_strlit("[E:");
        assert(out@ + goal =~= goal);
    }
    while from < n
        invariant
            from <= n == s.len(),
            chars@ == s,
            mark@ == "[E:"@,
            "[E:"@.len() == 3,
            out@ + without_marks(s, from as int) == goal,
        decreases n - from,
    {
        let ghost start = out@;
        if matches_at(chars.as_slice(), mark.as_slice(), from) {
            let mut end: usize = from + 3;
            while end < n && chars[end] != ']' && !space(chars[end])
                invariant
                    from + 3 <= end <= n == s.len(),
                    chars@ == s,
                    id_end(s, from + 3) == id_end(s, end as int),
                decreases n - end,
            {
                end += 1;
            }
            if end > from + 3 && end < n && chars[end] == ']' {
                assert(plain_citation_end(s, from as int) == Some(end + 1));
                out.push_str(" ");
                proof {
                    let rest = without_marks(s, end + 1);
                    assert(start + (" "@ + rest) =~= start + " "@ + rest);
                }
                from = end + 1;
                continue;
            }
        }
        assert(plain_citation_end(s, from as int) is None);
        out.push(chars[from]);
        proof {
            let rest = without_marks(s, from + 1);
            assert(start + (seq![s[from as int]] + rest) =~= start.push(s[from as int]) + rest);
        }
        from += 1;
    }
    assert(out@ + Seq::<char>::empty() =~= out@);
    out
}

/// The words of a text, in lower case and with single spaces.
fn normalize(text: &str) -> (r: String)
    ensures
        r@ == normal_form(text@),
{
    let chars = to_chars(text);
    let mut low = String::new();
    let mut i: usize = 0;
    while i < chars.len()
        invariant
            i <= chars@.len(),
            chars@ == text@,
            low@ == lowered(text@, i as nat),
        decreases chars@.len() - i,
    {
        low.push_str(to_lower_char(chars[i]).as_str());
        i += 1;
    }
    let letters = to_chars(low.as_str());
    let mut out = String::new();
    let mut free = true;
    let mut k: usize = 0;
    while k < letters.len()
        invariant
            k <= letters@.len(),
            letters@ == low@,
            spaced(low@, k as nat) == (out@, free),
        decreases letters@.len() - k,
    {
        let c = letters[k];
        if is_alphanumeric(c) {
            out.push(c);
            free = false;
        } else if !free {
            out.push(' ');
            free = true;
        }
        k += 1;
    }
    trimmed(out.as_str())
}

/// The distinct pairs of neighboring words.
fn pair_words(normalized: &str) -> (r: Vec<String>)
    ensures
        ({
            let pairs = word_pairs(words(normalized@));
            texts(r@) == first_occurrences(pairs, pairs.len())
        }),
{
    let list = split_words(normalized);
    let ghost ws = words(normalized@);
    let ghost pairs = word_pairs(ws);
    let mut r: Vec<String> = Vec::new();
    let mut i: usize = 1;
    assert(texts(r@) =~= Seq::empty());
    assert(ws.len() == list@.len());
    while i < list.len()
        invariant
            1 <= i,
            i <= list@.len() || (list@.len() == 0 && i == 1),
            ws == texts(list@),
            ws.len() == list@.len(),
            pairs == word_pairs(ws),
            texts(r@) == first_occurrences(pairs, (i - 1) as nat),
        decreases list@.len() - i,
    {
        assert(ws[i - 1] == list@[i - 1]@);
        assert(ws[i as int] == list@[i as int]@);
        let mut pair = list[i - 1].clone();
        pair.push('\0');
        pair.push_str(list[i].as_str());
        assert(pairs[i - 1] == pair@);
        if !list_has(&r, pair.as_str()) {
            assert(texts(r@.push(pair)) =~= texts(r@).push(pair@));
            r.push(pair);
        }
        i += 1;
    }
    r
}

/// The prose of sections in blocks that can be compared: paragraphs of some
/// length, without code, headings and citations.
pub fn prose_blocks(sections: &[Section]) -> (r: Vec<ProseBlock>)
    ensures
        prose_models(r@) == prose_of_sections(sections@, sections@.len()),
{
    let mut r: Vec<ProseBlock> = Vec::new();
    let mut i: usize = 0;
    assert(prose_models(r@) =~= Seq::empty());
    while i < sections.len()
        invariant
            i <= sections@.len(),
            prose_models(r@) == prose_of_sections(sections@, i as nat),
        decreases sections@.len() - i,
    {
        let prose = find_prose(sections[i].markdown.as_str());
        let paragraphs = split_paragraphs(prose.as_str());
        let ghost all = paragraphs_of(sections@[i as int]);
        let ghost start = prose_models(r@);
        let mut k: usize = 0;
        assert(start + blocks_in(i, all, 0) =~= start);
        assert(all.len() == paragraphs@.len());
        while k < paragraphs.len()
            invariant
                k <= paragraphs@.len(),
                all == texts(paragraphs@),
                prose_models(r@) == start + blocks_in(i, all, k as nat),
            decreases paragraphs@.len() - k,
        {
            assert(all[k as int] == paragraphs@[k as int]@);
            let text = find_paragraph_text(paragraphs[k].as_str());
            let normalized = normalize(text.as_str());
            if to_chars(normalized.as_str()).len() >= PROSE_BLOCK_MIN {
                let shingles = pair_words(normalized.as_str());
                let block = ProseBlock {
                    section: i,
                    block: k,
                    text: trimmed(text.as_str()),
                    normalized,
                    shingles,
                };
                proof {
                    let was = blocks_in(i, all, k as nat);
                    assert(block@ == block_of(i, k, all[k as int]));
                    assert(prose_models(r@.push(block)) =~= prose_models(r@).push(block@));
                    assert((start + was).push(block@) =~= start + was.push(block@));
                }
                r.push(block);
            }
            k += 1;
        }
        i += 1;
    }
    r
}

} // verus!
