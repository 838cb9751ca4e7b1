//! Bounded reading context and publication layout.

use vstd::prelude::*;
use vstd::string::StringExecFns;

use crate::code_blocks::{
    blocks, char_at, code, code_lies_inside, extents, find_blocks, find_code, find_line_end, find_run_end,
    inside, lies_within, line_end, run_end, unclosed, within, Extent,
};
use crate::json::{field, member, member_models, nat_model, Json, JsonModel};
use crate::model::{Evidence, Section};
use crate::text::{
    blen, byte_offsets, decimal, find_from, first_at, join, join_with, lemma_blen_concat, lemma_blen_take,
    lemma_prefix_within, lemma_suffix_within, lemma_within_fit, matches_at, number, occurs_at,
    prefix_within, replace_all, replaced, same, slice, starts_with, suffix_within, texts, to_chars,
    trim_bounds, trim_start,
};

verus! {

/// A stretch of text in bytes is the one given in characters.
pub open spec fn in_bytes(s: Seq<char>, extent: Extent, start: usize, end: usize) -> bool {
    start == blen(s.take(extent.0)) && end == blen(s.take(extent.1))
}

/// Byte ranges of code literals, so that citation examples are not treated as
/// references.
pub fn code_ranges(markdown: &str) -> (r: Vec<core::ops::Range<usize>>)
    ensures
        r@.len() == code(markdown@).len(),
        forall|k: int|
            0 <= k < r@.len() ==> in_bytes(
                markdown@,
                code(markdown@)[k],
                (#[trigger] r@[k]).start,
                r@[k].end,
            ),
{
    let chars = to_chars(markdown);
    let found = find_code(chars.as_slice());
    let offsets = byte_offsets(markdown);
    let ghost all = code(markdown@);
    proof {
        code_lies_inside(markdown@);
    }
    let mut r: Vec<core::ops::Range<usize>> = Vec::new();
    let mut k: usize = 0;
    while k < found.len()
        invariant
            k <= found@.len(),
            all == code(markdown@),
            extents(found@) == all,
            inside(all, markdown@.len() as int),
            offsets@.len() == markdown@.len() + 1,
            forall|i: int|
                0 <= i <= markdown@.len() ==> #[trigger] offsets@[i] == blen(markdown@.take(i)),
            r@.len() == k,
            forall|j: int|
                0 <= j < k ==> in_bytes(markdown@, all[j], (#[trigger] r@[j]).start, r@[j].end),
        decreases found@.len() - k,
    {
        proof {
            assert(all[k as int] == (found@[k as int].0 as int, found@[k as int].1 as int));
        }
        let start: usize = offsets[found[k].0];
        let end: usize = offsets[found[k].1];
        r.push(start..end);
        k += 1;
    }
    assert(extents(found@).len() == found@.len());
    r
}

/// Whether a fence is opened and never closed, by the closing rules of
/// CommonMark.
pub fn has_unclosed_fence(markdown: &str) -> (r: bool)
    ensures
        r == unclosed(markdown@),
{
    let chars = to_chars(markdown);
    find_blocks(chars.as_slice()).1
}

/// A text with every `part` that does not begin in one of the stretches
/// replaced, from position `from` on.
pub open spec fn replaced_outside(
    s: Seq<char>,
    part: Seq<char>,
    with: Seq<char>,
    ranges: Seq<Extent>,
    from: int,
) -> Seq<char>
    decreases s.len() - from,
{
    match first_at(s, part, from) {
        Some(at) if from <= at && part.len() > 0 && at + part.len() <= s.len() => s.subrange(
            from,
            at,
        ) + (if within(ranges, at) {
            part
        } else {
            with
        }) + replaced_outside(s, part, with, ranges, at + part.len()),
        _ => s.skip(from),
    }
}

/// A citation of a passage.
pub open spec fn citation(id: Seq<char>) -> Seq<char> {
    "[E:"@ + id + "]"@
}

/// A text with every citation of a passage outside code replaced.
pub open spec fn with_citation(markdown: Seq<char>, id: Seq<char>, with: Seq<char>) -> Seq<char> {
    replaced_outside(markdown, citation(id), with, code(markdown), 0)
}

/// A citation as it is written.
pub fn citation_text(id: &str) -> (r: String)
    ensures
        r@ == citation(id@),
        r@.len() > 0,
{
    proof {
        reveal_strlit("[E:");
    }
    let mut needle = String::from_str("[E:");
    needle.push_str(id);
    needle.push_str("]");
    needle
}

/// Replaces the citations of a passage, but not those in code.
pub fn replace_citation(markdown: &str, id: &str, replacement: &str) -> (r: String)
    ensures
        r@ == with_citation(markdown@, id@, replacement@),
{
    let chars = to_chars(markdown);
    let ranges = find_code(chars.as_slice());
    let cite = citation_text(id);
    let needle = to_chars(cite.as_str());
    let ghost s = markdown@;
    let ghost part = citation(id@);
    let ghost with = replacement@;
    let ghost all = code(s);
    let mut out = String::new();
    let mut from: usize = 0;
    let ghost goal = replaced_outside(s, part, with, all, 0);
    let n: usize = chars.len();
    assert(out@ + goal =~= goal);
    loop
        invariant
            from <= n == chars@.len(),
            cite@ == part,
            chars@ == s,
            s == markdown@,
            needle@ == part,
            part.len() > 0,
            with == replacement@,
            extents(ranges@) == all,
            out@ + replaced_outside(s, part, with, all, from as int) == goal,
            goal == with_citation(markdown@, id@, replacement@),
        decreases chars@.len() - from,
    {
        match find_from(chars.as_slice(), needle.as_slice(), from) {
            Some(at) => {
                let ghost before = out@;
                let kept = slice(chars.as_slice(), from, at);
                out.push_str(kept.as_str());
                let literal = lies_within(&ranges, at);
                if literal {
                    out.push_str(cite.as_str());
                } else {
                    out.push_str(replacement);
                }
                let next: usize = at + needle.len();
                proof {
                    let put = if literal {
                        part
                    } else {
                        with
                    };
                    assert(out@ + replaced_outside(s, part, with, all, next as int) =~= before + (
                    s.subrange(from as int, at as int) + put + replaced_outside(
                        s,
                        part,
                        with,
                        all,
                        next as int,
                    )));
                }
                from = next;
            },
            None => {
                let kept = slice(chars.as_slice(), from, n);
                assert(s.subrange(from as int, n as int) =~= s.skip(from as int));
                out.push_str(kept.as_str());
                return out;
            },
        }
    }
}

/// What stands for the part of a text that was left out.
pub open spec fn gap() -> Seq<char> {
    "\n[… excerpt …]\n"@
}

/// A text that fits is its own excerpt. One that does not keeps both ends, as
/// much as fits around the gap, and nothing where not even the gap fits.
pub open spec fn excerpt_of(text: Seq<char>, limit: nat) -> Seq<char> {
    if blen(text) <= limit {
        text
    } else if limit < blen(gap()) {
        Seq::empty()
    } else {
        let usable = (limit - blen(gap())) as nat;
        prefix_within(text, usable / 2) + gap() + suffix_within(text, (usable - usable / 2) as nat)
    }
}

/// An excerpt never exceeds its limit.
pub proof fn excerpts_fit(text: Seq<char>, limit: nat)
    ensures
        blen(excerpt_of(text, limit)) <= limit,
{
    if blen(text) > limit {
        if limit >= blen(gap()) {
            let usable = (limit - blen(gap())) as nat;
            let head = prefix_within(text, usable / 2);
            let tail = suffix_within(text, (usable - usable / 2) as nat);
            lemma_within_fit(text, usable / 2);
            lemma_within_fit(text, (usable - usable / 2) as nat);
            lemma_blen_concat(head, gap());
            lemma_blen_concat(head + gap(), tail);
        } else {
            assert(vstd::utf8::encode_utf8(Seq::<char>::empty()) =~= Seq::<u8>::empty());
        }
    }
}

/// A text, or its two ends where it does not fit in `limit` bytes.
pub fn excerpt(text: &str, limit: usize) -> (r: String)
    ensures
        r@ == excerpt_of(text@, limit as nat),
        blen(r@) <= limit,
{
    proof {
        excerpts_fit(text@, limit as nat);
    }
    let total: usize = text.as_bytes().len();
    if total <= limit {
        return String::from_str(text);
    }
    let between = "\n[… excerpt …]\n";
    let between_bytes: usize = between.as_bytes().len();
    if limit < between_bytes {
        return String::new();
    }
    let usable: usize = limit - between_bytes;
    let front: usize = usable / 2;
    let back: usize = usable - front;
    let chars = to_chars(text);
    let offsets = byte_offsets(text);
    let n: usize = chars.len();
    let ghost s = text@;
    let mut head: usize = 0;
    proof {
        assert(s.take(n as int) =~= s);
        assert(s.take(0) =~= Seq::<char>::empty());
        assert(vstd::utf8::encode_utf8(s.take(0)) =~= Seq::<u8>::empty());
    }
    while head < n && offsets[head + 1] <= front
        invariant
            head <= n == s.len(),
            offsets@.len() == n + 1,
            forall|i: int| 0 <= i <= n ==> #[trigger] offsets@[i] == blen(s.take(i)),
            blen(s.take(head as int)) <= front,
        decreases n - head,
    {
        head += 1;
    }
    let mut tail: usize = n;
    proof {
        assert(s.skip(n as int) =~= Seq::<char>::empty());
        assert(vstd::utf8::encode_utf8(s.skip(n as int)) =~= Seq::<u8>::empty());
        assert forall|i: int| 0 <= i <= n implies #[trigger] offsets@[i] <= total by {
            lemma_blen_take(s, i, n as int);
        }
    }
    while tail > 0 && total - offsets[tail - 1] <= back
        invariant
            tail <= n == s.len(),
            total == blen(s),
            offsets@.len() == n + 1,
            forall|i: int| 0 <= i <= n ==> #[trigger] offsets@[i] == blen(s.take(i)),
            forall|i: int| 0 <= i <= n ==> #[trigger] offsets@[i] <= total,
            blen(s.skip(tail as int)) <= back,
        decreases tail,
    {
        tail -= 1;
        proof {
            assert(s =~= s.take(tail as int) + s.skip(tail as int));
            lemma_blen_concat(s.take(tail as int), s.skip(tail as int));
            assert(offsets@[tail as int] == blen(s.take(tail as int)));
        }
    }
    proof {
        if head < n {
            assert(offsets@[head + 1] == blen(s.take(head + 1)));
        }
        lemma_prefix_within(s, front as nat, head as int);
        if tail > 0 {
            assert(s =~= s.take(tail - 1) + s.skip(tail - 1));
            lemma_blen_concat(s.take(tail - 1), s.skip(tail - 1));
            assert(offsets@[tail - 1] == blen(s.take(tail - 1)));
        }
        lemma_suffix_within(s, back as nat, tail as int);
    }
    let mut out = slice(chars.as_slice(), 0, head);
    out.push_str(between);
    let end = slice(chars.as_slice(), tail, n);
    out.push_str(end.as_str());
    proof {
        assert(s.subrange(0, head as int) =~= s.take(head as int));
        assert(s.subrange(tail as int, n as int) =~= s.skip(tail as int));
    }
    out
}

// ---------------------------------------------------------------------------
// Headings
// ---------------------------------------------------------------------------

/// A line without its line feed and the carriage return before it.
pub open spec fn bare_line(raw: Seq<char>) -> Seq<char> {
    let line = if raw.len() > 0 && raw.last() == '\n' {
        raw.drop_last()
    } else {
        raw
    };
    if line.len() > 0 && line.last() == '\r' {
        line.drop_last()
    } else {
        line
    }
}

/// A line is a heading: up to three spaces, one to six number signs and a
/// space.
pub open spec fn is_heading(line: Seq<char>) -> bool {
    let indent = run_end(line, ' ', 0);
    let trimmed = line.skip(indent);
    let level = run_end(trimmed, '#', 0);
    indent <= 3 && 1 <= level <= 6 && char_at(trimmed, level) == ' '
}

/// The headings of a text outside blocks of code, from the line at `from` on.
pub open spec fn headings(s: Seq<char>, literals: Seq<Extent>, from: int) -> Seq<Seq<char>>
    decreases s.len() - from,
{
    if 0 <= from < line_end(s, from) <= s.len() {
        let end = line_end(s, from);
        let line = bare_line(s.subrange(from, end));
        let rest = headings(s, literals, end);
        if !within(literals, from) && is_heading(line) {
            seq![line.skip(run_end(line, ' ', 0))] + rest
        } else {
            rest
        }
    } else {
        Seq::empty()
    }
}

/// The headings of a text outside blocks of code.
pub fn markdown_headings(markdown: &str) -> (r: Vec<String>)
    ensures
        texts(r@) == headings(markdown@, blocks(markdown@), 0),
{
    let chars = to_chars(markdown);
    let n: usize = chars.len();
    let (literals, _) = find_blocks(chars.as_slice());
    let ghost s = markdown@;
    let ghost lits = blocks(s);
    let ghost goal = headings(s, lits, 0);
    let mut r: Vec<String> = Vec::new();
    let mut from: usize = 0;
    assert(texts(r@) + goal =~= goal);
    while from < n
        invariant
            from <= n == s.len(),
            chars@ == s,
            extents(literals@) == lits,
            goal == headings(s, lits, 0),
            texts(r@) + headings(s, lits, from as int) == goal,
        decreases n - from,
    {
        let end = find_line_end(chars.as_slice(), from);
        let ghost raw = s.subrange(from as int, end as int);
        let mut stop: usize = end;
        if stop > from && chars[stop - 1] == '\n' {
            stop -= 1;
        }
        proof {
            assert(raw.last() == s[end - 1]);
            if stop < end {
                assert(raw.drop_last() =~= s.subrange(from as int, stop as int));
            }
        }
        let ghost once = s.subrange(from as int, stop as int);
        if stop > from && chars[stop - 1] == '\r' {
            stop -= 1;
            assert(once.last() == '\r');
            assert(once.drop_last() =~= s.subrange(from as int, stop as int));
        } else if stop > from {
            assert(once.last() == s[stop - 1]);
        }
        let ghost line = s.subrange(from as int, stop as int);
        assert(line == bare_line(raw));
        let lead = find_run_end(chars.as_slice(), ' ', from, stop);
        let ghost trimmed = line.skip(lead - from);
        assert(trimmed =~= s.subrange(lead as int, stop as int));
        let marks = find_run_end(chars.as_slice(), '#', lead, stop);
        let level: usize = marks - lead;
        let ghost rest = headings(s, lits, end as int);
        if !lies_within(&literals, from) && lead - from <= 3 && 1 <= level && level <= 6 && marks
            < stop && chars[marks] == ' ' {
            assert(is_heading(line));
            let heading = slice(chars.as_slice(), lead, stop);
            proof {
                assert(texts(r@.push(heading)) =~= texts(r@).push(heading@));
                assert(texts(r@.push(heading)) + rest =~= texts(r@) + (seq![heading@] + rest));
            }
            r.push(heading);
        } else {
            assert(within(lits, from as int) || !is_heading(line));
        }
        from = end;
    }
    assert(texts(r@) + headings(s, lits, from as int) =~= texts(r@));
    r
}

/// How many lines, from the one at `from` on, open a Mermaid block.
pub open spec fn mermaid_lines(s: Seq<char>, from: int) -> nat
    decreases s.len() - from,
{
    if 0 <= from < line_end(s, from) <= s.len() {
        let end = line_end(s, from);
        let opens = starts_with(trim_start(s.subrange(from, end)), "```mermaid"@);
        mermaid_lines(s, end) + if opens {
            1nat
        } else {
            0nat
        }
    } else {
        0
    }
}

/// How many lines open a Mermaid block.
pub fn count_mermaid(markdown: &str) -> (r: usize)
    ensures
        r == mermaid_lines(markdown@, 0),
{
    let chars = to_chars(markdown);
    let n: usize = chars.len();
    let opening = to_chars("```mermaid");
    let ghost s = markdown@;
    let mut count: usize = 0;
    let mut from: usize = 0;
    while from < n
        invariant
            from <= n == s.len(),
            chars@ == s,
            opening@ == "```mermaid"@,
            count <= from,
            count + mermaid_lines(s, from as int) == mermaid_lines(s, 0),
        decreases n - from,
    {
        let end = find_line_end(chars.as_slice(), from);
        let b = trim_bounds(chars.as_slice(), from, end);
        let ghost line = s.subrange(from as int, end as int);
        let ghost t = trim_start(line);
        proof {
            assert(t == s.subrange(b.0 as int, end as int));
            if occurs_at(t, opening@, 0) {
                assert(t.subrange(0, opening@.len() as int) =~= s.subrange(
                    b.0 as int,
                    b.0 + opening@.len(),
                ));
            }
            if b.0 + opening@.len() <= end {
                assert(t.subrange(0, opening@.len() as int) =~= s.subrange(
                    b.0 as int,
                    b.0 + opening@.len(),
                ));
            }
        }
        if opening.len() <= end - b.0 && matches_at(chars.as_slice(), opening.as_slice(), b.0) {
            count += 1;
        }
        from = end;
    }
    count
}

// ---------------------------------------------------------------------------
// Digests
// ---------------------------------------------------------------------------

/// A text with the citations of the first `count` passages replaced.
pub open spec fn without_citations(
    markdown: Seq<char>,
    evidence: Seq<Evidence>,
    with: Seq<char>,
    count: nat,
) -> Seq<char>
    decreases count,
{
    if count == 0 {
        markdown
    } else {
        with_citation(
            without_citations(markdown, evidence, with, (count - 1) as nat),
            evidence[count - 1].id@,
            with,
        )
    }
}

/// At most `count` items of a list.
pub open spec fn at_most<T>(s: Seq<T>, count: int) -> Seq<T> {
    if s.len() <= count {
        s
    } else {
        s.take(count)
    }
}

/// What is shown of a section, in a review of the document, in `per` bytes.
pub open spec fn section_digest(section: Section, index: nat, per: nat) -> JsonModel {
    let text = without_citations(
        section.markdown@,
        section.evidence@,
        "[source]"@,
        section.evidence@.len(),
    );
    let titles = headings(text, blocks(text), 0);
    JsonModel::Obj(
        seq![
            field("excerpted"@, JsonModel::Bool(blen(text) > per * 2 / 3)),
            field("heading_count"@, nat_model(titles.len())),
            field(
                "headings"@,
                JsonModel::Str(excerpt_of(join(at_most(titles, 16), "\n"@), per / 3)),
            ),
            field("mermaid_count"@, nat_model(mermaid_lines(section.markdown@, 0))),
            field("section"@, nat_model(index)),
            field("text"@, JsonModel::Str(excerpt_of(text, per * 2 / 3))),
            field("title"@, JsonModel::Str(section.title@)),
        ],
    )
}

/// How many bytes each of the sections gets.
pub open spec fn digest_share(budget: nat, sections: nat) -> nat {
    budget / if sections == 0 {
        1nat
    } else {
        sections
    }
}

/// What is shown of each section in a review of the document, in equal shares of a budget.
pub fn digest(sections: &[Section], byte_budget: usize) -> (r: Vec<Json>)
    requires
        byte_budget <= usize::MAX / 2,
    ensures
        r@.len() == sections@.len(),
        forall|i: int|
            0 <= i < r@.len() ==> (#[trigger] r@[i])@ == section_digest(
                sections@[i],
                i as nat,
                digest_share(byte_budget as nat, sections@.len()),
            ),
{
    let count: usize = sections.len();
    let per: usize = byte_budget / (if count == 0 {
        1
    } else {
        count
    });
    let ghost share = digest_share(byte_budget as nat, sections@.len());
    proof {
        assert(per == share);
        let d = if count == 0 { 1int } else { count as int };
        assert(byte_budget as int / d <= byte_budget) by (nonlinear_arith)
            requires
                d >= 1,
        ;
    }
    let mut r: Vec<Json> = Vec::new();
    let mut i: usize = 0;
    while i < count
        invariant
            i <= count == sections@.len(),
            per == share,
            per <= usize::MAX / 2,
            r@.len() == i,
            forall|k: int|
                0 <= k < i ==> (#[trigger] r@[k])@ == section_digest(
                    sections@[k],
                    k as nat,
                    share,
                ),
        decreases count - i,
    {
        let section = &sections[i];
        let mut text = section.markdown.clone();
        let mut e: usize = 0;
        while e < section.evidence.len()
            invariant
                e <= section.evidence@.len(),
                text@ == without_citations(
                    section.markdown@,
                    section.evidence@,
                    "[source]"@,
                    e as nat,
                ),
            decreases section.evidence@.len() - e,
        {
            text = replace_citation(text.as_str(), section.evidence[e].id.as_str(), "[source]");
            e += 1;
        }
        let mut titles = markdown_headings(text.as_str());
        let ghost all = headings(text@, blocks(text@), 0);
        let heading_count: usize = titles.len();
        assert(texts(titles@).len() == titles@.len());
        if heading_count > 16 {
            let ghost whole = titles@;
            titles.truncate(16);
            assert(texts(titles@) =~= all.take(16));
        }
        let shown = join_with(&titles, "\n");
        let whole_bytes: usize = text.as_str().as_bytes().len();
        let members = vec![
            member("excerpted", Json::Bool(whole_bytes > per * 2 / 3)),
            member("heading_count", Json::count(heading_count)),
            member("headings", Json::string(excerpt(shown.as_str(), per / 3).as_str())),
            member("mermaid_count", Json::count(count_mermaid(section.markdown.as_str()))),
            member("section", Json::count(i)),
            member("text", Json::string(excerpt(text.as_str(), per * 2 / 3).as_str())),
            member("title", Json::string(section.title.as_str())),
        ];
        let record = Json::object(members);
        proof {
            assert(member_models(members@) =~= section_digest(
                sections@[i as int],
                i as nat,
                share,
            )->Obj_0);
        }
        r.push(record);
        i += 1;
    }
    r
}

// ---------------------------------------------------------------------------
// Footnotes
// ---------------------------------------------------------------------------

/// A text cites a passage outside code.
pub open spec fn cites(markdown: Seq<char>, id: Seq<char>) -> bool {
    with_citation(markdown, id, Seq::empty()) != markdown
}

/// One of the passages has this id.
pub open spec fn has_id(list: Seq<Evidence>, id: Seq<char>) -> bool {
    exists|k: int| 0 <= k < list.len() && (#[trigger] list[k]).id@ == id
}

/// What the first `count` passages of a section add to those cited before it.
pub open spec fn cited_by(section: Section, before: Seq<Evidence>, count: nat) -> Seq<Evidence>
    decreases count,
{
    if count == 0 {
        before
    } else {
        let so_far = cited_by(section, before, (count - 1) as nat);
        let e = section.evidence@[count - 1];
        if cites(section.markdown@, e.id@) && !has_id(so_far, e.id@) {
            so_far.push(e)
        } else {
            so_far
        }
    }
}

/// The passages that the first `count` sections cite, each once, in the order
/// in which footnote numbers are handed out.
pub open spec fn cited_in(sections: Seq<Section>, count: nat) -> Seq<Evidence>
    decreases count,
{
    if count == 0 {
        Seq::empty()
    } else {
        cited_by(
            sections[count - 1],
            cited_in(sections, (count - 1) as nat),
            sections[count - 1].evidence@.len(),
        )
    }
}

/// No passage gets two footnotes.
pub proof fn cited_passages_are_distinct(sections: Seq<Section>, count: nat)
    ensures
        forall|j: int, k: int|
            0 <= j < k < cited_in(sections, count).len() ==> (#[trigger] cited_in(
                sections,
                count,
            )[j]).id@ != (#[trigger] cited_in(sections, count)[k]).id@,
    decreases count,
{
    if count > 0 {
        cited_passages_are_distinct(sections, (count - 1) as nat);
        lemma_cited_by_distinct(
            sections[count - 1],
            cited_in(sections, (count - 1) as nat),
            sections[count - 1].evidence@.len(),
        );
    }
}

proof fn lemma_cited_by_distinct(section: Section, before: Seq<Evidence>, count: nat)
    requires
        forall|j: int, k: int|
            0 <= j < k < before.len() ==> (#[trigger] before[j]).id@ != (#[trigger] before[k]).id@,
    ensures
        forall|j: int, k: int|
            0 <= j < k < cited_by(section, before, count).len() ==> (#[trigger] cited_by(
                section,
                before,
                count,
            )[j]).id@ != (#[trigger] cited_by(section, before, count)[k]).id@,
    decreases count,
{
    if count > 0 {
        lemma_cited_by_distinct(section, before, (count - 1) as nat);
        let so_far = cited_by(section, before, (count - 1) as nat);
        let now = cited_by(section, before, count);
        assert forall|j: int, k: int| 0 <= j < k < now.len() implies (#[trigger] now[j]).id@ != (
        #[trigger] now[k]).id@ by {
            assert(now[j] == so_far[j]);
            if k < so_far.len() {
                assert(now[k] == so_far[k]);
            }
        }
    }
}

/// A list of borrowed passages as a list of passages.
pub open spec fn passages(list: Seq<&Evidence>) -> Seq<Evidence> {
    list.map_values(|e: &Evidence| *e)
}

/// Whether one of the passages has this id.
fn lists_id(list: &Vec<&Evidence>, id: &str) -> (r: bool)
    ensures
        r == has_id(passages(list@), id@),
{
    let mut k: usize = 0;
    while k < list.len()
        invariant
            k <= list@.len(),
            forall|j: int| 0 <= j < k ==> (#[trigger] passages(list@)[j]).id@ != id@,
        decreases list@.len() - k,
    {
        if same(list[k].id.as_str(), id) {
            assert(passages(list@)[k as int].id@ == id@);
            return true;
        }
        k += 1;
    }
    false
}

/// The passages that the body cites, in the order in which footnote numbers are
/// handed out.
pub fn cited(sections: &[Section]) -> (r: Vec<&Evidence>)
    ensures
        passages(r@) == cited_in(sections@, sections@.len()),
{
    let mut r: Vec<&Evidence> = Vec::new();
    let mut i: usize = 0;
    assert(passages(r@) =~= Seq::empty());
    while i < sections.len()
        invariant
            i <= sections@.len(),
            passages(r@) == cited_in(sections@, i as nat),
        decreases sections@.len() - i,
    {
        let section = &sections[i];
        let ghost before = passages(r@);
        let mut e: usize = 0;
        while e < section.evidence.len()
            invariant
                e <= section.evidence@.len(),
                passages(r@) == cited_by(*section, before, e as nat),
            decreases section.evidence@.len() - e,
        {
            let passage = &section.evidence[e];
            let stripped = replace_citation(section.markdown.as_str(), passage.id.as_str(), "");
            proof {
                reveal_strlit("");
                assert(""@ =~= Seq::empty());
            }
            if !same(stripped.as_str(), section.markdown.as_str()) {
                let seen = lists_id(&r, passage.id.as_str());
                if !seen {
                    assert(passages(r@.push(passage)) =~= passages(r@).push(*passage));
                    r.push(passage);
                }
            }
            e += 1;
        }
        i += 1;
    }
    r
}

/// The mark of a footnote.
pub open spec fn footnote(n: nat) -> Seq<char> {
    "[^s"@ + decimal(n) + "]"@
}

/// The mark of a footnote as it is written.
pub fn footnote_text(n: usize) -> (r: String)
    ensures
        r@ == footnote(n as nat),
{
    let mut s = String::from_str("[^s");
    s.push_str(number(n as u64).as_str());
    s.push_str("]");
    s
}

/// The reference of a footnote.
pub open spec fn reference(e: Evidence, n: nat) -> Seq<char> {
    footnote(n) + ": `"@ + replaced(e.path@, "`"@, ""@, 0) + "` L"@ + decimal(e.start as nat)
        + "–L"@ + decimal(e.end as nat) + " · Evidence `"@ + e.id@ + "`\n\n"@
}

/// The references of the first `count` footnotes.
pub open spec fn references(list: Seq<Evidence>, count: nat) -> Seq<char>
    decreases count,
{
    if count == 0 {
        "## Source references\n\n"@
    } else {
        references(list, (count - 1) as nat) + reference(list[count - 1], count)
    }
}

/// A text with the citations of the first `count` passages as footnotes.
pub open spec fn with_footnotes(markdown: Seq<char>, list: Seq<Evidence>, count: nat) -> Seq<char>
    decreases count,
{
    if count == 0 {
        markdown
    } else {
        with_citation(
            with_footnotes(markdown, list, (count - 1) as nat),
            list[count - 1].id@,
            footnote(count),
        )
    }
}

/// The first `count` sections, with footnotes.
pub open spec fn body(sections: Seq<Section>, list: Seq<Evidence>, count: nat) -> Seq<char>
    decreases count,
{
    if count == 0 {
        Seq::empty()
    } else {
        body(sections, list, (count - 1) as nat) + "## "@ + sections[count - 1].title@ + "\n\n"@
            + with_footnotes(sections[count - 1].markdown@, list, list.len()) + "\n\n"@
    }
}

/// The body of a document with its citations as footnotes, and the references
/// of the footnotes.
pub fn render_sections(sections: &[Section]) -> (r: (String, String))
    ensures
        ({
            let list = cited_in(sections@, sections@.len());
            &&& r.0@ == body(sections@, list, sections@.len())
            &&& r.1@ == references(list, list.len())
        }),
{
    let used = cited(sections);
    let ghost list = cited_in(sections@, sections@.len());
    let mut refs = String::from_str("## Source references\n\n");
    let mut i: usize = 0;
    assert(passages(used@).len() == used@.len());
    while i < used.len()
        invariant
            i <= used@.len(),
            passages(used@) == list,
            refs@ == references(list, i as nat),
        decreases used@.len() - i,
    {
        let e = used[i];
        assert(list[i as int] == *e);
        proof {
            reveal_strlit("`");
        }
        let mut line = footnote_text(i + 1);
        line.push_str(": `");
        line.push_str(replace_all(e.path.as_str(), "`", "").as_str());
        line.push_str("` L");
        line.push_str(number(e.start as u64).as_str());
        line.push_str("–L");
        line.push_str(number(e.end as u64).as_str());
        line.push_str(" · Evidence `");
        line.push_str(e.id.as_str());
        line.push_str("`\n\n");
        refs.push_str(line.as_str());
        i += 1;
    }
    let mut text = String::new();
    let mut k: usize = 0;
    while k < sections.len()
        invariant
            k <= sections@.len(),
            passages(used@) == list,
            list.len() == used@.len(),
            text@ == body(sections@, list, k as nat),
        decreases sections@.len() - k,
    {
        let section = &sections[k];
        let mut markdown = section.markdown.clone();
        let mut n: usize = 0;
        while n < used.len()
            invariant
                n <= used@.len(),
                passages(used@) == list,
                markdown@ == with_footnotes(section.markdown@, list, n as nat),
            decreases used@.len() - n,
        {
            assert(list[n as int] == *used@[n as int]);
            let mark = footnote_text(n + 1);
            markdown = replace_citation(markdown.as_str(), used[n].id.as_str(), mark.as_str());
            n += 1;
        }
        text.push_str("## ");
        text.push_str(section.title.as_str());
        text.push_str("\n\n");
        text.push_str(markdown.as_str());
        text.push_str("\n\n");
        k += 1;
    }
    (text, refs)
}

} // verus!
