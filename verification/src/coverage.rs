//! What a document is answerable for: an omission audit over original passages
//! and graph records.

use vstd::prelude::*;
use vstd::string::StringExecFns;
use vstd::utf8::{encode_utf8, is_char_boundary, is_char_boundary_start_end_of_seq};

use crate::code_graph::{CodeGraph, Edge, EdgeModel, Span, Symbol, SymbolModel};
use crate::code_graph::{edge_models, is_one_of, one_of, symbol_models};
use crate::editorial::{excerpt, excerpt_of};
use crate::model::Evidence;
use crate::order::{ascending, lemma_ordered, order_ascending};
use crate::pages::{by_start, ByteRange};
use crate::parser::{count_feeds, feeds, lemma_feeds_split};
use crate::source::{digest, hash};
use crate::text::{
    before, blen, byte_slice, bytes_or_empty, decimal, is_space, joined, number, precedes, same, slice_or_empty,
    space, to_chars,
};

verus! {

/// Something that a document is held to explain.
pub struct Obligation {
    pub id: String,
    /// The file of the passage that it belongs to.
    pub path: String,
    pub subject: String,
    pub kind: String,
    pub span: Span,
}

/// The value of an obligation.
pub struct ObligationModel {
    pub id: Seq<char>,
    pub path: Seq<char>,
    pub subject: Seq<char>,
    pub kind: Seq<char>,
    pub span: Span,
}

impl View for Obligation {
    type V = ObligationModel;

    open spec fn view(&self) -> ObligationModel {
        ObligationModel {
            id: self.id@,
            path: self.path@,
            subject: self.subject@,
            kind: self.kind@,
            span: self.span,
        }
    }
}

impl Clone for Obligation {
    fn clone(&self) -> (r: Self)
        ensures
            r == *self,
    {
        Obligation {
            id: self.id.clone(),
            path: self.path.clone(),
            subject: self.subject.clone(),
            kind: self.kind.clone(),
            span: self.span,
        }
    }
}

/// The values of a list of obligations.
pub open spec fn obligation_models(v: Seq<Obligation>) -> Seq<ObligationModel> {
    v.map_values(|o: Obligation| o@)
}

// ---------------------------------------------------------------------------
// Symbols
// ---------------------------------------------------------------------------

/// A span reaches into the bytes from `from` to `to`.
pub open spec fn span_overlaps(s: Span, from: int, to: int) -> bool {
    s.start_byte < to && s.end_byte > from
}

/// Kinds of symbols that are explained by their signature.
pub open spec fn container_kinds() -> Seq<&'static str> {
    seq!["class", "type", "interface", "module", "implementation"]
}

/// The part of a symbol that is explained with it.
pub open spec fn explained_span(s: SymbolModel) -> Span {
    if one_of(s.kind, container_kinds()) {
        s.signature
    } else {
        s.span
    }
}

/// A symbol is explained with a passage that it reaches into.
pub open spec fn symbol_owed(s: SymbolModel, from: int, to: int) -> bool {
    s.kind != "file"@ && span_overlaps(explained_span(s), from, to)
}

/// The obligation to explain a symbol.
pub open spec fn symbol_obligation(e: Evidence, s: SymbolModel) -> ObligationModel {
    ObligationModel {
        id: digest(encode_utf8(e.id@ + ":"@ + s.id)),
        path: e.path@,
        subject: s.qualified_name,
        kind: s.kind,
        span: explained_span(s),
    }
}

/// The obligations to explain the first `count` symbols.
pub open spec fn symbol_obligations(
    e: Evidence,
    symbols: Seq<SymbolModel>,
    from: int,
    to: int,
    count: nat,
) -> Seq<ObligationModel>
    decreases count,
{
    if count == 0 {
        Seq::empty()
    } else {
        let so_far = symbol_obligations(e, symbols, from, to, (count - 1) as nat);
        if symbol_owed(symbols[count - 1], from, to) {
            so_far.push(symbol_obligation(e, symbols[count - 1]))
        } else {
            so_far
        }
    }
}

/// The part of a span inside a passage.
pub open spec fn clipped(s: Span, from: int, to: int) -> ByteRange {
    ByteRange {
        start: if s.start_byte > from {
            s.start_byte
        } else {
            from as usize
        },
        end: if s.end_byte < to {
            s.end_byte
        } else {
            to as usize
        },
    }
}

/// The parts of a passage that the first `count` symbols explain.
pub open spec fn symbol_ranges(
    symbols: Seq<SymbolModel>,
    from: int,
    to: int,
    count: nat,
) -> Seq<ByteRange>
    decreases count,
{
    if count == 0 {
        Seq::empty()
    } else {
        let so_far = symbol_ranges(symbols, from, to, (count - 1) as nat);
        if symbol_owed(symbols[count - 1], from, to) {
            so_far.push(clipped(explained_span(symbols[count - 1]), from, to))
        } else {
            so_far
        }
    }
}

// ---------------------------------------------------------------------------
// Gaps
// ---------------------------------------------------------------------------

/// A character that says nothing by itself.
pub open spec fn is_filler(c: char) -> bool {
    is_space(c) || c == '{' || c == '}' || c == ';' || c == ','
}

/// A text holds nothing but filler.
pub open spec fn only_filler(s: Seq<char>) -> bool {
    forall|i: int| 0 <= i < s.len() ==> is_filler(#[trigger] s[i])
}

/// The line on which a passage ends.
pub open spec fn last_line(e: Evidence) -> nat {
    e.start as nat + feeds(encode_utf8(e.content@), 0, blen(e.content@) as int)
}

/// The obligation to explain what stands outside all symbols.
pub open spec fn gap_obligation(e: Evidence, offset: int, from: int, to: int) -> ObligationModel {
    let bytes = encode_utf8(e.content@);
    let start = e.start + feeds(bytes, 0, from - offset);
    ObligationModel {
        id: digest(encode_utf8("gap:"@ + e.id@ + ":"@ + decimal(from as nat))),
        path: e.path@,
        subject: e.path@,
        kind: "passage"@,
        span: Span {
            start_byte: from as usize,
            end_byte: to as usize,
            start: start as u32,
            end: (start + feeds(bytes, from - offset, to - offset)) as u32,
        },
    }
}

/// Gaps found so far, and how far a passage was swept.
pub struct Sweep {
    pub gaps: Seq<ObligationModel>,
    pub position: int,
}

/// What stands before the next explained part, where it says something.
pub open spec fn sweep_to(e: Evidence, offset: int, s: Sweep, start: int, end: int) -> Sweep {
    let content = slice_or_empty(e.content@, s.position - offset, start - offset);
    Sweep {
        gaps: if start > s.position && !only_filler(content) {
            s.gaps.push(gap_obligation(e, offset, s.position, start))
        } else {
            s.gaps
        },
        position: if end > s.position {
            end
        } else {
            s.position
        },
    }
}

/// The gaps before the first `count` explained parts.
pub open spec fn swept(e: Evidence, offset: int, ranges: Seq<ByteRange>, count: nat) -> Sweep
    decreases count,
{
    if count == 0 {
        Sweep { gaps: Seq::empty(), position: offset }
    } else {
        sweep_to(
            e,
            offset,
            swept(e, offset, ranges, (count - 1) as nat),
            ranges[count - 1].start as int,
            ranges[count - 1].end as int,
        )
    }
}

/// The gaps of a passage.
pub open spec fn gaps(e: Evidence, offset: int, ranges: Seq<ByteRange>) -> Seq<ObligationModel> {
    let end = offset + blen(e.content@);
    sweep_to(e, offset, swept(e, offset, ranges, ranges.len()), end, end).gaps
}

// ---------------------------------------------------------------------------
// Sites
// ---------------------------------------------------------------------------

/// The sites of one relation in a passage.
pub struct SiteGroup {
    pub source: Seq<char>,
    pub kind: Seq<char>,
    pub target: Seq<char>,
    pub sites: usize,
    pub span: Span,
}

/// Relations compared by source, kind and target.
pub open spec fn site_precedes(
    a: SiteGroup,
    source: Seq<char>,
    kind: Seq<char>,
    target: Seq<char>,
) -> bool {
    if a.source != source {
        precedes(a.source, source)
    } else if a.kind != kind {
        precedes(a.kind, kind)
    } else {
        precedes(a.target, target)
    }
}

/// A span that holds both.
pub open spec fn spanned(a: Span, b: Span) -> Span {
    Span {
        start_byte: if b.start_byte < a.start_byte {
            b.start_byte
        } else {
            a.start_byte
        },
        end_byte: if b.end_byte > a.end_byte {
            b.end_byte
        } else {
            a.end_byte
        },
        start: if b.start < a.start {
            b.start
        } else {
            a.start
        },
        end: if b.end > a.end {
            b.end
        } else {
            a.end
        },
    }
}

/// The target of a relation, as far as it is told.
pub open spec fn told_target(target: Seq<char>) -> Seq<char> {
    excerpt_of(target, 512)
}

/// A site put into an ordered list of relations.
pub open spec fn add_site(groups: Seq<SiteGroup>, e: EdgeModel) -> Seq<SiteGroup>
    decreases groups.len(),
{
    let target = told_target(e.target);
    let fresh = SiteGroup { source: e.source, kind: e.kind, target, sites: 1, span: e.span };
    if groups.len() == 0 {
        seq![fresh]
    } else {
        let last = groups.last();
        if last.source == e.source && last.kind == e.kind && last.target == target {
            groups.drop_last().push(
                SiteGroup {
                    sites: (last.sites + 1) as usize,
                    span: spanned(last.span, e.span),
                    ..last
                },
            )
        } else if site_precedes(last, e.source, e.kind, target) {
            groups.push(fresh)
        } else {
            add_site(groups.drop_last(), e).push(last)
        }
    }
}

/// The relations of the first `count` edges that reach into a passage.
pub open spec fn site_groups(edges: Seq<EdgeModel>, from: int, to: int, count: nat) -> Seq<SiteGroup>
    decreases count,
{
    if count == 0 {
        Seq::empty()
    } else {
        let so_far = site_groups(edges, from, to, (count - 1) as nat);
        if span_overlaps(edges[count - 1].span, from, to) {
            add_site(so_far, edges[count - 1])
        } else {
            so_far
        }
    }
}

/// The qualified name of the last of the first `count` symbols with an id.
pub open spec fn owner_name(symbols: Seq<SymbolModel>, id: Seq<char>, count: nat) -> Seq<char>
    decreases count,
{
    if count == 0 {
        "<file>"@
    } else if symbols[count - 1].id == id {
        symbols[count - 1].qualified_name
    } else {
        owner_name(symbols, id, (count - 1) as nat)
    }
}

/// What the sites of a relation are called.
pub open spec fn site_subject(g: SiteGroup, owner: Seq<char>) -> Seq<char> {
    if g.target.len() == 0 && g.sites == 1 {
        g.kind + " in "@ + owner + " at line "@ + decimal(g.span.start as nat)
    } else if g.target.len() == 0 {
        g.kind + " in "@ + owner + " ("@ + decimal(g.sites as nat) + " sites, lines "@ + decimal(
            g.span.start as nat,
        ) + "-"@ + decimal(g.span.end as nat) + ")"@
    } else if g.sites == 1 {
        g.target
    } else {
        g.target + " ("@ + decimal(g.sites as nat) + " sites in "@ + owner + ")"@
    }
}

/// The obligation to explain the sites of a relation.
pub open spec fn site_obligation(
    e: Evidence,
    symbols: Seq<SymbolModel>,
    g: SiteGroup,
) -> ObligationModel {
    ObligationModel {
        id: digest(
            encode_utf8(e.id@ + ":"@ + g.source + ":"@ + g.kind + ":"@ + g.target),
        ),
        path: e.path@,
        subject: site_subject(g, owner_name(symbols, g.source, symbols.len())),
        kind: g.kind,
        span: g.span,
    }
}

/// Everything that a document is held to explain of a passage that begins at a
/// byte position of its file: the symbols that reach into it, what stands
/// outside all of them, and the sites of its relations.
pub open spec fn obligations_of(
    e: Evidence,
    symbols: Seq<SymbolModel>,
    edges: Seq<EdgeModel>,
    offset: int,
) -> Seq<ObligationModel> {
    let end = offset + blen(e.content@);
    let ranges = by_start(symbol_ranges(symbols, offset, end, symbols.len()));
    symbol_obligations(e, symbols, offset, end, symbols.len()) + gaps(e, offset, ranges)
        + site_groups(edges, offset, end, edges.len()).map_values(
        |g: SiteGroup| site_obligation(e, symbols, g),
    )
}

/// A byte of a file lies in one of some ranges.
pub open spec fn in_ranges(ranges: Seq<ByteRange>, at: int) -> bool {
    exists|k: int| 0 <= k < ranges.len() && (#[trigger] ranges[k]).start <= at < ranges[k].end
}

/// A byte of a file lies in the span of one of some obligations.
pub open spec fn in_spans(list: Seq<ObligationModel>, at: int) -> bool {
    exists|k: int|
        0 <= k < list.len() && (#[trigger] list[k]).span.start_byte <= at < list[k].span.end_byte
}

/// A byte of a file lies in a stretch of a passage that says nothing.
pub open spec fn in_filler(e: Evidence, offset: int, at: int) -> bool {
    exists|from: int, to: int| from <= at < to && #[trigger] is_filler_between(e, offset, from, to)
}

/// A stretch of a passage says nothing.
pub open spec fn is_filler_between(e: Evidence, offset: int, from: int, to: int) -> bool {
    match byte_slice(e.content@, from - offset, to - offset) {
        Some(content) => only_filler(content),
        None => false,
    }
}

/// A passage can be cut at a byte of its file.
pub open spec fn can_be_cut(e: Evidence, offset: int, at: int) -> bool {
    let bytes = encode_utf8(e.content@);
    0 <= at - offset <= bytes.len() && is_char_boundary(bytes, at - offset)
}

/// Ranges begin and end between characters of a passage.
pub open spec fn between_characters(e: Evidence, offset: int, ranges: Seq<ByteRange>) -> bool {
    forall|k: int|
        0 <= k < ranges.len() ==> (#[trigger] ranges[k]).start <= ranges[k].end && can_be_cut(
            e,
            offset,
            ranges[k].start as int,
        ) && can_be_cut(e, offset, ranges[k].end as int)
}

/// A byte is accounted for.
pub open spec fn is_owed(
    e: Evidence,
    offset: int,
    ranges: Seq<ByteRange>,
    gaps: Seq<ObligationModel>,
    at: int,
) -> bool {
    in_ranges(ranges, at) || in_spans(gaps, at) || in_filler(e, offset, at)
}

/// What is accounted for stays so when gaps are added.
proof fn lemma_owed_kept(
    e: Evidence,
    offset: int,
    ranges: Seq<ByteRange>,
    gaps: Seq<ObligationModel>,
    more: Seq<ObligationModel>,
    at: int,
)
    requires
        is_owed(e, offset, ranges, gaps, at),
        gaps.len() <= more.len(),
        more.take(gaps.len() as int) == gaps,
    ensures
        is_owed(e, offset, ranges, more, at),
{
    if in_spans(gaps, at) {
        let k = choose|k: int|
            0 <= k < gaps.len() && (#[trigger] gaps[k]).span.start_byte <= at
                < gaps[k].span.end_byte;
        assert(more.take(gaps.len() as int)[k] == more[k]);
        assert(more[k].span.start_byte <= at < more[k].span.end_byte);
    }
}

/// A step of the sweep accounts for every byte up to where it ends.
proof fn lemma_sweep_step(
    e: Evidence,
    offset: int,
    ranges: Seq<ByteRange>,
    s: Sweep,
    start: int,
    end: int,
)
    requires
        0 <= offset <= s.position <= usize::MAX,
        start <= usize::MAX,
        can_be_cut(e, offset, s.position),
        can_be_cut(e, offset, start),
        can_be_cut(e, offset, end),
        start < end ==> exists|k: int|
            0 <= k < ranges.len() && (#[trigger] ranges[k]).start == start && ranges[k].end == end,
        start >= end ==> start == end,
        forall|at: int|
            offset <= at < s.position ==> is_owed(e, offset, ranges, s.gaps, at),
    ensures
        ({
            let next = sweep_to(e, offset, s, start, end);
            &&& s.position <= next.position
            &&& can_be_cut(e, offset, next.position)
            &&& forall|at: int|
                offset <= at < next.position ==> is_owed(e, offset, ranges, next.gaps, at)
        }),
{
    let next = sweep_to(e, offset, s, start, end);
    let content = slice_or_empty(e.content@, s.position - offset, start - offset);
    assert(next.gaps.take(s.gaps.len() as int) =~= s.gaps);
    assert forall|at: int| offset <= at < next.position implies is_owed(
        e,
        offset,
        ranges,
        next.gaps,
        at,
    ) by {
        if at < s.position {
            lemma_owed_kept(e, offset, ranges, s.gaps, next.gaps, at);
        } else if at < start {
            if only_filler(content) {
                assert(is_filler_between(e, offset, s.position, start));
            } else {
                let gap = next.gaps.last();
                assert(next.gaps[next.gaps.len() - 1] == gap);
                assert(gap.span.start_byte <= at < gap.span.end_byte);
            }
        } else {
            let k = choose|k: int|
                0 <= k < ranges.len() && (#[trigger] ranges[k]).start == start && ranges[k].end
                    == end;
            assert(ranges[k].start <= at < ranges[k].end);
        }
    }
}

/// A passage can be cut at its ends.
proof fn lemma_ends_cut(e: Evidence, offset: int)
    ensures
        can_be_cut(e, offset, offset),
        can_be_cut(e, offset, offset + blen(e.content@)),
{
    vstd::utf8::encode_utf8_valid_utf8(e.content@);
    is_char_boundary_start_end_of_seq(encode_utf8(e.content@));
}

proof fn lemma_swept_owed(e: Evidence, offset: int, ranges: Seq<ByteRange>, count: nat)
    requires
        0 <= offset <= usize::MAX,
        count <= ranges.len(),
        between_characters(e, offset, ranges),
    ensures
        ({
            let s = swept(e, offset, ranges, count);
            &&& offset <= s.position <= usize::MAX
            &&& can_be_cut(e, offset, s.position)
            &&& forall|at: int|
                offset <= at < s.position ==> is_owed(e, offset, ranges, s.gaps, at)
        }),
    decreases count,
{
    lemma_ends_cut(e, offset);
    if count > 0 {
        lemma_swept_owed(e, offset, ranges, (count - 1) as nat);
        let last = ranges[count - 1];
        assert(ranges[count - 1].start == last.start && ranges[count - 1].end == last.end);
        lemma_sweep_step(
            e,
            offset,
            ranges,
            swept(e, offset, ranges, (count - 1) as nat),
            last.start as int,
            last.end as int,
        );
    }
}

/// Nothing of a passage is passed over: every byte of it lies in what a symbol
/// explains, in a gap that is asked about, or in a stretch of filler.
pub proof fn every_byte_is_owed(e: Evidence, offset: int, ranges: Seq<ByteRange>, at: int)
    requires
        0 <= offset,
        offset + blen(e.content@) <= usize::MAX,
        offset <= at < offset + blen(e.content@),
        between_characters(e, offset, ranges),
    ensures
        is_owed(e, offset, ranges, gaps(e, offset, ranges), at),
{
    let end = offset + blen(e.content@);
    lemma_ends_cut(e, offset);
    lemma_swept_owed(e, offset, ranges, ranges.len());
    lemma_sweep_step(e, offset, ranges, swept(e, offset, ranges, ranges.len()), end, end);
}

/// Ranges lie inside a passage.
pub open spec fn ranges_inside(ranges: Seq<ByteRange>, from: int, to: int) -> bool {
    forall|k: int|
        0 <= k < ranges.len() ==> from <= (#[trigger] ranges[k]).start <= to && ranges[k].end <= to
}

proof fn lemma_symbol_ranges(symbols: Seq<SymbolModel>, from: int, to: int, count: nat)
    requires
        count <= symbols.len(),
        0 <= from <= to <= usize::MAX,
    ensures
        ranges_inside(symbol_ranges(symbols, from, to, count), from, to),
    decreases count,
{
    if count > 0 {
        lemma_symbol_ranges(symbols, from, to, (count - 1) as nat);
        let so_far = symbol_ranges(symbols, from, to, (count - 1) as nat);
        let now = symbol_ranges(symbols, from, to, count);
        assert forall|k: int| 0 <= k < now.len() implies from <= (#[trigger] now[k]).start <= to
            && now[k].end <= to by {
            if k < so_far.len() {
                assert(now[k] == so_far[k]);
            }
        }
    }
}

/// Whether a text holds nothing but filler.
fn is_only_filler(s: &str) -> (r: bool)
    ensures
        r == only_filler(s@),
{
    let chars = to_chars(s);
    let mut i: usize = 0;
    while i < chars.len()
        invariant
            i <= chars@.len(),
            chars@ == s@,
            forall|k: int| 0 <= k < i ==> is_filler(#[trigger] chars@[k]),
        decreases chars@.len() - i,
    {
        let c = chars[i];
        if !(space(c) || c == '{' || c == '}' || c == ';' || c == ',') {
            assert(!is_filler(s@[i as int]));
            return false;
        }
        i += 1;
    }
    true
}

/// The part of a symbol that is explained with it.
fn span_explained(s: &Symbol) -> (r: Span)
    ensures
        r == explained_span(s@),
{
    let kinds = ["class", "type", "interface", "module", "implementation"];
    assert(kinds@ =~= container_kinds());
    if is_one_of(s.kind.as_str(), &kinds) {
        s.signature
    } else {
        s.span
    }
}

/// The hash of an id and what it is of.
fn hash_of(a: &str, b: &str) -> (r: String)
    ensures
        r@ == digest(encode_utf8(a@ + ":"@ + b@)),
{
    let named = joined(joined(a, ":").as_str(), b);
    hash(named.as_str().as_bytes())
}

/// Stretches in the order of their beginnings.
fn sort_ranges(ranges: &Vec<ByteRange>) -> (r: Vec<ByteRange>)
    ensures
        r@ == by_start(ranges@),
        r@.len() == ranges@.len(),
        forall|k: int| 0 <= k < r@.len() ==> ranges@.contains(#[trigger] r@[k]),
{
    let ghost all = ranges@;
    let ghost starts = all.map_values(|r: ByteRange| r.start);
    let mut firsts: Vec<usize> = Vec::new();
    let mut i: usize = 0;
    assert(firsts@ =~= starts.take(0));
    while i < ranges.len()
        invariant
            i <= ranges@.len(),
            all == ranges@,
            starts == all.map_values(|r: ByteRange| r.start),
            firsts@ == starts.take(i as int),
        decreases ranges@.len() - i,
    {
        let start: usize = ranges[i].start;
        assert(starts.take(i + 1) =~= starts.take(i as int).push(start));
        firsts.push(start);
        i += 1;
    }
    assert(starts.take(i as int) =~= starts);
    let order = order_ascending(&firsts);
    let ghost goal = by_start(all);
    proof {
        assert(ranges.len() == all.len());
        lemma_ordered(all.len(), ascending(starts));
        assert forall|k: int| 0 <= k < order@.len() implies #[trigger] order@[k] < ranges@.len() by {
            assert(order@.contains(order@[k]));
        }
    }
    let mut r: Vec<ByteRange> = Vec::new();
    let mut k: usize = 0;
    assert(r@ =~= goal.take(0));
    while k < order.len()
        invariant
            k <= order@.len() == ranges@.len(),
            all == ranges@,
            goal == order@.map_values(|i: usize| all[i as int]),
            forall|k: int| 0 <= k < order@.len() ==> #[trigger] order@[k] < ranges@.len(),
            r@ == goal.take(k as int),
            r@.len() == k,
            forall|j: int| 0 <= j < k ==> all.contains(#[trigger] r@[j]),
        decreases order@.len() - k,
    {
        let at: usize = order[k];
        let range = ByteRange { start: ranges[at].start, end: ranges[at].end };
        assert(all[at as int] == range);
        assert(all.contains(range));
        assert(goal.take(k + 1) =~= goal.take(k as int).push(range));
        r.push(range);
        k += 1;
    }
    assert(goal.take(k as int) =~= goal);
    r
}

/// The obligation to explain what stands outside all symbols.
fn gap_of(e: &Evidence, offset: usize, from: usize, to: usize) -> (r: Obligation)
    requires
        offset <= from <= to <= offset + blen(e.content@),
        offset + blen(e.content@) <= usize::MAX,
        last_line(*e) <= u32::MAX,
    ensures
        r@ == gap_obligation(*e, offset as int, from as int, to as int),
{
    let bytes = e.content.as_str().as_bytes();
    proof {
        let all = encode_utf8(e.content@);
        lemma_feeds_split(all, 0, from - offset, to - offset);
        lemma_feeds_split(all, 0, to - offset, all.len() as int);
    }
    let head = count_feeds(bytes, 0, from - offset);
    let inner = count_feeds(bytes, from - offset, to - offset);
    let start: u32 = e.start + head as u32;
    let mut named = String::from_str("gap:");
    named.push_str(e.id.as_str());
    named.push_str(":");
    named.push_str(number(from as u64).as_str());
    Obligation {
        id: hash(named.as_str().as_bytes()),
        path: e.path.clone(),
        subject: e.path.clone(),
        kind: String::from_str("passage"),
        span: Span { start_byte: from, end_byte: to, start, end: start + inner as u32 },
    }
}

/// The sites of one relation.
struct Sites {
    source: String,
    kind: String,
    target: String,
    sites: usize,
    span: Span,
}

impl Sites {
    closed spec fn model(self) -> SiteGroup {
        SiteGroup {
            source: self.source@,
            kind: self.kind@,
            target: self.target@,
            sites: self.sites,
            span: self.span,
        }
    }
}

closed spec fn sites_models(v: Seq<Sites>) -> Seq<SiteGroup> {
    v.map_values(|s: Sites| s.model())
}

/// Whether a relation comes before another.
fn sites_before(a: &Sites, source: &str, kind: &str, target: &str) -> (r: bool)
    ensures
        r == site_precedes(a.model(), source@, kind@, target@),
{
    if !same(a.source.as_str(), source) {
        before(a.source.as_str(), source)
    } else if !same(a.kind.as_str(), kind) {
        before(a.kind.as_str(), kind)
    } else {
        before(a.target.as_str(), target)
    }
}

/// The place at which a site goes into a list of relations.
proof fn lemma_add_site(groups: Seq<SiteGroup>, e: EdgeModel, at: int)
    requires
        0 <= at <= groups.len(),
        forall|k: int|
            at <= k < groups.len() ==> !((#[trigger] groups[k]).source == e.source && groups[k].kind
                == e.kind && groups[k].target == told_target(e.target)) && !site_precedes(
                groups[k],
                e.source,
                e.kind,
                told_target(e.target),
            ),
        at > 0 ==> (groups[at - 1].source == e.source && groups[at - 1].kind == e.kind && groups[at
            - 1].target == told_target(e.target)) || site_precedes(
            groups[at - 1],
            e.source,
            e.kind,
            told_target(e.target),
        ),
    ensures
        ({
            let target = told_target(e.target);
            let fresh = SiteGroup { source: e.source, kind: e.kind, target, sites: 1, span: e.span };
            if at > 0 && groups[at - 1].source == e.source && groups[at - 1].kind == e.kind
                && groups[at - 1].target == target {
                add_site(groups, e) == groups.update(
                    at - 1,
                    SiteGroup {
                        sites: (groups[at - 1].sites + 1) as usize,
                        span: spanned(groups[at - 1].span, e.span),
                        ..groups[at - 1]
                    },
                )
            } else {
                add_site(groups, e) == groups.insert(at, fresh)
            }
        }),
    decreases groups.len(),
{
    let target = told_target(e.target);
    let fresh = SiteGroup { source: e.source, kind: e.kind, target, sites: 1, span: e.span };
    if groups.len() == 0 {
        assert(groups.insert(0, fresh) =~= seq![fresh]);
    } else if at == groups.len() {
        let last = groups.last();
        if last.source == e.source && last.kind == e.kind && last.target == target {
            let grown = SiteGroup {
                sites: (last.sites + 1) as usize,
                span: spanned(last.span, e.span),
                ..last
            };
            assert(groups.drop_last().push(grown) =~= groups.update(at - 1, grown));
        } else {
            assert(groups.insert(at, fresh) =~= groups.push(fresh));
        }
    } else {
        let t = groups.drop_last();
        let last = groups[groups.len() - 1];
        lemma_add_site(t, e, at);
        if at > 0 && groups[at - 1].source == e.source && groups[at - 1].kind == e.kind && groups[at
            - 1].target == target {
            let grown = SiteGroup {
                sites: (groups[at - 1].sites + 1) as usize,
                span: spanned(groups[at - 1].span, e.span),
                ..groups[at - 1]
            };
            assert(t.update(at - 1, grown).push(last) =~= groups.update(at - 1, grown));
        } else {
            assert(t.insert(at, fresh).push(last) =~= groups.insert(at, fresh));
        }
    }
}

/// A relation has no more sites than edges were met.
proof fn lemma_sites(edges: Seq<EdgeModel>, from: int, to: int, count: nat)
    requires
        count <= edges.len() <= usize::MAX,
    ensures
        forall|k: int|
            0 <= k < site_groups(edges, from, to, count).len() ==> 1 <= (#[trigger] site_groups(
                edges,
                from,
                to,
                count,
            )[k]).sites <= count,
    decreases count,
{
    if count > 0 {
        lemma_sites(edges, from, to, (count - 1) as nat);
        let so_far = site_groups(edges, from, to, (count - 1) as nat);
        lemma_add_site_count(so_far, edges[count - 1], (count - 1) as nat);
        assert forall|k: int|
            0 <= k < site_groups(edges, from, to, count).len() implies 1 <= (#[trigger] site_groups(
            edges,
            from,
            to,
            count,
        )[k]).sites <= count by {
            if !span_overlaps(edges[count - 1].span, from, to) {
                assert(so_far[k].sites <= count - 1);
            }
        }
    }
}

proof fn lemma_add_site_count(groups: Seq<SiteGroup>, e: EdgeModel, most: nat)
    requires
        most < usize::MAX,
        forall|k: int| 0 <= k < groups.len() ==> 1 <= (#[trigger] groups[k]).sites <= most,
    ensures
        forall|k: int|
            0 <= k < add_site(groups, e).len() ==> 1 <= (#[trigger] add_site(groups, e)[k]).sites
                <= most + 1,
    decreases groups.len(),
{
    if groups.len() > 0 {
        let last = groups[groups.len() - 1];
        let t = groups.drop_last();
        assert(1 <= last.sites <= most);
        lemma_add_site_count(t, e, most);
        let now = add_site(groups, e);
        let shorter = add_site(t, e);
        assert forall|k: int| 0 <= k < now.len() implies 1 <= (#[trigger] now[k]).sites <= most
            + 1 by {
            if k < groups.len() - 1 && now[k] == groups[k] {
                assert(1 <= groups[k].sites <= most);
            } else if k < shorter.len() && now[k] == shorter[k] {
                assert(1 <= shorter[k].sites <= most + 1);
            }
        }
    }
}

/// The relations of the edges that reach into a passage.
fn collect_sites(edges: &Vec<Edge>, from: usize, to: usize) -> (r: Vec<Sites>)
    ensures
        sites_models(r@) == site_groups(
            edge_models(edges@),
            from as int,
            to as int,
            edges@.len(),
        ),
{
    let ghost es = edge_models(edges@);
    let count: usize = edges.len();
    let mut groups: Vec<Sites> = Vec::new();
    let mut i: usize = 0;
    assert(sites_models(groups@) =~= Seq::empty());
    while i < count
        invariant
            i <= count == edges@.len(),
            es == edge_models(edges@),
            sites_models(groups@) == site_groups(es, from as int, to as int, i as nat),
        decreases count - i,
    {
        let e = &edges[i];
        assert(es[i as int] == e@);
        if e.span.start_byte < to && e.span.end_byte > from {
            let target = excerpt(e.target.as_str(), 512);
            let ghost gs = sites_models(groups@);
            proof {
                lemma_sites(es, from as int, to as int, i as nat);
            }
            let mut at: usize = groups.len();
            let mut found = false;
            let mut searching = true;
            while at > 0 && searching
                invariant
                    at <= groups@.len(),
                    gs == sites_models(groups@),
                    target@ == told_target(e@.target),
                    forall|k: int|
                        at <= k < gs.len() ==> !((#[trigger] gs[k]).source == e@.source
                            && gs[k].kind == e@.kind && gs[k].target == target@)
                            && !site_precedes(gs[k], e@.source, e@.kind, target@),
                    found ==> !searching,
                    !searching ==> at > 0,
                    !searching ==> found == (gs[at - 1].source == e@.source && gs[at - 1].kind
                        == e@.kind && gs[at - 1].target == target@),
                    !searching && !found ==> site_precedes(
                        gs[at - 1],
                        e@.source,
                        e@.kind,
                        target@,
                    ),
                decreases at, (if searching {
                    1int
                } else {
                    0
                }),
            {
                let last = &groups[at - 1];
                assert(gs[at - 1] == last.model());
                if same(last.source.as_str(), e.source.as_str()) && same(
                    last.kind.as_str(),
                    e.kind.as_str(),
                ) && same(last.target.as_str(), target.as_str()) {
                    found = true;
                    searching = false;
                } else if sites_before(
                    last,
                    e.source.as_str(),
                    e.kind.as_str(),
                    target.as_str(),
                ) {
                    searching = false;
                } else {
                    at -= 1;
                }
            }
            proof {
                lemma_add_site(gs, e@, at as int);
            }
            if found {
                assert(gs[at - 1].sites <= i);
                assert(gs[at - 1] == groups@[at - 1].model());
                let old_span = groups[at - 1].span;
                let merged = Span {
                    start_byte: if e.span.start_byte < old_span.start_byte {
                        e.span.start_byte
                    } else {
                        old_span.start_byte
                    },
                    end_byte: if e.span.end_byte > old_span.end_byte {
                        e.span.end_byte
                    } else {
                        old_span.end_byte
                    },
                    start: if e.span.start < old_span.start {
                        e.span.start
                    } else {
                        old_span.start
                    },
                    end: if e.span.end > old_span.end {
                        e.span.end
                    } else {
                        old_span.end
                    },
                };
                let grown = Sites {
                    source: groups[at - 1].source.clone(),
                    kind: groups[at - 1].kind.clone(),
                    target,
                    sites: groups[at - 1].sites + 1,
                    span: merged,
                };
                assert(sites_models(groups@.update(at - 1, grown)) =~= gs.update(
                    at - 1,
                    grown.model(),
                ));
                groups.set(at - 1, grown);
            } else {
                let fresh = Sites {
                    source: e.source.clone(),
                    kind: e.kind.clone(),
                    target,
                    sites: 1,
                    span: e.span,
                };
                assert(sites_models(groups@.insert(at as int, fresh)) =~= gs.insert(
                    at as int,
                    fresh.model(),
                ));
                groups.insert(at, fresh);
            }
        }
        i += 1;
    }
    groups
}

/// The qualified name of a symbol.
fn name_of_owner(symbols: &Vec<Symbol>, id: &str) -> (r: String)
    ensures
        r@ == owner_name(symbol_models(symbols@), id@, symbols@.len()),
{
    let ghost ms = symbol_models(symbols@);
    let mut k: usize = symbols.len();
    while k > 0
        invariant
            k <= symbols@.len(),
            ms == symbol_models(symbols@),
            owner_name(ms, id@, k as nat) == owner_name(ms, id@, ms.len()),
        decreases k,
    {
        k -= 1;
        assert(ms[k as int] == symbols@[k as int]@);
        if same(symbols[k].id.as_str(), id) {
            return symbols[k].qualified_name.clone();
        }
    }
    String::from_str("<file>")
}

/// What the sites of a relation are called.
fn subject_of(g: &Sites, owner: &str) -> (r: String)
    ensures
        r@ == site_subject(g.model(), owner@),
{
    if g.target.as_str().is_empty() {
        let mut s = g.kind.clone();
        s.push_str(" in ");
        s.push_str(owner);
        if g.sites == 1 {
            s.push_str(" at line ");
            s.push_str(number(g.span.start as u64).as_str());
        } else {
            s.push_str(" (");
            s.push_str(number(g.sites as u64).as_str());
            s.push_str(" sites, lines ");
            s.push_str(number(g.span.start as u64).as_str());
            s.push_str("-");
            s.push_str(number(g.span.end as u64).as_str());
            s.push_str(")");
        }
        s
    } else if g.sites == 1 {
        g.target.clone()
    } else {
        let mut s = g.target.clone();
        s.push_str(" (");
        s.push_str(number(g.sites as u64).as_str());
        s.push_str(" sites in ");
        s.push_str(owner);
        s.push_str(")");
        s
    }
}

/// Everything that a document is held to explain of a passage. `offset` is where
/// the passage begins in its file.
#[verifier::rlimit(40)]
pub fn obligations(e: &Evidence, g: &CodeGraph, offset: usize) -> (r: Vec<Obligation>)
    requires
        offset + blen(e.content@) <= usize::MAX,
        last_line(*e) <= u32::MAX,
    ensures
        obligation_models(r@) == obligations_of(*e, g@.symbols, g@.edges, offset as int),
{
    let size: usize = e.content.as_str().as_bytes().len();
    let end: usize = offset + size;
    let ghost ss = symbol_models(g.symbols@);
    let ghost es = edge_models(g.edges@);
    let mut r: Vec<Obligation> = Vec::new();
    let mut ranges: Vec<ByteRange> = Vec::new();
    let mut i: usize = 0;
    assert(obligation_models(r@) =~= Seq::empty());
    while i < g.symbols.len()
        invariant
            i <= g.symbols@.len(),
            ss == symbol_models(g.symbols@),
            end == offset + blen(e.content@),
            obligation_models(r@) == symbol_obligations(
                *e,
                ss,
                offset as int,
                end as int,
                i as nat,
            ),
            ranges@ == symbol_ranges(ss, offset as int, end as int, i as nat),
        decreases g.symbols@.len() - i,
    {
        let s = &g.symbols[i];
        assert(ss[i as int] == s@);
        let span = span_explained(s);
        if !same(s.kind.as_str(), "file") && span.start_byte < end && span.end_byte > offset {
            ranges.push(
                ByteRange {
                    start: if span.start_byte > offset {
                        span.start_byte
                    } else {
                        offset
                    },
                    end: if span.end_byte < end {
                        span.end_byte
                    } else {
                        end
                    },
                },
            );
            let o = Obligation {
                id: hash_of(e.id.as_str(), s.id.as_str()),
                path: e.path.clone(),
                subject: s.qualified_name.clone(),
                kind: s.kind.clone(),
                span,
            };
            assert(obligation_models(r@.push(o)) =~= obligation_models(r@).push(o@));
            r.push(o);
        }
        i += 1;
    }
    let ghost first = obligation_models(r@);
    let ghost all = ranges@;
    proof {
        lemma_symbol_ranges(ss, offset as int, end as int, ss.len());
    }
    let sorted = sort_ranges(&ranges);
    let ghost by = sorted@;
    proof {
        assert forall|k: int| 0 <= k < by.len() implies offset <= (#[trigger] by[k]).start <= end
            && by[k].end <= end by {
            assert(all.contains(by[k]));
            let j = choose|j: int| 0 <= j < all.len() && all[j] == by[k];
            assert(offset <= all[j].start <= end && all[j].end <= end);
        }
    }
    let mut position: usize = offset;
    let mut k: usize = 0;
    assert(first + swept(*e, offset as int, by, 0).gaps =~= first);
    while k < sorted.len()
        invariant
            k <= sorted@.len(),
            sorted@ == by,
            end == offset + blen(e.content@),
            end <= usize::MAX,
            last_line(*e) <= u32::MAX,
            forall|k: int|
                0 <= k < by.len() ==> offset <= (#[trigger] by[k]).start <= end && by[k].end <= end,
            offset <= position <= end,
            position == swept(*e, offset as int, by, k as nat).position,
            obligation_models(r@) == first + swept(*e, offset as int, by, k as nat).gaps,
        decreases sorted@.len() - k,
    {
        let start: usize = sorted[k].start;
        let stop: usize = sorted[k].end;
        assert(offset <= by[k as int].start <= end && by[k as int].end <= end);
        let ghost so_far = swept(*e, offset as int, by, k as nat);
        if start > position {
            let content = bytes_or_empty(e.content.as_str(), position - offset, start - offset);
            if !is_only_filler(content.as_str()) {
                let o = gap_of(e, offset, position, start);
                proof {
                    assert(obligation_models(r@.push(o)) =~= obligation_models(r@).push(o@));
                    assert((first + so_far.gaps).push(o@) =~= first + so_far.gaps.push(o@));
                }
                r.push(o);
            }
        }
        if stop > position {
            position = stop;
        }
        k += 1;
    }
    let ghost so_far = swept(*e, offset as int, by, by.len());
    if end > position {
        let content = bytes_or_empty(e.content.as_str(), position - offset, end - offset);
        if !is_only_filler(content.as_str()) {
            let o = gap_of(e, offset, position, end);
            proof {
                assert(obligation_models(r@.push(o)) =~= obligation_models(r@).push(o@));
                assert((first + so_far.gaps).push(o@) =~= first + so_far.gaps.push(o@));
            }
            r.push(o);
        }
    }
    let ghost second = first + gaps(*e, offset as int, by);
    assert(obligation_models(r@) == second);
    let groups = collect_sites(&g.edges, offset, end);
    let ghost gs = sites_models(groups@);
    let ghost sites = gs.map_values(|x: SiteGroup| site_obligation(*e, ss, x));
    let mut m: usize = 0;
    assert(second + sites.take(0) =~= second);
    while m < groups.len()
        invariant
            m <= groups@.len(),
            gs == sites_models(groups@),
            ss == symbol_models(g.symbols@),
            sites == gs.map_values(|x: SiteGroup| site_obligation(*e, ss, x)),
            obligation_models(r@) == second + sites.take(m as int),
        decreases groups@.len() - m,
    {
        let group = &groups[m];
        assert(gs[m as int] == group.model());
        let owner = name_of_owner(&g.symbols, group.source.as_str());
        let mut named = e.id.clone();
        named.push_str(":");
        named.push_str(group.source.as_str());
        named.push_str(":");
        named.push_str(group.kind.as_str());
        named.push_str(":");
        named.push_str(group.target.as_str());
        let o = Obligation {
            id: hash(named.as_str().as_bytes()),
            path: e.path.clone(),
            subject: subject_of(group, owner.as_str()),
            kind: group.kind.clone(),
            span: group.span,
        };
        proof {
            assert(sites[m as int] == o@);
            assert(obligation_models(r@.push(o)) =~= obligation_models(r@).push(o@));
            assert(second + sites.take(m + 1) =~= (second + sites.take(m as int)).push(o@));
        }
        r.push(o);
        m += 1;
    }
    assert(sites.take(m as int) =~= sites);
    r
}

// ---------------------------------------------------------------------------
// What is audited
// ---------------------------------------------------------------------------

/// Kinds of obligations that an audit asks about: what a reader looks up.
pub open spec fn audited_kinds() -> Seq<&'static str> {
    seq!["function", "method", "class", "type", "interface", "implementation", "module"]
}

/// Whether an audit asks about obligations of this kind.
pub fn audited_kind(kind: &str) -> (r: bool)
    ensures
        r == one_of(kind@, audited_kinds()),
{
    let kinds = ["function", "method", "class", "type", "interface", "implementation", "module"];
    assert(kinds@ =~= audited_kinds());
    is_one_of(kind, &kinds)
}

/// The audited ones of the first `count` obligations.
pub open spec fn audited(list: Seq<ObligationModel>, count: nat) -> Seq<ObligationModel>
    decreases count,
{
    if count == 0 {
        Seq::empty()
    } else {
        let so_far = audited(list, (count - 1) as nat);
        if one_of(list[count - 1].kind, audited_kinds()) {
            so_far.push(list[count - 1])
        } else {
            so_far
        }
    }
}

/// The obligations of a passage that an audit asks about.
pub fn audited_obligations(e: &Evidence, g: &CodeGraph, offset: usize) -> (r: Vec<Obligation>)
    requires
        offset + blen(e.content@) <= usize::MAX,
        last_line(*e) <= u32::MAX,
    ensures
        ({
            let all = obligations_of(*e, g@.symbols, g@.edges, offset as int);
            obligation_models(r@) == audited(all, all.len())
        }),
{
    let all = obligations(e, g, offset);
    let ghost ms = obligation_models(all@);
    let mut r: Vec<Obligation> = Vec::new();
    let mut i: usize = 0;
    assert(obligation_models(r@) =~= Seq::empty());
    while i < all.len()
        invariant
            i <= all@.len(),
            ms == obligation_models(all@),
            obligation_models(r@) == audited(ms, i as nat),
        decreases all@.len() - i,
    {
        assert(ms[i as int] == all@[i as int]@);
        if audited_kind(all[i].kind.as_str()) {
            let o = all[i].clone();
            assert(obligation_models(r@.push(o)) =~= obligation_models(r@).push(o@));
            r.push(o);
        }
        i += 1;
    }
    r
}

} // verus!
