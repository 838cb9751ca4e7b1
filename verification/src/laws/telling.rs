//! What requests and reports tell: all that is in the passages at hand, every file
//! once, and each number with what it counts.

use vstd::prelude::*;

use super::lists::upto;
use crate::api::{cookie_of, holds_session};
use crate::audit_run::{bytes_of, units_of, UnitModel};
use crate::code_graph::{EdgeModel, GraphModel, SymbolModel};
use crate::config::entries;
use crate::coverage::{audited, obligations_of};
use crate::graph::rationing::FileRecords;
use crate::graph::records::{
    edge_record, edge_records, occurrences, owner_of, site_kinds, site_owners, symbol_record,
    symbol_records,
};
use crate::graph::structure::{
    described, gap_reason, gap_record, gaps, lines_of, structure_of, LoadedModel,
};
use crate::json::JsonModel;
use crate::model::Evidence;
use crate::order::{lemma_filter_none, lemma_filter_step, sum};
use crate::resume::{confirmed, released, reserved_by, TokenEventModel};
use crate::text::{blen, lemma_blen_concat, lemma_next_at, next_at, trim};

verus! {

// ---------------------------------------------------------------------------
// Records of passages
// ---------------------------------------------------------------------------

/// A stretch of lines has a line in common with one of some passages.
pub open spec fn is_shown(start: u32, end: u32, spans: Seq<(u32, u32)>) -> bool {
    exists|k: int| 0 <= k < spans.len() && start <= (#[trigger] spans[k]).1 && end >= spans[k].0
}

/// A symbol is a declaration in the passages.
pub open spec fn is_declared(spans: Seq<(u32, u32)>) -> spec_fn(SymbolModel) -> bool {
    |s: SymbolModel| s.kind != "file"@ && is_shown(s.span.start, s.span.end, spans)
}

/// The record of a symbol.
pub open spec fn told() -> spec_fn(SymbolModel) -> JsonModel {
    |s: SymbolModel| symbol_record(s)
}

/// Every declaration in the passages is told.
pub proof fn declarations_in_passages_are_told(
    symbols: Seq<SymbolModel>,
    spans: Seq<(u32, u32)>,
    count: nat,
)
    requires
        count <= symbols.len(),
    ensures
        symbol_records(symbols, spans, count) == symbols.take(count as int).filter(
            is_declared(spans),
        ).map_values(told()),
    decreases count,
{
    let keep = is_declared(spans);
    let f = told();
    lemma_filter_none(symbols, keep);
    if count == 0 {
        assert(Seq::<SymbolModel>::empty().map_values(f) =~= Seq::empty());
    } else {
        let n = count - 1;
        declarations_in_passages_are_told(symbols, spans, n as nat);
        lemma_filter_step(symbols, keep, n);
        let before = symbols.take(n).filter(keep);
        assert(before.push(symbols[n]).map_values(f) =~= before.map_values(f).push(f(symbols[n])));
    }
}

/// An edge is a call, or another relation to something, in the passages.
pub open spec fn is_related(spans: Seq<(u32, u32)>, calls: bool) -> spec_fn(EdgeModel) -> bool {
    |e: EdgeModel|
        is_shown(e.span.start, e.span.end, spans) && e.target.len() > 0 && (e.kind == "calls"@)
            == calls
}

/// An edge is a site in the passages that leads to nothing.
pub open spec fn is_bare(spans: Seq<(u32, u32)>) -> spec_fn(EdgeModel) -> bool {
    |e: EdgeModel| is_shown(e.span.start, e.span.end, spans) && e.target.len() == 0
}

/// An edge is such a site of an owner.
pub open spec fn is_bare_of(
    g: GraphModel,
    spans: Seq<(u32, u32)>,
    owner: Seq<char>,
) -> spec_fn(EdgeModel) -> bool {
    |e: EdgeModel|
        is_shown(e.span.start, e.span.end, spans) && e.target.len() == 0 && owner_of(
            g.symbols,
            e.source,
            g.symbols.len(),
        ) == owner
}

/// The record of an edge.
pub open spec fn edge_told(g: GraphModel) -> spec_fn(EdgeModel) -> JsonModel {
    |e: EdgeModel| edge_record(g, e)
}

/// The owner of an edge.
pub open spec fn edge_owner(g: GraphModel) -> spec_fn(EdgeModel) -> Seq<char> {
    |e: EdgeModel| owner_of(g.symbols, e.source, g.symbols.len())
}

/// The kind of an edge.
pub open spec fn edge_kind() -> spec_fn(EdgeModel) -> Seq<char> {
    |e: EdgeModel| e.kind
}

proof fn lemma_map_filter<B>(
    edges: Seq<EdgeModel>,
    keep: spec_fn(EdgeModel) -> bool,
    f: spec_fn(EdgeModel) -> B,
    n: int,
)
    requires
        0 <= n < edges.len(),
    ensures
        edges.take(n + 1).filter(keep).map_values(f) == (if keep(edges[n]) {
            edges.take(n).filter(keep).map_values(f).push(f(edges[n]))
        } else {
            edges.take(n).filter(keep).map_values(f)
        }),
        edges.take(0).filter(keep).map_values(f) == Seq::<B>::empty(),
{
    lemma_filter_none(edges, keep);
    lemma_filter_step(edges, keep, n);
    let before = edges.take(n).filter(keep);
    assert(before.push(edges[n]).map_values(f) =~= before.map_values(f).push(f(edges[n])));
    assert(Seq::<EdgeModel>::empty().map_values(f) =~= Seq::empty());
}

/// Every relation in the passages is told, calls and others apart; of the sites
/// that lead to nothing every owner is told, with the kind of each.
pub proof fn relations_in_passages_are_told(
    g: GraphModel,
    spans: Seq<(u32, u32)>,
    calls: bool,
    owner: Seq<char>,
    count: nat,
)
    requires
        count <= g.edges.len(),
    ensures
        edge_records(g, spans, calls, count) == g.edges.take(count as int).filter(
            is_related(spans, calls),
        ).map_values(edge_told(g)),
        site_owners(g, spans, count) == g.edges.take(count as int).filter(
            is_bare(spans),
        ).map_values(edge_owner(g)),
        site_kinds(g, spans, owner, count) == g.edges.take(count as int).filter(
            is_bare_of(g, spans, owner),
        ).map_values(edge_kind()),
    decreases count,
{
    if count == 0 {
        lemma_filter_none(g.edges, is_related(spans, calls));
        lemma_filter_none(g.edges, is_bare(spans));
        lemma_filter_none(g.edges, is_bare_of(g, spans, owner));
        assert(Seq::<EdgeModel>::empty().map_values(edge_told(g)) =~= Seq::empty());
        assert(Seq::<EdgeModel>::empty().map_values(edge_owner(g)) =~= Seq::empty());
        assert(Seq::<EdgeModel>::empty().map_values(edge_kind()) =~= Seq::empty());
    } else {
        let n = count - 1;
        relations_in_passages_are_told(g, spans, calls, owner, n as nat);
        lemma_map_filter(g.edges, is_related(spans, calls), edge_told(g), n);
        lemma_map_filter(g.edges, is_bare(spans), edge_owner(g), n);
        lemma_map_filter(g.edges, is_bare_of(g, spans, owner), edge_kind(), n);
    }
}

/// A text is this one.
pub open spec fn is_text(text: Seq<char>) -> spec_fn(Seq<char>) -> bool {
    |t: Seq<char>| t == text
}

/// A kind is counted as often as it occurs.
pub proof fn kinds_are_counted(list: Seq<Seq<char>>, text: Seq<char>, count: nat)
    requires
        count <= list.len(),
    ensures
        occurrences(list, text, count) == list.take(count as int).filter(is_text(text)).len(),
    decreases count,
{
    lemma_filter_none(list, is_text(text));
    if count > 0 {
        kinds_are_counted(list, text, (count - 1) as nat);
        lemma_filter_step(list, is_text(text), count - 1);
    }
}

// ---------------------------------------------------------------------------
// Files
// ---------------------------------------------------------------------------

/// There is something to say of a file.
pub open spec fn has_structure(evidence: Seq<Evidence>) -> spec_fn(LoadedModel) -> bool {
    |f: LoadedModel| structure_of(f, evidence).len() > 0
}

/// There is nothing to say of a file.
pub open spec fn has_none(evidence: Seq<Evidence>) -> spec_fn(LoadedModel) -> bool {
    |f: LoadedModel| structure_of(f, evidence).len() == 0
}

/// The records of a file.
pub open spec fn file_told(evidence: Seq<Evidence>) -> spec_fn(LoadedModel) -> FileRecords {
    |f: LoadedModel| FileRecords { path: f.path, records: structure_of(f, evidence) }
}

/// The record of a file of which there is nothing to say.
pub open spec fn gap_told() -> spec_fn(LoadedModel) -> JsonModel {
    |f: LoadedModel| gap_record(f.path, gap_reason(f))
}

/// Every file is told of: with its records where it has any, and otherwise with
/// the reason why it has none.
pub proof fn every_file_is_told_of(files: Seq<LoadedModel>, evidence: Seq<Evidence>, count: nat)
    requires
        count <= files.len(),
    ensures
        described(files, evidence, count) == files.take(count as int).filter(
            has_structure(evidence),
        ).map_values(file_told(evidence)),
        gaps(files, evidence, count) == files.take(count as int).filter(
            has_none(evidence),
        ).map_values(gap_told()),
        described(files, evidence, count).len() + gaps(files, evidence, count).len() == count,
    decreases count,
{
    let some = has_structure(evidence);
    let none = has_none(evidence);
    let f = file_told(evidence);
    let h = gap_told();
    lemma_filter_none(files, some);
    lemma_filter_none(files, none);
    if count == 0 {
        assert(Seq::<LoadedModel>::empty().map_values(f) =~= Seq::empty());
        assert(Seq::<LoadedModel>::empty().map_values(h) =~= Seq::empty());
    } else {
        let n = count - 1;
        every_file_is_told_of(files, evidence, n as nat);
        lemma_filter_step(files, some, n);
        lemma_filter_step(files, none, n);
        let a = files.take(n).filter(some);
        let b = files.take(n).filter(none);
        assert(a.push(files[n]).map_values(f) =~= a.map_values(f).push(f(files[n])));
        assert(b.push(files[n]).map_values(h) =~= b.map_values(h).push(h(files[n])));
    }
}

/// A passage is of a file.
pub open spec fn is_of(path: Seq<char>) -> spec_fn(Evidence) -> bool {
    |e: Evidence| e.path@ == path
}

/// The lines of a passage.
pub open spec fn its_lines() -> spec_fn(Evidence) -> (u32, u32) {
    |e: Evidence| (e.start, e.end)
}

/// The lines of a file that are shown are those of all of its passages.
pub proof fn all_lines_of_a_file_count(evidence: Seq<Evidence>, path: Seq<char>, count: nat)
    requires
        count <= evidence.len(),
    ensures
        lines_of(evidence, path, count) == evidence.take(count as int).filter(
            is_of(path),
        ).map_values(its_lines()),
    decreases count,
{
    let keep = is_of(path);
    let f = its_lines();
    lemma_filter_none(evidence, keep);
    if count == 0 {
        assert(Seq::<Evidence>::empty().map_values(f) =~= Seq::empty());
    } else {
        let n = count - 1;
        all_lines_of_a_file_count(evidence, path, n as nat);
        lemma_filter_step(evidence, keep, n);
        let before = evidence.take(n).filter(keep);
        assert(before.push(evidence[n]).map_values(f) =~= before.map_values(f).push(
            f(evidence[n]),
        ));
    }
}

// ---------------------------------------------------------------------------
// What an audit asks about
// ---------------------------------------------------------------------------

/// The texts of some passages.
pub open spec fn contents(segments: Seq<Evidence>) -> Seq<Seq<char>> {
    segments.map_values(|e: Evidence| e.content@)
}

/// A passage begins where those before it end: at as many bytes as they have
/// together.
pub proof fn passages_begin_where_others_end(segments: Seq<Evidence>, count: nat)
    requires
        count <= segments.len(),
    ensures
        bytes_of(segments, count) == blen(contents(segments.take(count as int)).flatten()),
    decreases count,
{
    let all = contents(segments.take(count as int));
    if count == 0 {
        assert(all =~= Seq::empty());
        assert(vstd::utf8::encode_utf8(Seq::<char>::empty()) =~= Seq::<u8>::empty());
    } else {
        let n = count - 1;
        passages_begin_where_others_end(segments, n as nat);
        let before = contents(segments.take(n));
        assert(all =~= before.push(segments[n].content@));
        before.lemma_flatten_push(segments[n].content@);
        lemma_blen_concat(before.flatten(), segments[n].content@);
    }
}

/// What an audit asks about the passage at a position.
pub open spec fn asked_at(segments: Seq<Evidence>, g: GraphModel, i: int) -> UnitModel {
    let start = blen(contents(segments.take(i)).flatten());
    let all = obligations_of(segments[i], g.symbols, g.edges, start as int);
    UnitModel {
        evidence: segments[i],
        start_byte: start as usize,
        items: audited(all, all.len()),
    }
}

/// What an audit asks about a passage, by its position.
pub open spec fn unit_at(segments: Seq<Evidence>, g: GraphModel) -> spec_fn(int) -> UnitModel {
    |i: int| asked_at(segments, g, i)
}

/// An audit asks something.
pub open spec fn asks_something() -> spec_fn(UnitModel) -> bool {
    |u: UnitModel| u.items.len() > 0
}

/// An audit asks about every passage of a file that it has anything to ask about,
/// in their order and each at its place.
pub proof fn every_passage_is_audited(segments: Seq<Evidence>, g: GraphModel, count: nat)
    requires
        count <= segments.len(),
    ensures
        units_of(segments, g, count) == upto(count).map_values(unit_at(segments, g)).filter(
            asks_something(),
        ),
    decreases count,
{
    let all = upto(count).map_values(unit_at(segments, g));
    let keep = asks_something();
    lemma_filter_none(all, keep);
    if count == 0 {
        assert(all =~= all.take(0));
    } else {
        let n = count - 1;
        every_passage_is_audited(segments, g, n as nat);
        passages_begin_where_others_end(segments, n as nat);
        lemma_filter_step(all, keep, n);
        assert(all.take(n) =~= upto(n as nat).map_values(unit_at(segments, g)));
        assert(all.take(n + 1) =~= all);
        assert(all[n] == asked_at(segments, g, n));
    }
}

// ---------------------------------------------------------------------------
// Settings and sessions
// ---------------------------------------------------------------------------

/// A text without white space at its ends.
pub open spec fn trimmed_entry() -> spec_fn(Seq<char>) -> Seq<char> {
    |t: Seq<char>| trim(t)
}

/// A text says something.
pub open spec fn says_something() -> spec_fn(Seq<char>) -> bool {
    |t: Seq<char>| t.len() > 0
}

/// Every entry that says something is kept.
pub proof fn entries_that_say_something_are_kept(list: Seq<Seq<char>>, count: nat)
    requires
        count <= list.len(),
    ensures
        entries(list, count) == list.take(count as int).map_values(trimmed_entry()).filter(
            says_something(),
        ),
    decreases count,
{
    let all = list.take(count as int).map_values(trimmed_entry());
    let keep = says_something();
    lemma_filter_none(all, keep);
    if count == 0 {
        assert(all =~= all.take(0));
    } else {
        let n = count - 1;
        entries_that_say_something_are_kept(list, n as nat);
        lemma_filter_step(all, keep, n);
        assert(all.take(n) =~= list.take(n).map_values(trimmed_entry()));
        assert(all.take(n + 1) =~= all);
    }
}

/// A cookie stands between two positions: between semicolons, or the ends of the
/// text.
pub open spec fn is_cookie(cookies: Seq<char>, from: int, to: int) -> bool {
    &&& 0 <= from <= to <= cookies.len()
    &&& from == 0 || cookies[from - 1] == ';'
    &&& to == cookies.len() || cookies[to] == ';'
    &&& forall|i: int| from <= i < to ==> #[trigger] cookies[i] != ';'
}

proof fn lemma_holds_session(cookies: Seq<char>, session: Seq<char>, from: int)
    requires
        0 <= from <= cookies.len(),
        from == 0 || cookies[from - 1] == ';',
    ensures
        holds_session(cookies, session, from) <==> exists|a: int, b: int|
            from <= a && #[trigger] is_cookie(cookies, a, b) && trim(cookies.subrange(a, b))
                == cookie_of(session),
    decreases cookies.len() - from,
{
    lemma_next_at(cookies, ';', from);
    let end = next_at(cookies, ';', from);
    assert(is_cookie(cookies, from, end));
    assert forall|a: int, b: int| from <= a && #[trigger] is_cookie(cookies, a, b) implies (a == from
        && b == end) || end < a by {
        if a > from && a <= end {
            assert(cookies[a - 1] != ';');
        }
        if a == from {
            if b < end {
                assert(cookies[b] != ';');
            }
            if b > end {
                assert(cookies[end] == ';');
            }
        }
    }
    if trim(cookies.subrange(from, end)) == cookie_of(session) {
    } else if end < cookies.len() {
        lemma_holds_session(cookies, session, end + 1);
        if holds_session(cookies, session, from) {
            let (a, b) = choose|a: int, b: int|
                end + 1 <= a && #[trigger] is_cookie(cookies, a, b) && trim(cookies.subrange(a, b))
                    == cookie_of(session);
            assert(is_cookie(cookies, a, b));
        }
    } else {
        assert forall|a: int, b: int| from <= a && #[trigger] is_cookie(
            cookies,
            a,
            b,
        ) implies trim(cookies.subrange(a, b)) != cookie_of(session) by {
            assert(a == from && b == end);
        }
    }
}

/// A request holds a session just where one of its cookies, without white space
/// at its ends, is that of the session.
pub proof fn sessions_are_whole_cookies(cookies: Seq<char>, session: Seq<char>)
    ensures
        holds_session(cookies, session, 0) <==> exists|a: int, b: int| #[trigger]
            is_cookie(cookies, a, b) && trim(cookies.subrange(a, b)) == "doccraft_session"@ + "="@
                + session,
{
    lemma_holds_session(cookies, session, 0);
    reveal_strlit("doccraft_session=");
    reveal_strlit("doccraft_session");
    reveal_strlit("=");
    assert("doccraft_session"@ + "="@ + session =~= cookie_of(session));
}

// ---------------------------------------------------------------------------
// Tokens
// ---------------------------------------------------------------------------

/// What a response gives back: what the request before it reserved beyond what
/// is confirmed to be used.
pub open spec fn given_back(events: Seq<TokenEventModel>) -> spec_fn(int) -> nat {
    |i: int|
        match confirmed(events[i].data) {
            Some(used) if !events[i].request && i > 0 && events[i - 1].request && reserved_by(
                events[i - 1].data,
            ) > used => (reserved_by(events[i - 1].data) - used) as nat,
            _ => 0,
        }
}

/// What is given back is, as far as a number holds, what all responses give back
/// together.
pub proof fn every_response_gives_back_what_is_left(events: Seq<TokenEventModel>, count: nat)
    requires
        count <= events.len(),
    ensures
        released(events, count).0 == (if count > 0 && events[count - 1].request {
            reserved_by(events[count - 1].data)
        } else {
            0
        }),
        released(events, count).1 == (if sum(upto(count).map_values(given_back(events)))
            > u64::MAX {
            u64::MAX as nat
        } else {
            sum(upto(count).map_values(given_back(events)))
        }),
    decreases count,
{
    let all = upto(count).map_values(given_back(events));
    if count > 0 {
        let n = count - 1;
        every_response_gives_back_what_is_left(events, n as nat);
        assert(all.drop_last() =~= upto(n as nat).map_values(given_back(events)));
        assert(all.last() == given_back(events)(n));
    }
}

} // verus!
