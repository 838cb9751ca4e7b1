//! Citations as models write them, resolved against the passages that were
//! supplied.

use vstd::prelude::*;
use vstd::string::StringExecFns;

use crate::citations::{citation_end, hex_end};
use crate::code_blocks::{code, extents, find_code, lies_within, within, Extent};
use crate::editorial::{citation, citation_text};
use crate::model::Evidence;
use crate::text::{
    blen, has_prefix, is_hex_digit, lemma_next_at, list_has, matches_at, next_at, same, slice, starts_with,
    texts, to_chars, trim, trim_bounds, trim_start,
};

verus! {

/// The one id, of the first `count` passages, that begins with a candidate:
/// none, one or several.
pub enum Found {
    Nothing,
    One(Seq<char>),
    Several,
}

/// The ids of the first `count` passages that begin with a candidate.
pub open spec fn found_ids(evidence: Seq<Evidence>, candidate: Seq<char>, count: nat) -> Found
    decreases count,
{
    if count == 0 {
        Found::Nothing
    } else {
        let so_far = found_ids(evidence, candidate, (count - 1) as nat);
        let id = evidence[count - 1].id@;
        if !starts_with(id, candidate) {
            so_far
        } else {
            match so_far {
                Found::Nothing => Found::One(id),
                Found::One(other) => if other == id {
                    so_far
                } else {
                    Found::Several
                },
                Found::Several => Found::Several,
            }
        }
    }
}

/// The id that eight bytes or more of it name, where they name one only.
pub open spec fn resolved(evidence: Seq<Evidence>, candidate: Seq<char>) -> Option<Seq<char>> {
    if blen(candidate) < 8 {
        None
    } else {
        match found_ids(evidence, candidate, evidence.len()) {
            Found::One(id) => Some(id),
            _ => None,
        }
    }
}

/// The id that a part of a citation names, whether or not a label follows it.
pub open spec fn part_id(evidence: Seq<Evidence>, part: Seq<char>) -> Option<Seq<char>> {
    match resolved(evidence, part) {
        Some(id) => Some(id),
        None => {
            let end = hex_end(part, 0);
            if end < part.len() {
                resolved(evidence, part.take(end))
            } else {
                None
            }
        },
    }
}

/// A part of a citation without the marker that it may repeat.
pub open spec fn bare_part(part: Seq<char>) -> Seq<char> {
    let t = trim(part);
    trim_start(
        if starts_with(t, "E:"@) {
            t.skip(2)
        } else {
            t
        },
    )
}

/// The ids that a list of parts from position `from` on names, after those
/// before it; none where one of them names nothing.
pub open spec fn named_ids(
    evidence: Seq<Evidence>,
    list: Seq<char>,
    from: int,
    before: Seq<Seq<char>>,
) -> Option<Seq<Seq<char>>>
    decreases list.len() - from,
{
    let end = next_at(list, ',', from);
    if !(0 <= from <= end <= list.len()) {
        Some(before)
    } else {
        match part_id(evidence, bare_part(list.subrange(from, end))) {
            None => None,
            Some(id) => {
                let ids = if before.contains(id) {
                    before
                } else {
                    before.push(id)
                };
                if end < list.len() {
                    named_ids(evidence, list, end + 1, ids)
                } else {
                    Some(ids)
                }
            },
        }
    }
}

/// A citation of each of the first `count` ids.
pub open spec fn citations_of(ids: Seq<Seq<char>>, count: nat) -> Seq<char>
    decreases count,
{
    if count == 0 {
        Seq::empty()
    } else {
        citations_of(ids, (count - 1) as nat) + citation(ids[count - 1])
    }
}

/// What stands for a citation: one for each passage that it names, or the
/// citation as it is where one of its parts names none.
pub open spec fn citation_in_full(s: Seq<char>, from: int, end: int, evidence: Seq<Evidence>) -> Seq<char> {
    match named_ids(evidence, s.subrange(from + 3, end - 1), 0, Seq::empty()) {
        Some(ids) => citations_of(ids, ids.len()),
        None => s.subrange(from, end),
    }
}

/// A text from position `from` on with its citations in full. Those in code
/// stay.
pub open spec fn cited_from(
    s: Seq<char>,
    literals: Seq<Extent>,
    evidence: Seq<Evidence>,
    from: int,
) -> Seq<char>
    decreases s.len() - from,
{
    if from < 0 || from >= s.len() {
        Seq::empty()
    } else {
        match citation_end(s, from) {
            Some(end) if from < end <= s.len() => (if within(literals, from) {
                s.subrange(from, end)
            } else {
                citation_in_full(s, from, end, evidence)
            }) + cited_from(s, literals, evidence, end),
            _ => seq![s[from]] + cited_from(s, literals, evidence, from + 1),
        }
    }
}

/// A text with its citations in full.
pub open spec fn normalized_citations(markdown: Seq<char>, evidence: Seq<Evidence>) -> Seq<char> {
    cited_from(markdown, code(markdown), evidence, 0)
}

/// Citations in code document the syntax, and stay: a text with no others stays
/// as it is.
pub proof fn citations_in_code_stay(
    s: Seq<char>,
    literals: Seq<Extent>,
    evidence: Seq<Evidence>,
    from: int,
)
    requires
        0 <= from <= s.len(),
        forall|at: int|
            from <= at < s.len() && #[trigger] citation_end(s, at) is Some ==> within(literals, at),
    ensures
        cited_from(s, literals, evidence, from) == s.skip(from),
    decreases s.len() - from,
{
    if from < s.len() {
        match citation_end(s, from) {
            Some(end) if from < end <= s.len() => {
                assert(citation_end(s, from) is Some);
                citations_in_code_stay(s, literals, evidence, end);
                assert(s.subrange(from, end) + s.skip(end) =~= s.skip(from));
            },
            _ => {
                citations_in_code_stay(s, literals, evidence, from + 1);
                assert(seq![s[from]] + s.skip(from + 1) =~= s.skip(from));
            },
        }
    } else {
        assert(s.skip(from) =~= Seq::<char>::empty());
    }
}

proof fn lemma_found(evidence: Seq<Evidence>, candidate: Seq<char>, count: nat)
    requires
        count <= evidence.len(),
    ensures
        match found_ids(evidence, candidate, count) {
            Found::One(id) => exists|k: int|
                0 <= k < evidence.len() && (#[trigger] evidence[k]).id@ == id,
            _ => true,
        },
    decreases count,
{
    if count > 0 {
        lemma_found(evidence, candidate, (count - 1) as nat);
        match found_ids(evidence, candidate, count) {
            Found::One(id) => {
                if evidence[count - 1].id@ != id {
                    assert(found_ids(evidence, candidate, (count - 1) as nat) == Found::One(id));
                }
            },
            _ => {},
        }
    }
}

/// Every id is that of a supplied passage.
pub open spec fn all_supplied(evidence: Seq<Evidence>, ids: Seq<Seq<char>>) -> bool {
    forall|i: int| 0 <= i < ids.len() ==> is_supplied(evidence, #[trigger] ids[i])
}

/// A passage with this id was supplied.
pub open spec fn is_supplied(evidence: Seq<Evidence>, id: Seq<char>) -> bool {
    exists|k: int| 0 <= k < evidence.len() && (#[trigger] evidence[k]).id@ == id
}

/// A citation in full cites only passages that were supplied, and each once.
pub proof fn resolved_citations_are_supplied(
    evidence: Seq<Evidence>,
    list: Seq<char>,
    from: int,
    before: Seq<Seq<char>>,
)
    requires
        all_supplied(evidence, before),
        before.no_duplicates(),
    ensures
        named_ids(evidence, list, from, before) is Some ==> all_supplied(
            evidence,
            named_ids(evidence, list, from, before)->0,
        ) && named_ids(evidence, list, from, before)->0.no_duplicates(),
    decreases list.len() - from,
{
    let end = next_at(list, ',', from);
    if 0 <= from <= end <= list.len() {
        let part = bare_part(list.subrange(from, end));
        match part_id(evidence, part) {
            None => {},
            Some(id) => {
                lemma_found(evidence, part, evidence.len());
                lemma_found(evidence, part.take(hex_end(part, 0)), evidence.len());
                assert(is_supplied(evidence, id));
                let ids = if before.contains(id) {
                    before
                } else {
                    before.push(id)
                };
                assert(all_supplied(evidence, ids));
                if end < list.len() {
                    resolved_citations_are_supplied(evidence, list, end + 1, ids);
                }
            },
        }
    }
}

/// The id that a candidate names, where it names one only.
fn resolve(evidence: &[Evidence], candidate: &str) -> (r: Option<String>)
    ensures
        match resolved(evidence@, candidate@) {
            Some(id) => r is Some && r->0@ == id,
            None => r is None,
        },
{
    if candidate.as_bytes().len() < 8 {
        return None;
    }
    let mut only: Option<String> = None;
    let mut i: usize = 0;
    while i < evidence.len()
        invariant
            i <= evidence@.len(),
            blen(candidate@) >= 8,
            match found_ids(evidence@, candidate@, i as nat) {
                Found::Nothing => only is None,
                Found::One(id) => only is Some && only->0@ == id,
                Found::Several => false,
            },
        decreases evidence@.len() - i,
    {
        let id = evidence[i].id.as_str();
        if has_prefix(id, candidate) {
            let other = match &only {
                Some(known) => !same(known.as_str(), id),
                None => false,
            };
            if other {
                proof {
                    lemma_several(evidence@, candidate@, (i + 1) as nat, evidence@.len());
                }
                return None;
            }
            only = Some(evidence[i].id.clone());
        }
        i += 1;
    }
    only
}

proof fn lemma_several(evidence: Seq<Evidence>, candidate: Seq<char>, count: nat, all: nat)
    requires
        count <= all,
        found_ids(evidence, candidate, count) is Several,
    ensures
        found_ids(evidence, candidate, all) is Several,
    decreases all - count,
{
    if count < all {
        lemma_several(evidence, candidate, count, (all - 1) as nat);
    }
}

/// The id that a part of a citation names.
fn resolve_part(evidence: &[Evidence], part: &str) -> (r: Option<String>)
    ensures
        match part_id(evidence@, part@) {
            Some(id) => r is Some && r->0@ == id,
            None => r is None,
        },
{
    if let Some(id) = resolve(evidence, part) {
        return Some(id);
    }
    let chars = to_chars(part);
    let n: usize = chars.len();
    let mut end: usize = 0;
    while end < n && (('0' <= chars[end] && chars[end] <= '9') || ('a' <= chars[end] && chars[end]
        <= 'f') || ('A' <= chars[end] && chars[end] <= 'F'))
        invariant
            end <= n == chars@.len(),
            chars@ == part@,
            hex_end(part@, 0) == hex_end(part@, end as int),
        decreases n - end,
    {
        assert(is_hex_digit(part@[end as int]));
        end += 1;
    }
    if end < n {
        let hex = slice(chars.as_slice(), 0, end);
        assert(hex@ =~= part@.take(end as int));
        resolve(evidence, hex.as_str())
    } else {
        None
    }
}

/// A part of a citation without the marker that it may repeat.
fn strip_part(chars: &[char], from: usize, to: usize) -> (r: String)
    requires
        from <= to <= chars@.len(),
    ensures
        r@ == bare_part(chars@.subrange(from as int, to as int)),
{
    let b = trim_bounds(chars, from, to);
    let ghost t = chars@.subrange(b.0 as int, b.1 as int);
    let mark = to_chars("E:");
    proof {
        reveal_strlit("E:");
        if b.0 + 2 <= b.1 {
            assert(t.subrange(0, 2) =~= chars@.subrange(b.0 as int, b.0 + 2));
        }
    }
    let start: usize = if b.1 - b.0 >= 2 && matches_at(chars, mark.as_slice(), b.0) {
        b.0 + 2
    } else {
        b.0
    };
    proof {
        assert(starts_with(t, "E:"@) == (start != b.0)) by {
            assert(mark@ == "E:"@);
            if starts_with(t, "E:"@) {
                assert(t.subrange(0, 2) == "E:"@);
            }
        }
        if start != b.0 {
            assert(t.skip(2) =~= chars@.subrange(start as int, b.1 as int));
        }
    }
    let c = trim_bounds(chars, start, b.1);
    slice(chars, c.0, b.1)
}

/// Citations of the passages that a list of parts names.
fn write_citations(list: &str, evidence: &[Evidence]) -> (r: Option<String>)
    ensures
        match named_ids(evidence@, list@, 0, Seq::empty()) {
            Some(ids) => r is Some && r->0@ == citations_of(ids, ids.len()),
            None => r is None,
        },
{
    let chars = to_chars(list);
    let n: usize = chars.len();
    let ghost s = list@;
    let mut ids: Vec<String> = Vec::new();
    let mut from: usize = 0;
    let mut more = true;
    assert(texts(ids@) =~= Seq::empty());
    while more
        invariant
            from <= n == s.len(),
            chars@ == s,
            s == list@,
            more ==> named_ids(evidence@, s, from as int, texts(ids@)) == named_ids(
                evidence@,
                s,
                0,
                Seq::empty(),
            ),
            !more ==> named_ids(evidence@, s, 0, Seq::empty()) == Some(texts(ids@)),
        decreases n - from, if more { 1int } else { 0int },
    {
        proof {
            lemma_next_at(s, ',', from as int);
        }
        let mut end: usize = from;
        while end < n && chars[end] != ','
            invariant
                from <= end <= n == s.len(),
                chars@ == s,
                next_at(s, ',', from as int) == next_at(s, ',', end as int),
            decreases n - end,
        {
            end += 1;
        }
        let part = strip_part(chars.as_slice(), from, end);
        match resolve_part(evidence, part.as_str()) {
            None => {
                return None;
            },
            Some(id) => {
                if !list_has(&ids, id.as_str()) {
                    assert(texts(ids@.push(id)) =~= texts(ids@).push(id@));
                    ids.push(id);
                }
            },
        }
        if end < n {
            from = end + 1;
        } else {
            more = false;
        }
    }
    let ghost all = texts(ids@);
    let mut out = String::new();
    let mut k: usize = 0;
    assert(all.len() == ids@.len());
    while k < ids.len()
        invariant
            k <= ids@.len(),
            all == texts(ids@),
            out@ == citations_of(all, k as nat),
        decreases ids@.len() - k,
    {
        assert(all[k as int] == ids@[k as int]@);
        out.push_str(citation_text(ids[k].as_str()).as_str());
        k += 1;
    }
    Some(out)
}

/// Resolves citations to the passages that were supplied, one reference for each
/// passage. A citation one of whose parts names nothing stays as it is, to be
/// rejected later.
pub fn normalize_citations(markdown: &str, evidence: &[Evidence]) -> (r: String)
    ensures
        r@ == normalized_citations(markdown@, evidence@),
{
    let chars = to_chars(markdown);
    let literals = find_code(chars.as_slice());
    let mark = to_chars("[E:");
    let ghost s = markdown@;
    let ghost lits = code(s);
    let n: usize = chars.len();
    let ghost goal = cited_from(s, lits, evidence@, 0);
    let mut out = String::new();
    let mut from: usize = 0;
    assert(out@ + goal =~= goal);
    proof {
        reveal_strlit("[E:");
    }
    while from < n
        invariant
            from <= n == s.len(),
            chars@ == s,
            mark@ == "[E:"@,
            "[E:"@.len() == 3,
            extents(literals@) == lits,
            goal == cited_from(s, lits, evidence@, 0),
            out@ + cited_from(s, lits, evidence@, from as int) == goal,
        decreases n - from,
    {
        let ghost start = out@;
        if matches_at(chars.as_slice(), mark.as_slice(), from) {
            let mut close: usize = from + 3;
            while close < n && chars[close] != ']'
                invariant
                    from + 3 <= close <= n == s.len(),
                    chars@ == s,
                    next_at(s, ']', from + 3) == next_at(s, ']', close as int),
                decreases n - close,
            {
                close += 1;
            }
            if close < n && close - (from + 3) >= 1 && close - (from + 3) <= 400 {
                let end: usize = close + 1;
                assert(citation_end(s, from as int) == Some(end as int));
                let ghost rest = cited_from(s, lits, evidence@, end as int);
                let whole = slice(chars.as_slice(), from, end);
                if lies_within(&literals, from) {
                    out.push_str(whole.as_str());
                } else {
                    let list = slice(chars.as_slice(), from + 3, close);
                    match write_citations(list.as_str(), evidence) {
                        Some(text) => {
                            out.push_str(text.as_str());
                        },
                        None => {
                            out.push_str(whole.as_str());
                        },
                    }
                }
                proof {
                    let put = if within(lits, from as int) {
                        s.subrange(from as int, end as int)
                    } else {
                        citation_in_full(s, from as int, end as int, evidence@)
                    };
                    assert(start + (put + rest) =~= start + put + rest);
                }
                from = end;
                continue;
            }
        }
        assert(citation_end(s, from as int) is None);
        out.push(chars[from]);
        proof {
            let rest = cited_from(s, lits, evidence@, from + 1);
            assert(start + (seq![s[from as int]] + rest) =~= start.push(s[from as int]) + rest);
        }
        from += 1;
    }
    assert(out@ + Seq::<char>::empty() =~= out@);
    out
}

} // verus!
