//! Citations outside the body: in review warnings, and in requests.

use vstd::prelude::*;
use vstd::string::StringExecFns;

use crate::code_blocks::{code, extents, find_code, lies_within, within, Extent};
use crate::editorial::{
    citation, citation_text, cited, cited_in, footnote, footnote_text, passages,
};
use crate::findings::{is_id, named_by, resolve, IdFault};
use crate::json::{lemma_arr, lemma_obj, member_models, models, Json, JsonModel, Member, MemberModel};
use crate::model::{Evidence, Section};
use crate::order::{lemma_one_position, positions};
use crate::text::{
    before, has_prefix, is_hex_digit, matches_at, next_at, occurs_at, precedes, replace_all, replaced, same,
    slice, starts_with, texts, to_chars,
};

verus! {

// ---------------------------------------------------------------------------
// Warnings
// ---------------------------------------------------------------------------

/// Where a citation that starts at `at` ends: `[E:`, between one and four
/// hundred characters other than `]`, and `]`.
pub open spec fn citation_end(s: Seq<char>, at: int) -> Option<int> {
    let close = next_at(s, ']', at + 3);
    if occurs_at(s, "[E:"@, at) && close < s.len() && 1 <= close - (at + 3) <= 400 {
        Some(close + 1)
    } else {
        None
    }
}

/// Where the run of hexadecimal digits that starts at `from` ends.
pub open spec fn hex_end(s: Seq<char>, from: int) -> int
    decreases s.len() - from,
{
    if 0 <= from < s.len() && is_hex_digit(s[from]) {
        hex_end(s, from + 1)
    } else {
        from
    }
}

/// The passages supplied to the first `count` sections.
pub open spec fn supplied(sections: Seq<Section>, count: nat) -> Seq<Evidence>
    decreases count,
{
    if count == 0 {
        Seq::empty()
    } else {
        supplied(sections, (count - 1) as nat) + sections[count - 1].evidence@
    }
}

/// The positions of the passages whose id begins with `prefix`.
pub open spec fn beginning_with(list: Seq<Evidence>, prefix: Seq<char>) -> Seq<usize> {
    positions(|i: int| starts_with(list[i].id@, prefix), list.len())
}

/// The last part of a path.
pub open spec fn file_name(path: Seq<char>) -> Seq<char>
    decreases path.len(),
{
    if path.contains('/') {
        if path.len() > 0 && path[0] == '/' && !path.skip(1).contains('/') {
            path.skip(1)
        } else if path.len() > 0 {
            file_name(path.skip(1))
        } else {
            path
        }
    } else {
        path
    }
}

/// What stands in a warning for a citation: the footnote of the one passage
/// that the body cites, else the file of the one passage that was supplied,
/// else nothing.
pub open spec fn citation_target(
    name: Seq<char>,
    numbered: Seq<Evidence>,
    known: Seq<Evidence>,
) -> Seq<char> {
    let prefix = name.take(hex_end(name, 0));
    let cited = beginning_with(numbered, prefix);
    let given = beginning_with(known, prefix);
    if prefix.len() < 8 {
        Seq::empty()
    } else if cited.len() == 1 {
        footnote((cited[0] + 1) as nat)
    } else if given.len() == 1 {
        "`"@ + file_name(known[given[0] as int].path@) + "`"@
    } else {
        Seq::empty()
    }
}

/// A warning with its citations resolved, from position `from` on. Those in
/// code stay.
pub open spec fn resolved_warning(
    s: Seq<char>,
    literals: Seq<Extent>,
    numbered: Seq<Evidence>,
    known: Seq<Evidence>,
    from: int,
) -> Seq<char>
    decreases s.len() - from,
{
    if from < 0 || from >= s.len() {
        Seq::empty()
    } else {
        match citation_end(s, from) {
            Some(end) if from < end <= s.len() => (if within(literals, from) {
                s.subrange(from, end)
            } else {
                citation_target(s.subrange(from + 3, end - 1), numbered, known)
            }) + resolved_warning(s, literals, numbered, known, end),
            _ => seq![s[from]] + resolved_warning(s, literals, numbered, known, from + 1),
        }
    }
}

/// The passages supplied to all sections.
fn all_supplied(sections: &[Section]) -> (r: Vec<&Evidence>)
    ensures
        passages(r@) == supplied(sections@, sections@.len()),
{
    let mut r: Vec<&Evidence> = Vec::new();
    let mut i: usize = 0;
    assert(passages(r@) =~= Seq::empty());
    while i < sections.len()
        invariant
            i <= sections@.len(),
            passages(r@) == supplied(sections@, i as nat),
        decreases sections@.len() - i,
    {
        let section = &sections[i];
        let ghost before = passages(r@);
        let mut e: usize = 0;
        assert(before + section.evidence@.take(0) =~= before);
        while e < section.evidence.len()
            invariant
                e <= section.evidence@.len(),
                passages(r@) == before + section.evidence@.take(e as int),
            decreases section.evidence@.len() - e,
        {
            let passage = &section.evidence[e];
            proof {
                assert(passages(r@.push(passage)) =~= passages(r@).push(*passage));
                assert(before + section.evidence@.take(e + 1) =~= (before + section.evidence@.take(
                    e as int,
                )).push(*passage));
            }
            r.push(passage);
            e += 1;
        }
        assert(section.evidence@.take(e as int) =~= section.evidence@);
        i += 1;
    }
    r
}

/// The position of the one passage whose id begins with `prefix`.
fn only_match(list: &Vec<&Evidence>, prefix: &str) -> (r: Option<usize>)
    ensures
        ({
            let found = beginning_with(passages(list@), prefix@);
            if found.len() == 1 {
                r == Some(found[0])
            } else {
                r is None
            }
        }),
        r matches Some(i) ==> i < list@.len(),
{
    let ghost all = passages(list@);
    let ghost keep = |i: int| starts_with(all[i].id@, prefix@);
    let mut matches: usize = 0;
    let mut last: usize = 0;
    let mut i: usize = 0;
    while i < list.len()
        invariant
            i <= list@.len(),
            all == passages(list@),
            keep == (|i: int| starts_with(all[i].id@, prefix@)),
            matches == positions(keep, i as nat).len(),
            matches <= i,
            matches > 0 ==> last == positions(keep, i as nat).last() && last < i,
        decreases list@.len() - i,
    {
        assert(all[i as int] == *list@[i as int]);
        if has_prefix(list[i].id.as_str(), prefix) {
            matches += 1;
            last = i;
        }
        i += 1;
    }
    if matches == 1 {
        Some(last)
    } else {
        None
    }
}

/// What stands behind the last slash is the file name.
proof fn lemma_file_name(path: Seq<char>, at: int)
    requires
        0 <= at < path.len(),
        path[at] == '/',
        forall|k: int| at < k < path.len() ==> path[k] != '/',
    ensures
        file_name(path) == path.skip(at + 1),
    decreases path.len(),
{
    assert(path.contains('/'));
    if at == 0 {
        assert(!path.skip(1).contains('/'));
    } else {
        let t = path.skip(1);
        assert(t[at - 1] == '/');
        assert(t.contains('/'));
        lemma_file_name(t, at - 1);
        assert(t.skip(at) =~= path.skip(at + 1));
    }
}

/// The last part of a path.
pub fn base_name(path: &str) -> (r: String)
    ensures
        r@ == file_name(path@),
{
    let chars = to_chars(path);
    let n: usize = chars.len();
    let mut i: usize = n;
    while i > 0
        invariant
            i <= n == chars@.len(),
            chars@ == path@,
            forall|k: int| i <= k < n ==> chars@[k] != '/',
        decreases i,
    {
        if chars[i - 1] == '/' {
            proof {
                lemma_file_name(path@, i - 1);
                assert(path@.subrange(i as int, n as int) =~= path@.skip(i as int));
            }
            return slice(chars.as_slice(), i, n);
        }
        i -= 1;
    }
    assert(!path@.contains('/'));
    String::from_str(path)
}

/// What stands in a warning for a citation.
fn resolve_target(name: &str, numbered: &Vec<&Evidence>, known: &Vec<&Evidence>) -> (r: String)
    ensures
        r@ == citation_target(name@, passages(numbered@), passages(known@)),
{
    let chars = to_chars(name);
    let mut end: usize = 0;
    while end < chars.len() && (('0' <= chars[end] && chars[end] <= '9') || ('a' <= chars[end]
        && chars[end] <= 'f') || ('A' <= chars[end] && chars[end] <= 'F'))
        invariant
            end <= chars@.len(),
            chars@ == name@,
            hex_end(name@, end as int) == hex_end(name@, 0),
        decreases chars@.len() - end,
    {
        end += 1;
    }
    if end < 8 {
        return String::new();
    }
    let prefix = slice(chars.as_slice(), 0, end);
    assert(name@.subrange(0, end as int) =~= name@.take(end as int));
    if let Some(i) = only_match(numbered, prefix.as_str()) {
        assert(i < numbered.len());
        return footnote_text(i + 1);
    }
    match only_match(known, prefix.as_str()) {
        Some(i) => {
            assert(passages(known@)[i as int] == *known@[i as int]);
            let mut s = String::from_str("`");
            s.push_str(base_name(known[i].path.as_str()).as_str());
            s.push_str("`");
            s
        },
        None => String::new(),
    }
}

/// Points a review warning at the footnotes of the body. A passage that the
/// body cites becomes its footnote, one that it does not becomes the file name,
/// and a prefix that names nothing is dropped.
pub fn warning_citations(warning: &str, sections: &[Section]) -> (r: String)
    ensures
        r@ == resolved_warning(
            warning@,
            code(warning@),
            cited_in(sections@, sections@.len()),
            supplied(sections@, sections@.len()),
            0,
        ),
{
    let chars = to_chars(warning);
    let n: usize = chars.len();
    let open = to_chars("[E:");
    let numbered = cited(sections);
    let known = all_supplied(sections);
    let literals = find_code(chars.as_slice());
    let ghost s = warning@;
    let ghost lits = code(s);
    let ghost a = passages(numbered@);
    let ghost b = passages(known@);
    let ghost goal = resolved_warning(s, lits, a, b, 0);
    let mut out = String::new();
    let mut from: usize = 0;
    proof {
        reveal_strlit("[E:");
        assert(out@ + goal =~= goal);
    }
    while from < n
        invariant
            from <= n == s.len(),
            chars@ == s,
            open@ == "[E:"@,
            open@.len() == 3,
            extents(literals@) == lits,
            a == passages(numbered@),
            b == passages(known@),
            out@ + resolved_warning(s, lits, a, b, from as int) == goal,
        decreases n - from,
    {
        let mut end: usize = 0;
        if matches_at(chars.as_slice(), open.as_slice(), from) {
            let mut close: usize = from + 3;
            while close < n && chars[close] != ']'
                invariant
                    from + 3 <= close <= n == s.len(),
                    chars@ == s,
                    next_at(s, ']', close as int) == next_at(s, ']', from + 3),
                decreases n - close,
            {
                close += 1;
            }
            if close < n && close - (from + 3) >= 1 && close - (from + 3) <= 400 {
                end = close + 1;
            }
        }
        let ghost before = out@;
        if end > 0 {
            assert(citation_end(s, from as int) == Some(end as int));
            if lies_within(&literals, from) {
                let kept = slice(chars.as_slice(), from, end);
                out.push_str(kept.as_str());
            } else {
                let name = slice(chars.as_slice(), from + 3, end - 1);
                let target = resolve_target(name.as_str(), &numbered, &known);
                out.push_str(target.as_str());
            }
            proof {
                let rest = resolved_warning(s, lits, a, b, end as int);
                let put = if within(lits, from as int) {
                    s.subrange(from as int, end as int)
                } else {
                    citation_target(s.subrange(from + 3, end - 1), a, b)
                };
                assert(out@ == before + put);
                assert(out@ + rest =~= before + (put + rest));
            }
            from = end;
        } else {
            out.push(chars[from]);
            proof {
                let rest = resolved_warning(s, lits, a, b, from + 1);
                assert(out@ + rest =~= before + (seq![s[from as int]] + rest));
            }
            from += 1;
        }
    }
    assert(out@ + resolved_warning(s, lits, a, b, from as int) =~= out@);
    out
}

// ---------------------------------------------------------------------------
// Requests
// ---------------------------------------------------------------------------

/// A text put into an ordered list, once.
pub open spec fn insert_text(list: Seq<Seq<char>>, s: Seq<char>) -> Seq<Seq<char>>
    decreases list.len(),
{
    if list.len() == 0 {
        seq![s]
    } else if list.last() == s {
        list
    } else if precedes(list.last(), s) {
        list.push(s)
    } else {
        insert_text(list.drop_last(), s).push(list.last())
    }
}

/// The id of a passage that a value describes: one with a path, and with its
/// content or marked as read before, named by a whole hash.
pub open spec fn passage_id(m: JsonModel) -> Option<Seq<char>> {
    match m.text("id"@) {
        Some(id) if m.get("path"@) is Some && (m.get("content"@) is Some || m.get(
            "previously_read"@,
        ) == Some(JsonModel::Bool(true))) && id.len() == 64 && is_id(id) => Some(id),
        _ => None,
    }
}

/// The ids of the passages that a value describes, in order and each once.
pub open spec fn collect_ids(m: JsonModel, found: Seq<Seq<char>>) -> Seq<Seq<char>>
    decreases m, 0nat,
{
    match m {
        JsonModel::Arr(items) => collect_items(items, items.len(), found),
        JsonModel::Obj(members) => {
            let here = match passage_id(m) {
                Some(id) => insert_text(found, id),
                None => found,
            };
            collect_members(members, members.len(), here)
        },
        _ => found,
    }
}

/// The ids in the first `count` items of an array.
pub open spec fn collect_items(
    items: Seq<JsonModel>,
    count: nat,
    found: Seq<Seq<char>>,
) -> Seq<Seq<char>>
    decreases items, count,
{
    if count == 0 || count > items.len() {
        found
    } else {
        collect_ids(items[count - 1], collect_items(items, (count - 1) as nat, found))
    }
}

/// The ids in the first `count` members of an object.
pub open spec fn collect_members(
    members: Seq<MemberModel>,
    count: nat,
    found: Seq<Seq<char>>,
) -> Seq<Seq<char>>
    decreases members, count,
{
    if count == 0 || count > members.len() {
        found
    } else {
        collect_ids(
            members[count - 1].value,
            collect_members(members, (count - 1) as nat, found),
        )
    }
}

/// Another id begins with the first `length` characters of this one.
pub open spec fn shared_beginning(ids: Seq<Seq<char>>, id: Seq<char>, length: int) -> bool {
    exists|k: int|
        0 <= k < ids.len() && #[trigger] ids[k] != id && starts_with(ids[k], id.take(length))
}

/// How much of an id tells it from the others, from `length` characters on.
pub open spec fn alias_length(ids: Seq<Seq<char>>, id: Seq<char>, length: int) -> int
    decreases id.len() - length,
{
    if 0 <= length < id.len() && shared_beginning(ids, id, length) {
        alias_length(ids, id, length + 1)
    } else {
        length
    }
}

/// The alias of an id: eight characters, or as many more as it takes to tell it
/// from the others.
pub open spec fn alias(ids: Seq<Seq<char>>, id: Seq<char>) -> Seq<char> {
    id.take(alias_length(ids, id, 8))
}

/// A text with the first `count` ids as aliases: one that is an id becomes the
/// alias, and citations in others are shortened.
pub open spec fn aliased(text: Seq<char>, ids: Seq<Seq<char>>, count: nat) -> Seq<char>
    decreases count,
{
    if count == 0 {
        text
    } else {
        let t = aliased(text, ids, (count - 1) as nat);
        let id = ids[count - 1];
        if t == id {
            alias(ids, id)
        } else {
            replaced(t, citation(id), citation(alias(ids, id)), 0)
        }
    }
}

/// A value with the ids in its texts as aliases. The content of passages stays.
pub open spec fn compacted(m: JsonModel, ids: Seq<Seq<char>>) -> JsonModel
    decreases m,
{
    match m {
        JsonModel::Str(s) => JsonModel::Str(aliased(s, ids, ids.len())),
        JsonModel::Arr(items) => JsonModel::Arr(
            Seq::new(
                items.len(),
                |i: int|
                    if 0 <= i < items.len() {
                        compacted(items[i], ids)
                    } else {
                        JsonModel::Null
                    },
            ),
        ),
        JsonModel::Obj(members) => JsonModel::Obj(
            Seq::new(
                members.len(),
                |i: int|
                    if 0 <= i < members.len() && members[i].name != "content"@ {
                        MemberModel {
                            name: members[i].name,
                            value: compacted(members[i].value, ids),
                        }
                    } else {
                        members[i]
                    },
            ),
        ),
        _ => m,
    }
}

proof fn lemma_alias_length(ids: Seq<Seq<char>>, id: Seq<char>, length: int)
    requires
        0 <= length <= id.len(),
    ensures
        length <= alias_length(ids, id, length) <= id.len(),
        alias_length(ids, id, length) < id.len() ==> !shared_beginning(
            ids,
            id,
            alias_length(ids, id, length),
        ),
    decreases id.len() - length,
{
    if length < id.len() && shared_beginning(ids, id, length) {
        lemma_alias_length(ids, id, length + 1);
    }
}

/// Aliases are unique: of ids of one length, none but its own begins with the
/// alias of another.
pub proof fn aliases_are_unique(ids: Seq<Seq<char>>, i: int, j: int)
    requires
        0 <= i < ids.len(),
        0 <= j < ids.len(),
        ids[i] != ids[j],
        ids[i].len() == ids[j].len(),
        8 <= ids[i].len(),
    ensures
        starts_with(ids[i], alias(ids, ids[i])),
        !starts_with(ids[j], alias(ids, ids[i])),
        alias(ids, ids[i]) != alias(ids, ids[j]),
{
    let a = ids[i];
    let b = ids[j];
    lemma_alias_length(ids, a, 8);
    lemma_alias_length(ids, b, 8);
    let n = alias_length(ids, a, 8);
    let m = alias_length(ids, b, 8);
    assert(a.subrange(0, n) =~= a.take(n));
    assert(b.subrange(0, m) =~= b.take(m));
    if starts_with(b, a.take(n)) {
        if n < a.len() {
            assert(ids[j] != a && starts_with(ids[j], a.take(n)));
            assert(shared_beginning(ids, a, n));
        } else {
            assert(b.subrange(0, n) =~= b);
            assert(a.take(n) =~= a);
        }
    }
    assert(starts_with(b, alias(ids, b)));
}

/// A citation by its alias names its passage: where the supplied passages have
/// distinct hashes for ids, and all of them are among the ids that were
/// shortened, each alias resolves to the id that it was made of.
pub proof fn aliases_resolve(ids: Seq<Seq<char>>, known: Seq<Seq<char>>, at: int)
    requires
        0 <= at < known.len() <= usize::MAX,
        known.no_duplicates(),
        forall|k: int| 0 <= k < known.len() ==> ids.contains(#[trigger] known[k]),
        forall|k: int|
            0 <= k < known.len() ==> (#[trigger] known[k]).len() == 64 && is_id(known[k]),
    ensures
        resolve(seq![alias(ids, known[at])], known, 1) == Ok::<Seq<Seq<char>>, IdFault>(
            seq![known[at]],
        ),
{
    let full = known[at];
    let id = alias(ids, full);
    lemma_alias_length(ids, full, 8);
    let n = alias_length(ids, full, 8);
    assert(full.len() == 64);
    assert(is_id(id)) by {
        assert forall|k: int| 0 <= k < id.len() implies is_hex_digit(#[trigger] id[k]) by {
            assert(id[k] == full[k]);
        }
    }
    let keep = |i: int| starts_with(known[i], id);
    assert(full.subrange(0, n) =~= full.take(n));
    assert(keep(at));
    assert forall|k: int| 0 <= k < known.len() && #[trigger] keep(k) implies k == at by {
        if k != at {
            assert(known[k] != known[at]);
            assert(ids.contains(known[k]) && ids.contains(known[at]));
            let a = choose|a: int| 0 <= a < ids.len() && ids[a] == known[at];
            let b = choose|b: int| 0 <= b < ids.len() && ids[b] == known[k];
            assert(known[k].len() == 64);
            aliases_are_unique(ids, a, b);
        }
    }
    lemma_one_position(keep, known.len(), at);
    assert(named_by(known, id) == seq![at as usize]);
    let list = seq![id];
    assert(resolve(list, known, 0) == Ok::<Seq<Seq<char>>, IdFault>(Seq::empty()));
    assert(Seq::<Seq<char>>::empty().push(full) =~= seq![full]);
}

/// The end of the ordered list at which a text goes in.
proof fn lemma_insert_text(list: Seq<Seq<char>>, s: Seq<char>, at: int)
    requires
        0 <= at <= list.len(),
        forall|k: int|
            at <= k < list.len() ==> #[trigger] list[k] != s && !precedes(list[k], s),
        at > 0 ==> list[at - 1] == s || precedes(list[at - 1], s),
    ensures
        insert_text(list, s) == (if at > 0 && list[at - 1] == s {
            list
        } else {
            list.insert(at, s)
        }),
    decreases list.len(),
{
    if at == list.len() {
        if at == 0 {
            assert(list.insert(at, s) =~= seq![s]);
        } else {
            assert(list.insert(at, s) =~= list.push(s));
        }
    } else {
        let t = list.drop_last();
        assert(list[list.len() - 1] != s);
        lemma_insert_text(t, s, at);
        if at > 0 && list[at - 1] == s {
            assert(t.push(list.last()) =~= list);
        } else {
            assert(t.insert(at, s).push(list.last()) =~= list.insert(at, s));
        }
    }
}

/// Puts a text into an ordered list, once.
fn put_text(list: &mut Vec<String>, s: &str)
    ensures
        texts(final(list)@) == insert_text(texts(old(list)@), s@),
{
    let ghost all = texts(list@);
    let mut at: usize = list.len();
    while at > 0
        invariant
            at <= list@.len(),
            all == texts(list@),
            list@ == old(list)@,
            forall|k: int|
                at <= k < all.len() ==> #[trigger] all[k] != s@ && !precedes(all[k], s@),
        decreases at,
    {
        assert(all[at - 1] == list@[at - 1]@);
        if same(list[at - 1].as_str(), s) {
            proof {
                lemma_insert_text(all, s@, at as int);
            }
            return ;
        }
        if before(list[at - 1].as_str(), s) {
            proof {
                lemma_insert_text(all, s@, at as int);
            }
            let item = String::from_str(s);
            assert(texts(list@.insert(at as int, item)) =~= all.insert(at as int, s@));
            list.insert(at, item);
            return ;
        }
        at -= 1;
    }
    proof {
        lemma_insert_text(all, s@, 0);
    }
    let item = String::from_str(s);
    assert(texts(list@.insert(0, item)) =~= all.insert(0, s@));
    list.insert(0, item);
}

/// Whether a text is a whole hash.
fn is_whole_id(id: &str) -> (r: bool)
    ensures
        r == (id@.len() == 64 && is_id(id@)),
{
    let chars = to_chars(id);
    if chars.len() != 64 {
        return false;
    }
    let mut i: usize = 0;
    while i < chars.len()
        invariant
            i <= chars@.len() == 64,
            chars@ == id@,
            forall|k: int| 0 <= k < i ==> is_hex_digit(#[trigger] chars@[k]),
        decreases chars@.len() - i,
    {
        let c = chars[i];
        if !(('0' <= c && c <= '9') || ('a' <= c && c <= 'f') || ('A' <= c && c <= 'F')) {
            assert(!is_hex_digit(id@[i as int]));
            return false;
        }
        i += 1;
    }
    true
}

/// Adds the ids of the passages that a value describes.
pub fn gather_ids(value: &Json, found: &mut Vec<String>)
    ensures
        texts(final(found)@) == collect_ids(value@, texts(old(found)@)),
    decreases value,
{
    match value {
        Json::Arr(items) => {
            proof {
                lemma_arr(*items);
            }
            let ghost ms = models(items@);
            let ghost start = texts(found@);
            let mut i: usize = 0;
            while i < items.len()
                invariant
                    i <= items@.len(),
                    *value == Json::Arr(*items),
                    ms == models(items@),
                    texts(found@) == collect_items(ms, i as nat, start),
                decreases items@.len() - i,
            {
                proof {
                    assert(decreases_to!(*value => value->Arr_0));
                    assert(decreases_to!(*value => value->Arr_0@[i as int]));
                }
                gather_ids(&items[i], found);
                i += 1;
            }
        },
        Json::Obj(members) => {
            proof {
                lemma_obj(*members);
            }
            let ghost ms = member_models(members@);
            if let Some(id) = value.text("id") {
                let read = match value.get("previously_read") {
                    Some(Json::Bool(b)) => *b,
                    _ => false,
                };
                if value.get("path").is_some() && (value.get("content").is_some() || read)
                    && is_whole_id(id) {
                    put_text(found, id);
                }
            }
            let ghost start = texts(found@);
            let mut i: usize = 0;
            while i < members.len()
                invariant
                    i <= members@.len(),
                    *value == Json::Obj(*members),
                    ms == member_models(members@),
                    texts(found@) == collect_members(ms, i as nat, start),
                decreases members@.len() - i,
            {
                proof {
                    assert(decreases_to!(*value => value->Obj_0));
                    assert(decreases_to!(*value => value->Obj_0@[i as int]));
                    assert(decreases_to!(*value => value->Obj_0@[i as int].value));
                }
                gather_ids(&members[i].value, found);
                i += 1;
            }
        },
        _ => {},
    }
}

/// The alias of an id.
fn alias_of(ids: &Vec<String>, id: &str) -> (r: String)
    requires
        id@.len() >= 8,
    ensures
        r@ == alias(texts(ids@), id@),
{
    let chars = to_chars(id);
    let ghost all = texts(ids@);
    let mut length: usize = 8;
    loop
        invariant
            8 <= length <= chars@.len(),
            chars@ == id@,
            all == texts(ids@),
            alias_length(all, id@, length as int) == alias_length(all, id@, 8),
        ensures
            8 <= length <= chars@.len(),
            length == alias_length(all, id@, 8),
        decreases chars@.len() - length,
    {
        if length == chars.len() {
            break;
        }
        let head = slice(chars.as_slice(), 0, length);
        assert(head@ =~= id@.take(length as int));
        let mut shared = false;
        let mut k: usize = 0;
        while k < ids.len()
            invariant
                k <= ids@.len(),
                all == texts(ids@),
                head@ == id@.take(length as int),
                shared ==> shared_beginning(all, id@, length as int),
                !shared ==> forall|j: int|
                    0 <= j < k ==> !(#[trigger] all[j] != id@ && starts_with(all[j], head@)),
            decreases ids@.len() - k,
        {
            assert(all[k as int] == ids@[k as int]@);
            if !same(ids[k].as_str(), id) && has_prefix(ids[k].as_str(), head.as_str()) {
                shared = true;
            }
            k += 1;
        }
        if !shared {
            assert(!shared_beginning(all, id@, length as int));
            break;
        }
        length += 1;
    }
    let r = slice(chars.as_slice(), 0, length);
    assert(r@ =~= id@.take(length as int));
    r
}

/// A text with the ids as aliases.
fn alias_text(text: &str, ids: &Vec<String>) -> (r: String)
    requires
        forall|i: int| 0 <= i < ids@.len() ==> (#[trigger] ids@[i])@.len() >= 8,
    ensures
        r@ == aliased(text@, texts(ids@), ids@.len()),
{
    let ghost all = texts(ids@);
    let mut out = String::from_str(text);
    let mut i: usize = 0;
    while i < ids.len()
        invariant
            i <= ids@.len(),
            all == texts(ids@),
            forall|i: int| 0 <= i < ids@.len() ==> (#[trigger] ids@[i])@.len() >= 8,
            out@ == aliased(text@, all, i as nat),
        decreases ids@.len() - i,
    {
        assert(all[i as int] == ids@[i as int]@);
        let short = alias_of(ids, ids[i].as_str());
        if same(out.as_str(), ids[i].as_str()) {
            out = short;
        } else {
            let from = citation_text(ids[i].as_str());
            let to = citation_text(short.as_str());
            out = replace_all(out.as_str(), from.as_str(), to.as_str());
        }
        i += 1;
    }
    out
}

/// Rewrites ids to the aliases that they would be sent as. Every id has at least
/// eight characters.
pub fn compact_against(value: &Json, ids: &Vec<String>) -> (r: Json)
    requires
        forall|i: int| 0 <= i < ids@.len() ==> (#[trigger] ids@[i])@.len() >= 8,
    ensures
        r@ == compacted(value@, texts(ids@)),
    decreases value,
{
    match value {
        Json::Str(s) => Json::Str(alias_text(s.as_str(), ids)),
        Json::Arr(items) => {
            proof {
                lemma_arr(*items);
            }
            let ghost ms = models(items@);
            let ghost goal = compacted(value@, texts(ids@))->Arr_0;
            let mut list: Vec<Json> = Vec::new();
            let mut i: usize = 0;
            assert(models(list@) =~= goal.take(0));
            while i < items.len()
                invariant
                    i <= items@.len(),
                    *value == Json::Arr(*items),
                    ms == models(items@),
                    value@ == JsonModel::Arr(ms),
                    forall|i: int| 0 <= i < ids@.len() ==> (#[trigger] ids@[i])@.len() >= 8,
                    goal == compacted(value@, texts(ids@))->Arr_0,
                    models(list@) == goal.take(i as int),
                decreases items@.len() - i,
            {
                proof {
                    assert(decreases_to!(*value => value->Arr_0));
                    assert(decreases_to!(*value => value->Arr_0@[i as int]));
                }
                let item = compact_against(&items[i], ids);
                proof {
                    assert(ms[i as int] == items@[i as int]@);
                    assert(goal[i as int] == item@);
                    assert(models(list@.push(item)) =~= models(list@).push(item@));
                    assert(goal.take(i + 1) =~= goal.take(i as int).push(item@));
                }
                list.push(item);
                i += 1;
            }
            assert(goal.take(i as int) =~= goal);
            Json::array(list)
        },
        Json::Obj(members) => {
            proof {
                lemma_obj(*members);
            }
            let ghost ms = member_models(members@);
            let ghost goal = compacted(value@, texts(ids@))->Obj_0;
            let mut list: Vec<Member> = Vec::new();
            let mut i: usize = 0;
            assert(member_models(list@) =~= goal.take(0));
            while i < members.len()
                invariant
                    i <= members@.len(),
                    *value == Json::Obj(*members),
                    ms == member_models(members@),
                    value@ == JsonModel::Obj(ms),
                    forall|i: int| 0 <= i < ids@.len() ==> (#[trigger] ids@[i])@.len() >= 8,
                    goal == compacted(value@, texts(ids@))->Obj_0,
                    member_models(list@) == goal.take(i as int),
                decreases members@.len() - i,
            {
                proof {
                    assert(decreases_to!(*value => value->Obj_0));
                    assert(decreases_to!(*value => value->Obj_0@[i as int]));
                    assert(decreases_to!(*value => value->Obj_0@[i as int].value));
                    assert(ms[i as int].name == members@[i as int].name@);
                    assert(ms[i as int].value == members@[i as int].value@);
                }
                let inner = if same(members[i].name.as_str(), "content") {
                    members[i].value.copy()
                } else {
                    compact_against(&members[i].value, ids)
                };
                let item = Member { name: members[i].name.clone(), value: inner };
                proof {
                    let mm = MemberModel { name: item.name@, value: item.value@ };
                    assert(goal[i as int] == mm);
                    assert(member_models(list@.push(item)) =~= member_models(list@).push(mm));
                    assert(goal.take(i + 1) =~= goal.take(i as int).push(mm));
                }
                list.push(item);
                i += 1;
            }
            assert(goal.take(i as int) =~= goal);
            Json::object(list)
        },
        _ => value.copy(),
    }
}

/// Every text of the list has at least eight characters.
pub open spec fn long_enough(list: Seq<Seq<char>>) -> bool {
    forall|i: int| 0 <= i < list.len() ==> (#[trigger] list[i]).len() >= 8
}

proof fn lemma_insert_long(list: Seq<Seq<char>>, s: Seq<char>)
    requires
        long_enough(list),
        s.len() >= 8,
    ensures
        long_enough(insert_text(list, s)),
    decreases list.len(),
{
    if list.len() > 0 && list.last() != s && !precedes(list.last(), s) {
        lemma_insert_long(list.drop_last(), s);
    }
}

proof fn lemma_collect_long(m: JsonModel, found: Seq<Seq<char>>)
    requires
        long_enough(found),
    ensures
        long_enough(collect_ids(m, found)),
    decreases m, 0nat,
{
    match m {
        JsonModel::Arr(items) => {
            lemma_collect_items_long(items, items.len(), found);
        },
        JsonModel::Obj(members) => {
            if let Some(id) = passage_id(m) {
                lemma_insert_long(found, id);
                lemma_collect_members_long(members, members.len(), insert_text(found, id));
            } else {
                lemma_collect_members_long(members, members.len(), found);
            }
        },
        _ => {},
    }
}

proof fn lemma_collect_items_long(items: Seq<JsonModel>, count: nat, found: Seq<Seq<char>>)
    requires
        long_enough(found),
        count <= items.len(),
    ensures
        long_enough(collect_items(items, count, found)),
    decreases items, count,
{
    if count > 0 {
        lemma_collect_items_long(items, (count - 1) as nat, found);
        lemma_collect_long(items[count - 1], collect_items(items, (count - 1) as nat, found));
    }
}

proof fn lemma_collect_members_long(members: Seq<MemberModel>, count: nat, found: Seq<Seq<char>>)
    requires
        long_enough(found),
        count <= members.len(),
    ensures
        long_enough(collect_members(members, count, found)),
    decreases members, count,
{
    if count > 0 {
        lemma_collect_members_long(members, (count - 1) as nat, found);
        lemma_collect_long(
            members[count - 1].value,
            collect_members(members, (count - 1) as nat, found),
        );
    }
}

/// Shows short, unique citation ids in place of hashes.
pub fn compact_evidence_ids(input: &Json) -> (r: Json)
    ensures
        r@ == compacted(input@, collect_ids(input@, Seq::empty())),
{
    let mut ids: Vec<String> = Vec::new();
    assert(texts(ids@) =~= Seq::empty());
    gather_ids(input, &mut ids);
    proof {
        lemma_collect_long(input@, Seq::empty());
        assert forall|i: int| 0 <= i < ids@.len() implies (#[trigger] ids@[i])@.len() >= 8 by {
            assert(texts(ids@)[i].len() >= 8);
        }
    }
    compact_against(input, &ids)
}

} // verus!
