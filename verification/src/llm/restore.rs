//! Reading a rendered message back: the JSON that it was built from, with the
//! text of its passages in place.

use vstd::prelude::*;
use vstd::string::StringExecFns;

use super::request::{attribute, blocks_text, is_passage, more_attributes, passage_block};
use crate::json::{
    field, json_value, lemma_arr, lemma_obj, lookup, member, member_models, models, nat_model, parse_json,
    parse_natural, text_of, Json, JsonModel, Member, MemberModel,
};
use crate::text::{
    contains, find_from, first_at, is_hex_digit, lemma_first_at, number, occurs_at, replace_all, replaced, same,
    slice, to_chars,
};

verus! {

/// Why a message could not be read back.
#[derive(Clone, Copy, Debug, PartialEq, Eq, Structural)]
pub enum RestoreFault {
    /// What stands before the passages is no JSON.
    Json,
    /// The header of a passage does not end.
    Header,
    /// A passage has no id.
    Id,
    /// A passage does not end.
    Close,
}

/// The value of an attribute, as it was before it was escaped.
pub open spec fn unescaped(s: Seq<char>) -> Seq<char> {
    replaced(replaced(s, "&quot;"@, "\""@, 0), "&amp;"@, "&"@, 0)
}

/// An attribute in the header of a passage.
pub open spec fn header_value(header: Seq<char>, name: Seq<char>) -> Option<Seq<char>> {
    match first_at(header, " "@ + name + "=\""@, 0) {
        None => None,
        Some(at) => {
            let start = at + name.len() + 3;
            match first_at(header, "\""@, start) {
                None => None,
                Some(end) => Some(unescaped(header.subrange(start, end))),
            }
        },
    }
}

/// How a passage with an id ends.
pub open spec fn closing(id: Seq<char>) -> Seq<char> {
    "\n</passage id=\""@ + replaced(id, "\""@, "&quot;"@, 0) + "\">"@
}

/// A number as it is written, perhaps with a sign, and 0 where it is none.
pub open spec fn number_or_zero(s: Seq<char>) -> nat {
    let digits = if s.len() > 0 && s[0] == '+' {
        s.skip(1)
    } else {
        s
    };
    match JsonModel::Num(digits).natural() {
        Some(n) => n as nat,
        None => 0,
    }
}

/// A text, or null.
pub open spec fn string_or_null(s: Option<Seq<char>>) -> JsonModel {
    match s {
        Some(s) => JsonModel::Str(s),
        None => JsonModel::Null,
    }
}

/// The first and the last line of a passage.
pub open spec fn line_range(lines: Option<Seq<char>>) -> (nat, nat) {
    let s = match lines {
        Some(s) => s,
        None => Seq::empty(),
    };
    match first_at(s, "-"@, 0) {
        Some(at) => (number_or_zero(s.take(at)), number_or_zero(s.skip(at + 1))),
        None => (0, 0),
    }
}

/// A passage that was read back.
pub struct PassageModel {
    pub id: Seq<char>,
    pub record: JsonModel,
}

/// A passage with a header and a text.
pub open spec fn passage_read(header: Seq<char>, id: Seq<char>, content: Seq<char>) -> PassageModel {
    let (start, end) = line_range(header_value(header, "lines"@));
    PassageModel {
        id,
        record: JsonModel::Obj(
            seq![
                field("content"@, JsonModel::Str(content)),
                field("end"@, nat_model(end)),
                field("id"@, JsonModel::Str(id)),
                field("path"@, string_or_null(header_value(header, "path"@))),
                field(
                    "runtime_allowed"@,
                    match header_value(header, "runtime_allowed"@) {
                        Some(v) => JsonModel::Bool(v == "true"@),
                        None => JsonModel::Null,
                    },
                ),
                field("start"@, nat_model(start)),
            ],
        ),
    }
}

/// What is found of the passages from some place on.
pub enum Found {
    /// There is none.
    Nothing,
    /// One cannot be read.
    Broken(RestoreFault),
    /// A passage, and the place behind it.
    Passage(PassageModel, int),
}

/// The next passage from a place on.
#[verifier::opaque]
pub open spec fn next_passage(s: Seq<char>, from: int) -> Found {
    match first_at(s, "<passage id=\""@, from) {
        None => Found::Nothing,
        Some(open) => match first_at(s, ">\n"@, open) {
            None => Found::Broken(RestoreFault::Header),
            Some(stop) => {
                let header = s.subrange(open, stop);
                match header_value(header, "id"@) {
                    None => Found::Broken(RestoreFault::Id),
                    Some(id) => match first_at(s, closing(id), stop + 2) {
                        None => Found::Broken(RestoreFault::Close),
                        Some(end) => Found::Passage(
                            passage_read(header, id, s.subrange(stop + 2, end)),
                            end + closing(id).len(),
                        ),
                    },
                }
            },
        },
    }
}

/// The passages from a place on.
pub open spec fn passages_from(s: Seq<char>, from: int) -> Result<Seq<PassageModel>, RestoreFault>
    decreases s.len() - from,
{
    match next_passage(s, from) {
        Found::Nothing => Ok(Seq::empty()),
        Found::Broken(f) => Err(f),
        Found::Passage(p, next) => if from < next <= s.len() {
            match passages_from(s, next) {
                Ok(rest) => Ok(seq![p] + rest),
                Err(f) => Err(f),
            }
        } else {
            Ok(seq![p])
        },
    }
}

/// The record of the last passage with an id.
pub open spec fn passage_with(list: Seq<PassageModel>, id: Seq<char>) -> Option<JsonModel>
    decreases list.len(),
{
    if list.len() == 0 {
        None
    } else if list.last().id == id {
        Some(list.last().record)
    } else {
        passage_with(list.drop_last(), id)
    }
}

/// A value stands for a passage that was sent.
pub open spec fn stands_for(m: JsonModel, list: Seq<PassageModel>) -> Option<JsonModel> {
    match m.text("passage"@) {
        Some(id) => passage_with(list, id),
        None => None,
    }
}

/// A value with passages in place of what stands for them.
pub open spec fn restored(m: JsonModel, list: Seq<PassageModel>) -> JsonModel
    decreases m,
{
    match m {
        JsonModel::Arr(items) => JsonModel::Arr(
            Seq::new(
                items.len(),
                |i: int|
                    if 0 <= i < items.len() {
                        restored(items[i], list)
                    } else {
                        JsonModel::Null
                    },
            ),
        ),
        JsonModel::Obj(members) => match stands_for(m, list) {
            Some(record) => record,
            None => JsonModel::Obj(
                Seq::new(
                    members.len(),
                    |i: int|
                        if 0 <= i < members.len() {
                            MemberModel {
                                name: members[i].name,
                                value: restored(members[i].value, list),
                            }
                        } else {
                            MemberModel { name: Seq::empty(), value: JsonModel::Null }
                        },
                ),
            ),
        },
        _ => m,
    }
}

/// The JSON that a message was built from.
pub open spec fn input_of(content: Seq<char>) -> Result<JsonModel, RestoreFault> {
    let (head, rest) = match first_at(content, "\n\n"@, 0) {
        Some(at) => (content.take(at), content.skip(at + 2)),
        None => (content, Seq::empty()),
    };
    match json_value(head) {
        Err(_) => Err(RestoreFault::Json),
        Ok(value) => match passages_from(rest, 0) {
            Err(f) => Err(f),
            Ok(list) => Ok(restored(value, list)),
        },
    }
}

// ---------------------------------------------------------------------------
// Laws
// ---------------------------------------------------------------------------

proof fn lemma_found(s: Seq<char>, part: Seq<char>, from: int, at: int)
    requires
        0 <= from <= at,
        occurs_at(s, part, at),
        forall|k: int| from <= k < at ==> !occurs_at(s, part, k),
    ensures
        first_at(s, part, from) == Some(at),
    decreases at - from,
{
    if from < at {
        lemma_found(s, part, from + 1, at);
    }
}

/// Replacing goes through a text from its beginning.
proof fn lemma_replaced_step(s: Seq<char>, part: Seq<char>, with: Seq<char>, from: int)
    requires
        0 <= from < s.len(),
        part.len() > 0,
    ensures
        occurs_at(s, part, from) ==> replaced(s, part, with, from) == with + replaced(
            s,
            part,
            with,
            from + part.len(),
        ),
        !occurs_at(s, part, from) ==> replaced(s, part, with, from) == seq![s[from]] + replaced(
            s,
            part,
            with,
            from + 1,
        ),
{
    lemma_first_at(s, part, from);
    lemma_first_at(s, part, from + 1);
    if occurs_at(s, part, from) {
        assert(s.subrange(from, from) + with =~= with);
    } else {
        match first_at(s, part, from + 1) {
            Some(at) => {
                let rest = replaced(s, part, with, at + part.len());
                assert(s.subrange(from, at) + with + rest =~= seq![s[from]] + (s.subrange(
                    from + 1,
                    at,
                ) + with + rest));
            },
            None => {
                assert(s.skip(from) =~= seq![s[from]] + s.skip(from + 1));
            },
        }
    }
}

proof fn lemma_replaced_end(s: Seq<char>, part: Seq<char>, with: Seq<char>)
    requires
        part.len() > 0,
    ensures
        replaced(s, part, with, s.len() as int) == Seq::<char>::empty(),
{
    lemma_first_at(s, part, s.len() as int);
    assert(s.skip(s.len() as int) =~= Seq::<char>::empty());
}

proof fn lemma_occurs_skip(a: Seq<char>, b: Seq<char>, part: Seq<char>, at: int)
    requires
        0 <= at,
    ensures
        occurs_at(a + b, part, a.len() + at) == occurs_at(b, part, at),
{
    if at + part.len() <= b.len() {
        assert((a + b).subrange(a.len() + at, a.len() + at + part.len()) =~= b.subrange(
            at,
            at + part.len(),
        ));
    }
}

/// What stands before a place does not change what is replaced from there on.
proof fn lemma_replaced_skip(a: Seq<char>, b: Seq<char>, part: Seq<char>, with: Seq<char>, at: int)
    requires
        0 <= at <= b.len(),
        part.len() > 0,
    ensures
        replaced(a + b, part, with, a.len() + at) == replaced(b, part, with, at),
    decreases b.len() - at,
{
    let s = a + b;
    let from = a.len() + at;
    if at == b.len() {
        lemma_replaced_end(b, part, with);
        lemma_replaced_end(s, part, with);
    } else {
        lemma_replaced_step(s, part, with, from);
        lemma_replaced_step(b, part, with, at);
        lemma_occurs_skip(a, b, part, at);
        if occurs_at(b, part, at) {
            lemma_replaced_skip(a, b, part, with, at + part.len());
        } else {
            lemma_replaced_skip(a, b, part, with, at + 1);
        }
    }
}

/// A text with a part in place of each occurrence of a character.
spec fn spread(s: Seq<char>, c: char, with: Seq<char>) -> Seq<char>
    decreases s.len(),
{
    if s.len() == 0 {
        Seq::empty()
    } else {
        (if s[0] == c {
            with
        } else {
            seq![s[0]]
        }) + spread(s.skip(1), c, with)
    }
}

proof fn lemma_spread(s: Seq<char>, c: char, with: Seq<char>)
    ensures
        replaced(s, seq![c], with, 0) == spread(s, c, with),
    decreases s.len(),
{
    let part = seq![c];
    if s.len() == 0 {
        lemma_replaced_end(s, part, with);
    } else {
        let rest = s.skip(1);
        lemma_replaced_step(s, part, with, 0);
        assert(s =~= seq![s[0]] + rest);
        lemma_replaced_skip(seq![s[0]], rest, part, with, 0);
        assert(occurs_at(s, part, 0) == (s[0] == c)) by {
            if s[0] == c {
                assert(s.subrange(0, 1) =~= part);
            } else {
                assert(s.subrange(0, 1)[0] == s[0]);
                assert(part[0] == c);
            }
        }
        lemma_spread(rest, c, with);
    }
}

/// Both spreads of an escaped text, from its beginning.
spec fn escaped(s: Seq<char>) -> Seq<char>
    decreases s.len(),
{
    if s.len() == 0 {
        Seq::empty()
    } else {
        (if s[0] == '&' {
            "&amp;"@
        } else if s[0] == '"' {
            "&quot;"@
        } else {
            seq![s[0]]
        }) + escaped(s.skip(1))
    }
}

proof fn lemma_spread_concat(a: Seq<char>, b: Seq<char>, c: char, with: Seq<char>)
    ensures
        spread(a + b, c, with) == spread(a, c, with) + spread(b, c, with),
    decreases a.len(),
{
    if a.len() == 0 {
        assert(a + b =~= b);
        assert(spread(a, c, with) + spread(b, c, with) =~= spread(b, c, with));
    } else {
        lemma_spread_concat(a.skip(1), b, c, with);
        assert((a + b).skip(1) =~= a.skip(1) + b);
        let first = if a[0] == c {
            with
        } else {
            seq![a[0]]
        };
        assert(first + (spread(a.skip(1), c, with) + spread(b, c, with)) =~= first + spread(
            a.skip(1),
            c,
            with,
        ) + spread(b, c, with));
    }
}

proof fn lemma_spread_one(x: char, c: char, with: Seq<char>)
    ensures
        spread(seq![x], c, with) == (if x == c {
            with
        } else {
            seq![x]
        }),
{
    assert(seq![x].skip(1) =~= Seq::<char>::empty());
    assert(spread(Seq::<char>::empty(), c, with) == Seq::<char>::empty());
    let first = if x == c {
        with
    } else {
        seq![x]
    };
    assert(first + Seq::<char>::empty() =~= first);
}

/// Nothing of a text without a character is replaced.
proof fn lemma_spread_none(s: Seq<char>, c: char, with: Seq<char>)
    requires
        forall|i: int| 0 <= i < s.len() ==> s[i] != c,
    ensures
        spread(s, c, with) == s,
    decreases s.len(),
{
    if s.len() > 0 {
        let rest = s.skip(1);
        assert forall|i: int| 0 <= i < rest.len() implies rest[i] != c by {
            assert(rest[i] == s[i + 1]);
        }
        lemma_spread_none(rest, c, with);
        assert(s =~= seq![s[0]] + rest);
    } else {
        assert(s =~= Seq::<char>::empty());
    }
}

proof fn lemma_escaped(s: Seq<char>)
    ensures
        attribute(s) == escaped(s),
    decreases s.len(),
{
    reveal_strlit("&");
    reveal_strlit("\"");
    reveal_strlit("&amp;");
    reveal_strlit("&quot;");
    assert("&"@ =~= seq!['&']);
    assert("\""@ =~= seq!['"']);
    let once = spread(s, '&', "&amp;"@);
    lemma_spread(s, '&', "&amp;"@);
    lemma_spread(once, '"', "&quot;"@);
    if s.len() > 0 {
        let rest = s.skip(1);
        let first = if s[0] == '&' {
            "&amp;"@
        } else {
            seq![s[0]]
        };
        lemma_escaped(rest);
        lemma_spread(rest, '&', "&amp;"@);
        lemma_spread(spread(rest, '&', "&amp;"@), '"', "&quot;"@);
        lemma_spread_concat(first, spread(rest, '&', "&amp;"@), '"', "&quot;"@);
        if s[0] == '&' {
            lemma_spread_none("&amp;"@, '"', "&quot;"@);
        } else {
            lemma_spread_one(s[0], '"', "&quot;"@);
        }
    } else {
        assert(once =~= Seq::<char>::empty());
    }
}

proof fn lemma_escaped_has_no_quotes(s: Seq<char>)
    ensures
        forall|i: int| 0 <= i < escaped(s).len() ==> escaped(s)[i] != '"',
    decreases s.len(),
{
    reveal_strlit("&amp;");
    reveal_strlit("&quot;");
    if s.len() > 0 {
        let tail = escaped(s.skip(1));
        let first = if s[0] == '&' {
            "&amp;"@
        } else if s[0] == '"' {
            "&quot;"@
        } else {
            seq![s[0]]
        };
        lemma_escaped_has_no_quotes(s.skip(1));
        assert(escaped(s) == first + tail);
        assert forall|i: int| 0 <= i < escaped(s).len() implies escaped(s)[i] != '"' by {
            if i >= first.len() {
                assert(escaped(s)[i] == tail[i - first.len()]);
            } else {
                assert(escaped(s)[i] == first[i]);
            }
        }
    }
}

/// Where a text begins with something else than a part, nothing is replaced at
/// its beginning.
proof fn lemma_replaced_past(a: Seq<char>, b: Seq<char>, part: Seq<char>, with: Seq<char>, at: int)
    requires
        part.len() > 0,
        0 <= at <= a.len(),
        forall|k: int| at <= k < a.len() ==> !occurs_at(a + b, part, k),
    ensures
        replaced(a + b, part, with, at) == a.skip(at) + replaced(b, part, with, 0),
    decreases a.len() - at,
{
    if at == a.len() {
        lemma_replaced_skip(a, b, part, with, 0);
        assert(a.skip(at) + replaced(b, part, with, 0) =~= replaced(b, part, with, 0));
    } else {
        lemma_replaced_step(a + b, part, with, at);
        lemma_replaced_past(a, b, part, with, at + 1);
        assert(seq![a[at]] + (a.skip(at + 1) + replaced(b, part, with, 0)) =~= a.skip(at)
            + replaced(b, part, with, 0));
    }
}

/// A part does not occur where the text has another character.
proof fn lemma_no_occurrence(s: Seq<char>, part: Seq<char>, at: int, k: int)
    requires
        0 <= at,
        0 <= k < part.len(),
        at + k < s.len() ==> s[at + k] != part[k],
    ensures
        !occurs_at(s, part, at),
{
    if occurs_at(s, part, at) {
        assert(s.subrange(at, at + part.len())[k] == s[at + k]);
    }
}

proof fn lemma_unquoted(s: Seq<char>)
    ensures
        replaced(escaped(s), "&quot;"@, "\""@, 0) == spread(s, '&', "&amp;"@),
    decreases s.len(),
{
    reveal_strlit("&amp;");
    reveal_strlit("&quot;");
    reveal_strlit("\"");
    let quot = "&quot;"@;
    let whole = escaped(s);
    if s.len() == 0 {
        lemma_replaced_end(whole, quot, "\""@);
    } else {
        let rest = s.skip(1);
        let tail = escaped(rest);
        lemma_unquoted(rest);
        if s[0] == '"' {
            assert(whole.subrange(0, 6) =~= quot);
            lemma_replaced_step(whole, quot, "\""@, 0);
            lemma_replaced_skip(quot, tail, quot, "\""@, 0);
            assert("\""@ =~= seq!['"']);
        } else {
            let first = if s[0] == '&' {
                "&amp;"@
            } else {
                seq![s[0]]
            };
            assert(whole == first + tail);
            assert forall|k: int| 0 <= k < first.len() implies !occurs_at(first + tail, quot, k) by {
                if s[0] == '&' && k == 0 {
                    lemma_no_occurrence(first + tail, quot, 0, 1);
                } else {
                    lemma_no_occurrence(first + tail, quot, k, 0);
                }
            }
            lemma_replaced_past(first, tail, quot, "\""@, 0);
            assert(first.skip(0) =~= first);
        }
    }
}

proof fn lemma_unescaped_once(s: Seq<char>)
    ensures
        replaced(spread(s, '&', "&amp;"@), "&amp;"@, "&"@, 0) == s,
    decreases s.len(),
{
    reveal_strlit("&amp;");
    reveal_strlit("&");
    let amp = "&amp;"@;
    let whole = spread(s, '&', amp);
    if s.len() == 0 {
        lemma_replaced_end(whole, amp, "&"@);
        assert(s =~= Seq::<char>::empty());
    } else {
        let rest = s.skip(1);
        let tail = spread(rest, '&', amp);
        lemma_unescaped_once(rest);
        assert(s =~= seq![s[0]] + rest);
        if s[0] == '&' {
            assert(whole.subrange(0, 5) =~= amp);
            lemma_replaced_step(whole, amp, "&"@, 0);
            lemma_replaced_skip(amp, tail, amp, "&"@, 0);
            assert("&"@ =~= seq!['&']);
        } else {
            let first = seq![s[0]];
            lemma_no_occurrence(first + tail, amp, 0, 0);
            lemma_replaced_past(first, tail, amp, "&"@, 0);
            assert(first.skip(0) =~= first);
        }
    }
}

/// An attribute reads as what was written.
pub proof fn attributes_come_back(s: Seq<char>)
    ensures
        unescaped(attribute(s)) == s,
{
    lemma_escaped(s);
    lemma_unquoted(s);
    lemma_unescaped_once(s);
}

/// The header of a passage.
pub open spec fn block_header(members: Seq<MemberModel>) -> Seq<char> {
    "<passage id=\""@ + attribute(lookup(members, "id"@)->0->Str_0) + "\" path=\""@ + attribute(
        lookup(members, "path"@)->0->Str_0,
    ) + "\" lines=\""@ + text_of(lookup(members, "start"@)->0) + "-"@ + text_of(
        lookup(members, "end"@)->0,
    ) + "\""@ + more_attributes(members, members.len())
}

/// A passage whose block can be told from what stands around it: its id is a
/// hash, its header is of one piece, and its text does not hold its own end.
pub open spec fn sendable(members: Seq<MemberModel>) -> bool {
    let id = lookup(members, "id"@)->0->Str_0;
    &&& is_passage(members)
    &&& forall|i: int| 0 <= i < id.len() ==> is_hex_digit(#[trigger] id[i])
    &&& !contains(block_header(members), ">\n"@)
    &&& !contains(lookup(members, "content"@)->0->Str_0, closing(id))
}

proof fn lemma_hex_stays(id: Seq<char>)
    requires
        forall|i: int| 0 <= i < id.len() ==> is_hex_digit(#[trigger] id[i]),
    ensures
        attribute(id) == id,
        replaced(id, "\""@, "&quot;"@, 0) == id,
        unescaped(id) == id,
{
    reveal_strlit("&");
    reveal_strlit("\"");
    assert("&"@ =~= seq!['&']);
    assert("\""@ =~= seq!['"']);
    assert forall|i: int| 0 <= i < id.len() implies id[i] != '&' && id[i] != '"' by {
        assert(is_hex_digit(id[i]));
    }
    lemma_spread(id, '&', "&amp;"@);
    lemma_spread_none(id, '&', "&amp;"@);
    lemma_spread(id, '"', "&quot;"@);
    lemma_spread_none(id, '"', "&quot;"@);
    attributes_come_back(id);
}

/// The id and the path in the header of a passage.
proof fn lemma_header(id: Seq<char>, path: Seq<char>, more: Seq<char>)
    requires
        forall|i: int| 0 <= i < id.len() ==> is_hex_digit(#[trigger] id[i]),
    ensures
        ({
            let header = "<passage id=\""@ + id + "\" path=\""@ + attribute(path) + "\" lines=\""@
                + more;
            &&& header_value(header, "id"@) == Some(id)
            &&& header_value(header, "path"@) == Some(path)
        }),
{
    reveal_strlit("<passage id=\"");
    reveal_strlit("\" path=\"");
    reveal_strlit("\" lines=\"");
    reveal_strlit(" ");
    reveal_strlit("=\"");
    reveal_strlit("id");
    reveal_strlit("path");
    reveal_strlit("\"");
    let written = attribute(path);
    let header = "<passage id=\""@ + id + "\" path=\""@ + written + "\" lines=\""@ + more;
    let own = " "@ + "id"@ + "=\""@;
    let other = " "@ + "path"@ + "=\""@;
    let quote = "\""@;
    let n = id.len() as int;
    let at = 14 + n;
    let m = written.len() as int;
    assert(own =~= seq![' ', 'i', 'd', '=', '"']);
    assert(other =~= seq![' ', 'p', 'a', 't', 'h', '=', '"']);
    assert forall|i: int| 0 <= i < 13 implies header[i] == "<passage id=\""@[i] by {}
    assert forall|i: int| 0 <= i < n implies #[trigger] header[13 + i] == id[i] && is_hex_digit(
        id[i],
    ) by {}
    assert forall|i: int| 0 <= i < 8 implies #[trigger] header[13 + n + i] == "\" path=\""@[i] by {}
    assert forall|i: int| 0 <= i < m implies #[trigger] header[21 + n + i] == written[i] by {}
    assert(header[21 + n + m] == '"');
    // The id.
    assert(header.subrange(8, 13) =~= own);
    assert forall|k: int| 0 <= k < 8 implies !occurs_at(header, own, k) by {
        lemma_no_occurrence(header, own, k, 0);
    }
    lemma_found(header, own, 0, 8);
    assert(header.subrange(13 + n, 14 + n) =~= quote);
    assert forall|k: int| 13 <= k < 13 + n implies !occurs_at(header, quote, k) by {
        assert(header[13 + (k - 13)] == id[k - 13]);
        lemma_no_occurrence(header, quote, k, 0);
    }
    lemma_found(header, quote, 13, 13 + n);
    assert(header.subrange(13, 13 + n) =~= id);
    lemma_hex_stays(id);
    // The path.
    assert(header.subrange(at, at + 7) =~= other);
    assert forall|k: int| 0 <= k < at implies !occurs_at(header, other, k) by {
        if k == 8 {
            lemma_no_occurrence(header, other, 8, 1);
        } else {
            if 13 <= k < 13 + n {
                assert(header[13 + (k - 13)] == id[k - 13]);
            }
            if k == 13 + n {
                assert(header[13 + n + 0] == '"');
            }
            lemma_no_occurrence(header, other, k, 0);
        }
    }
    lemma_found(header, other, 0, at);
    lemma_escaped(path);
    lemma_escaped_has_no_quotes(path);
    let from = at + 7;
    assert(header.subrange(from + m, from + m + 1) =~= quote);
    assert forall|k: int| from <= k < from + m implies !occurs_at(header, quote, k) by {
        assert(header[21 + n + (k - from)] == written[k - from]);
        lemma_no_occurrence(header, quote, k, 0);
    }
    lemma_found(header, quote, from, from + m);
    assert(header.subrange(from, from + m) =~= written);
    attributes_come_back(path);
}

/// What a passage is read back as.
pub open spec fn comes_back(members: Seq<MemberModel>, p: PassageModel) -> bool {
    &&& p.id == lookup(members, "id"@)->0->Str_0
    &&& p.record.text("id"@) == Some(p.id)
    &&& p.record.text("path"@) == Some(lookup(members, "path"@)->0->Str_0)
    &&& p.record.text("content"@) == Some(lookup(members, "content"@)->0->Str_0)
}

proof fn lemma_record(header: Seq<char>, id: Seq<char>, content: Seq<char>)
    ensures
        ({
            let m = passage_read(header, id, content).record;
            &&& m.text("id"@) == Some(id)
            &&& m.text("content"@) == Some(content)
            &&& m.text("path"@) == header_value(header, "path"@)
        }),
{
    reveal_strlit("content");
    reveal_strlit("end");
    reveal_strlit("id");
    reveal_strlit("path");
    let members = passage_read(header, id, content).record->Obj_0;
    reveal_with_fuel(lookup, 6);
    assert("content"@ != "id"@ && "content"@ != "path"@ && "end"@ != "id"@ && "end"@ != "path"@
        && "id"@ != "path"@) by {
        assert("content"@.len() == 7 && "end"@.len() == 3 && "id"@.len() == 2 && "path"@.len()
            == 4);
    }
    let rest = members.skip(1);
    assert(rest[0] == members[1]);
    assert(rest.skip(1)[0] == members[2]);
    assert(rest.skip(1).skip(1)[0] == members[3]);
}

/// A part is found where it first stands.
proof fn lemma_first_between(before: Seq<char>, x: Seq<char>, part: Seq<char>, behind: Seq<char>)
    requires
        forall|k: int| 0 <= k < x.len() ==> !#[trigger] occurs_at(x + part + behind, part, k),
    ensures
        first_at(before + x + part + behind, part, before.len() as int) == Some(
            (before.len() + x.len()) as int,
        ),
{
    let s = before + x + part + behind;
    let t = x + part + behind;
    let n = before.len() as int;
    assert(s =~= before + t);
    assert forall|k: int| n <= k < n + x.len() implies !occurs_at(s, part, k) by {
        lemma_occurs_skip(before, t, part, k - n);
        assert(!occurs_at(t, part, k - n));
    }
    assert(s.subrange(n + x.len(), n + x.len() + part.len()) =~= part);
    lemma_found(s, part, n, n + x.len());
}

/// A part that is not in a text, and that cannot begin in it and go on behind
/// it, is first found behind it.
proof fn lemma_not_before(x: Seq<char>, part: Seq<char>, behind: Seq<char>)
    requires
        part.len() > 0,
        !contains(x, part),
        forall|j: int| 0 < j < part.len() ==> #[trigger] part[j] != part[0],
    ensures
        forall|k: int| 0 <= k < x.len() ==> !#[trigger] occurs_at(x + part + behind, part, k),
{
    let t = x + part + behind;
    assert forall|k: int| 0 <= k < x.len() implies !#[trigger] occurs_at(t, part, k) by {
        if k + part.len() <= x.len() {
            assert(t.subrange(k, k + part.len()) =~= x.subrange(k, k + part.len()));
            assert(!occurs_at(x, part, k));
        } else {
            let j = x.len() - k;
            assert(t[x.len() as int] == part[0]);
            assert(part[j] != part[0]);
            lemma_no_occurrence(t, part, k, j);
        }
    }
}

/// A block that can be told from what stands around it is read.
#[verifier::rlimit(50)]
proof fn lemma_block(
    s: Seq<char>,
    from: int,
    gap: Seq<char>,
    header: Seq<char>,
    id: Seq<char>,
    content: Seq<char>,
    behind: Seq<char>,
)
    requires
        0 <= from <= s.len(),
        s.skip(from) == gap + (header + ">\n"@ + content + closing(id)) + behind,
        forall|i: int| 0 <= i < gap.len() ==> #[trigger] gap[i] != '<',
        forall|i: int| 0 <= i < id.len() ==> is_hex_digit(#[trigger] id[i]),
        header.len() >= 13,
        header.take(13) == "<passage id=\""@,
        !contains(header, ">\n"@),
        !contains(content, closing(id)),
        header_value(header, "id"@) == Some(id),
    ensures
        next_passage(s, from) == Found::Passage(
            passage_read(header, id, content),
            from + gap.len() + (header + ">\n"@ + content + closing(id)).len(),
        ),
{
    reveal(next_passage);
    reveal_strlit("<passage id=\"");
    reveal_strlit(">\n");
    let mark = "<passage id=\""@;
    let stop_mark = ">\n"@;
    let close = closing(id);
    let before = s.take(from);
    // The opening.
    let one = header.skip(13) + stop_mark + content + close + behind;
    assert(s =~= before + gap + mark + one) by {
        assert(s =~= s.take(from) + s.skip(from));
        assert(header =~= header.take(13) + header.skip(13));
    }
    assert forall|k: int| 0 <= k < gap.len() implies !#[trigger] occurs_at(
        gap + mark + one,
        mark,
        k,
    ) by {
        assert((gap + mark + one)[k] == gap[k]);
        lemma_no_occurrence(gap + mark + one, mark, k, 0);
    }
    lemma_first_between(before, gap, mark, one);
    // The end of the header.
    let opened = before + gap;
    let two = content + close + behind;
    assert(s =~= opened + header + stop_mark + two) by {
        assert(header =~= mark + header.skip(13));
    }
    assert forall|j: int| 0 < j < stop_mark.len() implies #[trigger] stop_mark[j] != stop_mark[0] by {}
    lemma_not_before(header, stop_mark, two);
    lemma_first_between(opened, header, stop_mark, two);
    let open = opened.len() as int;
    let stop = open + header.len();
    assert(s.subrange(open, stop) =~= header);
    // The end.
    let started = opened + header + stop_mark;
    assert(s =~= started + content + close + behind);
    lemma_close(id);
    lemma_not_before(content, close, behind);
    lemma_first_between(started, content, close, behind);
    assert(s.subrange(stop + 2, stop + 2 + content.len()) =~= content);
}

/// The end of a passage begins with the only line feed in it.
proof fn lemma_close(id: Seq<char>)
    requires
        forall|i: int| 0 <= i < id.len() ==> is_hex_digit(#[trigger] id[i]),
    ensures
        closing(id).len() > 0,
        forall|j: int| 0 < j < closing(id).len() ==> #[trigger] closing(id)[j] != closing(id)[0],
{
    reveal_strlit("\n</passage id=\"");
    reveal_strlit("\">");
    lemma_hex_stays(id);
    let close = closing(id);
    let n = "\n</passage id=\""@.len() as int;
    assert(n == 15);
    assert(close =~= "\n</passage id=\""@ + id + "\">"@);
    assert forall|j: int| 0 < j < close.len() implies #[trigger] close[j] != close[0] by {
        if j < n {
            assert(close[j] == "\n</passage id=\""@[j]);
        } else if j < n + id.len() {
            assert(close[j] == id[j - n]);
            assert(is_hex_digit(id[j - n]));
        } else {
            assert(close[j] == "\">"@[j - n - id.len()]);
        }
    }
}

/// A passage that is sent comes back whatever stands behind it: its id, its path
/// and its text, as they were.
pub proof fn a_sent_passage_comes_back(
    s: Seq<char>,
    from: int,
    gap: Seq<char>,
    members: Seq<MemberModel>,
    behind: Seq<char>,
)
    requires
        sendable(members),
        0 <= from <= s.len(),
        s.skip(from) == gap + passage_block(members) + behind,
        forall|i: int| 0 <= i < gap.len() ==> #[trigger] gap[i] != '<',
    ensures
        next_passage(s, from) matches Found::Passage(p, next) && comes_back(members, p) && next
            == from + gap.len() + passage_block(members).len(),
{
    reveal_strlit("<passage id=\"");
    let id = lookup(members, "id"@)->0->Str_0;
    let path = lookup(members, "path"@)->0->Str_0;
    let content = lookup(members, "content"@)->0->Str_0;
    let header = block_header(members);
    lemma_hex_stays(id);
    assert(passage_block(members) =~= header + ">\n"@ + content + closing(id));
    let more = text_of(lookup(members, "start"@)->0) + "-"@ + text_of(lookup(members, "end"@)->0)
        + "\""@ + more_attributes(members, members.len());
    assert(header =~= "<passage id=\""@ + id + "\" path=\""@ + attribute(path) + "\" lines=\""@
        + more);
    lemma_header(id, path, more);
    assert(header.take(13) =~= "<passage id=\""@);
    lemma_block(s, from, gap, header, id, content, behind);
    lemma_record(header, id, content);
}

/// The blocks of some passages.
pub open spec fn blocks_of(list: Seq<Seq<MemberModel>>) -> Seq<Seq<char>> {
    list.map_values(|members: Seq<MemberModel>| passage_block(members))
}

/// Where the first `count` of some blocks end, behind the empty line before the
/// first.
spec fn end_of(blocks: Seq<Seq<char>>, count: nat) -> int {
    if count == 0 {
        0
    } else {
        blocks_text(blocks, count).len() - 2
    }
}

proof fn lemma_prefix(blocks: Seq<Seq<char>>, count: nat, all: nat)
    requires
        count <= all,
    ensures
        blocks_text(blocks, count).len() <= blocks_text(blocks, all).len(),
        blocks_text(blocks, all).take(blocks_text(blocks, count).len() as int) == blocks_text(
            blocks,
            count,
        ),
    decreases all - count,
{
    let some = blocks_text(blocks, count);
    if count < all {
        lemma_prefix(blocks, count, (all - 1) as nat);
        let most = blocks_text(blocks, (all - 1) as nat);
        let whole = blocks_text(blocks, all);
        assert(whole.take(some.len() as int) =~= most.take(some.len() as int));
    } else {
        assert(some.take(some.len() as int) =~= some);
    }
}

/// What stands behind some blocks: the next one and the rest.
proof fn lemma_next_block(blocks: Seq<Seq<char>>, count: nat)
    requires
        count < blocks.len(),
    ensures
        ({
            let s = blocks_text(blocks, blocks.len()).skip(2);
            let gap = if count == 0 {
                Seq::<char>::empty()
            } else {
                "\n\n"@
            };
            &&& 0 <= end_of(blocks, count) <= s.len()
            &&& end_of(blocks, count + 1) == end_of(blocks, count) + gap.len()
                + blocks[count as int].len()
            &&& end_of(blocks, count + 1) <= s.len()
            &&& s.skip(end_of(blocks, count)) == gap + blocks[count as int] + s.skip(
                end_of(blocks, count + 1),
            )
        }),
{
    reveal_strlit("\n\n");
    let whole = blocks_text(blocks, blocks.len());
    let s = whole.skip(2);
    let here = blocks_text(blocks, count);
    let there = blocks_text(blocks, count + 1);
    lemma_prefix(blocks, count, blocks.len());
    lemma_prefix(blocks, count + 1, blocks.len());
    if count > 0 {
        lemma_prefix(blocks, 1, count);
    }
    let n = there.len() as int;
    assert(whole =~= there + whole.skip(n));
    let x = whole.skip(here.len() as int);
    assert(x =~= "\n\n"@ + blocks[count as int] + whole.skip(n));
    assert(s.skip(end_of(blocks, count + 1)) =~= whole.skip(n));
    if count == 0 {
        assert(here.len() == 0);
        assert(s.skip(0) =~= x.skip(2));
        assert(x.skip(2) =~= blocks[0] + whole.skip(n));
        assert(Seq::<char>::empty() + blocks[0] =~= blocks[0]);
    } else {
        assert(s.skip(end_of(blocks, count)) =~= x);
    }
}

#[verifier::rlimit(40)]
proof fn lemma_blocks_read(list: Seq<Seq<MemberModel>>, count: nat)
    requires
        count <= list.len(),
        list.len() > 0,
        forall|i: int| 0 <= i < list.len() ==> sendable(#[trigger] list[i]),
    ensures
        ({
            let blocks = blocks_of(list);
            let s = blocks_text(blocks, list.len()).skip(2);
            passages_from(s, end_of(blocks, count)) matches Ok(found) && found.len() == list.len()
                - count && forall|i: int|
                0 <= i < found.len() ==> comes_back(list[count + i], #[trigger] found[i])
        }),
    decreases list.len() - count,
{
    reveal_strlit("\n\n");
    let blocks = blocks_of(list);
    let whole = blocks_text(blocks, list.len());
    let s = whole.skip(2);
    let from = end_of(blocks, count);
    lemma_prefix(blocks, 1, list.len());
    if count == list.len() {
        reveal(next_passage);
        reveal_strlit("<passage id=\"");
        lemma_first_at(s, "<passage id=\""@, from);
    } else {
        let next = count + 1;
        let members = list[count as int];
        let gap = if count == 0 {
            Seq::<char>::empty()
        } else {
            "\n\n"@
        };
        let to = end_of(blocks, next);
        lemma_next_block(blocks, count);
        assert(blocks[count as int] == passage_block(members));
        a_sent_passage_comes_back(s, from, gap, members, s.skip(to));
        lemma_blocks_read(list, next);
        let found = passages_from(s, from)->Ok_0;
        let rest = passages_from(s, to)->Ok_0;
        assert(passage_block(members).len() > 0) by {
            reveal_strlit("<passage id=\"");
        }
        let p = next_passage(s, from)->Passage_0;
        assert(found =~= seq![p] + rest);
        assert forall|i: int| 0 <= i < found.len() implies comes_back(
            list[count + i],
            #[trigger] found[i],
        ) by {
            if i > 0 {
                assert(found[i] == rest[i - 1]);
                assert(list[next + (i - 1)] == list[count + i]);
            }
        }
    }
}

/// Every passage that is sent comes back, in order: what stands behind the JSON
/// of a message reads as the passages that were taken out of it.
pub proof fn sent_passages_come_back(list: Seq<Seq<MemberModel>>)
    requires
        list.len() > 0,
        forall|i: int| 0 <= i < list.len() ==> sendable(#[trigger] list[i]),
    ensures
        passages_from(blocks_text(blocks_of(list), list.len()).skip(2), 0) matches Ok(found)
            && found.len() == list.len() && forall|i: int|
            0 <= i < found.len() ==> comes_back(list[i], #[trigger] found[i]),
{
    lemma_blocks_read(list, 0);
    let found = passages_from(blocks_text(blocks_of(list), list.len()).skip(2), 0)->Ok_0;
    assert forall|i: int| 0 <= i < found.len() implies comes_back(list[i], #[trigger] found[i]) by {
        assert(comes_back(list[0 + i], found[i]));
    }
}

// ---------------------------------------------------------------------------
// Executable functions
// ---------------------------------------------------------------------------

/// The value of an attribute, as it was before it was escaped.
fn unescape(s: &str) -> (r: String)
    ensures
        r@ == unescaped(s@),
{
    proof {
        reveal_strlit("&quot;");
        reveal_strlit("&amp;");
    }
    let quoted = replace_all(s, "&quot;", "\"");
    replace_all(quoted.as_str(), "&amp;", "&")
}

/// An attribute in the header of a passage.
fn read_attribute(header: &Vec<char>, name: &str) -> (r: Option<String>)
    ensures
        match header_value(header@, name@) {
            Some(v) => r is Some && r->0@ == v,
            None => r is None,
        },
{
    proof {
        reveal_strlit(" ");
        reveal_strlit("=\"");
        reveal_strlit("\"");
        lemma_first_at(header@, " "@ + name@ + "=\""@, 0);
    }
    let mut opening = String::from_str(" ");
    opening.push_str(name);
    opening.push_str("=\"");
    let mark = to_chars(opening.as_str());
    let quote = to_chars("\"");
    let size: usize = mark.len();
    let n: usize = header.len();
    assert(size == name@.len() + 3);
    match find_from(header.as_slice(), mark.as_slice(), 0) {
        None => None,
        Some(at) => {
            assert(at + size <= n);
            let start: usize = at + size;
            proof {
                lemma_first_at(header@, "\""@, start as int);
            }
            match find_from(header.as_slice(), quote.as_slice(), start) {
                None => None,
                Some(end) => Some(unescape(slice(header.as_slice(), start, end).as_str())),
            }
        },
    }
}

/// A number as it is written, and 0 where it is none.
fn read_number(s: &str) -> (r: u64)
    ensures
        r == number_or_zero(s@),
{
    let chars = to_chars(s);
    let found = if chars.len() > 0 && chars[0] == '+' {
        let digits = slice(chars.as_slice(), 1, chars.len());
        assert(digits@ =~= s@.skip(1));
        parse_natural(digits.as_str())
    } else {
        parse_natural(s)
    };
    match found {
        Some(n) => n,
        None => 0,
    }
}

/// The first and the last line of a passage.
fn read_lines(lines: Option<String>) -> (r: (u64, u64))
    ensures
        ({
            let range = line_range(
                match lines {
                    Some(s) => Some(s@),
                    None => None,
                },
            );
            r.0 == range.0 && r.1 == range.1
        }),
{
    let text = match lines {
        Some(s) => s,
        None => String::new(),
    };
    proof {
        reveal_strlit("-");
        lemma_first_at(text@, "-"@, 0);
        assert(text@ =~= text@);
    }
    let chars = to_chars(text.as_str());
    let dash = to_chars("-");
    let n: usize = chars.len();
    match find_from(chars.as_slice(), dash.as_slice(), 0) {
        None => (0, 0),
        Some(at) => {
            let first = slice(chars.as_slice(), 0, at);
            let last = slice(chars.as_slice(), at + 1, n);
            assert(first@ =~= text@.take(at as int));
            assert(last@ =~= text@.skip(at + 1));
            (read_number(first.as_str()), read_number(last.as_str()))
        },
    }
}

/// A passage that was read back.
struct Restored {
    id: String,
    record: Json,
}

impl View for Restored {
    type V = PassageModel;

    closed spec fn view(&self) -> PassageModel {
        PassageModel { id: self.id@, record: self.record@ }
    }
}

spec fn restored_models(v: Seq<Restored>) -> Seq<PassageModel> {
    v.map_values(|p: Restored| p@)
}

/// A passage with a header and a text.
fn read_passage(header: &Vec<char>, id: String, content: String) -> (r: Restored)
    ensures
        r@ == passage_read(header@, id@, content@),
{
    let (start, end) = read_lines(read_attribute(header, "lines"));
    let path = match read_attribute(header, "path") {
        Some(p) => Json::Str(p),
        None => Json::Null,
    };
    let runtime = match read_attribute(header, "runtime_allowed") {
        Some(v) => Json::Bool(same(v.as_str(), "true")),
        None => Json::Null,
    };
    let members = vec![
        member("content", Json::Str(content)),
        member("end", Json::Num(number(end))),
        member("id", Json::string(id.as_str())),
        member("path", path),
        member("runtime_allowed", runtime),
        member("start", Json::Num(number(start))),
    ];
    assert(member_models(members@) =~= passage_read(header@, id@, content@).record->Obj_0);
    Restored { id, record: Json::object(members) }
}

/// The next passage from a place on, and the place behind it.
fn read_next(chars: &Vec<char>, from: usize) -> (r: Result<Option<(Restored, usize)>, RestoreFault>)
    requires
        from <= chars@.len(),
    ensures
        match next_passage(chars@, from as int) {
            Found::Nothing => r matches Ok(None),
            Found::Broken(f) => r == Err::<Option<(Restored, usize)>, RestoreFault>(f),
            Found::Passage(p, next) => {
                &&& r matches Ok(Some((passage, behind)))
                &&& passage@ == p
                &&& behind == next
                &&& from < behind <= chars@.len()
            },
        },
{
    let ghost s = chars@;
    let n: usize = chars.len();
    proof {
        reveal(next_passage);
    }
    let opening = to_chars("<passage id=\"");
    let stop_mark = to_chars(">\n");
    proof {
        reveal_strlit("<passage id=\"");
        reveal_strlit(">\n");
        reveal_strlit("\n</passage id=\"");
        reveal_strlit("\">");
        reveal_strlit("\"");
    }
    let open: usize = match find_from(chars.as_slice(), opening.as_slice(), from) {
        Some(at) => at,
        None => {
            return Ok(None);
        },
    };
    let stop: usize = match find_from(chars.as_slice(), stop_mark.as_slice(), open) {
        Some(at) => at,
        None => {
            return Err(RestoreFault::Header);
        },
    };
    let header = to_chars(slice(chars.as_slice(), open, stop).as_str());
    assert(header@ == s.subrange(open as int, stop as int));
    let id = match read_attribute(&header, "id") {
        Some(id) => id,
        None => {
            return Err(RestoreFault::Id);
        },
    };
    let mut close = String::from_str("\n</passage id=\"");
    close.push_str(replace_all(id.as_str(), "\"", "&quot;").as_str());
    close.push_str("\">");
    assert(close@ == closing(id@));
    let mark = to_chars(close.as_str());
    let size: usize = mark.len();
    let end: usize = match find_from(chars.as_slice(), mark.as_slice(), stop + 2) {
        Some(at) => at,
        None => {
            return Err(RestoreFault::Close);
        },
    };
    assert(end + size <= n);
    let content = slice(chars.as_slice(), stop + 2, end);
    assert(content@ == s.subrange(stop + 2, end as int));
    let passage = read_passage(&header, id, content);
    Ok(Some((passage, end + size)))
}

/// The passages in a text.
fn read_passages(text: &str) -> (r: Result<Vec<Restored>, RestoreFault>)
    ensures
        match passages_from(text@, 0) {
            Ok(list) => r is Ok && restored_models(r->Ok_0@) == list,
            Err(f) => r == Err::<Vec<Restored>, RestoreFault>(f),
        },
{
    let ghost s = text@;
    let ghost goal = passages_from(s, 0);
    let chars = to_chars(text);
    let mut list: Vec<Restored> = Vec::new();
    let mut from: usize = 0;
    proof {
        assert(restored_models(list@) =~= Seq::empty());
        if let Ok(all) = goal {
            assert(Seq::<PassageModel>::empty() + all =~= all);
        }
    }
    loop
        invariant
            from <= chars@.len(),
            s == text@,
            chars@ == s,
            goal == passages_from(s, 0),
            match passages_from(s, from as int) {
                Ok(rest) => goal == Ok::<Seq<PassageModel>, RestoreFault>(
                    restored_models(list@) + rest,
                ),
                Err(f) => goal == Err::<Seq<PassageModel>, RestoreFault>(f),
            },
        decreases chars@.len() - from,
    {
        match read_next(&chars, from) {
            Err(f) => {
                return Err(f);
            },
            Ok(None) => {
                assert(restored_models(list@) + Seq::empty() =~= restored_models(list@));
                return Ok(list);
            },
            Ok(Some((passage, next))) => {
                proof {
                    let before = restored_models(list@);
                    let p = passage@;
                    assert(restored_models(list@.push(passage)) =~= before.push(p));
                    if let Ok(rest) = passages_from(s, next as int) {
                        assert(before + (seq![p] + rest) =~= before.push(p) + rest);
                    }
                }
                list.push(passage);
                from = next;
            },
        }
    }
}

/// The record of the last passage with an id.
fn find_passage<'a>(list: &'a Vec<Restored>, id: &str) -> (r: Option<&'a Json>)
    ensures
        match passage_with(restored_models(list@), id@) {
            Some(record) => r is Some && r->0@ == record,
            None => r is None,
        },
{
    let ghost all = restored_models(list@);
    let mut i: usize = list.len();
    assert(all.take(i as int) =~= all);
    while i > 0
        invariant
            i <= list@.len(),
            all == restored_models(list@),
            passage_with(all.take(i as int), id@) == passage_with(all, id@),
        decreases i,
    {
        i -= 1;
        assert(all.take(i + 1).last() == list@[i as int]@);
        assert(all.take(i + 1).drop_last() =~= all.take(i as int));
        if same(list[i].id.as_str(), id) {
            return Some(&list[i].record);
        }
    }
    None
}

/// A value with passages in place of what stands for them.
fn restore(value: &Json, list: &Vec<Restored>) -> (r: Json)
    ensures
        r@ == restored(value@, restored_models(list@)),
    decreases value,
{
    let ghost ps = restored_models(list@);
    match value {
        Json::Arr(items) => {
            proof {
                lemma_arr(*items);
            }
            let ghost ms = models(items@);
            let ghost goal = restored(value@, ps)->Arr_0;
            let mut out: Vec<Json> = Vec::new();
            let mut i: usize = 0;
            assert(models(out@) =~= goal.take(0));
            while i < items.len()
                invariant
                    i <= items@.len(),
                    *value == Json::Arr(*items),
                    ms == models(items@),
                    value@ == JsonModel::Arr(ms),
                    ps == restored_models(list@),
                    goal == restored(value@, ps)->Arr_0,
                    models(out@) == goal.take(i as int),
                decreases items@.len() - i,
            {
                proof {
                    assert(decreases_to!(*value => value->Arr_0));
                    assert(decreases_to!(*value => value->Arr_0@[i as int]));
                }
                let item = restore(&items[i], list);
                proof {
                    assert(ms[i as int] == items@[i as int]@);
                    assert(goal[i as int] == item@);
                    assert(models(out@.push(item)) =~= models(out@).push(item@));
                    assert(goal.take(i + 1) =~= goal.take(i as int).push(item@));
                }
                out.push(item);
                i += 1;
            }
            assert(goal.take(i as int) =~= goal);
            Json::array(out)
        },
        Json::Obj(members) => {
            proof {
                lemma_obj(*members);
            }
            if let Some(id) = value.text("passage") {
                if let Some(record) = find_passage(list, id) {
                    return record.copy();
                }
            }
            let ghost ms = member_models(members@);
            assert(stands_for(value@, ps) is None);
            let ghost goal = restored(value@, ps)->Obj_0;
            let mut out: Vec<Member> = Vec::new();
            let mut i: usize = 0;
            assert(member_models(out@) =~= goal.take(0));
            while i < members.len()
                invariant
                    i <= members@.len(),
                    *value == Json::Obj(*members),
                    ms == member_models(members@),
                    value@ == JsonModel::Obj(ms),
                    ps == restored_models(list@),
                    stands_for(value@, ps) is None,
                    goal == restored(value@, ps)->Obj_0,
                    member_models(out@) == goal.take(i as int),
                decreases members@.len() - i,
            {
                proof {
                    assert(decreases_to!(*value => value->Obj_0));
                    assert(decreases_to!(*value => value->Obj_0@[i as int]));
                    assert(decreases_to!(*value => value->Obj_0@[i as int].value));
                    assert(ms[i as int].name == members@[i as int].name@);
                    assert(ms[i as int].value == members@[i as int].value@);
                }
                let inner = restore(&members[i].value, list);
                let item = Member { name: members[i].name.clone(), value: inner };
                proof {
                    let mm = MemberModel { name: item.name@, value: item.value@ };
                    assert(goal[i as int] == mm);
                    assert(member_models(out@.push(item)) =~= member_models(out@).push(mm));
                    assert(goal.take(i + 1) =~= goal.take(i as int).push(mm));
                }
                out.push(item);
                i += 1;
            }
            assert(goal.take(i as int) =~= goal);
            Json::object(out)
        },
        _ => value.copy(),
    }
}

/// The JSON that a rendered message was built from, with the text of its
/// passages in place.
pub fn restore_input(content: &str) -> (r: Result<Json, RestoreFault>)
    ensures
        match input_of(content@) {
            Ok(m) => r is Ok && r->Ok_0@ == m,
            Err(f) => r == Err::<Json, RestoreFault>(f),
        },
{
    let chars = to_chars(content);
    let n: usize = chars.len();
    let gap = to_chars("\n\n");
    proof {
        reveal_strlit("\n\n");
        lemma_first_at(content@, "\n\n"@, 0);
    }
    let (head, rest) = match find_from(chars.as_slice(), gap.as_slice(), 0) {
        Some(at) => {
            let head = slice(chars.as_slice(), 0, at);
            let rest = slice(chars.as_slice(), at + 2, n);
            assert(head@ =~= content@.take(at as int));
            assert(rest@ =~= content@.skip(at + 2));
            (head, rest)
        },
        None => (String::from_str(content), String::new()),
    };
    let value = match parse_json(head.as_str()) {
        Ok(value) => value,
        Err(_) => {
            return Err(RestoreFault::Json);
        },
    };
    match read_passages(rest.as_str()) {
        Ok(list) => Ok(restore(&value, &list)),
        Err(f) => Err(f),
    }
}

} // verus!
