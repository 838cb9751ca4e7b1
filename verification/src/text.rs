//! Text as a sequence of characters: lengths in UTF-8 bytes, slicing,
//! whitespace, lines and the small conversions that the rest of the library is
//! built from.

use vstd::prelude::*;
use vstd::string::StringExecFns;
use vstd::utf8::*;

verus! {

// ---------------------------------------------------------------------------
// Models
// ---------------------------------------------------------------------------

/// The length of a text in UTF-8 bytes.
pub open spec fn blen(s: Seq<char>) -> nat {
    encode_utf8(s).len()
}

/// The number of UTF-8 bytes of one character.
pub open spec fn width(c: char) -> nat {
    encode_scalar(c as u32).len()
}

/// Unicode `White_Space`.
pub open spec fn is_space(c: char) -> bool {
    let n = c as u32;
    ||| 0x09 <= n <= 0x0d
    ||| n == 0x20
    ||| n == 0x85
    ||| n == 0xa0
    ||| n == 0x1680
    ||| 0x2000 <= n <= 0x200a
    ||| n == 0x2028
    ||| n == 0x2029
    ||| n == 0x202f
    ||| n == 0x205f
    ||| n == 0x3000
}

/// The text without its leading whitespace.
pub open spec fn trim_start(s: Seq<char>) -> Seq<char>
    decreases s.len(),
{
    if s.len() > 0 && is_space(s[0]) {
        trim_start(s.skip(1))
    } else {
        s
    }
}

/// The text without its trailing whitespace.
pub open spec fn trim_end(s: Seq<char>) -> Seq<char>
    decreases s.len(),
{
    if s.len() > 0 && is_space(s.last()) {
        trim_end(s.drop_last())
    } else {
        s
    }
}

/// The text without whitespace at either end.
pub open spec fn trim(s: Seq<char>) -> Seq<char> {
    trim_end(trim_start(s))
}

/// `part` stands in `s` at character `at`.
pub open spec fn occurs_at(s: Seq<char>, part: Seq<char>, at: int) -> bool {
    0 <= at && at + part.len() <= s.len() && s.subrange(at, at + part.len()) == part
}

/// `part` stands somewhere in `s`.
pub open spec fn contains(s: Seq<char>, part: Seq<char>) -> bool {
    exists|at: int| occurs_at(s, part, at)
}

/// `s` begins with `part`.
pub open spec fn starts_with(s: Seq<char>, part: Seq<char>) -> bool {
    occurs_at(s, part, 0)
}

/// `s` ends with `part`.
pub open spec fn ends_with(s: Seq<char>, part: Seq<char>) -> bool {
    occurs_at(s, part, s.len() - part.len())
}

/// The first position at or after `from` that holds `c`, or the length of `s`.
pub open spec fn next_at(s: Seq<char>, c: char, from: int) -> int
    decreases s.len() - from,
{
    if from < 0 || from >= s.len() {
        s.len() as int
    } else if s[from] == c {
        from
    } else {
        next_at(s, c, from + 1)
    }
}

/// The first position at or after `from` where `part` stands.
pub open spec fn first_at(s: Seq<char>, part: Seq<char>, from: int) -> Option<int>
    decreases s.len() + 1 - from,
{
    if from < 0 || from > s.len() {
        None
    } else if occurs_at(s, part, from) {
        Some(from)
    } else {
        first_at(s, part, from + 1)
    }
}

/// The longest beginning of a text that fits in `max` bytes.
pub open spec fn prefix_within(s: Seq<char>, max: nat) -> Seq<char>
    decreases s.len(),
{
    if s.len() == 0 || blen(s) <= max {
        s
    } else {
        prefix_within(s.drop_last(), max)
    }
}

/// The longest end of a text that fits in `max` bytes.
pub open spec fn suffix_within(s: Seq<char>, max: nat) -> Seq<char>
    decreases s.len(),
{
    if s.len() == 0 || blen(s) <= max {
        s
    } else {
        suffix_within(s.skip(1), max)
    }
}

/// A text with every `old` replaced, searched from position `from` on.
pub open spec fn replaced(s: Seq<char>, part: Seq<char>, with: Seq<char>, from: int) -> Seq<char>
    decreases s.len() - from,
{
    match first_at(s, part, from) {
        Some(at) if from <= at && part.len() > 0 && at + part.len() <= s.len() => s.subrange(
            from,
            at,
        ) + with + replaced(s, part, with, at + part.len()),
        _ => s.skip(from),
    }
}

/// The part of a text between two byte positions, where both are boundaries of
/// characters.
pub open spec fn byte_slice(s: Seq<char>, from: int, to: int) -> Option<Seq<char>> {
    let bytes = encode_utf8(s);
    if 0 <= from <= to <= bytes.len() && is_char_boundary(bytes, from) && is_char_boundary(
        bytes,
        to,
    ) {
        Some(decode_utf8(bytes.subrange(from, to)))
    } else {
        None
    }
}

/// The decimal digit of a number below ten.
pub open spec fn digit(n: nat) -> char {
    ((48 + n) as u32) as char
}

/// A number written in decimal.
pub open spec fn decimal(n: nat) -> Seq<char>
    decreases n,
{
    if n < 10 {
        seq![digit(n)]
    } else {
        decimal(n / 10).push(digit(n % 10))
    }
}

/// Characters compared by code point, texts by their first difference.
pub open spec fn precedes(a: Seq<char>, b: Seq<char>) -> bool
    decreases a.len(),
{
    if b.len() == 0 {
        false
    } else if a.len() == 0 {
        true
    } else if a[0] != b[0] {
        (a[0] as u32) < (b[0] as u32)
    } else {
        precedes(a.skip(1), b.skip(1))
    }
}

proof fn lemma_codes_differ(a: char, b: char)
    requires
        a != b,
    ensures
        a as u32 != b as u32,
{
}

/// The order of texts is a strict order.
pub proof fn texts_are_ordered(a: Seq<char>, b: Seq<char>)
    ensures
        precedes(a, b) ==> !precedes(b, a) && a != b,
        a != b ==> precedes(a, b) || precedes(b, a),
    decreases a.len(),
{
    if a.len() > 0 && b.len() > 0 {
        if a[0] == b[0] {
            texts_are_ordered(a.skip(1), b.skip(1));
            if a.skip(1) == b.skip(1) {
                assert(a =~= seq![a[0]] + a.skip(1));
                assert(b =~= seq![b[0]] + b.skip(1));
            }
        } else {
            lemma_codes_differ(a[0], b[0]);
        }
    } else if a.len() == 0 && b.len() == 0 {
        assert(a =~= b);
    }
}

/// The order of texts is transitive.
pub proof fn the_order_of_texts_is_transitive(a: Seq<char>, b: Seq<char>, c: Seq<char>)
    requires
        precedes(a, b),
        precedes(b, c),
    ensures
        precedes(a, c),
    decreases a.len(),
{
    if a.len() > 0 && a[0] == b[0] && b[0] == c[0] {
        the_order_of_texts_is_transitive(a.skip(1), b.skip(1), c.skip(1));
    }
}

/// An ASCII letter in lower case; any other character as it is.
pub open spec fn ascii_lower(c: char) -> char {
    if 'A' <= c <= 'Z' {
        ((c as u32 + 32) as u32) as char
    } else {
        c
    }
}

/// `[A-Za-z]`.
pub open spec fn is_ascii_letter(c: char) -> bool {
    'a' <= c <= 'z' || 'A' <= c <= 'Z'
}

/// `[0-9]`.
pub open spec fn is_ascii_digit(c: char) -> bool {
    '0' <= c <= '9'
}

/// `[0-9A-Fa-f]`.
pub open spec fn is_hex_digit(c: char) -> bool {
    is_ascii_digit(c) || 'a' <= c <= 'f' || 'A' <= c <= 'F'
}

/// A digit of a hexadecimal number.
pub open spec fn hex_digit(n: nat) -> char {
    if n < 10 {
        (('0' as u32) + n) as u32 as char
    } else {
        (('a' as u32) + n - 10) as u32 as char
    }
}

/// Where the run of characters that are not whitespace that starts at `from`
/// ends.
pub open spec fn word_end(s: Seq<char>, from: int) -> int
    decreases s.len() - from,
{
    if from < 0 || from >= s.len() || is_space(s[from]) {
        from
    } else {
        word_end(s, from + 1)
    }
}

/// The words of a text: its longest runs without whitespace, in order.
pub open spec fn words(s: Seq<char>) -> Seq<Seq<char>>
    decreases s.len(),
{
    let t = trim_start(s);
    let n = word_end(t, 0);
    if 0 < n <= t.len() <= s.len() {
        seq![t.take(n)] + words(t.skip(n))
    } else {
        Seq::empty()
    }
}

/// Texts joined with a separator between them.
pub open spec fn join(parts: Seq<Seq<char>>, separator: Seq<char>) -> Seq<char>
    decreases parts.len(),
{
    if parts.len() == 0 {
        Seq::empty()
    } else if parts.len() == 1 {
        parts[0]
    } else {
        join(parts.drop_last(), separator) + separator + parts.last()
    }
}

/// The texts of a list of strings.
pub open spec fn texts(v: Seq<String>) -> Seq<Seq<char>> {
    v.map_values(|s: String| s@)
}

/// The last position of `name` in a list.
pub open spec fn last_index(names: Seq<Seq<char>>, name: Seq<char>) -> Option<usize>
    decreases names.len(),
{
    if names.len() == 0 {
        None
    } else if names.last() == name {
        Some((names.len() - 1) as usize)
    } else {
        last_index(names.drop_last(), name)
    }
}

/// A text that says something and fits in `max` bytes.
pub open spec fn bounded(s: Seq<char>, max: nat) -> bool {
    trim(s).len() > 0 && blen(s) <= max
}

/// A title as it is compared with others: its words, one space apart, in lower
/// case.
pub open spec fn title_key(s: Seq<char>) -> Seq<char> {
    lowercase(join(words(s), seq![' ']))
}

// ---------------------------------------------------------------------------
// Facts about the models
// ---------------------------------------------------------------------------

/// Every character takes one to four bytes.
pub proof fn lemma_width(c: char)
    ensures
        1 <= width(c) <= 4,
        (c as u32) < 0x80 ==> width(c) == 1,
{
    char_is_scalar(c);
}

/// Byte lengths add up.
pub proof fn lemma_blen_concat(a: Seq<char>, b: Seq<char>)
    ensures
        encode_utf8(a + b) == encode_utf8(a) + encode_utf8(b),
        blen(a + b) == blen(a) + blen(b),
    decreases a.len(),
{
    if a.len() == 0 {
        assert(a + b =~= b);
        assert(encode_utf8(a) =~= Seq::<u8>::empty());
        assert(encode_utf8(a) + encode_utf8(b) =~= encode_utf8(b));
    } else {
        lemma_blen_concat(a.drop_first(), b);
        assert((a + b).drop_first() =~= a.drop_first() + b);
        assert((a + b)[0] == a[0]);
        assert(encode_utf8(a + b) =~= encode_utf8(a) + encode_utf8(b));
    }
}

/// One character more adds its width.
pub proof fn lemma_blen_push(s: Seq<char>, c: char)
    ensures
        encode_utf8(s.push(c)) == encode_utf8(s) + encode_scalar(c as u32),
        blen(s.push(c)) == blen(s) + width(c),
        1 <= width(c) <= 4,
{
    lemma_width(c);
    assert(s.push(c) =~= s + seq![c]);
    lemma_blen_concat(s, seq![c]);
    lemma_blen_one(c);
}

/// The byte length of a text of one character.
pub proof fn lemma_blen_one(c: char)
    ensures
        encode_utf8(seq![c]) == encode_scalar(c as u32),
        blen(seq![c]) == width(c),
{
    let s = seq![c];
    assert(s.drop_first() =~= Seq::<char>::empty());
    assert(encode_utf8(Seq::<char>::empty()) =~= Seq::<u8>::empty());
    assert(encode_utf8(s) =~= encode_scalar(c as u32));
}

/// A text has at least one byte and at most four bytes per character.
pub proof fn lemma_blen_bounds(s: Seq<char>)
    ensures
        s.len() <= blen(s) <= 4 * s.len(),
    decreases s.len(),
{
    if s.len() > 0 {
        lemma_blen_bounds(s.drop_last());
        lemma_blen_push(s.drop_last(), s.last());
        assert(s.drop_last().push(s.last()) =~= s);
    }
}

/// A longer prefix is at least as many bytes longer as it has more characters.
pub proof fn lemma_blen_take(s: Seq<char>, i: int, j: int)
    requires
        0 <= i <= j <= s.len(),
    ensures
        blen(s.take(j)) == blen(s.take(i)) + blen(s.subrange(i, j)),
        blen(s.take(i)) + (j - i) <= blen(s.take(j)),
        blen(s.take(j)) <= blen(s),
{
    assert(s.take(j) =~= s.take(i) + s.subrange(i, j));
    lemma_blen_concat(s.take(i), s.subrange(i, j));
    lemma_blen_bounds(s.subrange(i, j));
    assert(s =~= s.take(j) + s.skip(j));
    lemma_blen_concat(s.take(j), s.skip(j));
}

/// Texts with the same bytes are the same text.
pub proof fn lemma_same_bytes(a: Seq<char>, b: Seq<char>)
    requires
        encode_utf8(a) == encode_utf8(b),
    ensures
        a == b,
{
    encode_utf8_decode_utf8(a);
    encode_utf8_decode_utf8(b);
}

/// What is found is the first occurrence.
pub proof fn lemma_first_at(s: Seq<char>, part: Seq<char>, from: int)
    requires
        0 <= from,
    ensures
        match first_at(s, part, from) {
            Some(at) => from <= at <= s.len() && occurs_at(s, part, at) && forall|k: int|
                from <= k < at ==> !occurs_at(s, part, k),
            None => forall|k: int| from <= k ==> !occurs_at(s, part, k),
        },
    decreases s.len() + 1 - from,
{
    if from <= s.len() && !occurs_at(s, part, from) {
        lemma_first_at(s, part, from + 1);
        if first_at(s, part, from) is None {
            assert forall|k: int| from <= k implies !occurs_at(s, part, k) by {
                if k > from {
                }
            }
        }
    }
}

/// The longest beginning ends where one more character would not fit.
pub proof fn lemma_prefix_within(s: Seq<char>, max: nat, at: int)
    requires
        0 <= at <= s.len(),
        blen(s.take(at)) <= max,
        at < s.len() ==> blen(s.take(at + 1)) > max,
    ensures
        prefix_within(s, max) == s.take(at),
        blen(prefix_within(s, max)) <= max,
    decreases s.len(),
{
    if at == s.len() {
        assert(s.take(at) =~= s);
    } else {
        lemma_blen_take(s, at + 1, s.len() as int);
        assert(s.take(s.len() as int) =~= s);
        let t = s.drop_last();
        assert(t.take(at) =~= s.take(at));
        if at < t.len() {
            assert(t.take(at + 1) =~= s.take(at + 1));
        }
        lemma_prefix_within(t, max, at);
    }
}

/// The longest end begins where one more character would not fit.
pub proof fn lemma_suffix_within(s: Seq<char>, max: nat, at: int)
    requires
        0 <= at <= s.len(),
        blen(s.skip(at)) <= max,
        at > 0 ==> blen(s.skip(at - 1)) > max,
    ensures
        suffix_within(s, max) == s.skip(at),
        blen(suffix_within(s, max)) <= max,
    decreases s.len(),
{
    if at == 0 {
        assert(s.skip(at) =~= s);
    } else {
        assert(s =~= s.take(at - 1) + s.skip(at - 1));
        lemma_blen_concat(s.take(at - 1), s.skip(at - 1));
        let t = s.skip(1);
        assert(t.skip(at - 1) =~= s.skip(at));
        if at > 1 {
            assert(t.skip(at - 2) =~= s.skip(at - 1));
        }
        lemma_suffix_within(t, max, at - 1);
    }
}

/// The longest beginning and the longest end fit.
pub proof fn lemma_within_fit(s: Seq<char>, max: nat)
    ensures
        blen(prefix_within(s, max)) <= max,
        blen(suffix_within(s, max)) <= max,
        prefix_within(s, max).len() <= s.len(),
        suffix_within(s, max).len() <= s.len(),
        prefix_within(s, max) == s.take(prefix_within(s, max).len() as int),
        suffix_within(s, max) == s.skip(s.len() - suffix_within(s, max).len()),
    decreases s.len(),
{
    if s.len() == 0 {
        assert(encode_utf8(s) =~= Seq::<u8>::empty());
        assert(s.take(0) =~= s);
        assert(s.skip(0) =~= s);
    } else if blen(s) <= max {
        assert(s.take(s.len() as int) =~= s);
        assert(s.skip(0) =~= s);
    } else {
        lemma_within_fit(s.drop_last(), max);
        lemma_within_fit(s.skip(1), max);
        assert(s.drop_last().take(prefix_within(s, max).len() as int) =~= s.take(
            prefix_within(s, max).len() as int,
        ));
        assert(s.skip(1).skip(s.len() - 1 - suffix_within(s, max).len()) =~= s.skip(
            s.len() - suffix_within(s, max).len(),
        ));
    }
}

/// What trimming the front leaves is a tail of the text, and is trimmed.
pub proof fn lemma_trim_start(s: Seq<char>)
    ensures
        trim_start(s).len() <= s.len(),
        trim_start(s) == s.skip(s.len() - trim_start(s).len()),
        trim_start(s).len() > 0 ==> !is_space(trim_start(s)[0]),
        forall|i: int| 0 <= i < s.len() - trim_start(s).len() ==> is_space(s[i]),
    decreases s.len(),
{
    if s.len() > 0 && is_space(s[0]) {
        let t = s.skip(1);
        lemma_trim_start(t);
        assert(trim_start(s) =~= s.skip(s.len() - trim_start(s).len()));
        assert forall|i: int| 0 <= i < s.len() - trim_start(s).len() implies is_space(s[i]) by {
            if i > 0 {
                assert(t[i - 1] == s[i]);
            }
        }
    } else {
        assert(s.skip(0) =~= s);
    }
}

/// What trimming the end leaves is a prefix of the text, and is trimmed.
pub proof fn lemma_trim_end(s: Seq<char>)
    ensures
        trim_end(s).len() <= s.len(),
        trim_end(s) == s.take(trim_end(s).len() as int),
        trim_end(s).len() > 0 ==> !is_space(trim_end(s).last()),
        forall|i: int| trim_end(s).len() <= i < s.len() ==> is_space(s[i]),
    decreases s.len(),
{
    if s.len() > 0 && is_space(s.last()) {
        let t = s.drop_last();
        lemma_trim_end(t);
        assert(trim_end(s) =~= s.take(trim_end(s).len() as int));
        assert forall|i: int| trim_end(s).len() <= i < s.len() implies is_space(s[i]) by {
            if i < t.len() {
                assert(t[i] == s[i]);
            }
        }
    } else {
        assert(s.take(s.len() as int) =~= s);
    }
}

/// The position found by `next_at` is the first one.
pub proof fn lemma_next_at(s: Seq<char>, c: char, from: int)
    requires
        0 <= from <= s.len(),
    ensures
        from <= next_at(s, c, from) <= s.len(),
        next_at(s, c, from) < s.len() ==> s[next_at(s, c, from)] == c,
        forall|i: int| from <= i < next_at(s, c, from) ==> s[i] != c,
    decreases s.len() - from,
{
    if from < s.len() && s[from] != c {
        lemma_next_at(s, c, from + 1);
    }
}

/// A word ends at or after its start.
pub proof fn lemma_word_end(s: Seq<char>, from: int)
    requires
        0 <= from <= s.len(),
    ensures
        from <= word_end(s, from) <= s.len(),
        forall|i: int| from <= i < word_end(s, from) ==> !is_space(s[i]),
        word_end(s, from) < s.len() ==> is_space(s[word_end(s, from)]),
    decreases s.len() - from,
{
    if from < s.len() && !is_space(s[from]) {
        lemma_word_end(s, from + 1);
    }
}

/// A position found is one that holds the name.
pub proof fn lemma_last_index(names: Seq<Seq<char>>, name: Seq<char>)
    requires
        names.len() <= usize::MAX,
    ensures
        match last_index(names, name) {
            Some(i) => i < names.len() && names[i as int] == name && forall|k: int|
                i < k < names.len() ==> names[k] != name,
            None => !names.contains(name),
        },
    decreases names.len(),
{
    if names.len() > 0 && names.last() != name {
        lemma_last_index(names.drop_last(), name);
        let found = last_index(names.drop_last(), name);
        if found is None {
            assert forall|k: int| 0 <= k < names.len() implies names[k] != name by {
                if k < names.len() - 1 {
                    assert(names.drop_last()[k] == names[k]);
                }
            }
        } else {
            assert forall|k: int| found->0 < k < names.len() implies names[k] != name by {
                if k < names.len() - 1 {
                    assert(names.drop_last()[k] == names[k]);
                }
            }
        }
    }
}

// ---------------------------------------------------------------------------
// Standard library functions on `String` and `char`
// ---------------------------------------------------------------------------

/// `String::push` appends one character.
pub assume_specification[ String::push ](s: &mut String, c: char)
    ensures
        final(s)@ == old(s)@.push(c),
;

/// `String::push_str` appends a text.
pub assume_specification[ String::push_str ](s: &mut String, other: &str)
    ensures
        final(s)@ == old(s)@ + other@,
;

/// What `str::to_lowercase` gives of a text that is not all ASCII.
pub uninterp spec fn unicode_lowercase(s: Seq<char>) -> Seq<char>;

/// A text in lower case. Of ASCII, the letters `A` to `Z` change.
pub open spec fn lowercase(s: Seq<char>) -> Seq<char> {
    if is_ascii_chars(s) {
        s.map_values(|c: char| ascii_lower(c))
    } else {
        unicode_lowercase(s)
    }
}

/// `str::to_lowercase`, which is a function of the text alone: the Unicode
/// lower case mapping of its characters, which on ASCII maps the letters `A` to
/// `Z` to `a` to `z` and nothing else.
#[verifier::external_body]
pub(crate) fn to_lowercase(s: &str) -> (r: String)
    ensures
        r@ == (if is_ascii_chars(s@) {
            s@.map_values(|c: char| ascii_lower(c))
        } else {
            unicode_lowercase(s@)
        }),
{
    s.to_lowercase()
}

/// What `char::to_lowercase` gives of a character that is not ASCII.
pub uninterp spec fn unicode_lower_char(c: char) -> Seq<char>;

/// A character in lower case, which may be several.
pub open spec fn lower_char(c: char) -> Seq<char> {
    if (c as u32) < 128 {
        seq![ascii_lower(c)]
    } else {
        unicode_lower_char(c)
    }
}

/// `char::to_lowercase`, collected, which is a function of the character alone:
/// on ASCII the letters `A` to `Z` become `a` to `z` and nothing else changes.
#[verifier::external_body]
pub(crate) fn to_lower_char(c: char) -> (r: String)
    ensures
        r@ == (if (c as u32) < 128 {
            seq![ascii_lower(c)]
        } else {
            unicode_lower_char(c)
        }),
{
    c.to_lowercase().to_string()
}

/// What `char::is_alphanumeric` says of a character that is not ASCII.
pub uninterp spec fn unicode_alphanumeric(c: char) -> bool;

/// A letter or a number.
pub open spec fn alphanumeric(c: char) -> bool {
    if (c as u32) < 128 {
        is_ascii_letter(c) || is_ascii_digit(c)
    } else {
        unicode_alphanumeric(c)
    }
}

/// `char::is_alphanumeric`, which is a function of the character alone: on ASCII
/// the letters and the digits.
#[verifier::external_body]
pub(crate) fn is_alphanumeric(c: char) -> (r: bool)
    ensures
        r == (if (c as u32) < 128 {
            is_ascii_letter(c) || is_ascii_digit(c)
        } else {
            unicode_alphanumeric(c)
        }),
{
    c.is_alphanumeric()
}

/// What the `Debug` formatting of a `str` gives: the text in quotes, with
/// escapes.
pub uninterp spec fn debug_form(s: Seq<char>) -> Seq<char>;

/// The `Debug` formatting of a `str`, which is a function of the text alone.
#[verifier::external_body]
pub(crate) fn to_debug(s: &str) -> (r: String)
    ensures
        r@ == debug_form(s@),
{
    format!("{s:?}")
}

// ---------------------------------------------------------------------------
// Executable functions
// ---------------------------------------------------------------------------

/// The characters of a text.
pub fn to_chars(s: &str) -> (r: Vec<char>)
    ensures
        r@ == s@,
{
    let mut r: Vec<char> = Vec::new();
    for c in it: s.chars()
        invariant
            it.seq() == s@,
            r@ == s@.take(it.index() as int),
    {
        r.push(c);
    }
    r
}

/// The text made of the characters `from..to`.
pub fn slice(chars: &[char], from: usize, to: usize) -> (r: String)
    requires
        from <= to <= chars@.len(),
    ensures
        r@ == chars@.subrange(from as int, to as int),
{
    let mut r = String::new();
    let mut i: usize = from;
    while i < to
        invariant
            from <= i <= to <= chars@.len(),
            r@ == chars@.subrange(from as int, i as int),
        decreases to - i,
    {
        r.push(chars[i]);
        i += 1;
    }
    r
}

/// The text made of the given characters.
pub fn from_chars(chars: &[char]) -> (r: String)
    ensures
        r@ == chars@,
{
    let r = slice(chars, 0, chars.len());
    assert(chars@.subrange(0, chars@.len() as int) =~= chars@);
    r
}

/// Whether two texts are the same.
pub fn same(a: &str, b: &str) -> (r: bool)
    ensures
        r == (a@ == b@),
{
    let x = a.as_bytes();
    let y = b.as_bytes();
    if x.len() != y.len() {
        return false;
    }
    let mut i: usize = 0;
    while i < x.len()
        invariant
            i <= x@.len(),
            x@.len() == y@.len(),
            x@ == encode_utf8(a@),
            y@ == encode_utf8(b@),
            forall|k: int| 0 <= k < i ==> x@[k] == y@[k],
        decreases x@.len() - i,
    {
        if x[i] != y[i] {
            return false;
        }
        i += 1;
    }
    proof {
        assert(x@ =~= y@);
        lemma_same_bytes(a@, b@);
    }
    true
}

/// Whether a character is Unicode whitespace.
pub fn space(c: char) -> (r: bool)
    ensures
        r == is_space(c),
{
    let n: u32 = c as u32;
    (0x09 <= n && n <= 0x0d) || n == 0x20 || n == 0x85 || n == 0xa0 || n == 0x1680 || (0x2000 <= n
        && n <= 0x200a) || n == 0x2028 || n == 0x2029 || n == 0x202f || n == 0x205f || n == 0x3000
}

/// The number of UTF-8 bytes of one character.
pub fn char_width(c: char) -> (r: usize)
    ensures
        r == width(c),
        1 <= r <= 4,
{
    proof {
        char_is_scalar(c);
    }
    let n: u32 = c as u32;
    if n < 0x80 {
        1
    } else if n < 0x800 {
        2
    } else if n < 0x10000 {
        3
    } else {
        4
    }
}

/// Where trimming the characters `from..to` at both ends leaves off.
pub fn trim_bounds(chars: &[char], from: usize, to: usize) -> (r: (usize, usize))
    requires
        from <= to <= chars@.len(),
    ensures
        from <= r.0 <= r.1 <= to,
        chars@.subrange(r.0 as int, r.1 as int) == trim(chars@.subrange(from as int, to as int)),
        chars@.subrange(r.0 as int, to as int) == trim_start(
            chars@.subrange(from as int, to as int),
        ),
{
    let mut a: usize = from;
    let ghost whole = chars@.subrange(from as int, to as int);
    proof {
        assert(chars@.subrange(a as int, to as int) =~= whole);
    }
    while a < to && space(chars[a])
        invariant
            from <= a <= to <= chars@.len(),
            trim_start(chars@.subrange(a as int, to as int)) == trim_start(whole),
        decreases to - a,
    {
        proof {
            let cur = chars@.subrange(a as int, to as int);
            assert(cur[0] == chars@[a as int]);
            assert(cur.skip(1) =~= chars@.subrange(a + 1, to as int));
        }
        a += 1;
    }
    let ghost front = chars@.subrange(a as int, to as int);
    proof {
        if a < to {
            assert(front[0] == chars@[a as int]);
        }
        assert(front == trim_start(whole));
    }
    let mut b: usize = to;
    while b > a && space(chars[b - 1])
        invariant
            from <= a <= b <= to <= chars@.len(),
            trim_end(chars@.subrange(a as int, b as int)) == trim_end(front),
        decreases b - a,
    {
        proof {
            let cur = chars@.subrange(a as int, b as int);
            assert(cur.last() == chars@[b - 1]);
            assert(cur.drop_last() =~= chars@.subrange(a as int, b - 1));
        }
        b -= 1;
    }
    proof {
        let cur = chars@.subrange(a as int, b as int);
        if b > a {
            assert(cur.last() == chars@[b - 1]);
        }
        assert(trim_end(cur) == cur);
    }
    (a, b)
}

/// The text without whitespace at either end.
pub fn trimmed(s: &str) -> (r: String)
    ensures
        r@ == trim(s@),
{
    let chars = to_chars(s);
    let b = trim_bounds(chars.as_slice(), 0, chars.len());
    assert(chars@.subrange(0, chars@.len() as int) =~= s@);
    slice(chars.as_slice(), b.0, b.1)
}

/// Whether a text holds nothing but whitespace.
pub fn is_blank(s: &str) -> (r: bool)
    ensures
        r == (trim(s@).len() == 0),
{
    let chars = to_chars(s);
    let b = trim_bounds(chars.as_slice(), 0, chars.len());
    assert(chars@.subrange(0, chars@.len() as int) =~= s@);
    b.0 == b.1
}

/// Whether `part` stands at position `at`.
pub fn matches_at(chars: &[char], part: &[char], at: usize) -> (r: bool)
    requires
        at <= chars@.len(),
    ensures
        r == occurs_at(chars@, part@, at as int),
{
    let n: usize = chars.len();
    if n - at < part.len() {
        return false;
    }
    let mut i: usize = 0;
    while i < part.len()
        invariant
            i <= part@.len(),
            n == chars@.len(),
            at + part@.len() <= n,
            forall|k: int| 0 <= k < i ==> chars@[at + k] == part@[k],
        decreases part@.len() - i,
    {
        if chars[at + i] != part[i] {
            proof {
                assert(chars@.subrange(at as int, at + part@.len())[i as int] != part@[i as int]);
            }
            return false;
        }
        i += 1;
    }
    assert(chars@.subrange(at as int, at + part@.len()) =~= part@);
    true
}

/// The first position at or after `from` where `part` stands.
pub fn find_from(chars: &[char], part: &[char], from: usize) -> (r: Option<usize>)
    requires
        from <= chars@.len(),
    ensures
        match r {
            Some(at) => from <= at && occurs_at(chars@, part@, at as int) && forall|k: int|
                from <= k < at ==> !occurs_at(chars@, part@, k),
            None => forall|k: int| from <= k ==> !occurs_at(chars@, part@, k),
        },
        match first_at(chars@, part@, from as int) {
            Some(at) => r is Some && r->0 == at,
            None => r is None,
        },
{
    let mut at: usize = from;
    loop
        invariant
            from <= at <= chars@.len(),
            first_at(chars@, part@, at as int) == first_at(chars@, part@, from as int),
            forall|k: int| from <= k < at ==> !occurs_at(chars@, part@, k),
        decreases chars@.len() - at,
    {
        if matches_at(chars, part, at) {
            return Some(at);
        }
        if at == chars.len() {
            assert(first_at(chars@, part@, at + 1) is None);
            return None;
        }
        at += 1;
    }
}

/// Whether `part` stands somewhere in `s`.
pub fn has(s: &str, part: &str) -> (r: bool)
    ensures
        r == contains(s@, part@),
{
    let a = to_chars(s);
    let b = to_chars(part);
    find_from(a.as_slice(), b.as_slice(), 0).is_some()
}

/// Whether `s` begins with `part`.
pub fn has_prefix(s: &str, part: &str) -> (r: bool)
    ensures
        r == starts_with(s@, part@),
{
    let a = to_chars(s);
    let b = to_chars(part);
    matches_at(a.as_slice(), b.as_slice(), 0)
}

/// Whether `s` ends with `part`.
pub fn has_suffix(s: &str, part: &str) -> (r: bool)
    ensures
        r == ends_with(s@, part@),
{
    let a = to_chars(s);
    let b = to_chars(part);
    if a.len() < b.len() {
        return false;
    }
    matches_at(a.as_slice(), b.as_slice(), a.len() - b.len())
}

/// Appends a number in decimal.
pub fn push_decimal(s: &mut String, n: u64)
    ensures
        final(s)@ == old(s)@ + decimal(n as nat),
    decreases n,
{
    if n >= 10 {
        push_decimal(s, n / 10);
    }
    let d: u8 = (n % 10) as u8;
    let c: char = (48 + d) as char;
    proof {
        assert(c == digit((n % 10) as nat));
        if n >= 10 {
            assert(old(s)@ + decimal(n as nat) =~= (old(s)@ + decimal((n / 10) as nat)).push(c));
        } else {
            assert(old(s)@ + decimal(n as nat) =~= old(s)@.push(c));
        }
    }
    s.push(c);
}

/// A number written in decimal.
pub fn number(n: u64) -> (r: String)
    ensures
        r@ == decimal(n as nat),
{
    let mut s = String::new();
    push_decimal(&mut s, n);
    assert(s@ =~= decimal(n as nat));
    s
}

/// Whether `a` comes before `b` in the order of texts.
pub fn before(a: &str, b: &str) -> (r: bool)
    ensures
        r == precedes(a@, b@),
{
    let x = to_chars(a);
    let y = to_chars(b);
    let mut i: usize = 0;
    assert(x@.skip(0) =~= x@);
    assert(y@.skip(0) =~= y@);
    loop
        invariant
            i <= x@.len(),
            i <= y@.len(),
            x@ == a@,
            y@ == b@,
            precedes(x@.skip(i as int), y@.skip(i as int)) == precedes(a@, b@),
        decreases x@.len() - i,
    {
        if i == y.len() {
            return false;
        }
        if i == x.len() {
            return true;
        }
        if x[i] != y[i] {
            return (x[i] as u32) < (y[i] as u32);
        }
        proof {
            assert(x@.skip(i as int).skip(1) =~= x@.skip(i + 1));
            assert(y@.skip(i as int).skip(1) =~= y@.skip(i + 1));
        }
        i += 1;
    }
}

/// Two texts joined.
pub fn joined(a: &str, b: &str) -> (r: String)
    ensures
        r@ == a@ + b@,
{
    let mut s = String::from_str(a);
    s.push_str(b);
    s
}

/// The words of a text.
pub fn split_words(s: &str) -> (r: Vec<String>)
    ensures
        texts(r@) == words(s@),
{
    let chars = to_chars(s);
    let mut r: Vec<String> = Vec::new();
    let mut at: usize = 0;
    proof {
        assert(chars@.skip(0) =~= s@);
        assert(texts(r@) + words(s@) =~= words(s@));
    }
    loop
        invariant
            at <= chars@.len(),
            texts(r@) + words(chars@.skip(at as int)) == words(s@),
        decreases chars@.len() - at,
    {
        let n: usize = chars.len();
        let b = trim_bounds(chars.as_slice(), at, n);
        let from: usize = b.0;
        proof {
            assert(chars@.subrange(at as int, n as int) =~= chars@.skip(at as int));
            assert(chars@.subrange(from as int, n as int) =~= chars@.skip(from as int));
        }
        let ghost t = chars@.skip(from as int);
        if from == n {
            proof {
                assert(words(chars@.skip(at as int)) =~= Seq::empty());
                assert(texts(r@) =~= words(s@));
            }
            return r;
        }
        let mut to: usize = from;
        while to < n && !space(chars[to])
            invariant
                from <= to <= n == chars@.len(),
                t == chars@.skip(from as int),
                word_end(t, to - from) == word_end(t, 0),
            decreases n - to,
        {
            to += 1;
        }
        proof {
            lemma_word_end(t, 0);
            assert(word_end(t, to - from) == to - from);
            lemma_trim_start(chars@.skip(at as int));
            assert(to > from);
            assert(t.take(to - from) =~= chars@.subrange(from as int, to as int));
            assert(t.skip(to - from) =~= chars@.skip(to as int));
        }
        let word = slice(chars.as_slice(), from, to);
        proof {
            let rest = words(chars@.skip(to as int));
            assert(texts(r@.push(word)) =~= texts(r@).push(word@));
            assert(texts(r@.push(word)) + rest =~= texts(r@) + (seq![word@] + rest));
        }
        r.push(word);
        at = to;
    }
}

/// The texts joined with a separator between them.
pub fn join_with(parts: &Vec<String>, separator: &str) -> (r: String)
    ensures
        r@ == join(texts(parts@), separator@),
{
    let mut r = String::new();
    let mut i: usize = 0;
    while i < parts.len()
        invariant
            i <= parts@.len(),
            r@ == join(texts(parts@).take(i as int), separator@),
        decreases parts@.len() - i,
    {
        proof {
            let head = texts(parts@).take(i + 1);
            assert(head.drop_last() =~= texts(parts@).take(i as int));
        }
        if i > 0 {
            r.push_str(separator);
        }
        r.push_str(parts[i].as_str());
        proof {
            if i == 0 {
                assert(r@ =~= parts@[0]@);
            }
        }
        i += 1;
    }
    assert(texts(parts@).take(i as int) =~= texts(parts@));
    r
}

/// A title as it is compared with others.
pub fn comparable_title(s: &str) -> (r: String)
    ensures
        r@ == title_key(s@),
{
    proof {
        reveal_strlit(" ");
        assert(" "@ =~= seq![' ']);
    }
    let squeezed = join_with(&split_words(s), " ");
    to_lowercase(squeezed.as_str())
}

/// Whether a text says something and fits in `max` bytes.
pub fn bounded_text(value: &str, max: usize) -> (r: bool)
    ensures
        r == bounded(value@, max as nat),
{
    !is_blank(value) && value.as_bytes().len() <= max
}

/// `String::from_utf8`: the text that some bytes are in UTF-8, where they are
/// one.
#[verifier::external_body]
pub(crate) fn utf8_text(data: Vec<u8>) -> (r: Option<String>)
    ensures
        match r {
            Some(s) => valid_utf8(data@) && s@ == decode_utf8(data@),
            None => !valid_utf8(data@),
        },
{
    String::from_utf8(data).ok()
}

/// Whether a list holds a text.
pub fn list_has(list: &Vec<String>, s: &str) -> (r: bool)
    ensures
        r == texts(list@).contains(s@),
{
    let mut i: usize = 0;
    while i < list.len()
        invariant
            i <= list@.len(),
            forall|k: int| 0 <= k < i ==> texts(list@)[k] != s@,
        decreases list@.len() - i,
    {
        if same(list[i].as_str(), s) {
            assert(texts(list@)[i as int] == s@);
            return true;
        }
        i += 1;
    }
    false
}

/// A text with every occurrence of a part replaced.
pub fn replace_all(s: &str, part: &str, with: &str) -> (r: String)
    requires
        part@.len() > 0,
    ensures
        r@ == replaced(s@, part@, with@, 0),
{
    let chars = to_chars(s);
    let needle = to_chars(part);
    let mut out = String::new();
    let mut from: usize = 0;
    let n: usize = chars.len();
    assert(out@ + replaced(s@, part@, with@, 0) =~= replaced(s@, part@, with@, 0));
    loop
        invariant
            from <= n == chars@.len(),
            chars@ == s@,
            needle@ == part@,
            part@.len() > 0,
            out@ + replaced(s@, part@, with@, from as int) == replaced(s@, part@, with@, 0),
        decreases chars@.len() - from,
    {
        match find_from(chars.as_slice(), needle.as_slice(), from) {
            Some(at) => {
                let ghost before = out@;
                let kept = slice(chars.as_slice(), from, at);
                out.push_str(kept.as_str());
                out.push_str(with);
                let next: usize = at + needle.len();
                proof {
                    assert(out@ + replaced(s@, part@, with@, next as int) =~= before + (s@.subrange(
                        from as int,
                        at as int,
                    ) + with@ + replaced(s@, part@, with@, next as int)));
                }
                from = next;
            },
            None => {
                let kept = slice(chars.as_slice(), from, n);
                assert(s@.subrange(from as int, n as int) =~= s@.skip(from as int));
                out.push_str(kept.as_str());
                return out;
            },
        }
    }
}

/// The byte position of every character of a text, and of its end.
pub fn byte_offsets(s: &str) -> (r: Vec<usize>)
    ensures
        r@.len() == s@.len() + 1,
        forall|i: int| 0 <= i <= s@.len() ==> #[trigger] r@[i] == blen(s@.take(i)),
{
    let bytes: usize = s.as_bytes().len();
    let chars = to_chars(s);
    let mut r: Vec<usize> = Vec::new();
    let mut at: usize = 0;
    let mut i: usize = 0;
    r.push(0);
    proof {
        assert(s@.take(0) =~= Seq::<char>::empty());
        assert(encode_utf8(s@.take(0)) =~= Seq::<u8>::empty());
    }
    while i < chars.len()
        invariant
            i <= chars@.len(),
            chars@ == s@,
            bytes == blen(s@),
            r@.len() == i + 1,
            at == blen(s@.take(i as int)),
            forall|k: int| 0 <= k <= i ==> #[trigger] r@[k] == blen(s@.take(k)),
        decreases chars@.len() - i,
    {
        proof {
            assert(s@.take(i + 1) =~= s@.take(i as int).push(s@[i as int]));
            lemma_blen_push(s@.take(i as int), s@[i as int]);
            lemma_blen_take(s@, i + 1, s@.len() as int);
            assert(s@.take(s@.len() as int) =~= s@);
        }
        at += char_width(chars[i]);
        r.push(at);
        i += 1;
    }
    r
}

/// The part of a text between two byte positions, where both are boundaries of
/// characters.
pub fn get_bytes(s: &str, from: usize, to: usize) -> (r: Option<&str>)
    ensures
        match byte_slice(s@, from as int, to as int) {
            Some(part) => r is Some && r->0@ == part && encode_utf8(part) == encode_utf8(
                s@,
            ).subrange(from as int, to as int),
            None => r is None,
        },
{
    let n: usize = s.as_bytes().len();
    if from > to || to > n || !s.is_char_boundary(from) || !s.is_char_boundary(to) {
        return None;
    }
    let ghost bytes = encode_utf8(s@);
    let (head, _) = s.split_at(to);
    let ghost front = encode_utf8(head@);
    proof {
        encode_utf8_valid_utf8(s@);
        encode_utf8_valid_utf8(head@);
        assert(front =~= bytes.subrange(0, to as int));
        if from == to {
            is_char_boundary_start_end_of_seq(front);
        } else {
            is_char_boundary_iff_not_is_continuation_byte(bytes, from as int);
            is_char_boundary_iff_not_is_continuation_byte(front, from as int);
            assert(front[from as int] == bytes[from as int]);
        }
    }
    let (_, part) = head.split_at(from);
    proof {
        assert(encode_utf8(part@) =~= bytes.subrange(from as int, to as int));
        encode_utf8_decode_utf8(part@);
    }
    Some(part)
}

/// The part of a text between two byte positions, and nothing where they are
/// not boundaries of characters.
pub fn bytes_or_empty(s: &str, from: usize, to: usize) -> (r: String)
    ensures
        r@ == slice_or_empty(s@, from as int, to as int),
{
    match get_bytes(s, from, to) {
        Some(part) => String::from_str(part),
        None => String::new(),
    }
}

/// The part of a text between two byte positions, and nothing where they are
/// not boundaries of characters.
pub open spec fn slice_or_empty(s: Seq<char>, from: int, to: int) -> Seq<char> {
    match byte_slice(s, from, to) {
        Some(part) => part,
        None => Seq::empty(),
    }
}

} // verus!
