//! Structured values as requests carry them and responses return them.

use vstd::prelude::*;
use vstd::string::StringExecFns;

use crate::text::{
    before, blen, decimal, digit, hex_digit, is_ascii_digit, lemma_blen_bounds, lemma_blen_concat,
    lemma_blen_one, lemma_blen_push, lemma_width, number, precedes, same, texts,
    to_chars,
};

verus! {

/// A JSON value. A number is kept as it is written.
pub enum Json {
    Null,
    Bool(bool),
    Num(String),
    Str(String),
    Arr(Vec<Json>),
    Obj(Vec<Member>),
}

/// One member of an object.
pub struct Member {
    pub name: String,
    pub value: Json,
}

/// What a JSON value says.
pub enum JsonModel {
    Null,
    Bool(bool),
    Num(Seq<char>),
    Str(Seq<char>),
    Arr(Seq<JsonModel>),
    Obj(Seq<MemberModel>),
}

/// What one member of an object says.
pub struct MemberModel {
    pub name: Seq<char>,
    pub value: JsonModel,
}

/// What a value says.
pub open spec fn model(j: Json) -> JsonModel
    decreases j,
{
    match j {
        Json::Null => JsonModel::Null,
        Json::Bool(b) => JsonModel::Bool(b),
        Json::Num(s) => JsonModel::Num(s@),
        Json::Str(s) => JsonModel::Str(s@),
        Json::Arr(items) => JsonModel::Arr(
            Seq::new(
                items@.len(),
                |i: int|
                    if 0 <= i < items@.len() {
                        model(items@[i])
                    } else {
                        JsonModel::Null
                    },
            ),
        ),
        Json::Obj(members) => JsonModel::Obj(
            Seq::new(
                members@.len(),
                |i: int|
                    if 0 <= i < members@.len() {
                        MemberModel { name: members@[i].name@, value: model(members@[i].value) }
                    } else {
                        MemberModel { name: Seq::empty(), value: JsonModel::Null }
                    },
            ),
        ),
    }
}

impl View for Json {
    type V = JsonModel;

    open spec fn view(&self) -> JsonModel {
        model(*self)
    }
}

/// What a list of values says.
pub open spec fn models(v: Seq<Json>) -> Seq<JsonModel> {
    v.map_values(|j: Json| j@)
}

/// What a list of members says.
pub open spec fn member_models(v: Seq<Member>) -> Seq<MemberModel> {
    v.map_values(|m: Member| MemberModel { name: m.name@, value: m.value@ })
}

/// An array says what its items say.
pub proof fn lemma_arr(items: Vec<Json>)
    ensures
        Json::Arr(items)@ == JsonModel::Arr(models(items@)),
{
    assert(Json::Arr(items)@->Arr_0 =~= models(items@));
}

/// An object says what its members say.
pub proof fn lemma_obj(members: Vec<Member>)
    ensures
        Json::Obj(members)@ == JsonModel::Obj(member_models(members@)),
{
    assert(Json::Obj(members)@->Obj_0 =~= member_models(members@));
}

/// How a character is written inside a JSON string: a quote, a backslash and
/// the control characters as escapes, every other as itself.
pub open spec fn escaped(c: char) -> Seq<char> {
    let n = c as u32;
    if c == '"' || c == '\\' {
        seq!['\\', c]
    } else if n == 0x08 {
        seq!['\\', 'b']
    } else if n == 0x09 {
        seq!['\\', 't']
    } else if n == 0x0a {
        seq!['\\', 'n']
    } else if n == 0x0c {
        seq!['\\', 'f']
    } else if n == 0x0d {
        seq!['\\', 'r']
    } else if n < 0x20 {
        seq!['\\', 'u', '0', '0', hex_digit((n / 16) as nat), hex_digit((n % 16) as nat)]
    } else {
        seq![c]
    }
}

/// A text with each of its characters as it is written inside a JSON string.
pub open spec fn escaped_text(s: Seq<char>) -> Seq<char>
    decreases s.len(),
{
    if s.len() == 0 {
        Seq::empty()
    } else {
        escaped_text(s.drop_last()) + escaped(s.last())
    }
}

/// The JSON string that stands for a text, with its quotes.
pub open spec fn json_string(s: Seq<char>) -> Seq<char> {
    seq!['"'] + escaped_text(s) + seq!['"']
}

proof fn lemma_escaped_length(s: Seq<char>)
    ensures
        blen(escaped_text(s)) >= blen(s),
    decreases s.len(),
{
    if s.len() > 0 {
        let c = s.last();
        lemma_escaped_length(s.drop_last());
        lemma_blen_concat(escaped_text(s.drop_last()), escaped(c));
        lemma_blen_push(s.drop_last(), c);
        assert(s.drop_last().push(c) =~= s);
        lemma_width(c);
        lemma_blen_one(c);
        lemma_blen_bounds(escaped(c));
    } else {
        assert(s =~= Seq::<char>::empty());
    }
}

/// A JSON string is longer than its text by its two quotes at least.
pub proof fn quotes_add_two_bytes(s: Seq<char>)
    ensures
        blen(json_string(s)) >= blen(s) + 2,
{
    lemma_escaped_length(s);
    lemma_blen_concat(seq!['"'], escaped_text(s));
    lemma_blen_concat(seq!['"'] + escaped_text(s), seq!['"']);
    lemma_blen_one('"');
    lemma_width('"');
}

/// `serde_json::to_string` of a `str`: the text as a JSON string, each character
/// as itself or as its escape, between two quotes. Writing a `str` to memory
/// does not fail.
#[verifier::external_body]
pub(crate) fn quoted(s: &str) -> (r: String)
    ensures
        r@ == json_string(s@),
{
    serde_json::to_string(s).unwrap_or_default()
}

/// The outside type of JSON values.
#[verifier::external_type_specification]
#[verifier::external_body]
pub struct ExValue(serde_json::Value);

/// Why a text is no JSON value: whether it ends before the value does, where in
/// the value, and in words, without and with that place.
pub struct JsonFault {
    pub cut: bool,
    pub path: String,
    pub inner: String,
    pub message: String,
}

/// The value of a fault.
pub struct FaultModel {
    pub cut: bool,
    pub path: Seq<char>,
    pub inner: Seq<char>,
    pub message: Seq<char>,
}

impl View for JsonFault {
    type V = FaultModel;

    open spec fn view(&self) -> FaultModel {
        FaultModel {
            cut: self.cut,
            path: self.path@,
            inner: self.inner@,
            message: self.message@,
        }
    }
}

/// The value that a text writes, or what is wrong with the text.
pub uninterp spec fn json_value(text: Seq<char>) -> Result<JsonModel, FaultModel>;

/// The value of a `serde_json::Value`, variant by variant: an object's members
/// in the order of its map, a number as `Number` writes it.
#[verifier::external_body]
fn from_value(value: serde_json::Value) -> Json {
    match value {
        serde_json::Value::Null => Json::Null,
        serde_json::Value::Bool(b) => Json::Bool(b),
        serde_json::Value::Number(n) => Json::Num(n.to_string()),
        serde_json::Value::String(s) => Json::Str(s),
        serde_json::Value::Array(items) => Json::Arr(items.into_iter().map(from_value).collect()),
        serde_json::Value::Object(map) => Json::Obj(
            map.into_iter().map(|(name, v)| Member { name, value: from_value(v) }).collect(),
        ),
    }
}

/// `serde_path_to_error::deserialize` of a `serde_json::Deserializer` to a
/// `serde_json::Value`, and `end` of the deserializer: the value that the whole
/// text writes, or the error, a function of the text alone.
#[verifier::external_body]
pub(crate) fn parse_json(text: &str) -> (r: Result<Json, JsonFault>)
    ensures
        match json_value(text@) {
            Ok(m) => r is Ok && r->Ok_0@ == m,
            Err(f) => r is Err && r->Err_0@ == f,
        },
{
    let mut source = serde_json::Deserializer::from_str(text);
    match serde_path_to_error::deserialize::<_, serde_json::Value>(&mut source) {
        Ok(value) => match source.end() {
            Ok(()) => Ok(from_value(value)),
            Err(e) => {
                let inner = e.to_string();
                Err(JsonFault { cut: false, path: String::new(), message: inner.clone(), inner })
            },
        },
        Err(e) => {
            let (path, inner) = (e.path().to_string(), e.inner().to_string());
            Err(JsonFault { cut: e.inner().is_eof(), path, inner, message: e.to_string() })
        },
    }
}

/// The value that a text writes, where it is one and nothing else.
pub fn read_json(text: &str) -> (r: Option<Json>)
    ensures
        match json_value(text@) {
            Ok(m) => r is Some && r->0@ == m,
            Err(_) => r is None,
        },
{
    match parse_json(text) {
        Ok(value) => Some(value),
        Err(_) => None,
    }
}

/// The compact text of a value.
pub open spec fn text_of(m: JsonModel) -> Seq<char>
    decreases m, 0nat,
{
    match m {
        JsonModel::Null => "null"@,
        JsonModel::Bool(b) => if b {
            "true"@
        } else {
            "false"@
        },
        JsonModel::Num(s) => s,
        JsonModel::Str(s) => json_string(s),
        JsonModel::Arr(items) => "["@ + items_text(items, items.len()) + "]"@,
        JsonModel::Obj(members) => "{"@ + members_text(members, members.len()) + "}"@,
    }
}

/// The first `count` items of an array, with commas between them.
pub open spec fn items_text(items: Seq<JsonModel>, count: nat) -> Seq<char>
    decreases items, count,
{
    if count == 0 || count > items.len() {
        Seq::empty()
    } else if count == 1 {
        text_of(items[0])
    } else {
        items_text(items, (count - 1) as nat) + ","@ + text_of(items[count - 1])
    }
}

/// The first `count` members of an object, with commas between them.
pub open spec fn members_text(members: Seq<MemberModel>, count: nat) -> Seq<char>
    decreases members, count,
{
    if count == 0 || count > members.len() {
        Seq::empty()
    } else {
        let before = members_text(members, (count - 1) as nat);
        let comma = if count == 1 {
            before
        } else {
            before + ","@
        };
        comma + json_string(members[count - 1].name) + ":"@ + text_of(members[count - 1].value)
    }
}

/// A text is one of the strings in a value.
pub open spec fn holds_text(m: JsonModel, s: Seq<char>) -> bool
    decreases m, 0nat,
{
    match m {
        JsonModel::Str(t) => t == s,
        JsonModel::Arr(items) => items_hold(items, items.len(), s),
        JsonModel::Obj(members) => members_hold(members, members.len(), s),
        _ => false,
    }
}

/// A text is one of the strings in the first `count` items.
pub open spec fn items_hold(items: Seq<JsonModel>, count: nat, s: Seq<char>) -> bool
    decreases items, count,
{
    0 < count <= items.len() && (items_hold(items, (count - 1) as nat, s) || holds_text(
        items[count - 1],
        s,
    ))
}

/// A text is one of the strings in the values of the first `count` members.
pub open spec fn members_hold(members: Seq<MemberModel>, count: nat, s: Seq<char>) -> bool
    decreases members, count,
{
    0 < count <= members.len() && (members_hold(members, (count - 1) as nat, s) || holds_text(
        members[count - 1].value,
        s,
    ))
}

/// The text of a value is longer than any string in it.
pub open spec fn covers_texts(m: JsonModel) -> bool {
    forall|s: Seq<char>| #[trigger]
        holds_text(m, s) ==> blen(s) + 2 <= blen(text_of(m))
}

proof fn lemma_items_cover(items: Seq<JsonModel>, count: nat, s: Seq<char>)
    requires
        forall|k: int| 0 <= k < items.len() ==> covers_texts(#[trigger] items[k]),
        items_hold(items, count, s),
    ensures
        blen(s) + 2 <= blen(items_text(items, count)),
    decreases count,
{
    assert(covers_texts(items[count - 1]));
    assert(items_hold(items, (count - 1) as nat, s) || holds_text(items[count - 1], s));
    if holds_text(items[count - 1], s) {
        assert(blen(s) + 2 <= blen(text_of(items[count - 1])));
    }
    if count > 1 {
        let before = items_text(items, (count - 1) as nat);
        lemma_blen_concat(before, ","@);
        lemma_blen_concat(before + ","@, text_of(items[count - 1]));
        if items_hold(items, (count - 1) as nat, s) {
            lemma_items_cover(items, (count - 1) as nat, s);
        }
    }
}

proof fn lemma_members_cover(members: Seq<MemberModel>, count: nat, s: Seq<char>)
    requires
        forall|k: int| 0 <= k < members.len() ==> covers_texts((#[trigger] members[k]).value),
        members_hold(members, count, s),
    ensures
        blen(s) + 2 <= blen(members_text(members, count)),
    decreases count,
{
    let before = members_text(members, (count - 1) as nat);
    let comma = if count == 1 {
        before
    } else {
        before + ","@
    };
    let name = json_string(members[count - 1].name);
    let value = text_of(members[count - 1].value);
    lemma_blen_concat(before, ","@);
    lemma_blen_concat(comma, name);
    lemma_blen_concat(comma + name, ":"@);
    lemma_blen_concat(comma + name + ":"@, value);
    assert(covers_texts(members[count - 1].value));
    assert(members_hold(members, (count - 1) as nat, s) || holds_text(
        members[count - 1].value,
        s,
    ));
    if holds_text(members[count - 1].value, s) {
        assert(blen(s) + 2 <= blen(value));
    }
    if members_hold(members, (count - 1) as nat, s) {
        lemma_members_cover(members, (count - 1) as nat, s);
    }
}

/// The value of the first member with this name.
pub open spec fn lookup(members: Seq<MemberModel>, name: Seq<char>) -> Option<JsonModel>
    decreases members.len(),
{
    if members.len() == 0 {
        None
    } else if members[0].name == name {
        Some(members[0].value)
    } else {
        lookup(members.skip(1), name)
    }
}

/// A member of an object.
pub open spec fn field(name: Seq<char>, value: JsonModel) -> MemberModel {
    MemberModel { name, value }
}

impl JsonModel {
    /// The member with this name, where the value is an object that has one.
    pub open spec fn get(self, name: Seq<char>) -> Option<JsonModel> {
        match self {
            JsonModel::Obj(members) => lookup(members, name),
            _ => None,
        }
    }

    /// The items of an array.
    pub open spec fn array(self) -> Option<Seq<JsonModel>> {
        match self {
            JsonModel::Arr(items) => Some(items),
            _ => None,
        }
    }

    /// The text of a string.
    pub open spec fn string(self) -> Option<Seq<char>> {
        match self {
            JsonModel::Str(s) => Some(s),
            _ => None,
        }
    }

    /// The items of the array that the member with this name is, and none where
    /// it is missing or no array.
    pub open spec fn items(self, name: Seq<char>) -> Seq<JsonModel> {
        match self.get(name) {
            Some(JsonModel::Arr(items)) => items,
            _ => Seq::empty(),
        }
    }

    /// The text of the member with this name.
    pub open spec fn text(self, name: Seq<char>) -> Option<Seq<char>> {
        match self.get(name) {
            Some(JsonModel::Str(s)) => Some(s),
            _ => None,
        }
    }

    /// The number, where the value is one that is written with digits alone and
    /// fits in 64 bits.
    pub open spec fn natural(self) -> Option<u64> {
        match self {
            JsonModel::Num(s) => if s.len() > 0 && all_digits(s) && digits_value(s) <= u64::MAX {
                Some(digits_value(s) as u64)
            } else {
                None
            },
            _ => None,
        }
    }
}

/// Nothing but decimal digits.
pub open spec fn all_digits(s: Seq<char>) -> bool {
    forall|i: int| 0 <= i < s.len() ==> is_ascii_digit(#[trigger] s[i])
}

/// The number that decimal digits write.
pub open spec fn digits_value(s: Seq<char>) -> nat
    decreases s.len(),
{
    if s.len() == 0 {
        0
    } else {
        digits_value(s.drop_last()) * 10 + ((s.last() as u32) - 48) as nat
    }
}

/// A longer run of digits writes no smaller number.
proof fn lemma_digits_take(s: Seq<char>, i: int)
    requires
        0 <= i <= s.len(),
        all_digits(s),
    ensures
        digits_value(s.take(i)) <= digits_value(s),
    decreases s.len() - i,
{
    if i < s.len() {
        lemma_digits_take(s, i + 1);
        assert(s.take(i + 1).drop_last() =~= s.take(i));
    } else {
        assert(s.take(i) =~= s);
    }
}

/// The array of some texts.
pub open spec fn texts_model(list: Seq<Seq<char>>) -> JsonModel {
    JsonModel::Arr(list.map_values(|t: Seq<char>| JsonModel::Str(t)))
}

/// The JSON number of a natural number.
pub open spec fn nat_model(n: nat) -> JsonModel {
    JsonModel::Num(decimal(n))
}

pub proof fn lemma_decimal(n: nat)
    ensures
        decimal(n).len() > 0,
        all_digits(decimal(n)),
        digits_value(decimal(n)) == n,
    decreases n,
{
    let last = digit(n % 10);
    assert(is_ascii_digit(last) && (last as u32) == 48 + n % 10);
    if n < 10 {
        assert(decimal(n).drop_last() =~= Seq::empty());
        assert(digits_value(Seq::<char>::empty()) == 0);
    } else {
        lemma_decimal(n / 10);
        assert(decimal(n).drop_last() =~= decimal(n / 10));
    }
}

/// A number that is written reads as itself.
pub proof fn numbers_come_back(n: u64)
    ensures
        nat_model(n as nat).natural() == Some(n),
{
    lemma_decimal(n as nat);
}

/// The number that decimal digits write, where it fits in 64 bits.
pub fn parse_natural(s: &str) -> (r: Option<u64>)
    ensures
        r == JsonModel::Num(s@).natural(),
{
    let chars = to_chars(s);
    if chars.len() == 0 {
        return None;
    }
    let mut n: u64 = 0;
    let mut over = false;
    let mut i: usize = 0;
    while i < chars.len()
        invariant
            i <= chars@.len(),
            chars@ == s@,
            all_digits(chars@.take(i as int)),
            over ==> digits_value(chars@.take(i as int)) > u64::MAX,
            !over ==> n == digits_value(chars@.take(i as int)),
        decreases chars@.len() - i,
    {
        let c = chars[i];
        if !('0' <= c && c <= '9') {
            assert(!is_ascii_digit(s@[i as int]));
            return None;
        }
        let d: u64 = (c as u32 - 48) as u64;
        proof {
            assert(chars@.take(i + 1).drop_last() =~= chars@.take(i as int));
            assert(chars@.take(i + 1).last() == c);
        }
        if !over {
            if n > 1844674407370955161 || (n == 1844674407370955161 && d > 5) {
                over = true;
            } else {
                n = n * 10 + d;
            }
        }
        i += 1;
    }
    assert(chars@.take(i as int) =~= chars@);
    if over {
        None
    } else {
        Some(n)
    }
}

impl Json {
    /// A value that says the same.
    pub fn copy(&self) -> (r: Json)
        ensures
            r@ == self@,
        decreases self,
    {
        match self {
            Json::Null => Json::Null,
            Json::Bool(b) => Json::Bool(*b),
            Json::Num(s) => Json::Num(s.clone()),
            Json::Str(s) => Json::Str(s.clone()),
            Json::Arr(items) => {
                let mut list: Vec<Json> = Vec::new();
                let mut i: usize = 0;
                while i < items.len()
                    invariant
                        i <= items@.len(),
                        *self == Json::Arr(*items),
                        models(list@) == models(items@).take(i as int),
                    decreases items@.len() - i,
                {
                    proof {
                        assert(decreases_to!(*self => self->Arr_0));
                        assert(decreases_to!(*self => self->Arr_0@[i as int]));
                    }
                    let item = items[i].copy();
                    assert(models(list@.push(item)) =~= models(list@).push(item@));
                    assert(models(items@).take(i + 1) =~= models(items@).take(i as int).push(
                        items@[i as int]@,
                    ));
                    list.push(item);
                    i += 1;
                }
                proof {
                    assert(models(items@).take(i as int) =~= models(items@));
                    lemma_arr(list);
                    lemma_arr(*items);
                }
                Json::Arr(list)
            },
            Json::Obj(members) => {
                let mut list: Vec<Member> = Vec::new();
                let mut i: usize = 0;
                while i < members.len()
                    invariant
                        i <= members@.len(),
                        *self == Json::Obj(*members),
                        member_models(list@) == member_models(members@).take(i as int),
                    decreases members@.len() - i,
                {
                    proof {
                        assert(decreases_to!(*self => self->Obj_0));
                        assert(decreases_to!(*self => self->Obj_0@[i as int]));
                        assert(decreases_to!(*self => self->Obj_0@[i as int].value));
                    }
                    let m = Member {
                        name: members[i].name.clone(),
                        value: members[i].value.copy(),
                    };
                    proof {
                        let mm = member_models(members@)[i as int];
                        assert(member_models(list@.push(m)) =~= member_models(list@).push(mm));
                        assert(member_models(members@).take(i + 1) =~= member_models(
                            members@,
                        ).take(i as int).push(mm));
                    }
                    list.push(m);
                    i += 1;
                }
                proof {
                    assert(member_models(members@).take(i as int) =~= member_models(members@));
                    lemma_obj(list);
                    lemma_obj(*members);
                }
                Json::Obj(list)
            },
        }
    }

    /// Appends the compact text of the value.
    pub fn write(&self, out: &mut String)
        ensures
            final(out)@ == old(out)@ + text_of(self@),
            covers_texts(self@),
        decreases self,
    {
        match self {
            Json::Null => {
                out.push_str("null");
            },
            Json::Bool(b) => {
                if *b {
                    out.push_str("true");
                } else {
                    out.push_str("false");
                }
            },
            Json::Num(s) => {
                out.push_str(s.as_str());
            },
            Json::Str(s) => {
                proof {
                    quotes_add_two_bytes(s@);
                }
                out.push_str(quoted(s.as_str()).as_str());
            },
            Json::Arr(items) => {
                proof {
                    lemma_arr(*items);
                }
                let ghost ms = models(items@);
                let ghost start = out@;
                out.push_str("[");
                let mut i: usize = 0;
                assert(out@ =~= start + "["@ + items_text(ms, 0));
                while i < items.len()
                    invariant
                        i <= items@.len(),
                        *self == Json::Arr(*items),
                        ms == models(items@),
                        out@ == start + "["@ + items_text(ms, i as nat),
                        forall|k: int| 0 <= k < i ==> covers_texts(#[trigger] ms[k]),
                    decreases items@.len() - i,
                {
                    proof {
                        assert(decreases_to!(*self => self->Arr_0));
                        assert(decreases_to!(*self => self->Arr_0@[i as int]));
                    }
                    if i > 0 {
                        out.push_str(",");
                    }
                    items[i].write(out);
                    assert(out@ =~= start + "["@ + items_text(ms, (i + 1) as nat));
                    i += 1;
                }
                out.push_str("]");
                assert(out@ =~= start + text_of(self@));
                proof {
                    lemma_arr(*items);
                    assert(self@ == JsonModel::Arr(ms));
                    let inner = items_text(ms, ms.len());
                    lemma_blen_concat("["@, inner);
                    lemma_blen_concat("["@ + inner, "]"@);
                    assert forall|s: Seq<char>| #[trigger] holds_text(
                        self@,
                        s,
                    ) implies blen(s) + 2 <= blen(text_of(self@)) by {
                        lemma_items_cover(ms, ms.len(), s);
                    }
                }
            },
            Json::Obj(members) => {
                proof {
                    lemma_obj(*members);
                }
                let ghost ms = member_models(members@);
                let ghost start = out@;
                out.push_str("{");
                let mut i: usize = 0;
                assert(out@ =~= start + "{"@ + members_text(ms, 0));
                while i < members.len()
                    invariant
                        i <= members@.len(),
                        *self == Json::Obj(*members),
                        ms == member_models(members@),
                        out@ == start + "{"@ + members_text(ms, i as nat),
                        forall|k: int| 0 <= k < i ==> covers_texts((#[trigger] ms[k]).value),
                    decreases members@.len() - i,
                {
                    proof {
                        assert(decreases_to!(*self => self->Obj_0));
                        assert(decreases_to!(*self => self->Obj_0@[i as int]));
                        assert(decreases_to!(*self => self->Obj_0@[i as int].value));
                    }
                    if i > 0 {
                        out.push_str(",");
                    }
                    out.push_str(quoted(members[i].name.as_str()).as_str());
                    out.push_str(":");
                    members[i].value.write(out);
                    assert(out@ =~= start + "{"@ + members_text(ms, (i + 1) as nat));
                    i += 1;
                }
                out.push_str("}");
                assert(out@ =~= start + text_of(self@));
                proof {
                    lemma_obj(*members);
                    assert(self@ == JsonModel::Obj(ms));
                    let inner = members_text(ms, ms.len());
                    lemma_blen_concat("{"@, inner);
                    lemma_blen_concat("{"@ + inner, "}"@);
                    assert forall|s: Seq<char>| #[trigger] holds_text(
                        self@,
                        s,
                    ) implies blen(s) + 2 <= blen(text_of(self@)) by {
                        lemma_members_cover(ms, ms.len(), s);
                    }
                }
            },
        }
    }

    /// The compact text of the value.
    pub fn to_text(&self) -> (r: String)
        ensures
            r@ == text_of(self@),
            covers_texts(self@),
    {
        let mut out = String::new();
        self.write(&mut out);
        assert(out@ =~= text_of(self@));
        out
    }

    /// The member with this name, where the value is an object that has one.
    pub fn get(&self, name: &str) -> (r: Option<&Json>)
        ensures
            match self@.get(name@) {
                Some(m) => r is Some && r->0@ == m,
                None => r is None,
            },
    {
        match self {
            Json::Obj(members) => {
                proof {
                    lemma_obj(*members);
                    assert(member_models(members@).skip(0) =~= member_models(members@));
                }
                let ghost ms = member_models(members@);
                let mut i: usize = 0;
                while i < members.len()
                    invariant
                        i <= members@.len(),
                        ms == member_models(members@),
                        self@ == JsonModel::Obj(ms),
                        lookup(ms.skip(i as int), name@) == lookup(ms, name@),
                    decreases members@.len() - i,
                {
                    assert(ms.skip(i as int).skip(1) =~= ms.skip(i + 1));
                    if same(members[i].name.as_str(), name) {
                        return Some(&members[i].value);
                    }
                    i += 1;
                }
                None
            },
            _ => None,
        }
    }

    /// The text of the member with this name.
    pub fn text(&self, name: &str) -> (r: Option<&str>)
        ensures
            match self@.text(name@) {
                Some(s) => r is Some && r->0@ == s,
                None => r is None,
            },
    {
        match self.get(name) {
            Some(Json::Str(s)) => Some(s.as_str()),
            _ => None,
        }
    }

    /// The items of the array that the member with this name is.
    pub fn items(&self, name: &str) -> (r: Option<&Vec<Json>>)
        ensures
            r is Some <==> self@.get(name@) is Some && self@.get(name@)->0 is Arr,
            r matches Some(v) ==> models(v@) == self@.items(name@),
            r is None ==> self@.items(name@).len() == 0,
    {
        match self.get(name) {
            Some(Json::Arr(v)) => {
                proof {
                    lemma_arr(*v);
                }
                Some(v)
            },
            _ => None,
        }
    }

    /// The number, where the value is one that is written with digits alone and
    /// fits in 64 bits.
    pub fn natural(&self) -> (r: Option<u64>)
        ensures
            r == self@.natural(),
    {
        match self {
            Json::Num(s) => parse_natural(s.as_str()),
            _ => None,
        }
    }

    /// A string.
    pub fn string(s: &str) -> (r: Json)
        ensures
            r@ == JsonModel::Str(s@),
    {
        Json::Str(String::from_str(s))
    }

    /// A natural number.
    pub fn count(n: usize) -> (r: Json)
        ensures
            r@ == nat_model(n as nat),
    {
        Json::Num(number(n as u64))
    }

    /// An array.
    pub fn array(items: Vec<Json>) -> (r: Json)
        ensures
            r@ == JsonModel::Arr(models(items@)),
    {
        proof {
            lemma_arr(items);
        }
        Json::Arr(items)
    }

    /// An object.
    pub fn object(members: Vec<Member>) -> (r: Json)
        ensures
            r@ == JsonModel::Obj(member_models(members@)),
    {
        proof {
            lemma_obj(members);
        }
        Json::Obj(members)
    }
}

/// A member of an object.
pub fn member(name: &str, value: Json) -> (r: Member)
    ensures
        r.name@ == name@,
        r.value == value,
{
    Member { name: String::from_str(name), value }
}

/// The array of some texts.
pub fn texts_json(list: &Vec<String>) -> (r: Json)
    ensures
        r@ == texts_model(texts(list@)),
{
    let ghost want = texts(list@).map_values(|t: Seq<char>| JsonModel::Str(t));
    let mut items: Vec<Json> = Vec::new();
    let mut i: usize = 0;
    assert(models(items@) =~= want.take(0));
    while i < list.len()
        invariant
            i <= list@.len(),
            want == texts(list@).map_values(|t: Seq<char>| JsonModel::Str(t)),
            models(items@) == want.take(i as int),
        decreases list@.len() - i,
    {
        let item = Json::Str(list[i].clone());
        assert(models(items@.push(item)) =~= models(items@).push(item@));
        assert(want.take(i + 1) =~= want.take(i as int).push(item@));
        items.push(item);
        i += 1;
    }
    assert(want.take(i as int) =~= want);
    Json::array(items)
}

impl Json {
    /// How many bytes the compact text of the value takes.
    pub fn size(&self) -> (r: usize)
        ensures
            r == blen(text_of(self@)),
            covers_texts(self@),
    {
        self.to_text().as_str().as_bytes().len()
    }
}

/// How many bytes the compact text of an array takes.
pub fn array_size(items: &Vec<Json>) -> (r: usize)
    ensures
        r == blen(text_of(JsonModel::Arr(models(items@)))),
{
    let ghost ms = models(items@);
    let mut out = String::from_str("[");
    let mut i: usize = 0;
    assert(out@ =~= "["@ + items_text(ms, 0));
    while i < items.len()
        invariant
            i <= items@.len(),
            ms == models(items@),
            out@ == "["@ + items_text(ms, i as nat),
        decreases items@.len() - i,
    {
        if i > 0 {
            out.push_str(",");
        }
        items[i].write(&mut out);
        assert(out@ =~= "["@ + items_text(ms, (i + 1) as nat));
        i += 1;
    }
    out.push_str("]");
    out.as_str().as_bytes().len()
}

/// The members of an object, in the order of their names, with one more or one
/// replaced.
pub open spec fn put_member(
    members: Seq<MemberModel>,
    name: Seq<char>,
    value: JsonModel,
) -> Seq<MemberModel>
    decreases members.len(),
{
    if members.len() == 0 {
        seq![field(name, value)]
    } else if members[0].name == name {
        members.update(0, field(name, value))
    } else if precedes(name, members[0].name) {
        members.insert(0, field(name, value))
    } else {
        seq![members[0]] + put_member(members.skip(1), name, value)
    }
}

proof fn lemma_put_member(
    members: Seq<MemberModel>,
    name: Seq<char>,
    value: JsonModel,
    at: int,
)
    requires
        0 <= at <= members.len(),
        forall|k: int|
            0 <= k < at ==> (#[trigger] members[k]).name != name && !precedes(
                name,
                members[k].name,
            ),
        at < members.len() ==> members[at].name == name || precedes(name, members[at].name),
    ensures
        put_member(members, name, value) == (if at < members.len() && members[at].name == name {
            members.update(at, field(name, value))
        } else {
            members.insert(at, field(name, value))
        }),
    decreases at,
{
    let f = field(name, value);
    if at == 0 {
        if members.len() == 0 {
            assert(members.insert(0, f) =~= seq![f]);
        }
    } else {
        let rest = members.skip(1);
        assert forall|k: int| 0 <= k < at - 1 implies (#[trigger] rest[k]).name != name
            && !precedes(name, rest[k].name) by {
            assert(rest[k] == members[k + 1]);
        }
        lemma_put_member(rest, name, value, at - 1);
        assert(members[0].name != name && !precedes(name, members[0].name));
        if at < members.len() && members[at].name == name {
            assert(seq![members[0]] + rest.update(at - 1, f) =~= members.update(at, f));
        } else {
            assert(seq![members[0]] + rest.insert(at - 1, f) =~= members.insert(at, f));
        }
    }
}

/// Puts a member into an object whose members stand in the order of their names,
/// in place of the one with its name.
pub fn put(members: &mut Vec<Member>, name: &str, value: Json)
    ensures
        member_models(final(members)@) == put_member(
            member_models(old(members)@),
            name@,
            value@,
        ),
{
    let ghost ms = member_models(members@);
    let mut at: usize = 0;
    while at < members.len() && !same(members[at].name.as_str(), name) && !before(
        name,
        members[at].name.as_str(),
    )
        invariant
            at <= members@.len(),
            members@ == old(members)@,
            ms == member_models(members@),
            forall|k: int|
                0 <= k < at ==> (#[trigger] ms[k]).name != name@ && !precedes(name@, ms[k].name),
        decreases members@.len() - at,
    {
        assert(ms[at as int].name == members@[at as int].name@);
        at += 1;
    }
    let m = member(name, value);
    proof {
        if at < members@.len() {
            assert(ms[at as int].name == members@[at as int].name@);
        }
        lemma_put_member(ms, name@, value@, at as int);
    }
    if at < members.len() && same(members[at].name.as_str(), name) {
        assert(member_models(members@.update(at as int, m)) =~= ms.update(
            at as int,
            field(name@, value@),
        ));
        members.set(at, m);
    } else {
        assert(member_models(members@.insert(at as int, m)) =~= ms.insert(
            at as int,
            field(name@, value@),
        ));
        members.insert(at, m);
    }
}

// ---------------------------------------------------------------------------
// Records
// ---------------------------------------------------------------------------

/// The texts of a list of names.
pub open spec fn names_of(v: Seq<&str>) -> Seq<Seq<char>> {
    v.map_values(|n: &str| n@)
}

/// A record with these fields, member by member. It is written as an object, or
/// as an array that holds its first fields in their order and nothing else.
pub open spec fn record(value: JsonModel, names: Seq<Seq<char>>) -> Option<JsonModel> {
    match value {
        JsonModel::Obj(_) => Some(value),
        JsonModel::Arr(items) => if items.len() <= names.len() {
            Some(JsonModel::Obj(by_position(items, names)))
        } else {
            None
        },
        _ => None,
    }
}

/// Items as the members with these names.
pub open spec fn by_position(items: Seq<JsonModel>, names: Seq<Seq<char>>) -> Seq<MemberModel> {
    Seq::new(items.len(), |i: int| field(names[i], items[i]))
}

/// The record that an array writes.
pub fn positional(items: &Vec<Json>, names: Vec<&str>) -> (r: Option<Json>)
    ensures
        match record(JsonModel::Arr(models(items@)), names_of(names@)) {
            Some(m) => r is Some && r->0@ == m,
            None => r is None,
        },
{
    if items.len() > names.len() {
        return None;
    }
    let ghost all = by_position(models(items@), names_of(names@));
    let mut members: Vec<Member> = Vec::new();
    let mut i: usize = 0;
    assert(member_models(members@) =~= all.take(0));
    while i < items.len()
        invariant
            i <= items@.len() <= names@.len(),
            all == by_position(models(items@), names_of(names@)),
            member_models(members@) == all.take(i as int),
        decreases items@.len() - i,
    {
        let name = names[i];
        let m = Member { name: String::from_str(name), value: items[i].copy() };
        assert(all[i as int] == field(m.name@, m.value@));
        assert(member_models(members@.push(m)) =~= member_models(members@).push(all[i as int]));
        assert(all.take(i + 1) =~= all.take(i as int).push(all[i as int]));
        members.push(m);
        i += 1;
    }
    assert(all.take(i as int) =~= all);
    proof {
        lemma_obj(members);
    }
    Some(Json::Obj(members))
}

/// The name of a choice: a text, or the one member of an object that is null.
pub open spec fn choice(value: Option<JsonModel>) -> Option<Seq<char>> {
    match value {
        Some(JsonModel::Str(s)) => Some(s),
        Some(JsonModel::Obj(members)) => if members.len() == 1 && members[0].value is Null {
            Some(members[0].name)
        } else {
            None
        },
        _ => None,
    }
}

/// The name of the choice that a member makes.
pub fn choice_of<'a>(value: &'a Json, name: &str) -> (r: Option<&'a str>)
    ensures
        match choice(value@.get(name@)) {
            Some(s) => r is Some && r->0@ == s,
            None => r is None,
        },
{
    match value.get(name) {
        Some(Json::Str(s)) => Some(s.as_str()),
        Some(Json::Obj(members)) => {
            proof {
                lemma_obj(*members);
                assert(member_models(members@).len() == members@.len());
            }
            if members.len() == 1 {
                assert(member_models(members@)[0].value == members@[0].value@);
                match &members[0].value {
                    Json::Null => Some(members[0].name.as_str()),
                    _ => None,
                }
            } else {
                None
            }
        },
        _ => None,
    }
}

} // verus!
