//! What a request says: its fields in an order that providers can cache, short
//! paths and ids, and source text outside the JSON.

use vstd::prelude::*;
use vstd::string::StringExecFns;
use vstd::utf8::encode_utf8;

use crate::citations::{collect_ids, compact_evidence_ids, compacted};
use crate::json::{
    field, lemma_arr, lemma_obj, lookup, member, member_models, models, nat_model, put, put_member, text_of,
    Json, JsonModel, Member, MemberModel,
};
use crate::model::LlmConfig;
use crate::source::{digest, hash};
use crate::text::{
    blen, has_prefix, list_has, replace_all, replaced, same, slice, starts_with, texts, to_chars,
};

verus! {

// ---------------------------------------------------------------------------
// The body of a request
// ---------------------------------------------------------------------------

/// What a request says of reasoning.
pub open spec fn with_reasoning(c: LlmConfig, members: Seq<MemberModel>) -> Seq<MemberModel> {
    if c.reasoning@ == "default"@ {
        members
    } else if c.reasoning_parameter@ == "enable_thinking"@ {
        put_member(
            members,
            "chat_template_kwargs"@,
            JsonModel::Obj(
                seq![field("enable_thinking"@, JsonModel::Bool(c.reasoning@ == "on"@))],
            ),
        )
    } else {
        put_member(
            members,
            "reasoning_effort"@,
            JsonModel::Str(
                if c.reasoning@ == "off"@ {
                    "none"@
                } else {
                    c.effort@
                },
            ),
        )
    }
}

/// The body of a request.
pub open spec fn payload_view(c: LlmConfig, messages: JsonModel) -> JsonModel {
    JsonModel::Obj(
        with_reasoning(
            c,
            put_member(
                seq![
                    field("messages"@, messages),
                    field("model"@, JsonModel::Str(c.model@)),
                    field("stream"@, JsonModel::Bool(false)),
                ],
                c.output_parameter@,
                nat_model(c.max_output_tokens as nat),
            ),
        ),
    )
}

/// The body of a request.
pub fn payload(c: &LlmConfig, messages: Json) -> (r: Json)
    ensures
        r@ == payload_view(*c, messages@),
{
    let ghost ms = messages@;
    let mut members = vec![
        member("messages", messages),
        member("model", Json::string(c.model.as_str())),
        member("stream", Json::Bool(false)),
    ];
    assert(member_models(members@) =~= seq![
        field("messages"@, ms),
        field("model"@, JsonModel::Str(c.model@)),
        field("stream"@, JsonModel::Bool(false)),
    ]);
    put(&mut members, c.output_parameter.as_str(), Json::count(c.max_output_tokens as usize));
    if !same(c.reasoning.as_str(), "default") {
        if same(c.reasoning_parameter.as_str(), "enable_thinking") {
            let on = same(c.reasoning.as_str(), "on");
            let inner = vec![member("enable_thinking", Json::Bool(on))];
            assert(member_models(inner@) =~= seq![field("enable_thinking"@, JsonModel::Bool(on))]);
            put(&mut members, "chat_template_kwargs", Json::object(inner));
        } else {
            let effort = if same(c.reasoning.as_str(), "off") {
                "none"
            } else {
                c.effort.as_str()
            };
            put(&mut members, "reasoning_effort", Json::string(effort));
        }
    }
    Json::object(members)
}

// ---------------------------------------------------------------------------
// The order of fields
// ---------------------------------------------------------------------------

/// The fields that read the same on every request of a kind. They come first, so
/// that a provider that caches prefixes can reuse them.
pub open spec fn stable_fields() -> Seq<Seq<char>> {
    seq![
        "instruction"@,
        "passages"@,
        "finding_kind_policy"@,
        "classification_policy"@,
        "preservation_policy"@,
        "coverage_rules"@,
        "accuracy_rules"@,
        "review_accuracy_rules"@,
        "structure_review"@,
        "section_output_policy"@,
        "phase"@,
        "language"@,
    ]
}

/// The members, among the first `count` of some names, that an object has.
pub open spec fn named_members(
    members: Seq<MemberModel>,
    names: Seq<Seq<char>>,
    count: nat,
) -> Seq<MemberModel>
    decreases count,
{
    if count == 0 {
        Seq::empty()
    } else {
        let so_far = named_members(members, names, (count - 1) as nat);
        match lookup(members, names[count - 1]) {
            Some(value) => so_far.push(field(names[count - 1], value)),
            None => so_far,
        }
    }
}

/// The first `count` members whose names are not among some names.
pub open spec fn other_members(
    members: Seq<MemberModel>,
    names: Seq<Seq<char>>,
    count: nat,
) -> Seq<MemberModel>
    decreases count,
{
    if count == 0 {
        Seq::empty()
    } else {
        let so_far = other_members(members, names, (count - 1) as nat);
        if names.contains(members[count - 1].name) {
            so_far
        } else {
            so_far.push(members[count - 1])
        }
    }
}

/// The members of an object, the stable ones first.
pub open spec fn stable_order(members: Seq<MemberModel>) -> Seq<MemberModel> {
    named_members(members, stable_fields(), stable_fields().len()) + other_members(
        members,
        stable_fields(),
        members.len(),
    )
}

/// A request with the stable fields first.
pub open spec fn stable_text(m: JsonModel) -> Seq<char> {
    match m {
        JsonModel::Obj(members) => text_of(JsonModel::Obj(stable_order(members))),
        _ => text_of(m),
    }
}

/// No two members have one name.
pub open spec fn distinct_names(members: Seq<MemberModel>) -> bool {
    forall|i: int, j: int|
        0 <= i < j < members.len() ==> (#[trigger] members[i]).name != (#[trigger] members[j]).name
}

proof fn lemma_lookup(members: Seq<MemberModel>, name: Seq<char>)
    ensures
        match lookup(members, name) {
            Some(v) => members.contains(field(name, v)),
            None => forall|i: int| 0 <= i < members.len() ==> (#[trigger] members[i]).name != name,
        },
    decreases members.len(),
{
    if members.len() > 0 {
        if members[0].name == name {
            assert(members[0] == field(name, members[0].value));
        } else {
            let rest = members.skip(1);
            lemma_lookup(rest, name);
            match lookup(rest, name) {
                Some(v) => {
                    let k = choose|k: int| 0 <= k < rest.len() && rest[k] == field(name, v);
                    assert(members[k + 1] == field(name, v));
                },
                None => {
                    assert forall|i: int| 0 <= i < members.len() implies (
                    #[trigger] members[i]).name != name by {
                        if i > 0 {
                            assert(rest[i - 1] == members[i]);
                        }
                    }
                },
            }
        }
    }
}

proof fn lemma_named_members(members: Seq<MemberModel>, names: Seq<Seq<char>>, count: nat)
    requires
        count <= names.len(),
        distinct_names(members),
    ensures
        forall|m: MemberModel| #[trigger]
            named_members(members, names, count).contains(m) <==> (members.contains(m)
                && names.take(count as int).contains(m.name)),
    decreases count,
{
    let r = named_members(members, names, count);
    if count == 0 {
        assert(names.take(0) =~= Seq::empty());
    } else {
        let was = named_members(members, names, (count - 1) as nat);
        let last = names[count - 1];
        lemma_named_members(members, names, (count - 1) as nat);
        lemma_lookup(members, last);
        assert(names.take(count as int) =~= names.take(count - 1).push(last));
        let head = names.take(count - 1);
        let all = names.take(count as int);
        assert forall|m: MemberModel| #[trigger] r.contains(m) <==> (members.contains(m)
            && all.contains(m.name)) by {
            if r.contains(m) {
                let k = choose|k: int| 0 <= k < r.len() && r[k] == m;
                if k < was.len() {
                    assert(was[k] == m);
                    assert(was.contains(m));
                    let j = choose|j: int| 0 <= j < head.len() && head[j] == m.name;
                    assert(all[j] == m.name);
                } else {
                    assert(all[count - 1] == m.name);
                }
            }
            if members.contains(m) && all.contains(m.name) {
                let j = choose|j: int| 0 <= j < all.len() && all[j] == m.name;
                if j < count - 1 {
                    assert(head[j] == m.name);
                    assert(was.contains(m));
                    let k = choose|k: int| 0 <= k < was.len() && was[k] == m;
                    assert(r[k] == m);
                } else {
                    let i = choose|i: int| 0 <= i < members.len() && members[i] == m;
                    assert(members[i].name == last);
                    let v = lookup(members, last)->0;
                    let k = choose|k: int| 0 <= k < members.len() && members[k] == field(last, v);
                    assert(i == k) by {
                        if i < k {
                            assert(members[i].name != members[k].name);
                        } else if k < i {
                            assert(members[k].name != members[i].name);
                        }
                    }
                    assert(r[was.len() as int] == m);
                }
            }
        }
    }
}

proof fn lemma_other_members(members: Seq<MemberModel>, names: Seq<Seq<char>>, count: nat)
    requires
        count <= members.len(),
    ensures
        forall|m: MemberModel| #[trigger]
            other_members(members, names, count).contains(m) <==> (members.take(
                count as int,
            ).contains(m) && !names.contains(m.name)),
    decreases count,
{
    let r = other_members(members, names, count);
    if count == 0 {
        assert(members.take(0) =~= Seq::empty());
    } else {
        let was = other_members(members, names, (count - 1) as nat);
        let last = members[count - 1];
        lemma_other_members(members, names, (count - 1) as nat);
        let head = members.take(count - 1);
        let all = members.take(count as int);
        assert(all =~= head.push(last));
        assert forall|m: MemberModel| #[trigger] r.contains(m) <==> (all.contains(m)
            && !names.contains(m.name)) by {
            if r.contains(m) {
                let k = choose|k: int| 0 <= k < r.len() && r[k] == m;
                if k < was.len() {
                    assert(was[k] == m);
                    assert(was.contains(m));
                    let j = choose|j: int| 0 <= j < head.len() && head[j] == m;
                    assert(all[j] == m);
                } else {
                    assert(all[count - 1] == m);
                }
            }
            if all.contains(m) && !names.contains(m.name) {
                let j = choose|j: int| 0 <= j < all.len() && all[j] == m;
                if j < count - 1 {
                    assert(head[j] == m);
                    assert(was.contains(m));
                    let k = choose|k: int| 0 <= k < was.len() && was[k] == m;
                    assert(r[k] == m);
                } else {
                    assert(r[was.len() as int] == m);
                }
            }
        }
    }
}

/// Putting the stable fields first only moves fields: a request has the same
/// members before and after.
pub proof fn stable_order_keeps_every_field(members: Seq<MemberModel>, m: MemberModel)
    requires
        distinct_names(members),
    ensures
        stable_order(members).contains(m) <==> members.contains(m),
{
    let names = stable_fields();
    let a = named_members(members, names, names.len());
    let b = other_members(members, names, members.len());
    lemma_named_members(members, names, names.len());
    lemma_other_members(members, names, members.len());
    assert(names.take(names.len() as int) =~= names);
    assert(members.take(members.len() as int) =~= members);
    let r = stable_order(members);
    if r.contains(m) {
        let k = choose|k: int| 0 <= k < r.len() && r[k] == m;
        if k < a.len() {
            assert(a[k] == m);
            assert(a.contains(m));
        } else {
            assert(b[k - a.len()] == m);
            assert(b.contains(m));
        }
    }
    if members.contains(m) {
        if names.contains(m.name) {
            assert(a.contains(m));
            let k = choose|k: int| 0 <= k < a.len() && a[k] == m;
            assert(r[k] == m);
        } else {
            assert(b.contains(m));
            let k = choose|k: int| 0 <= k < b.len() && b[k] == m;
            assert(r[k + a.len()] == m);
        }
    }
}

/// The fields that come first.
fn stable_names() -> (r: Vec<String>)
    ensures
        texts(r@) == stable_fields(),
{
    let r = vec![
        String::from_str("instruction"),
        String::from_str("passages"),
        String::from_str("finding_kind_policy"),
        String::from_str("classification_policy"),
        String::from_str("preservation_policy"),
        String::from_str("coverage_rules"),
        String::from_str("accuracy_rules"),
        String::from_str("review_accuracy_rules"),
        String::from_str("structure_review"),
        String::from_str("section_output_policy"),
        String::from_str("phase"),
        String::from_str("language"),
    ];
    assert(texts(r@) =~= stable_fields());
    r
}

/// Writes a request with the fields that do not change between requests of a
/// kind ahead of those that do.
pub fn stable_first(input: &Json) -> (r: String)
    ensures
        r@ == stable_text(input@),
{
    match input {
        Json::Obj(members) => {
            proof {
                lemma_obj(*members);
            }
            let ghost ms = member_models(members@);
            let names = stable_names();
            let ghost ns = stable_fields();
            let mut list: Vec<Member> = Vec::new();
            let mut i: usize = 0;
            assert(member_models(list@) =~= Seq::empty());
            assert(names@.len() == ns.len());
            while i < names.len()
                invariant
                    i <= names@.len(),
                    names@.len() == ns.len(),
                    ns == texts(names@),
                    input@ == JsonModel::Obj(ms),
                    member_models(list@) == named_members(ms, ns, i as nat),
                decreases names@.len() - i,
            {
                assert(ns[i as int] == names@[i as int]@);
                if let Some(value) = input.get(names[i].as_str()) {
                    let m = member(names[i].as_str(), value.copy());
                    assert(member_models(list@.push(m)) =~= member_models(list@).push(
                        field(m.name@, m.value@),
                    ));
                    list.push(m);
                }
                i += 1;
            }
            let ghost head = member_models(list@);
            let mut k: usize = 0;
            assert(head + other_members(ms, ns, 0) =~= head);
            while k < members.len()
                invariant
                    k <= members@.len(),
                    ns == texts(names@),
                    ms == member_models(members@),
                    member_models(list@) == head + other_members(ms, ns, k as nat),
                decreases members@.len() - k,
            {
                assert(ms[k as int].name == members@[k as int].name@);
                assert(ms[k as int].value == members@[k as int].value@);
                if !list_has(&names, members[k].name.as_str()) {
                    let m = Member {
                        name: members[k].name.clone(),
                        value: members[k].value.copy(),
                    };
                    let ghost was = other_members(ms, ns, k as nat);
                    assert(member_models(list@.push(m)) =~= member_models(list@).push(ms[k as int]));
                    assert((head + was).push(ms[k as int]) =~= head + was.push(ms[k as int]));
                    list.push(m);
                }
                k += 1;
            }
            assert(ms.len() == members@.len());
            Json::object(list).to_text()
        },
        _ => input.to_text(),
    }
}

// ---------------------------------------------------------------------------
// Paths
// ---------------------------------------------------------------------------

/// A root without the slashes at its end, and then one slash.
pub open spec fn root_prefix(root: Seq<char>) -> Seq<char> {
    without_slashes(root) + "/"@
}

/// A text without the slashes at its end.
pub open spec fn without_slashes(s: Seq<char>) -> Seq<char>
    decreases s.len(),
{
    if s.len() > 0 && s.last() == '/' {
        without_slashes(s.drop_last())
    } else {
        s
    }
}

/// A path below the first `count` roots, the shortest way to say it.
pub open spec fn below_roots(
    path: Seq<char>,
    roots: Seq<Seq<char>>,
    count: nat,
) -> Option<Seq<char>>
    decreases count,
{
    if count == 0 {
        None
    } else {
        let so_far = below_roots(path, roots, (count - 1) as nat);
        let prefix = root_prefix(roots[count - 1]);
        if starts_with(path, prefix) {
            let rest = path.skip(prefix.len() as int);
            match so_far {
                Some(best) => if blen(rest) < blen(best) {
                    Some(rest)
                } else {
                    so_far
                },
                None => Some(rest),
            }
        } else {
            so_far
        }
    }
}

/// A request with paths below the roots. Source text stays as it is.
pub open spec fn with_short_paths(m: JsonModel, roots: Seq<Seq<char>>) -> JsonModel
    decreases m,
{
    match m {
        JsonModel::Arr(items) => JsonModel::Arr(
            Seq::new(
                items.len(),
                |i: int|
                    if 0 <= i < items.len() {
                        with_short_paths(items[i], roots)
                    } else {
                        JsonModel::Null
                    },
            ),
        ),
        JsonModel::Obj(members) => JsonModel::Obj(
            Seq::new(
                members.len(),
                |i: int|
                    if 0 <= i < members.len() {
                        MemberModel {
                            name: members[i].name,
                            value: if members[i].name == "path"@ && members[i].value is Str
                                && below_roots(
                                members[i].value->Str_0,
                                roots,
                                roots.len(),
                            ) is Some {
                                JsonModel::Str(
                                    below_roots(
                                        members[i].value->Str_0,
                                        roots,
                                        roots.len(),
                                    )->0,
                                )
                            } else if members[i].name == "content"@ {
                                members[i].value
                            } else {
                                with_short_paths(members[i].value, roots)
                            },
                        }
                    } else {
                        MemberModel { name: Seq::empty(), value: JsonModel::Null }
                    },
            ),
        ),
        _ => m,
    }
}

/// A path below the roots, the shortest way to say it.
fn find_below(path: &str, roots: &Vec<String>) -> (r: Option<String>)
    ensures
        match below_roots(path@, texts(roots@), roots@.len()) {
            Some(p) => r is Some && r->0@ == p,
            None => r is None,
        },
{
    let ghost rs = texts(roots@);
    let chars = to_chars(path);
    let mut best: Option<String> = None;
    let mut i: usize = 0;
    while i < roots.len()
        invariant
            i <= roots@.len(),
            rs == texts(roots@),
            chars@ == path@,
            match below_roots(path@, rs, i as nat) {
                Some(p) => best is Some && best->0@ == p,
                None => best is None,
            },
        decreases roots@.len() - i,
    {
        let root = to_chars(roots[i].as_str());
        assert(rs[i as int] == root@);
        let mut end: usize = root.len();
        assert(root@.take(end as int) =~= root@);
        while end > 0 && root[end - 1] == '/'
            invariant
                end <= root@.len(),
                without_slashes(root@.take(end as int)) == without_slashes(root@),
            decreases end,
        {
            assert(root@.take(end as int).drop_last() =~= root@.take(end - 1));
            end -= 1;
        }
        let mut prefix = slice(root.as_slice(), 0, end);
        assert(prefix@ =~= root@.take(end as int));
        prefix.push_str("/");
        assert(prefix@ == root_prefix(root@));
        if has_prefix(path, prefix.as_str()) {
            let from: usize = to_chars(prefix.as_str()).len();
            let rest = slice(chars.as_slice(), from, chars.len());
            assert(rest@ =~= path@.skip(from as int));
            let shorter = match &best {
                Some(b) => rest.as_str().as_bytes().len() < b.as_str().as_bytes().len(),
                None => true,
            };
            if shorter {
                best = Some(rest);
            }
        }
        i += 1;
    }
    best
}

/// Shows paths against the roots of a task: the reader knows them already.
pub fn relative_paths(value: &Json, roots: &Vec<String>) -> (r: Json)
    ensures
        r@ == with_short_paths(value@, texts(roots@)),
    decreases value,
{
    let ghost rs = texts(roots@);
    match value {
        Json::Arr(items) => {
            proof {
                lemma_arr(*items);
            }
            let ghost ms = models(items@);
            let ghost goal = with_short_paths(value@, rs)->Arr_0;
            let mut list: Vec<Json> = Vec::new();
            let mut i: usize = 0;
            assert(models(list@) =~= goal.take(0));
            while i < items.len()
                invariant
                    i <= items@.len(),
                    *value == Json::Arr(*items),
                    ms == models(items@),
                    value@ == JsonModel::Arr(ms),
                    rs == texts(roots@),
                    goal == with_short_paths(value@, rs)->Arr_0,
                    models(list@) == goal.take(i as int),
                decreases items@.len() - i,
            {
                proof {
                    assert(decreases_to!(*value => value->Arr_0));
                    assert(decreases_to!(*value => value->Arr_0@[i as int]));
                }
                let item = relative_paths(&items[i], roots);
                proof {
                    assert(ms[i as int] == items@[i as int]@);
                    assert(goal[i as int] == item@);
                    assert(models(list@.push(item)) =~= models(list@).push(item@));
                    assert(goal.take(i + 1) =~= goal.take(i as int).push(item@));
                }
                list.push(item);
                i += 1;
            }
            assert(goal.take(i as int) =~= goal);
            Json::array(list)
        },
        Json::Obj(members) => {
            proof {
                lemma_obj(*members);
            }
            let ghost ms = member_models(members@);
            let ghost goal = with_short_paths(value@, rs)->Obj_0;
            let mut list: Vec<Member> = Vec::new();
            let mut i: usize = 0;
            assert(member_models(list@) =~= goal.take(0));
            assert(rs.len() == roots@.len());
            while i < members.len()
                invariant
                    i <= members@.len(),
                    *value == Json::Obj(*members),
                    ms == member_models(members@),
                    value@ == JsonModel::Obj(ms),
                    rs == texts(roots@),
                    rs.len() == roots@.len(),
                    goal == with_short_paths(value@, rs)->Obj_0,
                    member_models(list@) == goal.take(i as int),
                decreases members@.len() - i,
            {
                proof {
                    assert(decreases_to!(*value => value->Obj_0));
                    assert(decreases_to!(*value => value->Obj_0@[i as int]));
                    assert(decreases_to!(*value => value->Obj_0@[i as int].value));
                    assert(ms[i as int].name == members@[i as int].name@);
                    assert(ms[i as int].value == members@[i as int].value@);
                }
                let below: Option<String> = if same(members[i].name.as_str(), "path") {
                    match &members[i].value {
                        Json::Str(path) => find_below(path.as_str(), roots),
                        _ => None,
                    }
                } else {
                    None
                };
                let inner = match below {
                    Some(path) => Json::Str(path),
                    None => if same(members[i].name.as_str(), "content") {
                        members[i].value.copy()
                    } else {
                        relative_paths(&members[i].value, roots)
                    },
                };
                let item = Member { name: members[i].name.clone(), value: inner };
                proof {
                    let mm = MemberModel { name: item.name@, value: item.value@ };
                    assert(goal[i as int] == mm);
                    assert(member_models(list@.push(item)) =~= member_models(list@).push(mm));
                    assert(goal.take(i + 1) =~= goal.take(i as int).push(mm));
                }
                list.push(item);
                i += 1;
            }
            assert(goal.take(i as int) =~= goal);
            Json::object(list)
        },
        _ => value.copy(),
    }
}

// ---------------------------------------------------------------------------
// Passages
// ---------------------------------------------------------------------------

/// Says where the text of passages is.
pub const PASSAGE_NOTE: &'static str = "Passage text is not inside this JSON. Each {passage: ID} stands for the <passage id=ID> block after the JSON, which carries that passage's path, line range and verbatim source text. The ID is the evidence ID to cite; a passage has no other number.";

/// An object is a passage: it has an id, a path, its text and its lines.
pub open spec fn is_passage(members: Seq<MemberModel>) -> bool {
    &&& lookup(members, "id"@) is Some && lookup(members, "id"@)->0 is Str
    &&& lookup(members, "path"@) is Some && lookup(members, "path"@)->0 is Str
    &&& lookup(members, "content"@) is Some && lookup(members, "content"@)->0 is Str
    &&& lookup(members, "start"@) is Some
    &&& lookup(members, "end"@) is Some
}

/// A text as the value of an attribute.
pub open spec fn attribute(s: Seq<char>) -> Seq<char> {
    replaced(replaced(s, "&"@, "&amp;"@, 0), "\""@, "&quot;"@, 0)
}

/// The names of what every passage has.
pub open spec fn passage_fields() -> Seq<Seq<char>> {
    seq!["id"@, "path"@, "content"@, "start"@, "end"@]
}

/// A plain value as an attribute.
pub open spec fn scalar(m: JsonModel) -> Option<Seq<char>> {
    match m {
        JsonModel::Bool(_) => Some(text_of(m)),
        JsonModel::Num(n) => Some(n),
        JsonModel::Str(s) => Some(attribute(s)),
        _ => None,
    }
}

/// The attributes that the first `count` members of a passage add.
pub open spec fn more_attributes(members: Seq<MemberModel>, count: nat) -> Seq<char>
    decreases count,
{
    if count == 0 {
        Seq::empty()
    } else {
        let so_far = more_attributes(members, (count - 1) as nat);
        let m = members[count - 1];
        if passage_fields().contains(m.name) {
            so_far
        } else {
            match scalar(m.value) {
                Some(v) => so_far + " "@ + m.name + "=\""@ + v + "\""@,
                None => so_far,
            }
        }
    }
}

/// The block of a passage: what is known of it, and its text as it is.
pub open spec fn passage_block(members: Seq<MemberModel>) -> Seq<char> {
    let id = attribute(lookup(members, "id"@)->0->Str_0);
    "<passage id=\""@ + id + "\" path=\""@ + attribute(lookup(members, "path"@)->0->Str_0)
        + "\" lines=\""@ + text_of(lookup(members, "start"@)->0) + "-"@ + text_of(
        lookup(members, "end"@)->0,
    ) + "\""@ + more_attributes(members, members.len()) + ">\n"@ + lookup(
        members,
        "content"@,
    )->0->Str_0 + "\n</passage id=\""@ + id + "\">"@
}

/// What stands for a passage in a request.
pub open spec fn passage_mark(id: Seq<char>) -> JsonModel {
    JsonModel::Obj(seq![field("passage"@, JsonModel::Str(id))])
}

/// The passages that were taken out of a request: their blocks and their ids.
pub struct Taken {
    pub blocks: Seq<Seq<char>>,
    pub seen: Seq<Seq<char>>,
}

/// What is left of a value, and what was taken out.
pub open spec fn detached(m: JsonModel, t: Taken) -> (JsonModel, Taken)
    decreases m, 0nat,
{
    match m {
        JsonModel::Obj(members) => if is_passage(members) {
            let id = lookup(members, "id"@)->0->Str_0;
            (
                passage_mark(id),
                if t.seen.contains(id) {
                    t
                } else {
                    Taken {
                        blocks: t.blocks.push(passage_block(members)),
                        seen: t.seen.push(id),
                    }
                },
            )
        } else {
            let (list, after) = detached_members(members, t, members.len());
            (JsonModel::Obj(list), after)
        },
        JsonModel::Arr(items) => {
            let (list, after) = detached_items(items, t, items.len());
            (JsonModel::Arr(list), after)
        },
        _ => (m, t),
    }
}

/// What is left of the first `count` items.
pub open spec fn detached_items(items: Seq<JsonModel>, t: Taken, count: nat) -> (
    Seq<JsonModel>,
    Taken,
)
    decreases items, count,
{
    if count == 0 || count > items.len() {
        (Seq::empty(), t)
    } else {
        let (list, before) = detached_items(items, t, (count - 1) as nat);
        let (item, after) = detached(items[count - 1], before);
        (list.push(item), after)
    }
}

/// What is left of the first `count` members.
pub open spec fn detached_members(members: Seq<MemberModel>, t: Taken, count: nat) -> (
    Seq<MemberModel>,
    Taken,
)
    decreases members, count,
{
    if count == 0 || count > members.len() {
        (Seq::empty(), t)
    } else {
        let (list, before) = detached_members(members, t, (count - 1) as nat);
        let (value, after) = detached(members[count - 1].value, before);
        (list.push(field(members[count - 1].name, value)), after)
    }
}

/// There is one block for each id.
pub open spec fn one_block_each(t: Taken) -> bool {
    t.blocks.len() == t.seen.len() && t.seen.no_duplicates()
}

/// A passage is sent once, however often a request refers to it.
pub proof fn every_passage_is_sent_once(m: JsonModel, t: Taken)
    requires
        one_block_each(t),
    ensures
        one_block_each(detached(m, t).1),
    decreases m, 0nat,
{
    match m {
        JsonModel::Obj(members) => {
            if !is_passage(members) {
                lemma_members_once(members, t, members.len());
            }
        },
        JsonModel::Arr(items) => {
            lemma_items_once(items, t, items.len());
        },
        _ => {},
    }
}

proof fn lemma_items_once(items: Seq<JsonModel>, t: Taken, count: nat)
    requires
        one_block_each(t),
    ensures
        one_block_each(detached_items(items, t, count).1),
    decreases items, count,
{
    if 0 < count <= items.len() {
        lemma_items_once(items, t, (count - 1) as nat);
        every_passage_is_sent_once(
            items[count - 1],
            detached_items(items, t, (count - 1) as nat).1,
        );
    }
}

proof fn lemma_members_once(members: Seq<MemberModel>, t: Taken, count: nat)
    requires
        one_block_each(t),
    ensures
        one_block_each(detached_members(members, t, count).1),
    decreases members, count,
{
    if 0 < count <= members.len() {
        lemma_members_once(members, t, (count - 1) as nat);
        every_passage_is_sent_once(
            members[count - 1].value,
            detached_members(members, t, (count - 1) as nat).1,
        );
    }
}

/// A text as the value of an attribute.
fn to_attribute(s: &str) -> (r: String)
    ensures
        r@ == attribute(s@),
{
    proof {
        reveal_strlit("&");
        reveal_strlit("\"");
    }
    replace_all(replace_all(s, "&", "&amp;").as_str(), "\"", "&quot;")
}

/// The text of a member that is a string.
fn string_member<'a>(value: &'a Json, name: &str) -> (r: Option<&'a str>)
    ensures
        match value@.get(name@) {
            Some(JsonModel::Str(s)) => r is Some && r->0@ == s,
            _ => r is None,
        },
{
    match value.get(name) {
        Some(Json::Str(s)) => Some(s.as_str()),
        Some(Json::Arr(items)) => {
            proof {
                lemma_arr(*items);
            }
            None
        },
        Some(Json::Obj(members)) => {
            proof {
                lemma_obj(*members);
            }
            None
        },
        _ => None,
    }
}

/// The attributes that the members of a passage add.
fn extra_attributes(members: &Vec<Member>) -> (r: String)
    ensures
        r@ == more_attributes(member_models(members@), members@.len()),
{
    let ghost ms = member_models(members@);
    let known = vec![
        String::from_str("id"),
        String::from_str("path"),
        String::from_str("content"),
        String::from_str("start"),
        String::from_str("end"),
    ];
    assert(texts(known@) =~= passage_fields());
    let mut out = String::new();
    let mut i: usize = 0;
    while i < members.len()
        invariant
            i <= members@.len(),
            ms == member_models(members@),
            texts(known@) == passage_fields(),
            out@ == more_attributes(ms, i as nat),
        decreases members@.len() - i,
    {
        let m = &members[i];
        assert(ms[i as int].name == m.name@);
        assert(ms[i as int].value == m.value@);
        if !list_has(&known, m.name.as_str()) {
            let value: Option<String> = match &m.value {
                Json::Bool(_) => Some(m.value.to_text()),
                Json::Num(n) => Some(n.clone()),
                Json::Str(s) => Some(to_attribute(s.as_str())),
                Json::Arr(items) => {
                    proof {
                        lemma_arr(*items);
                    }
                    None
                },
                Json::Obj(inner) => {
                    proof {
                        lemma_obj(*inner);
                    }
                    None
                },
                Json::Null => None,
            };
            if let Some(v) = value {
                out.push_str(" ");
                out.push_str(m.name.as_str());
                out.push_str("=\"");
                out.push_str(v.as_str());
                out.push_str("\"");
            }
        }
        i += 1;
    }
    out
}

/// The block of a passage.
fn write_block(value: &Json, members: &Vec<Member>, id: &str, path: &str, content: &str) -> (r: String)
    requires
        *value == Json::Obj(*members),
        is_passage(member_models(members@)),
        lookup(member_models(members@), "id"@) == Some(JsonModel::Str(id@)),
        lookup(member_models(members@), "path"@) == Some(JsonModel::Str(path@)),
        lookup(member_models(members@), "content"@) == Some(JsonModel::Str(content@)),
    ensures
        r@ == passage_block(member_models(members@)),
{
    proof {
        lemma_obj(*members);
    }
    let ghost ms = member_models(members@);
    assert(value@ == JsonModel::Obj(ms));
    assert(ms.len() == members@.len());
    let name = to_attribute(id);
    let mut out = String::from_str("<passage id=\"");
    out.push_str(name.as_str());
    out.push_str("\" path=\"");
    out.push_str(to_attribute(path).as_str());
    out.push_str("\" lines=\"");
    if let Some(start) = value.get("start") {
        out.push_str(start.to_text().as_str());
    }
    out.push_str("-");
    if let Some(end) = value.get("end") {
        out.push_str(end.to_text().as_str());
    }
    out.push_str("\"");
    out.push_str(extra_attributes(members).as_str());
    out.push_str(">\n");
    out.push_str(content);
    out.push_str("\n</passage id=\"");
    out.push_str(name.as_str());
    out.push_str("\">");
    out
}

/// Moves passage text out of a request and into blocks, once for each id. Source
/// inside a JSON string would reach the reader with every newline and quote
/// escaped.
pub fn detach_passages(value: &Json, blocks: &mut Vec<String>, seen: &mut Vec<String>) -> (r: Json)
    ensures
        ({
            let before = Taken { blocks: texts(old(blocks)@), seen: texts(old(seen)@) };
            let after = Taken { blocks: texts(final(blocks)@), seen: texts(final(seen)@) };
            detached(value@, before) == (r@, after)
        }),
    decreases value,
{
    let ghost start = Taken { blocks: texts(blocks@), seen: texts(seen@) };
    match value {
        Json::Obj(members) => {
            proof {
                lemma_obj(*members);
            }
            let ghost ms = member_models(members@);
            assert(value@ == JsonModel::Obj(ms));
            let id = string_member(value, "id");
            let path = string_member(value, "path");
            let content = string_member(value, "content");
            let lines = value.get("start").is_some() && value.get("end").is_some();
            if let (Some(id), Some(path), Some(content), true) = (id, path, content, lines) {
                assert(is_passage(ms));
                if !list_has(seen, id) {
                    let block = write_block(value, members, id, path, content);
                    let name = String::from_str(id);
                    assert(texts(blocks@.push(block)) =~= texts(blocks@).push(block@));
                    assert(texts(seen@.push(name)) =~= texts(seen@).push(name@));
                    blocks.push(block);
                    seen.push(name);
                }
                let mark = vec![member("passage", Json::string(id))];
                assert(member_models(mark@) =~= passage_mark(id@)->Obj_0);
                return Json::object(mark);
            }
            assert(!is_passage(ms));
            let mut list: Vec<Member> = Vec::new();
            let mut i: usize = 0;
            assert(member_models(list@) =~= Seq::empty());
            while i < members.len()
                invariant
                    i <= members@.len(),
                    *value == Json::Obj(*members),
                    ms == member_models(members@),
                    detached_members(ms, start, i as nat) == (
                        member_models(list@),
                        Taken { blocks: texts(blocks@), seen: texts(seen@) },
                    ),
                decreases members@.len() - i,
            {
                proof {
                    assert(decreases_to!(*value => value->Obj_0));
                    assert(decreases_to!(*value => value->Obj_0@[i as int]));
                    assert(decreases_to!(*value => value->Obj_0@[i as int].value));
                    assert(ms[i as int].name == members@[i as int].name@);
                    assert(ms[i as int].value == members@[i as int].value@);
                }
                let inner = detach_passages(&members[i].value, blocks, seen);
                let item = Member { name: members[i].name.clone(), value: inner };
                assert(member_models(list@.push(item)) =~= member_models(list@).push(
                    field(item.name@, item.value@),
                ));
                list.push(item);
                i += 1;
            }
            Json::object(list)
        },
        Json::Arr(items) => {
            proof {
                lemma_arr(*items);
            }
            let ghost ms = models(items@);
            assert(value@ == JsonModel::Arr(ms));
            let mut list: Vec<Json> = Vec::new();
            let mut i: usize = 0;
            assert(models(list@) =~= Seq::empty());
            while i < items.len()
                invariant
                    i <= items@.len(),
                    *value == Json::Arr(*items),
                    ms == models(items@),
                    detached_items(ms, start, i as nat) == (
                        models(list@),
                        Taken { blocks: texts(blocks@), seen: texts(seen@) },
                    ),
                decreases items@.len() - i,
            {
                proof {
                    assert(decreases_to!(*value => value->Arr_0));
                    assert(decreases_to!(*value => value->Arr_0@[i as int]));
                    assert(ms[i as int] == items@[i as int]@);
                }
                let item = detach_passages(&items[i], blocks, seen);
                assert(models(list@.push(item)) =~= models(list@).push(item@));
                list.push(item);
                i += 1;
            }
            Json::array(list)
        },
        _ => value.copy(),
    }
}

// ---------------------------------------------------------------------------
// The message
// ---------------------------------------------------------------------------

/// A request with the note on passages, where there are any.
pub open spec fn with_note(m: JsonModel, blocks: nat) -> JsonModel {
    match m {
        JsonModel::Obj(members) if blocks > 0 => JsonModel::Obj(
            put_member(members, "passages"@, JsonModel::Str(PASSAGE_NOTE@)),
        ),
        _ => m,
    }
}

/// Some blocks, each behind an empty line.
pub open spec fn blocks_text(blocks: Seq<Seq<char>>, count: nat) -> Seq<char>
    decreases count,
{
    if count == 0 {
        Seq::empty()
    } else {
        blocks_text(blocks, (count - 1) as nat) + "\n\n"@ + blocks[count - 1]
    }
}

/// The message that a request is sent as.
pub open spec fn rendered(input: JsonModel, roots: Seq<Seq<char>>) -> Seq<char> {
    let short = with_short_paths(
        compacted(input, collect_ids(input, Seq::empty())),
        roots,
    );
    let (m, t) = detached(short, Taken { blocks: Seq::empty(), seen: Seq::empty() });
    stable_text(with_note(m, t.blocks.len())) + blocks_text(t.blocks, t.blocks.len())
}

/// The message that a request is sent as.
pub fn render_input(input: &Json, roots: &Vec<String>) -> (r: String)
    ensures
        r@ == rendered(input@, texts(roots@)),
{
    let compact = compact_evidence_ids(input);
    let short = relative_paths(&compact, roots);
    let mut blocks: Vec<String> = Vec::new();
    let mut seen: Vec<String> = Vec::new();
    assert(texts(blocks@) =~= Seq::empty());
    assert(texts(seen@) =~= Seq::empty());
    let rest = detach_passages(&short, &mut blocks, &mut seen);
    let ghost m = rest@;
    let ghost bs = texts(blocks@);
    assert(bs.len() == blocks@.len());
    let noted = match rest {
        Json::Obj(members) => {
            proof {
                lemma_obj(members);
            }
            let mut members = members;
            if blocks.len() > 0 {
                put(&mut members, "passages", Json::string(PASSAGE_NOTE));
            }
            Json::object(members)
        },
        Json::Arr(items) => {
            proof {
                lemma_arr(items);
            }
            Json::Arr(items)
        },
        other => other,
    };
    assert(noted@ == with_note(m, bs.len()));
    let mut content = stable_first(&noted);
    let ghost head = content@;
    let mut i: usize = 0;
    assert(head + blocks_text(bs, 0) =~= head);
    while i < blocks.len()
        invariant
            i <= blocks@.len(),
            bs == texts(blocks@),
            content@ == head + blocks_text(bs, i as nat),
        decreases blocks@.len() - i,
    {
        assert(bs[i as int] == blocks@[i as int]@);
        content.push_str("\n\n");
        content.push_str(blocks[i].as_str());
        assert(content@ =~= head + blocks_text(bs, (i + 1) as nat));
        i += 1;
    }
    content
}

/// A message of one side.
pub open spec fn message_view(role: Seq<char>, content: Seq<char>) -> JsonModel {
    JsonModel::Obj(
        seq![field("content"@, JsonModel::Str(content)), field("role"@, JsonModel::Str(role))],
    )
}

/// A request and what a cache knows it by.
pub open spec fn request_view(
    c: LlmConfig,
    system: Seq<char>,
    input: JsonModel,
    roots: Seq<Seq<char>>,
) -> JsonModel {
    payload_view(
        c,
        JsonModel::Arr(
            seq![
                message_view("system"@, system),
                message_view("user"@, rendered(input, roots)),
            ],
        ),
    )
}

/// What a cache knows a request by.
pub open spec fn cache_key(c: LlmConfig, request: JsonModel) -> Seq<char> {
    digest(
        encode_utf8(
            text_of(
                JsonModel::Obj(
                    seq![
                        field("endpoint"@, JsonModel::Str(c.base_url@)),
                        field("request"@, request),
                        field("version"@, nat_model(2)),
                    ],
                ),
            ),
        ),
    )
}

/// A message of one side.
pub fn message(role: &str, content: &str) -> (r: Json)
    ensures
        r@ == message_view(role@, content@),
{
    let members = vec![
        member("content", Json::string(content)),
        member("role", Json::string(role)),
    ];
    assert(member_models(members@) =~= message_view(role@, content@)->Obj_0);
    Json::object(members)
}

/// The request for some input, and what a cache knows it by.
pub fn prepared_request(c: &LlmConfig, system: &str, input: &Json, roots: &Vec<String>) -> (r: (
    Json,
    String,
))
    ensures
        r.0@ == request_view(*c, system@, input@, texts(roots@)),
        r.1@ == cache_key(*c, r.0@),
{
    let content = render_input(input, roots);
    let messages = vec![message("system", system), message("user", content.as_str())];
    assert(models(messages@) =~= seq![
        message_view("system"@, system@),
        message_view("user"@, content@),
    ]);
    let request = payload(c, Json::array(messages));
    let members = vec![
        member("endpoint", Json::string(c.base_url.as_str())),
        member("request", request.copy()),
        member("version", Json::count(2)),
    ];
    assert(member_models(members@) =~= seq![
        field("endpoint"@, JsonModel::Str(c.base_url@)),
        field("request"@, request@),
        field("version"@, nat_model(2)),
    ]);
    let key = hash(Json::object(members).to_text().as_str().as_bytes());
    (request, key)
}

/// A request that asks for a JSON document.
pub open spec fn json_mode(request: JsonModel) -> JsonModel {
    JsonModel::Obj(
        put_member(
            request->Obj_0,
            "response_format"@,
            JsonModel::Obj(seq![field("type"@, JsonModel::Str("json_object"@))]),
        ),
    )
}

/// Asks for a JSON document. This comes after what a cache knows the request by
/// was taken, so that it moves no answer.
pub fn ask_for_json(request: Json) -> (r: Json)
    requires
        request@ is Obj,
    ensures
        r@ == json_mode(request@),
{
    let mut members: Vec<Member> = match request {
        Json::Obj(m) => {
            proof {
                lemma_obj(m);
            }
            m
        },
        Json::Arr(items) => {
            proof {
                lemma_arr(items);
            }
            Vec::new()
        },
        _ => Vec::new(),
    };
    let inner = vec![member("type", Json::string("json_object"))];
    assert(member_models(inner@) =~= seq![field("type"@, JsonModel::Str("json_object"@))]);
    put(&mut members, "response_format", Json::object(inner));
    Json::object(members)
}

} // verus!
