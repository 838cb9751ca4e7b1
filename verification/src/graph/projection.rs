//! The structural hint of a request that reads summaries: which of its files
//! calls which.

use vstd::prelude::*;
use vstd::string::StringExecFns;

use super::links::{link_models, link_sites, CrossLink, LinkIndex, LinkModel};
use super::rationing::{
    all_objects, count_deferred, deferred, file_records, left_out, omissions, ration, rationed,
    FileRecords,
};
use crate::json::{field, member, member_models, models, nat_model, texts_json, texts_model, Json, JsonModel};
use crate::order::{lemma_sum_take, nats, sort_distinct, sorted_distinct, sum};
use crate::text::{list_has, same, texts};

verus! {

/// How many files are named; of more, only how many there are.
pub const NAMED_FILES_MAX: usize = 12;

/// What a reader must know of the links.
pub const LINK_SEMANTICS: &'static str = "Syntax only, and never a citation: `from` and `to` are declaration names with a call count folded across every site, not evidence IDs, so cite the supplied child findings instead. A `to` of the form `path::symbol` means that name is declared in exactly one other supplied file; a record with `resolved:false` means several files declare the name and `declared_in` lists them, so treat which one runs as unresolved. `calls` counts call sites, not executions, and this table carries no order or condition: do not assert runtime sequence from it. Same-file calls are left out because the child summaries already describe them. `omitted`, `files_without_links` and `files_without_graph` name connections this request could not carry or could not see; treat those as unresolved, never as evidence that none exist.";

/// A call leads to a file of the request.
pub open spec fn leads_inside(l: LinkModel, scope: Seq<Seq<char>>) -> bool {
    if l.to_path.len() == 0 {
        exists|k: int| 0 <= k < l.candidates.len() && scope.contains(#[trigger] l.candidates[k])
    } else {
        scope.contains(l.to_path)
    }
}

/// The record of a link.
pub open spec fn link_record(l: LinkModel) -> JsonModel {
    if l.to_path.len() == 0 {
        JsonModel::Obj(
            seq![
                field("calls"@, nat_model(l.calls)),
                field("declared_in"@, texts_model(l.candidates)),
                field("from"@, JsonModel::Str(l.from)),
                field("resolved"@, JsonModel::Bool(false)),
                field("to"@, JsonModel::Str(l.to)),
            ],
        )
    } else {
        JsonModel::Obj(
            seq![
                field("calls"@, nat_model(l.calls)),
                field("from"@, JsonModel::Str(l.from)),
                field("to"@, JsonModel::Str(l.to_path + "::"@ + l.to)),
            ],
        )
    }
}

/// A link starts and ends in the request.
pub open spec fn shown(l: LinkModel, scope: Seq<Seq<char>>) -> bool {
    scope.contains(l.from_path) && leads_inside(l, scope)
}

/// The files that the first `count` links within the request start from.
pub open spec fn calling(links: Seq<LinkModel>, scope: Seq<Seq<char>>, count: nat) -> Seq<Seq<char>>
    decreases count,
{
    if count == 0 {
        Seq::empty()
    } else {
        let so_far = calling(links, scope, (count - 1) as nat);
        if shown(links[count - 1], scope) {
            so_far.push(links[count - 1].from_path)
        } else {
            so_far
        }
    }
}

/// The records of a file's links within the request, of the first `count` links.
pub open spec fn calls_from(
    links: Seq<LinkModel>,
    scope: Seq<Seq<char>>,
    path: Seq<char>,
    count: nat,
) -> Seq<JsonModel>
    decreases count,
{
    if count == 0 {
        Seq::empty()
    } else {
        let so_far = calls_from(links, scope, path, (count - 1) as nat);
        if shown(links[count - 1], scope) && links[count - 1].from_path == path {
            so_far.push(link_record(links[count - 1]))
        } else {
            so_far
        }
    }
}

/// How many sites of the first `count` links leave the request.
pub open spec fn leaving(links: Seq<LinkModel>, scope: Seq<Seq<char>>, count: nat) -> nat
    decreases count,
{
    if count == 0 {
        0
    } else {
        let l = links[count - 1];
        leaving(links, scope, (count - 1) as nat) + if scope.contains(l.from_path)
            && !leads_inside(l, scope) {
            l.calls
        } else {
            0
        }
    }
}

/// The links within the request, file by file.
pub open spec fn link_files(links: Seq<LinkModel>, scope: Seq<Seq<char>>) -> Seq<FileRecords> {
    sorted_distinct(calling(links, scope, links.len())).map_values(
        |path: Seq<char>|
            FileRecords { path, records: calls_from(links, scope, path, links.len()) },
    )
}

/// Those of the first `count` files that are, or are not, of a list, leaving out
/// a second one.
pub open spec fn among(
    files: Seq<Seq<char>>,
    list: Seq<Seq<char>>,
    inside: bool,
    without: Seq<Seq<char>>,
    count: nat,
) -> Seq<Seq<char>>
    decreases count,
{
    if count == 0 {
        Seq::empty()
    } else {
        let so_far = among(files, list, inside, without, (count - 1) as nat);
        let f = files[count - 1];
        if list.contains(f) == inside && !without.contains(f) {
            so_far.push(f)
        } else {
            so_far
        }
    }
}

/// The sum of the counts of the first `count` files that are in the request.
pub open spec fn counted(
    paths: Seq<Seq<char>>,
    counts: Seq<usize>,
    scope: Seq<Seq<char>>,
    count: nat,
) -> nat
    decreases count,
{
    if count == 0 {
        0
    } else {
        counted(paths, counts, scope, (count - 1) as nat) + if scope.contains(paths[count - 1]) {
            counts[count - 1] as nat
        } else {
            0
        }
    }
}

/// Some files named, up to a cap.
pub open spec fn named_view(paths: Seq<Seq<char>>) -> JsonModel {
    if paths.len() <= NAMED_FILES_MAX {
        texts_model(paths)
    } else {
        JsonModel::Obj(
            seq![
                field("further"@, nat_model((paths.len() - NAMED_FILES_MAX) as nat)),
                field("paths"@, texts_model(paths.take(NAMED_FILES_MAX as int))),
            ],
        )
    }
}

/// The connections within a request.
pub open spec fn projection(index: LinkIndex, scope: Seq<Seq<char>>, max: nat) -> JsonModel {
    let links = link_models(index.cross@);
    let paths = texts(index.paths@);
    let files = link_files(links, scope);
    let linked = calling(links, scope, links.len());
    let all = sorted_distinct(scope);
    let s = rationed(files, max);
    JsonModel::Obj(
        seq![
            field(
                "deferred_links"@,
                nat_model(left_out(deferred(files, s.taken, files.len())) as nat),
            ),
            field(
                "files_without_graph"@,
                named_view(among(all, paths, false, Seq::empty(), all.len())),
            ),
            field(
                "files_without_links"@,
                named_view(among(all, paths, true, linked, all.len())),
            ),
            field("items"@, JsonModel::Arr(s.items)),
            field(
                "not_shown"@,
                JsonModel::Obj(
                    seq![
                        field(
                            "calls_leaving_this_request"@,
                            nat_model(leaving(links, scope, links.len())),
                        ),
                        field(
                            "calls_to_undeclared_names"@,
                            nat_model(counted(paths, index.unresolved@, scope, paths.len())),
                        ),
                        field(
                            "same_file_calls"@,
                            nat_model(counted(paths, index.internal@, scope, paths.len())),
                        ),
                    ],
                ),
            ),
            field("omitted"@, JsonModel::Arr(omissions(files, s.taken, files.len()))),
            field("semantics"@, JsonModel::Str(LINK_SEMANTICS@)),
        ],
    )
}

/// Whether a call leads to a file of the request.
fn is_inside(l: &CrossLink, scope: &Vec<String>) -> (r: bool)
    ensures
        r == leads_inside(l@, texts(scope@)),
{
    if l.to_path.as_str().unicode_len() > 0 {
        return list_has(scope, l.to_path.as_str());
    }
    let ghost cs = l@.candidates;
    let mut k: usize = 0;
    assert(cs.len() == l.candidates@.len());
    while k < l.candidates.len()
        invariant
            k <= l.candidates@.len(),
            l@.to_path.len() == 0,
            cs == l@.candidates,
            cs == texts(l.candidates@),
            forall|j: int| 0 <= j < k ==> !texts(scope@).contains(#[trigger] cs[j]),
        decreases l.candidates@.len() - k,
    {
        assert(cs[k as int] == l.candidates@[k as int]@);
        if list_has(scope, l.candidates[k].as_str()) {
            return true;
        }
        k += 1;
    }
    false
}

/// The record of a link.
fn link_json(l: &CrossLink) -> (r: Json)
    ensures
        r@ == link_record(l@),
{
    if l.to_path.as_str().unicode_len() == 0 {
        let members = vec![
            member("calls", Json::count(l.calls)),
            member("declared_in", texts_json(&l.candidates)),
            member("from", Json::string(l.from.as_str())),
            member("resolved", Json::Bool(false)),
            member("to", Json::string(l.to.as_str())),
        ];
        assert(member_models(members@) =~= link_record(l@)->Obj_0);
        Json::object(members)
    } else {
        let mut to = l.to_path.clone();
        to.push_str("::");
        to.push_str(l.to.as_str());
        let members = vec![
            member("calls", Json::count(l.calls)),
            member("from", Json::string(l.from.as_str())),
            member("to", Json::Str(to)),
        ];
        assert(member_models(members@) =~= link_record(l@)->Obj_0);
        Json::object(members)
    }
}

/// Some files named, up to a cap: who sees only a count cannot tell which
/// summary to distrust.
pub fn named(paths: &Vec<String>) -> (r: Json)
    ensures
        r@ == named_view(texts(paths@)),
{
    let ghost all = texts(paths@);
    assert(all.len() == paths@.len());
    if paths.len() <= NAMED_FILES_MAX {
        return texts_json(paths);
    }
    let mut shown: Vec<String> = Vec::new();
    let mut i: usize = 0;
    assert(texts(shown@) =~= all.take(0));
    while i < NAMED_FILES_MAX
        invariant
            i <= NAMED_FILES_MAX < paths@.len(),
            all == texts(paths@),
            texts(shown@) == all.take(i as int),
        decreases NAMED_FILES_MAX - i,
    {
        let p = paths[i].clone();
        assert(texts(shown@.push(p)) =~= texts(shown@).push(p@));
        assert(all.take(i + 1) =~= all.take(i as int).push(p@));
        shown.push(p);
        i += 1;
    }
    let further: usize = paths.len() - NAMED_FILES_MAX;
    let members = vec![
        member("further", Json::count(further)),
        member("paths", texts_json(&shown)),
    ];
    assert(member_models(members@) =~= named_view(all)->Obj_0);
    Json::object(members)
}

/// Those of some files that are, or are not, of a list, leaving out a second one.
fn select(files: &Vec<String>, list: &Vec<String>, inside: bool, without: &Vec<String>) -> (r: Vec<
    String,
>)
    ensures
        texts(r@) == among(
            texts(files@),
            texts(list@),
            inside,
            texts(without@),
            texts(files@).len(),
        ),
{
    let ghost fs = texts(files@);
    let mut r: Vec<String> = Vec::new();
    let mut i: usize = 0;
    assert(texts(r@) =~= Seq::empty());
    while i < files.len()
        invariant
            i <= files@.len(),
            fs == texts(files@),
            texts(r@) == among(fs, texts(list@), inside, texts(without@), i as nat),
        decreases files@.len() - i,
    {
        assert(fs[i as int] == files@[i as int]@);
        let f = files[i].as_str();
        if list_has(list, f) == inside && !list_has(without, f) {
            let s = files[i].clone();
            assert(texts(r@.push(s)) =~= texts(r@).push(s@));
            r.push(s);
        }
        i += 1;
    }
    assert(fs.len() == files@.len());
    r
}

/// The sum of the counts of the files that are in the request.
fn count_in(paths: &Vec<String>, counts: &Vec<usize>, scope: &Vec<String>) -> (r: usize)
    requires
        counts@.len() == paths@.len(),
        sum(nats(counts@)) <= usize::MAX,
    ensures
        r == counted(texts(paths@), counts@, texts(scope@), texts(paths@).len()),
{
    let ghost ps = texts(paths@);
    let ghost ns = nats(counts@);
    let mut r: usize = 0;
    let mut i: usize = 0;
    while i < paths.len()
        invariant
            i <= paths@.len(),
            counts@.len() == paths@.len(),
            ps == texts(paths@),
            ns == nats(counts@),
            sum(ns) <= usize::MAX,
            r == counted(ps, counts@, texts(scope@), i as nat),
            r <= sum(ns.take(i as int)),
        decreases paths@.len() - i,
    {
        assert(ps[i as int] == paths@[i as int]@);
        proof {
            lemma_sum_take(ns, i as int);
        }
        if list_has(scope, paths[i].as_str()) {
            r += counts[i];
        }
        i += 1;
    }
    assert(ps.len() == paths@.len());
    r
}

/// How many sites leave the request.
fn count_leaving(links: &Vec<CrossLink>, scope: &Vec<String>) -> (r: usize)
    requires
        link_sites(link_models(links@)) <= usize::MAX,
    ensures
        r == leaving(link_models(links@), texts(scope@), links@.len()),
{
    let ghost ls = link_models(links@);
    let ghost ns = ls.map_values(|l: LinkModel| l.calls);
    let mut r: usize = 0;
    let mut i: usize = 0;
    while i < links.len()
        invariant
            i <= links@.len(),
            ls == link_models(links@),
            ns == ls.map_values(|l: LinkModel| l.calls),
            sum(ns) <= usize::MAX,
            r == leaving(ls, texts(scope@), i as nat),
            r <= sum(ns.take(i as int)),
        decreases links@.len() - i,
    {
        let l = &links[i];
        assert(ls[i as int] == l@);
        proof {
            lemma_sum_take(ns, i as int);
        }
        if list_has(scope, l.from_path.as_str()) && !is_inside(l, scope) {
            r += l.calls;
        }
        i += 1;
    }
    r
}

proof fn lemma_links_are_objects(
    links: Seq<LinkModel>,
    scope: Seq<Seq<char>>,
    path: Seq<char>,
    count: nat,
)
    ensures
        forall|k: int|
            0 <= k < calls_from(links, scope, path, count).len() ==> (#[trigger] calls_from(
                links,
                scope,
                path,
                count,
            )[k]) is Obj,
    decreases count,
{
    if count > 0 {
        lemma_links_are_objects(links, scope, path, (count - 1) as nat);
    }
}

/// The links within the request, file by file, and the files that they start
/// from.
fn group_links(links: &Vec<CrossLink>, scope: &Vec<String>) -> (r: (
    Vec<(String, Vec<Json>)>,
    Vec<String>,
))
    ensures
        file_records(r.0@) == link_files(link_models(links@), texts(scope@)),
        texts(r.1@) == calling(link_models(links@), texts(scope@), links@.len()),
        all_objects(file_records(r.0@)),
{
    let ghost ls = link_models(links@);
    let ghost sc = texts(scope@);
    let n: usize = links.len();
    let mut from: Vec<String> = Vec::new();
    let mut i: usize = 0;
    assert(texts(from@) =~= Seq::empty());
    assert(ls.len() == n);
    while i < n
        invariant
            i <= n,
            n == links@.len(),
            ls == link_models(links@),
            sc == texts(scope@),
            texts(from@) == calling(ls, sc, i as nat),
        decreases n - i,
    {
        let l = &links[i];
        assert(ls[i as int] == l@);
        if list_has(scope, l.from_path.as_str()) && is_inside(l, scope) {
            let p = l.from_path.clone();
            assert(texts(from@.push(p)) =~= texts(from@).push(p@));
            from.push(p);
        }
        i += 1;
    }
    let sorted = sort_distinct(&from);
    let ghost goal = link_files(ls, sc);
    let mut files: Vec<(String, Vec<Json>)> = Vec::new();
    let mut k: usize = 0;
    assert(file_records(files@) =~= goal.take(0));
    assert(texts(sorted@).len() == sorted@.len());
    while k < sorted.len()
        invariant
            k <= sorted@.len(),
            n == links@.len(),
            ls == link_models(links@),
            ls.len() == n,
            sc == texts(scope@),
            texts(sorted@) == sorted_distinct(calling(ls, sc, n as nat)),
            texts(sorted@).len() == sorted@.len(),
            goal == link_files(ls, sc),
            file_records(files@) == goal.take(k as int),
            all_objects(file_records(files@)),
        decreases sorted@.len() - k,
    {
        let path = sorted[k].as_str();
        assert(texts(sorted@)[k as int] == path@);
        let mut own: Vec<Json> = Vec::new();
        let mut j: usize = 0;
        assert(models(own@) =~= Seq::empty());
        while j < n
            invariant
                j <= n,
                n == links@.len(),
                ls == link_models(links@),
                sc == texts(scope@),
                models(own@) == calls_from(ls, sc, path@, j as nat),
            decreases n - j,
        {
            let l = &links[j];
            assert(ls[j as int] == l@);
            if same(l.from_path.as_str(), path) && list_has(scope, path) && is_inside(l, scope) {
                let record = link_json(l);
                assert(models(own@.push(record)) =~= models(own@).push(record@));
                own.push(record);
            }
            j += 1;
        }
        proof {
            lemma_links_are_objects(ls, sc, path@, n as nat);
        }
        let ghost was = file_records(files@);
        let ghost one = FileRecords { path: path@, records: models(own@) };
        files.push((String::from_str(path), own));
        assert(file_records(files@) =~= was.push(one));
        assert(goal[k as int] == one);
        assert(goal.take(k + 1) =~= goal.take(k as int).push(one));
        k += 1;
    }
    assert(goal.take(k as int) =~= goal);
    (files, from)
}

/// Which file of a request calls which, within a budget. Calls that stay in a
/// file, leave the request or lead to no declaration are counted.
pub fn project(index: &LinkIndex, scope: &Vec<String>, max: usize) -> (r: Json)
    requires
        index.wf(),
    ensures
        r@ == projection(*index, texts(scope@), max as nat),
{
    let (files, linked) = group_links(&index.cross, scope);
    let all = sort_distinct(scope);
    let none: Vec<String> = Vec::new();
    assert(texts(none@) =~= Seq::empty());
    let without_links = select(&all, &index.paths, true, &linked);
    let without_graph = select(&all, &index.paths, false, &none);
    let gone: usize = count_leaving(&index.cross, scope);
    let internal: usize = count_in(&index.paths, &index.internal, scope);
    let unresolved: usize = count_in(&index.paths, &index.unresolved, scope);
    let s = ration(&files, max);
    let left: usize = count_deferred(&files, &s.taken);
    let ghost view = projection(*index, texts(scope@), max as nat)->Obj_0;
    let counts = vec![
        member("calls_leaving_this_request", Json::count(gone)),
        member("calls_to_undeclared_names", Json::count(unresolved)),
        member("same_file_calls", Json::count(internal)),
    ];
    assert(link_models(index.cross@).len() == index.cross@.len());
    assert(member_models(counts@) =~= view[4].value->Obj_0);
    let members = vec![
        member("deferred_links", Json::count(left)),
        member("files_without_graph", named(&without_graph)),
        member("files_without_links", named(&without_links)),
        member("items", Json::array(s.items)),
        member("not_shown", Json::object(counts)),
        member("omitted", Json::array(s.omitted)),
        member("semantics", Json::string(LINK_SEMANTICS)),
    ];
    assert(member_models(members@) =~= view);
    Json::object(members)
}

} // verus!
