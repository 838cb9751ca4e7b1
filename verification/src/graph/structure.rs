//! The structural hint of a request that reads source.

use vstd::prelude::*;
use vstd::string::StringExecFns;

use super::rationing::{
    all_objects, count_deferred, deferred, file_records, left_out, omissions, ration, rationed,
    FileRecords,
};
use super::records::{records, records_of, symbol_records, edge_records, site_records};
use crate::code_graph::{CodeGraph, GraphModel};
use crate::json::{field, member, member_models, models, nat_model, Json, JsonModel};
use crate::model::Evidence;
use crate::order::{sort_distinct, sorted_distinct};
use crate::text::{same, texts};

verus! {

/// What a reader must know of the records.
pub const STRUCTURE_SEMANTICS: &'static str = "Syntax only, and never a citation: these records carry names and line numbers, not evidence IDs, so cite the supplied passages instead. Resolve candidate connections against supplied original evidence; do not assert runtime order from this graph. `sites` counts branch/returns/error_path/writes/awaits sites inside a symbol: read the supplied passage for the actual conditions rather than treating a count as a described behavior. `omitted` and `files_without_graph` name structure this request could not carry; treat those as unresolved, never as evidence that the code has none.";

/// A file of a request, and its graph where it was indexed.
pub struct Loaded {
    pub path: String,
    pub graph: Option<CodeGraph>,
}

/// The value of a file of a request.
pub struct LoadedModel {
    pub path: Seq<char>,
    pub graph: Option<GraphModel>,
}

impl View for Loaded {
    type V = LoadedModel;

    open spec fn view(&self) -> LoadedModel {
        LoadedModel {
            path: self.path@,
            graph: match self.graph {
                Some(g) => Some(g@),
                None => None,
            },
        }
    }
}

/// The values of a list of files.
pub open spec fn loaded_models(v: Seq<Loaded>) -> Seq<LoadedModel> {
    v.map_values(|f: Loaded| f@)
}

/// The files of some passages.
pub open spec fn paths_of(evidence: Seq<Evidence>) -> Seq<Seq<char>> {
    evidence.map_values(|e: Evidence| e.path@)
}

/// The files that some passages are from, in order and each once.
pub fn evidence_paths(evidence: &[Evidence]) -> (r: Vec<String>)
    ensures
        texts(r@) == sorted_distinct(paths_of(evidence@)),
{
    let ghost goal = paths_of(evidence@);
    let mut all: Vec<String> = Vec::new();
    let mut i: usize = 0;
    assert(texts(all@) =~= goal.take(0));
    while i < evidence.len()
        invariant
            i <= evidence@.len(),
            goal == paths_of(evidence@),
            texts(all@) == goal.take(i as int),
        decreases evidence@.len() - i,
    {
        let path = evidence[i].path.clone();
        assert(texts(all@.push(path)) =~= texts(all@).push(path@));
        assert(goal.take(i + 1) =~= goal.take(i as int).push(path@));
        all.push(path);
        i += 1;
    }
    assert(goal.take(i as int) =~= goal);
    sort_distinct(&all)
}

/// The lines of the first `count` passages that are of a file.
pub open spec fn lines_of(evidence: Seq<Evidence>, path: Seq<char>, count: nat) -> Seq<(u32, u32)>
    decreases count,
{
    if count == 0 {
        Seq::empty()
    } else {
        let so_far = lines_of(evidence, path, (count - 1) as nat);
        if evidence[count - 1].path@ == path {
            so_far.push((evidence[count - 1].start, evidence[count - 1].end))
        } else {
            so_far
        }
    }
}

/// The lines of the passages of a file.
fn find_lines(evidence: &[Evidence], path: &str) -> (r: Vec<(u32, u32)>)
    ensures
        r@ == lines_of(evidence@, path@, evidence@.len()),
{
    let mut r: Vec<(u32, u32)> = Vec::new();
    let mut i: usize = 0;
    while i < evidence.len()
        invariant
            i <= evidence@.len(),
            r@ == lines_of(evidence@, path@, i as nat),
        decreases evidence@.len() - i,
    {
        if same(evidence[i].path.as_str(), path) {
            r.push((evidence[i].start, evidence[i].end));
        }
        i += 1;
    }
    r
}

/// The record of a file that nothing is known of, and why.
pub open spec fn gap_record(path: Seq<char>, reason: Seq<char>) -> JsonModel {
    JsonModel::Obj(
        seq![field("path"@, JsonModel::Str(path)), field("reason"@, JsonModel::Str(reason))],
    )
}

/// The structure of a file's passages.
pub open spec fn structure_of(f: LoadedModel, evidence: Seq<Evidence>) -> Seq<JsonModel> {
    match f.graph {
        Some(g) => records_of(g, lines_of(evidence, f.path, evidence.len())),
        None => Seq::empty(),
    }
}

/// The files, of the first `count`, that there is something to say of.
pub open spec fn described(
    files: Seq<LoadedModel>,
    evidence: Seq<Evidence>,
    count: nat,
) -> Seq<FileRecords>
    decreases count,
{
    if count == 0 {
        Seq::empty()
    } else {
        let so_far = described(files, evidence, (count - 1) as nat);
        let f = files[count - 1];
        let own = structure_of(f, evidence);
        if own.len() == 0 {
            so_far
        } else {
            so_far.push(FileRecords { path: f.path, records: own })
        }
    }
}

/// Why there is nothing to say of a file.
pub open spec fn gap_reason(f: LoadedModel) -> Seq<char> {
    match f.graph {
        None => "not_indexed"@,
        Some(g) => if g.supported {
            "no_declarations_in_passage"@
        } else {
            "unsupported_language"@
        },
    }
}

/// The files, of the first `count`, that there is nothing to say of.
pub open spec fn gaps(files: Seq<LoadedModel>, evidence: Seq<Evidence>, count: nat) -> Seq<JsonModel>
    decreases count,
{
    if count == 0 {
        Seq::empty()
    } else {
        let so_far = gaps(files, evidence, (count - 1) as nat);
        let f = files[count - 1];
        if structure_of(f, evidence).len() == 0 {
            so_far.push(gap_record(f.path, gap_reason(f)))
        } else {
            so_far
        }
    }
}

/// The structural hint of a request.
pub open spec fn structure_view(
    files: Seq<LoadedModel>,
    evidence: Seq<Evidence>,
    max: nat,
) -> JsonModel {
    let known = described(files, evidence, files.len());
    let s = rationed(known, max);
    JsonModel::Obj(
        seq![
            field(
                "deferred_records"@,
                nat_model(left_out(deferred(known, s.taken, known.len())) as nat),
            ),
            field("files_without_graph"@, JsonModel::Arr(gaps(files, evidence, files.len()))),
            field("items"@, JsonModel::Arr(s.items)),
            field("omitted"@, JsonModel::Arr(omissions(known, s.taken, known.len()))),
            field("semantics"@, JsonModel::Str(STRUCTURE_SEMANTICS@)),
        ],
    )
}

proof fn lemma_records_are_objects(g: GraphModel, spans: Seq<(u32, u32)>)
    ensures
        forall|k: int| 0 <= k < records_of(g, spans).len() ==> (#[trigger] records_of(g, spans)[k]) is Obj,
{
    lemma_symbols_are_objects(g, spans, g.symbols.len());
    lemma_edges_are_objects(g, spans, false, g.edges.len());
    lemma_edges_are_objects(g, spans, true, g.edges.len());
    let a = symbol_records(g.symbols, spans, g.symbols.len());
    let b = site_records(g, spans);
    let c = edge_records(g, spans, false, g.edges.len());
    let d = edge_records(g, spans, true, g.edges.len());
    let r = records_of(g, spans);
    assert forall|k: int| 0 <= k < r.len() implies (#[trigger] r[k]) is Obj by {
        if k < a.len() {
            assert(r[k] == a[k]);
        } else if k < a.len() + b.len() {
            assert(r[k] == b[k - a.len()]);
        } else if k < a.len() + b.len() + c.len() {
            assert(r[k] == c[k - a.len() - b.len()]);
        } else {
            assert(r[k] == d[k - a.len() - b.len() - c.len()]);
        }
    }
}

proof fn lemma_symbols_are_objects(g: GraphModel, spans: Seq<(u32, u32)>, count: nat)
    ensures
        forall|k: int|
            0 <= k < symbol_records(g.symbols, spans, count).len() ==> (#[trigger] symbol_records(
                g.symbols,
                spans,
                count,
            )[k]) is Obj,
    decreases count,
{
    if count > 0 {
        lemma_symbols_are_objects(g, spans, (count - 1) as nat);
    }
}

proof fn lemma_edges_are_objects(g: GraphModel, spans: Seq<(u32, u32)>, calls: bool, count: nat)
    ensures
        forall|k: int|
            0 <= k < edge_records(g, spans, calls, count).len() ==> (#[trigger] edge_records(
                g,
                spans,
                calls,
                count,
            )[k]) is Obj,
    decreases count,
{
    if count > 0 {
        lemma_edges_are_objects(g, spans, calls, (count - 1) as nat);
    }
}

/// The bounded structural hint of a request that reads source. What it cannot
/// carry is named file by file: such structure is unresolved, not absent.
pub fn describe(files: &Vec<Loaded>, evidence: &[Evidence], max: usize) -> (r: Json)
    ensures
        r@ == structure_view(loaded_models(files@), evidence@, max as nat),
{
    let ghost fs = loaded_models(files@);
    let mut known: Vec<(String, Vec<Json>)> = Vec::new();
    let mut missing: Vec<Json> = Vec::new();
    let mut i: usize = 0;
    assert(file_records(known@) =~= Seq::empty());
    assert(models(missing@) =~= Seq::empty());
    while i < files.len()
        invariant
            i <= files@.len(),
            fs == loaded_models(files@),
            file_records(known@) == described(fs, evidence@, i as nat),
            models(missing@) == gaps(fs, evidence@, i as nat),
            all_objects(file_records(known@)),
        decreases files@.len() - i,
    {
        let f = &files[i];
        assert(fs[i as int] == f@);
        let (own, reason): (Vec<Json>, &str) = match &f.graph {
            Some(g) => {
                let lines = find_lines(evidence, f.path.as_str());
                proof {
                    lemma_records_are_objects(g@, lines@);
                }
                (
                    records(g, lines.as_slice()),
                    if g.supported {
                        "no_declarations_in_passage"
                    } else {
                        "unsupported_language"
                    },
                )
            },
            None => (Vec::new(), "not_indexed"),
        };
        assert(models(own@) =~= structure_of(f@, evidence@));
        assert(reason@ == gap_reason(f@));
        if own.len() == 0 {
            let members = vec![
                member("path", Json::string(f.path.as_str())),
                member("reason", Json::string(reason)),
            ];
            assert(member_models(members@) =~= gap_record(f@.path, gap_reason(f@))->Obj_0);
            let record = Json::object(members);
            assert(models(missing@.push(record)) =~= models(missing@).push(record@));
            missing.push(record);
        } else {
            let ghost was = file_records(known@);
            let item = (f.path.clone(), own);
            let ghost one = FileRecords { path: f@.path, records: structure_of(f@, evidence@) };
            known.push(item);
            assert(file_records(known@) =~= was.push(one));
        }
        i += 1;
    }
    assert(fs.len() == files@.len());
    let s = ration(&known, max);
    let left: usize = count_deferred(&known, &s.taken);
    let members = vec![
        member("deferred_records", Json::count(left)),
        member("files_without_graph", Json::array(missing)),
        member("items", Json::array(s.items)),
        member("omitted", Json::array(s.omitted)),
        member("semantics", Json::string(STRUCTURE_SEMANTICS)),
    ];
    assert(member_models(members@) =~= structure_view(fs, evidence@, max as nat)->Obj_0);
    Json::object(members)
}

} // verus!
