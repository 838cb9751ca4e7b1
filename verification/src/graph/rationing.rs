//! Records within a budget: every file of a request has its share, and what
//! does not fit is named.

use vstd::prelude::*;

use crate::json::{
    field, lemma_obj, member, member_models, models, nat_model, put, put_member, text_of, Json,
    JsonModel, Member,
};
use crate::text::blen;

verus! {

/// A record that says which file it is of.
pub open spec fn with_path(record: JsonModel, path: Seq<char>) -> JsonModel {
    JsonModel::Obj(put_member(record->Obj_0, "path"@, JsonModel::Str(path)))
}

/// A record that says which file it is of.
fn placed_record(record: &Json, path: &str) -> (r: Json)
    requires
        record@ is Obj,
    ensures
        r@ == with_path(record@, path@),
{
    let mut members: Vec<Member> = match record.copy() {
        Json::Obj(m) => m,
        _ => Vec::new(),
    };
    proof {
        lemma_obj(members);
    }
    put(&mut members, "path", Json::string(path));
    Json::object(members)
}

/// The records of a file.
pub struct FileRecords {
    pub path: Seq<char>,
    pub records: Seq<JsonModel>,
}

/// The values of the records of some files.
pub open spec fn file_records(v: Seq<(String, Vec<Json>)>) -> Seq<FileRecords> {
    v.map_values(
        |f: (String, Vec<Json>)| FileRecords { path: f.0@, records: models(f.1@) },
    )
}

/// Every record is an object.
pub open spec fn all_objects(files: Seq<FileRecords>) -> bool {
    forall|i: int, k: int|
        0 <= i < files.len() && 0 <= k < files[i].records.len() ==> (
        #[trigger] files[i].records[k]) is Obj
}

/// A budget being spent: the records that were taken, how many of each file, and
/// what they cost.
pub struct Spending {
    pub items: Seq<JsonModel>,
    pub taken: Seq<usize>,
    pub used: nat,
}

/// What a record costs: its text and a comma.
pub open spec fn cost(record: JsonModel) -> nat {
    blen(text_of(record)) + 1
}

/// The next record of a file.
pub open spec fn next_record(files: Seq<FileRecords>, s: Spending, i: int) -> JsonModel {
    with_path(files[i].records[s.taken[i] as int], files[i].path)
}

/// Takes the next record of a file where there is one and it fits.
pub open spec fn offer(files: Seq<FileRecords>, max: nat, s: Spending, i: int) -> Spending {
    if s.taken[i] >= files[i].records.len() || s.used + cost(next_record(files, s, i)) > max {
        s
    } else {
        Spending {
            items: s.items.push(next_record(files, s, i)),
            taken: s.taken.update(i, (s.taken[i] + 1) as usize),
            used: s.used + cost(next_record(files, s, i)),
        }
    }
}

/// A round over the first `count` files: at most one record of each.
pub open spec fn round(files: Seq<FileRecords>, max: nat, s: Spending, count: nat) -> Spending
    decreases count,
{
    if count == 0 {
        s
    } else {
        offer(files, max, round(files, max, s, (count - 1) as nat), count - 1)
    }
}

/// What is spent after some rounds.
pub open spec fn spent(files: Seq<FileRecords>, max: nat, rounds: nat) -> Spending
    decreases rounds,
{
    if rounds == 0 {
        Spending {
            items: Seq::empty(),
            taken: Seq::new(files.len(), |i: int| 0usize),
            used: 0,
        }
    } else {
        round(files, max, spent(files, max, (rounds - 1) as nat), files.len())
    }
}

/// The most records that one of the first `count` files has.
pub open spec fn longest(files: Seq<FileRecords>, count: nat) -> nat
    decreases count,
{
    if count == 0 {
        0
    } else {
        let so_far = longest(files, (count - 1) as nat);
        if files[count - 1].records.len() > so_far {
            files[count - 1].records.len()
        } else {
            so_far
        }
    }
}

/// How a budget is spent on the records of some files.
pub open spec fn rationed(files: Seq<FileRecords>, max: nat) -> Spending {
    spent(files, max, longest(files, files.len()))
}

/// The record of what a file has too many of.
pub open spec fn omitted_record(path: Seq<char>, count: nat) -> JsonModel {
    JsonModel::Obj(
        seq![
            field("omitted_records"@, nat_model(count)),
            field("path"@, JsonModel::Str(path)),
        ],
    )
}

/// What is left out of the first `count` files.
pub open spec fn omissions(files: Seq<FileRecords>, taken: Seq<usize>, count: nat) -> Seq<JsonModel>
    decreases count,
{
    if count == 0 {
        Seq::empty()
    } else {
        let so_far = omissions(files, taken, (count - 1) as nat);
        let f = files[count - 1];
        if taken[count - 1] < f.records.len() {
            so_far.push(
                omitted_record(f.path, (f.records.len() - taken[count - 1]) as nat),
            )
        } else {
            so_far
        }
    }
}

/// How much is left out of the first `count` files.
pub open spec fn deferred(files: Seq<FileRecords>, taken: Seq<usize>, count: nat) -> nat
    decreases count,
{
    if count == 0 {
        0
    } else {
        let f = files[count - 1];
        deferred(files, taken, (count - 1) as nat) + if taken[count - 1] < f.records.len() {
            (f.records.len() - taken[count - 1]) as nat
        } else {
            0
        }
    }
}

/// What some records cost.
pub open spec fn total_cost(items: Seq<JsonModel>) -> nat
    decreases items.len(),
{
    if items.len() == 0 {
        0
    } else {
        total_cost(items.drop_last()) + cost(items.last())
    }
}

/// A spending is sound: it adds up, stays in the budget and takes no more than
/// there is.
pub open spec fn sound(files: Seq<FileRecords>, max: nat, s: Spending) -> bool {
    &&& s.taken.len() == files.len()
    &&& s.used == total_cost(s.items)
    &&& s.used <= max
    &&& forall|i: int|
        0 <= i < files.len() ==> (#[trigger] s.taken[i]) <= files[i].records.len()
}

/// Nothing more of a file fits, though there is more.
pub open spec fn blocked(files: Seq<FileRecords>, max: nat, s: Spending, i: int) -> bool {
    s.taken[i] < files[i].records.len() && s.used + cost(next_record(files, s, i)) > max
}

/// A file has given a record in each of some rounds, as far as it has them, or
/// nothing more of it fits.
pub open spec fn served(
    files: Seq<FileRecords>,
    max: nat,
    s: Spending,
    i: int,
    rounds: nat,
) -> bool {
    blocked(files, max, s, i) || s.taken[i] == (if rounds < files[i].records.len() {
        rounds as int
    } else {
        files[i].records.len() as int
    })
}

/// The lists are short enough to be counted.
pub open spec fn countable_records(files: Seq<FileRecords>) -> bool {
    forall|i: int| 0 <= i < files.len() ==> (#[trigger] files[i]).records.len() <= usize::MAX
}

proof fn lemma_offer(files: Seq<FileRecords>, max: nat, s: Spending, i: int)
    requires
        sound(files, max, s),
        countable_records(files),
        0 <= i < files.len(),
    ensures
        sound(files, max, offer(files, max, s, i)),
        offer(files, max, s, i).used >= s.used,
        forall|j: int|
            0 <= j < files.len() && j != i ==> #[trigger] offer(files, max, s, i).taken[j]
                == s.taken[j],
        s.taken[i] >= files[i].records.len() || blocked(files, max, s, i) ==> offer(
            files,
            max,
            s,
            i,
        ) == s,
{
    assert(files[i].records.len() <= usize::MAX);
    let t = offer(files, max, s, i);
    if t != s {
        assert(t.items.drop_last() =~= s.items);
    }
}

proof fn lemma_round(files: Seq<FileRecords>, max: nat, s: Spending, rounds: nat, count: nat)
    requires
        sound(files, max, s),
        countable_records(files),
        count <= files.len(),
        forall|i: int| 0 <= i < files.len() ==> #[trigger] served(files, max, s, i, rounds),
    ensures
        ({
            let t = round(files, max, s, count);
            &&& sound(files, max, t)
            &&& forall|i: int|
                0 <= i < count ==> #[trigger] served(files, max, t, i, rounds + 1)
            &&& forall|i: int|
                count <= i < files.len() ==> #[trigger] served(files, max, t, i, rounds)
        }),
    decreases count,
{
    if count > 0 {
        lemma_round(files, max, s, rounds, (count - 1) as nat);
        let was = round(files, max, s, (count - 1) as nat);
        let at = count - 1;
        lemma_offer(files, max, was, at);
        let t = round(files, max, s, count);
        assert forall|i: int| 0 <= i < count implies #[trigger] served(files, max, t, i, rounds + 1) by {
            if i < at {
                assert(served(files, max, was, i, rounds + 1));
                assert(t.taken[i] == was.taken[i]);
            } else {
                assert(served(files, max, was, at, rounds));
            }
        }
        assert forall|i: int| count <= i < files.len() implies #[trigger] served(
            files,
            max,
            t,
            i,
            rounds,
        ) by {
            assert(served(files, max, was, i, rounds));
            assert(t.taken[i] == was.taken[i]);
        }
    }
}

proof fn lemma_spent(files: Seq<FileRecords>, max: nat, rounds: nat)
    requires
        countable_records(files),
    ensures
        sound(files, max, spent(files, max, rounds)),
        forall|i: int|
            0 <= i < files.len() ==> #[trigger] served(
                files,
                max,
                spent(files, max, rounds),
                i,
                rounds,
            ),
    decreases rounds,
{
    if rounds > 0 {
        let before = (rounds - 1) as nat;
        lemma_spent(files, max, before);
        lemma_round(files, max, spent(files, max, before), before, files.len());
        assert forall|i: int| 0 <= i < files.len() implies #[trigger] served(
            files,
            max,
            spent(files, max, rounds),
            i,
            rounds,
        ) by {
            assert(served(files, max, spent(files, max, rounds), i, before + 1));
        }
    }
}

proof fn lemma_longest(files: Seq<FileRecords>, count: nat, i: int)
    requires
        0 <= i < count <= files.len(),
    ensures
        files[i].records.len() <= longest(files, count),
    decreases count,
{
    if i < count - 1 {
        lemma_longest(files, (count - 1) as nat, i);
    }
}

/// What is taken stays within the budget.
pub proof fn rations_fit(files: Seq<FileRecords>, max: nat)
    requires
        countable_records(files),
    ensures
        total_cost(rationed(files, max).items) <= max,
{
    lemma_spent(files, max, longest(files, files.len()));
}

/// A budget is spent in full: of each file either everything was taken, or its
/// next record no longer fits.
pub proof fn rations_leave_nothing_that_fits(files: Seq<FileRecords>, max: nat, i: int)
    requires
        countable_records(files),
        0 <= i < files.len(),
    ensures
        ({
            let s = rationed(files, max);
            s.taken[i] == files[i].records.len() || (s.taken[i] < files[i].records.len() && s.used
                + cost(next_record(files, s, i)) > max)
        }),
{
    lemma_spent(files, max, longest(files, files.len()));
    lemma_longest(files, files.len(), i);
    assert(served(files, max, rationed(files, max), i, longest(files, files.len())));
}

/// Every file has its share: after a round, a file that could still give a
/// record has given no fewer than any other.
pub proof fn rations_are_shared(files: Seq<FileRecords>, max: nat, rounds: nat, i: int, j: int)
    requires
        countable_records(files),
        0 <= i < files.len(),
        0 <= j < files.len(),
        !blocked(files, max, spent(files, max, rounds), i),
        spent(files, max, rounds).taken[i] < files[i].records.len(),
    ensures
        spent(files, max, rounds).taken[j] <= spent(files, max, rounds).taken[i],
{
    lemma_spent(files, max, rounds);
    assert(served(files, max, spent(files, max, rounds), i, rounds));
    assert(served(files, max, spent(files, max, rounds), j, rounds));
    lemma_taken(files, max, rounds, j);
}

proof fn lemma_taken(files: Seq<FileRecords>, max: nat, rounds: nat, j: int)
    requires
        countable_records(files),
        0 <= j < files.len(),
    ensures
        spent(files, max, rounds).taken[j] <= rounds,
    decreases rounds,
{
    if rounds > 0 {
        lemma_taken(files, max, (rounds - 1) as nat, j);
        lemma_spent(files, max, (rounds - 1) as nat);
        lemma_round_taken(
            files,
            max,
            spent(files, max, (rounds - 1) as nat),
            files.len(),
            j,
        );
    }
}

proof fn lemma_round_taken(files: Seq<FileRecords>, max: nat, s: Spending, count: nat, j: int)
    requires
        sound(files, max, s),
        countable_records(files),
        count <= files.len(),
        0 <= j < files.len(),
    ensures
        sound(files, max, round(files, max, s, count)),
        round(files, max, s, count).taken[j] <= s.taken[j] + if j < count {
            1int
        } else {
            0int
        },
    decreases count,
{
    if count > 0 {
        lemma_round_taken(files, max, s, (count - 1) as nat, j);
        lemma_offer(files, max, round(files, max, s, (count - 1) as nat), count - 1);
    }
}

/// What a budget buys, and what it does not.
pub struct Ration {
    pub items: Vec<Json>,
    pub omitted: Vec<Json>,
    pub taken: Vec<usize>,
}

/// Spends a budget breadth-first, so that every file of a request is described:
/// one record of each file in a round, as far as it fits.
pub fn ration(files: &Vec<(String, Vec<Json>)>, max: usize) -> (r: Ration)
    requires
        all_objects(file_records(files@)),
    ensures
        ({
            let fs = file_records(files@);
            let s = rationed(fs, max as nat);
            &&& models(r.items@) == s.items
            &&& r.taken@ == s.taken
            &&& models(r.omitted@) == omissions(fs, s.taken, fs.len())
            &&& sound(fs, max as nat, s)
            &&& countable_records(fs)
        }),
{
    let ghost fs = file_records(files@);
    let n: usize = files.len();
    let mut items: Vec<Json> = Vec::new();
    let mut taken: Vec<usize> = Vec::new();
    let mut most: usize = 0;
    let mut i: usize = 0;
    assert(fs.len() == n);
    assert(taken@ =~= Seq::new(0, |i: int| 0usize));
    while i < n
        invariant
            i <= n,
            n == files@.len(),
            fs == file_records(files@),
            taken@ == Seq::new(i as nat, |i: int| 0usize),
            most == longest(fs, i as nat),
            forall|k: int| 0 <= k < i ==> (#[trigger] fs[k]).records.len() <= usize::MAX,
        decreases n - i,
    {
        assert(fs[i as int].records == models(files@[i as int].1@));
        let count: usize = files[i].1.len();
        assert(fs[i as int].records.len() == count);
        if count > most {
            most = count;
        }
        taken.push(0);
        assert(taken@ =~= Seq::new((i + 1) as nat, |i: int| 0usize));
        i += 1;
    }
    let mut used: usize = 0;
    let mut turn: usize = 0;
    assert(models(items@) =~= Seq::empty());
    assert(countable_records(fs));
    while turn < most
        invariant
            turn <= most,
            n == files@.len(),
            fs == file_records(files@),
            fs.len() == n,
            countable_records(fs),
            all_objects(fs),
            spent(fs, max as nat, turn as nat) == (Spending {
                items: models(items@),
                taken: taken@,
                used: used as nat,
            }),
        decreases most - turn,
    {
        let ghost start = spent(fs, max as nat, turn as nat);
        let mut k: usize = 0;
        proof {
            lemma_spent(fs, max as nat, turn as nat);
        }
        while k < n
            invariant
                k <= n,
                n == files@.len(),
                fs == file_records(files@),
                fs.len() == n,
                countable_records(fs),
                all_objects(fs),
                round(fs, max as nat, start, k as nat) == (Spending {
                    items: models(items@),
                    taken: taken@,
                    used: used as nat,
                }),
                sound(fs, max as nat, round(fs, max as nat, start, k as nat)),
            decreases n - k,
        {
            proof {
                lemma_offer(fs, max as nat, round(fs, max as nat, start, k as nat), k as int);
                assert(fs[k as int].records == models(files@[k as int].1@));
                assert(fs[k as int].path == files@[k as int].0@);
            }
            let at: usize = taken[k];
            if at < files[k].1.len() {
                assert(fs[k as int].records[at as int] is Obj);
                let record = &files[k].1[at];
                assert(record@ == fs[k as int].records[at as int]);
                let value = placed_record(record, files[k].0.as_str());
                let size: usize = value.size();
                let room: usize = max - used;
                if size < room {
                    used = used + size + 1;
                    taken.set(k, at + 1);
                    assert(models(items@.push(value)) =~= models(items@).push(value@));
                    items.push(value);
                }
            }
            k += 1;
        }
        turn += 1;
    }
    proof {
        lemma_spent(fs, max as nat, most as nat);
    }
    let mut omitted: Vec<Json> = Vec::new();
    let mut m: usize = 0;
    assert(models(omitted@) =~= Seq::empty());
    while m < n
        invariant
            m <= n,
            n == files@.len(),
            fs == file_records(files@),
            fs.len() == n,
            taken@.len() == n,
            models(omitted@) == omissions(fs, taken@, m as nat),
        decreases n - m,
    {
        assert(fs[m as int].records == models(files@[m as int].1@));
        assert(fs[m as int].path == files@[m as int].0@);
        let count: usize = files[m].1.len();
        if taken[m] < count {
            let left: usize = count - taken[m];
            let members = vec![
                member("omitted_records", Json::count(left)),
                member("path", Json::string(files[m].0.as_str())),
            ];
            let ghost want = omitted_record(fs[m as int].path, (count - taken@[m as int]) as nat);
            assert(member_models(members@) =~= want->Obj_0);
            let record = Json::object(members);
            assert(models(omitted@.push(record)) =~= models(omitted@).push(record@));
            omitted.push(record);
        }
        m += 1;
    }
    Ration { items, omitted, taken }
}

/// How many records a ration leaves out, as far as a number holds it.
pub open spec fn left_out(n: nat) -> usize {
    if n > usize::MAX {
        usize::MAX
    } else {
        n as usize
    }
}

/// How many records are left out of some files.
pub fn count_deferred(files: &Vec<(String, Vec<Json>)>, taken: &Vec<usize>) -> (r: usize)
    requires
        taken@.len() == files@.len(),
    ensures
        r == left_out(deferred(file_records(files@), taken@, files@.len())),
{
    let ghost fs = file_records(files@);
    let mut r: usize = 0;
    let mut i: usize = 0;
    while i < files.len()
        invariant
            i <= files@.len(),
            taken@.len() == files@.len(),
            fs == file_records(files@),
            r == left_out(deferred(fs, taken@, i as nat)),
        decreases files@.len() - i,
    {
        assert(fs[i as int].records == models(files@[i as int].1@));
        let count: usize = files[i].1.len();
        assert(fs[i as int].records.len() == count);
        if taken[i] < count {
            r = r.saturating_add(count - taken[i]);
        }
        i += 1;
    }
    r
}

} // verus!
