//! Where files live: paths against the sources that were named, and the
//! directories that they share.

use vstd::prelude::*;
use vstd::string::StringExecFns;

use crate::json::{models, nat_model, Json, JsonModel};
use crate::order::{lemma_insert_at, lemma_ordered, ordered};
use crate::text::{
    before, list_has, matches_at, precedes, same, slice, starts_with, texts, to_chars,
};

verus! {

/// A text without the slashes at its end.
pub open spec fn strip_slashes(s: Seq<char>) -> Seq<char>
    decreases s.len(),
{
    if s.len() > 0 && s.last() == '/' {
        strip_slashes(s.drop_last())
    } else {
        s
    }
}

/// What stands behind a root in a path under it.
pub open spec fn below(path: Seq<char>, root: Seq<char>) -> Option<Seq<char>> {
    let prefix = strip_slashes(root) + seq!['/'];
    if starts_with(path, prefix) {
        Some(path.skip(prefix.len() as int))
    } else {
        None
    }
}

/// The shortest of what stands behind one of the first `count` roots.
pub open spec fn nearest(path: Seq<char>, roots: Seq<Seq<char>>, count: nat) -> Option<Seq<char>>
    decreases count,
{
    if count == 0 {
        None
    } else {
        match (nearest(path, roots, (count - 1) as nat), below(path, roots[count - 1])) {
            (Some(best), Some(rest)) => if rest.len() < best.len() {
                Some(rest)
            } else {
                Some(best)
            },
            (best, None) => best,
            (None, rest) => rest,
        }
    }
}

/// A path against the nearest root above it, and as it is under none.
pub open spec fn relative_to(path: Seq<char>, roots: Seq<Seq<char>>) -> Seq<char> {
    match nearest(path, roots, roots.len()) {
        Some(rest) => rest,
        None => path,
    }
}

/// What stands before the last slash of a path.
pub open spec fn parent(path: Seq<char>) -> Seq<char>
    decreases path.len(),
{
    if path.len() == 0 {
        path
    } else if path.last() == '/' {
        path.drop_last()
    } else {
        parent(path.drop_last())
    }
}

/// The nearest directory at or above `root` that holds a path.
pub open spec fn shared_with(root: Seq<char>, path: Seq<char>) -> Seq<char>
    decreases root.len(),
{
    if root.len() == 0 || starts_with(path, root + seq!['/']) || parent(root).len() >= root.len() {
        root
    } else {
        shared_with(parent(root), path)
    }
}

/// The nearest directory that holds the first `count` files.
pub open spec fn shared_dir(files: Seq<Seq<char>>, count: nat) -> Seq<char>
    decreases count,
{
    if count == 0 {
        Seq::empty()
    } else if count == 1 {
        parent(files[0])
    } else {
        shared_with(shared_dir(files, (count - 1) as nat), files[count - 1])
    }
}

/// A path lies in a directory; every path lies in the unnamed one.
pub open spec fn lies_in(path: Seq<char>, dir: Seq<char>) -> bool {
    dir.len() == 0 || starts_with(path, dir + seq!['/'])
}

proof fn lemma_parent(path: Seq<char>)
    ensures
        parent(path).len() <= path.len(),
        path.len() > 0 ==> parent(path).len() < path.len(),
        parent(path) == path.take(parent(path).len() as int),
        parent(path).len() > 0 ==> path[parent(path).len() as int] == '/',
    decreases path.len(),
{
    if path.len() > 0 {
        lemma_parent(path.drop_last());
        assert(path.drop_last().take(parent(path).len() as int) =~= path.take(
            parent(path).len() as int,
        ));
    } else {
        assert(path.take(0) =~= path);
    }
}

proof fn lemma_in_parent(path: Seq<char>, dir: Seq<char>)
    requires
        lies_in(path, dir),
    ensures
        lies_in(path, parent(dir)),
{
    lemma_parent(dir);
    let p = parent(dir);
    if p.len() > 0 {
        let long = dir + seq!['/'];
        let short = p + seq!['/'];
        assert(path.subrange(0, long.len() as int) == long);
        assert forall|k: int| 0 <= k < short.len() implies path.subrange(
            0,
            short.len() as int,
        )[k] == short[k] by {
            assert(path.subrange(0, long.len() as int)[k] == long[k]);
        }
        assert(path.subrange(0, short.len() as int) =~= short);
    }
}

proof fn lemma_shared_with(root: Seq<char>, path: Seq<char>, other: Seq<char>)
    ensures
        lies_in(path, shared_with(root, path)),
        lies_in(other, root) ==> lies_in(other, shared_with(root, path)),
    decreases root.len(),
{
    lemma_parent(root);
    if root.len() > 0 && !starts_with(path, root + seq!['/']) {
        lemma_shared_with(parent(root), path, other);
        if lies_in(other, root) {
            lemma_in_parent(other, root);
        }
    }
}

/// Every file lies in the directory that the files share.
pub proof fn files_lie_in_their_shared_directory(files: Seq<Seq<char>>, count: nat, i: int)
    requires
        0 <= i < count <= files.len(),
    ensures
        lies_in(files[i], shared_dir(files, count)),
    decreases count,
{
    if count == 1 {
        lemma_parent(files[0]);
        let p = parent(files[0]);
        if p.len() > 0 {
            assert(files[0].subrange(0, p.len() as int + 1) =~= p + seq!['/']);
        }
    } else {
        let root = shared_dir(files, (count - 1) as nat);
        lemma_shared_with(root, files[count - 1], files[i]);
        if i < count - 1 {
            files_lie_in_their_shared_directory(files, (count - 1) as nat, i);
        }
    }
}

/// A path against the source that the user named.
pub fn relative(path: &str, roots: &Vec<String>) -> (r: String)
    ensures
        r@ == relative_to(path@, texts(roots@)),
{
    let chars = to_chars(path);
    let n: usize = chars.len();
    let ghost all = texts(roots@);
    // Where the shortest rest so far begins.
    let mut best: Option<usize> = None;
    let mut i: usize = 0;
    while i < roots.len()
        invariant
            i <= roots@.len(),
            n == chars@.len(),
            chars@ == path@,
            all == texts(roots@),
            best matches Some(b) ==> b <= n,
            nearest(path@, all, i as nat) == (match best {
                Some(b) => Some(path@.skip(b as int)),
                None => None,
            }),
        decreases roots@.len() - i,
    {
        let root = to_chars(roots[i].as_str());
        let mut len: usize = root.len();
        let ghost whole = root@;
        assert(whole.take(len as int) =~= whole);
        while len > 0 && root[len - 1] == '/'
            invariant
                len <= root@.len(),
                whole == root@,
                strip_slashes(whole.take(len as int)) == strip_slashes(whole),
            decreases len,
        {
            assert(whole.take(len as int).last() == '/');
            assert(whole.take(len as int).drop_last() =~= whole.take(len - 1));
            len -= 1;
        }
        proof {
            if len > 0 {
                assert(whole.take(len as int).last() == whole[len - 1]);
            }
            assert(all[i as int] == whole);
        }
        let mut prefix: Vec<char> = Vec::new();
        let mut k: usize = 0;
        while k < len
            invariant
                k <= len <= root@.len(),
                prefix@ == root@.take(k as int),
            decreases len - k,
        {
            prefix.push(root[k]);
            assert(root@.take(k + 1) =~= root@.take(k as int).push(root@[k as int]));
            k += 1;
        }
        prefix.push('/');
        assert(prefix@ =~= strip_slashes(whole) + seq!['/']);
        if matches_at(chars.as_slice(), prefix.as_slice(), 0) {
            let start: usize = prefix.len();
            match best {
                Some(b) => {
                    if n - start < n - b {
                        best = Some(start);
                    }
                },
                None => {
                    best = Some(start);
                },
            }
        }
        i += 1;
    }
    match best {
        Some(b) => {
            assert(path@.subrange(b as int, n as int) =~= path@.skip(b as int));
            slice(chars.as_slice(), b, n)
        },
        None => String::from_str(path),
    }
}

/// How long what stands before the last slash is.
fn parent_len(chars: &Vec<char>, len: usize) -> (r: usize)
    requires
        len <= chars@.len(),
    ensures
        r <= len,
        len > 0 ==> r < len,
        chars@.take(r as int) == parent(chars@.take(len as int)),
{
    let mut at: usize = len;
    while at > 0
        invariant
            at <= len <= chars@.len(),
            parent(chars@.take(at as int)) == parent(chars@.take(len as int)),
        decreases at,
    {
        let ghost cur = chars@.take(at as int);
        assert(cur.last() == chars@[at - 1]);
        assert(cur.drop_last() =~= chars@.take(at - 1));
        if chars[at - 1] == '/' {
            return at - 1;
        }
        at -= 1;
    }
    assert(parent(chars@.take(0)) =~= chars@.take(0));
    0
}

/// Whether a path begins with the first `len` characters of a root and a slash.
fn begins_with_dir(path: &Vec<char>, root: &Vec<char>, len: usize) -> (r: bool)
    requires
        len <= root@.len(),
    ensures
        r == starts_with(path@, root@.take(len as int) + seq!['/']),
{
    let ghost prefix = root@.take(len as int) + seq!['/'];
    if path.len() <= len {
        return false;
    }
    let mut k: usize = 0;
    while k < len
        invariant
            k <= len <= root@.len(),
            len < path@.len(),
            prefix == root@.take(len as int) + seq!['/'],
            forall|j: int| 0 <= j < k ==> path@[j] == root@[j],
        decreases len - k,
    {
        if path[k] != root[k] {
            assert(path@.subrange(0, prefix.len() as int)[k as int] != prefix[k as int]);
            return false;
        }
        k += 1;
    }
    if path[len] != '/' {
        assert(path@.subrange(0, prefix.len() as int)[len as int] != prefix[len as int]);
        return false;
    }
    assert(path@.subrange(0, prefix.len() as int) =~= prefix);
    true
}

/// The directory that all files lie in.
pub fn shared_root(files: &Vec<String>) -> (r: String)
    ensures
        r@ == shared_dir(texts(files@), files@.len()),
{
    if files.len() == 0 {
        return String::new();
    }
    let ghost all = texts(files@);
    let first = to_chars(files[0].as_str());
    let mut len = parent_len(&first, first.len());
    assert(first@.take(first@.len() as int) =~= first@);
    let mut i: usize = 1;
    while i < files.len()
        invariant
            1 <= i <= files@.len(),
            all == texts(files@),
            first@ == files@[0]@,
            len <= first@.len(),
            first@.take(len as int) == shared_dir(all, i as nat),
        decreases files@.len() - i,
    {
        let path = to_chars(files[i].as_str());
        let ghost root = first@.take(len as int);
        assert(all[i as int] == path@);
        while len > 0 && !begins_with_dir(&path, &first, len)
            invariant
                len <= first@.len(),
                shared_with(first@.take(len as int), path@) == shared_with(root, path@),
            decreases len,
        {
            proof {
                lemma_parent(first@.take(len as int));
            }
            len = parent_len(&first, len);
        }
        i += 1;
    }
    let r = slice(first.as_slice(), 0, len);
    assert(r@ =~= first@.take(len as int));
    r
}

// ---------------------------------------------------------------------------
// The directories that hold most files
// ---------------------------------------------------------------------------

/// The directories of the first `count` files, in the order in which they are
/// first met.
pub open spec fn dirs(files: Seq<Seq<char>>, count: nat) -> Seq<Seq<char>>
    decreases count,
{
    if count == 0 {
        Seq::empty()
    } else {
        let so_far = dirs(files, (count - 1) as nat);
        if so_far.contains(parent(files[count - 1])) {
            so_far
        } else {
            so_far.push(parent(files[count - 1]))
        }
    }
}

/// How many of the first `count` files lie directly in a directory.
pub open spec fn files_in(files: Seq<Seq<char>>, dir: Seq<char>, count: nat) -> nat
    decreases count,
{
    if count == 0 {
        0
    } else {
        files_in(files, dir, (count - 1) as nat) + if parent(files[count - 1]) == dir {
            1nat
        } else {
            0nat
        }
    }
}

/// The order in which directories are listed: those with most files first, and
/// by name among equals.
pub open spec fn fuller(names: Seq<Seq<char>>, counts: Seq<usize>) -> spec_fn(usize, usize) -> bool {
    |a: usize, b: usize|
        counts[a as int] > counts[b as int] || (counts[a as int] == counts[b as int] && precedes(
            names[a as int],
            names[b as int],
        ))
}

/// A directory with the number of its files.
pub open spec fn dir_model(files: Seq<Seq<char>>, dir: Seq<char>) -> JsonModel {
    JsonModel::Arr(seq![JsonModel::Str(dir), nat_model(files_in(files, dir, files.len()))])
}

/// How many files lie directly in each of some directories.
pub open spec fn dir_counts(files: Seq<Seq<char>>, names: Seq<Seq<char>>) -> Seq<usize> {
    names.map_values(|d: Seq<char>| files_in(files, d, files.len()) as usize)
}

/// The three directories that hold most files, and none where all files lie
/// directly in `root`.
pub open spec fn fullest(files: Seq<Seq<char>>, root: Seq<char>) -> Seq<JsonModel> {
    let names = dirs(files, files.len());
    let order = ordered(names.len(), fuller(names, dir_counts(files, names)));
    if names.len() == 0 || (names.len() == 1 && names[0] == root) {
        Seq::empty()
    } else {
        Seq::new(
            if names.len() < 3 {
                names.len()
            } else {
                3
            },
            |i: int| dir_model(files, names[order[i] as int]),
        )
    }
}

/// What stands before the last slash of a path.
fn parent_of(path: &str) -> (r: String)
    ensures
        r@ == parent(path@),
{
    let chars = to_chars(path);
    let len = parent_len(&chars, chars.len());
    let r = slice(chars.as_slice(), 0, len);
    assert(chars@.take(chars@.len() as int) =~= chars@);
    assert(r@ =~= chars@.take(len as int));
    r
}

proof fn lemma_files_in(files: Seq<Seq<char>>, dir: Seq<char>, count: nat)
    ensures
        files_in(files, dir, count) <= count,
    decreases count,
{
    if count > 0 {
        lemma_files_in(files, dir, (count - 1) as nat);
    }
}

/// The directories of the files, in the order in which they are first met.
fn list_dirs(files: &Vec<String>) -> (r: Vec<String>)
    ensures
        texts(r@) == dirs(texts(files@), files@.len()),
{
    let ghost all = texts(files@);
    let mut names: Vec<String> = Vec::new();
    let mut i: usize = 0;
    assert(texts(names@) =~= Seq::empty());
    while i < files.len()
        invariant
            i <= files@.len(),
            all == texts(files@),
            texts(names@) == dirs(all, i as nat),
        decreases files@.len() - i,
    {
        assert(all[i as int] == files@[i as int]@);
        let dir = parent_of(files[i].as_str());
        if !list_has(&names, dir.as_str()) {
            assert(texts(names@.push(dir)) =~= texts(names@).push(dir@));
            names.push(dir);
        }
        i += 1;
    }
    names
}

/// How many files lie directly in a directory.
fn count_in(files: &Vec<String>, dir: &str) -> (r: usize)
    ensures
        r == files_in(texts(files@), dir@, files@.len()),
{
    let ghost all = texts(files@);
    let mut count: usize = 0;
    let mut i: usize = 0;
    while i < files.len()
        invariant
            i <= files@.len(),
            all == texts(files@),
            count <= i,
            count == files_in(all, dir@, i as nat),
        decreases files@.len() - i,
    {
        assert(all[i as int] == files@[i as int]@);
        let own = parent_of(files[i].as_str());
        if same(own.as_str(), dir) {
            count += 1;
        }
        i += 1;
    }
    count
}

/// Whether one directory is listed before another.
fn is_fuller(names: &Vec<String>, counts: &Vec<usize>, a: usize, b: usize) -> (r: bool)
    requires
        a < names@.len(),
        b < names@.len(),
        counts@.len() == names@.len(),
    ensures
        r == fuller(texts(names@), counts@)(a, b),
{
    counts[a] > counts[b] || (counts[a] == counts[b] && before(
        names[a].as_str(),
        names[b].as_str(),
    ))
}

/// The directories that hold most of the files, when they do not all lie in the
/// one that is named already.
pub fn main_dirs(files: &Vec<String>, root: &str) -> (r: Vec<Json>)
    ensures
        models(r@) == fullest(texts(files@), root@),
{
    let ghost all = texts(files@);
    let names = list_dirs(files);
    let ghost ns = texts(names@);
    let count: usize = names.len();
    assert(ns.len() == count);
    let mut r: Vec<Json> = Vec::new();
    assert(models(r@) =~= Seq::empty());
    if count == 0 || (count == 1 && same(names[0].as_str(), root)) {
        return r;
    }
    assert(count == 1 ==> ns[0] == names@[0]@);
    let mut counts: Vec<usize> = Vec::new();
    let ghost cs = dir_counts(all, ns);
    let mut i: usize = 0;
    while i < count
        invariant
            i <= count == names@.len(),
            all == texts(files@),
            ns == texts(names@),
            cs == dir_counts(all, ns),
            counts@ == cs.take(i as int),
        decreases count - i,
    {
        let n = count_in(files, names[i].as_str());
        assert(ns[i as int] == names@[i as int]@);
        assert(cs.take(i + 1) =~= cs.take(i as int).push(n));
        counts.push(n);
        i += 1;
    }
    assert(cs.take(i as int) =~= cs);
    let ghost less = fuller(ns, cs);
    let mut order: Vec<usize> = Vec::new();
    let mut x: usize = 0;
    while x < count
        invariant
            x <= count == names@.len(),
            counts@ == cs,
            cs.len() == count,
            ns == texts(names@),
            less == fuller(ns, cs),
            order@ == ordered(x as nat, less),
        decreases count - x,
    {
        proof {
            lemma_ordered(x as nat, less);
            assert forall|k: int| 0 <= k < order@.len() implies #[trigger] order@[k] < count by {
                assert(order@.contains(order@[k]));
            }
        }
        let mut at: usize = order.len();
        while at > 0 && is_fuller(&names, &counts, x, order[at - 1])
            invariant
                at <= order@.len(),
                x < count == names@.len(),
                counts@ == cs,
                cs.len() == count,
                ns == texts(names@),
                less == fuller(ns, cs),
                forall|k: int| 0 <= k < order@.len() ==> #[trigger] order@[k] < count,
                forall|k: int| at <= k < order@.len() ==> less(x, #[trigger] order@[k]),
            decreases at,
        {
            at -= 1;
        }
        proof {
            lemma_insert_at(order@, x, less, at as int);
        }
        order.insert(at, x);
        x += 1;
    }
    proof {
        lemma_ordered(count as nat, less);
        assert forall|k: int| 0 <= k < order@.len() implies #[trigger] order@[k] < count by {
            assert(order@.contains(order@[k]));
        }
    }
    let shown: usize = if count < 3 {
        count
    } else {
        3
    };
    assert(all.len() == files.len());
    let ghost goal = fullest(all, root@);
    let mut k: usize = 0;
    assert(models(r@) =~= goal.take(0));
    while k < shown
        invariant
            k <= shown <= count,
            count == names@.len() == order@.len(),
            shown == goal.len(),
            counts@ == cs,
            cs == dir_counts(all, ns),
            ns == texts(names@),
            forall|k: int| 0 <= k < order@.len() ==> #[trigger] order@[k] < count,
            forall|k: int|
                0 <= k < shown ==> #[trigger] goal[k] == dir_model(all, ns[order@[k] as int]),
            models(r@) == goal.take(k as int),
            all == texts(files@),
            all.len() <= usize::MAX,
        decreases shown - k,
    {
        let at: usize = order[k];
        proof {
            lemma_files_in(all, ns[at as int], all.len());
        }
        let items = vec![Json::string(names[at].as_str()), Json::count(counts[at])];
        let record = Json::array(items);
        proof {
            assert(models(items@) =~= dir_model(all, ns[at as int])->Arr_0);
            assert(goal[k as int] == record@);
            assert(models(r@.push(record)) =~= models(r@).push(record@));
            assert(goal.take(k + 1) =~= goal.take(k as int).push(record@));
        }
        r.push(record);
        k += 1;
    }
    assert(goal.take(k as int) =~= goal);
    r
}

} // verus!
