//! What happens to a draft: headings go to their depth and nothing else moves, a
//! draft is split without loss, and a repair puts each answer in its place.

use vstd::prelude::*;

use super::lists::upto;
use crate::code_blocks::Extent;
use crate::editorial::bare_line;
use crate::leaves::{assign, candidates, claimed, leaf_score, leaf_scores, owner, taker, Claim};
use crate::markdown::headings::{
    canonical, heading_at, leveled, level_in_section, repeated, shift_of, top_level,
};
use crate::markdown::lines::LineModel;
use crate::markdown::subsections::{
    body_end, headings_of_level, level_at, parts_between, replaced_parts, replacements, MarkerModel,
    Replacements,
};
use crate::order::{lemma_filter_none, lemma_filter_step, lemma_positions};
use crate::planning::tree::TreeIndex;
use crate::text::trim;

verus! {

// ---------------------------------------------------------------------------
// Headings
// ---------------------------------------------------------------------------

/// A line is no heading with the title of its section.
pub open spec fn is_not_title(literals: Seq<Extent>, title: Seq<char>) -> spec_fn(
    LineModel,
) -> bool {
    |l: LineModel|
        heading_at(l, literals) is None || canonical(heading_at(l, literals)->0.text) != title
}

/// A line with its heading at its depth: the third level at least, and the
/// others as much higher as the topmost one is below the third. Any other line
/// stays.
pub open spec fn at_depth(literals: Seq<Extent>, top: int) -> spec_fn(LineModel) -> Seq<char> {
    |l: LineModel|
        match heading_at(l, literals) {
            Some(h) => Seq::new(
                (if h.level < 3 {
                    3
                } else if top > 3 {
                    h.level - (top - 3)
                } else {
                    h.level
                }) as nat,
                |i: int| '#',
            ) + " "@ + h.text,
            None => bare_line(l.text),
        }
}

/// A section keeps all of its lines in their order but its title; headings go to
/// their depth, and every other line stays as it is.
pub proof fn only_headings_move(
    lines: Seq<LineModel>,
    literals: Seq<Extent>,
    title: Seq<char>,
    top: int,
    count: nat,
)
    requires
        count <= lines.len(),
    ensures
        leveled(lines, literals, title, shift_of(top), count) == lines.take(count as int).filter(
            is_not_title(literals, title),
        ).map_values(at_depth(literals, top)),
    decreases count,
{
    let keep = is_not_title(literals, title);
    let f = at_depth(literals, top);
    lemma_filter_none(lines, keep);
    if count == 0 {
        assert(Seq::<LineModel>::empty().map_values(f) =~= Seq::empty());
    } else {
        let n = count - 1;
        only_headings_move(lines, literals, title, top, n as nat);
        lemma_filter_step(lines, keep, n);
        let before = lines.take(n).filter(keep);
        assert(before.push(lines[n]).map_values(f) =~= before.map_values(f).push(f(lines[n])));
        if let Some(h) = heading_at(lines[n], literals) {
            let level = level_in_section(h.level, shift_of(top));
            assert(repeated('#', level) =~= Seq::new(level as nat, |i: int| '#'));
        }
    }
}

/// A line is a heading below the title.
pub open spec fn is_inner_heading(
    lines: Seq<LineModel>,
    literals: Seq<Extent>,
    title: Seq<char>,
    k: int,
) -> bool {
    heading_at(lines[k], literals) is Some && canonical(heading_at(lines[k], literals)->0.text)
        != title
}

/// The topmost level is the least of the headings but the title, and zero where
/// there is none.
pub proof fn the_topmost_level_is_the_least(
    lines: Seq<LineModel>,
    literals: Seq<Extent>,
    title: Seq<char>,
    count: nat,
)
    requires
        count <= lines.len(),
        forall|k: int|
            0 <= k < lines.len() && heading_at(#[trigger] lines[k], literals) is Some ==> heading_at(
                lines[k],
                literals,
            )->0.level >= 1,
    ensures
        ({
            let top = top_level(lines, literals, title, count);
            &&& top == 0 <==> forall|k: int|
                0 <= k < count ==> !(#[trigger] is_inner_heading(lines, literals, title, k))
            &&& top != 0 ==> (exists|k: int|
                0 <= k < count && #[trigger] is_inner_heading(lines, literals, title, k)
                    && heading_at(lines[k], literals)->0.level == top) && forall|k: int|
                0 <= k < count && #[trigger] is_inner_heading(lines, literals, title, k) ==> top
                    <= heading_at(lines[k], literals)->0.level
        }),
    decreases count,
{
    if count > 0 {
        let n = count - 1;
        the_topmost_level_is_the_least(lines, literals, title, n as nat);
        let was = top_level(lines, literals, title, n as nat);
        let here = is_inner_heading(lines, literals, title, n);
        if was != 0 {
            let k = choose|k: int|
                0 <= k < n && #[trigger] is_inner_heading(lines, literals, title, k) && heading_at(
                    lines[k],
                    literals,
                )->0.level == was;
            assert(is_inner_heading(lines, literals, title, k));
        }
    }
}

// ---------------------------------------------------------------------------
// Subsections
// ---------------------------------------------------------------------------

/// A line is a heading of a level.
pub open spec fn is_of_level(literals: Seq<Extent>, level: int) -> spec_fn(LineModel) -> bool {
    |l: LineModel| level_at(l, literals) == level
}

/// Where a line begins.
pub open spec fn line_start() -> spec_fn(LineModel) -> int {
    |l: LineModel| l.at
}

/// A draft is cut before every heading of a level.
pub proof fn drafts_are_cut_at_headings(
    lines: Seq<LineModel>,
    literals: Seq<Extent>,
    level: int,
    count: nat,
)
    requires
        count <= lines.len(),
    ensures
        headings_of_level(lines, literals, level, count) == lines.take(count as int).filter(
            is_of_level(literals, level),
        ).map_values(line_start()),
    decreases count,
{
    let keep = is_of_level(literals, level);
    lemma_filter_none(lines, keep);
    if count == 0 {
        assert(Seq::<LineModel>::empty().map_values(line_start()) =~= Seq::empty());
    } else {
        let n = count - 1;
        drafts_are_cut_at_headings(lines, literals, level, n as nat);
        lemma_filter_step(lines, keep, n);
        let before = lines.take(n).filter(keep);
        assert(before.push(lines[n]).map_values(line_start()) =~= before.map_values(
            line_start(),
        ).push(lines[n].at));
    }
}

/// The text between a cut and the next, without white space at its ends.
pub open spec fn between_cuts(s: Seq<char>, cuts: Seq<int>) -> spec_fn(int) -> Seq<char> {
    |i: int| trim(s.subrange(cuts[i], cuts[i + 1]))
}

/// A text is not empty.
pub open spec fn is_something() -> spec_fn(Seq<char>) -> bool {
    |t: Seq<char>| t.len() > 0
}

/// The parts of a draft are all that stands between its cuts, but for blanks.
pub proof fn drafts_are_split_without_loss(s: Seq<char>, cuts: Seq<int>, count: nat)
    requires
        count < cuts.len(),
    ensures
        parts_between(s, cuts, count) == upto(count).map_values(between_cuts(s, cuts)).filter(
            is_something(),
        ),
    decreases count,
{
    let all = upto(count).map_values(between_cuts(s, cuts));
    let keep = is_something();
    lemma_filter_none(all, keep);
    if count == 0 {
        assert(all =~= all.take(0));
    } else {
        let n = count - 1;
        drafts_are_split_without_loss(s, cuts, n as nat);
        lemma_filter_step(all, keep, n);
        assert(all.take(n) =~= upto(n as nat).map_values(between_cuts(s, cuts)));
        assert(all.take(n + 1) =~= all);
    }
}

/// What stands behind a marker, up to the next one or the end.
pub open spec fn answer_behind(output: Seq<char>, markers: Seq<MarkerModel>, k: int) -> Seq<char> {
    trim(
        output.subrange(
            markers[k].end,
            if k + 1 < markers.len() {
                markers[k + 1].at
            } else {
                output.len() as int
            },
        ),
    )
}

/// A repair puts what stands behind each marker in the place that the marker
/// names, one for each place, and replaces nothing else.
pub proof fn answers_go_to_their_places(
    output: Seq<char>,
    markers: Seq<MarkerModel>,
    parts: nat,
    targets: Option<Seq<usize>>,
    count: nat,
)
    requires
        count <= markers.len(),
        forall|k: int| 0 <= k < markers.len() ==> (#[trigger] markers[k]).number is Some,
        targets matches Some(list) ==> forall|k: int|
            0 <= k < list.len() ==> (#[trigger] list[k]) <= parts,
    ensures
        replacements(output, markers, parts, targets, count) matches Ok(with) ==> {
            &&& with.len() == parts + 1
            &&& forall|k: int|
                0 <= k < count ==> (#[trigger] markers[k]).number->0 <= parts
                    && with[markers[k].number->0 as int] == Some(answer_behind(output, markers, k))
            &&& forall|i: int|
                0 <= i <= parts && #[trigger] with[i] is Some ==> exists|k: int|
                    0 <= k < count && (#[trigger] markers[k]).number->0 == i
        },
    decreases count,
{
    if count > 0 {
        let n = count - 1;
        answers_go_to_their_places(output, markers, parts, targets, n as nat);
        if let Ok(with) = replacements(output, markers, parts, targets, count) {
            let was = replacements(output, markers, parts, targets, n as nat)->Ok_0;
            let at = markers[n].number->0;
            if let Some(list) = targets {
                assert(list.contains(at));
                let j = choose|j: int| 0 <= j < list.len() && list[j] == at;
                assert(list[j] <= parts);
            }
            assert(at <= parts);
            assert(body_end(markers, n, output.len() as int) == if n + 1 < markers.len() {
                markers[n + 1].at
            } else {
                output.len() as int
            });
            assert forall|k: int| 0 <= k < count implies (#[trigger] markers[k]).number->0 <= parts
                && with[markers[k].number->0 as int] == Some(
                answer_behind(output, markers, k),
            ) by {
                if k < n {
                    assert(was[markers[k].number->0 as int] is Some);
                }
            }
            assert forall|i: int| 0 <= i <= parts && #[trigger] with[i] is Some implies exists|
                k: int,
            |
                0 <= k < count && (#[trigger] markers[k]).number->0 == i by {
                if i == at {
                    assert(markers[n].number->0 == i);
                } else {
                    assert(was[i] is Some);
                    let k = choose|k: int| 0 <= k < n && (#[trigger] markers[k]).number->0 == i;
                    assert(markers[k].number->0 == i);
                }
            }
        }
    }
}

/// A part, or what is put in its place.
pub open spec fn part_now(parts: Seq<Seq<char>>, with: Replacements) -> spec_fn(int) -> Seq<char> {
    |i: int|
        match with[i] {
            Some(t) => t,
            None => parts[i],
        }
}

/// A repaired draft has every part in its order, or what is put in its place,
/// but for those that are empty.
pub proof fn repaired_drafts_keep_their_order(
    parts: Seq<Seq<char>>,
    with: Replacements,
    count: nat,
)
    ensures
        replaced_parts(parts, with, count) == upto(count).map_values(part_now(parts, with)).filter(
            is_something(),
        ),
    decreases count,
{
    let all = upto(count).map_values(part_now(parts, with));
    let keep = is_something();
    lemma_filter_none(all, keep);
    if count == 0 {
        assert(all =~= all.take(0));
    } else {
        let n = count - 1;
        repaired_drafts_keep_their_order(parts, with, n as nat);
        lemma_filter_step(all, keep, n);
        assert(all.take(n) =~= upto(n as nat).map_values(part_now(parts, with)));
        assert(all.take(n + 1) =~= all);
    }
}

// ---------------------------------------------------------------------------
// Leaves
// ---------------------------------------------------------------------------

/// The section at a position reaches a leaf.
pub open spec fn reaches_leaf(reached: Seq<Seq<Seq<char>>>, s: int, leaf: Seq<char>) -> bool {
    0 <= s < reached.len() && reached[s].contains(leaf)
}

/// A claim is fair: its section reaches the leaf, and no section that reaches it
/// matches it better.
pub open spec fn is_fair(
    tree: TreeIndex,
    reached: Seq<Seq<Seq<char>>>,
    terms: Seq<Seq<Seq<char>>>,
    leaf: Seq<char>,
    section: usize,
) -> bool {
    &&& reaches_leaf(reached, section as int, leaf)
    &&& forall|s: int| #[trigger]
        reaches_leaf(reached, s, leaf) ==> leaf_score(tree, leaf, terms[s]) <= leaf_score(
            tree,
            leaf,
            terms[section as int],
        )
}

proof fn lemma_taker(found: Seq<usize>, scores: Seq<usize>, won: Seq<usize>, count: nat)
    requires
        0 < count <= found.len(),
    ensures
        found.contains(taker(found, scores, won, count)),
        forall|k: int|
            0 <= k < count ==> scores[#[trigger] found[k] as int] <= scores[taker(
                found,
                scores,
                won,
                count,
            ) as int],
    decreases count,
{
    if count > 1 {
        lemma_taker(found, scores, won, (count - 1) as nat);
        assert(found.contains(found[count - 1]));
    } else {
        assert(found.contains(found[0]));
    }
}

proof fn lemma_claims(
    tree: TreeIndex,
    reached: Seq<Seq<Seq<char>>>,
    terms: Seq<Seq<Seq<char>>>,
    count: nat,
)
    requires
        count <= tree.leaves@.len(),
        terms.len() == reached.len() <= usize::MAX,
    ensures
        forall|c: int|
            0 <= c < assign(tree, reached, terms, count).claims.len() ==> is_fair(
                tree,
                reached,
                terms,
                (#[trigger] assign(tree, reached, terms, count).claims[c]).leaf,
                assign(tree, reached, terms, count).claims[c].section,
            ),
    decreases count,
{
    if count > 0 {
        lemma_claims(tree, reached, terms, (count - 1) as nat);
        let was = assign(tree, reached, terms, (count - 1) as nat);
        let now = assign(tree, reached, terms, count);
        let leaf = tree.leaves@[count - 1]@;
        let found = candidates(reached, leaf);
        let keep = |s: int| reached[s].contains(leaf);
        lemma_positions(keep, reached.len());
        let scores = leaf_scores(tree, leaf, terms);
        assert forall|c: int| 0 <= c < now.claims.len() implies is_fair(
            tree,
            reached,
            terms,
            (#[trigger] now.claims[c]).leaf,
            now.claims[c].section,
        ) by {
            if c < was.claims.len() {
                assert(now.claims[c] == was.claims[c]);
            } else {
                let section = taker(found, scores, was.won, found.len());
                lemma_taker(found, scores, was.won, found.len());
                let k = choose|k: int| 0 <= k < found.len() && found[k] == section;
                assert(keep(found[k] as int));
                assert forall|s: int| #[trigger] reaches_leaf(reached, s, leaf) implies leaf_score(
                    tree,
                    leaf,
                    terms[s],
                ) <= leaf_score(tree, leaf, terms[section as int]) by {
                    assert(keep(s));
                    assert(found.contains(s as usize));
                    let j = choose|j: int| 0 <= j < found.len() && found[j] == s as usize;
                    assert(scores[found[j] as int] <= scores[section as int]);
                }
            }
        }
    }
}

proof fn lemma_claimed(claims: Seq<Claim>, leaf: Seq<char>)
    ensures
        claimed(claims, leaf) matches Some(s) ==> exists|c: int|
            0 <= c < claims.len() && (#[trigger] claims[c]).leaf == leaf && claims[c].section == s,
    decreases claims.len(),
{
    if claims.len() > 0 {
        if claims.last().leaf == leaf {
            assert(claims[claims.len() - 1].leaf == leaf);
        } else {
            let t = claims.drop_last();
            lemma_claimed(t, leaf);
            if let Some(s) = claimed(t, leaf) {
                let c = choose|c: int|
                    0 <= c < t.len() && (#[trigger] t[c]).leaf == leaf && t[c].section == s;
                assert(claims[c] == t[c]);
            }
        }
    }
}

/// A leaf that several sections reach goes to one that it matches best.
pub proof fn leaves_go_to_the_best_match(
    tree: TreeIndex,
    reached: Seq<Seq<Seq<char>>>,
    terms: Seq<Seq<Seq<char>>>,
    leaf: Seq<char>,
)
    requires
        terms.len() == reached.len() <= usize::MAX,
    ensures
        owner(tree, reached, terms, leaf) matches Some(s) ==> is_fair(
            tree,
            reached,
            terms,
            leaf,
            s,
        ),
{
    lemma_claims(tree, reached, terms, tree.leaves@.len());
    let claims = assign(tree, reached, terms, tree.leaves@.len()).claims;
    lemma_claimed(claims, leaf);
    if let Some(s) = owner(tree, reached, terms, leaf) {
        let c = choose|c: int|
            0 <= c < claims.len() && (#[trigger] claims[c]).leaf == leaf && claims[c].section == s;
        assert(is_fair(tree, reached, terms, claims[c].leaf, claims[c].section));
    }
}

} // verus!
