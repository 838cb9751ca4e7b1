//! What is done to texts: trimming, splitting and shortening lose nothing but what
//! they are for.

use vstd::prelude::*;

use super::lists::upto;
use crate::code_blocks::{lemma_line_end, line_end};
use crate::json::text_of;
use crate::markdown::lines::{lines_from, LineModel};
use crate::markdown::prose::{
    block_of, blocks_in, paragraphs_of, prose_of_sections, split_by, ProseModel, PROSE_BLOCK_MIN,
};
use crate::model::{OutlineModel, Section, SectionPlan};
use crate::order::{lemma_filter_none, lemma_filter_step};
use crate::planning::accounting::{crowded, crowded_section, CrowdedModel, CROWDED_BRANCHES};
use crate::planning::branches::BranchView;
use crate::planning::feedback::{outline_detail, outline_record, outline_shown};
use crate::planning::generated::LabelModel;
use crate::planning::places::{dirs, files_in, parent};
use crate::text::{
    blen, first_at, is_space, join, lemma_first_at, lemma_trim_end, lemma_trim_start, lemma_word_end,
    prefix_within, trim, trim_start, word_end, words,
};

verus! {

// ---------------------------------------------------------------------------
// Texts
// ---------------------------------------------------------------------------

/// Every character of a text is white space.
pub open spec fn all_space(s: Seq<char>) -> bool {
    forall|i: int| 0 <= i < s.len() ==> is_space(#[trigger] s[i])
}

/// Trimming takes white space off both ends, as much as there is, and nothing
/// else.
pub proof fn trimming_takes_only_space(s: Seq<char>)
    ensures
        exists|from: int, to: int|
            0 <= from <= to <= s.len() && trim(s) == #[trigger] s.subrange(from, to) && all_space(
                s.take(from),
            ) && all_space(s.skip(to)),
        trim(s).len() > 0 ==> !is_space(trim(s)[0]) && !is_space(trim(s).last()),
{
    let t = trim_start(s);
    lemma_trim_start(s);
    lemma_trim_end(t);
    let from = s.len() - t.len();
    let to = from + trim(s).len();
    assert(trim(s) =~= s.subrange(from, to));
    assert forall|i: int| 0 <= i < s.skip(to).len() implies is_space(
        #[trigger] s.skip(to)[i],
    ) by {
        assert(s.skip(to)[i] == t[trim(s).len() + i]);
    }
    assert(all_space(s.take(from)) && all_space(s.skip(to)));
}

/// A character is no white space.
pub open spec fn is_letter() -> spec_fn(char) -> bool {
    |c: char| !is_space(c)
}

proof fn lemma_all_kept(s: Seq<char>)
    requires
        forall|i: int| 0 <= i < s.len() ==> !is_space(#[trigger] s[i]),
    ensures
        s.filter(is_letter()) == s,
    decreases s.len(),
{
    reveal(Seq::filter);
    if s.len() > 0 {
        let t = s.drop_last();
        assert forall|i: int| 0 <= i < t.len() implies !is_space(#[trigger] t[i]) by {
            assert(t[i] == s[i]);
        }
        lemma_all_kept(t);
        assert(!is_space(s[s.len() - 1]));
        assert(t.push(s.last()) =~= s);
    }
}

proof fn lemma_none_kept(s: Seq<char>)
    requires
        all_space(s),
    ensures
        s.filter(is_letter()) == Seq::<char>::empty(),
    decreases s.len(),
{
    reveal(Seq::filter);
    if s.len() > 0 {
        let t = s.drop_last();
        assert forall|i: int| 0 <= i < t.len() implies is_space(#[trigger] t[i]) by {
            assert(t[i] == s[i]);
        }
        lemma_none_kept(t);
        assert(is_space(s[s.len() - 1]));
    }
}

proof fn lemma_flatten_first<A>(first: Seq<A>, rest: Seq<Seq<A>>)
    ensures
        (seq![first] + rest).flatten() == first + rest.flatten(),
{
    let all = seq![first] + rest;
    assert(all.drop_first() =~= rest);
    assert(all.first() == first);
}

/// The words of a text hold all of its characters but white space, in their
/// order; no word is empty or holds white space.
pub proof fn words_hold_every_letter(s: Seq<char>)
    ensures
        words(s).flatten() == s.filter(is_letter()),
        forall|k: int|
            0 <= k < words(s).len() ==> (#[trigger] words(s)[k]).len() > 0 && words(s)[k].filter(
                is_letter(),
            ) == words(s)[k],
    decreases s.len(),
{
    let t = trim_start(s);
    let n = word_end(t, 0);
    lemma_trim_start(s);
    lemma_word_end(t, 0);
    let gap = s.take(s.len() - t.len());
    assert(s =~= gap + t);
    Seq::filter_distributes_over_add(gap, t, is_letter());
    lemma_none_kept(gap);
    assert(s.filter(is_letter()) =~= t.filter(is_letter()));
    if 0 < n {
        let rest = t.skip(n);
        words_hold_every_letter(rest);
        lemma_all_kept(t.take(n));
        assert(t =~= t.take(n) + rest);
        Seq::filter_distributes_over_add(t.take(n), rest, is_letter());
        lemma_flatten_first(t.take(n), words(rest));
        assert(words(s) =~= seq![t.take(n)] + words(rest));
        assert forall|k: int| 0 <= k < words(s).len() implies (#[trigger] words(s)[k]).len() > 0
            && words(s)[k].filter(is_letter()) == words(s)[k] by {
            if k > 0 {
                assert(words(s)[k] == words(rest)[k - 1]);
            }
        }
    } else {
        assert(t.len() == 0);
        lemma_none_kept(t);
        assert(words(s) =~= Seq::empty());
    }
}

/// A text that is cut to a number of bytes keeps as much of its beginning as
/// fits.
pub proof fn cut_texts_keep_what_fits(s: Seq<char>, max: nat, n: int)
    requires
        prefix_within(s, max).len() < n <= s.len(),
    ensures
        blen(s.take(n)) > max,
    decreases s.len(),
{
    if n == s.len() {
        assert(s.take(n) =~= s);
    } else {
        cut_texts_keep_what_fits(s.drop_last(), max, n);
        assert(s.drop_last().take(n) =~= s.take(n));
    }
}

/// The texts of some lines.
pub open spec fn line_texts(lines: Seq<LineModel>) -> Seq<Seq<char>> {
    lines.map_values(|l: LineModel| l.text)
}

/// The lines of a text make up all of it, and a line feed stands at the end of a
/// line only.
pub proof fn lines_make_up_the_text(s: Seq<char>, from: int)
    requires
        0 <= from <= s.len(),
    ensures
        line_texts(lines_from(s, from)).flatten() == s.skip(from),
        forall|k: int, i: int|
            0 <= k < lines_from(s, from).len() && 0 <= i < lines_from(s, from)[k].text.len() - 1
                ==> (#[trigger] lines_from(s, from)[k].text[i]) != '\n',
        forall|k: int|
            0 <= k < lines_from(s, from).len() - 1 ==> (#[trigger] lines_from(
                s,
                from,
            )[k]).text.last() == '\n',
    decreases s.len() - from,
{
    lemma_line_end(s, from);
    let all = lines_from(s, from);
    if from < s.len() {
        let end = line_end(s, from);
        lines_make_up_the_text(s, end);
        let rest = lines_from(s, end);
        lemma_flatten_first(s.subrange(from, end), line_texts(rest));
        assert(line_texts(all) =~= seq![s.subrange(from, end)] + line_texts(rest));
        assert(s.skip(from) =~= s.subrange(from, end) + s.skip(end));
        assert forall|k: int, i: int|
            0 <= k < all.len() && 0 <= i < all[k].text.len() - 1 implies (#[trigger] all[k].text[i])
            != '\n' by {
            if k > 0 {
                assert(all[k] == rest[k - 1]);
                assert(rest[k - 1].text[i] != '\n');
            }
        }
        assert forall|k: int| 0 <= k < all.len() - 1 implies (#[trigger] all[k]).text.last()
            == '\n' by {
            if k > 0 {
                assert(all[k] == rest[k - 1]);
            } else {
                assert(rest.len() > 0);
                assert(end < s.len());
            }
        }
    } else {
        assert(s.skip(from) =~= Seq::empty());
        assert(line_texts(all) =~= Seq::empty());
    }
}

proof fn lemma_join_first(first: Seq<char>, rest: Seq<Seq<char>>, part: Seq<char>)
    requires
        rest.len() > 0,
    ensures
        join(seq![first] + rest, part) == first + part + join(rest, part),
    decreases rest.len(),
{
    let all = seq![first] + rest;
    if rest.len() == 1 {
        assert(all.drop_last() =~= seq![first]);
        assert(join(all.drop_last(), part) == first);
        assert(all.last() == rest[0]);
    } else {
        let less = rest.drop_last();
        lemma_join_first(first, less, part);
        assert(all.drop_last() =~= seq![first] + less);
        assert(all.last() == rest.last());
        assert(first + part + join(less, part) + part + rest.last() =~= first + part + (join(
            less,
            part,
        ) + part + rest.last()));
    }
}

/// A text that was split is what its parts are joined with the separator.
pub proof fn splitting_loses_nothing(s: Seq<char>, part: Seq<char>, from: int)
    requires
        0 <= from <= s.len(),
    ensures
        split_by(s, part, from).len() > 0,
        join(split_by(s, part, from), part) == s.skip(from),
    decreases s.len() - from,
{
    lemma_first_at(s, part, from);
    match first_at(s, part, from) {
        Some(at) if from <= at && part.len() > 0 && at + part.len() <= s.len() => {
            let next = at + part.len() as int;
            splitting_loses_nothing(s, part, next);
            let rest = split_by(s, part, next);
            lemma_join_first(s.subrange(from, at), rest, part);
            assert(split_by(s, part, from) =~= seq![s.subrange(from, at)] + rest);
            assert(s.subrange(at, next) == part);
            assert(s.skip(from) =~= s.subrange(from, at) + part + s.skip(next));
        },
        _ => {
            assert(split_by(s, part, from) =~= seq![s.skip(from)]);
        },
    }
}

// ---------------------------------------------------------------------------
// Prose
// ---------------------------------------------------------------------------

/// The block of the paragraph at a position.
pub open spec fn block_at(section: usize, paragraphs: Seq<Seq<char>>) -> spec_fn(int) -> ProseModel {
    |i: int| block_of(section, i as usize, paragraphs[i])
}

/// A block is long enough to be told from others.
pub open spec fn is_long_enough() -> spec_fn(ProseModel) -> bool {
    |b: ProseModel| b.normalized.len() >= PROSE_BLOCK_MIN
}

/// The blocks of a section are all of its paragraphs that are long enough.
pub proof fn long_paragraphs_are_compared(
    section: usize,
    paragraphs: Seq<Seq<char>>,
    count: nat,
)
    requires
        count <= paragraphs.len(),
    ensures
        blocks_in(section, paragraphs, count) == upto(count).map_values(
            block_at(section, paragraphs),
        ).filter(is_long_enough()),
    decreases count,
{
    let all = upto(count).map_values(block_at(section, paragraphs));
    let keep = is_long_enough();
    lemma_filter_none(all, keep);
    if count == 0 {
        assert(all =~= all.take(0));
    } else {
        let n = count - 1;
        long_paragraphs_are_compared(section, paragraphs, n as nat);
        lemma_filter_step(all, keep, n);
        assert(all.take(n) =~= upto(n as nat).map_values(block_at(section, paragraphs)));
        assert(all.take(n + 1) =~= all);
    }
}

/// The blocks of the section at a position.
pub open spec fn blocks_at(sections: Seq<Section>) -> spec_fn(int) -> Seq<ProseModel> {
    |i: int|
        upto(paragraphs_of(sections[i]).len()).map_values(
            block_at(i as usize, paragraphs_of(sections[i])),
        ).filter(is_long_enough())
}

/// A document's blocks are those of all of its sections, in their order.
pub proof fn every_section_is_compared(sections: Seq<Section>, count: nat)
    requires
        count <= sections.len(),
    ensures
        prose_of_sections(sections, count) == upto(count).map_values(
            blocks_at(sections),
        ).flatten(),
    decreases count,
{
    let all = upto(count).map_values(blocks_at(sections));
    if count == 0 {
        assert(all =~= Seq::empty());
    } else {
        let n = count - 1;
        every_section_is_compared(sections, n as nat);
        let paragraphs = paragraphs_of(sections[n]);
        long_paragraphs_are_compared(n as usize, paragraphs, paragraphs.len());
        let before = upto(n as nat).map_values(blocks_at(sections));
        assert(all =~= before.push(blocks_at(sections)(n)));
        before.lemma_flatten_push(blocks_at(sections)(n));
    }
}

// ---------------------------------------------------------------------------
// Plans
// ---------------------------------------------------------------------------

/// A request shows as much of a plan as fits: the first attempt that does, and
/// the last one where none does.
pub proof fn plans_are_shown_as_fully_as_they_fit(
    plan: OutlineModel,
    chosen: Seq<bool>,
    labels: Seq<LabelModel>,
    budget: nat,
    from: nat,
) -> (at: nat)
    requires
        from <= 5,
    ensures
        from <= at <= 5,
        outline_shown(plan, chosen, labels, budget, from) == outline_record(
            plan,
            chosen,
            labels,
            outline_detail(at as int),
        ),
        at < 5 ==> blen(text_of(outline_shown(plan, chosen, labels, budget, from))) <= budget,
        forall|k: int|
            from <= k < at ==> blen(
                text_of(outline_record(plan, chosen, labels, #[trigger] outline_detail(k))),
            ) > budget,
    decreases 5 - from,
{
    let record = outline_record(plan, chosen, labels, outline_detail(from as int));
    if from >= 5 || blen(text_of(record)) <= budget {
        from
    } else {
        plans_are_shown_as_fully_as_they_fit(plan, chosen, labels, budget, from + 1)
    }
}

/// A section took many branches.
pub open spec fn took_many() -> spec_fn(SectionPlan) -> bool {
    |s: SectionPlan| s.branches@.len() >= CROWDED_BRANCHES
}

/// A section as review is shown it.
pub open spec fn as_crowded(view: BranchView) -> spec_fn(SectionPlan) -> CrowdedModel {
    |s: SectionPlan| crowded_section(view, s)
}

/// Every section that took many branches is pointed out.
pub proof fn crowded_sections_are_pointed_out(
    view: BranchView,
    sections: Seq<SectionPlan>,
    count: nat,
)
    requires
        count <= sections.len(),
    ensures
        crowded(view, sections, count) == sections.take(count as int).filter(
            took_many(),
        ).map_values(as_crowded(view)),
    decreases count,
{
    let keep = took_many();
    let f = as_crowded(view);
    lemma_filter_none(sections, keep);
    if count == 0 {
        assert(Seq::<SectionPlan>::empty().map_values(f) =~= Seq::empty());
    } else {
        let n = count - 1;
        crowded_sections_are_pointed_out(view, sections, n as nat);
        lemma_filter_step(sections, keep, n);
        let before = sections.take(n).filter(keep);
        assert(before.push(sections[n]).map_values(f) =~= before.map_values(f).push(
            f(sections[n]),
        ));
    }
}

/// A file lies directly in a directory.
pub open spec fn is_in(dir: Seq<char>) -> spec_fn(Seq<char>) -> bool {
    |file: Seq<char>| parent(file) == dir
}

/// Every directory of some files is listed once, with the number of its files.
pub proof fn every_directory_is_listed(files: Seq<Seq<char>>, dir: Seq<char>, count: nat)
    requires
        count <= files.len(),
    ensures
        files_in(files, dir, count) == files.take(count as int).filter(is_in(dir)).len(),
        dirs(files, count).no_duplicates(),
        dirs(files, count).contains(dir) <==> files_in(files, dir, count) > 0,
    decreases count,
{
    let keep = is_in(dir);
    lemma_filter_none(files, keep);
    if count > 0 {
        let n = count - 1;
        every_directory_is_listed(files, dir, n as nat);
        lemma_filter_step(files, keep, n);
        let was = dirs(files, n as nat);
        let now = dirs(files, count);
        let here = parent(files[n]);
        if was.contains(here) {
            assert(now == was);
        } else {
            assert(now == was.push(here));
            assert(now[was.len() as int] == here);
            if was.contains(dir) {
                let k = choose|k: int| 0 <= k < was.len() && was[k] == dir;
                assert(now[k] == dir);
            }
        }
    }
}

} // verus!
