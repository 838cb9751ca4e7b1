//! What a rendered document is: every citation points at the reference of the
//! passage that it cites, every passage that is cited has one reference, and the
//! rest of the text stays as it was written.

use vstd::prelude::*;

use crate::code_blocks::{code, within, Extent};
use crate::editorial::{
    body, citation, cited_by, cited_in, cites, footnote, has_id, reference, references,
    replaced_outside, with_citation, with_footnotes,
};
use crate::json::lemma_decimal;
use crate::model::{Evidence, Section};
use crate::packing::sooner;
use crate::text::{decimal, first_at, lemma_first_at, occurs_at, replaced};

verus! {

// ---------------------------------------------------------------------------
// Replacing
// ---------------------------------------------------------------------------

/// Where each stretch between occurrences begins.
pub open spec fn piece_start(at: Seq<int>, width: int, from: int, i: int) -> int {
    if i == 0 {
        from
    } else {
        at[i - 1] + width
    }
}

/// The stretches of a text before each occurrence, each with what is put in the
/// place of the occurrence.
pub open spec fn pieces(
    s: Seq<char>,
    at: Seq<int>,
    width: int,
    from: int,
    put: spec_fn(int) -> Seq<char>,
) -> Seq<Seq<char>> {
    Seq::new(
        at.len(),
        |i: int| s.subrange(piece_start(at, width, from, i), at[i]) + put(at[i]),
    )
}

/// Some positions of a part in a text, from a position on, none of which
/// overlaps the next.
pub open spec fn apart(s: Seq<char>, part: Seq<char>, from: int, at: Seq<int>) -> bool {
    forall|i: int| #![trigger occurs_at(s, part, at[i])]
        0 <= i < at.len() ==> occurs_at(s, part, at[i]) && at[i] >= piece_start(
            at,
            part.len() as int,
            from,
            i,
        )
}

/// A position lies in one of the occurrences of a part.
pub open spec fn overlapped(at: Seq<int>, width: int, p: int) -> bool {
    exists|i: int| 0 <= i < at.len() && #[trigger] at[i] <= p < at[i] + width
}

/// Every occurrence of a part from a position on begins in one of these.
#[verifier::opaque]
pub open spec fn all_found(s: Seq<char>, part: Seq<char>, from: int, at: Seq<int>) -> bool {
    forall|p: int|
        from <= p && #[trigger] occurs_at(s, part, p) ==> overlapped(at, part.len() as int, p)
}

/// The occurrences of a part from a position on, from left to right.
pub open spec fn found_at(s: Seq<char>, part: Seq<char>, from: int) -> Seq<int>
    decreases s.len() - from,
{
    match first_at(s, part, from) {
        Some(at) if from <= at && part.len() > 0 && at + part.len() <= s.len() => seq![at]
            + found_at(s, part, at + part.len()),
        _ => Seq::empty(),
    }
}

proof fn lemma_found(s: Seq<char>, part: Seq<char>, from: int)
    requires
        part.len() > 0,
        0 <= from <= s.len(),
    ensures
        apart(s, part, from, found_at(s, part, from)),
        all_found(s, part, from, found_at(s, part, from)),
        piece_start(
            found_at(s, part, from),
            part.len() as int,
            from,
            found_at(s, part, from).len() as int,
        ) <= s.len(),
    decreases s.len() - from,
{
    lemma_first_at(s, part, from);
    let m = part.len() as int;
    let at = found_at(s, part, from);
    reveal(all_found);
    if let Some(p) = first_at(s, part, from) {
        lemma_found(s, part, p + m);
        let rest = found_at(s, part, p + m);
        assert(at =~= seq![p] + rest);
        assert forall|i: int| #![trigger occurs_at(s, part, at[i])]
            0 <= i < at.len() implies occurs_at(s, part, at[i]) && at[i] >= piece_start(
            at,
            m,
            from,
            i,
        ) by {
            if i > 0 {
                assert(at[i] == rest[i - 1]);
                assert(occurs_at(s, part, rest[i - 1]));
            }
        }
        assert forall|q: int| from <= q && #[trigger] occurs_at(s, part, q) implies overlapped(
            at,
            m,
            q,
        ) by {
            if q < p + m {
                assert(at[0] <= q < at[0] + m);
            } else {
                assert(overlapped(rest, m, q));
                let i = choose|i: int| 0 <= i < rest.len() && #[trigger] rest[i] <= q < rest[i] + m;
                assert(at[i + 1] == rest[i]);
            }
        }
        if rest.len() > 0 {
            assert(at[at.len() - 1] == rest[rest.len() - 1]);
        }
    }
}

/// What stands in the place of an occurrence: itself inside the stretches, and
/// the replacement outside.
pub open spec fn put_outside(part: Seq<char>, with: Seq<char>, ranges: Seq<Extent>) -> spec_fn(
    int,
) -> Seq<char> {
    |p: int|
        if within(ranges, p) {
            part
        } else {
            with
        }
}

#[verifier::rlimit(40)]
proof fn lemma_replaced(
    s: Seq<char>,
    part: Seq<char>,
    with: Seq<char>,
    ranges: Seq<Extent>,
    from: int,
)
    requires
        part.len() > 0,
        0 <= from <= s.len(),
    ensures
        ({
            let at = found_at(s, part, from);
            let m = part.len() as int;
            replaced_outside(s, part, with, ranges, from) == pieces(
                s,
                at,
                m,
                from,
                put_outside(part, with, ranges),
            ).flatten() + s.skip(piece_start(at, m, from, at.len() as int))
        }),
    decreases s.len() - from,
{
    lemma_first_at(s, part, from);
    let m = part.len() as int;
    let put = put_outside(part, with, ranges);
    let at = found_at(s, part, from);
    let all = pieces(s, at, m, from, put);
    let end = piece_start(at, m, from, at.len() as int);
    match first_at(s, part, from) {
        Some(p) => {
            lemma_replaced(s, part, with, ranges, p + m);
            let rest = found_at(s, part, p + m);
            assert(at =~= seq![p] + rest);
            let others = pieces(s, rest, m, p + m, put);
            assert forall|i: int| 0 <= i < others.len() implies #[trigger] all.drop_first()[i]
                == others[i] by {
                assert(at[i + 1] == rest[i]);
                if i > 0 {
                    assert(at[i] == rest[i - 1]);
                }
            }
            assert(all.drop_first() =~= others);
            assert(all.first() == s.subrange(from, p) + put(p));
            if rest.len() > 0 {
                assert(at[at.len() - 1] == rest[rest.len() - 1]);
            }
            assert(end == piece_start(rest, m, p + m, rest.len() as int));
            assert(all.flatten() == all.first() + others.flatten());
            assert(all.first() + others.flatten() + s.skip(end) =~= s.subrange(from, p) + put(p) + (
            others.flatten() + s.skip(end)));
        },
        None => {
            assert(all =~= Seq::empty());
            assert(all.flatten() + s.skip(from) =~= s.skip(from));
        },
    }
}

/// Replacing outside some stretches puts the replacement in the place of every
/// occurrence that does not begin in one of them, and changes nothing else. The
/// occurrences are taken from left to right, and do not overlap.
pub proof fn only_what_lies_outside_is_replaced(
    s: Seq<char>,
    part: Seq<char>,
    with: Seq<char>,
    ranges: Seq<Extent>,
)
    requires
        part.len() > 0,
    ensures
        exists|at: Seq<int>|
            {
                &&& #[trigger] apart(s, part, 0, at)
                &&& all_found(s, part, 0, at)
                &&& replaced_outside(s, part, with, ranges, 0) == pieces(
                    s,
                    at,
                    part.len() as int,
                    0,
                    put_outside(part, with, ranges),
                ).flatten() + s.skip(piece_start(at, part.len() as int, 0, at.len() as int))
            },
{
    lemma_found(s, part, 0);
    lemma_replaced(s, part, with, ranges, 0);
    assert(apart(s, part, 0, found_at(s, part, 0)));
}

// ---------------------------------------------------------------------------
// Citing
// ---------------------------------------------------------------------------

/// An occurrence outside some stretches is taken out.
#[verifier::rlimit(40)]
proof fn lemma_taken_out(s: Seq<char>, part: Seq<char>, ranges: Seq<Extent>, p: int)
    requires
        part.len() > 0,
        part[0] == '[',
        forall|i: int| 0 < i < part.len() ==> #[trigger] part[i] != '[',
        occurs_at(s, part, p),
        !within(ranges, p),
    ensures
        replaced_outside(s, part, Seq::empty(), ranges, 0).len() < s.len(),
{
    let m = part.len() as int;
    let none = Seq::<char>::empty();
    let at = found_at(s, part, 0);
    lemma_found(s, part, 0);
    lemma_replaced(s, part, none, ranges, 0);
    lemma_replaced(s, part, part, ranges, 0);
    lemma_unchanged(s, part, ranges, 0);
    assert(s.skip(0) =~= s);
    let gone = pieces(s, at, m, 0, put_outside(part, none, ranges));
    let kept = pieces(s, at, m, 0, put_outside(part, part, ranges));
    lemma_overlapped(s, part, at, p);
    let i = choose|i: int| 0 <= i < at.len() && #[trigger] at[i] <= p < at[i] + m;
    assert(occurs_at(s, part, at[i]));
    lemma_no_overlap(s, part, at[i], p);
    lemma_shorter(kept, gone, i);
}

/// Where no occurrence lies outside some stretches, nothing is taken out.
proof fn lemma_nothing_taken_out(s: Seq<char>, part: Seq<char>, ranges: Seq<Extent>, from: int)
    requires
        part.len() > 0,
        0 <= from <= s.len(),
        forall|p: int| #[trigger] occurs_at(s, part, p) ==> within(ranges, p),
    ensures
        replaced_outside(s, part, Seq::empty(), ranges, from) == s.skip(from),
    decreases s.len() - from,
{
    lemma_first_at(s, part, from);
    if let Some(p) = first_at(s, part, from) {
        lemma_nothing_taken_out(s, part, ranges, p + part.len());
        assert(occurs_at(s, part, p));
        assert(s.subrange(from, p) + s.subrange(p, p + part.len()) + s.skip(p + part.len())
            =~= s.skip(from));
    }
}

/// A passage is cited where its citation stands outside code.
pub proof fn passages_are_cited_outside_code(markdown: Seq<char>, id: Seq<char>)
    requires
        forall|i: int| 0 <= i < id.len() ==> #[trigger] id[i] != '[',
    ensures
        cites(markdown, id) <==> exists|at: int| #[trigger]
            occurs_at(markdown, "[E:"@ + id + "]"@, at) && !within(code(markdown), at),
{
    let part = citation(id);
    reveal_strlit("[E:");
    reveal_strlit("]");
    let ranges = code(markdown);
    assert(part == "[E:"@ + id + "]"@);
    if exists|p: int| #[trigger] occurs_at(markdown, part, p) && !within(ranges, p) {
        let p = choose|p: int| #[trigger] occurs_at(markdown, part, p) && !within(ranges, p);
        lemma_taken_out(markdown, part, ranges, p);
    } else {
        lemma_nothing_taken_out(markdown, part, ranges, 0);
        assert(markdown.skip(0) =~= markdown);
    }
}

proof fn lemma_unchanged(s: Seq<char>, part: Seq<char>, ranges: Seq<Extent>, from: int)
    requires
        part.len() > 0,
        0 <= from <= s.len(),
    ensures
        replaced_outside(s, part, part, ranges, from) == s.skip(from),
    decreases s.len() - from,
{
    lemma_first_at(s, part, from);
    if let Some(p) = first_at(s, part, from) {
        lemma_unchanged(s, part, ranges, p + part.len());
        assert(s.subrange(from, p) + s.subrange(p, p + part.len()) + s.skip(p + part.len())
            =~= s.skip(from));
    }
    assert(s.skip(0) =~= s);
}

proof fn lemma_overlapped(s: Seq<char>, part: Seq<char>, at: Seq<int>, p: int)
    requires
        all_found(s, part, 0, at),
        occurs_at(s, part, p),
    ensures
        overlapped(at, part.len() as int, p),
{
    reveal(all_found);
}

/// A citation whose id holds no bracket overlaps no other.
proof fn lemma_no_overlap(s: Seq<char>, part: Seq<char>, a: int, p: int)
    requires
        part.len() > 0,
        part[0] == '[',
        forall|i: int| 0 < i < part.len() ==> #[trigger] part[i] != '[',
        occurs_at(s, part, a),
        occurs_at(s, part, p),
        a <= p < a + part.len(),
    ensures
        a == p,
{
    assert(s.subrange(p, p + part.len())[0] == s[p]);
    assert(s.subrange(a, a + part.len())[p - a] == s[p]);
    assert(part[p - a] == '[');
}

proof fn lemma_shorter(kept: Seq<Seq<char>>, gone: Seq<Seq<char>>, i: int)
    requires
        kept.len() == gone.len(),
        0 <= i < kept.len(),
        gone[i].len() < kept[i].len(),
        forall|k: int| 0 <= k < kept.len() ==> (#[trigger] gone[k]).len() <= kept[k].len(),
    ensures
        gone.flatten().len() < kept.flatten().len(),
    decreases kept.len(),
{
    lemma_no_longer(kept.drop_first(), gone.drop_first());
    if i > 0 {
        assert(kept.drop_first()[i - 1] == kept[i]);
        assert(gone.drop_first()[i - 1] == gone[i]);
        lemma_shorter(kept.drop_first(), gone.drop_first(), i - 1);
    }
}

proof fn lemma_no_longer(kept: Seq<Seq<char>>, gone: Seq<Seq<char>>)
    requires
        kept.len() == gone.len(),
        forall|k: int| 0 <= k < kept.len() ==> (#[trigger] gone[k]).len() <= kept[k].len(),
    ensures
        gone.flatten().len() <= kept.flatten().len(),
    decreases kept.len(),
{
    if kept.len() > 0 {
        assert(kept.drop_first().len() == gone.drop_first().len());
        assert forall|k: int| 0 <= k < gone.drop_first().len() implies (
        #[trigger] gone.drop_first()[k]).len() <= kept.drop_first()[k].len() by {
            assert(gone.drop_first()[k] == gone[k + 1]);
        }
        lemma_no_longer(kept.drop_first(), gone.drop_first());
    }
}

// ---------------------------------------------------------------------------
// Footnotes
// ---------------------------------------------------------------------------

/// A passage of a section is cited there.
pub open spec fn cited_at(sections: Seq<Section>, place: (int, int)) -> bool {
    &&& 0 <= place.0 < sections.len()
    &&& 0 <= place.1 < sections[place.0].evidence@.len()
    &&& cites(sections[place.0].markdown@, sections[place.0].evidence@[place.1].id@)
}

/// The passages at these places, each cited there and for the first time, in
/// the order of sections and of the passages in them.
pub open spec fn first_cited(
    list: Seq<Evidence>,
    sections: Seq<Section>,
    places: Seq<(int, int)>,
) -> bool {
    &&& places.len() == list.len()
    &&& forall|k: int|
        0 <= k < places.len() ==> cited_at(sections, #[trigger] places[k])
            && sections[places[k].0].evidence@[places[k].1] == list[k]
    &&& forall|j: int, k: int|
        0 <= j < k < places.len() ==> sooner(#[trigger] places[j], #[trigger] places[k])
            && list[j].id@ != list[k].id@
}

spec fn cited_before(
    list: Seq<Evidence>,
    sections: Seq<Section>,
    places: Seq<(int, int)>,
    end: (int, int),
) -> bool {
    &&& first_cited(list, sections, places)
    &&& forall|k: int| 0 <= k < places.len() ==> sooner(#[trigger] places[k], end)
    &&& forall|s: int, i: int|
        #[trigger] cited_at(sections, (s, i)) && sooner((s, i), end) ==> met_before(
            list,
            sections,
            places,
            s,
            i,
        )
}

/// A passage with the id of this one stands in the list, cited no later.
pub open spec fn met_before(
    list: Seq<Evidence>,
    sections: Seq<Section>,
    places: Seq<(int, int)>,
    s: int,
    i: int,
) -> bool {
    exists|k: int|
        0 <= k < list.len() && (#[trigger] list[k]).id@ == sections[s].evidence@[i].id@ && !sooner(
            (s, i),
            places[k],
        )
}

proof fn lemma_cited_by(
    sections: Seq<Section>,
    s: int,
    before: Seq<Evidence>,
    places: Seq<(int, int)>,
    count: nat,
) -> (now: Seq<(int, int)>)
    requires
        0 <= s < sections.len(),
        count <= sections[s].evidence@.len(),
        cited_before(before, sections, places, (s, 0)),
    ensures
        cited_before(
            cited_by(sections[s], before, count),
            sections,
            now,
            (s, count as int),
        ),
    decreases count,
{
    if count == 0 {
        places
    } else {
        let old = lemma_cited_by(sections, s, before, places, (count - 1) as nat);
        let had = cited_by(sections[s], before, (count - 1) as nat);
        let list = cited_by(sections[s], before, count);
        let here = (s, count - 1);
        let e = sections[s].evidence@[count - 1];
        let now = if list.len() > had.len() {
            old.push(here)
        } else {
            old
        };
        assert forall|k: int| 0 <= k < now.len() implies cited_at(sections, #[trigger] now[k])
            && sections[now[k].0].evidence@[now[k].1] == list[k] && sooner(
            now[k],
            (s, count as int),
        ) by {
            if k < old.len() {
                assert(now[k] == old[k]);
            }
        }
        assert forall|j: int, k: int| 0 <= j < k < now.len() implies sooner(
            #[trigger] now[j],
            #[trigger] now[k],
        ) && list[j].id@ != list[k].id@ by {
            assert(now[j] == old[j]);
            assert(list[j] == had[j]);
            if k < old.len() {
                assert(now[k] == old[k]);
            }
        }
        assert forall|t: int, i: int| #[trigger]
            cited_at(sections, (t, i)) && sooner((t, i), (s, count as int)) implies met_before(
            list,
            sections,
            now,
            t,
            i,
        ) by {
            if (t, i) == here {
                if list.len() > had.len() {
                    assert(list[had.len() as int].id@ == e.id@);
                } else {
                    assert(has_id(had, e.id@));
                    let k = choose|k: int| 0 <= k < had.len() && (#[trigger] had[k]).id@ == e.id@;
                    assert(list[k].id@ == e.id@);
                    assert(sooner(old[k], here));
                }
            } else {
                assert(met_before(had, sections, old, t, i));
                let k = choose|k: int|
                    0 <= k < had.len() && (#[trigger] had[k]).id@ == sections[t].evidence@[i].id@
                        && !sooner((t, i), old[k]);
                assert(list[k].id@ == sections[t].evidence@[i].id@);
            }
        }
        now
    }
}

proof fn lemma_cited_in(sections: Seq<Section>, count: nat) -> (places: Seq<(int, int)>)
    requires
        count <= sections.len(),
    ensures
        cited_before(cited_in(sections, count), sections, places, (count as int, 0)),
    decreases count,
{
    if count == 0 {
        Seq::empty()
    } else {
        let before = lemma_cited_in(sections, (count - 1) as nat);
        let s = count - 1;
        let had = cited_in(sections, s as nat);
        let n = sections[s].evidence@.len();
        let places = lemma_cited_by(sections, s, had, before, n);
        assert forall|t: int, i: int| #[trigger]
            cited_at(sections, (t, i)) && sooner((t, i), (count as int, 0)) implies met_before(
            cited_in(sections, count),
            sections,
            places,
            t,
            i,
        ) by {
            assert(sooner((t, i), (s, n as int)));
        }
        assert forall|k: int| 0 <= k < places.len() implies sooner(
            #[trigger] places[k],
            (count as int, 0),
        ) by {
            assert(sooner(places[k], (s, n as int)));
        }
        places
    }
}

/// Every passage that a section cites gets a footnote, once, where it is first
/// cited; and no other passage gets one.
pub proof fn cited_passages_get_footnotes(sections: Seq<Section>)
    ensures
        exists|places: Seq<(int, int)>|
            {
                &&& #[trigger] first_cited(
                    cited_in(sections, sections.len()),
                    sections,
                    places,
                )
                &&& forall|s: int, i: int|
                    #[trigger] cited_at(sections, (s, i)) ==> met_before(
                        cited_in(sections, sections.len()),
                        sections,
                        places,
                        s,
                        i,
                    )
            },
{
    let list = cited_in(sections, sections.len());
    let places = lemma_cited_in(sections, sections.len());
    assert(first_cited(list, sections, places));
    assert forall|s: int, i: int| #[trigger] cited_at(sections, (s, i)) implies met_before(
        list,
        sections,
        places,
        s,
        i,
    ) by {
        assert(sooner((s, i), (sections.len() as int, 0)));
    }
}

/// No character but a backtick.
pub open spec fn no_backtick() -> spec_fn(char) -> bool {
    |c: char| c != '`'
}

proof fn lemma_without_backticks(s: Seq<char>, from: int)
    requires
        0 <= from <= s.len(),
    ensures
        replaced(s, "`"@, ""@, from) == s.skip(from).filter(no_backtick()),
    decreases s.len() - from,
{
    reveal_strlit("`");
    reveal_strlit("");
    let part = "`"@;
    lemma_first_at(s, part, from);
    let keep = no_backtick();
    match first_at(s, part, from) {
        Some(p) => {
            lemma_without_backticks(s, p + 1);
            assert(s.subrange(p, p + 1)[0] == s[p]);
            let head = s.subrange(from, p);
            let tick = seq![s[p]];
            assert(s.skip(from) =~= head + tick + s.skip(p + 1));
            Seq::filter_distributes_over_add(head + tick, s.skip(p + 1), keep);
            Seq::filter_distributes_over_add(head, tick, keep);
            lemma_all_kept(s, from, p);
            reveal_with_fuel(Seq::filter, 2);
            assert(tick.drop_last() =~= Seq::empty());
            assert(tick.filter(keep) =~= Seq::empty());
            assert(head + Seq::<char>::empty() + s.skip(p + 1).filter(keep) =~= head + ""@ + s.skip(
                p + 1,
            ).filter(keep));
        },
        None => {
            lemma_all_kept(s, from, s.len() as int);
            assert(s.subrange(from, s.len() as int) =~= s.skip(from));
        },
    }
}

proof fn lemma_all_kept(s: Seq<char>, from: int, to: int)
    requires
        0 <= from <= to <= s.len(),
        forall|p: int| from <= p < to ==> !(#[trigger] occurs_at(s, "`"@, p)),
    ensures
        s.subrange(from, to).filter(no_backtick()) == s.subrange(from, to),
    decreases to - from,
{
    reveal(Seq::filter);
    reveal_strlit("`");
    let t = s.subrange(from, to);
    if from < to {
        lemma_all_kept(s, from, to - 1);
        assert(t.drop_last() =~= s.subrange(from, to - 1));
        assert(!occurs_at(s, "`"@, to - 1));
        if s[to - 1] == '`' {
            assert(s.subrange(to - 1, to) =~= "`"@);
        }
        assert(t =~= t.drop_last().push(t.last()));
    }
}

/// The line of the references that lists a passage under a mark.
pub open spec fn listed_under(mark: Seq<char>, e: Evidence) -> Seq<char> {
    mark + ": `"@ + e.path@.filter(no_backtick()) + "` L"@ + decimal(e.start as nat) + "–L"@
        + decimal(e.end as nat) + " · Evidence `"@ + e.id@ + "`\n\n"@
}

/// A text in which the citations of every passage were replaced by its mark.
pub open spec fn marked(markdown: Seq<char>, list: Seq<Evidence>, marks: Seq<Seq<char>>) -> Seq<char> {
    Seq::new(list.len(), |i: int| i).fold_left(
        markdown,
        |text: Seq<char>, i: int| with_citation(text, list[i].id@, marks[i]),
    )
}

/// A section of a document in which citations are marks.
pub open spec fn marked_section(list: Seq<Evidence>, marks: Seq<Seq<char>>) -> spec_fn(
    Section,
) -> Seq<char> {
    |s: Section| "## "@ + s.title@ + "\n\n"@ + marked(s.markdown@, list, marks) + "\n\n"@
}

proof fn lemma_references(list: Seq<Evidence>, marks: Seq<Seq<char>>, count: nat)
    requires
        count <= list.len(),
        marks.len() == list.len(),
        forall|i: int| 0 <= i < marks.len() ==> #[trigger] marks[i] == footnote((i + 1) as nat),
    ensures
        references(list, count) == "## Source references\n\n"@ + Seq::new(
            count,
            |i: int| listed_under(marks[i], list[i]),
        ).flatten(),
    decreases count,
{
    let lines = Seq::new(count, |i: int| listed_under(marks[i], list[i]));
    if count == 0 {
        assert(lines =~= Seq::empty());
        assert("## Source references\n\n"@ + Seq::<char>::empty() =~= "## Source references\n\n"@);
    } else {
        let n = (count - 1) as nat;
        lemma_references(list, marks, n);
        let before = Seq::new(n, |i: int| listed_under(marks[i], list[i]));
        let e = list[n as int];
        assert(lines =~= before.push(listed_under(marks[n as int], e)));
        before.lemma_flatten_push(listed_under(marks[n as int], e));
        lemma_without_backticks(e.path@, 0);
        assert(e.path@.skip(0) =~= e.path@);
        assert(marks[n as int] == footnote(count));
        assert(reference(e, count) == listed_under(marks[n as int], e));
        assert("## Source references\n\n"@ + (before.flatten() + reference(e, count))
            =~= "## Source references\n\n"@ + before.flatten() + reference(e, count));
    }
}

proof fn lemma_marked(markdown: Seq<char>, list: Seq<Evidence>, marks: Seq<Seq<char>>, count: nat)
    requires
        count <= list.len(),
        marks.len() == list.len(),
        forall|i: int| 0 <= i < marks.len() ==> #[trigger] marks[i] == footnote((i + 1) as nat),
    ensures
        with_footnotes(markdown, list, count) == Seq::new(count, |i: int| i).fold_left(
            markdown,
            |text: Seq<char>, i: int| with_citation(text, list[i].id@, marks[i]),
        ),
    decreases count,
{
    let f = |text: Seq<char>, i: int| with_citation(text, list[i].id@, marks[i]);
    let steps = Seq::new(count, |i: int| i);
    if count > 0 {
        let n = (count - 1) as nat;
        lemma_marked(markdown, list, marks, n);
        assert(steps.drop_last() =~= Seq::new(n, |i: int| i));
        assert(steps.last() == n);
        assert(marks[n as int] == footnote(count));
    }
}

proof fn lemma_body(
    sections: Seq<Section>,
    list: Seq<Evidence>,
    marks: Seq<Seq<char>>,
    count: nat,
)
    requires
        count <= sections.len(),
        marks.len() == list.len(),
        forall|i: int| 0 <= i < marks.len() ==> #[trigger] marks[i] == footnote((i + 1) as nat),
    ensures
        body(sections, list, count) == sections.take(count as int).flat_map(
            marked_section(list, marks),
        ),
    decreases count,
{
    let f = marked_section(list, marks);
    if count == 0 {
        assert(sections.take(0).map_values(f) =~= Seq::empty());
    } else {
        let n = count - 1;
        lemma_body(sections, list, marks, n as nat);
        sections.lemma_flat_map_take_append(f, n);
        lemma_marked(sections[n].markdown@, list, marks, list.len());
        assert(body(sections, list, count) =~= body(sections, list, n as nat) + f(sections[n]));
    }
}

proof fn lemma_marks_differ(i: nat, j: nat)
    requires
        i != j,
    ensures
        footnote(i) != footnote(j),
{
    lemma_decimal(i);
    lemma_decimal(j);
    let a = footnote(i);
    let b = footnote(j);
    reveal_strlit("[^s");
    reveal_strlit("]");
    if a == b {
        assert(a.subrange(3, a.len() - 1) =~= decimal(i));
        assert(b.subrange(3, b.len() - 1) =~= decimal(j));
    }
}

/// Every citation points at its source: there is one mark for each cited
/// passage, no two alike; the references list each passage under its mark; and
/// in the body the citations of each passage are that mark.
pub proof fn citations_point_at_their_references(sections: Seq<Section>)
    ensures
        ({
            let list = cited_in(sections, sections.len());
            exists|marks: Seq<Seq<char>>|
                {
                    &&& #[trigger] marks.len() == list.len()
                    &&& marks.no_duplicates()
                    &&& forall|i: int|
                        0 <= i < marks.len() ==> #[trigger] marks[i] == "[^s"@ + decimal(
                            (i + 1) as nat,
                        ) + "]"@
                    &&& references(list, list.len()) == "## Source references\n\n"@ + Seq::new(
                        list.len(),
                        |i: int| listed_under(marks[i], list[i]),
                    ).flatten()
                    &&& body(sections, list, sections.len()) == sections.flat_map(
                        marked_section(list, marks),
                    )
                }
        }),
{
    let list = cited_in(sections, sections.len());
    let marks = Seq::new(list.len(), |i: int| footnote((i + 1) as nat));
    assert(marks.no_duplicates()) by {
        assert forall|i: int, j: int| 0 <= i < marks.len() && 0 <= j < marks.len() && i != j implies marks[i]
            != marks[j] by {
            lemma_marks_differ((i + 1) as nat, (j + 1) as nat);
        }
    }
    lemma_references(list, marks, list.len());
    lemma_body(sections, list, marks, sections.len());
    assert(sections.take(sections.len() as int) =~= sections);
    assert(marks.len() == list.len());
}

} // verus!
