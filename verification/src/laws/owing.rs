//! What a document owes its source: an explanation of every declaration, and of
//! every relation by all of its sites; and what an audit asks of it.

use vstd::prelude::*;
use vstd::utf8::encode_utf8;

use crate::audit_run::{bytes_of, units_of, UnitModel};
use crate::code_graph::{one_of, EdgeModel, GraphModel, Span, SymbolModel};
use crate::coverage::{
    add_site, audited, audited_kinds, container_kinds, obligations_of, site_groups, site_precedes, spanned,
    symbol_obligations, symbol_owed, told_target, ObligationModel, SiteGroup,
};
use crate::model::Evidence;
use crate::order::{lemma_filter_none, lemma_filter_step, sum};
use crate::source::digest;
use crate::text::{
    blen, precedes, texts_are_ordered, the_order_of_texts_is_transitive,
};

verus! {

/// A kind whose symbols hold others, and that is explained by its signature.
pub open spec fn holds_others(kind: Seq<char>) -> bool {
    kind == "class"@ || kind == "type"@ || kind == "interface"@ || kind == "module"@ || kind
        == "implementation"@
}

/// What is to be explained of a symbol.
pub open spec fn to_explain(s: SymbolModel) -> Span {
    if holds_others(s.kind) {
        s.signature
    } else {
        s.span
    }
}

/// A declaration reaches into a passage.
pub open spec fn declared_in(from: int, to: int) -> spec_fn(SymbolModel) -> bool {
    |s: SymbolModel|
        s.kind != "file"@ && to_explain(s).start_byte < to && to_explain(s).end_byte > from
}

/// What is owed of a declaration.
pub open spec fn owed_for(e: Evidence) -> spec_fn(SymbolModel) -> ObligationModel {
    |s: SymbolModel|
        ObligationModel {
            id: digest(encode_utf8(e.id@ + ":"@ + s.id)),
            path: e.path@,
            subject: s.qualified_name,
            kind: s.kind,
            span: to_explain(s),
        }
}

proof fn lemma_kinds(kind: Seq<char>)
    ensures
        one_of(kind, container_kinds()) == holds_others(kind),
{
    let names = container_kinds();
    assert(names[0] == "class" && names[1] == "type" && names[2] == "interface" && names[3]
        == "module" && names[4] == "implementation");
    if holds_others(kind) {
        assert(names[0]@ == kind || names[1]@ == kind || names[2]@ == kind || names[3]@ == kind
            || names[4]@ == kind);
    }
}

/// Every declaration that reaches into a passage is owed an explanation, in the
/// order of the source, and nothing else is owed as a declaration.
pub proof fn every_declaration_is_owed(
    e: Evidence,
    symbols: Seq<SymbolModel>,
    from: int,
    to: int,
    count: nat,
)
    requires
        count <= symbols.len(),
    ensures
        symbol_obligations(e, symbols, from, to, count) == symbols.take(count as int).filter(
            declared_in(from, to),
        ).map_values(owed_for(e)),
    decreases count,
{
    let keep = declared_in(from, to);
    let f = owed_for(e);
    lemma_filter_none(symbols, keep);
    if count == 0 {
        assert(Seq::<SymbolModel>::empty().map_values(f) =~= Seq::empty());
    } else {
        let n = count - 1;
        every_declaration_is_owed(e, symbols, from, to, n as nat);
        lemma_filter_step(symbols, keep, n);
        lemma_kinds(symbols[n].kind);
        let before = symbols.take(n).filter(keep);
        assert(before.push(symbols[n]).map_values(f) =~= before.map_values(f).push(f(symbols[n])));
        assert(symbol_owed(symbols[n], from, to) == keep(symbols[n]));
    }
}

/// What a document owes of a passage begins with its declarations, all of them.
pub proof fn passages_owe_their_declarations(
    e: Evidence,
    symbols: Seq<SymbolModel>,
    edges: Seq<EdgeModel>,
    offset: int,
)
    ensures
        symbols.filter(declared_in(offset, offset + blen(e.content@))).map_values(
            owed_for(e),
        ).is_prefix_of(obligations_of(e, symbols, edges, offset)),
{
    let end = offset + blen(e.content@);
    every_declaration_is_owed(e, symbols, offset, end, symbols.len());
    assert(symbols.take(symbols.len() as int) =~= symbols);
    let first = symbol_obligations(e, symbols, offset, end, symbols.len());
    let all = obligations_of(e, symbols, edges, offset);
    assert(first =~= all.take(first.len() as int));
}

// ---------------------------------------------------------------------------
// Sites
// ---------------------------------------------------------------------------

/// A site of a relation reaches into a passage.
pub open spec fn site_of(
    source: Seq<char>,
    kind: Seq<char>,
    target: Seq<char>,
    from: int,
    to: int,
) -> spec_fn(EdgeModel) -> bool {
    |e: EdgeModel|
        e.source == source && e.kind == kind && told_target(e.target) == target
            && e.span.start_byte < to && e.span.end_byte > from
}

/// A group is of a relation.
pub open spec fn is_group_of(
    g: SiteGroup,
    source: Seq<char>,
    kind: Seq<char>,
    target: Seq<char>,
) -> bool {
    g.source == source && g.kind == kind && g.target == target
}

/// One of the groups is of a relation.
pub open spec fn grouped_under(
    groups: Seq<SiteGroup>,
    source: Seq<char>,
    kind: Seq<char>,
    target: Seq<char>,
) -> bool {
    exists|k: int| 0 <= k < groups.len() && is_group_of(#[trigger] groups[k], source, kind, target)
}

/// Groups are ordered by source, kind and target, and no two are of one
/// relation.
pub open spec fn in_site_order(groups: Seq<SiteGroup>) -> bool {
    forall|j: int, k: int|
        0 <= j < k < groups.len() ==> site_precedes(
            #[trigger] groups[j],
            (#[trigger] groups[k]).source,
            groups[k].kind,
            groups[k].target,
        )
}

/// A span holds another.
pub open spec fn holds_span(a: Span, b: Span) -> bool {
    a.start_byte <= b.start_byte && a.end_byte >= b.end_byte && a.start <= b.start && a.end >= b.end
}

/// A group counts all sites of its relation among some edges, and its span holds
/// them.
pub open spec fn counts_sites(g: SiteGroup, edges: Seq<EdgeModel>, from: int, to: int) -> bool {
    let sites = edges.filter(site_of(g.source, g.kind, g.target, from, to));
    &&& sites.len() > 0
    &&& sites.len() <= usize::MAX ==> g.sites == sites.len()
    &&& forall|i: int| 0 <= i < sites.len() ==> holds_span(g.span, (#[trigger] sites[i]).span)
}

proof fn lemma_sites_ordered(a: SiteGroup, b: SiteGroup, c: SiteGroup)
    ensures
        site_precedes(a, b.source, b.kind, b.target) ==> !is_group_of(
            a,
            b.source,
            b.kind,
            b.target,
        ),
        !is_group_of(a, b.source, b.kind, b.target) ==> site_precedes(
            a,
            b.source,
            b.kind,
            b.target,
        ) || site_precedes(b, a.source, a.kind, a.target),
        site_precedes(a, b.source, b.kind, b.target) && site_precedes(
            b,
            c.source,
            c.kind,
            c.target,
        ) ==> site_precedes(a, c.source, c.kind, c.target),
{
    texts_are_ordered(a.source, b.source);
    texts_are_ordered(a.kind, b.kind);
    texts_are_ordered(a.target, b.target);
    texts_are_ordered(b.source, c.source);
    texts_are_ordered(b.kind, c.kind);
    texts_are_ordered(b.target, c.target);
    texts_are_ordered(a.source, c.source);
    texts_are_ordered(a.kind, c.kind);
    texts_are_ordered(a.target, c.target);
    if precedes(a.source, b.source) && precedes(b.source, c.source) {
        the_order_of_texts_is_transitive(a.source, b.source, c.source);
    }
    if precedes(a.kind, b.kind) && precedes(b.kind, c.kind) {
        the_order_of_texts_is_transitive(a.kind, b.kind, c.kind);
    }
    if precedes(a.target, b.target) && precedes(b.target, c.target) {
        the_order_of_texts_is_transitive(a.target, b.target, c.target);
    }
}

/// What a group becomes with one site more.
spec fn with_site(g: SiteGroup, e: EdgeModel) -> SiteGroup {
    SiteGroup { sites: (g.sites + 1) as usize, span: spanned(g.span, e.span), ..g }
}

spec fn fresh_group(e: EdgeModel) -> SiteGroup {
    SiteGroup {
        source: e.source,
        kind: e.kind,
        target: told_target(e.target),
        sites: 1,
        span: e.span,
    }
}

/// Adding a site changes the group of its relation, or adds one, and keeps the
/// others and the order.
proof fn lemma_add_site(groups: Seq<SiteGroup>, e: EdgeModel)
    requires
        in_site_order(groups),
    ensures
        ({
            let now = add_site(groups, e);
            let target = told_target(e.target);
            &&& in_site_order(now)
            &&& forall|k: int|
                0 <= k < now.len() ==> {
                    ||| groups.contains(#[trigger] now[k]) && !is_group_of(
                        now[k],
                        e.source,
                        e.kind,
                        target,
                    )
                    ||| exists|j: int|
                        0 <= j < groups.len() && is_group_of(
                            #[trigger] groups[j],
                            e.source,
                            e.kind,
                            target,
                        ) && now[k] == with_site(groups[j], e)
                    ||| now[k] == fresh_group(e) && !grouped_under(groups, e.source, e.kind, target)
                }
            &&& grouped_under(now, e.source, e.kind, target)
            &&& forall|j: int|
                0 <= j < groups.len() ==> grouped_under(
                    now,
                    (#[trigger] groups[j]).source,
                    groups[j].kind,
                    groups[j].target,
                )
        }),
    decreases groups.len(),
{
    let now = add_site(groups, e);
    let target = told_target(e.target);
    let fresh = fresh_group(e);
    if groups.len() == 0 {
        assert(now[0] == fresh);
    } else {
        let head = groups.drop_last();
        let last = groups.last();
        let n = head.len() as int;
        assert(groups[n] == last);
        assert forall|j: int| 0 <= j < n implies #[trigger] head[j] == groups[j] by {}
        assert(in_site_order(head)) by {
            assert forall|j: int, k: int| 0 <= j < k < head.len() implies site_precedes(
                #[trigger] head[j],
                (#[trigger] head[k]).source,
                head[k].kind,
                head[k].target,
            ) by {
                assert(site_precedes(
                    groups[j],
                    groups[k].source,
                    groups[k].kind,
                    groups[k].target,
                ));
            }
        }
        assert forall|j: int| 0 <= j < n implies site_precedes(
            #[trigger] head[j],
            last.source,
            last.kind,
            last.target,
        ) by {
            assert(site_precedes(groups[j], groups[n].source, groups[n].kind, groups[n].target));
        }
        lemma_sites_ordered(last, fresh, fresh);
        if is_group_of(last, e.source, e.kind, target) {
            assert(now == head.push(with_site(last, e)));
            assert(now[n] == with_site(groups[n], e));
            assert forall|j: int, k: int| 0 <= j < k < now.len() implies site_precedes(
                #[trigger] now[j],
                (#[trigger] now[k]).source,
                now[k].kind,
                now[k].target,
            ) by {
                assert(now[j] == head[j]);
                if k < n {
                    assert(now[k] == head[k]);
                }
            }
            assert forall|k: int| 0 <= k < n implies groups.contains(#[trigger] now[k])
                && !is_group_of(now[k], e.source, e.kind, target) by {
                assert(now[k] == head[k] && head[k] == groups[k]);
                lemma_sites_ordered(head[k], last, last);
            }
            assert forall|j: int| 0 <= j < groups.len() implies grouped_under(
                now,
                (#[trigger] groups[j]).source,
                groups[j].kind,
                groups[j].target,
            ) by {
                assert(is_group_of(now[j], groups[j].source, groups[j].kind, groups[j].target));
            }
        } else if site_precedes(last, e.source, e.kind, target) {
            assert(now == groups.push(fresh));
            assert forall|j: int| 0 <= j < groups.len() implies site_precedes(
                #[trigger] groups[j],
                e.source,
                e.kind,
                target,
            ) by {
                if j < n {
                    assert(head[j] == groups[j]);
                    lemma_sites_ordered(head[j], last, fresh);
                }
            }
            assert forall|j: int, k: int| 0 <= j < k < now.len() implies site_precedes(
                #[trigger] now[j],
                (#[trigger] now[k]).source,
                now[k].kind,
                now[k].target,
            ) by {
                assert(now[j] == groups[j]);
                if k < groups.len() {
                    assert(now[k] == groups[k]);
                }
            }
            assert(!grouped_under(groups, e.source, e.kind, target)) by {
                if grouped_under(groups, e.source, e.kind, target) {
                    let k = choose|k: int|
                        0 <= k < groups.len() && is_group_of(
                            #[trigger] groups[k],
                            e.source,
                            e.kind,
                            target,
                        );
                    lemma_sites_ordered(groups[k], fresh, fresh);
                }
            }
            assert forall|k: int| 0 <= k < groups.len() implies groups.contains(
                #[trigger] now[k],
            ) && !is_group_of(now[k], e.source, e.kind, target) by {
                assert(now[k] == groups[k]);
                lemma_sites_ordered(groups[k], fresh, fresh);
            }
            assert(is_group_of(now[groups.len() as int], e.source, e.kind, target));
            assert forall|j: int| 0 <= j < groups.len() implies grouped_under(
                now,
                (#[trigger] groups[j]).source,
                groups[j].kind,
                groups[j].target,
            ) by {
                assert(is_group_of(now[j], groups[j].source, groups[j].kind, groups[j].target));
            }
        } else {
            lemma_add_site(head, e);
            let inner = add_site(head, e);
            assert(now == inner.push(last));
            let m = inner.len() as int;
            assert(now[m] == last);
            assert forall|k: int| 0 <= k < m implies site_precedes(
                #[trigger] inner[k],
                last.source,
                last.kind,
                last.target,
            ) by {
                lemma_sites_ordered(fresh, last, last);
                if head.contains(inner[k]) {
                    let j = choose|j: int| 0 <= j < head.len() && head[j] == inner[k];
                    assert(site_precedes(head[j], last.source, last.kind, last.target));
                }
            }
            assert forall|j: int, k: int| 0 <= j < k < now.len() implies site_precedes(
                #[trigger] now[j],
                (#[trigger] now[k]).source,
                now[k].kind,
                now[k].target,
            ) by {
                assert(now[j] == inner[j]);
                if k < m {
                    assert(now[k] == inner[k]);
                }
            }
            assert(grouped_under(groups, e.source, e.kind, target) ==> grouped_under(
                head,
                e.source,
                e.kind,
                target,
            )) by {
                if grouped_under(groups, e.source, e.kind, target) {
                    let k = choose|k: int|
                        0 <= k < groups.len() && is_group_of(
                            #[trigger] groups[k],
                            e.source,
                            e.kind,
                            target,
                        );
                    assert(k < n);
                    assert(is_group_of(head[k], e.source, e.kind, target));
                }
            }
            assert forall|k: int| 0 <= k < now.len() implies {
                ||| groups.contains(#[trigger] now[k]) && !is_group_of(
                    now[k],
                    e.source,
                    e.kind,
                    target,
                )
                ||| exists|j: int|
                    0 <= j < groups.len() && is_group_of(
                        #[trigger] groups[j],
                        e.source,
                        e.kind,
                        target,
                    ) && now[k] == with_site(groups[j], e)
                ||| now[k] == fresh_group(e) && !grouped_under(groups, e.source, e.kind, target)
            } by {
                if k < m {
                    assert(now[k] == inner[k]);
                    if head.contains(inner[k]) && !is_group_of(inner[k], e.source, e.kind, target) {
                        let j = choose|j: int| 0 <= j < head.len() && head[j] == inner[k];
                        assert(groups[j] == now[k]);
                    } else if inner[k] == fresh && !grouped_under(head, e.source, e.kind, target) {
                    } else {
                        let j = choose|j: int|
                            0 <= j < head.len() && is_group_of(
                                #[trigger] head[j],
                                e.source,
                                e.kind,
                                target,
                            ) && inner[k] == with_site(head[j], e);
                        assert(groups[j] == head[j]);
                    }
                } else {
                    assert(groups.contains(groups[n]));
                }
            }
            let w = choose|w: int|
                0 <= w < inner.len() && is_group_of(
                    #[trigger] inner[w],
                    e.source,
                    e.kind,
                    target,
                );
            assert(is_group_of(now[w], e.source, e.kind, target));
            assert forall|j: int| 0 <= j < groups.len() implies grouped_under(
                now,
                (#[trigger] groups[j]).source,
                groups[j].kind,
                groups[j].target,
            ) by {
                if j < n {
                    assert(grouped_under(inner, head[j].source, head[j].kind, head[j].target));
                    let v = choose|v: int|
                        0 <= v < inner.len() && is_group_of(
                            #[trigger] inner[v],
                            head[j].source,
                            head[j].kind,
                            head[j].target,
                        );
                    assert(is_group_of(
                        now[v],
                        groups[j].source,
                        groups[j].kind,
                        groups[j].target,
                    ));
                } else {
                    assert(is_group_of(now[m], last.source, last.kind, last.target));
                }
            }
        }
    }
}

/// The relations of a passage are all there, each once and in order: every site
/// that reaches into the passage is counted in the group of its relation, whose
/// span holds it.
pub proof fn every_site_is_counted(edges: Seq<EdgeModel>, from: int, to: int, count: nat)
    requires
        count <= edges.len(),
    ensures
        in_site_order(site_groups(edges, from, to, count)),
        forall|k: int|
            0 <= k < site_groups(edges, from, to, count).len() ==> counts_sites(
                #[trigger] site_groups(edges, from, to, count)[k],
                edges.take(count as int),
                from,
                to,
            ),
        forall|i: int|
            0 <= i < count && (#[trigger] edges[i]).span.start_byte < to && edges[i].span.end_byte
                > from ==> grouped_under(
                site_groups(edges, from, to, count),
                edges[i].source,
                edges[i].kind,
                told_target(edges[i].target),
            ),
    decreases count,
{
    if count > 0 {
        let n = count - 1;
        every_site_is_counted(edges, from, to, n as nat);
        let was = site_groups(edges, from, to, n as nat);
        let now = site_groups(edges, from, to, count);
        let e = edges[n];
        let target = told_target(e.target);
        let had = edges.take(n);
        let all = edges.take(count as int);
        let reaches = e.span.start_byte < to && e.span.end_byte > from;
        if reaches {
            lemma_add_site(was, e);
        }
        assert forall|k: int| 0 <= k < now.len() implies counts_sites(
            #[trigger] now[k],
            all,
            from,
            to,
        ) by {
            let g = now[k];
            let keep = site_of(g.source, g.kind, g.target, from, to);
            lemma_filter_step(edges, keep, n);
            lemma_filter_none(edges, keep);
            let before = had.filter(keep);
            let sites = all.filter(keep);
            assert(keep(e) == (reaches && is_group_of(g, e.source, e.kind, target)));
            if !reaches {
                assert(counts_sites(was[k], had, from, to));
            } else if was.contains(g) && !is_group_of(g, e.source, e.kind, target) {
                let j = choose|j: int| 0 <= j < was.len() && was[j] == g;
                assert(counts_sites(was[j], had, from, to));
            } else if g == fresh_group(e) && !grouped_under(was, e.source, e.kind, target) {
                assert(before.len() == 0) by {
                    if before.len() > 0 {
                        had.lemma_filter_pred(keep, 0);
                        assert(before.contains(before[0]));
                        super::lists::lemma_kept(had, keep, before[0]);
                        let i = choose|i: int| 0 <= i < had.len() && had[i] == before[0];
                        assert(edges[i] == before[0]);
                        assert(grouped_under(
                            was,
                            edges[i].source,
                            edges[i].kind,
                            told_target(edges[i].target),
                        ));
                    }
                }
                assert(sites =~= seq![e]);
            } else {
                let j = choose|j: int|
                    0 <= j < was.len() && is_group_of(
                        #[trigger] was[j],
                        e.source,
                        e.kind,
                        target,
                    ) && g == with_site(was[j], e);
                assert(counts_sites(was[j], had, from, to));
                assert(sites =~= before.push(e));
                assert forall|i: int| 0 <= i < sites.len() implies holds_span(
                    g.span,
                    (#[trigger] sites[i]).span,
                ) by {
                    if i < before.len() {
                        assert(holds_span(was[j].span, before[i].span));
                    }
                }
            }
        }
        assert forall|i: int|
            0 <= i < count && (#[trigger] edges[i]).span.start_byte < to && edges[i].span.end_byte
                > from implies grouped_under(
            now,
            edges[i].source,
            edges[i].kind,
            told_target(edges[i].target),
        ) by {
            if i < n {
                assert(grouped_under(
                    was,
                    edges[i].source,
                    edges[i].kind,
                    told_target(edges[i].target),
                ));
                let j = choose|j: int|
                    0 <= j < was.len() && is_group_of(
                        #[trigger] was[j],
                        edges[i].source,
                        edges[i].kind,
                        told_target(edges[i].target),
                    );
                if reaches {
                    assert(grouped_under(now, was[j].source, was[j].kind, was[j].target));
                }
            }
        }
    }
}

// ---------------------------------------------------------------------------
// What an audit asks
// ---------------------------------------------------------------------------

/// An audit asks about functions and methods, and about what holds others.
pub open spec fn looked_up() -> spec_fn(ObligationModel) -> bool {
    |o: ObligationModel| o.kind == "function"@ || o.kind == "method"@ || holds_others(o.kind)
}

proof fn lemma_looked_up(o: ObligationModel)
    ensures
        one_of(o.kind, audited_kinds()) == looked_up()(o),
{
    let names = audited_kinds();
    assert(names[0] == "function" && names[1] == "method" && names[2] == "class" && names[3]
        == "type" && names[4] == "interface" && names[5] == "implementation" && names[6]
        == "module");
    if looked_up()(o) {
        assert(names[0]@ == o.kind || names[1]@ == o.kind || names[2]@ == o.kind || names[3]@
            == o.kind || names[4]@ == o.kind || names[5]@ == o.kind || names[6]@ == o.kind);
    }
}

proof fn lemma_audited(list: Seq<ObligationModel>, count: nat)
    requires
        count <= list.len(),
    ensures
        audited(list, count) == list.take(count as int).filter(looked_up()),
    decreases count,
{
    lemma_filter_none(list, looked_up());
    if count > 0 {
        lemma_audited(list, (count - 1) as nat);
        lemma_filter_step(list, looked_up(), count - 1);
        lemma_looked_up(list[count - 1]);
    }
}

/// How many bytes a passage has.
pub open spec fn passage_bytes() -> spec_fn(Evidence) -> nat {
    |e: Evidence| blen(e.content@)
}

/// Where a passage begins in its file: behind the bytes of those before it.
pub open spec fn begins_at(segments: Seq<Evidence>, i: int) -> nat {
    sum(segments.take(i).map_values(passage_bytes()))
}

/// What an audit asks about a passage of a file.
pub open spec fn asked_of(segments: Seq<Evidence>, g: GraphModel) -> spec_fn(int) -> Seq<
    ObligationModel,
> {
    |i: int|
        obligations_of(segments[i], g.symbols, g.edges, begins_at(segments, i) as int).filter(
            looked_up(),
        )
}

/// There is something to ask about a passage.
pub open spec fn is_asked(segments: Seq<Evidence>, g: GraphModel) -> spec_fn(int) -> bool {
    |i: int| asked_of(segments, g)(i).len() > 0
}

/// A passage with what is asked about it.
pub open spec fn unit_at(segments: Seq<Evidence>, g: GraphModel) -> spec_fn(int) -> UnitModel {
    |i: int|
        UnitModel {
            evidence: segments[i],
            start_byte: begins_at(segments, i) as usize,
            items: asked_of(segments, g)(i),
        }
}

proof fn lemma_begins(segments: Seq<Evidence>, count: nat)
    requires
        count <= segments.len(),
    ensures
        bytes_of(segments, count) == begins_at(segments, count as int),
    decreases count,
{
    let f = passage_bytes();
    if count > 0 {
        lemma_begins(segments, (count - 1) as nat);
        let now = segments.take(count as int).map_values(f);
        assert(now.drop_last() =~= segments.take(count - 1).map_values(f));
        assert(now.last() == f(segments[count - 1]));
    }
}

/// An audit asks about every passage of a file that declares something, in
/// order, about all that is looked up there, and knows where it begins.
pub proof fn every_passage_is_asked_about(segments: Seq<Evidence>, g: GraphModel, count: nat)
    requires
        count <= segments.len(),
    ensures
        units_of(segments, g, count) == super::lists::upto(segments.len()).take(
            count as int,
        ).filter(is_asked(segments, g)).map_values(unit_at(segments, g)),
    decreases count,
{
    let at = super::lists::upto(segments.len());
    let keep = is_asked(segments, g);
    let f = unit_at(segments, g);
    lemma_filter_none(at, keep);
    if count == 0 {
        assert(Seq::<int>::empty().map_values(f) =~= Seq::empty());
    } else {
        let n = count - 1;
        every_passage_is_asked_about(segments, g, n as nat);
        lemma_filter_step(at, keep, n);
        lemma_begins(segments, n as nat);
        let all = obligations_of(
            segments[n],
            g.symbols,
            g.edges,
            bytes_of(segments, n as nat) as int,
        );
        lemma_audited(all, all.len());
        assert(all.take(all.len() as int) =~= all);
        let before = at.take(n).filter(keep);
        assert(at[n] == n);
        assert(before.push(n).map_values(f) =~= before.map_values(f).push(f(n)));
    }
}

} // verus!
