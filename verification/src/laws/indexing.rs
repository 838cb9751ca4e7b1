//! What parsing finds in a file: a symbol for every declaration, under what it
//! stands in; every relation, from the declaration that states it; and where
//! chunks may end.

use vstd::prelude::*;

use super::lists::upto;
use crate::code_graph::{
    base_edge, declared, edge_kind_of, file_symbol, graph_of, made, name_of, own_edge, scope_of,
    short_circuits, signature_of, span_of, symbol_kind_of, target_of, EdgeModel, Making, SymbolModel,
};
use crate::order::{lemma_filter_none, lemma_filter_step};
use crate::parser::{
    boundaries_of, is_relation, names_of, opened_name, relation_line, relations_of, whole_text, NameModel,
};
use crate::syntax::{child, lemma_less_deep, node_text, parent, NodeModel, TreeModel};
use crate::text::{contains, decimal};

verus! {

// ---------------------------------------------------------------------------
// Symbols and relations
// ---------------------------------------------------------------------------

/// A node declares a symbol.
pub open spec fn declares(nodes: Seq<NodeModel>) -> spec_fn(int) -> bool {
    |i: int| symbol_kind_of(nodes[i].kind) is Some
}

/// The declaration that a node stands in, itself where it is one: the nearest
/// one above it.
pub open spec fn encloser(nodes: Seq<NodeModel>, i: int) -> Option<int>
    decreases i,
{
    if symbol_kind_of(nodes[i].kind) is Some {
        Some(i)
    } else {
        match parent(nodes, i) {
            Some(p) if 0 <= p < i => encloser(nodes, p),
            _ => None,
        }
    }
}

/// The declaration above a node.
pub open spec fn above(nodes: Seq<NodeModel>, i: int) -> Option<int> {
    match parent(nodes, i) {
        Some(p) if 0 <= p < i => encloser(nodes, p),
        _ => None,
    }
}

/// The id of a declaration, or of the file.
pub open spec fn id_of(nodes: Seq<NodeModel>, d: Option<int>) -> Seq<char> {
    match d {
        Some(i) => nodes[i].kind + ":"@ + decimal(nodes[i].start_byte as nat) + ":"@ + decimal(
            nodes[i].end_byte as nat,
        ),
        None => "file"@,
    }
}

/// The name of a declaration under all that it stands in; at the top of a file
/// under its receiver, where it has one.
pub open spec fn full_name(nodes: Seq<NodeModel>, i: int, source: Seq<char>) -> Seq<char>
    decreases i,
{
    match above(nodes, i) {
        Some(d) if 0 <= d < i => full_name(nodes, d, source) + "::"@ + name_of(nodes, i, source),
        _ => match child(nodes, i, "receiver"@) {
            Some(c) => node_text(nodes, c, source) + "::"@ + name_of(nodes, i, source),
            None => name_of(nodes, i, source),
        },
    }
}

/// The symbol of a declaration.
pub open spec fn symbol_for(nodes: Seq<NodeModel>, source: Seq<char>) -> spec_fn(
    int,
) -> SymbolModel {
    |i: int|
        SymbolModel {
            id: id_of(nodes, Some(i)),
            name: name_of(nodes, i, source),
            qualified_name: full_name(nodes, i, source),
            kind: symbol_kind_of(nodes[i].kind)->0,
            parent: Some(id_of(nodes, above(nodes, i))),
            span: span_of(nodes[i]),
            signature: signature_of(nodes, i),
        }
}

/// The relations that a node states, from the declaration that it stands in: its
/// base classes, and what its kind says.
pub open spec fn edges_at(nodes: Seq<NodeModel>, source: Seq<char>) -> spec_fn(int) -> Seq<
    EdgeModel,
> {
    |i: int|
        {
            let owner = id_of(nodes, encloser(nodes, i));
            let bases = match child(nodes, i, "superclasses"@) {
                Some(c) => seq![
                    EdgeModel {
                        source: owner,
                        kind: "inherits"@,
                        target: node_text(nodes, c, source),
                        span: span_of(nodes[c]),
                    },
                ],
                None => Seq::empty(),
            };
            let kind = match edge_kind_of(nodes[i].kind) {
                Some(kind) => Some(kind),
                None => if short_circuits(nodes, i, source) {
                    Some("branch"@)
                } else {
                    None
                },
            };
            bases + match kind {
                Some(kind) => seq![
                    EdgeModel {
                        source: owner,
                        kind,
                        target: target_of(nodes, i, source, kind),
                        span: span_of(nodes[i]),
                    },
                ],
                None => Seq::empty(),
            }
        }
}

/// The symbol that a node belongs to is that of the declaration it stands in.
spec fn belongs(nodes: Seq<NodeModel>, source: Seq<char>, m: Making, i: int) -> bool {
    let at = m.owners[i] as int;
    &&& 0 <= at < m.symbols.len()
    &&& m.symbols[at].id == id_of(nodes, encloser(nodes, i))
    &&& at == 0 <==> encloser(nodes, i) is None
    &&& encloser(nodes, i) matches Some(d) ==> 0 <= d <= i && m.symbols[at].qualified_name
        == full_name(nodes, d, source)
}

proof fn lemma_found(nodes: Seq<NodeModel>, source: Seq<char>, count: nat)
    requires
        count <= nodes.len() < usize::MAX,
        nodes.len() > 0,
    ensures
        ({
            let m = made(nodes, source, count);
            let seen = upto(nodes.len()).take(count as int);
            &&& m.owners.len() == count
            &&& m.symbols.len() <= count + 1
            &&& m.symbols == seq![file_symbol(nodes[0])] + seen.filter(
                declares(nodes),
            ).map_values(symbol_for(nodes, source))
            &&& m.edges == seen.flat_map(edges_at(nodes, source))
            &&& forall|i: int| 0 <= i < count ==> #[trigger] belongs(nodes, source, m, i)
        }),
    decreases count,
{
    let at = upto(nodes.len());
    let keep = declares(nodes);
    let f = symbol_for(nodes, source);
    let g = edges_at(nodes, source);
    lemma_filter_none(at, keep);
    let now = made(nodes, source, count);
    if count == 0 {
        assert(now.symbols =~= seq![file_symbol(nodes[0])] + Seq::<int>::empty().map_values(f));
        assert(at.take(0).map_values(g) =~= Seq::empty());
    } else {
        let n = count - 1;
        lemma_found(nodes, source, n as nat);
        let was = made(nodes, source, n as nat);
        lemma_filter_step(at, keep, n);
        at.lemma_flat_map_take_append(g, n);
        assert(at[n] == n);
        lemma_less_deep(nodes, nodes[n].depth, n - 1);
        let scope = scope_of(nodes, n, was.owners);
        if let Some(p) = parent(nodes, n) {
            assert(belongs(nodes, source, was, p));
        }
        assert(was.symbols[scope as int].id == id_of(nodes, above(nodes, n)));
        let before = at.take(n).filter(keep);
        if let Some(kind) = symbol_kind_of(nodes[n].kind) {
            let s = declared(nodes, n, source, was.symbols, scope, kind);
            assert(s == f(n));
            assert(before.push(n).map_values(f) =~= before.map_values(f).push(f(n)));
            assert(now.symbols =~= seq![file_symbol(nodes[0])] + before.push(n).map_values(f));
        }
        let current = now.owners[n];
        let owner = now.symbols[current as int].id;
        assert(owner == id_of(nodes, encloser(nodes, n)));
        assert(base_edge(nodes, n, source, owner) + own_edge(nodes, n, source, owner) =~= g(n));
        assert(now.edges =~= was.edges + g(n));
        assert forall|i: int| 0 <= i < count implies #[trigger] belongs(
            nodes,
            source,
            now,
            i,
        ) by {
            if i < n {
                assert(belongs(nodes, source, was, i));
                assert(now.owners[i] == was.owners[i]);
                let k = was.owners[i] as int;
                assert(now.symbols[k] == was.symbols[k]);
            } else if symbol_kind_of(nodes[n].kind) is None {
                if let Some(p) = parent(nodes, n) {
                    assert(belongs(nodes, source, was, p));
                }
            }
        }
    }
}

/// The graph of a file holds the file, then a symbol for every declaration in
/// the order of the source, each under the nearest declaration that it stands
/// in; and every relation that a node states, from the declaration that the node
/// stands in.
pub proof fn graphs_hold_every_declaration_and_relation(tree: TreeModel, source: Seq<char>)
    requires
        0 < tree.nodes.len() < usize::MAX,
    ensures
        graph_of(tree, source).symbols == seq![file_symbol(tree.nodes[0])] + upto(
            tree.nodes.len(),
        ).filter(declares(tree.nodes)).map_values(symbol_for(tree.nodes, source)),
        graph_of(tree, source).edges == upto(tree.nodes.len()).flat_map(
            edges_at(tree.nodes, source),
        ),
{
    let n = tree.nodes.len();
    lemma_found(tree.nodes, source, n);
    assert(upto(n).take(n as int) =~= upto(n));
}

// ---------------------------------------------------------------------------
// What chunks go by
// ---------------------------------------------------------------------------

/// A chunk may end before a node: a function, a class, a method, a structure or
/// an implementation.
pub open spec fn may_end_before() -> spec_fn(NodeModel) -> bool {
    |n: NodeModel|
        contains(n.kind, "function"@) || contains(n.kind, "class"@) || contains(n.kind, "method"@)
            || n.kind == "struct_item"@ || n.kind == "impl_item"@
}

/// Where a node begins.
pub open spec fn begins() -> spec_fn(NodeModel) -> usize {
    |n: NodeModel| n.start_byte
}

/// Chunks may end at the beginning of a file and before every node that opens
/// one.
pub proof fn chunks_may_end_before_declarations(nodes: Seq<NodeModel>, count: nat)
    requires
        count <= nodes.len(),
    ensures
        boundaries_of(nodes, count) == seq![0usize] + nodes.take(count as int).filter(
            may_end_before(),
        ).map_values(begins()),
    decreases count,
{
    let keep = may_end_before();
    lemma_filter_none(nodes, keep);
    if count == 0 {
        assert(seq![0usize] + Seq::<NodeModel>::empty().map_values(begins()) =~= seq![0usize]);
    } else {
        let n = count - 1;
        chunks_may_end_before_declarations(nodes, n as nat);
        lemma_filter_step(nodes, keep, n);
        let before = nodes.take(n).filter(keep);
        assert(before.push(nodes[n]).map_values(begins()) =~= before.map_values(begins()).push(
            nodes[n].start_byte,
        ));
        assert(boundaries_of(nodes, count) =~= seq![0usize] + nodes.take(count as int).filter(
            keep,
        ).map_values(begins()));
    }
}

/// A node opens a chunk and has a name that can be read.
pub open spec fn is_named(nodes: Seq<NodeModel>, source: Seq<char>) -> spec_fn(int) -> bool {
    |i: int|
        may_end_before()(nodes[i]) && child(nodes, i, "name"@) is Some && whole_text(
            nodes,
            child(nodes, i, "name"@)->0,
            source,
        ) is Some
}

/// The name of a node, and where the node begins.
pub open spec fn name_at(nodes: Seq<NodeModel>, source: Seq<char>) -> spec_fn(int) -> NameModel {
    |i: int|
        {
            let name = whole_text(nodes, child(nodes, i, "name"@)->0, source)->0;
            NameModel {
                at: nodes[i].start_byte,
                name: if name.len() <= 200 {
                    name
                } else {
                    name.take(200)
                },
            }
        }
}

/// The names of a file are those of all nodes that open a chunk.
pub proof fn names_are_those_of_declarations(
    nodes: Seq<NodeModel>,
    source: Seq<char>,
    count: nat,
)
    requires
        count <= nodes.len(),
    ensures
        names_of(nodes, source, count) == upto(nodes.len()).take(count as int).filter(
            is_named(nodes, source),
        ).map_values(name_at(nodes, source)),
    decreases count,
{
    let at = upto(nodes.len());
    let keep = is_named(nodes, source);
    let f = name_at(nodes, source);
    lemma_filter_none(at, keep);
    if count == 0 {
        assert(Seq::<int>::empty().map_values(f) =~= Seq::empty());
    } else {
        let n = count - 1;
        names_are_those_of_declarations(nodes, source, n as nat);
        lemma_filter_step(at, keep, n);
        assert(at[n] == n);
        let before = at.take(n).filter(keep);
        assert(before.push(n).map_values(f) =~= before.map_values(f).push(f(n)));
        assert(opened_name(nodes, n, source) is Some == keep(n));
    }
}

/// A node states a relation that is listed, in text that can be read.
pub open spec fn is_stated(nodes: Seq<NodeModel>, source: Seq<char>) -> spec_fn(int) -> bool {
    |i: int|
        (contains(nodes[i].kind, "import"@) || nodes[i].kind == "use_declaration"@ || nodes[i].kind
            == "call_expression"@ || nodes[i].kind == "method_invocation"@) && whole_text(
            nodes,
            i,
            source,
        ) is Some
}

/// How a relation is listed.
pub open spec fn stated_at(nodes: Seq<NodeModel>, source: Seq<char>) -> spec_fn(int) -> Seq<char> {
    |i: int| relation_line(nodes[i], whole_text(nodes, i, source)->0)
}

/// The relations of a file are all that its nodes state, in order, the first ten
/// thousand.
pub proof fn relations_are_listed(nodes: Seq<NodeModel>, source: Seq<char>, count: nat)
    requires
        count <= nodes.len(),
    ensures
        ({
            let all = upto(nodes.len()).take(count as int).filter(
                is_stated(nodes, source),
            ).map_values(stated_at(nodes, source));
            relations_of(nodes, source, count) == (if all.len() <= 10_000 {
                all
            } else {
                all.take(10_000)
            })
        }),
    decreases count,
{
    let at = upto(nodes.len());
    let keep = is_stated(nodes, source);
    let f = stated_at(nodes, source);
    lemma_filter_none(at, keep);
    if count == 0 {
        assert(Seq::<int>::empty().map_values(f) =~= Seq::empty());
    } else {
        let n = count - 1;
        relations_are_listed(nodes, source, n as nat);
        lemma_filter_step(at, keep, n);
        assert(at[n] == n);
        let before = at.take(n).filter(keep);
        let all = at.take(count as int).filter(keep).map_values(f);
        assert(before.push(n).map_values(f) =~= before.map_values(f).push(f(n)));
        assert(keep(n) == (is_relation(nodes[n].kind) && whole_text(nodes, n, source) is Some));
        if all.len() > 10_000 {
            assert(all.take(10_000) =~= (if before.len() <= 10_000 {
                before.map_values(f)
            } else {
                before.map_values(f).take(10_000)
            }));
        }
    }
}

} // verus!
