//! Syntax trees as plain lists of nodes.

use vstd::prelude::*;
use vstd::string::StringExecFns;

use crate::text::{same, slice_or_empty, bytes_or_empty};

verus! {

/// The grammars that sources are parsed with.
#[derive(Clone, Copy, Debug, PartialEq, Eq, Structural)]
pub enum Grammar {
    Rust,
    JavaScript,
    TypeScript,
    Tsx,
    Python,
    Java,
    Go,
    C,
    Cpp,
}

/// A node of a syntax tree. Nodes stand in the order in which a walk meets
/// them, a node before its children.
pub struct SyntaxNode {
    pub kind: String,
    /// The name that the grammar gives the node among its siblings.
    pub field: Option<String>,
    pub depth: usize,
    pub start_byte: usize,
    pub end_byte: usize,
    pub start_row: usize,
    pub end_row: usize,
    pub end_column: usize,
}

/// A syntax tree.
pub struct SyntaxTree {
    pub nodes: Vec<SyntaxNode>,
    pub has_error: bool,
}

/// The value of a node.
pub struct NodeModel {
    pub kind: Seq<char>,
    pub field: Option<Seq<char>>,
    pub depth: usize,
    pub start_byte: usize,
    pub end_byte: usize,
    pub start_row: usize,
    pub end_row: usize,
    pub end_column: usize,
}

impl View for SyntaxNode {
    type V = NodeModel;

    open spec fn view(&self) -> NodeModel {
        NodeModel {
            kind: self.kind@,
            field: match self.field {
                Some(f) => Some(f@),
                None => None,
            },
            depth: self.depth,
            start_byte: self.start_byte,
            end_byte: self.end_byte,
            start_row: self.start_row,
            end_row: self.end_row,
            end_column: self.end_column,
        }
    }
}

/// The value of a syntax tree.
pub struct TreeModel {
    pub nodes: Seq<NodeModel>,
    pub has_error: bool,
}

/// The values of a list of nodes.
pub open spec fn node_models(v: Seq<SyntaxNode>) -> Seq<NodeModel> {
    v.map_values(|n: SyntaxNode| n@)
}

impl View for SyntaxTree {
    type V = TreeModel;

    open spec fn view(&self) -> TreeModel {
        TreeModel { nodes: node_models(self.nodes@), has_error: self.has_error }
    }
}

/// The syntax tree that Tree-sitter makes of a text, where it makes one.
pub uninterp spec fn syntax_tree(grammar: Grammar, content: Seq<char>) -> Option<TreeModel>;

/// The value of a parse.
pub open spec fn parse_model(r: Option<SyntaxTree>) -> Option<TreeModel> {
    match r {
        Some(tree) => Some(tree@),
        None => None,
    }
}

/// The outside type of grammars.
#[verifier::external_type_specification]
#[verifier::external_body]
pub struct ExLanguage(tree_sitter::Language);

/// The grammar of a language, as its crate gives it.
#[verifier::external_body]
fn language_of(grammar: Grammar) -> tree_sitter::Language {
    match grammar {
        Grammar::Rust => tree_sitter_rust::LANGUAGE.into(),
        Grammar::JavaScript => tree_sitter_javascript::LANGUAGE.into(),
        Grammar::TypeScript => tree_sitter_typescript::LANGUAGE_TYPESCRIPT.into(),
        Grammar::Tsx => tree_sitter_typescript::LANGUAGE_TSX.into(),
        Grammar::Python => tree_sitter_python::LANGUAGE.into(),
        Grammar::Java => tree_sitter_java::LANGUAGE.into(),
        Grammar::Go => tree_sitter_go::LANGUAGE.into(),
        Grammar::C => tree_sitter_c::LANGUAGE.into(),
        Grammar::Cpp => tree_sitter_cpp::LANGUAGE.into(),
    }
}

/// The outside type of positions in a tree.
#[verifier::external_type_specification]
#[verifier::external_body]
pub struct ExTreeCursor<'a>(tree_sitter::TreeCursor<'a>);

/// The node that a cursor is at, field by field.
#[verifier::external_body]
fn node_at(cursor: &tree_sitter::TreeCursor<'_>) -> SyntaxNode {
    let (node, range) = (cursor.node(), cursor.node().range());
    SyntaxNode {
        kind: node.kind().into(),
        field: cursor.field_name().map(String::from),
        depth: cursor.depth() as usize,
        start_byte: range.start_byte,
        end_byte: range.end_byte,
        start_row: range.start_point.row,
        end_row: range.end_point.row,
        end_column: range.end_point.column,
    }
}

/// `tree_sitter::Parser::parse` with one of the grammars, as a list of the
/// nodes that `TreeCursor::goto_descendant` goes to, from the root on. The tree
/// is a function of the grammar and the text alone.
#[verifier::external_body]
pub(crate) fn parse_tree(grammar: Grammar, content: &str) -> (r: Option<SyntaxTree>)
    ensures
        parse_model(r) == syntax_tree(grammar, content@),
{
    let mut parser = tree_sitter::Parser::new();
    parser.set_language(&language_of(grammar)).ok()?;
    let tree = parser.parse(content, None)?;
    let (root, mut cursor) = (tree.root_node(), tree.walk());
    let nodes = (0..root.descendant_count()).map(|i| {
        cursor.goto_descendant(i);
        node_at(&cursor)
    });
    Some(SyntaxTree { nodes: nodes.collect(), has_error: root.has_error() })
}

// ---------------------------------------------------------------------------
// Relations of nodes
// ---------------------------------------------------------------------------

/// The last of the nodes up to `at` that lies less deep than `depth`.
pub open spec fn less_deep(nodes: Seq<NodeModel>, depth: usize, at: int) -> Option<int>
    decreases at + 1,
{
    if at < 0 || at >= nodes.len() {
        None
    } else if nodes[at].depth < depth {
        Some(at)
    } else {
        less_deep(nodes, depth, at - 1)
    }
}

/// The parent of a node: the last one before it that lies less deep.
pub open spec fn parent(nodes: Seq<NodeModel>, i: int) -> Option<int> {
    less_deep(nodes, nodes[i].depth, i - 1)
}

/// The first child of a node, from position `from` on, with this field name.
pub open spec fn child_from(
    nodes: Seq<NodeModel>,
    i: int,
    field: Seq<char>,
    from: int,
) -> Option<int>
    decreases nodes.len() - from,
{
    if from < 0 || from >= nodes.len() || nodes[from].depth <= nodes[i].depth {
        None
    } else if nodes[from].depth == nodes[i].depth + 1 && nodes[from].field == Some(field) {
        Some(from)
    } else {
        child_from(nodes, i, field, from + 1)
    }
}

/// The first child of a node with this field name.
pub open spec fn child(nodes: Seq<NodeModel>, i: int, field: Seq<char>) -> Option<int> {
    child_from(nodes, i, field, i + 1)
}

/// The text of a node.
pub open spec fn node_text(nodes: Seq<NodeModel>, i: int, source: Seq<char>) -> Seq<char> {
    slice_or_empty(source, nodes[i].start_byte as int, nodes[i].end_byte as int)
}

pub proof fn lemma_less_deep(nodes: Seq<NodeModel>, depth: usize, at: int)
    requires
        at < nodes.len(),
    ensures
        match less_deep(nodes, depth, at) {
            Some(p) => 0 <= p <= at && nodes[p].depth < depth && forall|k: int|
                p < k <= at ==> (#[trigger] nodes[k]).depth >= depth,
            None => forall|k: int| 0 <= k <= at ==> (#[trigger] nodes[k]).depth >= depth,
        },
    decreases at + 1,
{
    if at >= 0 && nodes[at].depth >= depth {
        lemma_less_deep(nodes, depth, at - 1);
    }
}

/// A search may go on at a node found before all that lie deeper.
proof fn lemma_less_deep_skip(nodes: Seq<NodeModel>, depth: usize, at: int, next: int)
    requires
        -1 <= next <= at < nodes.len(),
        forall|k: int| next < k <= at ==> (#[trigger] nodes[k]).depth >= depth,
    ensures
        less_deep(nodes, depth, at) == less_deep(nodes, depth, next),
    decreases at - next,
{
    if next < at {
        assert(nodes[at].depth >= depth);
        lemma_less_deep_skip(nodes, depth, at - 1, next);
    }
}

pub proof fn lemma_child_from(nodes: Seq<NodeModel>, i: int, field: Seq<char>, from: int)
    requires
        0 <= from,
    ensures
        child_from(nodes, i, field, from) matches Some(c) ==> from <= c < nodes.len()
            && nodes[c].depth == nodes[i].depth + 1 && nodes[c].field == Some(field),
    decreases nodes.len() - from,
{
    if from < nodes.len() && nodes[from].depth > nodes[i].depth && !(nodes[from].depth
        == nodes[i].depth + 1 && nodes[from].field == Some(field)) {
        lemma_child_from(nodes, i, field, from + 1);
    }
}

/// The parents of all nodes.
pub fn parents(nodes: &Vec<SyntaxNode>) -> (r: Vec<Option<usize>>)
    ensures
        r@.len() == nodes@.len(),
        forall|i: int|
            0 <= i < r@.len() ==> match parent(node_models(nodes@), i) {
                Some(p) => #[trigger] r@[i] == Some(p as usize) && p < i,
                None => r@[i] is None,
            },
{
    let ghost ms = node_models(nodes@);
    let mut r: Vec<Option<usize>> = Vec::new();
    let mut i: usize = 0;
    while i < nodes.len()
        invariant
            i <= nodes@.len(),
            ms == node_models(nodes@),
            r@.len() == i,
            forall|k: int|
                0 <= k < i ==> match parent(ms, k) {
                    Some(p) => #[trigger] r@[k] == Some(p as usize) && p < k,
                    None => r@[k] is None,
                },
        decreases nodes@.len() - i,
    {
        let depth: usize = nodes[i].depth;
        let mut at: Option<usize> = if i == 0 {
            None
        } else {
            Some(i - 1)
        };
        let ghost goal = parent(ms, i as int);
        loop
            invariant
                i < nodes@.len(),
                ms == node_models(nodes@),
                r@.len() == i,
                depth == ms[i as int].depth,
                goal == parent(ms, i as int),
                forall|k: int|
                    0 <= k < i ==> match parent(ms, k) {
                        Some(p) => #[trigger] r@[k] == Some(p as usize) && p < k,
                        None => r@[k] is None,
                    },
                match at {
                    Some(a) => a < i && less_deep(ms, depth, a as int) == goal,
                    None => goal is None,
                },
            ensures
                match goal {
                    Some(p) => at == Some(p as usize) && p < i,
                    None => at is None,
                },
            decreases match at {
                Some(a) => a + 1,
                None => 0,
            },
        {
            match at {
                None => {
                    break;
                },
                Some(a) => {
                    assert(ms[a as int].depth == nodes@[a as int].depth);
                    if nodes[a].depth < depth {
                        break;
                    }
                    proof {
                        lemma_less_deep(ms, ms[a as int].depth, a - 1);
                        assert(r@[a as int] == r@[a as int]);
                        match parent(ms, a as int) {
                            Some(p) => {
                                lemma_less_deep_skip(ms, depth, a as int, p);
                            },
                            None => {
                                lemma_less_deep_skip(ms, depth, a as int, -1);
                            },
                        }
                    }
                    at = r[a];
                },
            }
        }
        r.push(at);
        i += 1;
    }
    r
}

/// The first child of a node with this field name.
pub fn find_child(nodes: &Vec<SyntaxNode>, i: usize, field: &str) -> (r: Option<usize>)
    requires
        i < nodes@.len(),
    ensures
        match child(node_models(nodes@), i as int, field@) {
            Some(c) => r is Some && r->0 == c,
            None => r is None,
        },
        r matches Some(c) ==> i < c < nodes@.len(),
{
    let ghost ms = node_models(nodes@);
    let depth: usize = nodes[i].depth;
    let count: usize = nodes.len();
    let mut from: usize = i + 1;
    while from < count
        invariant
            i < from <= count == nodes@.len(),
            ms == node_models(nodes@),
            depth == ms[i as int].depth,
            child_from(ms, i as int, field@, from as int) == child(ms, i as int, field@),
        decreases nodes@.len() - from,
    {
        assert(ms[from as int] == nodes@[from as int]@);
        if nodes[from].depth <= depth {
            return None;
        }
        if nodes[from].depth - 1 == depth {
            if let Some(name) = &nodes[from].field {
                if same(name.as_str(), field) {
                    return Some(from);
                }
            }
        }
        from += 1;
    }
    None
}

/// The text of a node.
pub fn text_at(nodes: &Vec<SyntaxNode>, i: usize, source: &str) -> (r: String)
    requires
        i < nodes@.len(),
    ensures
        r@ == node_text(node_models(nodes@), i as int, source@),
{
    bytes_or_empty(source, nodes[i].start_byte, nodes[i].end_byte)
}

} // verus!
