//! The symbols and relations of one source file. Edges describe syntax, never
//! proven dispatch.

use vstd::prelude::*;
use vstd::string::StringExecFns;
use vstd::utf8::encode_utf8;

use crate::source::{digest, hash};
use crate::syntax::{
    child, find_child, lemma_less_deep, node_models, node_text, parent, parents, text_at, NodeModel,
    SyntaxNode, SyntaxTree, TreeModel,
};
use crate::text::{decimal, joined, number, same};

verus! {

/// Where something stands, in bytes and in lines.
#[derive(Clone, Copy, Debug, PartialEq, Eq, Structural)]
pub struct Span {
    pub start_byte: usize,
    pub end_byte: usize,
    pub start: u32,
    pub end: u32,
}

/// A declaration.
pub struct Symbol {
    pub id: String,
    pub name: String,
    pub qualified_name: String,
    pub kind: String,
    pub parent: Option<String>,
    pub span: Span,
    pub signature: Span,
}

/// A relation of a symbol.
pub struct Edge {
    pub source: String,
    pub kind: String,
    /// The exact callee or dependency expression.
    pub target: String,
    pub span: Span,
}

/// The symbols and relations of one file.
pub struct CodeGraph {
    pub symbols: Vec<Symbol>,
    pub edges: Vec<Edge>,
    pub parse_errors: bool,
    pub supported: bool,
}

/// The value of a symbol.
pub struct SymbolModel {
    pub id: Seq<char>,
    pub name: Seq<char>,
    pub qualified_name: Seq<char>,
    pub kind: Seq<char>,
    pub parent: Option<Seq<char>>,
    pub span: Span,
    pub signature: Span,
}

impl View for Symbol {
    type V = SymbolModel;

    open spec fn view(&self) -> SymbolModel {
        SymbolModel {
            id: self.id@,
            name: self.name@,
            qualified_name: self.qualified_name@,
            kind: self.kind@,
            parent: match self.parent {
                Some(p) => Some(p@),
                None => None,
            },
            span: self.span,
            signature: self.signature,
        }
    }
}

/// The value of an edge.
pub struct EdgeModel {
    pub source: Seq<char>,
    pub kind: Seq<char>,
    pub target: Seq<char>,
    pub span: Span,
}

impl View for Edge {
    type V = EdgeModel;

    open spec fn view(&self) -> EdgeModel {
        EdgeModel {
            source: self.source@,
            kind: self.kind@,
            target: self.target@,
            span: self.span,
        }
    }
}

/// The values of a list of symbols.
pub open spec fn symbol_models(v: Seq<Symbol>) -> Seq<SymbolModel> {
    v.map_values(|s: Symbol| s@)
}

/// The values of a list of edges.
pub open spec fn edge_models(v: Seq<Edge>) -> Seq<EdgeModel> {
    v.map_values(|e: Edge| e@)
}

/// The value of a graph.
pub struct GraphModel {
    pub symbols: Seq<SymbolModel>,
    pub edges: Seq<EdgeModel>,
    pub parse_errors: bool,
    pub supported: bool,
}

impl View for CodeGraph {
    type V = GraphModel;

    open spec fn view(&self) -> GraphModel {
        GraphModel {
            symbols: symbol_models(self.symbols@),
            edges: edge_models(self.edges@),
            parse_errors: self.parse_errors,
            supported: self.supported,
        }
    }
}

// ---------------------------------------------------------------------------
// Spans
// ---------------------------------------------------------------------------

/// A row as a line number, as far as a number holds.
pub open spec fn line_of(row: nat) -> u32 {
    if row >= u32::MAX {
        u32::MAX
    } else {
        (row + 1) as u32
    }
}

/// The last line of something that ends at a row and a column: a line that is
/// only touched at its beginning does not count.
pub open spec fn last_line(row: nat, column: usize) -> u32 {
    if column > 0 {
        line_of(row)
    } else if row >= u32::MAX {
        u32::MAX
    } else {
        row as u32
    }
}

/// Where a node stands.
pub open spec fn span_of(n: NodeModel) -> Span {
    Span {
        start_byte: n.start_byte,
        end_byte: n.end_byte,
        start: line_of(n.start_row as nat),
        end: last_line(n.end_row as nat, n.end_column),
    }
}

/// A row as a line number.
pub fn to_line(row: usize) -> (r: u32)
    ensures
        r == line_of(row as nat),
{
    if row >= u32::MAX as usize {
        u32::MAX
    } else {
        row as u32 + 1
    }
}

impl Span {
    /// Where a node stands.
    pub fn of(node: &SyntaxNode) -> (r: Span)
        ensures
            r == span_of(node@),
    {
        Span {
            start_byte: node.start_byte,
            end_byte: node.end_byte,
            start: to_line(node.start_row),
            end: if node.end_column > 0 {
                to_line(node.end_row)
            } else if node.end_row >= u32::MAX as usize {
                u32::MAX
            } else {
                node.end_row as u32
            },
        }
    }

    /// A line is one of the span's.
    pub open spec fn has_line(self, line: u32) -> bool {
        self.start <= line <= self.end
    }

    /// Some line from `start` to `end` is one of the span's.
    pub open spec fn meets(self, start: u32, end: u32) -> bool {
        exists|line: u32| start <= line <= end && #[trigger] self.has_line(line)
    }

    /// The span ends no earlier, and begins no later, than the lines from
    /// `start` to `end`.
    pub open spec fn reaches(self, start: u32, end: u32) -> bool {
        self.start <= end && self.end >= start
    }

    /// Whether the span reaches the lines from `start` to `end`.
    pub fn overlaps(&self, start: u32, end: u32) -> (r: bool)
        ensures
            r == self.reaches(start, end),
            self.start <= self.end && start <= end ==> r == self.meets(start, end),
    {
        proof {
            if self.start <= end && self.end >= start && self.start <= self.end && start <= end {
                let line = if self.start < start {
                    start
                } else {
                    self.start
                };
                assert(self.has_line(line));
            }
        }
        self.start <= end && self.end >= start
    }
}

// ---------------------------------------------------------------------------
// Kinds
// ---------------------------------------------------------------------------

/// One of the names is this one.
pub open spec fn one_of(name: Seq<char>, names: Seq<&str>) -> bool {
    exists|i: int| 0 <= i < names.len() && (#[trigger] names[i])@ == name
}

/// Whether one of the names is this one.
pub fn is_one_of(name: &str, names: &[&str]) -> (r: bool)
    ensures
        r == one_of(name@, names@),
{
    let mut i: usize = 0;
    while i < names.len()
        invariant
            i <= names@.len(),
            forall|k: int| 0 <= k < i ==> (#[trigger] names@[k])@ != name@,
        decreases names@.len() - i,
    {
        if same(names[i], name) {
            return true;
        }
        i += 1;
    }
    false
}

/// Node kinds of functions.
pub open spec fn function_kinds() -> Seq<&'static str> {
    seq![
        "function_item",
        "function_definition",
        "function_declaration",
        "generator_function_declaration",
        "function_signature",
    ]
}

/// Node kinds of methods.
pub open spec fn method_kinds() -> Seq<&'static str> {
    seq![
        "method_definition",
        "method_declaration",
        "constructor_declaration",
        "method_signature",
    ]
}

/// Node kinds of closures.
pub open spec fn closure_kinds() -> Seq<&'static str> {
    seq!["arrow_function", "function_expression", "lambda", "closure_expression"]
}

/// Node kinds of classes.
pub open spec fn class_kinds() -> Seq<&'static str> {
    seq!["class_definition", "class_declaration", "class_specifier", "class"]
}

/// Node kinds of other types.
pub open spec fn type_kinds() -> Seq<&'static str> {
    seq![
        "struct_item",
        "struct_specifier",
        "enum_item",
        "enum_declaration",
        "enum_specifier",
        "type_spec",
        "type_alias_declaration",
        "type_item",
    ]
}

/// Node kinds of interfaces.
pub open spec fn interface_kinds() -> Seq<&'static str> {
    seq!["trait_item", "interface_declaration"]
}

/// Node kinds of modules.
pub open spec fn module_kinds() -> Seq<&'static str> {
    seq!["mod_item", "namespace_definition"]
}

/// The kind of symbol that a kind of node declares.
pub open spec fn symbol_kind_of(kind: Seq<char>) -> Option<Seq<char>> {
    if one_of(kind, function_kinds()) {
        Some("function"@)
    } else if one_of(kind, method_kinds()) {
        Some("method"@)
    } else if one_of(kind, closure_kinds()) {
        Some("closure"@)
    } else if one_of(kind, class_kinds()) {
        Some("class"@)
    } else if one_of(kind, type_kinds()) {
        Some("type"@)
    } else if one_of(kind, interface_kinds()) {
        Some("interface"@)
    } else if kind == "impl_item"@ {
        Some("implementation"@)
    } else if one_of(kind, module_kinds()) {
        Some("module"@)
    } else {
        None
    }
}

/// The kind of symbol that a kind of node declares.
pub fn symbol_kind(kind: &str) -> (r: Option<&'static str>)
    ensures
        match symbol_kind_of(kind@) {
            Some(k) => r is Some && r->0@ == k,
            None => r is None,
        },
{
    let functions = [
        "function_item",
        "function_definition",
        "function_declaration",
        "generator_function_declaration",
        "function_signature",
    ];
    assert(functions@ =~= function_kinds());
    if is_one_of(kind, &functions) {
        return Some("function");
    }
    let methods = [
        "method_definition",
        "method_declaration",
        "constructor_declaration",
        "method_signature",
    ];
    assert(methods@ =~= method_kinds());
    if is_one_of(kind, &methods) {
        return Some("method");
    }
    let closures = ["arrow_function", "function_expression", "lambda", "closure_expression"];
    assert(closures@ =~= closure_kinds());
    if is_one_of(kind, &closures) {
        return Some("closure");
    }
    let classes = ["class_definition", "class_declaration", "class_specifier", "class"];
    assert(classes@ =~= class_kinds());
    if is_one_of(kind, &classes) {
        return Some("class");
    }
    let types = [
        "struct_item",
        "struct_specifier",
        "enum_item",
        "enum_declaration",
        "enum_specifier",
        "type_spec",
        "type_alias_declaration",
        "type_item",
    ];
    assert(types@ =~= type_kinds());
    if is_one_of(kind, &types) {
        return Some("type");
    }
    let interfaces = ["trait_item", "interface_declaration"];
    assert(interfaces@ =~= interface_kinds());
    if is_one_of(kind, &interfaces) {
        return Some("interface");
    }
    if same(kind, "impl_item") {
        return Some("implementation");
    }
    let modules = ["mod_item", "namespace_definition"];
    assert(modules@ =~= module_kinds());
    if is_one_of(kind, &modules) {
        return Some("module");
    }
    None
}

/// Node kinds of calls.
pub open spec fn call_kinds() -> Seq<&'static str> {
    seq![
        "call_expression",
        "call",
        "method_invocation",
        "new_expression",
        "object_creation_expression",
        "macro_invocation",
    ]
}

/// Node kinds of imports.
pub open spec fn import_kinds() -> Seq<&'static str> {
    seq![
        "import_statement",
        "import_from_statement",
        "import_declaration",
        "use_declaration",
        "import_spec",
        "preproc_include",
    ]
}

/// Node kinds of inheritance.
pub open spec fn inherit_kinds() -> Seq<&'static str> {
    seq![
        "superclass",
        "super_interfaces",
        "base_class_clause",
        "extends_clause",
        "extends_type_clause",
        "implements_clause",
        "trait_bounds",
    ]
}

/// Node kinds of branches.
pub open spec fn branch_kinds() -> Seq<&'static str> {
    seq![
        "if_expression",
        "if_statement",
        "match_expression",
        "match_statement",
        "switch_statement",
        "switch_expression",
        "conditional_expression",
        "match_arm",
        "case_clause",
        "except_clause",
        "catch_clause",
        "for_statement",
        "for_expression",
        "while_statement",
        "while_expression",
    ]
}

/// Node kinds of returns.
pub open spec fn return_kinds() -> Seq<&'static str> {
    seq!["return_statement", "return_expression", "yield", "yield_expression"]
}

/// Node kinds of error paths.
pub open spec fn error_kinds() -> Seq<&'static str> {
    seq!["throw_statement", "throw_expression", "raise_statement", "try_expression"]
}

/// Node kinds of awaits.
pub open spec fn await_kinds() -> Seq<&'static str> {
    seq!["await_expression", "await"]
}

/// Node kinds of writes.
pub open spec fn write_kinds() -> Seq<&'static str> {
    seq![
        "assignment_expression",
        "assignment",
        "augmented_assignment",
        "compound_assignment_expr",
        "assignment_statement",
    ]
}

/// The kind of relation that a kind of node states.
pub open spec fn edge_kind_of(kind: Seq<char>) -> Option<Seq<char>> {
    if one_of(kind, call_kinds()) {
        Some("calls"@)
    } else if one_of(kind, import_kinds()) {
        Some("imports"@)
    } else if one_of(kind, inherit_kinds()) {
        Some("inherits"@)
    } else if one_of(kind, branch_kinds()) {
        Some("branch"@)
    } else if one_of(kind, return_kinds()) {
        Some("returns"@)
    } else if one_of(kind, error_kinds()) {
        Some("error_path"@)
    } else if one_of(kind, await_kinds()) {
        Some("awaits"@)
    } else if one_of(kind, write_kinds()) {
        Some("writes"@)
    } else {
        None
    }
}

/// The kind of relation that a kind of node states.
pub fn edge_kind(kind: &str) -> (r: Option<&'static str>)
    ensures
        match edge_kind_of(kind@) {
            Some(k) => r is Some && r->0@ == k,
            None => r is None,
        },
{
    let calls = [
        "call_expression",
        "call",
        "method_invocation",
        "new_expression",
        "object_creation_expression",
        "macro_invocation",
    ];
    assert(calls@ =~= call_kinds());
    if is_one_of(kind, &calls) {
        return Some("calls");
    }
    let imports = [
        "import_statement",
        "import_from_statement",
        "import_declaration",
        "use_declaration",
        "import_spec",
        "preproc_include",
    ];
    assert(imports@ =~= import_kinds());
    if is_one_of(kind, &imports) {
        return Some("imports");
    }
    let inherits = [
        "superclass",
        "super_interfaces",
        "base_class_clause",
        "extends_clause",
        "extends_type_clause",
        "implements_clause",
        "trait_bounds",
    ];
    assert(inherits@ =~= inherit_kinds());
    if is_one_of(kind, &inherits) {
        return Some("inherits");
    }
    let branches = [
        "if_expression",
        "if_statement",
        "match_expression",
        "match_statement",
        "switch_statement",
        "switch_expression",
        "conditional_expression",
        "match_arm",
        "case_clause",
        "except_clause",
        "catch_clause",
        "for_statement",
        "for_expression",
        "while_statement",
        "while_expression",
    ];
    assert(branches@ =~= branch_kinds());
    if is_one_of(kind, &branches) {
        return Some("branch");
    }
    let exits = ["return_statement", "return_expression", "yield", "yield_expression"];
    assert(exits@ =~= return_kinds());
    if is_one_of(kind, &exits) {
        return Some("returns");
    }
    let errors = ["throw_statement", "throw_expression", "raise_statement", "try_expression"];
    assert(errors@ =~= error_kinds());
    if is_one_of(kind, &errors) {
        return Some("error_path");
    }
    let awaits = ["await_expression", "await"];
    assert(awaits@ =~= await_kinds());
    if is_one_of(kind, &awaits) {
        return Some("awaits");
    }
    let writes = [
        "assignment_expression",
        "assignment",
        "augmented_assignment",
        "compound_assignment_expr",
        "assignment_statement",
    ];
    assert(writes@ =~= write_kinds());
    if is_one_of(kind, &writes) {
        return Some("writes");
    }
    None
}

// ---------------------------------------------------------------------------
// Names
// ---------------------------------------------------------------------------

/// The innermost declarator inside a declarator.
pub open spec fn innermost(nodes: Seq<NodeModel>, i: int) -> int
    decreases nodes.len() - i,
{
    match child(nodes, i, "declarator"@) {
        Some(c) if i < c < nodes.len() => innermost(nodes, c),
        _ => i,
    }
}

/// Kinds of parents that name an anonymous function.
pub open spec fn naming_kinds() -> Seq<&'static str> {
    seq!["variable_declarator", "assignment", "pair"]
}

/// The child that names what a parent assigns.
pub open spec fn assigned_name(nodes: Seq<NodeModel>, p: int) -> Option<int> {
    if child(nodes, p, "name"@) is Some {
        child(nodes, p, "name"@)
    } else if child(nodes, p, "left"@) is Some {
        child(nodes, p, "left"@)
    } else {
        child(nodes, p, "key"@)
    }
}

/// The node that names a declaration: its own name, its innermost declarator,
/// its type, or what it is assigned to.
pub open spec fn naming_node(nodes: Seq<NodeModel>, i: int) -> Option<int> {
    if child(nodes, i, "name"@) is Some {
        child(nodes, i, "name"@)
    } else if let Some(d) = child(nodes, i, "declarator"@) {
        Some(innermost(nodes, d))
    } else if child(nodes, i, "type"@) is Some {
        child(nodes, i, "type"@)
    } else {
        match parent(nodes, i) {
            Some(p) if one_of(nodes[p].kind, naming_kinds()) => assigned_name(nodes, p),
            _ => None,
        }
    }
}

/// The name of a declaration; one that nothing names is called by its kind and
/// place.
pub open spec fn name_of(nodes: Seq<NodeModel>, i: int, source: Seq<char>) -> Seq<char> {
    match naming_node(nodes, i) {
        Some(n) => node_text(nodes, n, source),
        None => "<"@ + nodes[i].kind + "@"@ + decimal(nodes[i].start_byte as nat) + ">"@,
    }
}

/// The innermost declarator inside a declarator.
fn find_innermost(nodes: &Vec<SyntaxNode>, i: usize) -> (r: usize)
    requires
        i < nodes@.len(),
    ensures
        r == innermost(node_models(nodes@), i as int),
        r < nodes@.len(),
{
    let ghost ms = node_models(nodes@);
    let mut at: usize = i;
    loop
        invariant
            at < nodes@.len(),
            ms == node_models(nodes@),
            innermost(ms, at as int) == innermost(ms, i as int),
        decreases nodes@.len() - at,
    {
        match find_child(nodes, at, "declarator") {
            Some(c) => {
                at = c;
            },
            None => {
                return at;
            },
        }
    }
}

/// The name of a declaration.
fn declaration_name(nodes: &Vec<SyntaxNode>, i: usize, above: Option<usize>, source: &str) -> (r:
    String)
    requires
        i < nodes@.len(),
        match parent(node_models(nodes@), i as int) {
            Some(p) => above == Some(p as usize) && p < i,
            None => above is None,
        },
    ensures
        r@ == name_of(node_models(nodes@), i as int, source@),
{
    let ghost ms = node_models(nodes@);
    proof {
        lemma_less_deep(ms, ms[i as int].depth, i - 1);
    }
    if let Some(c) = find_child(nodes, i, "name") {
        return text_at(nodes, c, source);
    }
    if let Some(d) = find_child(nodes, i, "declarator") {
        let at = find_innermost(nodes, d);
        return text_at(nodes, at, source);
    }
    if let Some(c) = find_child(nodes, i, "type") {
        return text_at(nodes, c, source);
    }
    if let Some(p) = above {
        let kinds = ["variable_declarator", "assignment", "pair"];
        assert(kinds@ =~= naming_kinds());
        assert(ms[p as int].kind == nodes@[p as int].kind@);
        if is_one_of(nodes[p].kind.as_str(), &kinds) {
            if let Some(c) = find_child(nodes, p, "name") {
                return text_at(nodes, c, source);
            }
            if let Some(c) = find_child(nodes, p, "left") {
                return text_at(nodes, c, source);
            }
            if let Some(c) = find_child(nodes, p, "key") {
                return text_at(nodes, c, source);
            }
        }
    }
    let mut s = String::from_str("<");
    s.push_str(nodes[i].kind.as_str());
    s.push_str("@");
    s.push_str(number(nodes[i].start_byte as u64).as_str());
    s.push_str(">");
    s
}

// ---------------------------------------------------------------------------
// Extraction
// ---------------------------------------------------------------------------

/// A graph in the making: the symbols and edges so far, and for every node met
/// the position of the symbol that it belongs to.
pub struct Making {
    pub symbols: Seq<SymbolModel>,
    pub edges: Seq<EdgeModel>,
    pub owners: Seq<usize>,
}

/// The symbol that a node stands in: that of its parent, or the file.
pub open spec fn scope_of(nodes: Seq<NodeModel>, i: int, owners: Seq<usize>) -> usize {
    match parent(nodes, i) {
        Some(p) => owners[p],
        None => 0,
    }
}

/// The id of a declaration: its kind and its bytes.
pub open spec fn symbol_id(n: NodeModel) -> Seq<char> {
    n.kind + ":"@ + decimal(n.start_byte as nat) + ":"@ + decimal(n.end_byte as nat)
}

/// The signature of a declaration ends where its body begins.
pub open spec fn signature_of(nodes: Seq<NodeModel>, i: int) -> Span {
    let span = span_of(nodes[i]);
    match child(nodes, i, "body"@) {
        Some(b) => Span {
            end_byte: nodes[b].start_byte,
            end: line_of(nodes[b].start_row as nat),
            ..span
        },
        None => span,
    }
}

/// The qualified name of a declaration: under the symbol that it stands in, or
/// under its receiver.
pub open spec fn qualified(
    nodes: Seq<NodeModel>,
    i: int,
    source: Seq<char>,
    symbols: Seq<SymbolModel>,
    scope: usize,
) -> Seq<char> {
    let name = name_of(nodes, i, source);
    if scope == 0 {
        match child(nodes, i, "receiver"@) {
            Some(c) => node_text(nodes, c, source) + "::"@ + name,
            None => name,
        }
    } else {
        symbols[scope as int].qualified_name + "::"@ + name
    }
}

/// The symbol that a node declares.
pub open spec fn declared(
    nodes: Seq<NodeModel>,
    i: int,
    source: Seq<char>,
    symbols: Seq<SymbolModel>,
    scope: usize,
    kind: Seq<char>,
) -> SymbolModel {
    SymbolModel {
        id: symbol_id(nodes[i]),
        name: name_of(nodes, i, source),
        qualified_name: qualified(nodes, i, source, symbols, scope),
        kind,
        parent: Some(symbols[scope as int].id),
        span: span_of(nodes[i]),
        signature: signature_of(nodes, i),
    }
}

/// Operators that decide whether their right side is evaluated.
pub open spec fn deciding_operators() -> Seq<&'static str> {
    seq!["&&", "||", "??", "and", "or"]
}

/// Node kinds of operators with two sides.
pub open spec fn operator_kinds() -> Seq<&'static str> {
    seq!["binary_expression", "boolean_operator", "binary_operator"]
}

/// A node evaluates its right side only under a condition.
pub open spec fn short_circuits(nodes: Seq<NodeModel>, i: int, source: Seq<char>) -> bool {
    one_of(nodes[i].kind, operator_kinds()) && match child(nodes, i, "operator"@) {
        Some(c) => one_of(node_text(nodes, c, source), deciding_operators()),
        None => false,
    }
}

/// The relation that a node states.
pub open spec fn relation(nodes: Seq<NodeModel>, i: int, source: Seq<char>) -> Option<Seq<char>> {
    match edge_kind_of(nodes[i].kind) {
        Some(kind) => Some(kind),
        None => if short_circuits(nodes, i, source) {
            Some("branch"@)
        } else {
            None
        },
    }
}

/// The node that a call calls.
pub open spec fn callee_node(nodes: Seq<NodeModel>, i: int) -> Option<int> {
    if child(nodes, i, "function"@) is Some {
        child(nodes, i, "function"@)
    } else if child(nodes, i, "name"@) is Some {
        child(nodes, i, "name"@)
    } else if child(nodes, i, "macro"@) is Some {
        child(nodes, i, "macro"@)
    } else {
        child(nodes, i, "type"@)
    }
}

/// What a call calls, behind the object that it is called on.
pub open spec fn callee(nodes: Seq<NodeModel>, i: int, source: Seq<char>) -> Seq<char> {
    let name = match callee_node(nodes, i) {
        Some(c) => node_text(nodes, c, source),
        None => Seq::empty(),
    };
    match child(nodes, i, "object"@) {
        Some(c) => node_text(nodes, c, source) + "."@ + name,
        None => name,
    }
}

/// The target of a relation.
pub open spec fn target_of(
    nodes: Seq<NodeModel>,
    i: int,
    source: Seq<char>,
    kind: Seq<char>,
) -> Seq<char> {
    if kind == "calls"@ {
        callee(nodes, i, source)
    } else if kind == "imports"@ || kind == "inherits"@ {
        node_text(nodes, i, source)
    } else {
        Seq::empty()
    }
}

/// The base classes that a node names.
pub open spec fn base_edge(
    nodes: Seq<NodeModel>,
    i: int,
    source: Seq<char>,
    owner: Seq<char>,
) -> Seq<EdgeModel> {
    match child(nodes, i, "superclasses"@) {
        Some(c) => seq![
            EdgeModel {
                source: owner,
                kind: "inherits"@,
                target: node_text(nodes, c, source),
                span: span_of(nodes[c]),
            },
        ],
        None => Seq::empty(),
    }
}

/// The relation that a node states, as an edge.
pub open spec fn own_edge(
    nodes: Seq<NodeModel>,
    i: int,
    source: Seq<char>,
    owner: Seq<char>,
) -> Seq<EdgeModel> {
    match relation(nodes, i, source) {
        Some(kind) => seq![
            EdgeModel {
                source: owner,
                kind,
                target: target_of(nodes, i, source, kind),
                span: span_of(nodes[i]),
            },
        ],
        None => Seq::empty(),
    }
}

/// What a node adds to a graph. A node that declares a symbol opens its scope.
pub open spec fn visit(nodes: Seq<NodeModel>, i: int, source: Seq<char>, m: Making) -> Making {
    let scope = scope_of(nodes, i, m.owners);
    let (symbols, current) = match symbol_kind_of(nodes[i].kind) {
        Some(kind) => (
            m.symbols.push(declared(nodes, i, source, m.symbols, scope, kind)),
            m.symbols.len() as usize,
        ),
        None => (m.symbols, scope),
    };
    let owner = symbols[current as int].id;
    Making {
        symbols,
        edges: m.edges + base_edge(nodes, i, source, owner) + own_edge(nodes, i, source, owner),
        owners: m.owners.push(current),
    }
}

/// The symbol of the file itself.
pub open spec fn file_symbol(root: NodeModel) -> SymbolModel {
    SymbolModel {
        id: "file"@,
        name: "<file>"@,
        qualified_name: "<file>"@,
        kind: "file"@,
        parent: None,
        span: span_of(root),
        signature: span_of(root),
    }
}

/// What the first `count` nodes make.
pub open spec fn made(nodes: Seq<NodeModel>, source: Seq<char>, count: nat) -> Making
    decreases count,
{
    if count == 0 {
        Making {
            symbols: seq![file_symbol(nodes[0])],
            edges: Seq::empty(),
            owners: Seq::empty(),
        }
    } else {
        visit(nodes, count - 1, source, made(nodes, source, (count - 1) as nat))
    }
}

/// The graph of a syntax tree.
pub open spec fn graph_of(tree: TreeModel, source: Seq<char>) -> GraphModel {
    let m = made(tree.nodes, source, tree.nodes.len());
    GraphModel {
        symbols: m.symbols,
        edges: m.edges,
        parse_errors: tree.has_error,
        supported: true,
    }
}

/// Some symbol has this id.
pub open spec fn has_symbol(symbols: Seq<SymbolModel>, id: Seq<char>) -> bool {
    exists|k: int| 0 <= k < symbols.len() && (#[trigger] symbols[k]).id == id
}

/// Every edge starts at a symbol of the graph.
pub open spec fn grounded(g: GraphModel) -> bool {
    forall|e: int| 0 <= e < g.edges.len() ==> has_symbol(g.symbols, (#[trigger] g.edges[e]).source)
}

/// The nodes met so far belong to symbols that were found.
proof fn lemma_made(nodes: Seq<NodeModel>, source: Seq<char>, count: nat)
    requires
        count <= nodes.len() < usize::MAX,
    ensures
        ({
            let m = made(nodes, source, count);
            &&& 1 <= m.symbols.len() <= count + 1
            &&& m.owners.len() == count
            &&& forall|k: int| 0 <= k < count ==> (#[trigger] m.owners[k]) < m.symbols.len()
            &&& forall|e: int|
                0 <= e < m.edges.len() ==> has_symbol(m.symbols, (#[trigger] m.edges[e]).source)
        }),
    decreases count,
{
    if count > 0 {
        lemma_made(nodes, source, (count - 1) as nat);
        let before = made(nodes, source, (count - 1) as nat);
        let now = made(nodes, source, count);
        let i = count - 1;
        lemma_less_deep(nodes, nodes[i].depth, i - 1);
        let scope = scope_of(nodes, i, before.owners);
        assert(scope < before.symbols.len());
        let current = now.owners[i];
        assert(current < now.symbols.len());
        let owner = now.symbols[current as int].id;
        assert forall|e: int| 0 <= e < now.edges.len() implies has_symbol(
            now.symbols,
            (#[trigger] now.edges[e]).source,
        ) by {
            if e < before.edges.len() {
                assert(now.edges[e] == before.edges[e]);
                let k = choose|k: int|
                    0 <= k < before.symbols.len() && (#[trigger] before.symbols[k]).id
                        == before.edges[e].source;
                assert(now.symbols[k].id == now.edges[e].source);
            } else {
                assert(now.edges[e].source == owner);
                assert(now.symbols[current as int].id == owner);
            }
        }
        assert forall|k: int| 0 <= k < count implies (#[trigger] now.owners[k])
            < now.symbols.len() by {
            if k < count - 1 {
                assert(now.owners[k] == before.owners[k]);
            }
        }
    }
}

/// Every relation of a file starts at one of its symbols, and the file itself is
/// the first of them.
pub proof fn relations_start_at_symbols(tree: TreeModel, source: Seq<char>)
    requires
        0 < tree.nodes.len() < usize::MAX,
    ensures
        grounded(graph_of(tree, source)),
        graph_of(tree, source).symbols.len() > 0,
        graph_of(tree, source).symbols[0] == file_symbol(tree.nodes[0]),
{
    lemma_made(tree.nodes, source, tree.nodes.len());
    lemma_first_symbol(tree.nodes, source, tree.nodes.len());
}

proof fn lemma_first_symbol(nodes: Seq<NodeModel>, source: Seq<char>, count: nat)
    ensures
        made(nodes, source, count).symbols.len() > 0,
        made(nodes, source, count).symbols[0] == file_symbol(nodes[0]),
    decreases count,
{
    if count > 0 {
        lemma_first_symbol(nodes, source, (count - 1) as nat);
    }
}

/// Whether a node evaluates its right side only under a condition.
fn is_short_circuit(nodes: &Vec<SyntaxNode>, i: usize, source: &str) -> (r: bool)
    requires
        i < nodes@.len(),
    ensures
        r == short_circuits(node_models(nodes@), i as int, source@),
{
    let kinds = ["binary_expression", "boolean_operator", "binary_operator"];
    assert(kinds@ =~= operator_kinds());
    if !is_one_of(nodes[i].kind.as_str(), &kinds) {
        return false;
    }
    match find_child(nodes, i, "operator") {
        Some(c) => {
            let operators = ["&&", "||", "??", "and", "or"];
            assert(operators@ =~= deciding_operators());
            let text = text_at(nodes, c, source);
            is_one_of(text.as_str(), &operators)
        },
        None => false,
    }
}

/// What a call calls.
fn callee_text(nodes: &Vec<SyntaxNode>, i: usize, source: &str) -> (r: String)
    requires
        i < nodes@.len(),
    ensures
        r@ == callee(node_models(nodes@), i as int, source@),
{
    let found = match find_child(nodes, i, "function") {
        Some(c) => Some(c),
        None => match find_child(nodes, i, "name") {
            Some(c) => Some(c),
            None => match find_child(nodes, i, "macro") {
                Some(c) => Some(c),
                None => find_child(nodes, i, "type"),
            },
        },
    };
    let name = match found {
        Some(c) => text_at(nodes, c, source),
        None => String::new(),
    };
    match find_child(nodes, i, "object") {
        Some(c) => {
            let mut s = text_at(nodes, c, source);
            s.push_str(".");
            s.push_str(name.as_str());
            s
        },
        None => name,
    }
}

/// The symbol that a node declares.
fn declare(
    nodes: &Vec<SyntaxNode>,
    i: usize,
    above: Option<usize>,
    source: &str,
    symbols: &Vec<Symbol>,
    scope: usize,
    kind: &str,
) -> (r: Symbol)
    requires
        i < nodes@.len(),
        scope < symbols@.len(),
        match parent(node_models(nodes@), i as int) {
            Some(p) => above == Some(p as usize) && p < i,
            None => above is None,
        },
    ensures
        r@ == declared(
            node_models(nodes@),
            i as int,
            source@,
            symbol_models(symbols@),
            scope,
            kind@,
        ),
{
    let node = &nodes[i];
    assert(node_models(nodes@)[i as int] == node@);
    let name = declaration_name(nodes, i, above, source);
    let mut id = node.kind.clone();
    id.push_str(":");
    id.push_str(number(node.start_byte as u64).as_str());
    id.push_str(":");
    id.push_str(number(node.end_byte as u64).as_str());
    let span = Span::of(node);
    let mut signature = span;
    if let Some(b) = find_child(nodes, i, "body") {
        signature.end_byte = nodes[b].start_byte;
        signature.end = to_line(nodes[b].start_row);
    }
    assert(symbol_models(symbols@)[scope as int] == symbols@[scope as int]@);
    let qualified_name = if scope == 0 {
        match find_child(nodes, i, "receiver") {
            Some(c) => {
                let mut s = text_at(nodes, c, source);
                s.push_str("::");
                s.push_str(name.as_str());
                s
            },
            None => name.clone(),
        }
    } else {
        let mut s = symbols[scope].qualified_name.clone();
        s.push_str("::");
        s.push_str(name.as_str());
        s
    };
    Symbol {
        id,
        name,
        qualified_name,
        kind: String::from_str(kind),
        parent: Some(symbols[scope].id.clone()),
        span,
        signature,
    }
}

/// Adds the edges that a node states.
fn relate(nodes: &Vec<SyntaxNode>, i: usize, source: &str, owner: &str, edges: &mut Vec<Edge>)
    requires
        i < nodes@.len(),
    ensures
        edge_models(final(edges)@) == edge_models(old(edges)@) + base_edge(
            node_models(nodes@),
            i as int,
            source@,
            owner@,
        ) + own_edge(node_models(nodes@), i as int, source@, owner@),
{
    let ghost ms = node_models(nodes@);
    let ghost start = edge_models(edges@);
    assert(ms[i as int] == nodes@[i as int]@);
    if let Some(c) = find_child(nodes, i, "superclasses") {
        assert(ms[c as int] == nodes@[c as int]@);
        let e = Edge {
            source: String::from_str(owner),
            kind: String::from_str("inherits"),
            target: text_at(nodes, c, source),
            span: Span::of(&nodes[c]),
        };
        assert(edge_models(edges@.push(e)) =~= start + base_edge(ms, i as int, source@, owner@));
        edges.push(e);
    }
    let ghost based = start + base_edge(ms, i as int, source@, owner@);
    assert(edge_models(edges@) =~= based);
    let found = match edge_kind(nodes[i].kind.as_str()) {
        Some(kind) => Some(kind),
        None => if is_short_circuit(nodes, i, source) {
            Some("branch")
        } else {
            None
        },
    };
    if let Some(kind) = found {
        let target = if same(kind, "calls") {
            callee_text(nodes, i, source)
        } else if same(kind, "imports") || same(kind, "inherits") {
            text_at(nodes, i, source)
        } else {
            String::new()
        };
        let e = Edge {
            source: String::from_str(owner),
            kind: String::from_str(kind),
            target,
            span: Span::of(&nodes[i]),
        };
        assert(edge_models(edges@.push(e)) =~= based + own_edge(ms, i as int, source@, owner@));
        edges.push(e);
    }
    assert(edge_models(edges@) =~= based + own_edge(ms, i as int, source@, owner@));
}

/// The symbols and relations of a syntax tree.
pub fn extract(tree: &SyntaxTree, source: &str) -> (r: CodeGraph)
    requires
        tree.nodes@.len() > 0,
        tree.nodes@.len() < usize::MAX,
    ensures
        r@ == graph_of(tree@, source@),
        grounded(r@),
{
    let nodes = &tree.nodes;
    let ghost ms = node_models(nodes@);
    let above = parents(nodes);
    assert(ms[0] == nodes@[0]@);
    let span = Span::of(&nodes[0]);
    let mut symbols: Vec<Symbol> = Vec::new();
    symbols.push(
        Symbol {
            id: String::from_str("file"),
            name: String::from_str("<file>"),
            qualified_name: String::from_str("<file>"),
            kind: String::from_str("file"),
            parent: None,
            span,
            signature: span,
        },
    );
    let mut edges: Vec<Edge> = Vec::new();
    let mut owners: Vec<usize> = Vec::new();
    let mut i: usize = 0;
    proof {
        assert(symbol_models(symbols@) =~= seq![file_symbol(ms[0])]);
        assert(edge_models(edges@) =~= Seq::empty());
    }
    while i < nodes.len()
        invariant
            i <= nodes@.len() < usize::MAX,
            ms == node_models(nodes@),
            above@.len() == nodes@.len(),
            forall|i: int|
                0 <= i < above@.len() ==> match parent(ms, i) {
                    Some(p) => #[trigger] above@[i] == Some(p as usize) && p < i,
                    None => above@[i] is None,
                },
            made(ms, source@, i as nat) == (Making {
                symbols: symbol_models(symbols@),
                edges: edge_models(edges@),
                owners: owners@,
            }),
        decreases nodes@.len() - i,
    {
        let ghost before = made(ms, source@, i as nat);
        proof {
            lemma_made(ms, source@, i as nat);
            lemma_less_deep(ms, ms[i as int].depth, i - 1);
            assert(ms[i as int] == nodes@[i as int]@);
            assert(symbol_models(symbols@).len() == symbols@.len());
            assert(above@[i as int] == above@[i as int]);
        }
        let scope: usize = match above[i] {
            Some(p) => owners[p],
            None => 0,
        };
        assert(scope == scope_of(ms, i as int, before.owners));
        let mut current: usize = scope;
        if let Some(kind) = symbol_kind(nodes[i].kind.as_str()) {
            let symbol = declare(nodes, i, above[i], source, &symbols, scope, kind);
            assert(symbol_models(symbols@.push(symbol)) =~= symbol_models(symbols@).push(symbol@));
            current = symbols.len();
            symbols.push(symbol);
        }
        proof {
            assert(symbol_models(symbols@)[current as int] == symbols@[current as int]@);
        }
        let owner = symbols[current].id.clone();
        relate(nodes, i, source, owner.as_str(), &mut edges);
        owners.push(current);
        i += 1;
    }
    proof {
        lemma_made(ms, source@, ms.len());
    }
    CodeGraph { symbols, edges, parse_errors: tree.has_error, supported: true }
}

// ---------------------------------------------------------------------------
// Graphs at paths
// ---------------------------------------------------------------------------

/// The id of a symbol of the file at a path.
pub open spec fn id_at(path: Seq<char>, id: Seq<char>) -> Seq<char> {
    digest(encode_utf8(path + ":"@ + id))
}

/// A symbol of the file at a path. A parent that the graph does not have is
/// dropped.
pub open spec fn symbol_at(path: Seq<char>, symbols: Seq<SymbolModel>, s: SymbolModel) -> SymbolModel {
    SymbolModel {
        id: id_at(path, s.id),
        parent: match s.parent {
            Some(p) if has_symbol(symbols, p) => Some(id_at(path, p)),
            _ => None,
        },
        ..s
    }
}

/// A graph as that of the file at a path.
pub open spec fn graph_at(path: Seq<char>, g: GraphModel) -> GraphModel {
    GraphModel {
        symbols: g.symbols.map_values(|s: SymbolModel| symbol_at(path, g.symbols, s)),
        edges: g.edges.map_values(|e: EdgeModel| EdgeModel { source: id_at(path, e.source), ..e }),
        ..g
    }
}

/// Placing a graph keeps its relations at its symbols.
pub proof fn placed_relations_start_at_symbols(path: Seq<char>, g: GraphModel)
    requires
        grounded(g),
    ensures
        grounded(graph_at(path, g)),
{
    let placed = graph_at(path, g);
    assert forall|e: int| 0 <= e < placed.edges.len() implies has_symbol(
        placed.symbols,
        (#[trigger] placed.edges[e]).source,
    ) by {
        let source = g.edges[e].source;
        assert(has_symbol(g.symbols, g.edges[e].source));
        let k = choose|k: int| 0 <= k < g.symbols.len() && (#[trigger] g.symbols[k]).id == source;
        assert(placed.symbols[k].id == placed.edges[e].source);
    }
}

/// The id of a symbol of the file at a path.
fn place_id(path: &str, id: &str) -> (r: String)
    ensures
        r@ == id_at(path@, id@),
{
    let named = joined(joined(path, ":").as_str(), id);
    hash(named.as_str().as_bytes())
}

/// Whether some symbol has this id.
fn names_symbol(symbols: &Vec<Symbol>, id: &str) -> (r: bool)
    ensures
        r == has_symbol(symbol_models(symbols@), id@),
{
    let ghost ms = symbol_models(symbols@);
    let mut k: usize = 0;
    while k < symbols.len()
        invariant
            k <= symbols@.len(),
            ms == symbol_models(symbols@),
            forall|j: int| 0 <= j < k ==> (#[trigger] ms[j]).id != id@,
        decreases symbols@.len() - k,
    {
        if same(symbols[k].id.as_str(), id) {
            assert(ms[k as int].id == id@);
            return true;
        }
        k += 1;
    }
    false
}

impl CodeGraph {
    /// An empty graph of a file that no grammar parses.
    pub fn unsupported() -> (r: CodeGraph)
        ensures
            r@.symbols.len() == 0,
            r@.edges.len() == 0,
            !r.parse_errors,
            !r.supported,
    {
        CodeGraph {
            symbols: Vec::new(),
            edges: Vec::new(),
            parse_errors: false,
            supported: false,
        }
    }

    /// The graph as that of the file at a path, so that copies of identical code
    /// remain distinct.
    pub fn at_path(&self, path: &str) -> (r: CodeGraph)
        requires
            grounded(self@),
        ensures
            r@ == graph_at(path@, self@),
            grounded(r@),
    {
        let ghost g = self@;
        let ghost goal = graph_at(path@, g);
        let mut symbols: Vec<Symbol> = Vec::new();
        let mut i: usize = 0;
        assert(symbol_models(symbols@) =~= goal.symbols.take(0));
        while i < self.symbols.len()
            invariant
                i <= self.symbols@.len(),
                g == self@,
                goal == graph_at(path@, g),
                symbol_models(symbols@) == goal.symbols.take(i as int),
            decreases self.symbols@.len() - i,
        {
            let s = &self.symbols[i];
            assert(g.symbols[i as int] == s@);
            let above = match &s.parent {
                Some(p) => if names_symbol(&self.symbols, p.as_str()) {
                    Some(place_id(path, p.as_str()))
                } else {
                    None
                },
                None => None,
            };
            let placed = Symbol {
                id: place_id(path, s.id.as_str()),
                name: s.name.clone(),
                qualified_name: s.qualified_name.clone(),
                kind: s.kind.clone(),
                parent: above,
                span: s.span,
                signature: s.signature,
            };
            proof {
                assert(goal.symbols[i as int] == placed@);
                assert(symbol_models(symbols@.push(placed)) =~= symbol_models(symbols@).push(
                    placed@,
                ));
                assert(goal.symbols.take(i + 1) =~= goal.symbols.take(i as int).push(placed@));
            }
            symbols.push(placed);
            i += 1;
        }
        assert(goal.symbols.take(i as int) =~= goal.symbols);
        let mut edges: Vec<Edge> = Vec::new();
        let mut k: usize = 0;
        assert(edge_models(edges@) =~= goal.edges.take(0));
        while k < self.edges.len()
            invariant
                k <= self.edges@.len(),
                g == self@,
                goal == graph_at(path@, g),
                edge_models(edges@) == goal.edges.take(k as int),
            decreases self.edges@.len() - k,
        {
            let e = &self.edges[k];
            assert(g.edges[k as int] == e@);
            let placed = Edge {
                source: place_id(path, e.source.as_str()),
                kind: e.kind.clone(),
                target: e.target.clone(),
                span: e.span,
            };
            proof {
                assert(goal.edges[k as int] == placed@);
                assert(edge_models(edges@.push(placed)) =~= edge_models(edges@).push(placed@));
                assert(goal.edges.take(k + 1) =~= goal.edges.take(k as int).push(placed@));
            }
            edges.push(placed);
            k += 1;
        }
        proof {
            assert(goal.edges.take(k as int) =~= goal.edges);
            placed_relations_start_at_symbols(path@, g);
        }
        CodeGraph { symbols, edges, parse_errors: self.parse_errors, supported: self.supported }
    }
}

} // verus!
