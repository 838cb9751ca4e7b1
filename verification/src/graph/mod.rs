//! Reading a project by its code graphs: what lies near a question, in which
//! order passages are read, and which structure a request carries.

pub mod links;
pub mod neighborhood;
pub mod ordering;
pub mod projection;
pub mod rationing;
pub mod records;
pub mod structure;

use vstd::prelude::*;

use crate::code_graph::{CodeGraph, GraphModel};
use crate::text::{same, slice, to_chars};

verus! {

/// The graph of one file.
pub struct FileGraph {
    pub path: String,
    pub graph: CodeGraph,
}

/// The value of a file's graph.
pub struct FileModel {
    pub path: Seq<char>,
    pub graph: GraphModel,
}

impl View for FileGraph {
    type V = FileModel;

    open spec fn view(&self) -> FileModel {
        FileModel { path: self.path@, graph: self.graph@ }
    }
}

/// The values of a list of files.
pub open spec fn file_models(v: Seq<FileGraph>) -> Seq<FileModel> {
    v.map_values(|f: FileGraph| f@)
}

/// What follows the last `:` or `.` of an expression.
pub open spec fn tail_of(target: Seq<char>) -> Seq<char>
    decreases target.len(),
{
    if target.len() == 0 {
        Seq::empty()
    } else if target.last() == ':' || target.last() == '.' {
        Seq::empty()
    } else {
        tail_of(target.drop_last()).push(target.last())
    }
}

/// The name that an expression calls: what follows its last `:` or `.`.
pub fn tail(target: &str) -> (r: String)
    ensures
        r@ == tail_of(target@),
{
    let chars = to_chars(target);
    let mut at: usize = chars.len();
    let ghost whole = chars@;
    assert(whole.take(at as int) + whole.skip(at as int) =~= whole);
    assert(tail_of(whole.take(at as int)) + whole.skip(at as int) =~= tail_of(whole)) by {
        assert(whole.take(at as int) =~= whole);
    }
    while at > 0 && chars[at - 1] != ':' && chars[at - 1] != '.'
        invariant
            at <= chars@.len(),
            whole == chars@,
            tail_of(whole.take(at as int)) + whole.skip(at as int) == tail_of(whole),
        decreases at,
    {
        proof {
            let head = whole.take(at as int);
            assert(head.drop_last() =~= whole.take(at - 1));
            assert(tail_of(head) + whole.skip(at as int) =~= tail_of(whole.take(at - 1))
                + whole.skip(at - 1));
        }
        at -= 1;
    }
    proof {
        assert(tail_of(whole.take(at as int)) =~= Seq::empty());
        assert(whole.skip(at as int) =~= whole.subrange(at as int, whole.len() as int));
        assert(tail_of(whole) =~= whole.skip(at as int));
    }
    slice(chars.as_slice(), at, chars.len())
}

/// What the graphs of a project cover.
#[derive(Clone, Copy, Debug, PartialEq, Eq, Structural)]
pub struct GraphCounts {
    pub files: u64,
    pub symbols: u64,
    pub edges: u64,
    pub unsupported: u64,
    pub errors: u64,
}

/// How many of the first `count` symbols are declarations.
pub open spec fn declarations(g: GraphModel, count: nat) -> nat
    decreases count,
{
    if count == 0 {
        0
    } else {
        declarations(g, (count - 1) as nat) + if g.symbols[count - 1].kind != "file"@ {
            1nat
        } else {
            0nat
        }
    }
}

/// A sum, as far as 64 bits hold it.
pub open spec fn plus(a: u64, b: nat) -> u64 {
    if a + b > u64::MAX {
        u64::MAX
    } else {
        (a + b) as u64
    }
}

/// The counts with one more file.
pub open spec fn counts_with(c: GraphCounts, g: GraphModel) -> GraphCounts {
    GraphCounts {
        files: plus(c.files, 1),
        symbols: plus(c.symbols, declarations(g, g.symbols.len())),
        edges: plus(c.edges, g.edges.len()),
        unsupported: plus(
            c.unsupported,
            if g.supported {
                0
            } else {
                1
            },
        ),
        errors: plus(
            c.errors,
            if g.parse_errors {
                1
            } else {
                0
            },
        ),
    }
}

impl GraphCounts {
    /// Counts of no file.
    pub fn none() -> (r: GraphCounts)
        ensures
            r == (GraphCounts { files: 0, symbols: 0, edges: 0, unsupported: 0, errors: 0 }),
    {
        GraphCounts { files: 0, symbols: 0, edges: 0, unsupported: 0, errors: 0 }
    }

    /// Every file was parsed in full.
    pub fn syntax_complete(&self) -> (r: bool)
        ensures
            r == (self.unsupported == 0 && self.errors == 0),
    {
        self.unsupported == 0 && self.errors == 0
    }

    /// Counts one more file.
    pub fn count(&mut self, graph: &CodeGraph)
        ensures
            *final(self) == counts_with(*old(self), graph@),
    {
        let ghost g = graph@;
        let mut symbols: u64 = 0;
        let mut i: usize = 0;
        while i < graph.symbols.len()
            invariant
                i <= graph.symbols@.len(),
                g == graph@,
                symbols == declarations(g, i as nat),
                symbols <= i,
                *self == *old(self),
            decreases graph.symbols@.len() - i,
        {
            assert(g.symbols[i as int] == graph.symbols@[i as int]@);
            if !same(graph.symbols[i].kind.as_str(), "file") {
                symbols += 1;
            }
            i += 1;
        }
        assert(g.symbols.len() == graph.symbols@.len());
        assert(g.edges.len() == graph.edges@.len());
        let unsupported: u64 = if graph.supported {
            0
        } else {
            1
        };
        let errors: u64 = if graph.parse_errors {
            1
        } else {
            0
        };
        self.files = self.files.saturating_add(1);
        self.symbols = self.symbols.saturating_add(symbols);
        self.edges = self.edges.saturating_add(graph.edges.len() as u64);
        self.unsupported = self.unsupported.saturating_add(unsupported);
        self.errors = self.errors.saturating_add(errors);
    }
}

} // verus!
