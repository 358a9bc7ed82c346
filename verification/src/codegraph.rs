//! The code graph: how the structure of a datum is written down as RDF.
//!
//! A list is an `rdf:List`; each of its cons cells is a node whose IRI is `urn:sexpr:` and the
//! content hash of the cell's tail, so that equal sub-lists share a node and the IRI is a
//! fingerprint. Atoms are typed literals: `sx:symbol`, `xsd:string` and `xsd:integer`.
//! `<urn:sexpr:document> sx:root` names the top.

use vstd::prelude::*;

use crate::datum::Datum;
use crate::digest::{hex, list_hash};
use crate::lines::lines;
use crate::text::{ascii_alphanumeric, decimal, quoted};

verus! {

/// The namespace of the code-graph vocabulary.
pub const SX_NS: &'static str = "https://ikigai-rs.dev/ns/sexpr#";

/// The datatype that marks a literal as a symbol.
pub const SX_SYMBOL: &'static str = "https://ikigai-rs.dev/ns/sexpr#symbol";

/// The predicate of the document node that names the top of the encoded datum.
pub const SX_ROOT: &'static str = "https://ikigai-rs.dev/ns/sexpr#root";

/// The document node.
pub const SEXPR_DOCUMENT: &'static str = "urn:sexpr:document";

/// What the IRI of every cons cell starts with.
pub const SEXPR_NODE_PREFIX: &'static str = "urn:sexpr:";

/// `rdf:first`: the head of a cons cell.
pub const RDF_FIRST: &'static str = "http://www.w3.org/1999/02/22-rdf-syntax-ns#first";

/// `rdf:rest`: the tail of a cons cell.
pub const RDF_REST: &'static str = "http://www.w3.org/1999/02/22-rdf-syntax-ns#rest";

/// `rdf:nil`: the empty list.
pub const RDF_NIL: &'static str = "http://www.w3.org/1999/02/22-rdf-syntax-ns#nil";

/// The datatype of a string atom.
pub const XSD_STRING: &'static str = "http://www.w3.org/2001/XMLSchema#string";

/// The datatype of an integer atom.
pub const XSD_INTEGER: &'static str = "http://www.w3.org/2001/XMLSchema#integer";

/// The datatype of an atom.
pub enum AtomKind {
    Symbol,
    Str,
    Int,
}

/// What a statement of a code graph points at.
pub enum CodeTerm {
    /// The empty list.
    Nil,
    /// The cons cell with the given IRI.
    Cell(Seq<char>),
    /// An atom: its lexical form, and its datatype.
    Atom(Seq<char>, AtomKind),
}

/// A statement of a code graph about a cons cell.
pub struct CodeStatement {
    /// The IRI of the cell.
    pub cell: Seq<char>,
    /// Whether the statement names the head of the cell, or its tail.
    pub head: bool,
    /// The head or the tail.
    pub value: CodeTerm,
}

/// The datatype of an atom as it is written.
pub open spec fn kind_text(kind: AtomKind) -> Seq<char> {
    match kind {
        AtomKind::Symbol => "^^sx:symbol"@,
        AtomKind::Str => "^^xsd:string"@,
        AtomKind::Int => "^^xsd:integer"@,
    }
}

/// A term of a code graph as it is written.
pub open spec fn term_text(t: CodeTerm) -> Seq<char> {
    match t {
        CodeTerm::Nil => "rdf:nil"@,
        CodeTerm::Cell(iri) => "<"@ + iri + ">"@,
        CodeTerm::Atom(value, kind) => quoted(value) + kind_text(kind),
    }
}

/// A statement of a code graph as it is written.
pub open spec fn statement_text(s: CodeStatement) -> Seq<char> {
    "<"@ + s.cell + (if s.head {
        "> rdf:first "@
    } else {
        "> rdf:rest "@
    }) + term_text(s.value) + " ."@
}

/// The statements of a code graph as they are written.
pub open spec fn statement_texts(ss: Seq<CodeStatement>) -> Seq<Seq<char>> {
    ss.map_values(|s: CodeStatement| statement_text(s))
}

/// The prefixes that every code graph starts with.
pub open spec fn prologue() -> Seq<char> {
    "@prefix rdf: <http://www.w3.org/1999/02/22-rdf-syntax-ns#> .\n@prefix sx: <https://ikigai-rs.dev/ns/sexpr#> .\n@prefix xsd: <http://www.w3.org/2001/XMLSchema#> .\n<urn:sexpr:document> sx:root "@
}

/// A code graph with the given root, from the lines of its statements.
pub open spec fn graph_of_lines(root: CodeTerm, rows: Seq<Seq<char>>) -> Seq<char> {
    prologue() + term_text(root) + " .\n"@ + lines(rows, ""@, "\n"@)
}

/// A code graph with the given root and statements.
pub open spec fn code_graph_text(root: CodeTerm, ss: Seq<CodeStatement>) -> Seq<char> {
    graph_of_lines(root, statement_texts(ss))
}

/// The IRI of the cons cell that a non-empty list starts with.
pub open spec fn cell_iri(items: Seq<Datum>) -> Seq<char> {
    SEXPR_NODE_PREFIX@ + hex(list_hash(items))
}

/// The term that stands for a list.
pub open spec fn list_term(items: Seq<Datum>) -> CodeTerm {
    if items.len() == 0 {
        CodeTerm::Nil
    } else {
        CodeTerm::Cell(cell_iri(items))
    }
}

/// The term that stands for a datum.
pub open spec fn code_term(d: Datum) -> CodeTerm {
    match d {
        Datum::Symbol(s) => CodeTerm::Atom(s, AtomKind::Symbol),
        Datum::Str(s) => CodeTerm::Atom(s, AtomKind::Str),
        Datum::Int(n) => CodeTerm::Atom(decimal(n as int), AtomKind::Int),
        Datum::List(items) => list_term(items),
    }
}

/// The statement that names the head of the cell that a non-empty list starts with.
pub open spec fn head_statement(items: Seq<Datum>) -> CodeStatement {
    CodeStatement { cell: cell_iri(items), head: true, value: code_term(items[0]) }
}

/// The statement that names the tail of the cell that a non-empty list starts with.
pub open spec fn tail_statement(items: Seq<Datum>) -> CodeStatement {
    CodeStatement { cell: cell_iri(items), head: false, value: list_term(items.drop_first()) }
}

/// An IRI in the shape of a cons cell's: `urn:sexpr:`, then letters and digits.
pub open spec fn plain_cell(iri: Seq<char>) -> bool {
    exists|name: Seq<char>|
        iri == #[trigger] (SEXPR_NODE_PREFIX@ + name) && name.len() > 0 && forall|i: int|
            0 <= i < name.len() ==> ascii_alphanumeric(#[trigger] name[i])
}

/// A term whose IRI, if it has one, is in the shape of a cons cell's.
pub open spec fn plain_term(t: CodeTerm) -> bool {
    t matches CodeTerm::Cell(iri) ==> plain_cell(iri)
}

/// A statement whose IRIs are in the shape of a cons cell's.
pub open spec fn plain_statement(s: CodeStatement) -> bool {
    plain_cell(s.cell) && plain_term(s.value)
}

} // verus!
