//! Reading a Turtle document into its triples, with the `oxrdfio` parser.

use oxrdf::{NamedOrBlankNode, Term};
use oxrdfio::{RdfFormat, RdfParser, SliceQuadParser};
use vstd::prelude::*;
use vstd::string::*;

use crate::code_rdf::a_code_graph_is_a_plain_graph;
use crate::codegraph::{
    AtomKind, CodeStatement, CodeTerm, RDF_FIRST, RDF_NIL, RDF_REST, SEXPR_DOCUMENT, SX_ROOT,
    SX_SYMBOL, XSD_INTEGER, XSD_STRING, code_graph_text, plain_statement, plain_term,
};
use crate::rdfgraph::{GraphModel, graph_items, graph_text, plain_graph};
use crate::text::same_text;

verus! {

// ---------------------------------------------------------------------------------------
// Triples
// ---------------------------------------------------------------------------------------

/// The subject of a triple. A blank node has no name that outlives the document.
pub enum Subject<T> {
    Iri(T),
    Blank,
}

/// The object of a triple.
pub enum Object<T> {
    Iri(T),
    Literal { value: T, datatype: T },
    /// A blank node, or anything else that a code graph never points at.
    Other,
}

/// A triple, over strings or over texts.
pub struct Triple<T> {
    pub subject: Subject<T>,
    pub predicate: T,
    pub object: Object<T>,
}

/// What the parser gives for a document: triples, and a fault where it is not Turtle.
pub enum TurtleItem {
    Triple(Triple<String>),
    Fault(String),
}

/// The mathematical model of a [`TurtleItem`].
pub enum Item {
    Triple(Triple<Seq<char>>),
    Fault(Seq<char>),
}

impl View for Subject<String> {
    type V = Subject<Seq<char>>;

    open spec fn view(&self) -> Subject<Seq<char>> {
        match self {
            Subject::Iri(s) => Subject::Iri(s@),
            Subject::Blank => Subject::Blank,
        }
    }
}

impl View for Object<String> {
    type V = Object<Seq<char>>;

    open spec fn view(&self) -> Object<Seq<char>> {
        match self {
            Object::Iri(s) => Object::Iri(s@),
            Object::Literal { value, datatype } => Object::Literal {
                value: value@,
                datatype: datatype@,
            },
            Object::Other => Object::Other,
        }
    }
}

impl View for Triple<String> {
    type V = Triple<Seq<char>>;

    open spec fn view(&self) -> Triple<Seq<char>> {
        Triple {
            subject: self.subject@,
            predicate: self.predicate@,
            object: self.object@,
        }
    }
}

impl View for TurtleItem {
    type V = Item;

    open spec fn view(&self) -> Item {
        match self {
            TurtleItem::Triple(t) => Item::Triple(t@),
            TurtleItem::Fault(m) => Item::Fault(m@),
        }
    }
}

/// The models of a row of items.
pub open spec fn item_models(items: Seq<TurtleItem>) -> Seq<Item> {
    items.map_values(|i: TurtleItem| i@)
}

/// Whether two subjects are the same.
fn same_subject(a: &Subject<String>, b: &Subject<String>) -> (same: bool)
    ensures
        same == (a@ == b@),
{
    match (a, b) {
        (Subject::Iri(x), Subject::Iri(y)) => same_text(x.as_str(), y.as_str()),
        (Subject::Blank, Subject::Blank) => true,
        _ => false,
    }
}

/// Whether two objects are the same.
fn same_object(a: &Object<String>, b: &Object<String>) -> (same: bool)
    ensures
        same == (a@ == b@),
{
    match (a, b) {
        (Object::Iri(x), Object::Iri(y)) => same_text(x.as_str(), y.as_str()),
        (
            Object::Literal { value: v, datatype: d },
            Object::Literal { value: w, datatype: e },
        ) => same_text(v.as_str(), w.as_str()) && same_text(d.as_str(), e.as_str()),
        (Object::Other, Object::Other) => true,
        _ => false,
    }
}

/// Whether two items are the same.
pub(crate) fn same_item(a: &TurtleItem, b: &TurtleItem) -> (same: bool)
    ensures
        same == (a@ == b@),
{
    match (a, b) {
        (TurtleItem::Triple(s), TurtleItem::Triple(t)) => {
            same_subject(&s.subject, &t.subject) && same_text(
                s.predicate.as_str(),
                t.predicate.as_str(),
            ) && same_object(&s.object, &t.object)
        },
        (TurtleItem::Fault(m), TurtleItem::Fault(n)) => same_text(m.as_str(), n.as_str()),
        _ => false,
    }
}

// ---------------------------------------------------------------------------------------
// What a code graph means
// ---------------------------------------------------------------------------------------

/// What a term of a code graph means.
pub open spec fn object_of(t: CodeTerm) -> Object<Seq<char>> {
    match t {
        CodeTerm::Nil => Object::Iri(RDF_NIL@),
        CodeTerm::Cell(iri) => Object::Iri(iri),
        CodeTerm::Atom(value, AtomKind::Symbol) => Object::Literal {
            value,
            datatype: SX_SYMBOL@,
        },
        CodeTerm::Atom(value, AtomKind::Str) => Object::Literal { value, datatype: XSD_STRING@ },
        CodeTerm::Atom(value, AtomKind::Int) => Object::Literal { value, datatype: XSD_INTEGER@ },
    }
}

/// What the root line of a code graph means.
pub open spec fn root_item(root: CodeTerm) -> Item {
    Item::Triple(
        Triple {
            subject: Subject::Iri(SEXPR_DOCUMENT@),
            predicate: SX_ROOT@,
            object: object_of(root),
        },
    )
}

/// What a statement of a code graph means.
pub open spec fn statement_item(s: CodeStatement) -> Item {
    Item::Triple(
        Triple {
            subject: Subject::Iri(s.cell),
            predicate: if s.head {
                RDF_FIRST@
            } else {
                RDF_REST@
            },
            object: object_of(s.value),
        },
    )
}

/// What a code graph means: one triple for its root line, and one for each of its statements,
/// in order.
pub open spec fn code_graph_items(root: CodeTerm, ss: Seq<CodeStatement>) -> Seq<Item> {
    seq![root_item(root)] + ss.map_values(|s: CodeStatement| statement_item(s))
}

// ---------------------------------------------------------------------------------------
// The parser
// ---------------------------------------------------------------------------------------

/// `oxrdfio::SliceQuadParser`: an iterator over the quads of a document.
#[verifier::external_type_specification]
#[verifier::external_body]
pub struct ExSliceQuadParser<'a>(oxrdfio::SliceQuadParser<'a>);

/// `oxrdf::Quad`: what the parser gives for a triple.
#[verifier::external_type_specification]
#[verifier::external_body]
pub struct ExQuad(oxrdf::Quad);

/// `oxrdfio::RdfSyntaxError`: what the parser gives where a document is not Turtle.
#[verifier::external_type_specification]
#[verifier::external_body]
pub struct ExRdfSyntaxError(oxrdfio::RdfSyntaxError);

/// The items that a parser has still to give: triples, up to the end of the document or up to
/// the first fault, which is the last item.
pub uninterp spec fn items_ahead(parser: SliceQuadParser<'_>) -> Seq<Item>;

/// The items of a Turtle document: triples, up to the end of the document or up to the first
/// fault, which is the last item.
pub uninterp spec fn turtle_items(doc: Seq<char>) -> Seq<Item>;

/// `oxrdfio::RdfParser::for_slice`, for Turtle, gives a parser of a document. What it has to
/// give is a function of the document alone, once the names of blank nodes are left out. Of a
/// document in the shape of a plain graph it gives exactly the triples written there, in order:
/// a prefixed name stands for the last namespace bound to its label and its local part, an IRI
/// between angle brackets for itself, and the escapes of a quoted literal for their characters;
/// a literal keeps its lexical form and its datatype, which is `xsd:string` if none is written,
/// `xsd:integer` for a bare integer, and `rdf:langString` for a literal with a language tag.
#[verifier::external_body]
fn turtle_parser(doc: &str) -> (parser: SliceQuadParser<'_>)
    ensures
        items_ahead(parser) == turtle_items(doc@),
        forall|g: GraphModel|
            doc@ == #[trigger] graph_text(g) && plain_graph(g) ==> items_ahead(parser)
                == graph_items(g),
{
    RdfParser::from_format(RdfFormat::Turtle).for_slice(doc.as_bytes())
}

/// What a step of a parser gives.
enum Step<'a> {
    Triple(Triple<String>, SliceQuadParser<'a>),
    Fault(String),
    End,
}

/// `oxrdfio::SliceQuadParser::next` gives the next triple of a document, the fault at which it
/// is no longer Turtle, or nothing at its end. A fault comes as the text of the parser's error.
/// The names of blank nodes are left out. After a fault the parser is not used again.
#[verifier::external_body]
fn next_item<'a>(parser: SliceQuadParser<'a>) -> (step: Step<'a>)
    ensures
        match step {
            Step::Triple(t, rest) => items_ahead(parser) == seq![Item::Triple(t@)] + items_ahead(
                rest,
            ),
            Step::Fault(m) => items_ahead(parser) == seq![Item::Fault(m@)],
            Step::End => items_ahead(parser) == Seq::<Item>::empty(),
        },
{
    let mut rest = parser;
    match rest.next() {
        None => Step::End,
        Some(Err(e)) => Step::Fault(format!("{e}")),
        Some(Ok(q)) => Step::Triple(Triple {
            subject: match q.subject { NamedOrBlankNode::NamedNode(n) => Subject::Iri(n.into_string()), _ => Subject::Blank },
            predicate: q.predicate.into_string(),
            object: match q.object {
                Term::NamedNode(n) => Object::Iri(n.into_string()),
                Term::Literal(l) => Object::Literal { value: l.value().to_string(), datatype: l.datatype().as_str().to_string() },
                _ => Object::Other,
            },
        }, rest),
    }
}

/// Reads a Turtle document into its items.
pub(crate) fn read_items(doc: &str) -> (items: Vec<TurtleItem>)
    ensures
        item_models(items@) == turtle_items(doc@),
        forall|g: GraphModel|
            doc@ == #[trigger] graph_text(g) && plain_graph(g) ==> item_models(items@)
                == graph_items(g),
        forall|root: CodeTerm, ss: Seq<CodeStatement>|
            doc@ == #[trigger] code_graph_text(root, ss) && plain_term(root) && (forall|i: int|
                0 <= i < ss.len() ==> plain_statement(#[trigger] ss[i])) ==> item_models(items@)
                == code_graph_items(root, ss),
{
    let mut parser = turtle_parser(doc);
    let ghost all = items_ahead(parser);
    let mut items: Vec<TurtleItem> = Vec::new();
    proof {
        assert forall|root: CodeTerm, ss: Seq<CodeStatement>|
            doc@ == #[trigger] code_graph_text(root, ss) && plain_term(root) && (forall|i: int|
                0 <= i < ss.len() ==> plain_statement(#[trigger] ss[i])) implies all
            == code_graph_items(root, ss) by {
            let g = a_code_graph_is_a_plain_graph(root, ss);
            assert(doc@ == graph_text(g));
        }
        assert(item_models(items@) + items_ahead(parser) =~= all);
    }
    loop
        invariant
            item_models(items@) + items_ahead(parser) == all,
            all == turtle_items(doc@),
            forall|g: GraphModel|
                doc@ == #[trigger] graph_text(g) && plain_graph(g) ==> all == graph_items(g),
            forall|root: CodeTerm, ss: Seq<CodeStatement>|
                doc@ == #[trigger] code_graph_text(root, ss) && plain_term(root) && (forall|i: int|
                    0 <= i < ss.len() ==> plain_statement(#[trigger] ss[i])) ==> all
                    == code_graph_items(root, ss),
        decreases items_ahead(parser).len(),
    {
        let ghost before = item_models(items@);
        let ghost ahead = items_ahead(parser);
        match next_item(parser) {
            Step::Triple(t, rest) => {
                let item = TurtleItem::Triple(t);
                proof {
                    assert(item_models(items@.push(item)) =~= before.push(item@));
                    assert(before.push(item@) + items_ahead(rest) =~= before + ahead);
                }
                items.push(item);
                parser = rest;
            },
            Step::Fault(m) => {
                let item = TurtleItem::Fault(m);
                proof {
                    assert(item_models(items@.push(item)) =~= before.push(item@));
                    assert(before.push(item@) =~= before + ahead);
                }
                items.push(item);
                return items;
            },
            Step::End => {
                assert(before + ahead =~= before);
                return items;
            },
        }
    }
}

} // verus!
