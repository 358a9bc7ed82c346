//! A code graph as a plain RDF graph: the same text, and the same triples.

use vstd::prelude::*;

use crate::codegraph::{
    AtomKind, CodeStatement, CodeTerm, RDF_FIRST, RDF_NIL, RDF_REST, SEXPR_DOCUMENT,
    SEXPR_NODE_PREFIX, SX_NS, SX_ROOT, SX_SYMBOL, XSD_INTEGER, XSD_STRING, code_graph_text,
    kind_text, plain_cell, plain_statement, plain_term, prologue, statement_text, statement_texts,
    term_text,
};
use crate::lines::lines;
use crate::quads::{code_graph_items, object_of, root_item, statement_item};
use crate::rdfgraph::{
    Binding, Edge, GraphModel, Node, RDF_DIR_LANG_STRING, RDF_LANG_STRING, RDF_NAMESPACE, Value,
    binds, directives, edge_item, edge_text, graph_items, graph_text, namespace, node_iri,
    node_text, plain_edge, plain_graph, plain_iri, plain_iri_at, plain_value, statements,
    value_object, value_text,
};
use crate::terms::bracketed;
use crate::text::{ascii_alphanumeric, quoted};

verus! {

/// The prefix bindings of every code graph.
spec fn code_bindings() -> Seq<Binding> {
    seq![
        ("rdf"@, RDF_NAMESPACE@),
        ("sx"@, SX_NS@),
        ("xsd"@, "http://www.w3.org/2001/XMLSchema#"@),
    ]
}

spec fn kind_node(kind: AtomKind) -> Node<Seq<char>> {
    match kind {
        AtomKind::Symbol => Node::Name("sx"@, "symbol"@),
        AtomKind::Str => Node::Name("xsd"@, "string"@),
        AtomKind::Int => Node::Name("xsd"@, "integer"@),
    }
}

spec fn value_of(t: CodeTerm) -> Value<Seq<char>> {
    match t {
        CodeTerm::Nil => Value::Node(Node::Name("rdf"@, "nil"@)),
        CodeTerm::Cell(iri) => Value::Node(Node::Iri(iri)),
        CodeTerm::Atom(value, kind) => Value::Typed(value, kind_node(kind)),
    }
}

spec fn root_edge(root: CodeTerm) -> Edge<Seq<char>> {
    Edge {
        subject: Node::Iri(SEXPR_DOCUMENT@),
        predicate: Node::Name("sx"@, "root"@),
        object: value_of(root),
    }
}

spec fn statement_edge(s: CodeStatement) -> Edge<Seq<char>> {
    Edge {
        subject: Node::Iri(s.cell),
        predicate: if s.head {
            Node::Name("rdf"@, "first"@)
        } else {
            Node::Name("rdf"@, "rest"@)
        },
        object: value_of(s.value),
    }
}

spec fn code_model(root: CodeTerm, ss: Seq<CodeStatement>) -> GraphModel {
    GraphModel {
        bindings: code_bindings(),
        edges: seq![root_edge(root)] + ss.map_values(|s: CodeStatement| statement_edge(s)),
    }
}

// ---------------------------------------------------------------------------------------
// The text
// ---------------------------------------------------------------------------------------

proof fn lemma_value_text(t: CodeTerm)
    ensures
        value_text(value_of(t)) == term_text(t),
{
    reveal_strlit(":");
    match t {
        CodeTerm::Nil => {
            reveal_strlit("rdf");
            reveal_strlit("nil");
            reveal_strlit("rdf:nil");
            assert("rdf"@ + ":"@ + "nil"@ =~= "rdf:nil"@);
        },
        CodeTerm::Cell(_) => {},
        CodeTerm::Atom(value, kind) => {
            reveal_strlit("^^");
            reveal_strlit("sx");
            reveal_strlit("symbol");
            reveal_strlit("xsd");
            reveal_strlit("string");
            reveal_strlit("integer");
            reveal_strlit("^^sx:symbol");
            reveal_strlit("^^xsd:string");
            reveal_strlit("^^xsd:integer");
            assert("^^"@ + node_text(kind_node(kind)) =~= kind_text(kind));
            assert(quoted(value) + "^^"@ + node_text(kind_node(kind)) =~= quoted(value) + (
            "^^"@ + node_text(kind_node(kind))));
        },
    }
}

proof fn lemma_statement_text(s: CodeStatement)
    ensures
        edge_text(statement_edge(s)) == statement_text(s),
{
    lemma_value_text(s.value);
    reveal_strlit("rdf");
    reveal_strlit(":");
    reveal_strlit("first");
    reveal_strlit("rest");
    reveal_strlit(" ");
    reveal_strlit(">");
    reveal_strlit("> rdf:first ");
    reveal_strlit("> rdf:rest ");
    let p = node_text(statement_edge(s).predicate);
    let middle = if s.head {
        "> rdf:first "@
    } else {
        "> rdf:rest "@
    };
    assert(middle =~= ">"@ + " "@ + p + " "@);
    assert(edge_text(statement_edge(s)) =~= "<"@ + s.cell + (">"@ + " "@ + p + " "@) + term_text(
        s.value,
    ) + " ."@);
}

proof fn lemma_lines_add(a: Seq<Seq<char>>, b: Seq<Seq<char>>, before: Seq<char>, after: Seq<char>)
    ensures
        lines(a + b, before, after) == lines(a, before, after) + lines(b, before, after),
    decreases b.len(),
{
    if b.len() == 0 {
        assert(a + b =~= a);
        assert(lines(a, before, after) + lines(b, before, after) =~= lines(a, before, after));
    } else {
        assert((a + b).drop_last() =~= a + b.drop_last());
        lemma_lines_add(a, b.drop_last(), before, after);
        assert(lines(a + b, before, after) =~= lines(a, before, after) + lines(b, before, after));
    }
}

proof fn lemma_one_line(row: Seq<char>)
    ensures
        lines(seq![row], ""@, "\n"@) == row + "\n"@,
{
    reveal_strlit("");
    assert(seq![row].drop_last() =~= Seq::<Seq<char>>::empty());
    assert(lines(Seq::<Seq<char>>::empty(), ""@, "\n"@) =~= Seq::<char>::empty());
    assert(Seq::<char>::empty() + ""@ + row + "\n"@ =~= row + "\n"@);
}

proof fn lemma_prologue()
    ensures
        prologue() == lines(directives(code_bindings()), ""@, "\n"@) + bracketed(SEXPR_DOCUMENT@)
            + " "@ + node_text(Node::Name("sx"@, "root"@)) + " "@,
{
    let rows = directives(code_bindings());
    let (a, b, c) = (rows[0], rows[1], rows[2]);
    assert(rows =~= seq![a] + seq![b] + seq![c]);
    lemma_lines_add(seq![a] + seq![b], seq![c], ""@, "\n"@);
    lemma_lines_add(seq![a], seq![b], ""@, "\n"@);
    lemma_one_line(a);
    lemma_one_line(b);
    lemma_one_line(c);
    reveal_strlit("@prefix ");
    reveal_strlit("rdf");
    reveal_strlit("sx");
    reveal_strlit("xsd");
    reveal_strlit("root");
    reveal_strlit(":");
    reveal_strlit(": ");
    reveal_strlit("<");
    reveal_strlit(">");
    reveal_strlit(" ");
    reveal_strlit(" .");
    reveal_strlit("\n");
    reveal_strlit("http://www.w3.org/1999/02/22-rdf-syntax-ns#");
    reveal_strlit("https://ikigai-rs.dev/ns/sexpr#");
    reveal_strlit("http://www.w3.org/2001/XMLSchema#");
    reveal_strlit("urn:sexpr:document");
    reveal_strlit(
        "@prefix rdf: <http://www.w3.org/1999/02/22-rdf-syntax-ns#> .\n@prefix sx: <https://ikigai-rs.dev/ns/sexpr#> .\n@prefix xsd: <http://www.w3.org/2001/XMLSchema#> .\n<urn:sexpr:document> sx:root ",
    );
    assert(prologue() =~= a + "\n"@ + (b + "\n"@) + (c + "\n"@) + bracketed(SEXPR_DOCUMENT@) + " "@
        + node_text(Node::Name("sx"@, "root"@)) + " "@);
}

proof fn lemma_code_text(root: CodeTerm, ss: Seq<CodeStatement>)
    ensures
        graph_text(code_model(root, ss)) == code_graph_text(root, ss),
{
    let g = code_model(root, ss);
    let first = edge_text(root_edge(root));
    let rest = statement_texts(ss);
    assert(statements(g.edges) =~= seq![first] + rest) by {
        assert forall|i: int| 0 <= i < g.edges.len() implies statements(g.edges)[i] == (
        seq![first] + rest)[i] by {
            if i > 0 {
                lemma_statement_text(ss[i - 1]);
            }
        }
    }
    lemma_lines_add(seq![first], rest, ""@, "\n"@);
    lemma_one_line(first);
    lemma_value_text(root);
    lemma_prologue();
    reveal_strlit(" .");
    reveal_strlit("\n");
    reveal_strlit(" .\n");
    assert(" ."@ + "\n"@ =~= " .\n"@);
    assert(graph_text(g) =~= prologue() + term_text(root) + (" ."@ + "\n"@) + lines(
        rest,
        ""@,
        "\n"@,
    ));
}

// ---------------------------------------------------------------------------------------
// The triples
// ---------------------------------------------------------------------------------------

proof fn lemma_namespaces()
    ensures
        binds(code_bindings(), "rdf"@),
        binds(code_bindings(), "sx"@),
        binds(code_bindings(), "xsd"@),
        namespace(code_bindings(), "rdf"@) == RDF_NAMESPACE@,
        namespace(code_bindings(), "sx"@) == SX_NS@,
        namespace(code_bindings(), "xsd"@) == "http://www.w3.org/2001/XMLSchema#"@,
{
    let bs = code_bindings();
    reveal_strlit("rdf");
    reveal_strlit("sx");
    reveal_strlit("xsd");
    assert("rdf"@[0] == 'r');
    assert("sx"@[0] == 's');
    assert("xsd"@[0] == 'x');
    assert(bs[0].0 == "rdf"@);
    assert(bs[1].0 == "sx"@);
    assert(bs[2].0 == "xsd"@);
    assert(bs.drop_last().last() == bs[1]);
    assert(bs.drop_last().drop_last().last() == bs[0]);
    reveal_with_fuel(namespace, 3);
}

proof fn lemma_vocabulary()
    ensures
        RDF_NAMESPACE@ + "first"@ == RDF_FIRST@,
        RDF_NAMESPACE@ + "rest"@ == RDF_REST@,
        RDF_NAMESPACE@ + "nil"@ == RDF_NIL@,
        SX_NS@ + "root"@ == SX_ROOT@,
        SX_NS@ + "symbol"@ == SX_SYMBOL@,
        "http://www.w3.org/2001/XMLSchema#"@ + "string"@ == XSD_STRING@,
        "http://www.w3.org/2001/XMLSchema#"@ + "integer"@ == XSD_INTEGER@,
{
    reveal_strlit("http://www.w3.org/1999/02/22-rdf-syntax-ns#");
    reveal_strlit("https://ikigai-rs.dev/ns/sexpr#");
    reveal_strlit("http://www.w3.org/2001/XMLSchema#");
    reveal_strlit("first");
    reveal_strlit("rest");
    reveal_strlit("nil");
    reveal_strlit("root");
    reveal_strlit("symbol");
    reveal_strlit("string");
    reveal_strlit("integer");
    reveal_strlit("http://www.w3.org/1999/02/22-rdf-syntax-ns#first");
    reveal_strlit("http://www.w3.org/1999/02/22-rdf-syntax-ns#rest");
    reveal_strlit("http://www.w3.org/1999/02/22-rdf-syntax-ns#nil");
    reveal_strlit("https://ikigai-rs.dev/ns/sexpr#root");
    reveal_strlit("https://ikigai-rs.dev/ns/sexpr#symbol");
    reveal_strlit("http://www.w3.org/2001/XMLSchema#string");
    reveal_strlit("http://www.w3.org/2001/XMLSchema#integer");
    assert(RDF_NAMESPACE@ + "first"@ =~= RDF_FIRST@);
    assert(RDF_NAMESPACE@ + "rest"@ =~= RDF_REST@);
    assert(RDF_NAMESPACE@ + "nil"@ =~= RDF_NIL@);
    assert(SX_NS@ + "root"@ =~= SX_ROOT@);
    assert(SX_NS@ + "symbol"@ =~= SX_SYMBOL@);
    assert("http://www.w3.org/2001/XMLSchema#"@ + "string"@ =~= XSD_STRING@);
    assert("http://www.w3.org/2001/XMLSchema#"@ + "integer"@ =~= XSD_INTEGER@);
}

proof fn lemma_code_items(root: CodeTerm, ss: Seq<CodeStatement>)
    ensures
        graph_items(code_model(root, ss)) == code_graph_items(root, ss),
{
    lemma_namespaces();
    lemma_vocabulary();
    let bs = code_bindings();
    let g = code_model(root, ss);
    let items = code_graph_items(root, ss);
    assert forall|t: CodeTerm| #[trigger] value_object(bs, value_of(t)) == object_of(t) by {}
    assert(edge_item(bs, root_edge(root)) == root_item(root));
    assert forall|i: int| 0 <= i < items.len() implies graph_items(g)[i] == items[i] by {
        if i > 0 {
            assert(items[i] == statement_item(ss[i - 1]));
            assert(edge_item(bs, statement_edge(ss[i - 1])) == statement_item(ss[i - 1]));
        }
    }
    assert(graph_items(g) =~= items);
}

proof fn lemma_plain_bindings()
    ensures
        plain_iri(RDF_NAMESPACE@),
        plain_iri(SX_NS@),
        plain_iri("http://www.w3.org/2001/XMLSchema#"@),
        plain_iri(SEXPR_DOCUMENT@),
{
    reveal_strlit("http://www.w3.org/1999/02/22-rdf-syntax-ns#");
    reveal_strlit("https://ikigai-rs.dev/ns/sexpr#");
    reveal_strlit("http://www.w3.org/2001/XMLSchema#");
    reveal_strlit("urn:sexpr:document");
    assert(plain_iri_at(RDF_NAMESPACE@, 4));
    assert(plain_iri_at(SX_NS@, 5));
    assert(plain_iri_at("http://www.w3.org/2001/XMLSchema#"@, 4));
    assert(plain_iri_at(SEXPR_DOCUMENT@, 3));
}

proof fn lemma_plain_cell(iri: Seq<char>)
    requires
        plain_cell(iri),
    ensures
        plain_iri(iri),
{
    reveal_strlit("urn:sexpr:");
    let name = choose|name: Seq<char>|
        iri == #[trigger] (SEXPR_NODE_PREFIX@ + name) && name.len() > 0 && forall|i: int|
            0 <= i < name.len() ==> ascii_alphanumeric(#[trigger] name[i]);
    assert forall|i: int| 3 < i < iri.len() implies ascii_alphanumeric(#[trigger] iri[i]) || iri[i]
        == ':' by {
        if i >= 10 {
            assert(iri[i] == name[i - 10]);
        }
    }
    assert(iri[4] == 's');
    assert(plain_iri_at(iri, 3));
}

proof fn lemma_plain_value(t: CodeTerm)
    requires
        plain_term(t),
    ensures
        plain_value(code_bindings(), value_of(t)),
{
    lemma_namespaces();
    lemma_vocabulary();
    reveal_strlit("nil");
    reveal_strlit("symbol");
    reveal_strlit("string");
    reveal_strlit("integer");
    match t {
        CodeTerm::Nil => {},
        CodeTerm::Cell(iri) => {
            lemma_plain_cell(iri);
        },
        CodeTerm::Atom(_, kind) => {
            reveal_strlit("https://ikigai-rs.dev/ns/sexpr#symbol");
            reveal_strlit("http://www.w3.org/2001/XMLSchema#string");
            reveal_strlit("http://www.w3.org/2001/XMLSchema#integer");
            reveal_strlit("http://www.w3.org/1999/02/22-rdf-syntax-ns#langString");
            reveal_strlit("http://www.w3.org/1999/02/22-rdf-syntax-ns#dirLangString");
            assert(node_iri(code_bindings(), kind_node(kind)).len() < RDF_LANG_STRING@.len());
            assert(RDF_LANG_STRING@.len() < RDF_DIR_LANG_STRING@.len());
        },
    }
}

proof fn lemma_plain_model(root: CodeTerm, ss: Seq<CodeStatement>)
    requires
        plain_term(root),
        forall|i: int| 0 <= i < ss.len() ==> plain_statement(#[trigger] ss[i]),
    ensures
        plain_graph(code_model(root, ss)),
{
    let g = code_model(root, ss);
    lemma_namespaces();
    lemma_plain_bindings();
    reveal_strlit("rdf");
    reveal_strlit("sx");
    reveal_strlit("xsd");
    reveal_strlit("root");
    reveal_strlit("first");
    reveal_strlit("rest");
    assert forall|i: int| 0 <= i < g.edges.len() implies plain_edge(
        g.bindings,
        #[trigger] g.edges[i],
    ) by {
        if i == 0 {
            lemma_plain_value(root);
        } else {
            let s = ss[i - 1];
            assert(plain_statement(s));
            lemma_plain_cell(s.cell);
            lemma_plain_value(s.value);
        }
    }
}

/// A code graph is a plain graph: it has the text of one, and means the same triples.
pub proof fn a_code_graph_is_a_plain_graph(root: CodeTerm, ss: Seq<CodeStatement>) -> (g:
    GraphModel)
    requires
        plain_term(root),
        forall|i: int| 0 <= i < ss.len() ==> plain_statement(#[trigger] ss[i]),
    ensures
        plain_graph(g),
        graph_text(g) == code_graph_text(root, ss),
        graph_items(g) == code_graph_items(root, ss),
{
    lemma_code_text(root, ss);
    lemma_code_items(root, ss);
    lemma_plain_model(root, ss);
    code_model(root, ss)
}

} // verus!
