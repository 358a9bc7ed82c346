//! RDF graphs as they are written in Turtle: prefix bindings and triples, their text, and what
//! they mean.

use vstd::prelude::*;
use vstd::string::*;

use crate::codegraph::{XSD_INTEGER, XSD_STRING};
use crate::lines::{append_lines, lemma_texts_push, lines, texts};
use crate::quads::{Item, Object, Subject, Triple, TurtleItem};
use crate::terms::{bracketed, pn_local, pn_prefix, render_statement, statement};
use crate::text::{
    ascii_alphanumeric, ascii_letter, decimal, join2, join3, join5, print_decimal, quoted,
    render_string_literal, same_text,
};

verus! {

/// The namespace that `rdf:` stands for.
pub const RDF_NAMESPACE: &'static str = "http://www.w3.org/1999/02/22-rdf-syntax-ns#";

/// The datatype of a literal with a language tag.
pub const RDF_LANG_STRING: &'static str = "http://www.w3.org/1999/02/22-rdf-syntax-ns#langString";

/// The datatype of a literal with a language tag and a direction.
pub const RDF_DIR_LANG_STRING: &'static str = "http://www.w3.org/1999/02/22-rdf-syntax-ns#dirLangString";

// ---------------------------------------------------------------------------------------
// Graphs
// ---------------------------------------------------------------------------------------

/// A node of a graph, over strings or over texts.
pub enum Node<T> {
    /// A prefixed name: its label, and its local part.
    Name(T, T),
    /// An IRI.
    Iri(T),
}

/// The object of a triple of a graph.
pub enum Value<T> {
    Node(Node<T>),
    Text(T),
    Int(i64),
    /// A literal with a language tag, its `@` included.
    Tagged(T, T),
    /// A literal with a datatype.
    Typed(T, Node<T>),
}

/// A triple of a graph.
pub struct Edge<T> {
    pub subject: Node<T>,
    pub predicate: Node<T>,
    pub object: Value<T>,
}

/// A graph: its prefix bindings, each a label and the IRI of a namespace, and its triples.
pub struct Graph {
    pub bindings: Vec<(String, String)>,
    pub edges: Vec<Edge<String>>,
}

/// A prefix binding: a label, and the IRI of a namespace.
pub type Binding = (Seq<char>, Seq<char>);

/// The mathematical model of a [`Graph`].
pub struct GraphModel {
    pub bindings: Seq<Binding>,
    pub edges: Seq<Edge<Seq<char>>>,
}

impl View for Node<String> {
    type V = Node<Seq<char>>;

    open spec fn view(&self) -> Node<Seq<char>> {
        match self {
            Node::Name(label, local) => Node::Name(label@, local@),
            Node::Iri(iri) => Node::Iri(iri@),
        }
    }
}

impl View for Value<String> {
    type V = Value<Seq<char>>;

    open spec fn view(&self) -> Value<Seq<char>> {
        match self {
            Value::Node(n) => Value::Node(n@),
            Value::Text(s) => Value::Text(s@),
            Value::Int(n) => Value::Int(*n),
            Value::Tagged(s, tag) => Value::Tagged(s@, tag@),
            Value::Typed(s, dt) => Value::Typed(s@, dt@),
        }
    }
}

impl View for Edge<String> {
    type V = Edge<Seq<char>>;

    open spec fn view(&self) -> Edge<Seq<char>> {
        Edge { subject: self.subject@, predicate: self.predicate@, object: self.object@ }
    }
}

/// The models of a row of bindings.
pub open spec fn binding_models(bs: Seq<(String, String)>) -> Seq<Binding> {
    bs.map_values(|b: (String, String)| (b.0@, b.1@))
}

/// The models of a row of triples.
pub open spec fn edge_models(es: Seq<Edge<String>>) -> Seq<Edge<Seq<char>>> {
    es.map_values(|e: Edge<String>| e@)
}

impl View for Graph {
    type V = GraphModel;

    open spec fn view(&self) -> GraphModel {
        GraphModel {
            bindings: binding_models(self.bindings@),
            edges: edge_models(self.edges@),
        }
    }
}

// ---------------------------------------------------------------------------------------
// The text of a graph
// ---------------------------------------------------------------------------------------

/// A node as it is written.
pub open spec fn node_text(n: Node<Seq<char>>) -> Seq<char> {
    match n {
        Node::Name(label, local) => label + ":"@ + local,
        Node::Iri(iri) => bracketed(iri),
    }
}

/// An object as it is written.
pub open spec fn value_text(v: Value<Seq<char>>) -> Seq<char> {
    match v {
        Value::Node(n) => node_text(n),
        Value::Text(s) => quoted(s),
        Value::Int(n) => decimal(n as int),
        Value::Tagged(s, tag) => quoted(s) + tag,
        Value::Typed(s, dt) => quoted(s) + "^^"@ + node_text(dt),
    }
}

/// A triple as one statement.
pub open spec fn edge_text(e: Edge<Seq<char>>) -> Seq<char> {
    statement(node_text(e.subject), node_text(e.predicate), value_text(e.object))
}

/// A prefix binding as an `@prefix` line.
pub open spec fn directive(b: Binding) -> Seq<char> {
    "@prefix "@ + b.0 + ": "@ + bracketed(b.1) + " ."@
}

/// The `@prefix` lines of a row of bindings.
pub open spec fn directives(bs: Seq<Binding>) -> Seq<Seq<char>> {
    bs.map_values(|b: Binding| directive(b))
}

/// The statements of a row of triples.
pub open spec fn statements(es: Seq<Edge<Seq<char>>>) -> Seq<Seq<char>> {
    es.map_values(|e: Edge<Seq<char>>| edge_text(e))
}

/// The text of a graph: its `@prefix` lines, then its statements, each on a line of its own.
pub open spec fn graph_text(g: GraphModel) -> Seq<char> {
    lines(directives(g.bindings), ""@, "\n"@) + lines(statements(g.edges), ""@, "\n"@)
}

/// Renders a node.
pub(crate) fn render_node(n: &Node<String>) -> (text: String)
    ensures
        text@ == node_text(n@),
{
    match n {
        Node::Name(label, local) => join3(label.as_str(), ":", local.as_str()),
        Node::Iri(iri) => join3("<", iri.as_str(), ">"),
    }
}

/// Renders an object.
fn render_value(v: &Value<String>) -> (text: String)
    ensures
        text@ == value_text(v@),
{
    match v {
        Value::Node(n) => render_node(n),
        Value::Text(s) => render_string_literal(s.as_str()),
        Value::Int(n) => print_decimal(*n),
        Value::Tagged(s, tag) => join2(render_string_literal(s.as_str()).as_str(), tag.as_str()),
        Value::Typed(s, dt) => join3(
            render_string_literal(s.as_str()).as_str(),
            "^^",
            render_node(dt).as_str(),
        ),
    }
}

/// Renders a graph.
pub(crate) fn render_graph(g: &Graph) -> (text: String)
    ensures
        text@ == graph_text(g@),
{
    let mut rows: Vec<String> = Vec::new();
    let mut i: usize = 0;
    assert(texts(rows@) =~= directives(g@.bindings).take(0));
    while i < g.bindings.len()
        invariant
            i <= g.bindings.len(),
            texts(rows@) == directives(g@.bindings).take(i as int),
        decreases g.bindings.len() - i,
    {
        let iri = join3("<", g.bindings[i].1.as_str(), ">");
        let row = join5("@prefix ", g.bindings[i].0.as_str(), ": ", iri.as_str(), " .");
        proof {
            lemma_texts_push(rows@, row);
            assert(directives(g@.bindings).take(i + 1) =~= directives(g@.bindings).take(
                i as int,
            ).push(directive(g@.bindings[i as int])));
        }
        rows.push(row);
        i = i + 1;
    }
    let mut out = String::new();
    append_lines(&mut out, &rows, "", "\n");
    assert(directives(g@.bindings).take(i as int) =~= directives(g@.bindings));
    assert(out@ =~= lines(directives(g@.bindings), ""@, "\n"@));
    let mut rows: Vec<String> = Vec::new();
    let mut i: usize = 0;
    assert(texts(rows@) =~= statements(g@.edges).take(0));
    while i < g.edges.len()
        invariant
            i <= g.edges.len(),
            texts(rows@) == statements(g@.edges).take(i as int),
        decreases g.edges.len() - i,
    {
        let e = &g.edges[i];
        let row = render_statement(
            render_node(&e.subject).as_str(),
            render_node(&e.predicate).as_str(),
            render_value(&e.object).as_str(),
        );
        proof {
            lemma_texts_push(rows@, row);
            assert(statements(g@.edges).take(i + 1) =~= statements(g@.edges).take(i as int).push(
                edge_text(g@.edges[i as int]),
            ));
        }
        rows.push(row);
        i = i + 1;
    }
    append_lines(&mut out, &rows, "", "\n");
    assert(statements(g@.edges).take(i as int) =~= statements(g@.edges));
    out
}

// ---------------------------------------------------------------------------------------
// Labels
// ---------------------------------------------------------------------------------------

/// Whether a row of bindings binds a label.
pub open spec fn binds(bs: Seq<Binding>, label: Seq<char>) -> bool {
    exists|i: int| 0 <= i < bs.len() && (#[trigger] bs[i]).0 == label
}

/// The label of a node, if it has one and nothing binds it.
pub open spec fn unbound_in_node(n: Node<Seq<char>>, bs: Seq<Binding>) -> Option<Seq<char>> {
    match n {
        Node::Name(label, _) => if binds(bs, label) {
            None
        } else {
            Some(label)
        },
        Node::Iri(_) => None,
    }
}

/// The label of an object or of its datatype, if it has one and nothing binds it.
pub open spec fn unbound_in_value(v: Value<Seq<char>>, bs: Seq<Binding>) -> Option<Seq<char>> {
    match v {
        Value::Node(n) => unbound_in_node(n, bs),
        Value::Typed(_, dt) => unbound_in_node(dt, bs),
        _ => None,
    }
}

/// The first label of a triple that nothing binds.
pub open spec fn unbound_in_edge(e: Edge<Seq<char>>, bs: Seq<Binding>) -> Option<Seq<char>> {
    match unbound_in_node(e.subject, bs) {
        Some(label) => Some(label),
        None => match unbound_in_node(e.predicate, bs) {
            Some(label) => Some(label),
            None => unbound_in_value(e.object, bs),
        },
    }
}

/// The first label of a row of triples that nothing binds.
pub open spec fn unbound_label(es: Seq<Edge<Seq<char>>>, bs: Seq<Binding>) -> Option<Seq<char>>
    decreases es.len(),
{
    if es.len() == 0 {
        None
    } else {
        match unbound_label(es.drop_last(), bs) {
            Some(label) => Some(label),
            None => unbound_in_edge(es.last(), bs),
        }
    }
}

/// A label or nothing, over the mathematical models.
pub open spec fn label_text(label: Option<String>) -> Option<Seq<char>> {
    match label {
        Some(label) => Some(label@),
        None => None,
    }
}

/// Whether a row of bindings binds a label.
pub(crate) fn is_bound(bs: &Vec<(String, String)>, label: &str) -> (yes: bool)
    ensures
        yes == binds(binding_models(bs@), label@),
{
    let mut i: usize = 0;
    while i < bs.len()
        invariant
            i <= bs.len(),
            forall|j: int| 0 <= j < i ==> (#[trigger] binding_models(bs@)[j]).0 != label@,
        decreases bs.len() - i,
    {
        assert(binding_models(bs@)[i as int].0 == bs@[i as int].0@);
        if same_text(bs[i].0.as_str(), label) {
            return true;
        }
        i = i + 1;
    }
    false
}

fn find_in_node(n: &Node<String>, bs: &Vec<(String, String)>) -> (label: Option<String>)
    ensures
        label_text(label) == unbound_in_node(n@, binding_models(bs@)),
{
    match n {
        Node::Name(label, _) => if is_bound(bs, label.as_str()) {
            None
        } else {
            Some(label.clone())
        },
        Node::Iri(_) => None,
    }
}

fn find_in_edge(e: &Edge<String>, bs: &Vec<(String, String)>) -> (label: Option<String>)
    ensures
        label_text(label) == unbound_in_edge(e@, binding_models(bs@)),
{
    if let Some(label) = find_in_node(&e.subject, bs) {
        return Some(label);
    }
    if let Some(label) = find_in_node(&e.predicate, bs) {
        return Some(label);
    }
    match &e.object {
        Value::Node(n) => find_in_node(n, bs),
        Value::Typed(_, dt) => find_in_node(dt, bs),
        _ => None,
    }
}

/// Finds the first label of a graph that nothing binds.
pub(crate) fn find_unbound(g: &Graph) -> (label: Option<String>)
    ensures
        label_text(label) == unbound_label(g@.edges, g@.bindings),
{
    let mut i: usize = 0;
    while i < g.edges.len()
        invariant
            i <= g.edges.len(),
            unbound_label(g@.edges.take(i as int), g@.bindings) is None,
        decreases g.edges.len() - i,
    {
        proof {
            let es = g@.edges.take(i + 1);
            assert(es.drop_last() =~= g@.edges.take(i as int));
            assert(es.last() == g.edges@[i as int]@);
        }
        if let Some(label) = find_in_edge(&g.edges[i], &g.bindings) {
            proof {
                lemma_first_unbound(g@.edges, g@.bindings, i + 1);
            }
            return Some(label);
        }
        i = i + 1;
    }
    assert(g@.edges.take(i as int) =~= g@.edges);
    None
}

proof fn lemma_first_unbound(es: Seq<Edge<Seq<char>>>, bs: Seq<Binding>, i: int)
    requires
        0 <= i <= es.len(),
        unbound_label(es.take(i), bs) is Some,
    ensures
        unbound_label(es, bs) == unbound_label(es.take(i), bs),
    decreases es.len() - i,
{
    if i == es.len() {
        assert(es.take(i) =~= es);
    } else {
        assert(es.take(i + 1).drop_last() =~= es.take(i));
        lemma_first_unbound(es, bs, i + 1);
    }
}

// ---------------------------------------------------------------------------------------
// What a graph means
// ---------------------------------------------------------------------------------------

/// The namespace of a label: that of the last binding of it.
pub open spec fn namespace(bs: Seq<Binding>, label: Seq<char>) -> Seq<char>
    decreases bs.len(),
{
    if bs.len() == 0 {
        Seq::empty()
    } else if bs.last().0 == label {
        bs.last().1
    } else {
        namespace(bs.drop_last(), label)
    }
}

/// The IRI that a node stands for.
pub open spec fn node_iri(bs: Seq<Binding>, n: Node<Seq<char>>) -> Seq<char> {
    match n {
        Node::Name(label, local) => namespace(bs, label) + local,
        Node::Iri(iri) => iri,
    }
}

/// What an object means.
pub open spec fn value_object(bs: Seq<Binding>, v: Value<Seq<char>>) -> Object<Seq<char>> {
    match v {
        Value::Node(n) => Object::Iri(node_iri(bs, n)),
        Value::Text(value) => Object::Literal { value, datatype: XSD_STRING@ },
        Value::Int(n) => Object::Literal { value: decimal(n as int), datatype: XSD_INTEGER@ },
        Value::Tagged(value, _) => Object::Literal { value, datatype: RDF_LANG_STRING@ },
        Value::Typed(value, dt) => Object::Literal { value, datatype: node_iri(bs, dt) },
    }
}

/// What a triple means.
pub open spec fn edge_item(bs: Seq<Binding>, e: Edge<Seq<char>>) -> Item {
    Item::Triple(
        Triple {
            subject: Subject::Iri(node_iri(bs, e.subject)),
            predicate: node_iri(bs, e.predicate),
            object: value_object(bs, e.object),
        },
    )
}

/// What a graph means: its triples, in order.
pub open spec fn graph_items(g: GraphModel) -> Seq<Item> {
    g.edges.map_values(|e: Edge<Seq<char>>| edge_item(g.bindings, e))
}

/// Finds the namespace of a label.
fn find_namespace(bs: &Vec<(String, String)>, label: &str) -> (iri: String)
    ensures
        iri@ == namespace(binding_models(bs@), label@),
{
    let ghost models = binding_models(bs@);
    let mut i: usize = bs.len();
    assert(models.take(i as int) =~= models);
    while i > 0
        invariant
            i <= bs.len(),
            models == binding_models(bs@),
            namespace(models.take(i as int), label@) == namespace(models, label@),
        decreases i,
    {
        proof {
            assert(models.take(i as int).last() == models[i - 1]);
            assert(models.take(i as int).drop_last() =~= models.take(i - 1));
        }
        i = i - 1;
        if same_text(bs[i].0.as_str(), label) {
            return bs[i].1.clone();
        }
    }
    String::new()
}

/// Resolves a node to the IRI that it stands for.
fn resolve_node(bs: &Vec<(String, String)>, n: &Node<String>) -> (iri: String)
    ensures
        iri@ == node_iri(binding_models(bs@), n@),
{
    match n {
        Node::Name(label, local) => join2(
            find_namespace(bs, label.as_str()).as_str(),
            local.as_str(),
        ),
        Node::Iri(iri) => iri.clone(),
    }
}

/// Resolves an object to what it means.
fn resolve_value(bs: &Vec<(String, String)>, v: &Value<String>) -> (object: Object<String>)
    ensures
        object@ == value_object(binding_models(bs@), v@),
{
    match v {
        Value::Node(n) => Object::Iri(resolve_node(bs, n)),
        Value::Text(s) => Object::Literal {
            value: s.clone(),
            datatype: String::from_str(XSD_STRING),
        },
        Value::Int(n) => Object::Literal {
            value: print_decimal(*n),
            datatype: String::from_str(XSD_INTEGER),
        },
        Value::Tagged(s, _) => Object::Literal {
            value: s.clone(),
            datatype: String::from_str(RDF_LANG_STRING),
        },
        Value::Typed(s, dt) => Object::Literal {
            value: s.clone(),
            datatype: resolve_node(bs, dt),
        },
    }
}

/// Resolves the `i`-th triple of a graph to what it means.
pub(crate) fn resolve_edge(g: &Graph, i: usize) -> (item: TurtleItem)
    requires
        i < g.edges.len(),
    ensures
        item@ == graph_items(g@)[i as int],
{
    let e = &g.edges[i];
    assert(graph_items(g@)[i as int] == edge_item(g@.bindings, e@));
    TurtleItem::Triple(
        Triple {
            subject: Subject::Iri(resolve_node(&g.bindings, &e.subject)),
            predicate: resolve_node(&g.bindings, &e.predicate),
            object: resolve_value(&g.bindings, &e.object),
        },
    )
}

// ---------------------------------------------------------------------------------------
// Plain graphs
// ---------------------------------------------------------------------------------------

/// An absolute IRI in everyday characters: a scheme of letters and digits that starts with a
/// letter, a colon, then letters, digits and `- . _ ~ /`, at most one `#`, and further colons
/// if no slash stands behind the first.
pub open spec fn plain_iri_at(s: Seq<char>, k: int) -> bool {
    &&& 0 < k < s.len()
    &&& s[k] == ':'
    &&& ascii_letter(s[0])
    &&& forall|i: int| 0 <= i < k ==> ascii_alphanumeric(#[trigger] s[i])
    &&& forall|i: int|
        k < i < s.len() ==> ascii_alphanumeric(#[trigger] s[i]) || s[i] == '-' || s[i] == '.'
            || s[i] == '_' || s[i] == '~' || s[i] == '/' || s[i] == '#' || (s[i] == ':' && s[k + 1]
            != '/')
    &&& forall|i: int, j: int|
        k < i < j < s.len() ==> !(#[trigger] s[i] == '#' && #[trigger] s[j] == '#')
}

/// An absolute IRI in everyday characters.
pub open spec fn plain_iri(s: Seq<char>) -> bool {
    exists|k: int| #[trigger] plain_iri_at(s, k)
}

/// A node that is a plain IRI, or a name of a bound label and a local part that does not start
/// with a hyphen.
pub open spec fn plain_node(bs: Seq<Binding>, n: Node<Seq<char>>) -> bool {
    match n {
        Node::Name(label, local) => binds(bs, label) && pn_local(local) && (local.len() > 0
            ==> local[0] != '-'),
        Node::Iri(iri) => plain_iri(iri),
    }
}

/// A language tag of `@` and two to eight letters, perhaps with a hyphen and the two letters of
/// a region behind them.
pub open spec fn plain_tag(tag: Seq<char>) -> bool {
    exists|k: int| #[trigger] plain_tag_at(tag, k)
}

/// A plain language tag whose language ends at `k`.
pub open spec fn plain_tag_at(tag: Seq<char>, k: int) -> bool {
    &&& 3 <= k <= 9
    &&& tag[0] == '@'
    &&& tag.len() == k || (tag.len() == k + 3 && tag[k] == '-')
    &&& forall|i: int| 1 <= i < tag.len() && i != k ==> ascii_letter(#[trigger] tag[i])
}

/// An object whose nodes and tags are plain, and whose datatype is not one that only a language
/// tag gives.
pub open spec fn plain_value(bs: Seq<Binding>, v: Value<Seq<char>>) -> bool {
    match v {
        Value::Node(n) => plain_node(bs, n),
        Value::Text(_) => true,
        Value::Int(_) => true,
        Value::Tagged(_, tag) => plain_tag(tag),
        Value::Typed(_, dt) => plain_node(bs, dt) && node_iri(bs, dt) != RDF_LANG_STRING@
            && node_iri(bs, dt) != RDF_DIR_LANG_STRING@,
    }
}

/// A triple whose terms are plain.
pub open spec fn plain_edge(bs: Seq<Binding>, e: Edge<Seq<char>>) -> bool {
    plain_node(bs, e.subject) && plain_node(bs, e.predicate) && plain_value(bs, e.object)
}

/// A graph whose namespaces and terms are plain.
pub open spec fn plain_graph(g: GraphModel) -> bool {
    &&& forall|i: int|
        0 <= i < g.bindings.len() ==> pn_prefix((#[trigger] g.bindings[i]).0) && plain_iri(
            g.bindings[i].1,
        )
    &&& forall|i: int| 0 <= i < g.edges.len() ==> plain_edge(g.bindings, #[trigger] g.edges[i])
}

} // verus!
