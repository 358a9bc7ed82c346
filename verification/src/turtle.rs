//! The graph compiler: a graph-shaped s-expression to RDF Turtle.
//!
//! ```text
//! (graph
//!   (prefix (ex "http://example.org/") …)          ; optional prefix bindings
//!   (ex:alice a foaf:Person)                       ; every other form is one triple (S P O)
//!   (ex:alice foaf:name "Alice")                   ;   S/P = pfx:local | (iri "…")
//!   (ex:alice foaf:age 42)                         ;   O   = S-terms | "string" | integer
//!   (ex:alice ex:score (lit "3.14" xsd:decimal))   ;       | (lit "v" pfx:dt) typed
//!   (ex:alice foaf:name (lit "Alix" @fr)))         ;       | (lit "v" @lang)  language-tagged
//! ```
//!
//! `a` in predicate position stands for `rdf:type`; the predicate `rdf:type` binds `rdf:` if the
//! graph does not. Every other label has to be bound. Blank nodes are refused: every node is a
//! stable IRI. The text is read back before it is handed out, so that what comes out is RDF.

use vstd::prelude::*;
use vstd::string::*;

use crate::datum::{Datum, Fault, Sexpr, SexprResult, compile_err, data, lemma_data, text_result};
use crate::lines::{all_ok, lemma_all_ok_fault, lemma_all_ok_step};
use crate::quads::{Item, TurtleItem, item_models, read_items, same_item, turtle_items};
use crate::rdfgraph::{
    Binding, Edge, Graph, GraphModel, Node, RDF_NAMESPACE, Value, binding_models, binds,
    edge_models, find_unbound, graph_items, graph_text, is_bound, plain_graph, render_graph,
    resolve_edge, unbound_label,
};
use crate::terms::{
    binding, colon_of, head, head_symbol, iri_of_form, is_var, list_items, parts_at,
    prefixed_name, read_binding, read_iri_form, symbol_name, variable,
};
use crate::text::{
    ascii_alphanumeric, chars_of, is_alphanumeric, join2, join3, join5, same_text, string_of,
};

verus! {

// ---------------------------------------------------------------------------------------
// The graph language
// ---------------------------------------------------------------------------------------

/// A text in the shape of a blank node's label.
pub open spec fn blank_label(s: Seq<char>) -> bool {
    s.len() >= 2 && s[0] == '_' && s[1] == ':'
}

/// A prefixed name as a node: its label and its local part.
pub open spec fn name_node(s: Seq<char>) -> Node<Seq<char>> {
    let k = choose|k: int| #[trigger] parts_at(s, k);
    Node::Name(s.take(k), s.skip(k + 1))
}

/// The node `rdf:type`.
pub open spec fn type_node() -> Node<Seq<char>> {
    Node::Name("rdf"@, "type"@)
}

/// A node in IRI position: a prefixed name, or an `(iri "...")` form. The role names the
/// position in the detail of a fault.
pub open spec fn node(d: Datum, role: Seq<char>) -> Result<Node<Seq<char>>, Fault> {
    match d {
        Datum::Symbol(s) => if blank_label(s) {
            Err(
                Fault::Compile(
                    "blank nodes are not allowed — skolemize to a stable IRI (pfx:local or (iri \"…\"))"@,
                ),
            )
        } else if variable(s) {
            Err(
                Fault::Compile(
                    "a "@ + role + " must be an IRI, not the variable `"@ + s + "`"@,
                ),
            )
        } else if prefixed_name(s) {
            Ok(name_node(s))
        } else {
            Err(
                Fault::Compile(
                    "unrecognized "@ + role + " `"@ + s + "`; use pfx:local or (iri \"…\")"@,
                ),
            )
        },
        Datum::List(items) => match head(items) {
            Some(name) => if name == "iri"@ {
                match iri_of_form(items) {
                    Ok(iri) => Ok(Node::Iri(iri)),
                    Err(e) => Err(e),
                }
            } else {
                Err(
                    Fault::Compile(
                        "unknown "@ + role + " form `("@ + name
                            + " …)`; only (iri \"…\") is an IRI form"@,
                    ),
                )
            },
            None => Err(
                Fault::Compile(
                    "a compound "@ + role + " must start with a symbol, e.g. (iri \"…\")"@,
                ),
            ),
        },
        _ => Err(
            Fault::Compile(
                "a "@ + role + " must be an IRI (pfx:local or (iri \"…\")), not a literal"@,
            ),
        ),
    }
}

/// A predicate: `rdf:type` for the keyword `a`, else a node.
pub open spec fn predicate_node(d: Datum) -> Result<Node<Seq<char>>, Fault> {
    if d == Datum::Symbol("a"@) {
        Ok(type_node())
    } else {
        node(d, "predicate"@)
    }
}

/// A language tag: `@`, then one or more letters, digits and hyphens.
pub open spec fn language_tag(s: Seq<char>) -> bool {
    &&& s.len() > 1
    &&& s[0] == '@'
    &&& forall|i: int| 1 <= i < s.len() ==> ascii_alphanumeric(#[trigger] s[i]) || s[i] == '-'
}

/// A `(lit "value" pfx:datatype)` or `(lit "value" @lang)` form.
pub open spec fn lit_form(items: Seq<Datum>) -> Result<Value<Seq<char>>, Fault> {
    if items.len() != 3 {
        Err(
            Fault::Compile(
                "(lit …) takes a value and a datatype/lang, e.g. (lit \"3.14\" xsd:decimal) or (lit \"hi\" @en)"@,
            ),
        )
    } else {
        match items[1] {
            Datum::Str(value) => match items[2] {
                Datum::Symbol(tag) if tag.len() > 0 && tag[0] == '@' => if language_tag(tag) {
                    Ok(Value::Tagged(value, tag))
                } else {
                    Err(Fault::Compile("invalid language tag `"@ + tag + "`"@))
                },
                other => match node(other, "datatype"@) {
                    Ok(dt) => Ok(Value::Typed(value, dt)),
                    Err(e) => Err(e),
                },
            },
            _ => Err(Fault::Compile("(lit …) value must be a string literal"@)),
        }
    }
}

/// An object: a node, or a literal.
pub open spec fn object(d: Datum) -> Result<Value<Seq<char>>, Fault> {
    match d {
        Datum::Str(s) => Ok(Value::Text(s)),
        Datum::Int(n) => Ok(Value::Int(n)),
        Datum::Symbol(_) => match node(d, "object"@) {
            Ok(n) => Ok(Value::Node(n)),
            Err(e) => Err(e),
        },
        Datum::List(items) => match head(items) {
            Some(name) => if name == "iri"@ {
                match iri_of_form(items) {
                    Ok(iri) => Ok(Value::Node(Node::Iri(iri))),
                    Err(e) => Err(e),
                }
            } else if name == "lit"@ {
                lit_form(items)
            } else {
                Err(
                    Fault::Compile(
                        "unknown object form `("@ + name
                            + " …)`; expected (iri \"…\") or (lit \"v\" dt)"@,
                    ),
                )
            },
            None => Err(
                Fault::Compile(
                    "a compound object must start with a symbol, e.g. (iri \"…\") or (lit …)"@,
                ),
            ),
        },
    }
}

/// A triple `(S P O)`.
pub open spec fn graph_triple(items: Seq<Datum>) -> Result<Edge<Seq<char>>, Fault> {
    if items.len() != 3 {
        Err(Fault::Compile("a triple must have exactly three terms (S P O)"@))
    } else {
        match (node(items[0], "subject"@), predicate_node(items[1]), object(items[2])) {
            (Err(e), _, _) => Err(e),
            (_, Err(e), _) => Err(e),
            (_, _, Err(e)) => Err(e),
            (Ok(s), Ok(p), Ok(o)) => Ok(Edge { subject: s, predicate: p, object: o }),
        }
    }
}

/// A prefix binding of a graph.
pub open spec fn prefix_binding(d: Datum) -> Result<Binding, Fault> {
    binding(d, "prefix name must be a symbol, e.g. ex"@)
}

/// The prefix bindings of a row of forms.
pub open spec fn prefix_bindings(ds: Seq<Datum>) -> Seq<Result<Binding, Fault>> {
    ds.map_values(|d: Datum| prefix_binding(d))
}

/// What a form of a graph adds to it.
pub enum GraphForm {
    /// Prefix bindings.
    Prefix(Seq<Binding>),
    /// A triple.
    Triple(Edge<Seq<char>>),
}

/// A form of a graph: a `(prefix ...)` clause if its head is `prefix`, else a triple.
pub open spec fn graph_form(d: Datum) -> Result<GraphForm, Fault> {
    match d {
        Datum::List(items) => if head(items) == Some("prefix"@) {
            match all_ok(prefix_bindings(items.skip(1))) {
                Ok(bs) => Ok(GraphForm::Prefix(bs)),
                Err(e) => Err(e),
            }
        } else {
            match graph_triple(items) {
                Ok(e) => Ok(GraphForm::Triple(e)),
                Err(e) => Err(e),
            }
        },
        _ => Err(
            Fault::Compile("each graph form must be a list — a triple (S P O) or (prefix …)"@),
        ),
    }
}

/// The forms of a graph.
pub open spec fn graph_forms(ds: Seq<Datum>) -> Seq<Result<GraphForm, Fault>> {
    ds.map_values(|d: Datum| graph_form(d))
}

/// All prefix bindings of a row of forms, in order.
pub open spec fn bindings_of(fs: Seq<GraphForm>) -> Seq<Binding>
    decreases fs.len(),
{
    if fs.len() == 0 {
        Seq::empty()
    } else {
        match fs.last() {
            GraphForm::Prefix(bs) => bindings_of(fs.drop_last()) + bs,
            _ => bindings_of(fs.drop_last()),
        }
    }
}

/// All triples of a row of forms, in order.
pub open spec fn edges_of(fs: Seq<GraphForm>) -> Seq<Edge<Seq<char>>>
    decreases fs.len(),
{
    if fs.len() == 0 {
        Seq::empty()
    } else {
        match fs.last() {
            GraphForm::Triple(e) => edges_of(fs.drop_last()).push(e),
            _ => edges_of(fs.drop_last()),
        }
    }
}

/// Whether `rdf:type` is among the predicates of a row of triples, as such or as the keyword
/// `a`.
pub open spec fn uses_type(es: Seq<Edge<Seq<char>>>) -> bool {
    exists|i: int| 0 <= i < es.len() && (#[trigger] es[i]).predicate == type_node()
}

/// The binding that `rdf:` has where the graph does not bind it.
pub open spec fn rdf_binding() -> Binding {
    ("rdf"@, RDF_NAMESPACE@)
}

/// All prefix bindings of a graph: its own, and one for `rdf:` where `rdf:type` needs it.
pub open spec fn all_bindings(fs: Seq<GraphForm>) -> Seq<Binding> {
    if uses_type(edges_of(fs)) && !binds(bindings_of(fs), "rdf"@) {
        bindings_of(fs).push(rdf_binding())
    } else {
        bindings_of(fs)
    }
}

/// The graph of a row of forms, unless one of its labels is bound nowhere.
pub open spec fn graph_of_forms(fs: Seq<GraphForm>) -> Result<GraphModel, Fault> {
    match unbound_label(edges_of(fs), all_bindings(fs)) {
        Some(label) => Err(
            Fault::Compile("undeclared prefix `"@ + label + ":`; bind it in a (prefix …) clause"@),
        ),
        None => Ok(GraphModel { bindings: all_bindings(fs), edges: edges_of(fs) }),
    }
}

/// The graph that a datum stands for.
pub open spec fn graph(d: Datum) -> Result<GraphModel, Fault> {
    match d {
        Datum::List(items) => match head(items) {
            None => Err(Fault::Compile("a graph must start with a head symbol (`graph`)"@)),
            Some(name) => if name != "graph"@ {
                Err(
                    Fault::Compile(
                        "unknown graph head `"@ + name + "`; only `graph` is supported"@,
                    ),
                )
            } else {
                match all_ok(graph_forms(items.skip(1))) {
                    Ok(fs) => graph_of_forms(fs),
                    Err(e) => Err(e),
                }
            },
        },
        _ => Err(
            Fault::Compile("a graph must be a list, e.g. (graph (ex:s ex:p ex:o))"@),
        ),
    }
}

// ---------------------------------------------------------------------------------------
// The Turtle document
// ---------------------------------------------------------------------------------------

/// The text of a graph that means the given triples, given what the text reads back as.
pub open spec fn confirmed(text: Seq<char>, meant: Seq<Item>, items: Seq<Item>) -> Result<
    Seq<char>,
    Fault,
> {
    if items == meant {
        Ok(text)
    } else if items.len() > 0 && items.last() is Fault {
        Err(Fault::Compile("the graph is not RDF: "@ + items.last()->Fault_0))
    } else {
        Err(Fault::Compile("the graph does not read back as its triples"@))
    }
}

/// The Turtle document that a datum stands for.
pub open spec fn turtle(d: Datum) -> Result<Seq<char>, Fault> {
    match graph(d) {
        Ok(g) => confirmed(graph_text(g), graph_items(g), turtle_items(graph_text(g))),
        Err(e) => Err(e),
    }
}

// ---------------------------------------------------------------------------------------
// The compiler
// ---------------------------------------------------------------------------------------

/// Compiles a graph-shaped s-expression into a Turtle document, which parses on its own as
/// exactly its triples, in order. The head symbol must be `graph`; an unknown head, a malformed
/// clause or triple, a blank node, an unsupported term, a label that nothing binds, or a graph
/// that does not read back is an error.
pub fn sexpr_to_turtle(value: &Sexpr) -> (r: SexprResult<String>)
    ensures
        text_result(r) == turtle(value@),
        text_result(r) matches Ok(t) ==> turtle_items(t) == graph_items(graph(value@)->Ok_0)
            && forall|i: int|
            0 <= i < turtle_items(t).len() ==> #[trigger] turtle_items(t)[i] is Triple,
        graph(value@) matches Ok(g) ==> plain_graph(g) ==> text_result(r) == Ok::<
            Seq<char>,
            Fault,
        >(graph_text(g)),
{
    let g = match compile_graph(value) {
        Ok(g) => g,
        Err(e) => {
            return Err(e);
        },
    };
    let text = render_graph(&g);
    let items = read_items(text.as_str());
    confirm_graph(text, &g, &items)
}

/// Hands out the text of a graph if it reads back as the triples of the graph, in order.
pub fn confirm_graph(text: String, g: &Graph, items: &Vec<TurtleItem>) -> (r: SexprResult<String>)
    ensures
        text_result(r) == confirmed(text@, graph_items(g@), item_models(items@)),
{
    let ghost meant = graph_items(g@);
    let ghost models = item_models(items@);
    let mut i: usize = 0;
    while i < items.len() && i < g.edges.len() && same_item(&items[i], &resolve_edge(g, i))
        invariant
            i <= items.len(),
            i <= g.edges.len(),
            meant == graph_items(g@),
            models == item_models(items@),
            forall|j: int| 0 <= j < i ==> #[trigger] models[j] == meant[j],
        decreases items.len() - i,
    {
        i = i + 1;
    }
    if i == items.len() && i == g.edges.len() {
        assert(models =~= meant);
        return Ok(text);
    }
    proof {
        if models.len() == meant.len() {
            assert(models[i as int] == items@[i as int]@);
            assert(models[i as int] != meant[i as int]);
        }
    }
    if items.len() > 0 {
        assert(models.last() == items@.last()@);
        if let TurtleItem::Fault(m) = &items[items.len() - 1] {
            return Err(compile_err(join2("the graph is not RDF: ", m.as_str()).as_str()));
        }
    }
    Err(compile_err("the graph does not read back as its triples"))
}

/// A graph or an error, over the mathematical models.
pub open spec fn graph_result(r: SexprResult<Graph>) -> Result<GraphModel, Fault> {
    match r {
        Ok(g) => Ok(g@),
        Err(e) => Err(e@),
    }
}

/// Compiles a graph-shaped s-expression into a graph: its prefix bindings, and its triples.
pub fn compile_graph(value: &Sexpr) -> (r: SexprResult<Graph>)
    ensures
        graph_result(r) == graph(value@),
{
    let items = match list_items(value) {
        Some(items) => items,
        None => {
            return Err(compile_err("a graph must be a list, e.g. (graph (ex:s ex:p ex:o))"));
        },
    };
    let name = match head_symbol(items) {
        Some(name) => name,
        None => {
            return Err(compile_err("a graph must start with a head symbol (`graph`)"));
        },
    };
    if !same_text(name, "graph") {
        return Err(
            compile_err(
                join3("unknown graph head `", name, "`; only `graph` is supported").as_str(),
            ),
        );
    }
    compile_graph_forms(items)
}

/// Compiles the forms of a graph: `(prefix ...)` clauses among triples.
fn compile_graph_forms(items: &Vec<Sexpr>) -> (r: SexprResult<Graph>)
    requires
        items.len() > 0,
    ensures
        graph_result(r) == match all_ok(graph_forms(data(items@).skip(1))) {
            Ok(fs) => graph_of_forms(fs),
            Err(e) => Err(e),
        },
{
    let ghost rs = graph_forms(data(items@).skip(1));
    let ghost mut fs = Seq::<GraphForm>::empty();
    let mut g = Graph { bindings: Vec::new(), edges: Vec::new() };
    let mut used_type = false;
    proof {
        assert(g@.bindings =~= bindings_of(fs));
        assert(g@.edges =~= edges_of(fs));
    }
    let mut i: usize = 1;
    while i < items.len()
        invariant
            1 <= i <= items.len(),
            rs == graph_forms(data(items@).skip(1)),
            all_ok(rs.take(i - 1)) == Ok::<Seq<GraphForm>, Fault>(fs),
            g@.bindings == bindings_of(fs),
            g@.edges == edges_of(fs),
            used_type == uses_type(edges_of(fs)),
        decreases items.len() - i,
    {
        proof {
            lemma_data(items@);
            lemma_all_ok_step(rs, i - 1);
            assert(rs[i - 1] == graph_form(items@[i as int]@));
        }
        let form = match compile_graph_form(&items[i]) {
            Ok(form) => form,
            Err(e) => {
                proof {
                    lemma_all_ok_fault(rs, i as int);
                }
                return Err(e);
            },
        };
        let ghost before = fs;
        proof {
            fs = fs.push(form@);
            assert(fs.drop_last() =~= before);
        }
        match form {
            CompiledForm::Prefix(more) => {
                let mut more = more;
                assert(binding_models(g.bindings@ + more@) =~= binding_models(g.bindings@)
                    + binding_models(more@));
                g.bindings.append(&mut more);
            },
            CompiledForm::Triple(e) => {
                proof {
                    lemma_uses_type_push(edges_of(before), e@);
                    assert(edge_models(g.edges@.push(e)) =~= edge_models(g.edges@).push(e@));
                }
                if is_type_node(&e.predicate) {
                    used_type = true;
                }
                g.edges.push(e);
            },
        }
        i = i + 1;
    }
    proof {
        lemma_data(items@);
        assert(rs.take(rs.len() as int) =~= rs);
    }
    // `rdf:type` is in use and `rdf:` is not bound: bind it, so that the text stands for itself.
    if used_type && !is_bound(&g.bindings, "rdf") {
        let bound = (String::from_str("rdf"), String::from_str(RDF_NAMESPACE));
        assert(binding_models(g.bindings@.push(bound)) =~= binding_models(g.bindings@).push(
            rdf_binding(),
        ));
        g.bindings.push(bound);
    }
    assert(g@.bindings == all_bindings(fs));
    match find_unbound(&g) {
        Some(label) => Err(
            compile_err(
                join3(
                    "undeclared prefix `",
                    label.as_str(),
                    ":`; bind it in a (prefix …) clause",
                ).as_str(),
            ),
        ),
        None => Ok(g),
    }
}

proof fn lemma_uses_type_push(es: Seq<Edge<Seq<char>>>, e: Edge<Seq<char>>)
    ensures
        uses_type(es.push(e)) == (uses_type(es) || e.predicate == type_node()),
{
    let all = es.push(e);
    if uses_type(es) {
        let i = choose|i: int| 0 <= i < es.len() && (#[trigger] es[i]).predicate == type_node();
        assert(all[i] == es[i]);
    }
    assert(all[es.len() as int] == e);
    if uses_type(all) {
        let i = choose|i: int| 0 <= i < all.len() && (#[trigger] all[i]).predicate == type_node();
        if i < es.len() {
            assert(es[i] == all[i]);
        }
    }
}

/// Whether a node is `rdf:type`.
fn is_type_node(n: &Node<String>) -> (yes: bool)
    ensures
        yes == (n@ == type_node()),
{
    match n {
        Node::Name(label, local) => same_text(label.as_str(), "rdf") && same_text(
            local.as_str(),
            "type",
        ),
        Node::Iri(_) => false,
    }
}

/// What a form of a graph adds to it.
enum CompiledForm {
    /// Prefix bindings.
    Prefix(Vec<(String, String)>),
    /// A triple.
    Triple(Edge<String>),
}

impl View for CompiledForm {
    type V = GraphForm;

    closed spec fn view(&self) -> GraphForm {
        match self {
            CompiledForm::Prefix(bs) => GraphForm::Prefix(binding_models(bs@)),
            CompiledForm::Triple(e) => GraphForm::Triple(e@),
        }
    }
}

/// Compiles one form of a graph.
fn compile_graph_form(value: &Sexpr) -> (r: SexprResult<CompiledForm>)
    ensures
        match (graph_form(value@), r) {
            (Ok(f), Ok(form)) => form@ == f,
            (Err(f), Err(e)) => f == e@,
            _ => false,
        },
{
    let items = match list_items(value) {
        Some(items) => items,
        None => {
            return Err(
                compile_err("each graph form must be a list — a triple (S P O) or (prefix …)"),
            );
        },
    };
    if let Some(name) = head_symbol(items) {
        if same_text(name, "prefix") {
            return compile_turtle_prefixes(items);
        }
    }
    match compile_graph_triple(items) {
        Ok(e) => Ok(CompiledForm::Triple(e)),
        Err(e) => Err(e),
    }
}

/// Compiles the bindings of a `(prefix ...)` clause.
fn compile_turtle_prefixes(items: &Vec<Sexpr>) -> (r: SexprResult<CompiledForm>)
    requires
        items.len() > 0,
    ensures
        match (all_ok(prefix_bindings(data(items@).skip(1))), r) {
            (Ok(bs), Ok(form)) => form@ == GraphForm::Prefix(bs),
            (Err(f), Err(e)) => f == e@,
            _ => false,
        },
{
    let ghost rs = prefix_bindings(data(items@).skip(1));
    let mut bs: Vec<(String, String)> = Vec::new();
    assert(binding_models(bs@) =~= Seq::<Binding>::empty());
    let mut i: usize = 1;
    while i < items.len()
        invariant
            1 <= i <= items.len(),
            rs == prefix_bindings(data(items@).skip(1)),
            all_ok(rs.take(i - 1)) == Ok::<Seq<Binding>, Fault>(binding_models(bs@)),
        decreases items.len() - i,
    {
        proof {
            lemma_data(items@);
            lemma_all_ok_step(rs, i - 1);
            assert(rs[i - 1] == prefix_binding(items@[i as int]@));
        }
        match read_binding(&items[i], "prefix name must be a symbol, e.g. ex") {
            Ok(b) => {
                assert(binding_models(bs@.push(b)) =~= binding_models(bs@).push((b.0@, b.1@)));
                bs.push(b);
            },
            Err(e) => {
                proof {
                    lemma_all_ok_fault(rs, i as int);
                }
                return Err(e);
            },
        }
        i = i + 1;
    }
    proof {
        lemma_data(items@);
        assert(rs.take(rs.len() as int) =~= rs);
    }
    Ok(CompiledForm::Prefix(bs))
}

/// Compiles a triple.
fn compile_graph_triple(items: &Vec<Sexpr>) -> (r: SexprResult<Edge<String>>)
    ensures
        match (graph_triple(data(items@)), r) {
            (Ok(edge), Ok(e)) => edge == e@,
            (Err(f), Err(e)) => f == e@,
            _ => false,
        },
{
    proof {
        lemma_data(items@);
    }
    if items.len() != 3 {
        return Err(compile_err("a triple must have exactly three terms (S P O)"));
    }
    let subject = match compile_node(&items[0], "subject") {
        Ok(s) => s,
        Err(e) => {
            return Err(e);
        },
    };
    let predicate = match compile_predicate(&items[1]) {
        Ok(p) => p,
        Err(e) => {
            return Err(e);
        },
    };
    let object = match compile_object(&items[2]) {
        Ok(o) => o,
        Err(e) => {
            return Err(e);
        },
    };
    Ok(Edge { subject, predicate, object })
}

/// A node or an error, over the mathematical models.
spec fn node_result(r: SexprResult<Node<String>>) -> Result<Node<Seq<char>>, Fault> {
    match r {
        Ok(n) => Ok(n@),
        Err(e) => Err(e@),
    }
}

/// An object or an error, over the mathematical models.
spec fn value_result(r: SexprResult<Value<String>>) -> Result<Value<Seq<char>>, Fault> {
    match r {
        Ok(v) => Ok(v@),
        Err(e) => Err(e@),
    }
}

/// Compiles a node in IRI position: a prefixed name or an `(iri "...")` form. Variables,
/// literals and blank nodes are refused. The role names the position in the error.
fn compile_node(value: &Sexpr, role: &str) -> (r: SexprResult<Node<String>>)
    ensures
        node_result(r) == node(value@, role@),
{
    match value {
        Sexpr::Symbol(s) => {
            if is_blank_label(s.as_str()) {
                return Err(
                    compile_err(
                        "blank nodes are not allowed — skolemize to a stable IRI (pfx:local or (iri \"…\"))",
                    ),
                );
            }
            if is_var(s.as_str()) {
                return Err(
                    compile_err(
                        join5(
                            "a ",
                            role,
                            " must be an IRI, not the variable `",
                            s.as_str(),
                            "`",
                        ).as_str(),
                    ),
                );
            }
            match colon_of(s.as_str()) {
                Some(k) => {
                    let chars = chars_of(s.as_str());
                    let label = string_of(&chars, 0, k);
                    let local = string_of(&chars, k + 1, chars.len());
                    proof {
                        assert(prefixed_name(s@));
                        assert(label@ =~= s@.take(k as int));
                        assert(local@ =~= s@.skip(k + 1));
                    }
                    Ok(Node::Name(label, local))
                },
                None => Err(
                    compile_err(
                        join5(
                            "unrecognized ",
                            role,
                            " `",
                            s.as_str(),
                            "`; use pfx:local or (iri \"…\")",
                        ).as_str(),
                    ),
                ),
            }
        },
        Sexpr::List(items) => match head_symbol(items) {
            Some(name) => if same_text(name, "iri") {
                match read_iri_form(items) {
                    Ok(iri) => Ok(Node::Iri(iri)),
                    Err(e) => Err(e),
                }
            } else {
                Err(
                    compile_err(
                        join5(
                            "unknown ",
                            role,
                            " form `(",
                            name,
                            " …)`; only (iri \"…\") is an IRI form",
                        ).as_str(),
                    ),
                )
            },
            None => Err(
                compile_err(
                    join3(
                        "a compound ",
                        role,
                        " must start with a symbol, e.g. (iri \"…\")",
                    ).as_str(),
                ),
            ),
        },
        _ => Err(
            compile_err(
                join3(
                    "a ",
                    role,
                    " must be an IRI (pfx:local or (iri \"…\")), not a literal",
                ).as_str(),
            ),
        ),
    }
}

/// Whether a text is in the shape of a blank node's label.
fn is_blank_label(s: &str) -> (yes: bool)
    ensures
        yes == blank_label(s@),
{
    let chars = chars_of(s);
    chars.len() >= 2 && chars[0] == '_' && chars[1] == ':'
}

/// Compiles a predicate: `rdf:type` for the keyword `a`, else a node.
fn compile_predicate(value: &Sexpr) -> (r: SexprResult<Node<String>>)
    ensures
        node_result(r) == predicate_node(value@),
{
    if let Some(name) = symbol_name(value) {
        if same_text(name, "a") {
            return Ok(Node::Name(String::from_str("rdf"), String::from_str("type")));
        }
    }
    compile_node(value, "predicate")
}

/// Compiles an object: a node, or a literal.
fn compile_object(value: &Sexpr) -> (r: SexprResult<Value<String>>)
    ensures
        value_result(r) == object(value@),
{
    match value {
        Sexpr::Str(s) => Ok(Value::Text(s.clone())),
        Sexpr::Int(n) => Ok(Value::Int(*n)),
        Sexpr::Symbol(_) => match compile_node(value, "object") {
            Ok(n) => Ok(Value::Node(n)),
            Err(e) => Err(e),
        },
        Sexpr::List(items) => match head_symbol(items) {
            Some(name) => if same_text(name, "iri") {
                match read_iri_form(items) {
                    Ok(iri) => Ok(Value::Node(Node::Iri(iri))),
                    Err(e) => Err(e),
                }
            } else if same_text(name, "lit") {
                compile_lit_form(items)
            } else {
                Err(
                    compile_err(
                        join3(
                            "unknown object form `(",
                            name,
                            " …)`; expected (iri \"…\") or (lit \"v\" dt)",
                        ).as_str(),
                    ),
                )
            },
            None => Err(
                compile_err(
                    "a compound object must start with a symbol, e.g. (iri \"…\") or (lit …)",
                ),
            ),
        },
    }
}

/// Compiles a `(lit "value" pfx:datatype)` or `(lit "value" @lang)` form.
fn compile_lit_form(items: &Vec<Sexpr>) -> (r: SexprResult<Value<String>>)
    ensures
        value_result(r) == lit_form(data(items@)),
{
    proof {
        lemma_data(items@);
    }
    if items.len() != 3 {
        return Err(
            compile_err(
                "(lit …) takes a value and a datatype/lang, e.g. (lit \"3.14\" xsd:decimal) or (lit \"hi\" @en)",
            ),
        );
    }
    let value = match &items[1] {
        Sexpr::Str(s) => s.clone(),
        _ => {
            return Err(compile_err("(lit …) value must be a string literal"));
        },
    };
    if let Sexpr::Symbol(tag) = &items[2] {
        let chars = chars_of(tag.as_str());
        if chars.len() > 0 && chars[0] == '@' {
            return if is_language_tag(&chars) {
                Ok(Value::Tagged(value, tag.clone()))
            } else {
                Err(compile_err(join3("invalid language tag `", tag.as_str(), "`").as_str()))
            };
        }
    }
    match compile_node(&items[2], "datatype") {
        Ok(dt) => Ok(Value::Typed(value, dt)),
        Err(e) => Err(e),
    }
}

/// Whether a run of characters is a language tag.
fn is_language_tag(chars: &Vec<char>) -> (yes: bool)
    ensures
        yes == language_tag(chars@),
{
    if chars.len() < 2 || chars[0] != '@' {
        return false;
    }
    let mut i: usize = 1;
    while i < chars.len()
        invariant
            1 <= i <= chars.len(),
            forall|j: int| 1 <= j < i ==> ascii_alphanumeric(#[trigger] chars@[j]) || chars@[j] == '-',
        decreases chars.len() - i,
    {
        let c = chars[i];
        if !(is_alphanumeric(c) || c == '-') {
            assert(chars@[i as int] == c);
            return false;
        }
        i = i + 1;
    }
    true
}

} // verus!
