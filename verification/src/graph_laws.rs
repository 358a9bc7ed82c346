//! What a graph says, told form by form: which lines its Turtle document has, and which triples
//! it reads as.

use vstd::prelude::*;

use crate::clause_laws::lemma_values_give_all_ok;
use crate::datum::{Datum, Fault};
use crate::layout_laws::run_together;
use crate::lines::{all_ok, lemma_all_ok_values, lines};
use crate::quads::{Item, Object, Subject, Triple, turtle_items};
use crate::query_laws::{forms_behind, lemma_lines_run_together, starts_with};
use crate::rdfgraph::{
    Binding, Edge, GraphModel, Node, Value, binds, directives, edge_item, edge_text, graph_items,
    graph_text, namespace, node_iri, node_text, statements, unbound_in_edge, unbound_in_node,
    unbound_in_value, unbound_label, value_object, value_text,
};
use crate::terms::{binding, head, parts_at, variable};
use crate::text::{decimal, quoted};
use crate::turtle::{
    GraphForm, all_bindings, bindings_of, blank_label, edges_of, graph, graph_form, graph_forms,
    graph_triple, language_tag, lit_form, node, object, predicate_node, prefix_binding,
    prefix_bindings, rdf_binding, turtle, type_node, uses_type,
};
use crate::word_laws::{
    a_binding_binds_its_label, a_name_is_told_by_its_characters, an_iri_form_stands_for_its_iri,
    is_ascii_letter, is_binding, is_figure, is_iri_form, reads_as_name,
};

verus! {

// ---------------------------------------------------------------------------------------
// The lines of a graph
// ---------------------------------------------------------------------------------------

/// The forms of a row that do not start with the given symbol, in order.
pub open spec fn forms_without(fs: Seq<Datum>, k: Seq<char>) -> Seq<Datum>
    decreases fs.len(),
{
    if fs.len() == 0 {
        Seq::empty()
    } else if starts_with(fs.last(), k) {
        forms_without(fs.drop_last(), k)
    } else {
        forms_without(fs.drop_last(), k).push(fs.last())
    }
}

/// How a node is written: a prefixed name as it is, and the IRI of an `(iri "...")` form between
/// angle brackets.
pub open spec fn writes_node(d: Datum, t: Seq<char>) -> bool {
    ||| exists|k: int| d == Datum::Symbol(t) && #[trigger] reads_as_name(t, k)
    ||| exists|iri: Seq<char>| #[trigger] is_iri_form(d, iri) && t == "<"@ + iri + ">"@
}

/// How a predicate is written: `rdf:type` for the keyword `a`, else a node.
pub open spec fn writes_graph_predicate(d: Datum, t: Seq<char>) -> bool {
    writes_node(d, t) || (d == Datum::Symbol("a"@) && t == "rdf"@ + ":"@ + "type"@)
}

/// A language tag: an `@`, then one or more letters, figures and hyphens.
pub open spec fn reads_as_tag(tag: Seq<char>) -> bool {
    &&& tag.len() > 1
    &&& tag[0] == '@'
    &&& forall|i: int|
        0 < i < tag.len() ==> is_ascii_letter(#[trigger] tag[i]) || is_figure(tag[i]) || tag[i]
            == '-'
}

/// A `(lit "value" @lang)` form.
pub open spec fn is_tagged(d: Datum, value: Seq<char>, tag: Seq<char>) -> bool {
    d == Datum::List(seq![Datum::Symbol("lit"@), Datum::Str(value), Datum::Symbol(tag)])
        && reads_as_tag(tag)
}

/// A `(lit "value" datatype)` form.
pub open spec fn is_typed(d: Datum, value: Seq<char>, datatype: Datum) -> bool {
    d == Datum::List(seq![Datum::Symbol("lit"@), Datum::Str(value), datatype])
}

/// How an object is written: a string quoted, an integer in decimal, a literal with its tag or
/// its datatype behind it, or a node.
pub open spec fn writes_object(d: Datum, t: Seq<char>) -> bool {
    ||| d matches Datum::Str(s) && t == quoted(s)
    ||| d matches Datum::Int(n) && t == decimal(n as int)
    ||| writes_node(d, t)
    ||| exists|value: Seq<char>, tag: Seq<char>| #[trigger]
        is_tagged(d, value, tag) && t == quoted(value) + tag
    ||| exists|value: Seq<char>, datatype: Datum, dt: Seq<char>|
        #![trigger is_typed(d, value, datatype), writes_node(datatype, dt)]
        is_typed(d, value, datatype) && writes_node(datatype, dt) && t == quoted(value) + "^^"@ + dt
}

/// The line of a triple: its three terms, as they are written, and a full stop.
pub open spec fn writes_statement(form: Datum, line: Seq<char>) -> bool {
    form matches Datum::List(ts) && ts.len() == 3 && exists|
        s: Seq<char>,
        p: Seq<char>,
        o: Seq<char>,
    |
        #![trigger writes_node(ts[0], s), writes_graph_predicate(ts[1], p), writes_object(ts[2], o)]
        writes_node(ts[0], s) && writes_graph_predicate(ts[1], p) && writes_object(ts[2], o) && line
            == s + " "@ + p + " "@ + o + " ."@ + "\n"@
}

/// The line of a prefix binding.
pub open spec fn prefix_line_text(name: Seq<char>, iri: Seq<char>) -> Seq<char> {
    "@prefix "@ + name + ": "@ + ("<"@ + iri + ">"@) + " ."@ + "\n"@
}

pub open spec fn writes_directive(form: Datum, line: Seq<char>) -> bool {
    exists|name: Seq<char>, iri: Seq<char>| #[trigger]
        is_binding(form, name, iri) && line == prefix_line_text(name, iri)
}

/// Whether a row of bindings has one of a label.
pub open spec fn has_label(bs: Seq<Datum>, name: Seq<char>) -> bool {
    exists|i: int, iri: Seq<char>| 0 <= i < bs.len() && #[trigger] is_binding(bs[i], name, iri)
}

/// Whether a triple has `rdf:type` for its predicate, written out or as the keyword `a`.
pub open spec fn names_type(form: Datum) -> bool {
    form matches Datum::List(ts) && ts.len() == 3 && (ts[1] == Datum::Symbol("a"@) || ts[1]
        == Datum::Symbol("rdf"@ + ":"@ + "type"@))
}

/// Whether a graph has to be given a binding of `rdf:`: one of its triples names `rdf:type`, and
/// it does not bind `rdf:` itself.
pub open spec fn lacks_rdf(bs: Seq<Datum>, ts: Seq<Datum>) -> bool {
    (exists|i: int| 0 <= i < ts.len() && names_type(#[trigger] ts[i])) && !has_label(bs, "rdf"@)
}

/// Whether a datum is a graph with the given lines: a `(graph FORM...)`, with one line for each
/// binding of its `prefix` clauses, one for `rdf:` if it lacks it, and one for each other form,
/// in order.
pub open spec fn has_lines(d: Datum, heads: Seq<Seq<char>>, rows: Seq<Seq<char>>) -> bool {
    &&& starts_with(d, "graph"@)
    &&& forms_have_lines(
        forms_behind(d->List_0.skip(1), "prefix"@),
        forms_without(d->List_0.skip(1), "prefix"@),
        heads,
        rows,
    )
}

pub open spec fn forms_have_lines(
    bs: Seq<Datum>,
    ts: Seq<Datum>,
    heads: Seq<Seq<char>>,
    rows: Seq<Seq<char>>,
) -> bool {
    &&& heads.len() == bs.len() + (if lacks_rdf(bs, ts) {
        1int
    } else {
        0int
    })
    &&& forall|j: int| 0 <= j < bs.len() ==> writes_directive(#[trigger] bs[j], heads[j])
    &&& lacks_rdf(bs, ts) ==> heads.last() == prefix_line_text(
        "rdf"@,
        "http://www.w3.org/1999/02/22-rdf-syntax-ns#"@,
    )
    &&& rows.len() == ts.len()
    &&& forall|j: int| 0 <= j < ts.len() ==> writes_statement(#[trigger] ts[j], rows[j])
}

// ---------------------------------------------------------------------------------------
// The triples of a graph
// ---------------------------------------------------------------------------------------

/// Whether the `i`-th of a row of bindings is the last one of a label, and binds it to a
/// namespace.
pub open spec fn is_last_binding(
    bs: Seq<Datum>,
    name: Seq<char>,
    iri: Seq<char>,
    i: int,
) -> bool {
    &&& 0 <= i < bs.len()
    &&& is_binding(bs[i], name, iri)
    &&& forall|j: int, other: Seq<char>|
        i < j < bs.len() ==> !#[trigger] is_binding(bs[j], name, other)
}

/// The namespace of a label in a graph: that of its last binding, or the one of RDF for a label
/// `rdf` that the graph uses for `rdf:type` and does not bind.
pub open spec fn has_namespace(
    bs: Seq<Datum>,
    ts: Seq<Datum>,
    name: Seq<char>,
    iri: Seq<char>,
) -> bool {
    ||| exists|i: int| #[trigger] is_last_binding(bs, name, iri, i)
    ||| lacks_rdf(bs, ts) && name == "rdf"@ && iri
        == "http://www.w3.org/1999/02/22-rdf-syntax-ns#"@
}

/// The IRI that a node denotes: that of an `(iri "...")` form, or the namespace of a label and
/// the local part behind it.
pub open spec fn denotes_node(bs: Seq<Datum>, ts: Seq<Datum>, d: Datum, iri: Seq<char>) -> bool {
    ||| is_iri_form(d, iri)
    ||| d matches Datum::Symbol(s) && exists|k: int, ns: Seq<char>|
        #![trigger reads_as_name(s, k), has_namespace(bs, ts, s.take(k), ns)]
        reads_as_name(s, k) && has_namespace(bs, ts, s.take(k), ns) && iri == ns + s.skip(k + 1)
}

/// The IRI that a predicate denotes: that of `rdf:type` for the keyword `a`, else that of a
/// node.
pub open spec fn denotes_predicate(
    bs: Seq<Datum>,
    ts: Seq<Datum>,
    d: Datum,
    iri: Seq<char>,
) -> bool {
    ||| denotes_node(bs, ts, d, iri)
    ||| d == Datum::Symbol("a"@) && exists|ns: Seq<char>| #[trigger]
        has_namespace(bs, ts, "rdf"@, ns) && iri == ns + "type"@
}

/// What an object denotes: a string a literal of `xsd:string`, an integer its decimal of
/// `xsd:integer`, a literal with a language tag one of `rdf:langString`, a literal with a
/// datatype one of what the datatype denotes, and a node its IRI.
pub open spec fn denotes_object(
    bs: Seq<Datum>,
    ts: Seq<Datum>,
    d: Datum,
    o: Object<Seq<char>>,
) -> bool {
    match o {
        Object::Iri(iri) => denotes_node(bs, ts, d, iri),
        Object::Literal { value, datatype } => {
            ||| d == Datum::Str(value) && datatype == "http://www.w3.org/2001/XMLSchema#string"@
            ||| d matches Datum::Int(n) && value == decimal(n as int) && datatype
                == "http://www.w3.org/2001/XMLSchema#integer"@
            ||| exists|tag: Seq<char>| #[trigger]
                is_tagged(d, value, tag) && datatype
                    == "http://www.w3.org/1999/02/22-rdf-syntax-ns#langString"@
            ||| exists|dt: Datum|
                #![trigger is_typed(d, value, dt)]
                is_typed(d, value, dt) && denotes_node(bs, ts, dt, datatype)
        },
        Object::Other => false,
    }
}

/// Whether a triple is what a form `(S P O)` means: its subject what the first item denotes, its
/// predicate what the second denotes, its object what the third denotes.
pub open spec fn means(bs: Seq<Datum>, ts: Seq<Datum>, form: Datum, item: Item) -> bool {
    form matches Datum::List(terms) && terms.len() == 3 && (item matches Item::Triple(t)
        && denotes_predicate(bs, ts, terms[1], t.predicate) && denotes_object(
        bs,
        ts,
        terms[2],
        t.object,
    ) && (t.subject matches Subject::Iri(s) && denotes_node(bs, ts, terms[0], s)))
}

/// Whether a row of triples is what the forms of a graph mean, one by one and in order.
pub open spec fn has_meaning(d: Datum, items: Seq<Item>) -> bool {
    let bs = forms_behind(d->List_0.skip(1), "prefix"@);
    let ts = forms_without(d->List_0.skip(1), "prefix"@);
    &&& items.len() == ts.len()
    &&& forall|i: int| 0 <= i < ts.len() ==> means(bs, ts, #[trigger] ts[i], items[i])
}

// ---------------------------------------------------------------------------------------
// Nodes
// ---------------------------------------------------------------------------------------

/// What a node is: a name of a label and a local part, or an IRI.
proof fn lemma_node(d: Datum, role: Seq<char>)
    ensures
        node(d, role) matches Ok(Node::Name(l, x)) ==> d == Datum::Symbol(l + seq![':'] + x)
            && reads_as_name(l + seq![':'] + x, l.len() as int),
        node(d, role) matches Ok(Node::Iri(iri)) ==> is_iri_form(d, iri),
        forall|s: Seq<char>, k: int|
            d == Datum::Symbol(s) && #[trigger] reads_as_name(s, k) ==> node(d, role) == Ok::<
                Node<Seq<char>>,
                Fault,
            >(Node::Name(s.take(k), s.skip(k + 1))),
        forall|iri: Seq<char>| #[trigger]
            is_iri_form(d, iri) ==> node(d, role) == Ok::<Node<Seq<char>>, Fault>(Node::Iri(iri)),
{
    match d {
        Datum::Symbol(s) => {
            a_name_is_told_by_its_characters(s);
            assert forall|k: int| #[trigger] reads_as_name(s, k) implies node(d, role) == Ok::<
                Node<Seq<char>>,
                Fault,
            >(Node::Name(s.take(k), s.skip(k + 1))) by {
                let m = choose|m: int| #[trigger] parts_at(s, m);
                assert(parts_at(s, k));
                assert(reads_as_name(s, m));
                assert(m == k);
                if k > 0 {
                    assert(s.take(k)[0] == s[0]);
                }
                assert(!blank_label(s));
                assert(!variable(s));
            }
            if let Ok(Node::Name(l, x)) = node(d, role) {
                let m = choose|m: int| #[trigger] parts_at(s, m);
                assert(reads_as_name(s, m));
                assert(s =~= l + seq![':'] + x);
            }
        },
        Datum::List(items) => {
            an_iri_form_stands_for_its_iri(items);
            if let Ok(Node::Iri(iri)) = node(d, role) {
                assert(items =~= seq![Datum::Symbol("iri"@), Datum::Str(iri)]);
            }
        },
        _ => {},
    }
}

proof fn lemma_node_text(d: Datum, role: Seq<char>, t: Seq<char>)
    ensures
        writes_node(d, t) <==> node(d, role) is Ok && t == node_text(node(d, role)->Ok_0),
{
    lemma_node(d, role);
    reveal_strlit(":");
    assert(":"@ =~= seq![':']);
    if node(d, role) is Ok {
        match node(d, role)->Ok_0 {
            Node::Name(l, x) => {
                assert(l + ":"@ + x =~= l + seq![':'] + x);
                assert(reads_as_name(l + seq![':'] + x, l.len() as int));
            },
            Node::Iri(iri) => {
                assert(is_iri_form(d, iri));
            },
        }
    }
    if writes_node(d, t) {
        if exists|k: int| d == Datum::Symbol(t) && #[trigger] reads_as_name(t, k) {
            let k = choose|k: int| d == Datum::Symbol(t) && #[trigger] reads_as_name(t, k);
            assert(t.take(k) + ":"@ + t.skip(k + 1) =~= t);
        } else {
            let iri = choose|iri: Seq<char>| #[trigger]
                is_iri_form(d, iri) && t == "<"@ + iri + ">"@;
            assert(node(d, role) == Ok::<Node<Seq<char>>, Fault>(Node::Iri(iri)));
        }
    }
}

proof fn lemma_a_is_no_node(t: Seq<char>)
    ensures
        !writes_node(Datum::Symbol("a"@), t),
        forall|role: Seq<char>| #[trigger] node(Datum::Symbol("a"@), role) is Err,
{
    reveal_strlit("a");
    assert("a"@.len() == 1 && "a"@[0] == 'a');
    assert forall|k: int| !#[trigger] reads_as_name("a"@, k) by {}
    a_name_is_told_by_its_characters("a"@);
    assert forall|role: Seq<char>| #[trigger] node(Datum::Symbol("a"@), role) is Err by {}
}

proof fn lemma_predicate_text(d: Datum, t: Seq<char>)
    ensures
        writes_graph_predicate(d, t) <==> predicate_node(d) is Ok && t == node_text(
            predicate_node(d)->Ok_0,
        ),
{
    lemma_node_text(d, "predicate"@, t);
    lemma_a_is_no_node(t);
}

proof fn lemma_tag(tag: Seq<char>)
    ensures
        reads_as_tag(tag) <==> language_tag(tag),
{
}

/// What a `(lit ...)` form is.
proof fn lemma_lit(d: Datum)
    requires
        d is List,
    ensures
        forall|value: Seq<char>, tag: Seq<char>| #[trigger]
            is_tagged(d, value, tag) <==> (head(d->List_0) == Some("lit"@) && lit_form(d->List_0)
                == Ok::<Value<Seq<char>>, Fault>(Value::Tagged(value, tag))),
        forall|value: Seq<char>, dt: Datum| #[trigger]
            is_typed(d, value, dt) && node(dt, "datatype"@) is Ok ==> head(d->List_0) == Some(
                "lit"@,
            ) && lit_form(d->List_0) == Ok::<Value<Seq<char>>, Fault>(
                Value::Typed(value, node(dt, "datatype"@)->Ok_0),
            ),
        head(d->List_0) == Some("lit"@) && lit_form(d->List_0) is Ok && lit_form(
            d->List_0,
        )->Ok_0 is Typed ==> is_typed(
            d,
            lit_form(d->List_0)->Ok_0->Typed_0,
            d->List_0[2],
        ) && node(d->List_0[2], "datatype"@) == Ok::<Node<Seq<char>>, Fault>(
            lit_form(d->List_0)->Ok_0->Typed_1,
        ),
        lit_form(d->List_0) is Ok ==> lit_form(d->List_0)->Ok_0 is Typed || lit_form(
            d->List_0,
        )->Ok_0 is Tagged,
{
    let items = d->List_0;
    assert forall|value: Seq<char>, tag: Seq<char>| #[trigger] is_tagged(d, value, tag) <==> (head(
        items,
    ) == Some("lit"@) && lit_form(items) == Ok::<Value<Seq<char>>, Fault>(
        Value::Tagged(value, tag),
    )) by {
        lemma_tag(tag);
        if lit_form(items) == Ok::<Value<Seq<char>>, Fault>(Value::Tagged(value, tag)) && head(
            items,
        ) == Some("lit"@) {
            assert(items =~= seq![Datum::Symbol("lit"@), Datum::Str(value), Datum::Symbol(tag)]);
        }
    }
    assert forall|value: Seq<char>, dt: Datum| #[trigger] is_typed(d, value, dt) && node(
        dt,
        "datatype"@,
    ) is Ok implies head(items) == Some("lit"@) && lit_form(items) == Ok::<
        Value<Seq<char>>,
        Fault,
    >(Value::Typed(value, node(dt, "datatype"@)->Ok_0)) by {
        assert(items[2] == dt);
        if let Datum::Symbol(s) = dt {
            lemma_node(dt, "datatype"@);
            let n = node(dt, "datatype"@)->Ok_0;
            let l = n->Name_0;
            assert(s[0] != '@') by {
                if l.len() > 0 {
                    assert(s.take(l.len() as int)[0] == s[0]);
                } else {
                    assert(s[0] == ':');
                }
            }
        }
    }
    if head(items) == Some("lit"@) && lit_form(items) is Ok && lit_form(items)->Ok_0 is Typed {
        let value = lit_form(items)->Ok_0->Typed_0;
        assert(items =~= seq![Datum::Symbol("lit"@), Datum::Str(value), items[2]]);
    }
}

proof fn lemma_heads()
    ensures
        "iri"@ != "lit"@,
{
    reveal_strlit("iri");
    reveal_strlit("lit");
    assert("iri"@[0] == 'i' && "lit"@[0] == 'l');
}

proof fn lemma_object_text(d: Datum, t: Seq<char>)
    ensures
        writes_object(d, t) <==> object(d) is Ok && t == value_text(object(d)->Ok_0),
{
    lemma_node_text(d, "object"@, t);
    lemma_heads();
    match d {
        Datum::List(items) => {
            lemma_node(d, "object"@);
            lemma_lit(d);
            an_iri_form_stands_for_its_iri(items);
            if object(d) is Ok && object(d)->Ok_0 is Typed {
                let v = object(d)->Ok_0;
                assert(is_typed(d, v->Typed_0, items[2]));
                lemma_node_text(items[2], "datatype"@, node_text(v->Typed_1));
                assert(writes_node(items[2], node_text(v->Typed_1)));
            }
            if object(d) is Ok && object(d)->Ok_0 is Tagged {
                assert(is_tagged(d, object(d)->Ok_0->Tagged_0, object(d)->Ok_0->Tagged_1));
            }
            assert forall|value: Seq<char>, dt: Datum, x: Seq<char>|
                #![trigger is_typed(d, value, dt), writes_node(dt, x)]
                is_typed(d, value, dt) && writes_node(dt, x) implies object(d) is Ok && value_text(
                object(d)->Ok_0,
            ) == quoted(value) + "^^"@ + x by {
                lemma_node_text(dt, "datatype"@, x);
            }
            assert forall|value: Seq<char>, tag: Seq<char>| #[trigger]
                is_tagged(d, value, tag) implies object(d) == Ok::<Value<Seq<char>>, Fault>(
                Value::Tagged(value, tag),
            ) by {}
        },
        _ => {},
    }
}

proof fn lemma_statement(form: Datum, line: Seq<char>)
    ensures
        writes_statement(form, line) <==> (form is List && graph_triple(form->List_0) is Ok && line
            == edge_text(graph_triple(form->List_0)->Ok_0) + "\n"@),
{
    if let Datum::List(ts) = form {
        if ts.len() == 3 {
            if graph_triple(ts) is Ok {
                let e = graph_triple(ts)->Ok_0;
                let (s, p, o) = (
                    node_text(e.subject),
                    node_text(e.predicate),
                    value_text(e.object),
                );
                lemma_node_text(ts[0], "subject"@, s);
                lemma_predicate_text(ts[1], p);
                lemma_object_text(ts[2], o);
                assert(writes_node(ts[0], s) && writes_graph_predicate(ts[1], p) && writes_object(
                    ts[2],
                    o,
                ));
            }
            if writes_statement(form, line) {
                let (s, p, o) = choose|s: Seq<char>, p: Seq<char>, o: Seq<char>|
                    #![trigger writes_node(ts[0], s), writes_graph_predicate(ts[1], p), writes_object(ts[2], o)]
                    writes_node(ts[0], s) && writes_graph_predicate(ts[1], p) && writes_object(
                        ts[2],
                        o,
                    ) && line == s + " "@ + p + " "@ + o + " ."@ + "\n"@;
                lemma_node_text(ts[0], "subject"@, s);
                lemma_predicate_text(ts[1], p);
                lemma_object_text(ts[2], o);
            }
        }
    }
}

// ---------------------------------------------------------------------------------------
// A row of forms
// ---------------------------------------------------------------------------------------

proof fn lemma_binding(form: Datum)
    ensures
        forall|name: Seq<char>, iri: Seq<char>| #[trigger]
            is_binding(form, name, iri) <==> prefix_binding(form) == Ok::<Binding, Fault>(
                (name, iri),
            ),
{
    a_binding_binds_its_label(form, "prefix name must be a symbol, e.g. ex"@);
}

/// Whether bindings are those of a row of forms, one by one.
spec fn bindings_match(fs: Seq<Datum>, bs: Seq<Binding>) -> bool {
    &&& fs.len() == bs.len()
    &&& forall|j: int| 0 <= j < fs.len() ==> is_binding(#[trigger] fs[j], bs[j].0, bs[j].1)
}

/// Whether triples are those of a row of forms, one by one.
spec fn edges_match(fs: Seq<Datum>, es: Seq<Edge<Seq<char>>>) -> bool {
    &&& fs.len() == es.len()
    &&& forall|j: int|
        0 <= j < fs.len() ==> (#[trigger] fs[j]) is List && graph_triple(fs[j]->List_0) == Ok::<
            Edge<Seq<char>>,
            Fault,
        >(es[j])
}

proof fn lemma_prefix_head(d: Datum)
    requires
        d is List,
    ensures
        starts_with(d, "prefix"@) <==> head(d->List_0) == Some("prefix"@),
{
    let items = d->List_0;
    if head(items) == Some("prefix"@) {
        assert(items[0] == Datum::Symbol("prefix"@));
    }
}

/// The forms of a graph give its bindings and its triples.
proof fn lemma_forms_match(ds: Seq<Datum>)
    requires
        all_ok(graph_forms(ds)) is Ok,
    ensures
        bindings_match(
            forms_behind(ds, "prefix"@),
            bindings_of(all_ok(graph_forms(ds))->Ok_0),
        ),
        edges_match(forms_without(ds, "prefix"@), edges_of(all_ok(graph_forms(ds))->Ok_0)),
    decreases ds.len(),
{
    let rs = graph_forms(ds);
    let fs = all_ok(rs)->Ok_0;
    if ds.len() > 0 {
        let before = ds.drop_last();
        let last = ds.last();
        assert(rs.drop_last() =~= graph_forms(before));
        lemma_forms_match(before);
        let gs = all_ok(graph_forms(before))->Ok_0;
        assert(rs.last() == graph_form(last));
        assert(fs.drop_last() =~= gs);
        lemma_prefix_head(last);
        let (bs, cs) = (forms_behind(ds, "prefix"@), bindings_of(fs));
        let (ts, es) = (forms_without(ds, "prefix"@), edges_of(fs));
        if starts_with(last, "prefix"@) {
            let forms = last->List_0.skip(1);
            let ps = prefix_bindings(forms);
            lemma_all_ok_values(ps);
            let n = forms_behind(before, "prefix"@).len() as int;
            assert forall|j: int| 0 <= j < bs.len() implies is_binding(
                #[trigger] bs[j],
                cs[j].0,
                cs[j].1,
            ) by {
                if j < n {
                    assert(bs[j] == forms_behind(before, "prefix"@)[j]);
                    assert(cs[j] == bindings_of(gs)[j]);
                } else {
                    assert(bs[j] == forms[j - n]);
                    assert(ps[j - n] == prefix_binding(forms[j - n]));
                    lemma_binding(bs[j]);
                }
            }
        } else {
            assert forall|j: int| 0 <= j < ts.len() implies (#[trigger] ts[j]) is List
                && graph_triple(ts[j]->List_0) == Ok::<Edge<Seq<char>>, Fault>(es[j]) by {
                if j < ts.len() - 1 {
                    assert(ts[j] == forms_without(before, "prefix"@)[j]);
                    assert(es[j] == edges_of(gs)[j]);
                }
            }
        }
    }
}

proof fn lemma_has_label(fs: Seq<Datum>, bs: Seq<Binding>, name: Seq<char>)
    requires
        bindings_match(fs, bs),
    ensures
        has_label(fs, name) <==> binds(bs, name),
{
    if has_label(fs, name) {
        let (i, iri) = choose|i: int, iri: Seq<char>|
            0 <= i < fs.len() && #[trigger] is_binding(fs[i], name, iri);
        lemma_binding(fs[i]);
        assert(is_binding(fs[i], bs[i].0, bs[i].1));
        assert(bs[i].0 == name);
    }
    if binds(bs, name) {
        let i = choose|i: int| 0 <= i < bs.len() && (#[trigger] bs[i]).0 == name;
        assert(is_binding(fs[i], bs[i].0, bs[i].1));
    }
}

proof fn lemma_names_type(form: Datum)
    requires
        form is List,
        graph_triple(form->List_0) is Ok,
    ensures
        names_type(form) <==> graph_triple(form->List_0)->Ok_0.predicate == type_node(),
{
    let ts = form->List_0;
    let p = graph_triple(ts)->Ok_0.predicate;
    let long = "rdf"@ + ":"@ + "type"@;
    reveal_strlit("rdf");
    reveal_strlit(":");
    reveal_strlit("type");
    assert(":"@ =~= seq![':']);
    lemma_node(ts[1], "predicate"@);
    if ts[1] == Datum::Symbol(long) && ts[1] != Datum::Symbol("a"@) {
        assert(long.take(3) =~= "rdf"@);
        assert(long.skip(4) =~= "type"@);
        assert(reads_as_name(long, 3));
        assert(p == Node::Name(long.take(3), long.skip(4)));
    }
    if p == type_node() && ts[1] != Datum::Symbol("a"@) {
        assert(ts[1] == Datum::Symbol("rdf"@ + seq![':'] + "type"@));
        assert("rdf"@ + seq![':'] + "type"@ =~= long);
    }
}

proof fn lemma_lacks_rdf(
    fs: Seq<Datum>,
    bs: Seq<Binding>,
    ts: Seq<Datum>,
    es: Seq<Edge<Seq<char>>>,
)
    requires
        bindings_match(fs, bs),
        edges_match(ts, es),
    ensures
        lacks_rdf(fs, ts) <==> uses_type(es) && !binds(bs, "rdf"@),
{
    lemma_has_label(fs, bs, "rdf"@);
    if exists|i: int| 0 <= i < ts.len() && names_type(#[trigger] ts[i]) {
        let i = choose|i: int| 0 <= i < ts.len() && names_type(#[trigger] ts[i]);
        lemma_names_type(ts[i]);
        assert(es[i].predicate == type_node());
    }
    if uses_type(es) {
        let i = choose|i: int| 0 <= i < es.len() && (#[trigger] es[i]).predicate == type_node();
        assert(graph_triple(ts[i]->List_0) == Ok::<Edge<Seq<char>>, Fault>(es[i]));
        lemma_names_type(ts[i]);
    }
}

/// The lines of a graph with the given bindings and triples.
spec fn head_lines(bs: Seq<Binding>) -> Seq<Seq<char>> {
    directives(bs).map_values(|t: Seq<char>| ""@ + t + "\n"@)
}

spec fn row_lines(es: Seq<Edge<Seq<char>>>) -> Seq<Seq<char>> {
    statements(es).map_values(|t: Seq<char>| ""@ + t + "\n"@)
}

proof fn lemma_graph_has_lines(d: Datum)
    requires
        graph(d) is Ok,
    ensures
        has_lines(d, head_lines(graph(d)->Ok_0.bindings), row_lines(graph(d)->Ok_0.edges)),
        graph_text(graph(d)->Ok_0) == run_together(head_lines(graph(d)->Ok_0.bindings))
            + run_together(row_lines(graph(d)->Ok_0.edges)),
{
    let g = graph(d)->Ok_0;
    let items = d->List_0;
    let ds = items.skip(1);
    let fs = all_ok(graph_forms(ds))->Ok_0;
    let (bs, ts) = (forms_behind(ds, "prefix"@), forms_without(ds, "prefix"@));
    let (heads, rows) = (head_lines(g.bindings), row_lines(g.edges));
    assert(items[0] == Datum::Symbol("graph"@));
    lemma_forms_match(ds);
    lemma_lacks_rdf(bs, bindings_of(fs), ts, edges_of(fs));
    reveal_strlit("");
    assert forall|j: int| 0 <= j < bs.len() implies writes_directive(
        #[trigger] bs[j],
        heads[j],
    ) by {
        let b = bindings_of(fs)[j];
        assert(g.bindings[j] == b);
        assert(is_binding(bs[j], b.0, b.1));
        assert(heads[j] =~= prefix_line_text(b.0, b.1));
    }
    if lacks_rdf(bs, ts) {
        let b = rdf_binding();
        assert(g.bindings.last() == b);
        assert(heads.last() =~= prefix_line_text(b.0, b.1));
    }
    assert forall|j: int| 0 <= j < ts.len() implies writes_statement(#[trigger] ts[j], rows[j]) by {
        assert(graph_triple(ts[j]->List_0) == Ok::<Edge<Seq<char>>, Fault>(g.edges[j]));
        assert(rows[j] =~= edge_text(g.edges[j]) + "\n"@);
        lemma_statement(ts[j], rows[j]);
    }
    lemma_lines_run_together(directives(g.bindings), ""@, "\n"@);
    lemma_lines_run_together(statements(g.edges), ""@, "\n"@);
}

/// The namespace of a label is that of its last binding.
proof fn lemma_namespace(fs: Seq<Datum>, bs: Seq<Binding>, name: Seq<char>, iri: Seq<char>)
    requires
        bindings_match(fs, bs),
    ensures
        (exists|i: int| #[trigger] is_last_binding(fs, name, iri, i)) <==> binds(bs, name)
            && namespace(bs, name) == iri,
    decreases fs.len(),
{
    if fs.len() > 0 {
        let n = fs.len() - 1;
        let (gs, cs) = (fs.drop_last(), bs.drop_last());
        assert forall|j: int| 0 <= j < gs.len() implies is_binding(
            #[trigger] gs[j],
            cs[j].0,
            cs[j].1,
        ) by {
            assert(gs[j] == fs[j]);
        }
        lemma_namespace(gs, cs, name, iri);
        assert(is_binding(fs[n], bs[n].0, bs[n].1));
        lemma_binding(fs[n]);
        if bs.last().0 == name {
            assert(binds(bs, name)) by {
                assert(bs[n].0 == name);
            }
            if bs.last().1 == iri {
                assert(is_last_binding(fs, name, iri, n));
            }
            if exists|i: int| #[trigger] is_last_binding(fs, name, iri, i) {
                let i = choose|i: int| #[trigger] is_last_binding(fs, name, iri, i);
                if i < n {
                    assert(!is_binding(fs[n], name, bs[n].1));
                }
            }
        } else {
            assert(binds(bs, name) <==> binds(cs, name)) by {
                if binds(bs, name) {
                    let i = choose|i: int| 0 <= i < bs.len() && (#[trigger] bs[i]).0 == name;
                    assert(cs[i] == bs[i]);
                }
                if binds(cs, name) {
                    let i = choose|i: int| 0 <= i < cs.len() && (#[trigger] cs[i]).0 == name;
                    assert(bs[i] == cs[i]);
                }
            }
            if exists|i: int| #[trigger] is_last_binding(gs, name, iri, i) {
                let i = choose|i: int| #[trigger] is_last_binding(gs, name, iri, i);
                assert(gs[i] == fs[i]);
                assert forall|j: int, other: Seq<char>|
                    i < j < fs.len() implies !#[trigger] is_binding(fs[j], name, other) by {
                    if j < n {
                        assert(gs[j] == fs[j]);
                    }
                }
                assert(is_last_binding(fs, name, iri, i));
            }
            if exists|i: int| #[trigger] is_last_binding(fs, name, iri, i) {
                let i = choose|i: int| #[trigger] is_last_binding(fs, name, iri, i);
                assert(i < n);
                assert(gs[i] == fs[i]);
                assert forall|j: int, other: Seq<char>|
                    i < j < gs.len() implies !#[trigger] is_binding(gs[j], name, other) by {
                    assert(gs[j] == fs[j]);
                }
                assert(is_last_binding(gs, name, iri, i));
            }
        }
    }
}

/// The forms of a graph with the bindings that it is given.
spec fn env_matches(
    bs: Seq<Datum>,
    ts: Seq<Datum>,
    own: Seq<Binding>,
    all: Seq<Binding>,
) -> bool {
    &&& bindings_match(bs, own)
    &&& all == (if lacks_rdf(bs, ts) {
        own.push(rdf_binding())
    } else {
        own
    })
}

proof fn lemma_has_namespace(
    bs: Seq<Datum>,
    ts: Seq<Datum>,
    own: Seq<Binding>,
    all: Seq<Binding>,
    name: Seq<char>,
    iri: Seq<char>,
)
    requires
        env_matches(bs, ts, own, all),
    ensures
        has_namespace(bs, ts, name, iri) <==> binds(all, name) && namespace(all, name) == iri,
{
    lemma_namespace(bs, own, name, iri);
    lemma_has_label(bs, own, "rdf"@);
    if lacks_rdf(bs, ts) {
        let n = own.len() as int;
        assert(all[n] == rdf_binding());
        assert(all.drop_last() =~= own);
        assert(all.last() == rdf_binding());
        if name == "rdf"@ {
            assert(all[n].0 == name);
            if exists|i: int| #[trigger] is_last_binding(bs, name, iri, i) {
                let i = choose|i: int| #[trigger] is_last_binding(bs, name, iri, i);
                assert(is_binding(bs[i], name, iri));
                assert(has_label(bs, "rdf"@));
            }
        } else {
            assert(binds(all, name) <==> binds(own, name)) by {
                if binds(all, name) {
                    let i = choose|i: int| 0 <= i < all.len() && (#[trigger] all[i]).0 == name;
                    assert(own[i] == all[i]);
                }
                if binds(own, name) {
                    let i = choose|i: int| 0 <= i < own.len() && (#[trigger] own[i]).0 == name;
                    assert(all[i] == own[i]);
                }
            }
        }
    }
}

/// Whether the label of a node, if it has one, is bound.
spec fn node_bound(all: Seq<Binding>, n: Node<Seq<char>>) -> bool {
    n matches Node::Name(l, _) ==> binds(all, l)
}

proof fn lemma_denotes_node(
    bs: Seq<Datum>,
    ts: Seq<Datum>,
    own: Seq<Binding>,
    all: Seq<Binding>,
    d: Datum,
    role: Seq<char>,
    iri: Seq<char>,
)
    requires
        env_matches(bs, ts, own, all),
    ensures
        denotes_node(bs, ts, d, iri) <==> node(d, role) is Ok && node_bound(
            all,
            node(d, role)->Ok_0,
        ) && node_iri(all, node(d, role)->Ok_0) == iri,
{
    lemma_node(d, role);
    if node(d, role) is Ok {
        let n = node(d, role)->Ok_0;
        match n {
            Node::Name(l, x) => {
                let s = l + seq![':'] + x;
                let k = l.len() as int;
                assert(s.take(k) =~= l);
                assert(s.skip(k + 1) =~= x);
                lemma_has_namespace(bs, ts, own, all, l, namespace(all, l));
                assert(reads_as_name(s, k));
                if node_bound(all, n) && node_iri(all, n) == iri {
                    assert(has_namespace(bs, ts, s.take(k), namespace(all, l)));
                }
            },
            Node::Iri(_) => {},
        }
    }
    if denotes_node(bs, ts, d, iri) && !is_iri_form(d, iri) {
        let s = d->Symbol_0;
        let (k, ns) = choose|k: int, ns: Seq<char>|
            #![trigger reads_as_name(s, k), has_namespace(bs, ts, s.take(k), ns)]
            reads_as_name(s, k) && has_namespace(bs, ts, s.take(k), ns) && iri == ns + s.skip(
                k + 1,
            );
        lemma_has_namespace(bs, ts, own, all, s.take(k), ns);
        assert(node(d, role) == Ok::<Node<Seq<char>>, Fault>(
            Node::Name(s.take(k), s.skip(k + 1)),
        ));
    }
}

proof fn lemma_denotes_predicate(
    bs: Seq<Datum>,
    ts: Seq<Datum>,
    own: Seq<Binding>,
    all: Seq<Binding>,
    d: Datum,
    iri: Seq<char>,
)
    requires
        env_matches(bs, ts, own, all),
    ensures
        denotes_predicate(bs, ts, d, iri) <==> predicate_node(d) is Ok && node_bound(
            all,
            predicate_node(d)->Ok_0,
        ) && node_iri(all, predicate_node(d)->Ok_0) == iri,
{
    lemma_denotes_node(bs, ts, own, all, d, "predicate"@, iri);
    lemma_a_is_no_node(iri);
    if d == Datum::Symbol("a"@) {
        assert(node(d, "predicate"@) is Err);
        let ns = namespace(all, "rdf"@);
        lemma_has_namespace(bs, ts, own, all, "rdf"@, ns);
        if exists|m: Seq<char>| #[trigger]
            has_namespace(bs, ts, "rdf"@, m) && iri == m + "type"@ {
            let m = choose|m: Seq<char>| #[trigger]
                has_namespace(bs, ts, "rdf"@, m) && iri == m + "type"@;
            lemma_has_namespace(bs, ts, own, all, "rdf"@, m);
        }
    }
}

/// Whether the labels of an object are bound.
spec fn value_bound(all: Seq<Binding>, v: Value<Seq<char>>) -> bool {
    &&& v matches Value::Node(n) ==> node_bound(all, n)
    &&& v matches Value::Typed(_, dt) ==> node_bound(all, dt)
}

proof fn lemma_denotes_object(
    bs: Seq<Datum>,
    ts: Seq<Datum>,
    own: Seq<Binding>,
    all: Seq<Binding>,
    d: Datum,
    o: Object<Seq<char>>,
)
    requires
        env_matches(bs, ts, own, all),
    ensures
        denotes_object(bs, ts, d, o) <==> object(d) is Ok && value_bound(all, object(d)->Ok_0)
            && value_object(all, object(d)->Ok_0) == o,
{
    lemma_heads();
    lemma_node(d, "object"@);
    if let Object::Iri(iri) = o {
        lemma_denotes_node(bs, ts, own, all, d, "object"@, iri);
    }
    if let Datum::List(items) = d {
        lemma_lit(d);
        an_iri_form_stands_for_its_iri(items);
        if object(d) is Ok {
            let v = object(d)->Ok_0;
            if v is Typed {
                assert(is_typed(d, v->Typed_0, items[2]));
                let dt = node_iri(all, v->Typed_1);
                lemma_denotes_node(bs, ts, own, all, items[2], "datatype"@, dt);
            }
            if v is Tagged {
                assert(is_tagged(d, v->Tagged_0, v->Tagged_1));
            }
        }
        if o is Literal {
            let (value, datatype) = (o->value, o->datatype);
            assert forall|dt: Datum|
                #![trigger is_typed(d, value, dt)]
                is_typed(d, value, dt) && denotes_node(bs, ts, dt, datatype) implies object(
                d,
            ) is Ok && value_bound(all, object(d)->Ok_0) && value_object(all, object(d)->Ok_0)
                == o by {
                lemma_denotes_node(bs, ts, own, all, dt, "datatype"@, datatype);
            }
            assert forall|tag: Seq<char>| #[trigger] is_tagged(d, value, tag) implies object(d)
                == Ok::<Value<Seq<char>>, Fault>(Value::Tagged(value, tag)) by {}
        }
    } else {
        assert forall|value: Seq<char>, tag: Seq<char>| !#[trigger] is_tagged(d, value, tag) by {}
        assert forall|value: Seq<char>, dt: Datum| !#[trigger] is_typed(d, value, dt) by {}
    }
}

proof fn lemma_means(
    bs: Seq<Datum>,
    ts: Seq<Datum>,
    own: Seq<Binding>,
    all: Seq<Binding>,
    form: Datum,
    item: Item,
)
    requires
        env_matches(bs, ts, own, all),
    ensures
        means(bs, ts, form, item) <==> form is List && graph_triple(form->List_0) is Ok
            && unbound_in_edge(graph_triple(form->List_0)->Ok_0, all) is None && edge_item(
            all,
            graph_triple(form->List_0)->Ok_0,
        ) == item,
{
    if let Datum::List(terms) = form {
        if terms.len() == 3 {
            if let Item::Triple(t) = item {
                lemma_denotes_predicate(bs, ts, own, all, terms[1], t.predicate);
                lemma_denotes_object(bs, ts, own, all, terms[2], t.object);
                if let Subject::Iri(s) = t.subject {
                    lemma_denotes_node(bs, ts, own, all, terms[0], "subject"@, s);
                }
            }
        }
    }
}

proof fn lemma_all_bound(es: Seq<Edge<Seq<char>>>, bs: Seq<Binding>)
    ensures
        unbound_label(es, bs) is None <==> forall|i: int|
            0 <= i < es.len() ==> unbound_in_edge(#[trigger] es[i], bs) is None,
    decreases es.len(),
{
    if es.len() > 0 {
        let before = es.drop_last();
        lemma_all_bound(before, bs);
        if unbound_label(es, bs) is None {
            assert forall|i: int| 0 <= i < es.len() implies unbound_in_edge(
                #[trigger] es[i],
                bs,
            ) is None by {
                if i < before.len() {
                    assert(before[i] == es[i]);
                }
            }
        }
        if forall|i: int| 0 <= i < es.len() ==> unbound_in_edge(#[trigger] es[i], bs) is None {
            assert forall|i: int| 0 <= i < before.len() implies unbound_in_edge(
                #[trigger] before[i],
                bs,
            ) is None by {
                assert(before[i] == es[i]);
            }
            assert(unbound_in_edge(es[es.len() - 1], bs) is None);
        }
    }
}

/// What a graph means is what its forms mean.
proof fn lemma_graph_has_meaning(d: Datum)
    requires
        graph(d) is Ok,
    ensures
        has_meaning(d, graph_items(graph(d)->Ok_0)),
        forall|items: Seq<Item>| #[trigger]
            has_meaning(d, items) ==> items == graph_items(graph(d)->Ok_0),
{
    let g = graph(d)->Ok_0;
    let ds = d->List_0.skip(1);
    let fs = all_ok(graph_forms(ds))->Ok_0;
    let (bs, ts) = (forms_behind(ds, "prefix"@), forms_without(ds, "prefix"@));
    let own = bindings_of(fs);
    lemma_forms_match(ds);
    lemma_lacks_rdf(bs, own, ts, edges_of(fs));
    assert(env_matches(bs, ts, own, g.bindings));
    lemma_all_bound(g.edges, g.bindings);
    let items = graph_items(g);
    assert forall|i: int| 0 <= i < ts.len() implies means(bs, ts, #[trigger] ts[i], items[i]) by {
        assert(graph_triple(ts[i]->List_0) == Ok::<Edge<Seq<char>>, Fault>(g.edges[i]));
        assert(items[i] == edge_item(g.bindings, g.edges[i]));
        assert(unbound_in_edge(g.edges[i], g.bindings) is None);
        lemma_means(bs, ts, own, g.bindings, ts[i], items[i]);
    }
    assert forall|others: Seq<Item>| #[trigger] has_meaning(d, others) implies others == items by {
        assert forall|i: int| 0 <= i < items.len() implies others[i] == items[i] by {
            assert(graph_triple(ts[i]->List_0) == Ok::<Edge<Seq<char>>, Fault>(g.edges[i]));
            assert(means(bs, ts, ts[i], others[i]));
            lemma_means(bs, ts, own, g.bindings, ts[i], others[i]);
        }
        assert(others =~= items);
    }
}

/// The forms of a clause are among those behind its keyword.
proof fn lemma_binding_is_behind(ds: Seq<Datum>, i: int, m: int) -> (j: int)
    requires
        0 <= i < ds.len(),
        starts_with(ds[i], "prefix"@),
        0 <= m < ds[i]->List_0.len() - 1,
    ensures
        0 <= j < forms_behind(ds, "prefix"@).len(),
        forms_behind(ds, "prefix"@)[j] == ds[i]->List_0[m + 1],
    decreases ds.len(),
{
    let before = ds.drop_last();
    if i == ds.len() - 1 {
        let j = forms_behind(before, "prefix"@).len() + m;
        assert(forms_behind(ds, "prefix"@)[j] == ds.last()->List_0.skip(1)[m]);
        j
    } else {
        assert(before[i] == ds[i]);
        let j = lemma_binding_is_behind(before, i, m);
        assert(forms_behind(ds, "prefix"@)[j] == forms_behind(before, "prefix"@)[j]);
        j
    }
}

proof fn lemma_form_is_without(ds: Seq<Datum>, i: int) -> (j: int)
    requires
        0 <= i < ds.len(),
        !starts_with(ds[i], "prefix"@),
    ensures
        0 <= j < forms_without(ds, "prefix"@).len(),
        forms_without(ds, "prefix"@)[j] == ds[i],
    decreases ds.len(),
{
    let before = ds.drop_last();
    if i == ds.len() - 1 {
        forms_without(before, "prefix"@).len() as int
    } else {
        assert(before[i] == ds[i]);
        let j = lemma_form_is_without(before, i);
        assert(forms_without(ds, "prefix"@)[j] == forms_without(before, "prefix"@)[j]);
        j
    }
}

/// A datum with lines and a meaning is a graph.
proof fn lemma_lines_make_a_graph(
    d: Datum,
    heads: Seq<Seq<char>>,
    rows: Seq<Seq<char>>,
    items: Seq<Item>,
)
    requires
        has_lines(d, heads, rows),
        has_meaning(d, items),
    ensures
        graph(d) is Ok,
{
    let ds = d->List_0.skip(1);
    let (bs, ts) = (forms_behind(ds, "prefix"@), forms_without(ds, "prefix"@));
    let rs = graph_forms(ds);
    let vs = ds.map_values(|f: Datum| graph_form(f)->Ok_0);
    assert forall|i: int| 0 <= i < rs.len() implies #[trigger] rs[i] == Ok::<GraphForm, Fault>(
        vs[i],
    ) by {
        if starts_with(ds[i], "prefix"@) {
            lemma_prefix_head(ds[i]);
            let forms = ds[i]->List_0.skip(1);
            let ps = prefix_bindings(forms);
            let qs = forms.map_values(|f: Datum| prefix_binding(f)->Ok_0);
            assert forall|m: int| 0 <= m < ps.len() implies #[trigger] ps[m] == Ok::<
                Binding,
                Fault,
            >(qs[m]) by {
                let j = lemma_binding_is_behind(ds, i, m);
                assert(writes_directive(bs[j], heads[j]));
                let (name, iri) = choose|name: Seq<char>, iri: Seq<char>| #[trigger]
                    is_binding(bs[j], name, iri) && heads[j] == prefix_line_text(name, iri);
                lemma_binding(bs[j]);
                assert(forms[m] == bs[j]);
            }
            lemma_values_give_all_ok(ps, qs);
        } else {
            let j = lemma_form_is_without(ds, i);
            assert(writes_statement(ts[j], rows[j]));
            lemma_statement(ts[j], rows[j]);
            lemma_prefix_head(ds[i]);
        }
    }
    lemma_values_give_all_ok(rs, vs);
    lemma_forms_match(ds);
    let own = bindings_of(vs);
    let all = all_bindings(vs);
    lemma_lacks_rdf(bs, own, ts, edges_of(vs));
    assert(env_matches(bs, ts, own, all));
    let es = edges_of(vs);
    assert forall|i: int| 0 <= i < es.len() implies unbound_in_edge(#[trigger] es[i], all) is None by {
        assert(graph_triple(ts[i]->List_0) == Ok::<Edge<Seq<char>>, Fault>(es[i]));
        assert(means(bs, ts, ts[i], items[i]));
        lemma_means(bs, ts, own, all, ts[i], items[i]);
    }
    lemma_all_bound(es, all);
    assert(head(d->List_0) == Some("graph"@));
}

/// A graph has its lines in one way only.
proof fn lemma_lines_are_unique(
    bs: Seq<Datum>,
    ts: Seq<Datum>,
    heads: Seq<Seq<char>>,
    rows: Seq<Seq<char>>,
    other_heads: Seq<Seq<char>>,
    other_rows: Seq<Seq<char>>,
)
    requires
        forms_have_lines(bs, ts, heads, rows),
        forms_have_lines(bs, ts, other_heads, other_rows),
    ensures
        heads == other_heads,
        rows == other_rows,
{
    assert forall|j: int| 0 <= j < heads.len() implies heads[j] == other_heads[j] by {
        if j < bs.len() {
            assert(writes_directive(bs[j], heads[j]) && writes_directive(bs[j], other_heads[j]));
            lemma_binding(bs[j]);
        }
    }
    assert(heads =~= other_heads);
    assert forall|j: int| 0 <= j < rows.len() implies rows[j] == other_rows[j] by {
        assert(writes_statement(ts[j], rows[j]) && writes_statement(ts[j], other_rows[j]));
        lemma_statement(ts[j], rows[j]);
        lemma_statement(ts[j], other_rows[j]);
    }
    assert(rows =~= other_rows);
}

// ---------------------------------------------------------------------------------------
// The law
// ---------------------------------------------------------------------------------------

/// A Turtle document says what the forms of its graph say: it has their lines, and it reads, in
/// order, as one triple for each `(S P O)` form, with what the first item denotes for its
/// subject, what the second denotes for its predicate, and what the third denotes for its
/// object. And where the lines of a graph read so, they are its document.
pub proof fn a_document_says_what_its_forms_say(d: Datum)
    ensures
        turtle(d) matches Ok(t) ==> has_meaning(d, turtle_items(t)) && exists|
            heads: Seq<Seq<char>>,
            rows: Seq<Seq<char>>,
        | #[trigger]
            has_lines(d, heads, rows) && t == run_together(heads) + run_together(rows),
        forall|heads: Seq<Seq<char>>, rows: Seq<Seq<char>>| #[trigger]
            has_lines(d, heads, rows) && has_meaning(
                d,
                turtle_items(run_together(heads) + run_together(rows)),
            ) ==> turtle(d) == Ok::<Seq<char>, Fault>(run_together(heads) + run_together(rows)),
{
    if let Ok(t) = turtle(d) {
        lemma_graph_has_lines(d);
        lemma_graph_has_meaning(d);
        let g = graph(d)->Ok_0;
        assert(has_lines(d, head_lines(g.bindings), row_lines(g.edges)));
    }
    assert forall|heads: Seq<Seq<char>>, rows: Seq<Seq<char>>| #[trigger]
        has_lines(d, heads, rows) && has_meaning(
            d,
            turtle_items(run_together(heads) + run_together(rows)),
        ) implies turtle(d) == Ok::<Seq<char>, Fault>(
        run_together(heads) + run_together(rows),
    ) by {
        let items = turtle_items(run_together(heads) + run_together(rows));
        lemma_lines_make_a_graph(d, heads, rows, items);
        lemma_graph_has_lines(d);
        lemma_graph_has_meaning(d);
        let g = graph(d)->Ok_0;
        let ds = d->List_0.skip(1);
        lemma_lines_are_unique(
            forms_behind(ds, "prefix"@),
            forms_without(ds, "prefix"@),
            heads,
            rows,
            head_lines(g.bindings),
            row_lines(g.edges),
        );
    }
}

// ---------------------------------------------------------------------------------------
// Labels that nothing binds
// ---------------------------------------------------------------------------------------

/// Whether a datum is a prefixed name with the given label.
pub open spec fn bears_label(d: Datum, name: Seq<char>) -> bool {
    d matches Datum::Symbol(s) && exists|k: int| #[trigger] reads_as_name(s, k) && s.take(k) == name
}

/// Whether the `p`-th term of a form `(S P O)` uses a label: as a prefixed name, as the keyword
/// `a` where a predicate stands, or in the datatype of a literal where an object stands.
pub open spec fn uses_label(form: Datum, p: int, name: Seq<char>) -> bool {
    form matches Datum::List(terms) && terms.len() == 3 && 0 <= p < 3 && {
        ||| bears_label(terms[p], name)
        ||| p == 1 && terms[1] == Datum::Symbol("a"@) && name == "rdf"@
        ||| p == 2 && exists|value: Seq<char>, dt: Datum| #[trigger]
            is_typed(terms[2], value, dt) && bears_label(dt, name)
    }
}

/// Whether a label has a namespace in a graph.
pub open spec fn is_known(bs: Seq<Datum>, ts: Seq<Datum>, name: Seq<char>) -> bool {
    exists|iri: Seq<char>| #[trigger] has_namespace(bs, ts, name, iri)
}

proof fn lemma_known(
    bs: Seq<Datum>,
    ts: Seq<Datum>,
    own: Seq<Binding>,
    all: Seq<Binding>,
    name: Seq<char>,
)
    requires
        env_matches(bs, ts, own, all),
    ensures
        is_known(bs, ts, name) <==> binds(all, name),
{
    lemma_has_namespace(bs, ts, own, all, name, namespace(all, name));
    if is_known(bs, ts, name) {
        let iri = choose|iri: Seq<char>| #[trigger] has_namespace(bs, ts, name, iri);
        lemma_has_namespace(bs, ts, own, all, name, iri);
    }
}

proof fn lemma_bears_label(d: Datum, role: Seq<char>)
    ensures
        forall|name: Seq<char>| #[trigger]
            bears_label(d, name) ==> node(d, role) is Ok && node(d, role)->Ok_0 is Name && node(
                d,
                role,
            )->Ok_0->Name_0 == name,
        node(d, role) is Ok && node(d, role)->Ok_0 is Name ==> bears_label(
            d,
            node(d, role)->Ok_0->Name_0,
        ),
{
    lemma_node(d, role);
    assert forall|name: Seq<char>| #[trigger] bears_label(d, name) implies node(d, role) is Ok
        && node(d, role)->Ok_0 is Name && node(d, role)->Ok_0->Name_0 == name by {
        let s = d->Symbol_0;
        let k = choose|k: int| #[trigger] reads_as_name(s, k) && s.take(k) == name;
        assert(reads_as_name(s, k));
    }
    if node(d, role) is Ok && node(d, role)->Ok_0 is Name {
        let (l, x) = (node(d, role)->Ok_0->Name_0, node(d, role)->Ok_0->Name_1);
        let s = l + seq![':'] + x;
        assert(reads_as_name(s, l.len() as int));
        assert(s.take(l.len() as int) =~= l);
    }
}

/// The label of the object of a triple, if it has one.
spec fn label_of_value(v: Value<Seq<char>>) -> Option<Seq<char>> {
    match v {
        Value::Node(Node::Name(label, _)) => Some(label),
        Value::Typed(_, Node::Name(label, _)) => Some(label),
        _ => None,
    }
}

proof fn lemma_object_label(d: Datum, name: Seq<char>)
    requires
        object(d) is Ok,
    ensures
        label_of_value(object(d)->Ok_0) == Some(name) <==> bears_label(d, name) || (exists|
            value: Seq<char>,
            dt: Datum,
        | #[trigger] is_typed(d, value, dt) && bears_label(dt, name)),
{
    lemma_heads();
    lemma_bears_label(d, "object"@);
    if d is List {
        lemma_lit(d);
        let v = object(d)->Ok_0;
        if v is Typed {
            assert(is_typed(d, v->Typed_0, d->List_0[2]));
            lemma_bears_label(d->List_0[2], "datatype"@);
        }
        if exists|value: Seq<char>, dt: Datum| #[trigger]
            is_typed(d, value, dt) && bears_label(dt, name) {
            let (value, dt) = choose|value: Seq<char>, dt: Datum| #[trigger]
                is_typed(d, value, dt) && bears_label(dt, name);
            lemma_bears_label(dt, "datatype"@);
        }
    }
}

/// The labels that a triple uses, term by term.
proof fn lemma_uses_label(form: Datum, p: int, name: Seq<char>)
    requires
        form is List,
        graph_triple(form->List_0) is Ok,
    ensures
        uses_label(form, p, name) <==> {
            let e = graph_triple(form->List_0)->Ok_0;
            ||| p == 0 && e.subject is Name && e.subject->Name_0 == name
            ||| p == 1 && e.predicate is Name && e.predicate->Name_0 == name
            ||| p == 2 && label_of_value(e.object) == Some(name)
        },
{
    let terms = form->List_0;
    lemma_bears_label(terms[0], "subject"@);
    lemma_bears_label(terms[1], "predicate"@);
    lemma_object_label(terms[2], name);
    lemma_a_is_no_node(Seq::empty());
    lemma_bears_label(Datum::Symbol("a"@), "predicate"@);
}

/// Where all forms of a graph are well formed, the first label that nothing binds is told, in the
/// order in which the triples and their terms stand.
pub proof fn the_first_unbound_label_is_told(d: Datum, j: int, p: int, name: Seq<char>)
    requires
        starts_with(d, "graph"@),
        forall|i: int| 1 <= i < d->List_0.len() ==> graph_form(#[trigger] d->List_0[i]) is Ok,
    ensures
        ({
            let bs = forms_behind(d->List_0.skip(1), "prefix"@);
            let ts = forms_without(d->List_0.skip(1), "prefix"@);
            &&& 0 <= j < ts.len()
            &&& uses_label(ts[j], p, name)
            &&& !is_known(bs, ts, name)
            &&& forall|i: int, q: int, other: Seq<char>|
                0 <= i < ts.len() && (i < j || (i == j && q < p)) && #[trigger] uses_label(
                    ts[i],
                    q,
                    other,
                ) ==> is_known(bs, ts, other)
        }) ==> turtle(d) == Err::<Seq<char>, Fault>(
            Fault::Compile(
                "undeclared prefix `"@ + name + ":`; bind it in a (prefix …) clause"@,
            ),
        ),
{
    let ds = d->List_0.skip(1);
    let bs = forms_behind(ds, "prefix"@);
    let ts = forms_without(ds, "prefix"@);
    if 0 <= j < ts.len() && uses_label(ts[j], p, name) && !is_known(bs, ts, name) && (forall|
        i: int,
        q: int,
        other: Seq<char>,
    |
        0 <= i < ts.len() && (i < j || (i == j && q < p)) && #[trigger] uses_label(ts[i], q, other)
            ==> is_known(bs, ts, other)) {
        let rs = graph_forms(ds);
        assert forall|i: int| 0 <= i < rs.len() implies #[trigger] rs[i] is Ok by {
            assert(graph_form(d->List_0[i + 1]) is Ok);
        }
        lemma_all_are_ok(rs);
        let fs = all_ok(rs)->Ok_0;
        let (own, all, es) = (bindings_of(fs), all_bindings(fs), edges_of(fs));
        lemma_forms_match(ds);
        lemma_lacks_rdf(bs, own, ts, es);
        assert(env_matches(bs, ts, own, all));
        lemma_known(bs, ts, own, all, name);
        assert forall|i: int| 0 <= i < j implies unbound_in_edge(#[trigger] es[i], all) is None by {
            assert(graph_triple(ts[i]->List_0) == Ok::<Edge<Seq<char>>, Fault>(es[i]));
            lemma_edge_is_bound(bs, ts, own, all, i, 3);
        }
        assert(graph_triple(ts[j]->List_0) == Ok::<Edge<Seq<char>>, Fault>(es[j]));
        lemma_uses_label(ts[j], p, name);
        lemma_edge_is_bound(bs, ts, own, all, j, p);
        assert(unbound_in_edge(es[j], all) == Some(name));
        lemma_first_of_edges(es, all, j);
        assert(head(d->List_0) == Some("graph"@));
    }
}

/// If each label that a triple uses before its `p`-th term is known, then it is bound.
proof fn lemma_edge_is_bound(
    bs: Seq<Datum>,
    ts: Seq<Datum>,
    own: Seq<Binding>,
    all: Seq<Binding>,
    i: int,
    p: int,
)
    requires
        env_matches(bs, ts, own, all),
        0 <= i < ts.len(),
        ts[i] is List,
        graph_triple(ts[i]->List_0) is Ok,
        forall|q: int, other: Seq<char>|
            q < p && #[trigger] uses_label(ts[i], q, other) ==> is_known(bs, ts, other),
    ensures
        ({
            let e = graph_triple(ts[i]->List_0)->Ok_0;
            &&& p > 0 ==> unbound_in_node(e.subject, all) is None
            &&& p > 1 ==> unbound_in_node(e.predicate, all) is None
            &&& p > 2 ==> unbound_in_value(e.object, all) is None
        }),
{
    let e = graph_triple(ts[i]->List_0)->Ok_0;
    if e.subject is Name && p > 0 {
        lemma_uses_label(ts[i], 0, e.subject->Name_0);
        assert(uses_label(ts[i], 0, e.subject->Name_0));
        lemma_known(bs, ts, own, all, e.subject->Name_0);
    }
    if e.predicate is Name && p > 1 {
        lemma_uses_label(ts[i], 1, e.predicate->Name_0);
        assert(uses_label(ts[i], 1, e.predicate->Name_0));
        lemma_known(bs, ts, own, all, e.predicate->Name_0);
    }
    if label_of_value(e.object) is Some && p > 2 {
        let label = label_of_value(e.object)->Some_0;
        lemma_uses_label(ts[i], 2, label);
        assert(uses_label(ts[i], 2, label));
        lemma_known(bs, ts, own, all, label);
    }
}

proof fn lemma_all_are_ok<T>(rs: Seq<Result<T, Fault>>)
    requires
        forall|i: int| 0 <= i < rs.len() ==> #[trigger] rs[i] is Ok,
    ensures
        all_ok(rs) is Ok,
    decreases rs.len(),
{
    if rs.len() > 0 {
        assert forall|i: int| 0 <= i < rs.drop_last().len() implies #[trigger] rs.drop_last()[i]
            is Ok by {
            assert(rs.drop_last()[i] == rs[i]);
        }
        lemma_all_are_ok(rs.drop_last());
        assert(rs[rs.len() - 1] is Ok);
    }
}

proof fn lemma_first_of_edges(es: Seq<Edge<Seq<char>>>, all: Seq<Binding>, j: int)
    requires
        0 <= j < es.len(),
        forall|i: int| 0 <= i < j ==> unbound_in_edge(#[trigger] es[i], all) is None,
        unbound_in_edge(es[j], all) is Some,
    ensures
        unbound_label(es, all) == unbound_in_edge(es[j], all),
    decreases es.len(),
{
    let before = es.drop_last();
    if j < before.len() {
        assert(before[j] == es[j]);
        assert forall|i: int| 0 <= i < j implies unbound_in_edge(#[trigger] before[i], all)
            is None by {
            assert(before[i] == es[i]);
        }
        lemma_first_of_edges(before, all, j);
    } else {
        assert forall|i: int| 0 <= i < before.len() implies unbound_in_edge(
            #[trigger] before[i],
            all,
        ) is None by {
            assert(before[i] == es[i]);
        }
        lemma_all_bound(before, all);
    }
}

// ---------------------------------------------------------------------------------------
// The graph itself
// ---------------------------------------------------------------------------------------

/// Whether a datum is a node of a graph: a prefixed name with its label and its local part, or an
/// `(iri "...")` form with its IRI.
pub open spec fn stands_as_node(d: Datum, n: Node<Seq<char>>) -> bool {
    match n {
        Node::Name(l, x) => d == Datum::Symbol(l + seq![':'] + x) && reads_as_name(
            l + seq![':'] + x,
            l.len() as int,
        ),
        Node::Iri(iri) => is_iri_form(d, iri),
    }
}

/// Whether a datum is an object of a graph: a node, a string, an integer, or a literal with its
/// tag or with its datatype.
pub open spec fn stands_as_value(d: Datum, v: Value<Seq<char>>) -> bool {
    match v {
        Value::Node(n) => stands_as_node(d, n),
        Value::Text(s) => d == Datum::Str(s),
        Value::Int(n) => d == Datum::Int(n),
        Value::Tagged(s, tag) => is_tagged(d, s, tag),
        Value::Typed(s, n) => exists|dt: Datum| #[trigger]
            is_typed(d, s, dt) && stands_as_node(dt, n),
    }
}

/// Whether a form `(S P O)` is a triple of a graph, term by term. The keyword `a` is `rdf:type`.
pub open spec fn stands_as_edge(form: Datum, e: Edge<Seq<char>>) -> bool {
    form matches Datum::List(terms) && terms.len() == 3 && stands_as_node(terms[0], e.subject) && (
    stands_as_node(terms[1], e.predicate) || (terms[1] == Datum::Symbol("a"@) && e.predicate
        == Node::Name("rdf"@, "type"@))) && stands_as_value(terms[2], e.object)
}

/// A graph has the bindings of its `prefix` clauses, and one of `rdf:` behind them if it lacks it,
/// and the triples of its other forms, in order.
pub proof fn a_graph_is_made_of_its_forms(d: Datum)
    requires
        graph(d) is Ok,
    ensures
        ({
            let g = graph(d)->Ok_0;
            let bs = forms_behind(d->List_0.skip(1), "prefix"@);
            let ts = forms_without(d->List_0.skip(1), "prefix"@);
            &&& starts_with(d, "graph"@)
            &&& g.bindings.len() == bs.len() + (if lacks_rdf(bs, ts) {
                1int
            } else {
                0int
            })
            &&& forall|j: int|
                0 <= j < bs.len() ==> is_binding(#[trigger] bs[j], g.bindings[j].0, g.bindings[j].1)
            &&& lacks_rdf(bs, ts) ==> g.bindings.last() == (
                "rdf"@,
                "http://www.w3.org/1999/02/22-rdf-syntax-ns#"@,
            )
            &&& g.edges.len() == ts.len()
            &&& forall|j: int|
                0 <= j < ts.len() ==> stands_as_edge(#[trigger] ts[j], g.edges[j])
        }),
{
    let g = graph(d)->Ok_0;
    let items = d->List_0;
    let ds = items.skip(1);
    let fs = all_ok(graph_forms(ds))->Ok_0;
    let (bs, ts) = (forms_behind(ds, "prefix"@), forms_without(ds, "prefix"@));
    assert(items[0] == Datum::Symbol("graph"@));
    lemma_forms_match(ds);
    lemma_lacks_rdf(bs, bindings_of(fs), ts, edges_of(fs));
    assert forall|j: int| 0 <= j < bs.len() implies is_binding(
        #[trigger] bs[j],
        g.bindings[j].0,
        g.bindings[j].1,
    ) by {
        assert(g.bindings[j] == bindings_of(fs)[j]);
    }
    assert forall|j: int| 0 <= j < ts.len() implies stands_as_edge(#[trigger] ts[j], g.edges[j]) by {
        assert(graph_triple(ts[j]->List_0) == Ok::<Edge<Seq<char>>, Fault>(g.edges[j]));
        let terms = ts[j]->List_0;
        lemma_node(terms[0], "subject"@);
        lemma_node(terms[1], "predicate"@);
        lemma_stands_as_value(terms[2]);
    }
}

proof fn lemma_stands_as_value(d: Datum)
    requires
        object(d) is Ok,
    ensures
        stands_as_value(d, object(d)->Ok_0),
{
    let v = object(d)->Ok_0;
    lemma_heads();
    lemma_node(d, "object"@);
    if d is List {
        lemma_lit(d);
        an_iri_form_stands_for_its_iri(d->List_0);
        if v is Typed {
            assert(is_typed(d, v->Typed_0, d->List_0[2]));
            lemma_node(d->List_0[2], "datatype"@);
        }
        if v is Tagged {
            assert(is_tagged(d, v->Tagged_0, v->Tagged_1));
        }
        if v is Node {
            let iri = v->Node_0->Iri_0;
            assert(d->List_0 =~= seq![Datum::Symbol("iri"@), Datum::Str(iri)]);
        }
    }
}

/// Whether a label has a namespace in a row of bindings: that of the last one of it.
pub open spec fn binds_to(bs: Seq<Binding>, label: Seq<char>, ns: Seq<char>, i: int) -> bool {
    &&& 0 <= i < bs.len()
    &&& bs[i] == (label, ns)
    &&& forall|j: int| i < j < bs.len() ==> (#[trigger] bs[j]).0 != label
}

/// The IRI that a node of a graph stands for: its own, or the namespace of its label and its local
/// part behind it; the local part alone where nothing binds the label.
pub open spec fn node_means(bs: Seq<Binding>, n: Node<Seq<char>>, iri: Seq<char>) -> bool {
    match n {
        Node::Iri(own) => iri == own,
        Node::Name(l, x) => {
            ||| exists|i: int, ns: Seq<char>| #[trigger] binds_to(bs, l, ns, i) && iri == ns + x
            ||| (forall|i: int| 0 <= i < bs.len() ==> (#[trigger] bs[i]).0 != l) && iri == x
        },
    }
}

/// What an object of a graph stands for.
pub open spec fn value_means(
    bs: Seq<Binding>,
    v: Value<Seq<char>>,
    o: Object<Seq<char>>,
) -> bool {
    match o {
        Object::Iri(iri) => v matches Value::Node(n) && node_means(bs, n, iri),
        Object::Literal { value, datatype } => match v {
            Value::Text(s) => value == s && datatype == "http://www.w3.org/2001/XMLSchema#string"@,
            Value::Int(n) => value == decimal(n as int) && datatype
                == "http://www.w3.org/2001/XMLSchema#integer"@,
            Value::Tagged(s, _) => value == s && datatype
                == "http://www.w3.org/1999/02/22-rdf-syntax-ns#langString"@,
            Value::Typed(s, n) => value == s && node_means(bs, n, datatype),
            Value::Node(_) => false,
        },
        Object::Other => false,
    }
}

proof fn lemma_node_means(bs: Seq<Binding>, n: Node<Seq<char>>)
    ensures
        node_means(bs, n, node_iri(bs, n)),
{
    if let Node::Name(l, x) = n {
        if binds(bs, l) {
            let i = lemma_binds_to(bs, l);
            assert(binds_to(bs, l, namespace(bs, l), i));
        } else {
            lemma_binds_to_nothing(bs, l);
            assert(Seq::<char>::empty() + x =~= x);
        }
    }
}

proof fn lemma_binds_to_nothing(bs: Seq<Binding>, l: Seq<char>)
    requires
        !binds(bs, l),
    ensures
        namespace(bs, l) == Seq::<char>::empty(),
    decreases bs.len(),
{
    if bs.len() > 0 {
        let before = bs.drop_last();
        assert(bs[bs.len() - 1].0 != l);
        assert(!binds(before, l)) by {
            if binds(before, l) {
                let k = choose|k: int| 0 <= k < before.len() && (#[trigger] before[k]).0 == l;
                assert(bs[k].0 == l);
            }
        }
        lemma_binds_to_nothing(before, l);
    }
}

proof fn lemma_binds_to(bs: Seq<Binding>, l: Seq<char>) -> (i: int)
    requires
        binds(bs, l),
    ensures
        binds_to(bs, l, namespace(bs, l), i),
    decreases bs.len(),
{
    let n = bs.len() - 1;
    if bs.last().0 == l {
        n
    } else {
        let before = bs.drop_last();
        let k = choose|k: int| 0 <= k < bs.len() && (#[trigger] bs[k]).0 == l;
        assert(before[k].0 == l);
        let i = lemma_binds_to(before, l);
        assert(before[i] == bs[i]);
        assert forall|j: int| i < j < bs.len() implies (#[trigger] bs[j]).0 != l by {
            if j < n {
                assert(before[j] == bs[j]);
            }
        }
        i
    }
}

/// What a graph means has one triple for each of its own, in order: the subject, the predicate and
/// the object are what those of the graph stand for.
pub proof fn a_graph_means_its_triples(g: GraphModel, j: int)
    requires
        0 <= j < g.edges.len(),
    ensures
        graph_items(g).len() == g.edges.len(),
        graph_items(g)[j] matches Item::Triple(t) && node_means(
            g.bindings,
            g.edges[j].predicate,
            t.predicate,
        ) && value_means(g.bindings, g.edges[j].object, t.object) && (t.subject matches Subject::Iri(
            s,
        ) && node_means(g.bindings, g.edges[j].subject, s)),
{
    let e = g.edges[j];
    assert(graph_items(g)[j] == edge_item(g.bindings, e));
    lemma_node_means(g.bindings, e.subject);
    lemma_node_means(g.bindings, e.predicate);
    match e.object {
        Value::Node(n) => {
            lemma_node_means(g.bindings, n);
        },
        Value::Typed(_, n) => {
            lemma_node_means(g.bindings, n);
        },
        _ => {},
    }
}

} // verus!
