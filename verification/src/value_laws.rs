//! What values stand for: a value and its model are one tree, a result is what it carries.

use vstd::prelude::*;

use crate::datum::{
    Datum, Fault, Sexpr, SexprError, data_result, datum_result, lemma_data, text_result,
};
use crate::endpoint::{Intake, Outcome, Refusal, Reply, intake_text, outcome_of};
use crate::quads::{Item, Object, Subject, Triple, TurtleItem, item_models};
use crate::rdfgraph::{Edge, Graph, Node, Value};

verus! {

/// A value and its model are the same tree: the same kind of node, with the same text or number,
/// or with the models of the same items in the same order.
pub proof fn a_value_and_its_model_are_one_tree(s: String, n: i64, items: Vec<Sexpr>)
    ensures
        Sexpr::Symbol(s)@ == Datum::Symbol(s@),
        Sexpr::Str(s)@ == Datum::Str(s@),
        Sexpr::Int(n)@ == Datum::Int(n),
        Sexpr::List(items)@ is List,
        Sexpr::List(items)@->List_0.len() == items@.len(),
        forall|i: int|
            0 <= i < items@.len() ==> #[trigger] Sexpr::List(items)@->List_0[i] == items@[i]@,
{
    lemma_data(items@);
}

/// An error and its model are of the same layer and have the same detail. As one line, a read
/// error is labelled `sexpr parse error: `, a compile error `sparql-from-sexpr: `.
pub proof fn an_error_and_its_model_say_the_same(m: String, t: Seq<char>)
    ensures
        SexprError::Parse(m)@ == Fault::Parse(m@),
        SexprError::Compile(m)@ == Fault::Compile(m@),
        Fault::Parse(t).detail() == t,
        Fault::Compile(t).detail() == t,
        Fault::Parse(t).labelled() == "sexpr parse error: "@ + t,
        Fault::Compile(t).labelled() == "sparql-from-sexpr: "@ + t,
{
}

/// A result and its model are both a success, or both an error, with the models of what they
/// carry.
pub proof fn a_result_and_its_model_agree(s: Sexpr, forms: Vec<Sexpr>, text: String, e: SexprError)
    ensures
        datum_result(Ok(s)) == Ok::<Datum, Fault>(s@),
        datum_result(Err(e)) == Err::<Datum, Fault>(e@),
        data_result(Err(e)) == Err::<Seq<Datum>, Fault>(e@),
        data_result(Ok(forms)) is Ok,
        data_result(Ok(forms))->Ok_0.len() == forms@.len(),
        forall|i: int|
            0 <= i < forms@.len() ==> #[trigger] data_result(Ok(forms))->Ok_0[i] == forms@[i]@,
        text_result(Ok(text)) == Ok::<Seq<char>, Fault>(text@),
        text_result(Err(e)) == Err::<Seq<char>, Fault>(e@),
{
    lemma_data(forms@);
}

/// An item of a document and its model are the same triple, or the same fault.
pub proof fn an_item_and_its_model_say_the_same(
    subject: Subject<String>,
    predicate: String,
    object: Object<String>,
    s: String,
    items: Seq<TurtleItem>,
)
    ensures
        Subject::Iri(s)@ == Subject::<Seq<char>>::Iri(s@),
        Subject::<String>::Blank@ == Subject::<Seq<char>>::Blank,
        Object::Iri(s)@ == Object::<Seq<char>>::Iri(s@),
        (Object::Literal { value: s, datatype: predicate })@ == (Object::<Seq<char>>::Literal {
            value: s@,
            datatype: predicate@,
        }),
        Object::<String>::Other@ == Object::<Seq<char>>::Other,
        TurtleItem::Triple((Triple { subject, predicate, object }))@ == Item::Triple(
            (Triple { subject: subject@, predicate: predicate@, object: object@ }),
        ),
        TurtleItem::Fault(s)@ == Item::Fault(s@),
        item_models(items).len() == items.len(),
        forall|i: int| 0 <= i < items.len() ==> #[trigger] item_models(items)[i] == items[i]@,
{
}

/// A graph and its model have the same bindings and the same triples, in the same order.
pub proof fn a_graph_and_its_model_are_the_same(
    g: Graph,
    e: Edge<String>,
    n: Node<String>,
    s: String,
    t: String,
    i: i64,
    k: int,
)
    ensures
        g@.bindings.len() == g.bindings@.len(),
        0 <= k < g.bindings@.len() ==> g@.bindings[k] == (g.bindings@[k].0@, g.bindings@[k].1@),
        g@.edges.len() == g.edges@.len(),
        0 <= k < g.edges@.len() ==> g@.edges[k] == g.edges@[k]@,
        e@.subject == e.subject@,
        e@.predicate == e.predicate@,
        e@.object == e.object@,
        Node::Name(s, t)@ == Node::<Seq<char>>::Name(s@, t@),
        Node::Iri(s)@ == Node::<Seq<char>>::Iri(s@),
        Value::Node(n)@ == Value::<Seq<char>>::Node(n@),
        Value::Text(s)@ == Value::<Seq<char>>::Text(s@),
        Value::<String>::Int(i)@ == Value::<Seq<char>>::Int(i),
        Value::Tagged(s, t)@ == Value::<Seq<char>>::Tagged(s@, t@),
        Value::Typed(s, n)@ == Value::<Seq<char>>::Typed(s@, n@),
{
}

/// What a host hands over and what it gets back are told by their texts.
pub proof fn a_request_and_its_reply_are_their_texts(
    src: &str,
    reply: Reply,
    name: &'static str,
    detail: String,
)
    ensures
        intake_text(Intake::Absent) == Intake::<Seq<char>>::Absent,
        intake_text(Intake::Unreadable) == Intake::<Seq<char>>::Unreadable,
        intake_text(Intake::Text(src)) == Intake::<Seq<char>>::Text(src@),
        outcome_of(Ok(reply)) is Reply,
        outcome_of(Ok(reply))->media_type == reply.media_type@,
        outcome_of(Ok(reply))->body == reply.body@,
        reply.profile is None ==> outcome_of(Ok(reply))->profile is None,
        reply.profile is Some ==> outcome_of(Ok(reply))->profile == Some(reply.profile->Some_0@),
        outcome_of(Err(Refusal::Missing(name))) == Outcome::Missing(name@),
        outcome_of(Err(Refusal::Unreadable(name))) == Outcome::Unreadable(name@),
        outcome_of(Err((Refusal::Invalid { name, detail }))) == (Outcome::Invalid {
            name: name@,
            detail: detail@,
        }),
{
}

} // verus!
