//! What each transreptor answers, word by word.

use vstd::prelude::*;

use crate::codegraph::SX_NS;
use crate::datum::Fault;
use crate::decode::decoded;
use crate::encode::code_graph;
use crate::endpoint::{
    CODE_GRAPH_PROFILE, Intake, MEDIA_SEXPR, MEDIA_SPARQL_QUERY, MEDIA_TURTLE,
    MEDIA_TURTLE_CODE_GRAPH, Outcome, Transreptor,
};
use crate::printer::printed;
use crate::quads::turtle_items;
use crate::reader::document;
use crate::sparql::query;
use crate::turtle::turtle;

verus! {

/// What a transreptor answers to a document that came under `content`, when nothing else was
/// given.
pub open spec fn replies(t: Transreptor, src: Seq<char>) -> Outcome {
    t.outcome(Intake::Text(src), Intake::Absent)
}

/// A document under `content` is answered whatever stands under `in`. One that stands under `in`
/// alone gets the same reply, and where it is at fault the same complaint, under its own name.
/// With no document at all, the first name under which something unreadable came is told, and
/// with nothing there, that `content` is missing.
pub proof fn a_request_is_heard_under_its_names(
    t: Transreptor,
    content: Intake<Seq<char>>,
    named: Intake<Seq<char>>,
    src: Seq<char>,
)
    ensures
        t.outcome(Intake::Text(src), named) == replies(t, src),
        replies(t, src) is Reply || replies(t, src) is Invalid,
        replies(t, src) is Invalid ==> replies(t, src)->name == "content"@,
        !(content is Text) && replies(t, src) is Reply ==> t.outcome(content, Intake::Text(src))
            == replies(t, src),
        !(content is Text) && replies(t, src) is Invalid ==> t.outcome(content, Intake::Text(src))
            == (Outcome::Invalid { name: "in"@, detail: replies(t, src)->detail }),
        !(named is Text) ==> t.outcome(Intake::Unreadable, named) == Outcome::Unreadable(
            "content"@,
        ),
        t.outcome(Intake::Absent, Intake::Unreadable) == Outcome::Unreadable("in"@),
        t.outcome(Intake::Absent, Intake::Absent) == Outcome::Missing("content"@),
{
}

/// The query transreptor answers a document that is a query with its SPARQL. Any other document
/// it refuses: its IRI, the label of the layer that failed, and the detail.
pub proof fn a_query_document_is_answered(src: Seq<char>, q: Seq<char>, m: Seq<char>)
    ensures
        document(src) is Ok && query(document(src)->Ok_0) == Ok::<Seq<char>, Fault>(q) ==> replies(
            Transreptor::SparqlFromSexpr,
            src,
        ) == (Outcome::Reply { media_type: "application/sparql-query"@, profile: None, body: q }),
        (document(src) is Err && document(src)->Err_0 == Fault::Parse(m)) || (document(src) is Ok
            && query(document(src)->Ok_0) == Err::<Seq<char>, Fault>(Fault::Parse(m))) ==> replies(
            Transreptor::SparqlFromSexpr,
            src,
        ) == (Outcome::Invalid {
            name: "content"@,
            detail: "urn:sparql:from-sexpr: sexpr parse error: "@ + m,
        }),
        (document(src) is Err && document(src)->Err_0 == Fault::Compile(m)) || (document(src) is Ok
            && query(document(src)->Ok_0) == Err::<Seq<char>, Fault>(Fault::Compile(m)))
            ==> replies(Transreptor::SparqlFromSexpr, src) == (Outcome::Invalid {
            name: "content"@,
            detail: "urn:sparql:from-sexpr: sparql-from-sexpr: "@ + m,
        }),
{
    reveal_strlit("urn:sparql:from-sexpr: sexpr parse error: ");
    reveal_strlit("urn:sparql:from-sexpr: sparql-from-sexpr: ");
    reveal_strlit("urn:sparql:from-sexpr");
    reveal_strlit(": ");
    reveal_strlit("sexpr parse error: ");
    reveal_strlit("sparql-from-sexpr: ");
    assert("urn:sparql:from-sexpr"@ + ": "@ + ("sexpr parse error: "@ + m)
        =~= "urn:sparql:from-sexpr: sexpr parse error: "@ + m);
    assert("urn:sparql:from-sexpr"@ + ": "@ + ("sparql-from-sexpr: "@ + m)
        =~= "urn:sparql:from-sexpr: sparql-from-sexpr: "@ + m);
}

/// The graph transreptor answers a document that is a graph with its Turtle. Any other document
/// it refuses: its IRI, and the detail.
pub proof fn a_graph_document_is_answered(src: Seq<char>, text: Seq<char>, f: Fault, m: Seq<char>)
    ensures
        document(src) is Ok && turtle(document(src)->Ok_0) == Ok::<Seq<char>, Fault>(text)
            ==> replies(Transreptor::RdfFromSexpr, src) == (Outcome::Reply {
            media_type: "text/turtle"@,
            profile: None,
            body: text,
        }),
        (f == Fault::Parse(m) || f == Fault::Compile(m)) && ((document(src) is Err && document(
            src,
        )->Err_0 == f) || (document(src) is Ok && turtle(document(src)->Ok_0) == Err::<
            Seq<char>,
            Fault,
        >(f))) ==> replies(Transreptor::RdfFromSexpr, src) == (Outcome::Invalid {
            name: "content"@,
            detail: "urn:rdf:from-sexpr: "@ + m,
        }),
{
    reveal_strlit("urn:rdf:from-sexpr: ");
    reveal_strlit("urn:rdf:from-sexpr");
    reveal_strlit(": ");
    assert("urn:rdf:from-sexpr"@ + ": "@ + m =~= "urn:rdf:from-sexpr: "@ + m);
}

/// The encoder answers every document that can be read with its code graph, under the profile of
/// code graphs. Any other document it refuses: its IRI, and the detail.
pub proof fn a_document_is_encoded(src: Seq<char>, f: Fault, m: Seq<char>)
    ensures
        document(src) is Ok ==> replies(Transreptor::SexprToRdf, src) == (Outcome::Reply {
            media_type: "text/turtle"@,
            profile: Some("https://ikigai-rs.dev/ns/sexpr#code-graph"@),
            body: code_graph(document(src)->Ok_0),
        }),
        (f == Fault::Parse(m) || f == Fault::Compile(m)) && document(src) is Err && document(
            src,
        )->Err_0 == f ==> replies(Transreptor::SexprToRdf, src) == (Outcome::Invalid {
            name: "content"@,
            detail: "urn:sexpr:to-rdf: "@ + m,
        }),
{
    reveal_strlit("urn:sexpr:to-rdf: ");
    reveal_strlit("urn:sexpr:to-rdf");
    reveal_strlit(": ");
    assert("urn:sexpr:to-rdf"@ + ": "@ + m =~= "urn:sexpr:to-rdf: "@ + m);
}

/// The decoder answers every code graph with the canonical text of the datum that it stands for.
/// Any other document it refuses: its IRI, and the detail.
pub proof fn a_code_graph_is_decoded(src: Seq<char>, f: Fault, m: Seq<char>)
    ensures
        decoded(turtle_items(src)) is Ok ==> replies(Transreptor::SexprFromRdf, src) == (
        Outcome::Reply {
            media_type: "text/x-sexpr"@,
            profile: None,
            body: printed(decoded(turtle_items(src))->Ok_0),
        }),
        (f == Fault::Parse(m) || f == Fault::Compile(m)) && decoded(turtle_items(src)) is Err
            && decoded(turtle_items(src))->Err_0 == f ==> replies(Transreptor::SexprFromRdf, src)
            == (Outcome::Invalid { name: "content"@, detail: "urn:sexpr:from-rdf: "@ + m }),
{
    reveal_strlit("urn:sexpr:from-rdf: ");
    reveal_strlit("urn:sexpr:from-rdf");
    reveal_strlit(": ");
    assert("urn:sexpr:from-rdf"@ + ": "@ + m =~= "urn:sexpr:from-rdf: "@ + m);
}

/// What was made of a document is answered with the face of its transreptor, and a fault under the
/// name that the document came by.
pub proof fn what_was_made_is_answered(name: Seq<char>, body: Seq<char>, m: Seq<char>)
    ensures
        Transreptor::SparqlFromSexpr.answer_with(name, Ok(body)) == (Outcome::Reply {
            media_type: "application/sparql-query"@,
            profile: None,
            body,
        }),
        Transreptor::RdfFromSexpr.answer_with(name, Ok(body)) == (Outcome::Reply {
            media_type: "text/turtle"@,
            profile: None,
            body,
        }),
        Transreptor::SexprToRdf.answer_with(name, Ok(body)) == (Outcome::Reply {
            media_type: "text/turtle"@,
            profile: Some("https://ikigai-rs.dev/ns/sexpr#code-graph"@),
            body,
        }),
        Transreptor::SexprFromRdf.answer_with(name, Ok(body)) == (Outcome::Reply {
            media_type: "text/x-sexpr"@,
            profile: None,
            body,
        }),
        Transreptor::SparqlFromSexpr.answer_with(name, Err(Fault::Parse(m))) == (Outcome::Invalid {
            name,
            detail: "urn:sparql:from-sexpr"@ + ": "@ + ("sexpr parse error: "@ + m),
        }),
        Transreptor::SparqlFromSexpr.answer_with(name, Err(Fault::Compile(m))) == (
        Outcome::Invalid {
            name,
            detail: "urn:sparql:from-sexpr"@ + ": "@ + ("sparql-from-sexpr: "@ + m),
        }),
        forall|f: Fault|
            f == Fault::Parse(m) || f == Fault::Compile(m) ==> {
                &&& #[trigger] Transreptor::RdfFromSexpr.answer_with(name, Err(f)) == (
                Outcome::Invalid { name, detail: "urn:rdf:from-sexpr"@ + ": "@ + m })
                &&& Transreptor::SexprToRdf.answer_with(name, Err(f)) == (Outcome::Invalid {
                    name,
                    detail: "urn:sexpr:to-rdf"@ + ": "@ + m,
                })
                &&& Transreptor::SexprFromRdf.answer_with(name, Err(f)) == (Outcome::Invalid {
                    name,
                    detail: "urn:sexpr:from-rdf"@ + ": "@ + m,
                })
            },
{
}

/// The words that the library is known by.
pub proof fn the_words_of_the_library()
    ensures
        SX_NS@ == "https://ikigai-rs.dev/ns/sexpr#"@,
        MEDIA_SEXPR@ == "text/x-sexpr"@,
        MEDIA_SPARQL_QUERY@ == "application/sparql-query"@,
        MEDIA_TURTLE@ == "text/turtle"@,
        MEDIA_TURTLE_CODE_GRAPH@
            == "text/turtle; profile=\"https://ikigai-rs.dev/ns/sexpr#code-graph\""@,
        CODE_GRAPH_PROFILE@ == "https://ikigai-rs.dev/ns/sexpr#code-graph"@,
{
}

/// What a transreptor says of itself: the IRI that it is bound to, its identifier, what it reads
/// and what it declares to write.
pub proof fn a_transreptor_describes_itself()
    ensures
        Transreptor::SparqlFromSexpr.iri_text() == "urn:sparql:from-sexpr"@,
        Transreptor::SparqlFromSexpr.id_text() == "sparql-from-sexpr"@,
        Transreptor::SparqlFromSexpr.reads_text() == "text/x-sexpr"@,
        Transreptor::SparqlFromSexpr.writes_text() == "application/sparql-query"@,
        Transreptor::RdfFromSexpr.iri_text() == "urn:rdf:from-sexpr"@,
        Transreptor::RdfFromSexpr.id_text() == "rdf-from-sexpr"@,
        Transreptor::RdfFromSexpr.reads_text() == "text/x-sexpr"@,
        Transreptor::RdfFromSexpr.writes_text() == "text/turtle"@,
        Transreptor::SexprToRdf.iri_text() == "urn:sexpr:to-rdf"@,
        Transreptor::SexprToRdf.id_text() == "sexpr-to-rdf"@,
        Transreptor::SexprToRdf.reads_text() == "text/x-sexpr"@,
        Transreptor::SexprToRdf.writes_text()
            == "text/turtle; profile=\"https://ikigai-rs.dev/ns/sexpr#code-graph\""@,
        Transreptor::SexprFromRdf.iri_text() == "urn:sexpr:from-rdf"@,
        Transreptor::SexprFromRdf.id_text() == "sexpr-from-rdf"@,
        Transreptor::SexprFromRdf.reads_text() == "text/turtle"@,
        Transreptor::SexprFromRdf.writes_text() == "text/x-sexpr"@,
{
}

} // verus!
