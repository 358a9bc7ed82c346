//! The four transreptors, as functions of the documents they are handed.
//!
//! Each takes its document under one of two names: `content`, where a pipe lands, or else `in`.
//! A host that gives neither is told that `content` is missing; a document that cannot be read,
//! or that is not of the transreptor's shape, is an invalid argument under the name it came by.

use vstd::prelude::*;
use vstd::string::*;

use crate::codec_laws::distinct_cells;
use crate::codegraph::XSD_STRING;
use crate::datum::{Datum, Fault, SexprResult, text_result};
use crate::decode::{MAX_DECODE_DEPTH, decoded, rdf_to_sexpr};
use crate::encode::{code_graph, sexpr_to_rdf};
use crate::printer::printed;
use crate::quads::turtle_items;
use crate::reader::{document, parse};
use crate::roundtrip::nests_within;
use crate::sparql::{query, sexpr_to_sparql};
use crate::text::join3;
use crate::turtle::{sexpr_to_turtle, turtle};

verus! {

/// The media type of an s-expression document.
pub const MEDIA_SEXPR: &'static str = "text/x-sexpr";

/// The media type of a SPARQL query.
pub const MEDIA_SPARQL_QUERY: &'static str = "application/sparql-query";

/// The media type of a Turtle document.
pub const MEDIA_TURTLE: &'static str = "text/turtle";

/// The profile that tells a code graph from any other Turtle document.
pub const CODE_GRAPH_PROFILE: &'static str = "https://ikigai-rs.dev/ns/sexpr#code-graph";

/// The media type of a code graph: Turtle with the code-graph profile.
pub const MEDIA_TURTLE_CODE_GRAPH: &'static str = "text/turtle; profile=\"https://ikigai-rs.dev/ns/sexpr#code-graph\"";

/// One of the four transreptors.
#[derive(Clone, Copy, Debug, PartialEq, Eq)]
pub enum Transreptor {
    /// A `(select ...)` document to a SPARQL query.
    SparqlFromSexpr,
    /// A `(graph ...)` document to Turtle.
    RdfFromSexpr,
    /// Any s-expression document to its code graph.
    SexprToRdf,
    /// A code graph to the s-expression document it stands for.
    SexprFromRdf,
}

/// A document under one of the names that a host may give it by.
pub enum Intake<T> {
    /// Nothing was given under this name.
    Absent,
    /// What was given is not inline text.
    Unreadable,
    /// The text of the document.
    Text(T),
}

/// An argument that a transreptor declares.
pub struct Argument {
    /// The name of the argument.
    pub name: &'static str,
    /// Whether a request must have it.
    pub required: bool,
    /// The datatype of its values.
    pub class: &'static str,
}

/// What a transreptor answers with.
pub struct Reply {
    /// The bare media type of the body. Its charset is UTF-8.
    pub media_type: &'static str,
    /// The profile of the body, where it has one.
    pub profile: Option<&'static str>,
    /// The body.
    pub body: String,
}

/// Why a transreptor does not answer.
pub enum Refusal {
    /// No document was given; the argument that is missing.
    Missing(&'static str),
    /// What was given under this name is not inline text, and nothing else was given.
    Unreadable(&'static str),
    /// The document is unreadable, or not of the transreptor's shape: the name it came by, and
    /// what is wrong with it.
    Invalid { name: &'static str, detail: String },
}

/// What becomes of a request, over texts.
pub enum Outcome {
    Reply { media_type: Seq<char>, profile: Option<Seq<char>>, body: Seq<char> },
    Missing(Seq<char>),
    Unreadable(Seq<char>),
    Invalid { name: Seq<char>, detail: Seq<char> },
}

/// A document over its text.
pub open spec fn intake_text(i: Intake<&str>) -> Intake<Seq<char>> {
    match i {
        Intake::Absent => Intake::Absent,
        Intake::Unreadable => Intake::Unreadable,
        Intake::Text(s) => Intake::Text(s@),
    }
}

/// The document of a request and the name it came by: `content` comes first, `in` second.
pub open spec fn chosen(content: Intake<Seq<char>>, named: Intake<Seq<char>>) -> Option<
    (Seq<char>, Seq<char>),
> {
    match (content, named) {
        (Intake::Text(src), _) => Some(("content"@, src)),
        (_, Intake::Text(src)) => Some(("in"@, src)),
        _ => None,
    }
}

/// The result of a request, over texts.
pub open spec fn outcome_of(r: Result<Reply, Refusal>) -> Outcome {
    match r {
        Ok(reply) => Outcome::Reply {
            media_type: reply.media_type@,
            profile: match reply.profile {
                Some(p) => Some(p@),
                None => None,
            },
            body: reply.body@,
        },
        Err(Refusal::Missing(name)) => Outcome::Missing(name@),
        Err(Refusal::Unreadable(name)) => Outcome::Unreadable(name@),
        Err(Refusal::Invalid { name, detail }) => Outcome::Invalid { name: name@, detail: detail@ },
    }
}

impl Transreptor {
    /// The IRI that a transreptor is bound to.
    pub open spec fn iri_text(self) -> Seq<char> {
        match self {
            Transreptor::SparqlFromSexpr => "urn:sparql:from-sexpr"@,
            Transreptor::RdfFromSexpr => "urn:rdf:from-sexpr"@,
            Transreptor::SexprToRdf => "urn:sexpr:to-rdf"@,
            Transreptor::SexprFromRdf => "urn:sexpr:from-rdf"@,
        }
    }

    /// The identifier that a transreptor describes itself by.
    pub open spec fn id_text(self) -> Seq<char> {
        match self {
            Transreptor::SparqlFromSexpr => "sparql-from-sexpr"@,
            Transreptor::RdfFromSexpr => "rdf-from-sexpr"@,
            Transreptor::SexprToRdf => "sexpr-to-rdf"@,
            Transreptor::SexprFromRdf => "sexpr-from-rdf"@,
        }
    }

    /// The media type that a transreptor reads.
    pub open spec fn reads_text(self) -> Seq<char> {
        match self {
            Transreptor::SexprFromRdf => MEDIA_TURTLE@,
            _ => MEDIA_SEXPR@,
        }
    }

    /// The media type that a transreptor declares to write.
    pub open spec fn writes_text(self) -> Seq<char> {
        match self {
            Transreptor::SparqlFromSexpr => MEDIA_SPARQL_QUERY@,
            Transreptor::RdfFromSexpr => MEDIA_TURTLE@,
            Transreptor::SexprToRdf => MEDIA_TURTLE_CODE_GRAPH@,
            Transreptor::SexprFromRdf => MEDIA_SEXPR@,
        }
    }

    /// The bare media type that a transreptor writes.
    pub open spec fn media_type(self) -> Seq<char> {
        match self {
            Transreptor::SparqlFromSexpr => MEDIA_SPARQL_QUERY@,
            Transreptor::RdfFromSexpr => MEDIA_TURTLE@,
            Transreptor::SexprToRdf => MEDIA_TURTLE@,
            Transreptor::SexprFromRdf => MEDIA_SEXPR@,
        }
    }

    /// The profile of what a transreptor writes.
    pub open spec fn profile(self) -> Option<Seq<char>> {
        match self {
            Transreptor::SexprToRdf => Some(CODE_GRAPH_PROFILE@),
            _ => None,
        }
    }

    /// What a transreptor makes of a document.
    pub open spec fn transrept(self, src: Seq<char>) -> Result<Seq<char>, Fault> {
        match self {
            Transreptor::SparqlFromSexpr => match document(src) {
                Ok(d) => query(d),
                Err(f) => Err(f),
            },
            Transreptor::RdfFromSexpr => match document(src) {
                Ok(d) => turtle(d),
                Err(f) => Err(f),
            },
            Transreptor::SexprToRdf => match document(src) {
                Ok(d) => Ok(code_graph(d)),
                Err(f) => Err(f),
            },
            Transreptor::SexprFromRdf => match decoded(turtle_items(src)) {
                Ok(d) => Ok(printed(d)),
                Err(f) => Err(f),
            },
        }
    }

    /// What a transreptor says is wrong with a document: its IRI, then the fault. The query
    /// transreptor puts the label of the fault in between.
    pub open spec fn complaint(self, f: Fault) -> Seq<char> {
        self.iri_text() + ": "@ + (match self {
            Transreptor::SparqlFromSexpr => f.labelled(),
            _ => f.detail(),
        })
    }

    /// What a transreptor answers when it has made something of a document that came by the
    /// given name, or has failed to.
    pub open spec fn answer_with(self, name: Seq<char>, made: Result<Seq<char>, Fault>) -> Outcome {
        match made {
            Ok(body) => Outcome::Reply {
                media_type: self.media_type(),
                profile: self.profile(),
                body,
            },
            Err(f) => Outcome::Invalid { name, detail: self.complaint(f) },
        }
    }

    /// What a transreptor answers to a document that came by the given name.
    pub open spec fn answer(self, name: Seq<char>, src: Seq<char>) -> Outcome {
        self.answer_with(name, self.transrept(src))
    }

    /// What becomes of a request.
    pub open spec fn outcome(self, content: Intake<Seq<char>>, named: Intake<Seq<char>>) -> Outcome {
        match chosen(content, named) {
            Some((name, src)) => self.answer(name, src),
            None => match (content, named) {
                (Intake::Unreadable, _) => Outcome::Unreadable("content"@),
                (_, Intake::Unreadable) => Outcome::Unreadable("in"@),
                _ => Outcome::Missing("content"@),
            },
        }
    }

    /// Whether a result is the one that is owed where the document is a code graph: the text of
    /// the datum that it was made from.
    pub open spec fn inverts(self, src: Seq<char>, r: Outcome) -> bool {
        self is SexprFromRdf ==> forall|d: Datum|
            src == #[trigger] code_graph(d) && nests_within(d, MAX_DECODE_DEPTH as int)
                && distinct_cells(d) ==> r == (Outcome::Reply {
                media_type: MEDIA_SEXPR@,
                profile: None,
                body: printed(d),
            })
    }

    /// The IRI that a transreptor is bound to.
    pub fn iri(self) -> (iri: &'static str)
        ensures
            iri@ == self.iri_text(),
    {
        match self {
            Transreptor::SparqlFromSexpr => "urn:sparql:from-sexpr",
            Transreptor::RdfFromSexpr => "urn:rdf:from-sexpr",
            Transreptor::SexprToRdf => "urn:sexpr:to-rdf",
            Transreptor::SexprFromRdf => "urn:sexpr:from-rdf",
        }
    }

    /// The identifier that a transreptor describes itself by.
    pub fn id(self) -> (id: &'static str)
        ensures
            id@ == self.id_text(),
    {
        match self {
            Transreptor::SparqlFromSexpr => "sparql-from-sexpr",
            Transreptor::RdfFromSexpr => "rdf-from-sexpr",
            Transreptor::SexprToRdf => "sexpr-to-rdf",
            Transreptor::SexprFromRdf => "sexpr-from-rdf",
        }
    }

    /// The media type that a transreptor reads.
    pub fn reads(self) -> (media_type: &'static str)
        ensures
            media_type@ == self.reads_text(),
    {
        match self {
            Transreptor::SexprFromRdf => MEDIA_TURTLE,
            _ => MEDIA_SEXPR,
        }
    }

    /// The media type that a transreptor declares to write.
    pub fn writes(self) -> (media_type: &'static str)
        ensures
            media_type@ == self.writes_text(),
    {
        match self {
            Transreptor::SparqlFromSexpr => MEDIA_SPARQL_QUERY,
            Transreptor::RdfFromSexpr => MEDIA_TURTLE,
            Transreptor::SexprToRdf => MEDIA_TURTLE_CODE_GRAPH,
            Transreptor::SexprFromRdf => MEDIA_SEXPR,
        }
    }

    /// The arguments that every transreptor declares: `content`, where a pipe lands, is required;
    /// `in` is not. They are two names for one document, and a pipe routes into the one argument
    /// that is required.
    pub fn arguments(self) -> (args: (Argument, Argument))
        ensures
            args.0.name@ == "content"@ && args.0.required && args.0.class@ == XSD_STRING@,
            args.1.name@ == "in"@ && !args.1.required && args.1.class@ == XSD_STRING@,
    {
        (
            Argument { name: "content", required: true, class: XSD_STRING },
            Argument { name: "in", required: false, class: XSD_STRING },
        )
    }

    /// Answers a request: takes the document under `content`, or else under `in`, and transrepts
    /// it.
    pub fn serve(self, content: Intake<&str>, named: Intake<&str>) -> (r: Result<Reply, Refusal>)
        ensures
            outcome_of(r) == self.outcome(intake_text(content), intake_text(named)),
            chosen(intake_text(content), intake_text(named)) matches Some((name, src))
                ==> self.inverts(src, outcome_of(r)),
    {
        match (content, named) {
            (Intake::Text(src), _) => self.respond("content", src),
            (_, Intake::Text(src)) => self.respond("in", src),
            (Intake::Unreadable, _) => Err(Refusal::Unreadable("content")),
            (_, Intake::Unreadable) => Err(Refusal::Unreadable("in")),
            (Intake::Absent, Intake::Absent) => Err(Refusal::Missing("content")),
        }
    }

    /// Transrepts a document that came by the given name.
    fn respond(self, name: &'static str, src: &str) -> (r: Result<Reply, Refusal>)
        ensures
            outcome_of(r) == self.answer(name@, src@),
            self.inverts(src@, outcome_of(r)),
    {
        self.conclude(name, self.transform(src))
    }

    /// Answers with what was made of a document that came by the given name.
    pub fn conclude(self, name: &'static str, made: SexprResult<String>) -> (r: Result<
        Reply,
        Refusal,
    >)
        ensures
            outcome_of(r) == self.answer_with(name@, text_result(made)),
    {
        match made {
            Ok(body) => match self {
                Transreptor::SparqlFromSexpr => Ok(
                    Reply { media_type: MEDIA_SPARQL_QUERY, profile: None, body },
                ),
                Transreptor::RdfFromSexpr => Ok(
                    Reply { media_type: MEDIA_TURTLE, profile: None, body },
                ),
                Transreptor::SexprToRdf => Ok(
                    Reply { media_type: MEDIA_TURTLE, profile: Some(CODE_GRAPH_PROFILE), body },
                ),
                Transreptor::SexprFromRdf => Ok(
                    Reply { media_type: MEDIA_SEXPR, profile: None, body },
                ),
            },
            Err(e) => {
                let detail = match self {
                    Transreptor::SparqlFromSexpr => join3(self.iri(), ": ", e.labelled().as_str()),
                    _ => join3(self.iri(), ": ", e.detail()),
                };
                Err(Refusal::Invalid { name, detail })
            },
        }
    }

    /// Transrepts a document.
    fn transform(self, src: &str) -> (r: SexprResult<String>)
        ensures
            text_result(r) == self.transrept(src@),
            self is SexprFromRdf ==> forall|d: Datum|
                src@ == #[trigger] code_graph(d) && nests_within(d, MAX_DECODE_DEPTH as int)
                    && distinct_cells(d) ==> text_result(r) == Ok::<Seq<char>, Fault>(printed(d)),
    {
        match self {
            Transreptor::SparqlFromSexpr => match parse(src) {
                Ok(sexpr) => sexpr_to_sparql(&sexpr),
                Err(e) => Err(e),
            },
            Transreptor::RdfFromSexpr => match parse(src) {
                Ok(sexpr) => sexpr_to_turtle(&sexpr),
                Err(e) => Err(e),
            },
            Transreptor::SexprToRdf => match parse(src) {
                Ok(sexpr) => sexpr_to_rdf(&sexpr),
                Err(e) => Err(e),
            },
            Transreptor::SexprFromRdf => match rdf_to_sexpr(src) {
                Ok(sexpr) => Ok(crate::write(&sexpr)),
                Err(e) => Err(e),
            },
        }
    }
}

// ---------------------------------------------------------------------------------------
// Laws
// ---------------------------------------------------------------------------------------

/// What a transreptor declares to write is what it writes: the media type of its replies, with
/// their profile where they have one.
pub proof fn a_reply_has_the_declared_face(t: Transreptor)
    ensures
        t.writes_text() == (match t.profile() {
            None => t.media_type(),
            Some(p) => t.media_type() + "; profile=\""@ + p + "\""@,
        }),
{
    if t is SexprToRdf {
        reveal_strlit("text/turtle");
        reveal_strlit("; profile=\"");
        reveal_strlit("https://ikigai-rs.dev/ns/sexpr#code-graph");
        reveal_strlit("\"");
        reveal_strlit("text/turtle; profile=\"https://ikigai-rs.dev/ns/sexpr#code-graph\"");
        assert(t.writes_text() =~= t.media_type() + "; profile=\""@ + CODE_GRAPH_PROFILE@ + "\""@);
    }
}

/// No two transreptors have both the same source and the same target.
pub proof fn transreptors_are_told_apart(s: Transreptor, t: Transreptor)
    requires
        s.reads_text() == t.reads_text(),
        s.writes_text() == t.writes_text(),
    ensures
        s == t,
{
    reveal_strlit("text/turtle");
    reveal_strlit("text/x-sexpr");
    reveal_strlit("application/sparql-query");
    reveal_strlit("text/turtle; profile=\"https://ikigai-rs.dev/ns/sexpr#code-graph\"");
    assert(MEDIA_TURTLE@.len() != MEDIA_SEXPR@.len());
    assert(MEDIA_TURTLE@.len() != MEDIA_SPARQL_QUERY@.len());
    assert(MEDIA_TURTLE@.len() != MEDIA_TURTLE_CODE_GRAPH@.len());
    assert(MEDIA_SPARQL_QUERY@.len() != MEDIA_TURTLE_CODE_GRAPH@.len());
}

/// A refused document is answered under the name it came by, with a detail that starts with the
/// IRI of the transreptor; and a request without a document is told that `content` is missing.
pub proof fn a_refusal_names_its_argument(
    t: Transreptor,
    content: Intake<Seq<char>>,
    named: Intake<Seq<char>>,
)
    ensures
        t.outcome(content, named) matches Outcome::Invalid { name, detail } ==> {
            &&& content is Text ==> name == "content"@
            &&& !(content is Text) ==> name == "in"@ && named is Text
            &&& detail.len() >= t.iri_text().len()
            &&& detail.take(t.iri_text().len() as int) == t.iri_text()
        },
        content is Absent && named is Absent ==> t.outcome(content, named) == Outcome::Missing(
            "content"@,
        ),
        t.outcome(content, named) is Missing ==> content is Absent && named is Absent,
{
    if let Some((name, src)) = chosen(content, named) {
        if let Err(f) = t.transrept(src) {
            let detail = t.complaint(f);
            assert(detail.take(t.iri_text().len() as int) =~= t.iri_text());
        }
    }
}

/// The document under one name alone is answered alike under either name, but for the name in
/// a refusal.
pub proof fn either_name_alone_works(t: Transreptor, src: Seq<char>)
    ensures
        t.outcome(Intake::Text(src), Intake::Absent) == t.answer("content"@, src),
        t.outcome(Intake::Absent, Intake::Text(src)) == t.answer("in"@, src),
        t.answer("content"@, src) is Reply ==> t.answer("in"@, src) == t.answer("content"@, src),
{
}

/// The encoder takes whatever the reader takes: it refuses a document only where the reader
/// does.
pub proof fn the_encoder_takes_every_datum(src: Seq<char>)
    ensures
        Transreptor::SexprToRdf.transrept(src) is Ok <==> document(src) is Ok,
{
}

} // verus!
