//! The four transreptors.

use futures::executor::block_on;
use ikigai_core::{ArgRef, Capability, Iri, Kernel, Request, Verb};
use ikigai_sexpr::{
    parse, sexpr_to_rdf, Intake, Refusal, Reply, SexprError, Transreptor, MEDIA_SEXPR, MEDIA_SPARQL_QUERY,
    MEDIA_TURTLE, MEDIA_TURTLE_CODE_GRAPH,
};
use std::sync::Arc;

const ALL: [Transreptor; 4] = [
    Transreptor::SparqlFromSexpr,
    Transreptor::RdfFromSexpr,
    Transreptor::SexprToRdf,
    Transreptor::SexprFromRdf,
];

const QUERY: &str = "(select (?s) (where (?s ?p ?o)) (limit 1))";

const GRAPH: &str = "(graph\n  (prefix (dcterms \"http://purl.org/dc/terms/\"))\n  \
                     ((iri \"urn:example:conformance\") a (iri \"https://ikigai-rs.dev/ns#Endpoint\"))\n  \
                     ((iri \"urn:example:conformance\") dcterms:title \"conformance\"))";

const DATUM: &str = "(select (?s) \"conformance\" 1)";

fn code_graph() -> String {
    sexpr_to_rdf(&parse(DATUM).expect("DATUM parses")).expect("DATUM encodes")
}

fn fixture_input(t: Transreptor) -> String {
    match t {
        Transreptor::SparqlFromSexpr => QUERY.to_string(),
        Transreptor::RdfFromSexpr => GRAPH.to_string(),
        Transreptor::SexprToRdf => DATUM.to_string(),
        Transreptor::SexprFromRdf => code_graph(),
    }
}

fn reply(t: Transreptor, src: &str) -> Reply {
    match t.serve(Intake::Text(src), Intake::Absent) {
        Ok(reply) => reply,
        Err(_) => panic!("{} refuses {src}", t.iri()),
    }
}

/// The name and the detail of the refusal of a document given by the given name.
fn invalid(t: Transreptor, name: &str, src: &str) -> (String, String) {
    let r = if name == "content" {
        t.serve(Intake::Text(src), Intake::Absent)
    } else {
        t.serve(Intake::Absent, Intake::Text(src))
    };
    match r {
        Err(Refusal::Invalid { name, detail }) => (name.to_string(), detail),
        _ => panic!("{} on {src}: expected an invalid argument", t.iri()),
    }
}

#[test]
fn from_sexpr_emits_the_expected_sparql() {
    let sparql = reply(
        Transreptor::SparqlFromSexpr,
        "(select (?s ?p ?o) (where (?s ?p ?o)) (limit 1))",
    )
    .body;
    assert_eq!(sparql, "SELECT ?s ?p ?o WHERE {\n  ?s ?p ?o .\n}\nLIMIT 1");
}

#[test]
fn compiled_query_runs_through_ikigai_sparql() {
    // The compiled query runs over the vocabulary graph and has solutions.
    let sparql = reply(
        Transreptor::SparqlFromSexpr,
        "(select (?s ?p ?o) (where (?s ?p ?o)) (limit 1))",
    )
    .body;
    let kernel = Kernel::new(Arc::new(ikigai_sparql::space()));
    let request = Request::new(Verb::Source, Iri::parse("urn:sparql:select").unwrap())
        .with_arg("query", ArgRef::Inline(sparql.as_bytes().to_vec()));
    let results = String::from_utf8(
        block_on(kernel.issue(request, &Capability::root()))
            .unwrap()
            .bytes
            .to_vec(),
    )
    .unwrap();
    assert!(
        results.contains("\"bindings\""),
        "expected sparql-results JSON, got: {results}"
    );
    assert!(
        results.contains("\"value\""),
        "expected a non-empty solution set, got: {results}"
    );
}

#[test]
fn a_malformed_sexpr_is_a_clean_endpoint_error() {
    assert!(Transreptor::SparqlFromSexpr
        .serve(Intake::Text("(nonsense)"), Intake::Absent)
        .is_err());
}

#[test]
fn from_sexpr_emits_the_expected_turtle() {
    let ttl = reply(
        Transreptor::RdfFromSexpr,
        "(graph (prefix (ex \"http://example.org/\")) (ex:alice ex:name \"Alice\"))",
    )
    .body;
    assert_eq!(
        ttl,
        "@prefix ex: <http://example.org/> .\nex:alice ex:name \"Alice\" .\n"
    );
}

#[test]
fn a_query_form_is_rejected_by_the_graph_transreptor() {
    assert!(Transreptor::RdfFromSexpr
        .serve(Intake::Text("(select (?s) (where (?s ?p ?o)))"), Intake::Absent)
        .is_err());
}

#[test]
fn to_rdf_then_from_rdf_round_trips_through_the_kernel() {
    let input = "(select (?s ?p ?o) (where (?s ?p ?o)) (limit 10))";
    let ttl = reply(Transreptor::SexprToRdf, input).body;
    assert!(ttl.contains("sx:root"), "code-graph turtle: {ttl}");
    let back = reply(Transreptor::SexprFromRdf, &ttl).body;
    assert_eq!(back, input);
}

#[test]
fn a_malformed_document_is_a_clean_endpoint_error() {
    assert!(Transreptor::SexprFromRdf
        .serve(Intake::Text("not a code-graph"), Intake::Absent)
        .is_err());
}

#[test]
fn every_action_serves_the_face_it_declares_and_declares_the_face_it_serves() {
    let expected = [
        (Transreptor::SparqlFromSexpr, "urn:sparql:from-sexpr", MEDIA_SPARQL_QUERY, QUERY.to_string()),
        (Transreptor::RdfFromSexpr, "urn:rdf:from-sexpr", MEDIA_TURTLE, GRAPH.to_string()),
        (Transreptor::SexprToRdf, "urn:sexpr:to-rdf", MEDIA_TURTLE_CODE_GRAPH, DATUM.to_string()),
        (Transreptor::SexprFromRdf, "urn:sexpr:from-rdf", MEDIA_SEXPR, code_graph()),
    ];
    for (t, iri, face, input) in expected {
        assert_eq!(t.iri(), iri);
        assert_eq!(t.writes(), face, "{iri} declares exactly the face this test pins");
        let served = reply(t, &input).media_type;
        assert_eq!(bare(served), bare(face), "{iri} serves `{served}` but declares `{face}`");
    }
}

/// The media type without its parameters.
fn bare(media_type: &str) -> String {
    media_type
        .split(';')
        .next()
        .unwrap_or("")
        .trim()
        .to_ascii_lowercase()
}

#[test]
fn either_intake_alone_works_and_neither_is_a_typed_missing_argument() {
    for t in ALL {
        let input = fixture_input(t);
        assert!(t.serve(Intake::Text(&input), Intake::Absent).is_ok());
        assert!(t.serve(Intake::Absent, Intake::Text(&input)).is_ok());
        match t.serve(Intake::Absent, Intake::Absent) {
            Err(Refusal::Missing(name)) => assert_eq!(name, "content"),
            _ => panic!("{} with no document: expected a missing argument", t.iri()),
        }
    }
}

#[test]
fn a_well_typed_but_malformed_document_is_an_invalid_argument_naming_the_input() {
    let unreadable: Vec<(Transreptor, &str)> = ALL.iter().map(|t| (*t, "(")).collect();
    let not_this_shape = vec![
        (Transreptor::SparqlFromSexpr, "x"),
        (Transreptor::RdfFromSexpr, "x"),
        (Transreptor::SexprFromRdf, "x"),
    ];
    for (t, bad) in unreadable.into_iter().chain(not_this_shape) {
        for name in ["content", "in"] {
            let (arg, detail) = invalid(t, name, bad);
            assert_eq!(arg, name, "{} names the input the caller passed", t.iri());
            assert!(
                detail.starts_with(t.iri()),
                "{}: the detail says which stage rejected it: {detail}",
                t.iri()
            );
        }
    }
    // The encoder takes any datum, a lone symbol included.
    assert!(Transreptor::SexprToRdf
        .serve(Intake::Text("x"), Intake::Absent)
        .is_ok());
}

#[test]
fn every_cacheable_result_is_the_same_bytes_from_an_independent_computation() {
    for t in ALL {
        let input = fixture_input(t);
        let once = reply(t, &input);
        let twice = reply(t, &input);
        assert_eq!(once.body, twice.body, "{}", t.iri());
        assert_eq!(once.media_type, twice.media_type, "{}", t.iri());
    }
}

#[test]
fn what_each_transreptor_declares() {
    let expected = [
        (Transreptor::SparqlFromSexpr, "sparql-from-sexpr", MEDIA_SEXPR, MEDIA_SPARQL_QUERY),
        (Transreptor::RdfFromSexpr, "rdf-from-sexpr", MEDIA_SEXPR, MEDIA_TURTLE),
        (Transreptor::SexprToRdf, "sexpr-to-rdf", MEDIA_SEXPR, MEDIA_TURTLE_CODE_GRAPH),
        (Transreptor::SexprFromRdf, "sexpr-from-rdf", MEDIA_TURTLE, MEDIA_SEXPR),
    ];
    for (t, id, reads, writes) in expected {
        assert_eq!(t.id(), id);
        assert_eq!(t.reads(), reads);
        assert_eq!(t.writes(), writes);
    }
    assert_ne!(MEDIA_TURTLE_CODE_GRAPH, MEDIA_TURTLE);
}

#[test]
fn only_a_code_graph_has_a_profile() {
    for t in ALL {
        let profile = reply(t, &fixture_input(t)).profile;
        if t == Transreptor::SexprToRdf {
            assert_eq!(profile, Some("https://ikigai-rs.dev/ns/sexpr#code-graph"));
        } else {
            assert_eq!(profile, None);
        }
    }
}

#[test]
fn content_comes_before_in() {
    let t = Transreptor::SexprToRdf;
    let both = t.serve(Intake::Text("a"), Intake::Text("b"));
    let first = t.serve(Intake::Text("a"), Intake::Absent);
    match (both, first) {
        (Ok(x), Ok(y)) => assert_eq!(x.body, y.body),
        _ => panic!("a lone symbol encodes"),
    }
    // What is not inline text gives way to the other name, and is refused if there is none.
    assert!(t.serve(Intake::Unreadable, Intake::Text("b")).is_ok());
    assert!(matches!(
        t.serve(Intake::Unreadable, Intake::Absent),
        Err(Refusal::Unreadable("content"))
    ));
    assert!(matches!(
        t.serve(Intake::Absent, Intake::Unreadable),
        Err(Refusal::Unreadable("in"))
    ));
}

#[test]
fn the_details_of_refusals_are_exact() {
    assert_eq!(
        invalid(Transreptor::SparqlFromSexpr, "content", "(").1,
        "urn:sparql:from-sexpr: sexpr parse error: unexpected end of input: missing `)`"
    );
    assert_eq!(
        invalid(Transreptor::SparqlFromSexpr, "in", "(ask)").1,
        "urn:sparql:from-sexpr: sparql-from-sexpr: unknown query head `ask`; only `select` is \
         supported"
    );
    assert_eq!(
        invalid(Transreptor::RdfFromSexpr, "content", "(ask)").1,
        "urn:rdf:from-sexpr: unknown graph head `ask`; only `graph` is supported"
    );
    assert_eq!(
        invalid(Transreptor::SexprToRdf, "content", ")").1,
        "urn:sexpr:to-rdf: unexpected `)` — unbalanced parens"
    );
    assert_eq!(
        invalid(Transreptor::SexprFromRdf, "in", "").1,
        "urn:sexpr:from-rdf: no `<urn:sexpr:document> sx:root …` triple — not an s-expression \
         code-graph"
    );
}

#[test]
fn content_is_required_and_in_is_optional() {
    for t in ALL {
        let (content, named) = t.arguments();
        assert_eq!(content.name, "content");
        assert!(content.required);
        assert_eq!(content.class, "http://www.w3.org/2001/XMLSchema#string");
        assert_eq!(named.name, "in");
        assert!(!named.required);
        assert_eq!(named.class, "http://www.w3.org/2001/XMLSchema#string");
    }
}

#[test]
fn the_query_and_the_graph_transreptor_refuse_each_other() {
    assert!(Transreptor::SparqlFromSexpr
        .serve(Intake::Text(GRAPH), Intake::Absent)
        .is_err());
    assert!(Transreptor::RdfFromSexpr
        .serve(Intake::Text(QUERY), Intake::Absent)
        .is_err());
}

#[test]
fn what_was_made_of_a_document_is_the_answer() {
    for t in ALL {
        match t.conclude("in", Ok("body".to_string())) {
            Ok(reply) => {
                assert_eq!(reply.body, "body");
                assert_eq!(bare(t.writes()), reply.media_type);
            }
            Err(_) => panic!("{} answers with what was made", t.iri()),
        }
        match t.conclude("in", Err(SexprError::Parse("why".to_string()))) {
            Err(Refusal::Invalid { name, detail }) => {
                assert_eq!(name, "in");
                let label = if t == Transreptor::SparqlFromSexpr {
                    "sexpr parse error: "
                } else {
                    ""
                };
                assert_eq!(detail, format!("{}: {label}why", t.iri()));
            }
            _ => panic!("{} refuses", t.iri()),
        }
    }
}
