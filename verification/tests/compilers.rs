//! The query compiler and the graph compiler.

use ikigai_sexpr::quads::{Object, Subject, Triple, TurtleItem};
use ikigai_sexpr::rdfgraph::{Node, Value};
use ikigai_sexpr::terms::{is_prefixed_name, is_var, render_iri};
use ikigai_sexpr::text::render_string_literal;
use ikigai_sexpr::turtle::{compile_graph, confirm_graph};
use ikigai_sexpr::{parse, sexpr_to_sparql, sexpr_to_turtle, Sexpr, SexprError, SexprResult};
use oxrdfio::{RdfFormat, RdfParser};

/// The triples of a Turtle document, each as `S P O`; fails where it is not Turtle.
fn triples(ttl: &str) -> Vec<String> {
    let mut out = Vec::new();
    for q in RdfParser::from_format(RdfFormat::Turtle).for_slice(ttl.as_bytes()) {
        let q = q.expect("emitted Turtle must be valid RDF");
        out.push(format!("{} {} {}", q.subject, q.predicate, q.object));
    }
    out
}

fn query_fault(src: &str) -> String {
    match sexpr_to_sparql(&parse(src).unwrap()) {
        Err(SexprError::Compile(m)) => m,
        other => panic!("expected a compile error for {src:?}, got {other:?}"),
    }
}

fn graph_fault(src: &str) -> String {
    match sexpr_to_turtle(&parse(src).unwrap()) {
        Err(SexprError::Compile(m)) => m,
        other => panic!("expected a compile error for {src:?}, got {other:?}"),
    }
}

#[test]
fn compiles_a_basic_select_with_one_triple() {
    let q = parse("(select (?s ?p ?o) (where (?s ?p ?o)))").unwrap();
    assert_eq!(
        sexpr_to_sparql(&q).unwrap(),
        "SELECT ?s ?p ?o WHERE {\n  ?s ?p ?o .\n}"
    );
}

#[test]
fn compiles_prefix_projection_and_limit() {
    // PREFIX line, a narrowed projection, a prefixed-name predicate, and LIMIT — emitted
    // in canonical order regardless of clause order in the s-expr.
    let q = parse(
        r#"(select (?s)
             (limit 5)
             (prefix (rdf "http://www.w3.org/1999/02/22-rdf-syntax-ns#"))
             (where (?s rdf:type ?o)))"#,
    )
    .unwrap();
    assert_eq!(
        sexpr_to_sparql(&q).unwrap(),
        "PREFIX rdf: <http://www.w3.org/1999/02/22-rdf-syntax-ns#>\n\
         SELECT ?s WHERE {\n  ?s rdf:type ?o .\n}\nLIMIT 5"
    );
}

#[test]
fn compiles_star_projection_iri_term_and_order_by() {
    // `*` projection, an (iri "…") subject, the `a` predicate keyword, and an ORDER BY
    // mixing a bare var with a (desc …) condition.
    let q = parse(
        r#"(select *
             (where ((iri "http://example.org/s") a ?o))
             (order-by ?o (desc ?o)))"#,
    )
    .unwrap();
    assert_eq!(
        sexpr_to_sparql(&q).unwrap(),
        "SELECT * WHERE {\n  <http://example.org/s> a ?o .\n}\nORDER BY ?o DESC(?o)"
    );
}

#[test]
fn string_literals_and_iris_are_escaped_not_interpolated() {
    // Safety is the point vs string-building: a literal's quotes/backslashes are escaped,
    // and an IRI carrying query syntax is rejected outright (never emitted).
    assert_eq!(render_string_literal("a\"b\\c\n"), "\"a\\\"b\\\\c\\n\"");
    assert!(
        render_iri("http://ex/x> . } INJECT {").is_err(),
        "an IRI with IRIREF-illegal characters must be rejected"
    );
}

#[test]
fn an_unknown_query_head_is_an_error_not_a_panic() {
    assert!(sexpr_to_sparql(&parse("(delete-everything)").unwrap()).is_err());
}

#[test]
fn malformed_queries_are_rejected() {
    // A non-list, an unknown clause, a bad triple arity, and a missing where — all clean.
    assert!(sexpr_to_sparql(&parse("42").unwrap()).is_err());
    assert!(sexpr_to_sparql(&parse("(select (?s) (drop-table (?s ?p ?o)))").unwrap()).is_err());
    assert!(sexpr_to_sparql(&parse("(select (?s) (where (?s ?p)))").unwrap()).is_err());
    assert!(sexpr_to_sparql(&parse("(select (?s))").unwrap()).is_err()); // no where clause
}

#[test]
fn an_injected_iri_symbol_term_is_rejected() {
    // A bare symbol that is neither ?var nor pfx:local is rejected (full IRIs must go in
    // the validated (iri "…") form) — the compiler never emits an unrecognized token.
    assert!(sexpr_to_sparql(&parse("(select (?s) (where (?s ?p injected)))").unwrap()).is_err());
}

#[test]
fn a_negative_limit_is_rejected() {
    assert!(
        sexpr_to_sparql(&parse("(select (?s) (where (?s ?p ?o)) (limit -1))").unwrap()).is_err()
    );
}

#[test]
fn compiler_signature_is_kernel_free() {
    // `sexpr_to_sparql` is `&Sexpr -> SexprResult<String>` — no ikigai-core type appears
    // in its signature. This binding wouldn't type-check otherwise.
    let f: fn(&Sexpr) -> SexprResult<String> = sexpr_to_sparql;
    let q = parse("(select (?s ?p ?o) (where (?s ?p ?o)))").unwrap();
    assert!(f(&q).is_ok());
}

#[test]
fn compiles_a_basic_graph_to_exact_turtle() {
    // @prefix line, an IRI-string-literal triple, and an integer literal — one
    // newline-terminated `S P O .` per triple, in author order.
    let g = parse(
        r#"(graph
             (prefix (ex "http://example.org/"))
             (ex:alice ex:name "Alice")
             (ex:alice ex:age 42))"#,
    )
    .unwrap();
    assert_eq!(
        sexpr_to_turtle(&g).unwrap(),
        "@prefix ex: <http://example.org/> .\n\
         ex:alice ex:name \"Alice\" .\n\
         ex:alice ex:age 42 .\n"
    );
}

#[test]
fn a_predicate_becomes_rdf_type_and_auto_binds_rdf() {
    // `a` renders as rdf:type; the rdf: prefix is auto-bound (after the author's prefixes)
    // so the emitted Turtle is self-contained. The subject is a full (iri "…").
    let g = parse(
        r#"(graph
             (prefix (foaf "http://xmlns.com/foaf/0.1/"))
             ((iri "http://example.org/alice") a foaf:Person))"#,
    )
    .unwrap();
    assert_eq!(
        sexpr_to_turtle(&g).unwrap(),
        "@prefix foaf: <http://xmlns.com/foaf/0.1/> .\n\
         @prefix rdf: <http://www.w3.org/1999/02/22-rdf-syntax-ns#> .\n\
         <http://example.org/alice> rdf:type foaf:Person .\n"
    );
}

#[test]
fn an_author_declared_rdf_prefix_is_not_duplicated() {
    // If the author already binds rdf:, `a` reuses it — no duplicate @prefix line.
    let g = parse(
        r#"(graph
             (prefix (ex "http://example.org/") (rdf "http://www.w3.org/1999/02/22-rdf-syntax-ns#"))
             (ex:a a ex:Thing))"#,
    )
    .unwrap();
    assert_eq!(
        sexpr_to_turtle(&g).unwrap(),
        "@prefix ex: <http://example.org/> .\n\
         @prefix rdf: <http://www.w3.org/1999/02/22-rdf-syntax-ns#> .\n\
         ex:a rdf:type ex:Thing .\n"
    );
}

#[test]
fn compiles_string_int_typed_and_lang_literals() {
    // The object literal forms: bare string, integer, (lit "v" pfx:dt) typed, (lit "v" @tag).
    let g = parse(
        r#"(graph
             (prefix (ex "http://example.org/") (xsd "http://www.w3.org/2001/XMLSchema#"))
             (ex:x ex:s "hi")
             (ex:x ex:n 7)
             (ex:x ex:d (lit "3.14" xsd:decimal))
             (ex:x ex:g (lit "Bonjour" @fr)))"#,
    )
    .unwrap();
    assert_eq!(
        sexpr_to_turtle(&g).unwrap(),
        "@prefix ex: <http://example.org/> .\n\
         @prefix xsd: <http://www.w3.org/2001/XMLSchema#> .\n\
         ex:x ex:s \"hi\" .\n\
         ex:x ex:n 7 .\n\
         ex:x ex:d \"3.14\"^^xsd:decimal .\n\
         ex:x ex:g \"Bonjour\"@fr .\n"
    );
}

#[test]
fn an_unknown_graph_head_is_an_error_not_a_panic() {
    // The wrong top form (a query, or nonsense) is a clean error — this is how the two
    // text/x-sexpr transreptors disambiguate by head.
    assert!(sexpr_to_turtle(&parse("(select (?s) (where (?s ?p ?o)))").unwrap()).is_err());
    assert!(sexpr_to_turtle(&parse("(nonsense)").unwrap()).is_err());
    assert!(sexpr_to_turtle(&parse("42").unwrap()).is_err());
}

#[test]
fn blank_node_forms_are_rejected_with_a_skolemize_message() {
    // Skolemize: a `_:b` node (subject or object) is rejected, pointing at stable IRIs.
    let err = sexpr_to_turtle(
        &parse(r#"(graph (prefix (ex "http://example.org/")) (_:b ex:p ex:o))"#).unwrap(),
    )
    .unwrap_err();
    assert!(err.detail().contains("blank node"), "got: {}", err.labelled());
    assert!(sexpr_to_turtle(
        &parse(r#"(graph (prefix (ex "http://example.org/")) (ex:s ex:p _:o))"#).unwrap()
    )
    .is_err());
}

#[test]
fn graph_terms_are_escaped_and_validated_not_interpolated() {
    // An IRI carrying Turtle-breaking syntax is rejected outright (never emitted); a literal
    // carrying a quote/newline/dot is escaped, not interpolated (proven below by re-parsing).
    assert!(
        sexpr_to_turtle(
            &parse(r#"(graph (ex:s ex:p (iri "http://x> . <urn:evil> a <urn:pwned")))"#).unwrap()
        )
        .is_err(),
        "an IRI with IRIREF-illegal characters must be rejected"
    );
    // A bare (unprefixed, non-IRI) subject symbol is rejected — never emitted as a raw token.
    assert!(sexpr_to_turtle(&parse("(graph (injected ex:p ex:o))").unwrap()).is_err());
    // A ?variable is not a graph node.
    assert!(sexpr_to_turtle(&parse("(graph (?s ex:p ex:o))").unwrap()).is_err());
    // A malformed (lit …) is a clean error, not a panic.
    assert!(sexpr_to_turtle(&parse(r#"(graph (ex:s ex:p (lit "v")))"#).unwrap()).is_err());
    assert!(sexpr_to_turtle(&parse(r#"(graph (ex:s ex:p (lit "v" @)))"#).unwrap()).is_err());
}

#[test]
fn the_signature_is_pure_and_kernel_free() {
    // `sexpr_to_turtle` is `&Sexpr -> SexprResult<String>` — no ikigai-core type appears.
    let f: fn(&Sexpr) -> SexprResult<String> = sexpr_to_turtle;
    assert!(f(&parse("(graph)").unwrap()).is_ok()); // an empty graph is valid (empty RDF)
}

#[test]
fn basic_graph_reparses_to_the_expected_triples() {
    let g = parse(
        r#"(graph
             (prefix (ex "http://example.org/"))
             (ex:alice ex:name "Alice")
             (ex:alice ex:age 42))"#,
    )
    .unwrap();
    let lines = triples(&sexpr_to_turtle(&g).unwrap());
    assert_eq!(lines.len(), 2);
    assert!(lines.contains(
        &r#"<http://example.org/alice> <http://example.org/name> "Alice""#.to_string()
    ));
    assert!(lines.iter().any(|l| l.starts_with(
        "<http://example.org/alice> <http://example.org/age> \"42\"^^<http://www.w3.org/2001/XMLSchema#integer>"
    )));
}

#[test]
fn a_type_triple_reparses_with_the_expanded_rdf_type_iri() {
    let g = parse(
        r#"(graph
             (prefix (foaf "http://xmlns.com/foaf/0.1/"))
             ((iri "http://example.org/alice") a foaf:Person))"#,
    )
    .unwrap();
    let lines = triples(&sexpr_to_turtle(&g).unwrap());
    assert_eq!(
        lines,
        vec!["<http://example.org/alice> \
             <http://www.w3.org/1999/02/22-rdf-syntax-ns#type> \
             <http://xmlns.com/foaf/0.1/Person>"
            .to_string()]
    );
}

#[test]
fn an_injection_payload_literal_stays_one_triple() {
    // A literal carrying `"`, a newline, a `.`, and Turtle statement syntax must NOT
    // break out: the graph re-parses to exactly ONE triple, the payload trapped inside
    // the (escaped) literal. This is the escaping-not-interpolation guarantee, proven.
    let evil = "he said \"boom\" .\n<urn:x> a <urn:y> .";
    let g = Sexpr::List(vec![
        Sexpr::Symbol("graph".into()),
        Sexpr::List(vec![
            Sexpr::Symbol("prefix".into()),
            Sexpr::List(vec![
                Sexpr::Symbol("ex".into()),
                Sexpr::Str("http://example.org/".into()),
            ]),
        ]),
        Sexpr::List(vec![
            Sexpr::Symbol("ex:s".into()),
            Sexpr::Symbol("ex:p".into()),
            Sexpr::Str(evil.into()),
        ]),
    ]);
    let lines = triples(&sexpr_to_turtle(&g).unwrap());
    assert_eq!(lines.len(), 1, "the payload injected extra triples");
    let l = &lines[0];
    assert!(l.starts_with("<http://example.org/s> <http://example.org/p> \""));
    assert!(l.contains("boom"), "the literal text survived: {l}");
}

#[test]
fn each_fault_of_a_query_has_its_message() {
    assert_eq!(
        query_fault("42"),
        "query must be a list, e.g. (select (?s ?p ?o) (where (?s ?p ?o)))"
    );
    assert_eq!(query_fault("()"), "query must start with a head symbol (e.g. `select`)");
    assert_eq!(query_fault("(1)"), "query must start with a head symbol (e.g. `select`)");
    assert_eq!(query_fault("(ask)"), "unknown query head `ask`; only `select` is supported");
    assert_eq!(
        query_fault("(select)"),
        "select needs a projection: (select (?a …) …) or (select * …)"
    );
    assert_eq!(query_fault("(select 1)"), "projection must be a var list (?a ?b …) or *");
    assert_eq!(
        query_fault("(select ())"),
        "projection var list is empty; use * to select all"
    );
    assert_eq!(query_fault("(select (?a b))"), "expected a ?variable");
    assert_eq!(query_fault("(select (?a ?))"), "expected a ?variable");
    assert_eq!(query_fault("(select *)"), "select needs a (where …) clause");
    assert_eq!(
        query_fault("(select * x)"),
        "each select clause must be a list, e.g. (where …)"
    );
    assert_eq!(
        query_fault("(select * ())"),
        "a select clause must start with a keyword (where/prefix/limit/order-by)"
    );
    assert_eq!(
        query_fault("(select * (drop))"),
        "unknown select clause `drop`; expected where/prefix/limit/order-by"
    );
    assert_eq!(query_fault("(select * (where x))"), "a triple must be a list (S P O)");
    assert_eq!(
        query_fault("(select * (where (?s ?p)))"),
        "a triple must have exactly three terms (S P O)"
    );
    assert_eq!(
        query_fault("(select * (where (s ?p ?o)))"),
        "unrecognized term symbol `s`; use ?var or pfx:local (full IRIs go in (iri \"…\"))"
    );
    assert_eq!(
        query_fault("(select * (where (?s ?p (lit 1))))"),
        "unknown term form `(lit …)`; only (iri \"…\") is a compound term"
    );
    assert_eq!(
        query_fault("(select * (where (?s ?p (1))))"),
        "a compound term must start with a symbol, e.g. (iri \"…\")"
    );
    assert_eq!(
        query_fault("(select * (where (?s ?p (iri 1))))"),
        "(iri …) takes exactly one string, e.g. (iri \"http://…\")"
    );
    assert_eq!(query_fault("(select * (where (?s ?p (iri \"\"))))"), "(iri \"\") is empty");
    assert_eq!(
        query_fault("(select * (where (?s ?p (iri \"a b\"))))"),
        "IRI `a b` contains characters not allowed in a SPARQL IRIREF"
    );
    assert_eq!(
        query_fault("(select * (prefix x))"),
        "a prefix binding must be a list (pfx \"http://…\")"
    );
    assert_eq!(
        query_fault("(select * (prefix (x)))"),
        "a prefix binding is (pfx \"http://…\")"
    );
    assert_eq!(
        query_fault("(select * (prefix (1 \"a\")))"),
        "prefix name must be a symbol, e.g. rdf"
    );
    assert_eq!(query_fault("(select * (prefix (a-b: \"a\")))"), "invalid prefix name `a-b`");
    assert_eq!(
        query_fault("(select * (prefix (a 1)))"),
        "a prefix namespace must be a string IRI"
    );
    assert_eq!(
        query_fault("(select * (limit -1))"),
        "limit must be a non-negative integer"
    );
    assert_eq!(
        query_fault("(select * (limit))"),
        "limit takes a single non-negative integer, e.g. (limit 10)"
    );
    assert_eq!(
        query_fault("(select * (limit x))"),
        "limit takes a single non-negative integer, e.g. (limit 10)"
    );
    assert_eq!(query_fault("(select * (order-by))"), "order-by needs at least one ?variable");
    assert_eq!(
        query_fault("(select * (order-by x))"),
        "order-by symbol must be a ?variable"
    );
    assert_eq!(
        query_fault("(select * (order-by 1))"),
        "order-by term must be ?var or (asc ?var)/(desc ?var)"
    );
    assert_eq!(
        query_fault("(select * (order-by (up ?x)))"),
        "order-by direction must be asc or desc"
    );
    assert_eq!(
        query_fault("(select * (order-by (asc)))"),
        "(asc …)/(desc …) takes one ?variable"
    );
    assert_eq!(query_fault("(select * (order-by (asc x)))"), "expected a ?variable");
}

#[test]
fn faults_come_in_order() {
    // The projection first, then the clauses as they stand, then the missing where.
    assert_eq!(query_fault("(select 1 x)"), "projection must be a var list (?a ?b …) or *");
    assert_eq!(
        query_fault("(select * (limit x) (where x))"),
        "limit takes a single non-negative integer, e.g. (limit 10)"
    );
    assert_eq!(
        query_fault("(select * (where (?s ?p ?o) (x ?p ?o) y))"),
        "unrecognized term symbol `x`; use ?var or pfx:local (full IRIs go in (iri \"…\"))"
    );
}

#[test]
fn clauses_may_stand_in_any_order() {
    let parts = [
        "(where (?s ex:p \"o\"))",
        "(prefix (ex: \"http://ex/\") (: \"http://d/\"))",
        "(limit 3)",
        "(order-by (asc ?s) ?s (desc ?s))",
    ];
    let expected = "PREFIX ex: <http://ex/>\nPREFIX : <http://d/>\nSELECT ?s WHERE {\n  \
                    ?s ex:p \"o\" .\n}\nORDER BY ASC(?s) ?s DESC(?s)\nLIMIT 3";
    for order in [[0, 1, 2, 3], [3, 2, 1, 0], [2, 0, 3, 1], [1, 3, 0, 2]] {
        let src = format!(
            "(select (?s) {} {} {} {})",
            parts[order[0]], parts[order[1]], parts[order[2]], parts[order[3]]
        );
        assert_eq!(sexpr_to_sparql(&parse(&src).unwrap()).unwrap(), expected);
    }
}

#[test]
fn only_clauses_with_one_keyword_keep_their_order() {
    let orders = [
        "(where (?a ?b 1)) (limit 1) (where (?c ?d 2)) (prefix (e \"http://e\")) (limit 2)",
        "(limit 1) (prefix (e \"http://e\")) (where (?a ?b 1)) (limit 2) (where (?c ?d 2))",
        "(where (?a ?b 1)) (where (?c ?d 2)) (limit 1) (limit 2) (prefix (e \"http://e\"))",
    ];
    for o in orders {
        assert_eq!(
            sexpr_to_sparql(&parse(&format!("(select * {o})")).unwrap()).unwrap(),
            "PREFIX e: <http://e>\nSELECT * WHERE {\n  ?a ?b 1 .\n  ?c ?d 2 .\n}\nLIMIT 2"
        );
    }
    // What is refused in one order is refused in every order.
    for o in ["(where) (limit x) (drop)", "(drop) (where) (limit x)", "(limit x) (drop) (where)"] {
        assert!(sexpr_to_sparql(&parse(&format!("(select * {o})")).unwrap()).is_err());
    }
}

#[test]
fn each_part_of_a_query_has_a_line() {
    for (clauses, feeds) in [
        ("(where)", 1),
        ("(where (?a ?b \"x\ny\"))", 2),
        ("(where (?a ?b 1)) (limit 1) (limit 2)", 3),
        ("(where (?a ?b 1) (?a ?b 2)) (order-by ?a ?b) (where (?a ?b 3))", 5),
        ("(prefix (e \"http://e\") (f \"http://f\")) (where) (prefix) (order-by ?a) (limit 1)", 5),
    ] {
        let q = sexpr_to_sparql(&parse(&format!("(select * {clauses})")).unwrap()).unwrap();
        assert_eq!(q.matches('\n').count(), feeds, "{q}");
    }
}

#[test]
fn a_repeated_clause_adds_or_replaces() {
    let q = parse(
        "(select * (limit 1) (where (?a ?b 1)) (order-by ?a) (where (?c ?d -2)) (limit 2) \
         (order-by ?c))",
    )
    .unwrap();
    assert_eq!(
        sexpr_to_sparql(&q).unwrap(),
        "SELECT * WHERE {\n  ?a ?b 1 .\n  ?c ?d -2 .\n}\nORDER BY ?c\nLIMIT 2"
    );
    // An empty where is a where.
    assert_eq!(
        sexpr_to_sparql(&parse("(select * (where))").unwrap()).unwrap(),
        "SELECT * WHERE {\n}"
    );
}

#[test]
fn each_fault_of_a_graph_has_its_message() {
    assert_eq!(graph_fault("42"), "a graph must be a list, e.g. (graph (ex:s ex:p ex:o))");
    assert_eq!(graph_fault("()"), "a graph must start with a head symbol (`graph`)");
    assert_eq!(
        graph_fault("(select)"),
        "unknown graph head `select`; only `graph` is supported"
    );
    assert_eq!(
        graph_fault("(graph x)"),
        "each graph form must be a list — a triple (S P O) or (prefix …)"
    );
    assert_eq!(graph_fault("(graph ())"), "a triple must have exactly three terms (S P O)");
    assert_eq!(
        graph_fault("(graph (_:b ex:p ex:o))"),
        "blank nodes are not allowed — skolemize to a stable IRI (pfx:local or (iri \"…\"))"
    );
    assert_eq!(
        graph_fault("(graph (ex:s _:b ex:o))"),
        "blank nodes are not allowed — skolemize to a stable IRI (pfx:local or (iri \"…\"))"
    );
    assert_eq!(
        graph_fault("(graph (?s ex:p ex:o))"),
        "a subject must be an IRI, not the variable `?s`"
    );
    assert_eq!(
        graph_fault("(graph (ex:s p ex:o))"),
        "unrecognized predicate `p`; use pfx:local or (iri \"…\")"
    );
    assert_eq!(
        graph_fault("(graph (ex:s ex:p o))"),
        "unrecognized object `o`; use pfx:local or (iri \"…\")"
    );
    assert_eq!(
        graph_fault("(graph ((lit \"a\" @en) ex:p ex:o))"),
        "unknown subject form `(lit …)`; only (iri \"…\") is an IRI form"
    );
    assert_eq!(
        graph_fault("(graph (ex:s (1) ex:o))"),
        "a compound predicate must start with a symbol, e.g. (iri \"…\")"
    );
    assert_eq!(
        graph_fault("(graph (\"s\" ex:p ex:o))"),
        "a subject must be an IRI (pfx:local or (iri \"…\")), not a literal"
    );
    assert_eq!(
        graph_fault("(graph (ex:s ex:p (x)))"),
        "unknown object form `(x …)`; expected (iri \"…\") or (lit \"v\" dt)"
    );
    assert_eq!(
        graph_fault("(graph (ex:s ex:p ()))"),
        "a compound object must start with a symbol, e.g. (iri \"…\") or (lit …)"
    );
    assert_eq!(
        graph_fault("(graph (ex:s ex:p (lit \"v\")))"),
        "(lit …) takes a value and a datatype/lang, e.g. (lit \"3.14\" xsd:decimal) or \
         (lit \"hi\" @en)"
    );
    assert_eq!(
        graph_fault("(graph (ex:s ex:p (lit 1 @en)))"),
        "(lit …) value must be a string literal"
    );
    assert_eq!(
        graph_fault("(graph (ex:s ex:p (lit \"v\" @e_n)))"),
        "invalid language tag `@e_n`"
    );
    assert_eq!(
        graph_fault("(graph (ex:s ex:p (lit \"v\" dt)))"),
        "unrecognized datatype `dt`; use pfx:local or (iri \"…\")"
    );
    assert_eq!(
        graph_fault("(graph (prefix (1 \"a\")))"),
        "prefix name must be a symbol, e.g. ex"
    );
    assert_eq!(graph_fault("(graph (prefix (1a \"a\")))"), "invalid prefix name `1a`");
}

#[test]
fn typed_literals_take_any_iri() {
    let g = parse(
        "(graph (prefix (ex \"http://e/\")) (ex:s ex:p (lit \"v\" (iri \"http://dt\"))))",
    )
    .unwrap();
    assert_eq!(
        sexpr_to_turtle(&g).unwrap(),
        "@prefix ex: <http://e/> .\nex:s ex:p \"v\"^^<http://dt> .\n"
    );
    let g =
        parse("(graph (prefix (ex \"http://e/\")) (ex:s ex:p (lit \"v\" @en-GB)))").unwrap();
    assert_eq!(
        sexpr_to_turtle(&g).unwrap(),
        "@prefix ex: <http://e/> .\nex:s ex:p \"v\"@en-GB .\n"
    );
}

#[test]
fn rdf_type_is_bound_however_it_is_written() {
    let expected = "@prefix ex: <http://e/> .\n\
                    @prefix rdf: <http://www.w3.org/1999/02/22-rdf-syntax-ns#> .\n\
                    ex:s rdf:type ex:T .\n";
    for p in ["a", "rdf:type"] {
        let g = parse(&format!("(graph (prefix (ex \"http://e/\")) (ex:s {p} ex:T))")).unwrap();
        assert_eq!(sexpr_to_turtle(&g).unwrap(), expected);
    }
    // A binding of the graph's own is kept, wherever it stands.
    let g = parse(
        "(graph (ex:s rdf:type ex:T) (prefix (rdf \"http://r/\") (ex \"http://e/\")))",
    )
    .unwrap();
    assert_eq!(
        sexpr_to_turtle(&g).unwrap(),
        "@prefix rdf: <http://r/> .\n@prefix ex: <http://e/> .\nex:s rdf:type ex:T .\n"
    );
    // Only the predicate binds it.
    assert_eq!(
        graph_fault("(graph (prefix (ex \"http://e/\")) (ex:s ex:p rdf:type))"),
        "undeclared prefix `rdf:`; bind it in a (prefix …) clause"
    );
}

#[test]
fn every_label_has_to_be_bound() {
    let unbound = |label: &str| {
        format!("undeclared prefix `{label}:`; bind it in a (prefix …) clause")
    };
    assert_eq!(graph_fault("(graph (ex:s ex:p ex:o))"), unbound("ex"));
    assert_eq!(graph_fault("(graph ((iri \"http://s\") b:p c:o))"), unbound("b"));
    assert_eq!(
        graph_fault("(graph (prefix (b \"http://b/\")) (b:s b:p c:o) (d:s b:p b:o))"),
        unbound("c")
    );
    assert_eq!(
        graph_fault("(graph (prefix (b \"http://b/\")) (b:s b:p (lit \"1\" xsd:byte)))"),
        unbound("xsd")
    );
    assert_eq!(graph_fault("(graph ((iri \"http://s\") (iri \"http://p\") :o))"), unbound(""));
    // A malformed form is named first.
    assert_eq!(
        graph_fault("(graph (ex:s ex:p ex:o) (ex:s))"),
        "a triple must have exactly three terms (S P O)"
    );
}

#[test]
fn a_graph_that_is_not_rdf_is_refused() {
    for g in [
        // An IRI or a namespace that is not absolute.
        "(graph ((iri \"s\") (iri \"http://p\") 1))",
        "(graph ((iri \"http://s\") (iri \"http://p\") (iri \"/o\")))",
        "(graph (prefix (ex \"e/\")) (ex:s ex:p ex:o))",
        // Malformed language tags.
        "(graph ((iri \"http://s\") (iri \"http://p\") (lit \"v\" @1)))",
        "(graph ((iri \"http://s\") (iri \"http://p\") (lit \"v\" @-)))",
        "(graph ((iri \"http://s\") (iri \"http://p\") (lit \"v\" @en-)))",
        // A datatype that only a language tag gives.
        "(graph (prefix (rdf \"http://www.w3.org/1999/02/22-rdf-syntax-ns#\")) \
         ((iri \"http://s\") (iri \"http://p\") (lit \"v\" rdf:langString)))",
        // A local part that starts with a hyphen.
        "(graph (prefix (ex \"http://e/\")) (ex:-s ex:p ex:o))",
    ] {
        let m = graph_fault(g);
        assert!(m.starts_with("the graph is not RDF: "), "{g}: {m}");
    }
}

#[test]
fn a_graph_reads_back_as_one_triple_for_each_form() {
    let g = parse(
        "(graph (ex:s a ex:T) (prefix (ex \"http://e/\") (xsd \"http://x#\")) (ex:s ex:n -7) \
         (prefix (ex \"http://f/\")) (ex:_0- : (lit \"1\" xsd:byte)) (prefix (: \"urn:d:\")) \
         ((iri \"urn:a:b\") ex:t (lit \"t\\n\" @fr)))",
    )
    .unwrap();
    // The bindings all stand in front, and the last binding of a label counts.
    assert_eq!(
        triples(&sexpr_to_turtle(&g).unwrap()),
        [
            "<http://f/s> <http://www.w3.org/1999/02/22-rdf-syntax-ns#type> <http://f/T>",
            "<http://f/s> <http://f/n> \"-7\"^^<http://www.w3.org/2001/XMLSchema#integer>",
            "<http://f/_0-> <urn:d:> \"1\"^^<http://x#byte>",
            "<urn:a:b> <http://f/t> \"t\\n\"@fr",
        ]
    );
    assert_eq!(sexpr_to_turtle(&parse("(graph)").unwrap()).unwrap(), "");
}

#[test]
fn plain_graphs_read_back_as_written() {
    for iri in ["a:", "a1:b", "urn:a:b", "http://", "http://e", "http:#f", "http:/e//f", "x:/#/.~_-"] {
        let g = format!("(graph (prefix (: \"{iri}\")) ((iri \"{iri}\") :_ :0-))");
        assert_eq!(
            triples(&sexpr_to_turtle(&parse(&g).unwrap()).unwrap()),
            [format!("<{iri}> <{iri}_> <{iri}0->")]
        );
    }
    for tag in ["@en", "@abc", "@prefix", "@abcdefgh", "@de-CH", "@abcdefgh-GB"] {
        let g = format!("(graph ((iri \"a:\") (iri \"b:\") (lit \"v\" {tag})))");
        assert_eq!(triples(&sexpr_to_turtle(&parse(&g).unwrap()).unwrap()).len(), 1, "{tag}");
    }
    for value in ["", "\"", "a\\b\n\r\t", "\u{0}\u{7f}\u{feff}\u{2028}é", "''\"\"\"", "^^ @en ."] {
        let node = |iri: &str| {
            Sexpr::List(vec![Sexpr::Symbol("iri".into()), Sexpr::Str(iri.into())])
        };
        let g = Sexpr::List(vec![
            Sexpr::Symbol("graph".into()),
            Sexpr::List(vec![node("a:"), node("b:"), Sexpr::Str(value.into())]),
        ]);
        let ttl = sexpr_to_turtle(&g).unwrap();
        let quads: Vec<_> = RdfParser::from_format(RdfFormat::Turtle)
            .for_slice(ttl.as_bytes())
            .map(|q| q.unwrap().object.to_string())
            .collect();
        assert_eq!(quads, [oxrdf::Literal::new_simple_literal(value).to_string()]);
    }
    for n in [i64::MIN, -1, 0, 7, i64::MAX] {
        let g = format!("(graph ((iri \"a:\") (iri \"b:\") {n}))");
        assert_eq!(
            triples(&sexpr_to_turtle(&parse(&g).unwrap()).unwrap()),
            [format!("<a:> <b:> \"{n}\"^^<http://www.w3.org/2001/XMLSchema#integer>")]
        );
    }
}

#[test]
fn other_iris_read_back_as_written_too() {
    for iri in [
        "http://e:8080/a?b=c&d",
        "http://u@e/",
        "http://e/%C3%A9",
        "http://é.example/日本",
        "urn:a,b;c=(d)'!*$+",
        "http://[::1]/",
    ] {
        let g = format!(
            "(graph (prefix (p \"{iri}\")) ((iri \"{iri}\") p:x (lit \"v\" (iri \"{iri}\"))))"
        );
        assert_eq!(
            triples(&sexpr_to_turtle(&parse(&g).unwrap()).unwrap()),
            [format!("<{iri}> <{iri}x> \"v\"^^<{iri}>")]
        );
    }
    // A label's namespace, its local part and the tag are kept as they are.
    let g = "(graph (prefix (p \"http://e/?q=\")) (p:x p:y (lit \"v\" @sr-Latn-RS-x-a1)))";
    assert_eq!(
        triples(&sexpr_to_turtle(&parse(g).unwrap()).unwrap()),
        ["<http://e/?q=x> <http://e/?q=y> \"v\"@sr-latn-rs-x-a1"]
    );
}

fn item(subject: Subject<String>, predicate: &str, object: Object<String>) -> TurtleItem {
    TurtleItem::Triple(Triple { subject, predicate: predicate.to_string(), object })
}

fn literal(value: &str, datatype: &str) -> Object<String> {
    Object::Literal { value: value.to_string(), datatype: datatype.to_string() }
}

#[test]
fn only_a_graph_that_reads_back_is_handed_out() {
    let short = "the graph does not read back as its triples";
    let g = compile_graph(
        &parse(
            "(graph (prefix (e \"http://d/\") (e \"http://e/\")) (e:s e:p e:o) \
             ((iri \"http://s\") a 7))",
        )
        .unwrap(),
    )
    .unwrap();
    let iri = |s: &str| Subject::Iri(s.to_string());
    let first = || item(iri("http://e/s"), "http://e/p", Object::Iri("http://e/o".to_string()));
    let rdf_type = "http://www.w3.org/1999/02/22-rdf-syntax-ns#type";
    let integer = "http://www.w3.org/2001/XMLSchema#integer";
    let second = || item(iri("http://s"), rdf_type, literal("7", integer));
    let confirm = |items: Vec<TurtleItem>| {
        confirm_graph("t".to_string(), &g, &items).map_err(|e| e.detail().to_string())
    };
    assert_eq!(confirm(vec![first(), second()]), Ok("t".to_string()));
    for wrong in [
        vec![],
        vec![first()],
        vec![second(), first()],
        vec![first(), second(), second()],
        vec![first(), item(Subject::Blank, rdf_type, literal("7", integer))],
        vec![first(), item(iri("http://t"), rdf_type, literal("7", integer))],
        vec![first(), item(iri("http://s"), "http://e/p", literal("7", integer))],
        vec![first(), item(iri("http://s"), rdf_type, literal("8", integer))],
        vec![first(), item(iri("http://s"), rdf_type, literal("7", "http://e/o"))],
        vec![first(), item(iri("http://s"), rdf_type, Object::Iri("7".to_string()))],
        vec![first(), item(iri("http://s"), rdf_type, Object::Other)],
    ] {
        assert_eq!(confirm(wrong), Err(short.to_string()));
    }
    let fault = || TurtleItem::Fault("here".to_string());
    assert_eq!(confirm(vec![first(), fault()]), Err("the graph is not RDF: here".to_string()));
    assert_eq!(
        confirm(vec![first(), second(), fault()]),
        Err("the graph is not RDF: here".to_string())
    );
    // Each kind of object reads back as what it means.
    let g = compile_graph(
        &parse(
            "(graph (prefix (e \"http://e/\")) (e:s e:p \"v\") (e:s e:p (lit \"v\" @en)) \
             (e:s e:p (lit \"v\" e:t)) (e:s e:p (iri \"http://o\")))",
        )
        .unwrap(),
    )
    .unwrap();
    let all: Vec<TurtleItem> = vec![
        literal("v", "http://www.w3.org/2001/XMLSchema#string"),
        literal("v", "http://www.w3.org/1999/02/22-rdf-syntax-ns#langString"),
        literal("v", "http://e/t"),
        Object::Iri("http://o".to_string()),
    ]
    .into_iter()
    .map(|o| item(iri("http://e/s"), "http://e/p", o))
    .collect();
    assert!(confirm_graph("t".to_string(), &g, &all).is_ok());
}

#[test]
fn a_graph_is_its_bindings_and_its_triples() {
    let g = compile_graph(
        &parse("(graph (ex:s a \"v\") (prefix (ex: \"http://e/\")))").unwrap(),
    )
    .unwrap();
    assert_eq!(
        g.bindings,
        [
            ("ex".to_string(), "http://e/".to_string()),
            ("rdf".to_string(), "http://www.w3.org/1999/02/22-rdf-syntax-ns#".to_string()),
        ]
    );
    assert_eq!(g.edges.len(), 1);
    assert!(matches!(&g.edges[0].subject, Node::Name(l, n) if l == "ex" && n == "s"));
    assert!(matches!(&g.edges[0].predicate, Node::Name(l, n) if l == "rdf" && n == "type"));
    assert!(matches!(&g.edges[0].object, Value::Text(v) if v == "v"));
}

#[test]
fn no_datum_is_both_a_query_and_a_graph() {
    for src in ["(select * (where))", "(graph)", "(graph ((iri \"a:b\") (iri \"a:c\") 1))", "x", "()"] {
        let d = parse(src).unwrap();
        assert!(!(sexpr_to_sparql(&d).is_ok() && sexpr_to_turtle(&d).is_ok()));
    }
}

#[test]
fn variables_and_prefixed_names() {
    for yes in ["?a", "?a_1", "?_", "?0"] {
        assert!(is_var(yes), "{yes}");
    }
    for no in ["", "?", "a", "?a-b", "?é", "$a", "?a:b"] {
        assert!(!is_var(no), "{no}");
    }
    for yes in [":", "a:", ":b", "a:b", "a1:b-c_d", "rdf:type", "Z:9"] {
        assert!(is_prefixed_name(yes), "{yes}");
    }
    for no in ["", "a", "1a:b", "a:b:c", "a-b:c", "_:b", "a:é", "a:b c", "::"] {
        assert!(!is_prefixed_name(no), "{no}");
    }
}

#[test]
fn iris_are_validated() {
    assert_eq!(render_iri("http://ex/é").unwrap(), "<http://ex/é>");
    for c in ['<', '>', '"', '{', '}', '|', '^', '`', '\\', ' ', '\n', '\u{0}', '\u{7f}', '\u{85}'] {
        assert!(render_iri(&format!("a{c}b")).is_err(), "{c:?}");
    }
    // Only the blank is refused of the white space that is no control character.
    assert!(render_iri("a\u{3000}b").is_ok());
}

#[test]
fn a_quoted_text_is_one_line_and_reads_back() {
    let s = "a\"b\\c\nd\re\tf\u{0}g";
    let quoted = render_string_literal(s);
    assert_eq!(quoted, "\"a\\\"b\\\\c\\nd\\re\\tf\u{0}g\"");
    assert!(!quoted.contains('\n') && !quoted.contains('\r'));
    assert_eq!(parse(&quoted).unwrap(), Sexpr::Str(s.to_string()));
}
