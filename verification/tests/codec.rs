//! The lossless codec.

use ikigai_sexpr::codegraph::{
    RDF_FIRST, RDF_NIL, RDF_REST, SEXPR_NODE_PREFIX, SX_ROOT, SX_SYMBOL, XSD_INTEGER, XSD_STRING,
};
use ikigai_sexpr::decode::decode_items;
use ikigai_sexpr::digest::{atom_message, cons_message, int_payload, to_hex, Hashes};
use ikigai_sexpr::encode::encode_with;
use ikigai_sexpr::quads::{Object, Subject, Triple, TurtleItem};
use ikigai_sexpr::{parse, rdf_to_sexpr, sexpr_to_rdf, Sexpr, SexprError, SexprResult, SX_NS};
use oxigraph::sparql::{QueryResults, SparqlEvaluator};
use oxigraph::store::Store;
use oxrdf::{NamedOrBlankNode, Term};
use oxrdfio::{RdfFormat, RdfParser};
use sha2::{Digest, Sha256};
use std::collections::HashSet;

/// The triples of a Turtle document as `(subject, predicate, object)`. A literal object becomes
/// `LIT[<datatype>]<value>`, a blank node `_:…`. Fails where the document is not Turtle.
fn parse_ttl(ttl: &str) -> Vec<(String, String, String)> {
    let mut out = Vec::new();
    for q in RdfParser::from_format(RdfFormat::Turtle).for_slice(ttl.as_bytes()) {
        let q = q.expect("emitted code-graph must be valid RDF");
        let s = match q.subject {
            NamedOrBlankNode::NamedNode(n) => n.as_str().to_string(),
            NamedOrBlankNode::BlankNode(b) => format!("_:{}", b.as_str()),
        };
        let o = match q.object {
            Term::NamedNode(n) => n.as_str().to_string(),
            Term::Literal(l) => format!("LIT[{}]{}", l.datatype().as_str(), l.value()),
            Term::BlankNode(b) => format!("_:{}", b.as_str()),
            #[allow(unreachable_patterns)]
            _ => "other".to_string(),
        };
        out.push((s, q.predicate.as_str().to_string(), o));
    }
    out
}

fn assert_round_trips(s: &Sexpr) {
    let ttl = sexpr_to_rdf(s).unwrap();
    let back = rdf_to_sexpr(&ttl).unwrap();
    assert_eq!(&back, s, "round-trip failed for {s:?}\n--- turtle ---\n{ttl}");
}

fn fault(turtle: &str) -> String {
    match rdf_to_sexpr(turtle) {
        Err(SexprError::Parse(m)) => m,
        other => panic!("expected a parse error for {turtle:?}, got {other:?}"),
    }
}

fn doc(body: &str) -> String {
    format!(
        "@prefix rdf: <http://www.w3.org/1999/02/22-rdf-syntax-ns#> .\n@prefix sx: <{SX_NS}> \
         .\n@prefix xsd: <http://www.w3.org/2001/XMLSchema#> .\n{body}\n"
    )
}

#[test]
fn round_trips_the_full_corpus_exactly() {
    // Each atom kind; the empty list; nesting; a REPEATED sub-list (content-addressing
    // must still reconstruct both occurrences); and a real program.
    let corpus = vec![
        Sexpr::Symbol("select".into()),            // top-level symbol atom
        Sexpr::Str("hello \"world\"\n\tπ".into()), // string with escapes + unicode
        Sexpr::Int(42),                            // positive int
        Sexpr::Int(-7),                            // negative int
        Sexpr::List(Vec::new()),                   // ()
        parse("(a b c)").unwrap(),                 // flat list
        parse("(a (b (c) d) e)").unwrap(),         // nested
        parse("((x y) (x y))").unwrap(),           // repeated sub-list (dedup)
        parse(r#"(sink "urn:x" 42)"#).unwrap(),    // an atom of each kind
        parse("(select (?s ?p ?o) (where (?s ?p ?o)) (limit 10))").unwrap(), // a program
    ];
    for s in &corpus {
        assert_round_trips(s);
    }
}

#[test]
fn a_long_flat_list_encodes_and_round_trips_without_overflow() {
    // The cons chain is walked in a loop, so that a flat list of tens of thousands of atoms
    // encodes within the stack, and the exact datum comes back.
    let n = 50_000;
    let items: Vec<Sexpr> = (0..n).map(|_| Sexpr::Symbol("a".into())).collect();
    let s = Sexpr::List(items);

    let ttl = sexpr_to_rdf(&s).expect("a long flat list must encode, not overflow");
    // Each SUFFIX hashes differently (its hash folds in the rest), so a flat list is a
    // full chain of N distinct cons cells — one `rdf:first` per element. (Sharing only
    // collapses identical SUB-LISTS, not repeated atoms in a chain.)
    assert_eq!(
        ttl.matches(" rdf:first ").count(),
        n,
        "a flat N-element list must emit N cons cells"
    );

    let back = rdf_to_sexpr(&ttl).expect("the long list must decode back");
    assert_eq!(back, s, "a long flat list must round-trip exactly");
}

#[test]
fn a_long_list_of_distinct_atoms_round_trips() {
    // Distinct elements ⇒ a distinct cons node per suffix (no sharing), exercising the
    // iterative walk across the full N-length chain rather than the dedup fast path.
    let n = 20_000;
    let items: Vec<Sexpr> = (0..n).map(Sexpr::Int).collect();
    let s = Sexpr::List(items);
    let ttl = sexpr_to_rdf(&s).expect("a long distinct-atom list must encode");
    let back = rdf_to_sexpr(&ttl).expect("it must decode back");
    assert_eq!(back, s, "a long distinct-atom list must round-trip exactly");
}

#[test]
fn encoding_is_deterministic_byte_for_byte() {
    // Same datum → byte-identical Turtle, every time (content-addressed + sorted output).
    let s = parse("(select (?s ?p ?o) (where (?s ?p ?o)) (limit 10))").unwrap();
    let a = sexpr_to_rdf(&s).unwrap();
    let b = sexpr_to_rdf(&s).unwrap();
    assert_eq!(a, b);
    // Two independently-built EQUAL datums also encode identically (structural, not identity).
    let s2 = parse("(select (?s ?p ?o) (where (?s ?p ?o)) (limit 10))").unwrap();
    assert_eq!(sexpr_to_rdf(&s2).unwrap(), a);
}

#[test]
fn a_repeated_sub_list_shares_one_content_addressed_node() {
    // `((x y) (x y))`: the two `(x y)` sub-lists MUST collapse to a single shared cons node
    // (its IRI is the hash of the subtree). Proves content-addressing / structural dedup.
    let s = parse("((x y) (x y))").unwrap();
    let ttl = sexpr_to_rdf(&s).unwrap();
    let quads = parse_ttl(&ttl);

    // Exactly four DISTINCT cons nodes: the two outer cells + the ONE shared `(x y)` head
    // + its `(y)` tail. Without sharing there would be six.
    let cons_subjects: HashSet<&String> = quads
        .iter()
        .map(|(subj, _, _)| subj)
        .filter(|subj| {
            subj.starts_with(SEXPR_NODE_PREFIX) && subj.as_str() != "urn:sexpr:document"
        })
        .collect();
    assert_eq!(
        cons_subjects.len(),
        4,
        "expected 4 distinct cons nodes (the two (x y) sharing one), got {cons_subjects:?}"
    );

    // The two outer cells' `rdf:first` both point at the SAME `(x y)` node IRI.
    let first_refs: Vec<&String> = quads
        .iter()
        .filter(|(_, p, o)| p == RDF_FIRST && o.starts_with(SEXPR_NODE_PREFIX))
        .map(|(_, _, o)| o)
        .collect();
    assert_eq!(first_refs.len(), 2, "two references to (x y) expected");
    assert_eq!(
        first_refs[0], first_refs[1],
        "the repeated sub-list must resolve to ONE shared IRI"
    );
}

#[test]
fn the_code_graph_is_skolemized_no_blank_nodes() {
    let s = parse("(a (b c) (b c) () (d (e)))").unwrap();
    let ttl = sexpr_to_rdf(&s).unwrap();
    assert!(
        !ttl.contains("_:"),
        "no `_:` bnode syntax in the Turtle:\n{ttl}"
    );
    for (subj, _, obj) in parse_ttl(&ttl) {
        assert!(!subj.starts_with("_:"), "blank-node subject {subj}");
        assert!(!obj.starts_with("_:"), "blank-node object {obj}");
    }
}

#[test]
fn atoms_carry_their_distinguishing_datatypes() {
    // A symbol and a string with the SAME text must NOT collapse — the datatype separates
    // them, so each round-trips to its own kind.
    let ttl_sym = sexpr_to_rdf(&Sexpr::Symbol("x".into())).unwrap();
    let ttl_str = sexpr_to_rdf(&Sexpr::Str("x".into())).unwrap();
    assert!(ttl_sym.contains("^^sx:symbol"), "{ttl_sym}");
    assert!(ttl_str.contains("^^xsd:string"), "{ttl_str}");
    assert_ne!(ttl_sym, ttl_str);
    assert_eq!(rdf_to_sexpr(&ttl_sym).unwrap(), Sexpr::Symbol("x".into()));
    assert_eq!(rdf_to_sexpr(&ttl_str).unwrap(), Sexpr::Str("x".into()));
}

#[test]
fn the_worked_example_encodes_to_the_expected_shape() {
    // `(sink "urn:x" 42)` — assert the concrete triples, datatypes and the document root,
    // then that it round-trips.
    let s = parse(r#"(sink "urn:x" 42)"#).unwrap();
    let ttl = sexpr_to_rdf(&s).unwrap();
    let quads = parse_ttl(&ttl);

    // root marker
    assert!(quads
        .iter()
        .any(|(su, p, _)| su == "urn:sexpr:document" && p == SX_ROOT));
    // the three heads, by datatype
    let objs: Vec<&String> = quads
        .iter()
        .filter(|(_, p, _)| p == RDF_FIRST)
        .map(|(_, _, o)| o)
        .collect();
    assert!(
        objs.contains(&&format!("LIT[{SX_SYMBOL}]sink")),
        "objs: {objs:?}"
    );
    assert!(
        objs.contains(&&format!("LIT[{XSD_STRING}]urn:x")),
        "objs: {objs:?}"
    );
    assert!(
        objs.contains(&&format!("LIT[{XSD_INTEGER}]42")),
        "objs: {objs:?}"
    );
    // one tail is rdf:nil
    assert!(quads.iter().any(|(_, p, o)| p == RDF_REST && o == RDF_NIL));

    assert_eq!(rdf_to_sexpr(&ttl).unwrap(), s);
}

#[test]
fn malformed_code_graphs_are_clean_errors_not_panics() {
    // No root marker.
    assert!(rdf_to_sexpr("@prefix ex: <http://e/> . ex:a ex:b ex:c .").is_err());
    // Not even RDF.
    assert!(rdf_to_sexpr("this is not turtle {{{").is_err());
    // Root points at a cons node with no rdf:first.
    let dangling = format!(
        "@prefix sx: <{SX_NS}> .\n<urn:sexpr:document> sx:root <urn:sexpr:missing> .\n"
    );
    assert!(rdf_to_sexpr(&dangling).is_err());
    // An unknown atom datatype.
    let bad_dt = format!(
        "@prefix sx: <{SX_NS}> .\n<urn:sexpr:document> sx:root \"x\"^^<http://ex/weird> .\n"
    );
    assert!(rdf_to_sexpr(&bad_dt).is_err());
}

#[test]
fn other_triples_in_the_document_are_ignored() {
    // A code-graph embedded in a larger graph still decodes (unrelated triples are skipped).
    let s = parse("(a b)").unwrap();
    let mut ttl = sexpr_to_rdf(&s).unwrap();
    ttl.push_str("<http://example.org/note> <http://example.org/says> \"hi\" .\n");
    assert_eq!(rdf_to_sexpr(&ttl).unwrap(), s);
}

#[test]
fn the_codec_signatures_are_pure_and_kernel_free() {
    // `sexpr_to_rdf` / `rdf_to_sexpr` carry no ikigai-core type — kernel-free.
    let enc: fn(&Sexpr) -> SexprResult<String> = sexpr_to_rdf;
    let dec: fn(&str) -> SexprResult<Sexpr> = rdf_to_sexpr;
    let s = parse("(a b)").unwrap();
    assert_eq!(dec(&enc(&s).unwrap()).unwrap(), s);
}

#[test]
fn sparql_over_encoded_code_finds_the_head_symbol() {
    // Encode a program, load its code-graph into a triple store, and ask SPARQL for the
    // head symbol — code is now a queryable/governable graph, not opaque text.
    let program = parse("(select (?s ?p ?o) (where (?s ?p ?o)) (limit 10))").unwrap();
    let ttl = sexpr_to_rdf(&program).unwrap();

    let store = Store::new().unwrap();
    store
        .load_from_slice(
            oxigraph::io::RdfParser::from_format(oxigraph::io::RdfFormat::Turtle),
            ttl.as_bytes(),
        )
        .expect("code-graph loads into oxigraph");

    let query = format!(
        "PREFIX rdf: <http://www.w3.org/1999/02/22-rdf-syntax-ns#>\n\
         PREFIX sx: <{SX_NS}>\n\
         SELECT ?head WHERE {{ <urn:sexpr:document> sx:root ?top . ?top rdf:first ?head . }}"
    );
    let results = SparqlEvaluator::new()
        .parse_query(&query)
        .unwrap()
        .on_store(&store)
        .execute()
        .unwrap();

    let mut heads = Vec::new();
    if let QueryResults::Solutions(solutions) = results {
        for sol in solutions {
            let sol = sol.unwrap();
            if let Some(oxigraph::model::Term::Literal(l)) = sol.get("head") {
                heads.push(l.value().to_string());
            }
        }
    }
    assert_eq!(
        heads,
        vec!["select".to_string()],
        "SPARQL found the head symbol"
    );
}

#[test]
fn the_text_of_a_code_graph_is_exact() {
    assert_eq!(
        sexpr_to_rdf(&parse("\"a\\\"b\"").unwrap()).unwrap(),
        "@prefix rdf: <http://www.w3.org/1999/02/22-rdf-syntax-ns#> .\n\
         @prefix sx: <https://ikigai-rs.dev/ns/sexpr#> .\n\
         @prefix xsd: <http://www.w3.org/2001/XMLSchema#> .\n\
         <urn:sexpr:document> sx:root \"a\\\"b\"^^xsd:string .\n"
    );
    assert!(sexpr_to_rdf(&parse("()").unwrap())
        .unwrap()
        .ends_with("<urn:sexpr:document> sx:root rdf:nil .\n"));
    assert!(sexpr_to_rdf(&Sexpr::Int(-12))
        .unwrap()
        .ends_with("<urn:sexpr:document> sx:root \"-12\"^^xsd:integer .\n"));
}

#[test]
fn the_nodes_of_the_worked_example_start_as_documented() {
    let ttl = sexpr_to_rdf(&parse("(sink \"urn:x\" 42)").unwrap()).unwrap();
    for node in ["b95", "18a", "c36"] {
        let head = format!("\n<urn:sexpr:{node}");
        assert_eq!(ttl.matches(&head).count(), 2, "{ttl}");
    }
    let statements: Vec<&str> = ttl.lines().skip(4).collect();
    let mut sorted = statements.clone();
    sorted.sort();
    assert_eq!(statements, sorted);
    assert_eq!(statements.len(), 6);
}

/// The lowercase hexadecimal of the SHA-256 of a run of bytes.
fn sha256_hex(bytes: &[u8]) -> String {
    let mut hex = String::new();
    for b in Sha256::digest(bytes) {
        hex.push_str(&format!("{b:02x}"));
    }
    hex
}

#[test]
fn a_node_is_the_hash_of_its_cell() {
    // A cons marker, the hash of the symbol `x`, and the hash of the nil marker.
    let mut atom = vec![1u8];
    atom.extend_from_slice(&1u64.to_le_bytes());
    atom.extend_from_slice(b"x");
    let mut cell = vec![4u8];
    cell.extend_from_slice(&Sha256::digest(&atom));
    cell.extend_from_slice(&Sha256::digest([0u8]));
    let hex = sha256_hex(&cell);
    let ttl = sexpr_to_rdf(&parse("(x)").unwrap()).unwrap();
    assert!(
        ttl.contains(&format!("sx:root <urn:sexpr:{hex}> .\n")),
        "{hex} not in {ttl}"
    );
}

/// The hashes of an atom, which no node is named by.
fn leaf() -> Hashes {
    Hashes { tails: vec![vec![0xff]], parts: vec![] }
}

/// The lines of a code graph behind its prefixes.
fn lines_of(ttl: &str) -> Vec<&str> {
    ttl.lines().skip(3).collect()
}

#[test]
fn nodes_are_named_by_the_given_hashes() {
    let inner = Hashes { tails: vec![vec![0], vec![0x3a]], parts: vec![leaf()] };
    let outer = Hashes {
        tails: vec![vec![0], vec![0x01, 0xf0], vec![0x02]],
        parts: vec![leaf(), inner],
    };
    assert_eq!(
        lines_of(&encode_with(&parse("(x (7))").unwrap(), &outer)),
        vec![
            "<urn:sexpr:document> sx:root <urn:sexpr:02> .",
            "<urn:sexpr:01f0> rdf:first <urn:sexpr:3a> .",
            "<urn:sexpr:01f0> rdf:rest rdf:nil .",
            "<urn:sexpr:02> rdf:first \"x\"^^sx:symbol .",
            "<urn:sexpr:02> rdf:rest <urn:sexpr:01f0> .",
            "<urn:sexpr:3a> rdf:first \"7\"^^xsd:integer .",
            "<urn:sexpr:3a> rdf:rest rdf:nil .",
        ]
    );
    assert_eq!(
        lines_of(&encode_with(&parse("\"s\"").unwrap(), &leaf())),
        vec!["<urn:sexpr:document> sx:root \"s\"^^xsd:string ."]
    );
}

#[test]
fn a_node_that_was_met_is_not_described_again() {
    // Two different lists under one name: the one that is met first is described.
    let item = || Hashes { tails: vec![vec![0], vec![9]], parts: vec![leaf()] };
    let outer = Hashes { tails: vec![vec![0], vec![1], vec![2]], parts: vec![item(), item()] };
    assert_eq!(
        lines_of(&encode_with(&parse("((x) (y))").unwrap(), &outer)),
        vec![
            "<urn:sexpr:document> sx:root <urn:sexpr:02> .",
            "<urn:sexpr:01> rdf:first <urn:sexpr:09> .",
            "<urn:sexpr:01> rdf:rest rdf:nil .",
            "<urn:sexpr:02> rdf:first <urn:sexpr:09> .",
            "<urn:sexpr:02> rdf:rest <urn:sexpr:01> .",
            "<urn:sexpr:09> rdf:first \"x\"^^sx:symbol .",
            "<urn:sexpr:09> rdf:rest rdf:nil .",
        ]
    );
}

#[test]
fn what_is_hashed_is_exact() {
    assert_eq!(
        atom_message(2, "é".as_bytes()),
        vec![2, 2, 0, 0, 0, 0, 0, 0, 0, 0xc3, 0xa9]
    );
    assert_eq!(atom_message(1, &[7; 258])[..9], [1, 2, 1, 0, 0, 0, 0, 0, 0]);
    assert_eq!(cons_message(&vec![1, 2], &vec![3]), vec![4, 1, 2, 3]);
    assert_eq!(int_payload(-2), vec![0xfe, 0xff, 0xff, 0xff, 0xff, 0xff, 0xff, 0xff]);
    for n in [0, 1, 255, 256, -1, i64::MAX, i64::MIN] {
        assert_eq!(int_payload(n), n.to_le_bytes().to_vec());
    }
    assert_eq!(to_hex(&vec![0x00, 0x0f, 0xa9, 0xff]), "000fa9ff");
}

#[test]
fn integers_hash_in_twos_complement() {
    for n in [0i64, 1, -1, 255, 256, i64::MAX, i64::MIN, -1234567890123] {
        let mut atom = vec![3u8];
        atom.extend_from_slice(&8u64.to_le_bytes());
        atom.extend_from_slice(&n.to_le_bytes());
        let mut cell = vec![4u8];
        cell.extend_from_slice(&Sha256::digest(&atom));
        cell.extend_from_slice(&Sha256::digest([0u8]));
        let ttl = sexpr_to_rdf(&Sexpr::List(vec![Sexpr::Int(n)])).unwrap();
        assert!(ttl.contains(&sha256_hex(&cell)), "{n}");
    }
}

#[test]
fn each_fault_of_a_code_graph_has_its_message() {
    assert_eq!(
        fault(""),
        "no `<urn:sexpr:document> sx:root …` triple — not an s-expression code-graph"
    );
    assert!(fault("x").starts_with("turtle parse error: "));
    assert_eq!(
        fault(&doc("<urn:sexpr:document> sx:root _:b .")),
        "unsupported RDF term (blank node or quoted triple) in a code-graph"
    );
    assert_eq!(
        fault(&doc("<urn:sexpr:document> sx:root <urn:sexpr:a> .")),
        "cons node <urn:sexpr:a> has no rdf:first"
    );
    assert_eq!(
        fault(&doc("<urn:sexpr:document> sx:root <urn:sexpr:a> . <urn:sexpr:a> rdf:first 1 .")),
        "cons node <urn:sexpr:a> has no rdf:rest"
    );
    assert_eq!(
        fault(&doc(
            "<urn:sexpr:document> sx:root <urn:sexpr:a> . <urn:sexpr:a> rdf:first 1 ; rdf:rest 2 ."
        )),
        "rdf:rest must be a node IRI or rdf:nil, not a literal"
    );
    assert_eq!(
        fault(&doc(
            "<urn:sexpr:document> sx:root <urn:sexpr:a> . <urn:sexpr:a> rdf:first 1 ; rdf:rest \
             <urn:sexpr:a> ."
        )),
        "cyclic rdf:rest chain at <urn:sexpr:a> in code-graph"
    );
    assert_eq!(
        fault(&doc(
            "<urn:sexpr:document> sx:root <urn:sexpr:a> . <urn:sexpr:a> rdf:first <urn:sexpr:a> ; \
             rdf:rest rdf:nil ."
        )),
        "code-graph nests deeper than the decode limit"
    );
    assert_eq!(
        fault(&doc("<urn:sexpr:document> sx:root \"1x\"^^xsd:integer .")),
        "`1x` is not a valid xsd:integer for an Int atom"
    );
    assert_eq!(
        fault(&doc("<urn:sexpr:document> sx:root \"x\"@en .")),
        "unknown atom datatype `http://www.w3.org/1999/02/22-rdf-syntax-ns#langString` \
         (expected sx:symbol, xsd:string, or xsd:integer)"
    );
}

#[test]
fn a_fault_in_the_shape_comes_before_a_later_fault_in_the_syntax() {
    assert_eq!(
        fault(&doc("<urn:sexpr:document> sx:root _:b .\n{{{")),
        "unsupported RDF term (blank node or quoted triple) in a code-graph"
    );
    assert!(fault(&doc("<urn:sexpr:document> sx:root \"a\" .\n{{{"))
        .starts_with("turtle parse error: "));
}

#[test]
fn graphs_in_the_same_shape_decode_too() {
    // Plain strings and integers, list syntax, other node names, and blank-node subjects that
    // are passed over.
    assert_eq!(
        rdf_to_sexpr(&doc("<urn:sexpr:document> sx:root \"a\" .")).unwrap(),
        Sexpr::Str("a".to_string())
    );
    assert_eq!(
        rdf_to_sexpr(&doc("<urn:sexpr:document> sx:root +07 .")).unwrap(),
        Sexpr::Int(7)
    );
    assert_eq!(
        rdf_to_sexpr(&doc(
            "_:x rdf:first 9 . <urn:sexpr:document> sx:root <http://n> . <http://n> rdf:rest \
             rdf:nil ; rdf:first rdf:nil ."
        ))
        .unwrap(),
        Sexpr::List(vec![Sexpr::List(vec![])])
    );
    // A later statement on a cell, and a later root, replace an earlier one.
    assert_eq!(
        rdf_to_sexpr(&doc(
            "<urn:sexpr:document> sx:root \"a\" . <urn:sexpr:document> sx:root \"b\" ."
        ))
        .unwrap(),
        Sexpr::Str("b".to_string())
    );
    // `sx:root` of another node is passed over.
    assert!(rdf_to_sexpr(&doc("<urn:other> sx:root \"a\" .")).is_err());
}

#[test]
fn items_decode_without_a_parser() {
    let iri = |s: &str| Object::Iri(s.to_string());
    let triple = |s: &str, p: &str, o: Object<String>| {
        TurtleItem::Triple(Triple {
            subject: Subject::Iri(s.to_string()),
            predicate: p.to_string(),
            object: o,
        })
    };
    let atom = |v: &str, d: &str| Object::Literal { value: v.to_string(), datatype: d.to_string() };
    let items = vec![
        triple("urn:sexpr:document", SX_ROOT, iri("n")),
        triple("n", RDF_FIRST, atom("a", SX_SYMBOL)),
        triple("n", RDF_REST, iri("m")),
        triple("elsewhere", "p", Object::Other),
        triple("m", RDF_FIRST, atom("-3", XSD_INTEGER)),
        triple("m", RDF_REST, iri(RDF_NIL)),
    ];
    assert_eq!(
        decode_items(&items).unwrap(),
        Sexpr::List(vec![Sexpr::Symbol("a".to_string()), Sexpr::Int(-3)])
    );
    let items = vec![
        triple("urn:sexpr:document", SX_ROOT, atom("a", XSD_STRING)),
        TurtleItem::Fault("here".to_string()),
    ];
    assert_eq!(
        decode_items(&items),
        Err(SexprError::Parse("turtle parse error: here".to_string()))
    );
}

#[test]
fn unusual_characters_round_trip() {
    for s in [
        "", "\u{0}", "\u{8}\u{c}", "\u{7f}", "\u{85}\u{2028}", "\u{feff}", "\u{10ffff}", "\\u0041",
        "'''", "\"\"\"", "a\r\nb\tc", "<>{}|^`", "^^", "@en", "\u{e000}\u{fffd}",
    ] {
        assert_round_trips(&Sexpr::Str(s.to_string()));
        assert_round_trips(&Sexpr::Symbol(s.to_string()));
        assert_round_trips(&Sexpr::List(vec![Sexpr::Str(s.to_string()), Sexpr::Symbol(s.to_string())]));
    }
    for n in [0, 1, -1, i64::MAX, i64::MIN] {
        assert_round_trips(&Sexpr::Int(n));
    }
}

#[test]
fn every_character_round_trips() {
    let all: String = ('\u{0}'..=char::MAX).collect();
    assert_round_trips(&Sexpr::Str(all.clone()));
    assert_round_trips(&Sexpr::Symbol(all));
    // Each of the characters below U+0300 in a literal of its own.
    let each = ('\u{0}'..'\u{300}').map(|c| Sexpr::Str(c.to_string())).collect();
    assert_round_trips(&Sexpr::List(each));
}

#[test]
fn whatever_the_reader_accepts_round_trips() {
    let deep = format!("{}x{}", "(".repeat(4096), ")".repeat(4096));
    assert_round_trips(&parse(&deep).unwrap());
    assert_round_trips(&parse("(() (()) ((())) 1 \"1\" |1| (1 . 2))").unwrap());
}

#[test]
fn a_graph_that_nests_too_deep_is_refused() {
    let mut s = Sexpr::Symbol("x".to_string());
    for _ in 0..4097 {
        s = Sexpr::List(vec![s]);
    }
    let ttl = sexpr_to_rdf(&s).unwrap();
    assert_eq!(fault(&ttl), "code-graph nests deeper than the decode limit");
}

#[test]
fn equal_sub_lists_share_one_node_wherever_they_stand() {
    // The tail `(y z)` of the first list is the second list.
    let ttl = sexpr_to_rdf(&parse("((x y z) (y z))").unwrap()).unwrap();
    let cells: HashSet<String> = parse_ttl(&ttl)
        .into_iter()
        .filter(|(_, p, _)| p == RDF_FIRST)
        .map(|(s, _, _)| s)
        .collect();
    assert_eq!(cells.len(), 5);
    assert_eq!(ttl.matches(" rdf:first ").count(), 5);
}

#[test]
fn different_data_have_different_graphs() {
    let sources = [
        "a", "\"a\"", "1", "\"1\"", "-1", "()", "(a)", "(\"a\")", "(1)", "(())", "((a))", "(a b)",
        "(b a)", "(a (b))", "((a) b)", "(a b c)",
    ];
    let mut seen = HashSet::new();
    for src in sources {
        assert!(seen.insert(sexpr_to_rdf(&parse(src).unwrap()).unwrap()), "{src}");
    }
    // The graph of a symbol does not depend on how it was read.
    assert_eq!(
        sexpr_to_rdf(&parse(" ( a b ) ").unwrap()).unwrap(),
        sexpr_to_rdf(&parse("(a b)").unwrap()).unwrap()
    );
}

#[test]
fn rows_ascend_and_are_distinct() {
    for (src, tails) in [
        ("a", 0),
        ("()", 0),
        ("(a)", 1),
        ("(a b c)", 3),
        // Three tails of the outer list, two of the inner one that stands there twice.
        ("((x y) (x y) z)", 5),
        // The tail (y) is a list that stands there too.
        ("((x y) (y))", 4),
    ] {
        let ttl = sexpr_to_rdf(&parse(src).unwrap()).unwrap();
        let rows: Vec<&str> = ttl.lines().skip(4).collect();
        assert_eq!(rows.len(), 2 * tails, "{src}");
        assert_eq!(rows.iter().filter(|r| r.contains("> rdf:first ")).count(), tails, "{src}");
        assert_eq!(rows.iter().filter(|r| r.contains("> rdf:rest ")).count(), tails, "{src}");
        assert!(rows.windows(2).all(|w| w[0] < w[1]), "{src}");
    }
}
