//! The reader and the printer.

use ikigai_sexpr::{parse, parse_all, Sexpr, SexprError};

fn sym(s: &str) -> Sexpr {
    Sexpr::Symbol(s.to_string())
}

fn text(s: &str) -> Sexpr {
    Sexpr::Str(s.to_string())
}

fn parse_detail(src: &str) -> String {
    match parse(src) {
        Err(SexprError::Parse(m)) => m,
        other => panic!("expected a parse error for {src:?}, got {other:?}"),
    }
}

#[test]
fn reads_a_query_form_into_the_expected_datum() {
    let q = parse("(select (?s ?p ?o) (where (?s ?p ?o)))").unwrap();
    assert_eq!(
        q,
        Sexpr::List(vec![
            Sexpr::Symbol("select".into()),
            Sexpr::List(vec![
                Sexpr::Symbol("?s".into()),
                Sexpr::Symbol("?p".into()),
                Sexpr::Symbol("?o".into()),
            ]),
            Sexpr::List(vec![
                Sexpr::Symbol("where".into()),
                Sexpr::List(vec![
                    Sexpr::Symbol("?s".into()),
                    Sexpr::Symbol("?p".into()),
                    Sexpr::Symbol("?o".into()),
                ]),
            ]),
        ])
    );
}

#[test]
fn classifies_atoms_symbol_vs_integer() {
    // `a`, `*`, `?v` and `pfx:local` stay symbols; a bare integer becomes Int.
    assert_eq!(parse("a").unwrap(), Sexpr::Symbol("a".into()));
    assert_eq!(parse("*").unwrap(), Sexpr::Symbol("*".into()));
    assert_eq!(parse("?v").unwrap(), Sexpr::Symbol("?v".into()));
    assert_eq!(parse("rdf:type").unwrap(), Sexpr::Symbol("rdf:type".into()));
    assert_eq!(parse("42").unwrap(), Sexpr::Int(42));
    assert_eq!(parse("-7").unwrap(), Sexpr::Int(-7));
}

#[test]
fn skips_comments_and_whitespace() {
    let q = parse("  ; a comment\n (limit  \n 5) ; trailing\n").unwrap();
    assert_eq!(
        q,
        Sexpr::List(vec![Sexpr::Symbol("limit".into()), Sexpr::Int(5)])
    );
}

#[test]
fn printer_round_trips_canonical_input() {
    // parse ∘ write is stable on canonical text (single spaces, canonical string escapes).
    for src in [
        "(select (?s ?p ?o) (where (?s ?p ?o)))",
        "(select * (where ((iri \"http://ex/s\") a ?o)) (order-by ?o (desc ?o)) (limit 10))",
        "(prefix (rdf \"http://www.w3.org/1999/02/22-rdf-syntax-ns#\"))",
    ] {
        assert_eq!(ikigai_sexpr::write(&parse(src).unwrap()), src, "round-trip failed: {src}");
    }
}

#[test]
fn string_escapes_read_and_print_symmetrically() {
    // A literal carrying a quote, a backslash, and a newline round-trips through the
    // reader's decode and the printer's escape.
    let read = parse(r#"(x "a\"b\\c\nd")"#).unwrap();
    assert_eq!(
        read,
        Sexpr::List(vec![
            Sexpr::Symbol("x".into()),
            Sexpr::Str("a\"b\\c\nd".into()),
        ])
    );
    assert_eq!(ikigai_sexpr::write(&read), r#"(x "a\"b\\c\nd")"#);
}

#[test]
fn unbalanced_parens_are_errors() {
    assert!(parse("(select (?s").is_err(), "missing close paren");
    assert!(parse(")").is_err(), "stray close paren");
    assert!(parse("(a) (b)").is_err(), "trailing form after the first");
    assert!(parse("").is_err(), "empty input");
    assert!(
        parse(r#"(x "unterminated)"#).is_err(),
        "unterminated string"
    );
}

#[test]
fn deeply_nested_input_is_a_clean_error_not_a_stack_overflow() {
    // A pathological run of open parens must be rejected as a parse error, NOT abort the
    // process by overflowing the stack.
    let bomb = "(".repeat(100_000);
    let err = parse(&bomb).expect_err("a 100k-deep input must be rejected, not overflow");
    match err {
        SexprError::Parse(msg) => assert!(
            msg.contains("nests deeper"),
            "expected a depth-limit parse error, got: {msg}"
        ),
        other => panic!("expected a Parse error, got {other:?}"),
    }
    // A balanced-but-very-deep input is likewise a clean error, never a panic.
    let balanced = format!("{}{}", "(".repeat(100_000), ")".repeat(100_000));
    assert!(
        matches!(parse(&balanced), Err(SexprError::Parse(_))),
        "a balanced 100k-deep input must be a clean parse error"
    );
}

#[test]
fn each_fault_of_the_reader_has_its_message() {
    assert_eq!(parse_detail(""), "empty input: expected an s-expression");
    assert_eq!(parse_detail("  ; nothing\n"), "empty input: expected an s-expression");
    assert_eq!(parse_detail("(a) (b)"), "unexpected trailing tokens after the first form");
    assert_eq!(parse_detail(")"), "unexpected `)` — unbalanced parens");
    assert_eq!(parse_detail("(a (b)"), "unexpected end of input: missing `)`");
    assert_eq!(parse_detail("\"abc"), "unterminated string literal");
    assert_eq!(parse_detail("\"abc\\"), "unterminated escape at end of string");
    assert_eq!(
        parse_detail(&"(".repeat(4097)),
        "s-expression nests deeper than the read limit"
    );
}

#[test]
fn the_read_limit_is_exact() {
    let deep = format!("{}{}", "(".repeat(4096), ")".repeat(4096));
    let read = parse(&deep).expect("as deep as the limit");
    assert_eq!(ikigai_sexpr::write(&read), deep);
    let deeper = format!("({deep})");
    assert!(parse(&deeper).is_err());
}

#[test]
fn a_stream_of_forms_reads_in_order() {
    assert_eq!(parse_all("").unwrap(), Vec::<Sexpr>::new());
    assert_eq!(parse_all(" ; only a comment").unwrap(), Vec::<Sexpr>::new());
    assert_eq!(
        parse_all("a 1 \"s\" (b)").unwrap(),
        vec![sym("a"), Sexpr::Int(1), text("s"), Sexpr::List(vec![sym("b")])]
    );
    assert_eq!(
        parse_all("a ) b"),
        Err(SexprError::Parse("unexpected `)` — unbalanced parens".to_string()))
    );
    assert!(parse_all("a (b").is_err());
}

#[test]
fn one_form_reads_alike_alone_and_in_a_stream() {
    for src in ["a", "(a b)", " \"x\" ", "-5", "()"] {
        assert_eq!(parse_all(src).unwrap(), vec![parse(src).unwrap()]);
    }
}

#[test]
fn numerals_at_the_edges_of_the_range() {
    assert_eq!(parse("9223372036854775807").unwrap(), Sexpr::Int(i64::MAX));
    assert_eq!(parse("-9223372036854775808").unwrap(), Sexpr::Int(i64::MIN));
    assert_eq!(parse("9223372036854775808").unwrap(), sym("9223372036854775808"));
    assert_eq!(parse("-9223372036854775809").unwrap(), sym("-9223372036854775809"));
    assert_eq!(
        parse("100000000000000000000000000000").unwrap(),
        sym("100000000000000000000000000000")
    );
    assert_eq!(parse("+5").unwrap(), Sexpr::Int(5));
    assert_eq!(parse("007").unwrap(), Sexpr::Int(7));
    assert_eq!(parse("-0").unwrap(), Sexpr::Int(0));
    assert_eq!(parse("-").unwrap(), sym("-"));
    assert_eq!(parse("+").unwrap(), sym("+"));
    assert_eq!(parse("1a").unwrap(), sym("1a"));
    assert_eq!(parse("--1").unwrap(), sym("--1"));
    assert_eq!(ikigai_sexpr::write(&Sexpr::Int(i64::MIN)), "-9223372036854775808");
    assert_eq!(ikigai_sexpr::write(&Sexpr::Int(0)), "0");
    assert_eq!(ikigai_sexpr::write(&Sexpr::Int(1090)), "1090");
}

#[test]
fn an_unknown_escape_stands_for_its_character() {
    assert_eq!(parse("\"\\q\"").unwrap(), text("q"));
    assert_eq!(parse("\"\\r\\t\"").unwrap(), text("\r\t"));
}

#[test]
fn tokens_end_at_delimiters() {
    assert_eq!(
        parse_all("a\"b\"c;d\ne(f)").unwrap(),
        vec![sym("a"), text("b"), sym("c"), sym("e"), Sexpr::List(vec![sym("f")])]
    );
    // Unicode white space parts tokens too.
    assert_eq!(parse_all("a\u{3000}b\u{a0}c").unwrap(), vec![sym("a"), sym("b"), sym("c")]);
    assert_eq!(parse("πü").unwrap(), sym("πü"));
}

#[test]
fn what_was_read_survives_printing() {
    for src in [
        "(a\t(b \"x\\\"y\" ; c\n) +12 -0 99999999999999999999)",
        "\"\\\\ \\n\"",
        "()",
        "((()) ())",
        "symbol-with-π",
    ] {
        let read = parse(src).unwrap();
        assert_eq!(parse(&ikigai_sexpr::write(&read)).unwrap(), read, "{src}");
    }
}

#[test]
fn lists_print_with_one_blank_between_items() {
    let list = Sexpr::List(vec![
        sym("a"),
        Sexpr::List(vec![]),
        Sexpr::List(vec![Sexpr::Int(1)]),
        text("b\tc\rd"),
    ]);
    assert_eq!(ikigai_sexpr::write(&list), "(a () (1) \"b\\tc\\rd\")");
}

#[test]
fn a_copy_is_equal() {
    let read = parse("(a (b \"c\") 4)").unwrap();
    assert_eq!(read.clone(), read);
    let e = parse("(").unwrap_err();
    assert_eq!(e.clone(), e);
}

#[test]
fn an_error_carries_its_detail_and_its_label() {
    let e = SexprError::Parse("x".to_string());
    assert_eq!(e.detail(), "x");
    assert_eq!(e.labelled(), "sexpr parse error: x");
    let e = SexprError::Compile("y".to_string());
    assert_eq!(e.detail(), "y");
    assert_eq!(e.labelled(), "sparql-from-sexpr: y");
}

#[test]
fn character_classes_are_those_of_unicode() {
    for u in 0..=0x10ffffu32 {
        if let Some(c) = char::from_u32(u) {
            assert_eq!(ikigai_sexpr::text::is_whitespace(c), c.is_whitespace(), "{u:x}");
            assert_eq!(ikigai_sexpr::text::is_control(c), c.is_control(), "{u:x}");
        }
    }
}

#[test]
fn trivia_around_a_form_changes_nothing() {
    for src in ["a", "(b \"c;d\" 1) ; e", " ; first\n(f)", "\"g\\n\"", "-7"] {
        let d = parse(src).unwrap();
        for w in ["", " ", "\t\u{3000}\n "] {
            for c in ["", " note", "(\"; )"] {
                assert_eq!(parse(&format!("{w};{c}\n{src}\n{w};{c}")).unwrap(), d);
                assert_eq!(parse(&format!("{w}\n{src}\n{w};{c}\n{w}")).unwrap(), d);
            }
        }
    }
}

#[test]
fn streams_may_be_joined() {
    let streams = ["", " ", "a", "a b", "(a) \"b\" ; c", "; d", "1\n2\n", "((e))"];
    for a in streams {
        for b in streams {
            let mut both = parse_all(a).unwrap();
            both.extend(parse_all(b).unwrap());
            assert_eq!(parse_all(&format!("{a}\n{b}")).unwrap(), both, "{a:?} {b:?}");
        }
    }
}
