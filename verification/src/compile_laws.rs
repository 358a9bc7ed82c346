//! Laws of the two compilers: a term is one token and cannot inject syntax, no datum is both a
//! query and a graph, every label of a graph is bound, and a graph has no blank nodes.

use vstd::prelude::*;

use crate::datum::{Datum, Fault};
use crate::lines::{all_ok, joined, lemma_all_ok_values};
use crate::quads::{Item, turtle_items};
use crate::rdfgraph::{
    Binding, Edge, Node, Value, binds, directives, edge_item, graph_items, node_text, statements,
    unbound_in_edge, unbound_label, value_text,
};
use crate::sparql::{
    Clause, clause, clauses, limit_of, order_by, order_condition, order_conditions, order_of,
    patterns_of, predicate, prefix_line, prefix_lines, prefixes_of, projection, query, query_text,
    term, triple, triples, var, vars,
};
use crate::terms::{
    bracketed, head, iri_form, iri_of_form, iri_text, label, parts_at, pn_prefix, prefixed_name,
    statement, variable, word_char,
};
use crate::text::{decimal, digits, escaped, escaped_char, quoted};
use crate::turtle::{
    GraphForm, all_bindings, bindings_of, blank_label, edges_of, graph, graph_form, graph_forms,
    graph_triple, language_tag, lit_form, name_node, node, object, predicate_node, prefix_binding,
    prefix_bindings, rdf_binding, turtle, type_node, uses_type,
};

verus! {

// ---------------------------------------------------------------------------------------
// Tokens
// ---------------------------------------------------------------------------------------

/// A bare word: letters, digits and `_ - : ?`.
pub open spec fn bare_word(t: Seq<char>) -> bool {
    &&& t.len() > 0
    &&& forall|i: int|
        0 <= i < t.len() ==> word_char(#[trigger] t[i]) || t[i] == '-' || t[i] == ':' || t[i]
            == '?'
}

/// An IRI reference: an IRI between angle brackets, with no character in it that could close
/// it.
pub open spec fn enclosed_iri(t: Seq<char>) -> bool {
    exists|s: Seq<char>| #[trigger] iri_text(s) && t == bracketed(s)
}

/// A quoted literal.
pub open spec fn quoted_literal(t: Seq<char>) -> bool {
    exists|s: Seq<char>| t == #[trigger] quoted(s)
}

/// One token of a query: a bare word, an IRI reference, or a quoted literal.
pub open spec fn query_token(t: Seq<char>) -> bool {
    bare_word(t) || enclosed_iri(t) || quoted_literal(t)
}

/// A quoted literal with a language tag.
pub open spec fn tagged_literal(t: Seq<char>) -> bool {
    exists|s: Seq<char>, tag: Seq<char>| language_tag(tag) && t == #[trigger] (quoted(s) + tag)
}

/// A quoted literal with a datatype.
pub open spec fn typed_literal(t: Seq<char>) -> bool {
    exists|s: Seq<char>, dt: Seq<char>|
        (bare_word(dt) || enclosed_iri(dt)) && t == #[trigger] (quoted(s) + "^^"@ + dt)
}

/// One token of a graph: one of a query, or a literal with a language tag or a datatype.
pub open spec fn graph_token(t: Seq<char>) -> bool {
    query_token(t) || tagged_literal(t) || typed_literal(t)
}

/// A variable is a bare word.
pub proof fn lemma_variable_is_bare(s: Seq<char>)
    requires
        variable(s),
    ensures
        bare_word(s),
{
    assert forall|i: int| 0 <= i < s.len() implies word_char(#[trigger] s[i]) || s[i] == '-' || s[i]
        == ':' || s[i] == '?' by {
        if i > 0 {
            assert(word_char(s[i]));
        }
    }
}

proof fn lemma_prefixed_name_is_bare(s: Seq<char>)
    requires
        prefixed_name(s),
    ensures
        bare_word(s),
{
    let k = choose|k: int| #[trigger] parts_at(s, k);
    assert forall|i: int| 0 <= i < s.len() implies word_char(#[trigger] s[i]) || s[i] == '-' || s[i]
        == ':' || s[i] == '?' by {
        if i < k {
            assert(s.take(k)[i] == s[i]);
        } else if i > k {
            assert(s.skip(k + 1)[i - k - 1] == s[i]);
        }
    }
}

proof fn lemma_digits_are_bare(n: nat)
    ensures
        digits(n).len() > 0,
        forall|i: int| 0 <= i < digits(n).len() ==> word_char(#[trigger] digits(n)[i]),
    decreases n,
{
    if n >= 10 {
        lemma_digits_are_bare(n / 10);
        assert forall|i: int| 0 <= i < digits(n).len() implies word_char(
            #[trigger] digits(n)[i],
        ) by {
            if i < digits(n / 10).len() {
                assert(digits(n)[i] == digits(n / 10)[i]);
            }
        }
    }
}

/// A numeral is a bare word.
pub proof fn lemma_decimal_is_bare(n: int)
    ensures
        bare_word(decimal(n)),
{
    let m: nat = if n < 0 {
        (-n) as nat
    } else {
        n as nat
    };
    lemma_digits_are_bare(m);
    let t = decimal(n);
    assert forall|i: int| 0 <= i < t.len() implies word_char(#[trigger] t[i]) || t[i] == '-' || t[i]
        == ':' || t[i] == '?' by {
        if n < 0 {
            if i > 0 {
                assert(t[i] == digits(m)[i - 1]);
            }
        } else {
            assert(t[i] == digits(m)[i]);
        }
    }
}

proof fn lemma_iri_form_is_enclosed(items: Seq<Datum>)
    ensures
        iri_form(items) matches Ok(t) ==> enclosed_iri(t),
{
    if let Ok(t) = iri_form(items) {
        let s = items[1]->Str_0;
        assert(iri_text(s) && t == bracketed(s));
    }
}

/// The escaped form of a text has no line break in it.
proof fn lemma_escaped_is_one_line(s: Seq<char>)
    ensures
        forall|i: int|
            0 <= i < escaped(s).len() ==> #[trigger] escaped(s)[i] != '\n' && escaped(s)[i] != '\r',
    decreases s.len(),
{
    if s.len() > 0 {
        lemma_escaped_is_one_line(s.drop_last());
        let before = escaped(s.drop_last());
        assert forall|i: int| 0 <= i < escaped(s).len() implies #[trigger] escaped(s)[i] != '\n'
            && escaped(s)[i] != '\r' by {
            if i < before.len() {
                assert(escaped(s)[i] == before[i]);
            } else {
                assert(escaped(s)[i] == escaped_char(s.last())[i - before.len()]);
            }
        }
    }
}

/// A quoted literal has no line break in it.
pub proof fn quoted_text_is_one_line(s: Seq<char>)
    ensures
        forall|i: int|
            0 <= i < quoted(s).len() ==> #[trigger] quoted(s)[i] != '\n' && quoted(s)[i] != '\r',
{
    lemma_escaped_is_one_line(s);
    assert forall|i: int| 0 <= i < quoted(s).len() implies #[trigger] quoted(s)[i] != '\n'
        && quoted(s)[i] != '\r' by {
        if 0 < i < quoted(s).len() - 1 {
            assert(quoted(s)[i] == escaped(s)[i - 1]);
        }
    }
}

/// Whatever the datum is, a term of a query is one token: it cannot break out of its place and
/// inject syntax.
pub proof fn a_query_term_is_one_token(d: Datum)
    ensures
        term(d) matches Ok(t) ==> query_token(t),
        predicate(d) matches Ok(t) ==> query_token(t),
{
    match d {
        Datum::Symbol(s) => {
            if variable(s) {
                lemma_variable_is_bare(s);
            }
            if prefixed_name(s) {
                lemma_prefixed_name_is_bare(s);
            }
        },
        Datum::Str(s) => {
            assert(quoted_literal(quoted(s)));
        },
        Datum::Int(n) => {
            lemma_decimal_is_bare(n as int);
        },
        Datum::List(items) => {
            lemma_iri_form_is_enclosed(items);
        },
    }
    reveal_strlit("a");
    assert(bare_word("a"@));
}

/// A prefixed name is its label, a colon and its local part.
proof fn lemma_name_node(s: Seq<char>)
    requires
        prefixed_name(s),
    ensures
        node_text(name_node(s)) == s,
{
    let k = choose|k: int| #[trigger] parts_at(s, k);
    reveal_strlit(":");
    assert(s.take(k) + ":"@ + s.skip(k + 1) =~= s);
}

/// A node in IRI position is a bare word or an IRI reference.
proof fn lemma_node_is_one_token(d: Datum, role: Seq<char>)
    ensures
        node(d, role) matches Ok(n) ==> bare_word(node_text(n)) || enclosed_iri(node_text(n)),
{
    match d {
        Datum::Symbol(s) => {
            if prefixed_name(s) {
                lemma_prefixed_name_is_bare(s);
                lemma_name_node(s);
            }
        },
        Datum::List(items) => {
            if let Ok(iri) = iri_of_form(items) {
                assert(iri_text(iri));
            }
        },
        _ => {},
    }
}

/// Whatever the datum is, a subject, predicate or object of a graph is one token: it cannot
/// break out of its place and inject syntax.
pub proof fn a_graph_term_is_one_token(d: Datum, role: Seq<char>)
    ensures
        node(d, role) matches Ok(n) ==> bare_word(node_text(n)) || enclosed_iri(node_text(n)),
        predicate_node(d) matches Ok(n) ==> bare_word(node_text(n)) || enclosed_iri(node_text(n)),
        object(d) matches Ok(v) ==> graph_token(value_text(v)),
{
    lemma_node_is_one_token(d, role);
    lemma_node_is_one_token(d, "predicate"@);
    lemma_node_is_one_token(d, "object"@);
    reveal_strlit("rdf");
    reveal_strlit(":");
    reveal_strlit("type");
    assert(bare_word(node_text(type_node())));
    match d {
        Datum::Str(s) => {
            assert(quoted_literal(quoted(s)));
        },
        Datum::Int(n) => {
            lemma_decimal_is_bare(n as int);
        },
        Datum::List(items) => {
            if let Ok(iri) = iri_of_form(items) {
                assert(iri_text(iri));
            }
            if let Ok(v) = lit_form(items) {
                let t = value_text(v);
                lemma_node_is_one_token(items[2], "datatype"@);
                match v {
                    Value::Tagged(s, tag) => {
                        assert(language_tag(tag) && t == quoted(s) + tag);
                        assert(tagged_literal(t));
                    },
                    Value::Typed(s, dt) => {
                        assert(t == quoted(s) + "^^"@ + node_text(dt));
                        assert(typed_literal(t));
                    },
                    _ => {},
                }
            }
        },
        _ => {},
    }
}

/// A statement of three tokens of a query.
pub open spec fn pattern_of_tokens(line: Seq<char>) -> bool {
    exists|s: Seq<char>, p: Seq<char>, o: Seq<char>|
        query_token(s) && query_token(p) && query_token(o) && line == #[trigger] statement(s, p, o)
}

/// A PREFIX line of a label and an IRI reference.
pub open spec fn prefix_of_tokens(line: Seq<char>) -> bool {
    exists|name: Seq<char>, iri: Seq<char>|
        pn_prefix(name) && enclosed_iri(iri) && line == #[trigger] ("PREFIX "@ + name + ": "@
            + iri)
}

proof fn lemma_triple_is_made_of_tokens(d: Datum)
    ensures
        triple(d) matches Ok(line) ==> pattern_of_tokens(line),
{
    if let Ok(line) = triple(d) {
        let items = d->List_0;
        a_query_term_is_one_token(items[0]);
        a_query_term_is_one_token(items[1]);
        a_query_term_is_one_token(items[2]);
        assert(line == statement(
            term(items[0])->Ok_0,
            predicate(items[1])->Ok_0,
            term(items[2])->Ok_0,
        ));
    }
}

proof fn lemma_prefix_line_is_made_of_tokens(d: Datum)
    ensures
        prefix_line(d) matches Ok(line) ==> prefix_of_tokens(line),
{
    if let Ok(line) = prefix_line(d) {
        let items = d->List_0;
        let name = label(items[0]->Symbol_0);
        let s = items[1]->Str_0;
        let iri = bracketed(s);
        assert(iri_text(s));
        assert(enclosed_iri(iri));
        assert(line == "PREFIX "@ + name + ": "@ + iri);
    }
}

proof fn lemma_clause_is_made_of_tokens(d: Datum)
    ensures
        clause(d) matches Ok(Clause::Where(ts)) ==> forall|j: int|
            0 <= j < ts.len() ==> pattern_of_tokens(#[trigger] ts[j]),
        clause(d) matches Ok(Clause::Prefix(ls)) ==> forall|j: int|
            0 <= j < ls.len() ==> prefix_of_tokens(#[trigger] ls[j]),
        clause(d) matches Ok(Clause::OrderBy(o)) ==> order_of_tokens(o),
        clause(d) matches Ok(Clause::Limit(l)) ==> limit_of_tokens(l),
{
    if let Datum::List(items) = d {
        if items.len() > 0 {
            lemma_order_by_is_made_of_tokens(items);
        }
        if let Ok(Clause::Limit(l)) = clause(d) {
            let n = items[1]->Int_0;
            assert(n >= 0 && l == "LIMIT "@ + decimal(n as int));
        }
    }
    if let Ok(Clause::Where(ts)) = clause(d) {
        let ds = d->List_0.skip(1);
        let rs = triples(ds);
        lemma_all_ok_values(rs);
        assert forall|j: int| 0 <= j < ts.len() implies pattern_of_tokens(#[trigger] ts[j]) by {
            lemma_triple_is_made_of_tokens(ds[j]);
            assert(rs[j] == triple(ds[j]));
        }
    }
    if let Ok(Clause::Prefix(ls)) = clause(d) {
        let ds = d->List_0.skip(1);
        let rs = prefix_lines(ds);
        lemma_all_ok_values(rs);
        assert forall|j: int| 0 <= j < ls.len() implies prefix_of_tokens(#[trigger] ls[j]) by {
            lemma_prefix_line_is_made_of_tokens(ds[j]);
            assert(rs[j] == prefix_line(ds[j]));
        }
    }
}

spec fn clause_of_tokens(c: Clause) -> bool {
    &&& c matches Clause::Where(ts) ==> forall|j: int|
        0 <= j < ts.len() ==> pattern_of_tokens(#[trigger] ts[j])
    &&& c matches Clause::Prefix(ls) ==> forall|j: int|
        0 <= j < ls.len() ==> prefix_of_tokens(#[trigger] ls[j])
    &&& c matches Clause::OrderBy(o) ==> order_of_tokens(o)
    &&& c matches Clause::Limit(l) ==> limit_of_tokens(l)
}

proof fn lemma_clauses_are_made_of_tokens(cs: Seq<Clause>)
    requires
        forall|i: int| 0 <= i < cs.len() ==> clause_of_tokens(#[trigger] cs[i]),
    ensures
        forall|j: int|
            0 <= j < patterns_of(cs).len() ==> pattern_of_tokens(#[trigger] patterns_of(cs)[j]),
        forall|j: int|
            0 <= j < prefixes_of(cs).len() ==> prefix_of_tokens(#[trigger] prefixes_of(cs)[j]),
        order_of(cs) matches Some(o) ==> order_of_tokens(o),
        limit_of(cs) matches Some(l) ==> limit_of_tokens(l),
    decreases cs.len(),
{
    if cs.len() > 0 {
        let before = cs.drop_last();
        assert forall|i: int| 0 <= i < before.len() implies clause_of_tokens(
            #[trigger] before[i],
        ) by {
            assert(before[i] == cs[i]);
        }
        lemma_clauses_are_made_of_tokens(before);
        assert(clause_of_tokens(cs.last()));
        assert forall|j: int| 0 <= j < patterns_of(cs).len() implies pattern_of_tokens(
            #[trigger] patterns_of(cs)[j],
        ) by {
            if j < patterns_of(before).len() {
                assert(patterns_of(cs)[j] == patterns_of(before)[j]);
            } else {
                let ts = cs.last()->Where_0;
                assert(patterns_of(cs)[j] == ts[j - patterns_of(before).len()]);
            }
        }
        assert forall|j: int| 0 <= j < prefixes_of(cs).len() implies prefix_of_tokens(
            #[trigger] prefixes_of(cs)[j],
        ) by {
            if j < prefixes_of(before).len() {
                assert(prefixes_of(cs)[j] == prefixes_of(before)[j]);
            } else {
                let ls = cs.last()->Prefix_0;
                assert(prefixes_of(cs)[j] == ls[j - prefixes_of(before).len()]);
            }
        }
    }
}

/// A projection of tokens: `*`, or variables with one blank between any two.
pub open spec fn projection_of_tokens(proj: Seq<char>) -> bool {
    proj == "*"@ || exists|vs: Seq<Seq<char>>|
        proj == #[trigger] joined(vs) && vs.len() > 0 && (forall|i: int|
            0 <= i < vs.len() ==> variable(#[trigger] vs[i]))
}

/// A condition of an ORDER BY: a variable, or a variable with its direction.
pub open spec fn condition_of_tokens(c: Seq<char>) -> bool {
    exists|v: Seq<char>| #[trigger]
        variable(v) && (c == v || c == "ASC("@ + v + ")"@ || c == "DESC("@ + v + ")"@)
}

/// An ORDER BY line of conditions.
pub open spec fn order_of_tokens(line: Seq<char>) -> bool {
    exists|cs: Seq<Seq<char>>|
        line == #[trigger] ("ORDER BY "@ + joined(cs)) && cs.len() > 0 && (forall|i: int|
            0 <= i < cs.len() ==> condition_of_tokens(#[trigger] cs[i]))
}

/// A LIMIT line of a natural number.
pub open spec fn limit_of_tokens(line: Seq<char>) -> bool {
    exists|n: i64| n >= 0 && line == #[trigger] ("LIMIT "@ + decimal(n as int))
}

proof fn lemma_projection_is_made_of_tokens(d: Datum)
    ensures
        projection(d) matches Ok(proj) ==> projection_of_tokens(proj),
{
    if let Ok(proj) = projection(d) {
        if d != Datum::Symbol("*"@) {
            let items = d->List_0;
            let rs = vars(items);
            let vs = all_ok(rs)->Ok_0;
            lemma_all_ok_values(rs);
            assert forall|i: int| 0 <= i < vs.len() implies variable(#[trigger] vs[i]) by {
                assert(rs[i] == var(items[i]));
            }
            assert(proj == joined(vs));
        }
    }
}

proof fn lemma_order_by_is_made_of_tokens(items: Seq<Datum>)
    requires
        items.len() > 0,
    ensures
        order_by(items) matches Ok(line) ==> order_of_tokens(line),
{
    if let Ok(line) = order_by(items) {
        let ds = items.skip(1);
        let rs = order_conditions(ds);
        let cs = all_ok(rs)->Ok_0;
        lemma_all_ok_values(rs);
        assert forall|i: int| 0 <= i < cs.len() implies condition_of_tokens(#[trigger] cs[i]) by {
            assert(rs[i] == order_condition(ds[i]));
            match ds[i] {
                Datum::Symbol(v) => {
                    assert(variable(v) && cs[i] == v);
                },
                Datum::List(parts) => {
                    let v = parts[1]->Symbol_0;
                    assert(variable(v));
                },
                _ => {},
            }
        }
        assert(line == "ORDER BY "@ + joined(cs));
    }
}

/// Whatever the datum is, a query is its parts in canonical order, each made of tokens: PREFIX
/// lines of a label and an IRI reference; the projection; triple patterns of three tokens; the
/// ORDER BY line; and the LIMIT line.
pub proof fn a_query_is_made_of_tokens(d: Datum)
    ensures
        query(d) matches Ok(text) ==> {
            let proj = projection(d->List_0[1])->Ok_0;
            let cs = all_ok(clauses(d->List_0.skip(2)))->Ok_0;
            let (prefixes, patterns) = (prefixes_of(cs), patterns_of(cs));
            &&& text == query_text(proj, prefixes, patterns, order_of(cs), limit_of(cs))
            &&& parts_of_tokens(proj, prefixes, patterns, order_of(cs), limit_of(cs))
        },
{
    if let Ok(text) = query(d) {
        let items = d->List_0;
        let ds = items.skip(2);
        let rs = clauses(ds);
        let cs = all_ok(rs)->Ok_0;
        lemma_all_ok_values(rs);
        assert forall|i: int| 0 <= i < cs.len() implies clause_of_tokens(#[trigger] cs[i]) by {
            lemma_clause_is_made_of_tokens(ds[i]);
            assert(rs[i] == clause(ds[i]));
        }
        lemma_clauses_are_made_of_tokens(cs);
        lemma_projection_is_made_of_tokens(items[1]);
        let proj = projection(items[1])->Ok_0;
        assert(parts_of_tokens(
            proj,
            prefixes_of(cs),
            patterns_of(cs),
            order_of(cs),
            limit_of(cs),
        ));
        assert(text == query_text(
            proj,
            prefixes_of(cs),
            patterns_of(cs),
            order_of(cs),
            limit_of(cs),
        ));
    }
}

/// The parts of a query, each made of tokens.
pub open spec fn parts_of_tokens(
    proj: Seq<char>,
    prefixes: Seq<Seq<char>>,
    patterns: Seq<Seq<char>>,
    order: Option<Seq<char>>,
    limit: Option<Seq<char>>,
) -> bool {
    &&& projection_of_tokens(proj)
    &&& forall|j: int| 0 <= j < prefixes.len() ==> prefix_of_tokens(#[trigger] prefixes[j])
    &&& forall|j: int| 0 <= j < patterns.len() ==> pattern_of_tokens(#[trigger] patterns[j])
    &&& order matches Some(o) ==> order_of_tokens(o)
    &&& limit matches Some(l) ==> limit_of_tokens(l)
}

/// A statement of three tokens of a graph.
pub open spec fn statement_of_tokens(line: Seq<char>) -> bool {
    exists|s: Seq<char>, p: Seq<char>, o: Seq<char>|
        (bare_word(s) || enclosed_iri(s)) && (bare_word(p) || enclosed_iri(p)) && graph_token(o)
            && line == #[trigger] statement(s, p, o)
}

/// An `@prefix` line of a label and an IRI reference.
pub open spec fn directive_of_tokens(line: Seq<char>) -> bool {
    exists|name: Seq<char>, iri: Seq<char>|
        pn_prefix(name) && enclosed_iri(iri) && line == #[trigger] ("@prefix "@ + name + ": "@ + iri
            + " ."@)
}

/// A label and an IRI that can stand in an `@prefix` line.
spec fn sound_binding(b: Binding) -> bool {
    pn_prefix(b.0) && iri_text(b.1)
}

/// Terms that are one token each.
spec fn sound_edge(e: Edge<Seq<char>>) -> bool {
    let s = node_text(e.subject);
    let p = node_text(e.predicate);
    (bare_word(s) || enclosed_iri(s)) && (bare_word(p) || enclosed_iri(p)) && graph_token(
        value_text(e.object),
    )
}

spec fn sound_form(f: GraphForm) -> bool {
    match f {
        GraphForm::Prefix(bs) => forall|j: int|
            0 <= j < bs.len() ==> sound_binding(#[trigger] bs[j]),
        GraphForm::Triple(e) => sound_edge(e),
    }
}

proof fn lemma_form_is_sound(d: Datum)
    ensures
        graph_form(d) matches Ok(f) ==> sound_form(f),
{
    if let Ok(f) = graph_form(d) {
        let items = d->List_0;
        match f {
            GraphForm::Prefix(bs) => {
                let ds = items.skip(1);
                let rs = prefix_bindings(ds);
                lemma_all_ok_values(rs);
                assert forall|j: int| 0 <= j < bs.len() implies sound_binding(#[trigger] bs[j]) by {
                    assert(rs[j] == prefix_binding(ds[j]));
                }
            },
            GraphForm::Triple(_) => {
                a_graph_term_is_one_token(items[0], "subject"@);
                a_graph_term_is_one_token(items[1], "predicate"@);
                a_graph_term_is_one_token(items[2], "object"@);
            },
        }
    }
}

proof fn lemma_forms_are_sound(fs: Seq<GraphForm>)
    requires
        forall|i: int| 0 <= i < fs.len() ==> sound_form(#[trigger] fs[i]),
    ensures
        forall|j: int| 0 <= j < edges_of(fs).len() ==> sound_edge(#[trigger] edges_of(fs)[j]),
        forall|j: int|
            0 <= j < bindings_of(fs).len() ==> sound_binding(#[trigger] bindings_of(fs)[j]),
    decreases fs.len(),
{
    if fs.len() > 0 {
        let before = fs.drop_last();
        assert forall|i: int| 0 <= i < before.len() implies sound_form(#[trigger] before[i]) by {
            assert(before[i] == fs[i]);
        }
        lemma_forms_are_sound(before);
        assert(sound_form(fs.last()));
        assert forall|j: int| 0 <= j < edges_of(fs).len() implies sound_edge(
            #[trigger] edges_of(fs)[j],
        ) by {
            if j < edges_of(before).len() {
                assert(edges_of(fs)[j] == edges_of(before)[j]);
            }
        }
        assert forall|j: int| 0 <= j < bindings_of(fs).len() implies sound_binding(
            #[trigger] bindings_of(fs)[j],
        ) by {
            if j < bindings_of(before).len() {
                assert(bindings_of(fs)[j] == bindings_of(before)[j]);
            } else {
                let bs = fs.last()->Prefix_0;
                assert(bindings_of(fs)[j] == bs[j - bindings_of(before).len()]);
            }
        }
    }
}

/// Whatever the datum is, a graph is its `@prefix` lines, each a label and an IRI reference, and
/// its statements, each made of three tokens.
pub proof fn a_graph_is_made_of_tokens(d: Datum)
    ensures
        graph(d) matches Ok(g) ==> {
            &&& forall|j: int|
                0 <= j < directives(g.bindings).len() ==> directive_of_tokens(
                    #[trigger] directives(g.bindings)[j],
                )
            &&& forall|j: int|
                0 <= j < statements(g.edges).len() ==> statement_of_tokens(
                    #[trigger] statements(g.edges)[j],
                )
        },
{
    if let Ok(g) = graph(d) {
        let ds = d->List_0.skip(1);
        let rs = graph_forms(ds);
        let fs = all_ok(rs)->Ok_0;
        lemma_all_ok_values(rs);
        assert forall|i: int| 0 <= i < fs.len() implies sound_form(#[trigger] fs[i]) by {
            assert(rs[i] == graph_form(ds[i]));
            lemma_form_is_sound(ds[i]);
        }
        lemma_forms_are_sound(fs);
        reveal_strlit("rdf");
        reveal_strlit("http://www.w3.org/1999/02/22-rdf-syntax-ns#");
        assert(sound_binding(rdf_binding()));
        assert forall|j: int| 0 <= j < directives(g.bindings).len() implies directive_of_tokens(
            #[trigger] directives(g.bindings)[j],
        ) by {
            let b = g.bindings[j];
            if j < bindings_of(fs).len() {
                assert(b == bindings_of(fs)[j]);
            }
            assert(sound_binding(b));
            assert(enclosed_iri(bracketed(b.1)));
            assert(directives(g.bindings)[j] == "@prefix "@ + b.0 + ": "@ + bracketed(b.1)
                + " ."@);
        }
        assert forall|j: int| 0 <= j < statements(g.edges).len() implies statement_of_tokens(
            #[trigger] statements(g.edges)[j],
        ) by {
            let e = g.edges[j];
            assert(sound_edge(e));
            assert(statements(g.edges)[j] == statement(
                node_text(e.subject),
                node_text(e.predicate),
                value_text(e.object),
            ));
        }
    }
}

// ---------------------------------------------------------------------------------------
// Heads, prefixes and blank nodes
// ---------------------------------------------------------------------------------------

/// The keyword of a form.
pub open spec fn keyword(d: Datum) -> Option<Seq<char>> {
    match d {
        Datum::List(items) => head(items),
        _ => None,
    }
}

/// No datum is both a query and a graph: the head symbol tells them apart.
pub proof fn no_datum_is_both_query_and_graph(d: Datum)
    ensures
        !(query(d) is Ok && graph(d) is Ok),
{
    reveal_strlit("select");
    reveal_strlit("graph");
    assert("select"@.len() != "graph"@.len());
}

/// Where `rdf:type` is in use, as such or as the keyword `a`, `rdf:` is bound: by the graph
/// itself, or else by one binding behind those of the graph. No other binding is ever added.
pub proof fn type_binds_rdf_once(fs: Seq<GraphForm>)
    ensures
        uses_type(edges_of(fs)) ==> binds(all_bindings(fs), "rdf"@),
        all_bindings(fs) == bindings_of(fs) + (if uses_type(edges_of(fs)) && !binds(
            bindings_of(fs),
            "rdf"@,
        ) {
            seq![rdf_binding()]
        } else {
            Seq::<Binding>::empty()
        }),
{
    let bs = all_bindings(fs);
    if uses_type(edges_of(fs)) && !binds(bindings_of(fs), "rdf"@) {
        assert(bs.last() == rdf_binding());
        assert(bs =~= bindings_of(fs) + seq![rdf_binding()]);
    } else {
        assert(bs =~= bindings_of(fs) + Seq::<Binding>::empty());
    }
}

/// Whether the label of a node, if it has one, is bound.
pub open spec fn label_is_bound(n: Node<Seq<char>>, bs: Seq<Binding>) -> bool {
    n matches Node::Name(name, _) ==> binds(bs, name)
}

/// Whether the labels of a triple are bound: those of its nodes, and that of its datatype.
pub open spec fn labels_are_bound(e: Edge<Seq<char>>, bs: Seq<Binding>) -> bool {
    &&& label_is_bound(e.subject, bs)
    &&& label_is_bound(e.predicate, bs)
    &&& e.object matches Value::Node(n) ==> label_is_bound(n, bs)
    &&& e.object matches Value::Typed(_, dt) ==> label_is_bound(dt, bs)
}

proof fn lemma_no_label_is_unbound(es: Seq<Edge<Seq<char>>>, bs: Seq<Binding>)
    requires
        unbound_label(es, bs) is None,
    ensures
        forall|i: int| 0 <= i < es.len() ==> labels_are_bound(#[trigger] es[i], bs),
    decreases es.len(),
{
    if es.len() > 0 {
        lemma_no_label_is_unbound(es.drop_last(), bs);
        assert forall|i: int| 0 <= i < es.len() implies labels_are_bound(
            #[trigger] es[i],
            bs,
        ) by {
            if i < es.len() - 1 {
                assert(es.drop_last()[i] == es[i]);
            } else {
                assert(unbound_in_edge(es[i], bs) is None);
            }
        }
    }
}

/// Every label that a graph uses is bound in it.
pub proof fn every_label_of_a_graph_is_bound(d: Datum)
    ensures
        graph(d) matches Ok(g) ==> forall|i: int|
            0 <= i < g.edges.len() ==> labels_are_bound(#[trigger] g.edges[i], g.bindings),
{
    if let Ok(g) = graph(d) {
        lemma_no_label_is_unbound(g.edges, g.bindings);
    }
}

/// The forms of a graph that stand for triples: all but its `(prefix ...)` clauses.
pub open spec fn triple_forms(ds: Seq<Datum>) -> Seq<Datum>
    decreases ds.len(),
{
    if ds.len() == 0 {
        Seq::empty()
    } else if keyword(ds.last()) == Some("prefix"@) {
        triple_forms(ds.drop_last())
    } else {
        triple_forms(ds.drop_last()).push(ds.last())
    }
}

proof fn lemma_one_triple_for_each_form(ds: Seq<Datum>)
    ensures
        all_ok(graph_forms(ds)) matches Ok(fs) ==> {
            &&& edges_of(fs).len() == triple_forms(ds).len()
            &&& forall|j: int|
                0 <= j < edges_of(fs).len() ==> graph_form(triple_forms(ds)[j]) == Ok::<
                    GraphForm,
                    Fault,
                >(GraphForm::Triple(#[trigger] edges_of(fs)[j]))
        },
    decreases ds.len(),
{
    let rs = graph_forms(ds);
    if ds.len() > 0 && all_ok(rs) is Ok {
        let fs = all_ok(rs)->Ok_0;
        let before = ds.drop_last();
        assert(rs.drop_last() =~= graph_forms(before));
        lemma_one_triple_for_each_form(before);
        assert(rs.last() == graph_form(ds.last()));
        assert(fs.drop_last() =~= all_ok(graph_forms(before))->Ok_0);
        let n = edges_of(fs.drop_last()).len() as int;
        assert forall|j: int| 0 <= j < edges_of(fs).len() implies graph_form(triple_forms(ds)[j])
            == Ok::<GraphForm, Fault>(GraphForm::Triple(#[trigger] edges_of(fs)[j])) by {
            if j < n {
                assert(edges_of(fs)[j] == edges_of(fs.drop_last())[j]);
                assert(triple_forms(ds)[j] == triple_forms(before)[j]);
            }
        }
    }
}

/// A graph has one triple for each `(S P O)` form, in order.
pub proof fn a_graph_has_one_triple_for_each_form(d: Datum)
    ensures
        graph(d) matches Ok(g) ==> {
            let forms = triple_forms(d->List_0.skip(1));
            &&& g.edges.len() == forms.len()
            &&& forall|j: int|
                0 <= j < g.edges.len() ==> graph_form(forms[j]) == Ok::<GraphForm, Fault>(
                    GraphForm::Triple(#[trigger] g.edges[j]),
                )
        },
{
    if graph(d) is Ok {
        lemma_one_triple_for_each_form(d->List_0.skip(1));
    }
}

/// A triple with an IRI as its subject, and an IRI or a literal as its object.
pub open spec fn ground(item: Item) -> bool {
    item matches Item::Triple(t) && t.subject is Iri && !(t.object is Other)
}

/// A Turtle document that a datum stands for parses on its own: it reads, in order, as one
/// triple for each `(S P O)` form, which is what the form means, and none of them has a blank
/// node.
pub proof fn a_turtle_document_reads_as_its_triples(d: Datum)
    ensures
        turtle(d) matches Ok(t) ==> {
            let items = turtle_items(t);
            let forms = triple_forms(d->List_0.skip(1));
            let g = graph(d)->Ok_0;
            &&& items.len() == forms.len()
            &&& forall|i: int|
                0 <= i < items.len() ==> {
                    &&& graph_form(forms[i]) matches Ok(GraphForm::Triple(e))
                    &&& #[trigger] items[i] == edge_item(g.bindings, e)
                    &&& ground(items[i])
                }
        },
{
    a_graph_has_one_triple_for_each_form(d);
    if let Ok(t) = turtle(d) {
        let items = turtle_items(t);
        let forms = triple_forms(d->List_0.skip(1));
        let g = graph(d)->Ok_0;
        assert(items == graph_items(g));
        assert forall|i: int| 0 <= i < items.len() implies {
            &&& graph_form(forms[i]) matches Ok(GraphForm::Triple(e))
            &&& #[trigger] items[i] == edge_item(g.bindings, e)
            &&& ground(items[i])
        } by {
            assert(items[i] == edge_item(g.bindings, g.edges[i]));
        }
    }
}

/// A graph has no blank nodes: a datum with a symbol in the shape of a blank node's label in
/// the place of a subject, a predicate or an object of a triple is refused.
pub proof fn a_graph_has_no_blank_nodes(d: Datum, i: int, k: int)
    requires
        d is List,
        1 <= i < d->List_0.len(),
        d->List_0[i] is List,
        keyword(d->List_0[i]) != Some("prefix"@),
        0 <= k < d->List_0[i]->List_0.len(),
        d->List_0[i]->List_0[k] matches Datum::Symbol(s) && blank_label(s),
    ensures
        graph(d) is Err,
{
    let items = d->List_0;
    let rs = graph_forms(items.skip(1));
    lemma_all_ok_values(rs);
    assert(rs[i - 1] == graph_form(items[i]));
    let terms = items[i]->List_0;
    let s = terms[k]->Symbol_0;
    reveal_strlit("a");
    assert("a"@.len() == 1);
    assert(graph_triple(terms) is Err);
}

} // verus!
