//! What the compilers say of a form that is amiss, and which of several faults is told: the first
//! one, as the form is read from left to right.

use vstd::prelude::*;

use crate::datum::{Datum, Fault};
use crate::lines::{all_ok, lemma_all_ok_fault, lemma_all_ok_step, lemma_all_ok_values};
use crate::quads::{Item, turtle_items};
use crate::query_laws::starts_with;
use crate::rdfgraph::{graph_items, graph_text};
use crate::sparql::{
    clause, clauses, order_condition, order_conditions, predicate, prefix_line, prefix_lines,
    projection, query, term, triple, triples, vars,
};
use crate::terms::{binding, iri_form, iri_of_form};
use crate::turtle::{
    confirmed, graph, graph_form, graph_forms, lit_form, node, object, predicate_node,
    prefix_binding, prefix_bindings, turtle,
};
use crate::word_laws::{
    a_label_is_told_by_its_characters, a_name_is_told_by_its_characters,
    a_variable_is_told_by_its_characters, an_iri_is_told_by_its_characters, is_ascii_letter,
    is_figure, reads_as_iri, reads_as_label, reads_as_name, reads_as_variable,
};

verus! {

/// Whether a result is a compile fault with the given detail.
pub open spec fn refused<T>(r: Result<T, Fault>, detail: Seq<char>) -> bool {
    r == Err::<T, Fault>(Fault::Compile(detail))
}

/// Whether a list starts with a symbol.
pub open spec fn has_head(items: Seq<Datum>) -> bool {
    items.len() > 0 && items[0] is Symbol
}

/// The first fault of a row is told.
proof fn lemma_first_fault<T>(rs: Seq<Result<T, Fault>>, j: int)
    requires
        0 <= j < rs.len(),
        forall|i: int| 0 <= i < j ==> #[trigger] rs[i] is Ok,
        rs[j] is Err,
    ensures
        all_ok(rs) == Err::<Seq<T>, Fault>(rs[j]->Err_0),
{
    lemma_no_fault(rs, j);
    lemma_all_ok_step(rs, j);
    lemma_all_ok_fault(rs, j + 1);
}

proof fn lemma_no_fault<T>(rs: Seq<Result<T, Fault>>, j: int)
    requires
        0 <= j <= rs.len(),
        forall|i: int| 0 <= i < j ==> #[trigger] rs[i] is Ok,
    ensures
        all_ok(rs.take(j)) is Ok,
    decreases j,
{
    if j > 0 {
        lemma_no_fault(rs, j - 1);
        lemma_all_ok_step(rs, j - 1);
        assert(rs[j - 1] is Ok);
    }
}

// ---------------------------------------------------------------------------------------
// IRIs and bindings
// ---------------------------------------------------------------------------------------

/// An `(iri ...)` form with anything but one string behind its keyword is refused, and so are the
/// empty text and a text with a character that no IRI has.
pub proof fn a_faulty_iri_is_refused(items: Seq<Datum>)
    ensures
        !(items.len() == 2 && items[1] is Str) ==> refused(
            iri_of_form(items),
            "(iri …) takes exactly one string, e.g. (iri \"http://…\")"@,
        ),
        items.len() == 2 && items[1] == Datum::Str(Seq::empty()) ==> refused(
            iri_of_form(items),
            "(iri \"\") is empty"@,
        ),
        items.len() == 2 && items[1] is Str && items[1]->Str_0.len() > 0 && !reads_as_iri(
            items[1]->Str_0,
        ) ==> refused(
            iri_of_form(items),
            "IRI `"@ + items[1]->Str_0 + "` contains characters not allowed in a SPARQL IRIREF"@,
        ),
        iri_form(items) is Err <==> iri_of_form(items) is Err,
        iri_form(items) is Err ==> iri_form(items)->Err_0 == iri_of_form(items)->Err_0,
{
    if items.len() == 2 && items[1] is Str {
        an_iri_is_told_by_its_characters(items[1]->Str_0);
    }
}

/// A prefix binding is refused if it is no list, has not two items, has no symbol for its label,
/// an invalid label, no string for its namespace, or a text that is no IRI: the first of these is
/// told. A colon behind a label is not part of it.
pub proof fn a_faulty_binding_is_refused(
    d: Datum,
    raw: Seq<char>,
    iri: Seq<char>,
    no_symbol: Seq<char>,
)
    ensures
        !(d is List) ==> refused(
            binding(d, no_symbol),
            "a prefix binding must be a list (pfx \"http://…\")"@,
        ),
        d is List && d->List_0.len() != 2 ==> refused(
            binding(d, no_symbol),
            "a prefix binding is (pfx \"http://…\")"@,
        ),
        d is List && d->List_0.len() == 2 && !(d->List_0[0] is Symbol) ==> refused(
            binding(d, no_symbol),
            no_symbol,
        ),
        d is List && d->List_0.len() == 2 && d->List_0[0] == Datum::Symbol(raw.push(':'))
            && !reads_as_label(raw) ==> refused(
            binding(d, no_symbol),
            "invalid prefix name `"@ + raw + "`"@,
        ),
        d is List && d->List_0.len() == 2 && d->List_0[0] == Datum::Symbol(raw) && !(raw.len() > 0
            && raw.last() == ':') && !reads_as_label(raw) ==> refused(
            binding(d, no_symbol),
            "invalid prefix name `"@ + raw + "`"@,
        ),
        d is List && d->List_0.len() == 2 && (d->List_0[0] == Datum::Symbol(raw) || d->List_0[0]
            == Datum::Symbol(raw.push(':'))) && reads_as_label(raw) && !(d->List_0[1] is Str)
            ==> refused(binding(d, no_symbol), "a prefix namespace must be a string IRI"@),
        d is List && d->List_0.len() == 2 && (d->List_0[0] == Datum::Symbol(raw) || d->List_0[0]
            == Datum::Symbol(raw.push(':'))) && reads_as_label(raw) && d->List_0[1] == Datum::Str(
            Seq::empty(),
        ) ==> refused(binding(d, no_symbol), "(iri \"\") is empty"@),
        d is List && d->List_0.len() == 2 && (d->List_0[0] == Datum::Symbol(raw) || d->List_0[0]
            == Datum::Symbol(raw.push(':'))) && reads_as_label(raw) && d->List_0[1] == Datum::Str(
            iri,
        ) && iri.len() > 0 && !reads_as_iri(iri) ==> refused(
            binding(d, no_symbol),
            "IRI `"@ + iri + "` contains characters not allowed in a SPARQL IRIREF"@,
        ),
{
    a_label_is_told_by_its_characters(raw);
    an_iri_is_told_by_its_characters(iri);
    assert(raw.push(':').drop_last() =~= raw);
    if reads_as_label(raw) && raw.len() > 0 {
        assert(is_ascii_letter(raw[raw.len() - 1]) || is_figure(raw[raw.len() - 1]));
    }
}

// ---------------------------------------------------------------------------------------
// Queries
// ---------------------------------------------------------------------------------------

/// Only a `(select PROJECTION ...)` list is a query.
pub proof fn only_a_select_is_a_query(d: Datum, name: Seq<char>)
    ensures
        !(d is List) ==> refused(
            query(d),
            "query must be a list, e.g. (select (?s ?p ?o) (where (?s ?p ?o)))"@,
        ),
        d is List && !has_head(d->List_0) ==> refused(
            query(d),
            "query must start with a head symbol (e.g. `select`)"@,
        ),
        starts_with(d, name) && name != "select"@ ==> refused(
            query(d),
            "unknown query head `"@ + name + "`; only `select` is supported"@,
        ),
        starts_with(d, "select"@) && d->List_0.len() == 1 ==> refused(
            query(d),
            "select needs a projection: (select (?a …) …) or (select * …)"@,
        ),
{
}

/// Of a query the projection is judged first, then its clauses in order, and then whether a
/// `where` clause is among them.
pub proof fn the_first_fault_of_a_query_is_told(items: Seq<Datum>, j: int)
    requires
        starts_with(Datum::List(items), "select"@),
        items.len() >= 2,
    ensures
        projection(items[1]) is Err ==> query(Datum::List(items)) == projection(items[1]),
        projection(items[1]) is Ok && 2 <= j < items.len() && (forall|i: int|
            2 <= i < j ==> clause(#[trigger] items[i]) is Ok) && clause(items[j]) is Err ==> query(
            Datum::List(items),
        ) == Err::<Seq<char>, Fault>(clause(items[j])->Err_0),
        projection(items[1]) is Ok && (forall|i: int|
            2 <= i < items.len() ==> clause(#[trigger] items[i]) is Ok && !starts_with(
                items[i],
                "where"@,
            )) ==> refused(query(Datum::List(items)), "select needs a (where …) clause"@),
{
    let rs = clauses(items.skip(2));
    if projection(items[1]) is Ok && 2 <= j < items.len() && (forall|i: int|
        2 <= i < j ==> clause(#[trigger] items[i]) is Ok) && clause(items[j]) is Err {
        assert forall|i: int| 0 <= i < j - 2 implies #[trigger] rs[i] is Ok by {
            assert(clause(items[i + 2]) is Ok);
        }
        assert(rs[j - 2] == clause(items[j]));
        lemma_first_fault(rs, j - 2);
    }
    if projection(items[1]) is Ok && (forall|i: int|
        2 <= i < items.len() ==> clause(#[trigger] items[i]) is Ok && !starts_with(
            items[i],
            "where"@,
        )) {
        assert forall|i: int| 0 <= i < rs.len() implies #[trigger] rs[i] is Ok by {
            assert(clause(items[i + 2]) is Ok);
        }
        lemma_no_fault(rs, rs.len() as int);
        assert(rs.take(rs.len() as int) =~= rs);
        lemma_all_ok_values(rs);
        let cs = all_ok(rs)->Ok_0;
        assert forall|i: int| 0 <= i < cs.len() implies !(#[trigger] cs[i] is Where) by {
            assert(rs[i] == clause(items[i + 2]));
            assert(!starts_with(items[i + 2], "where"@));
        }
    }
}

/// A projection is refused if it is neither `*` nor a list, if it is the empty list, or if one of
/// its items is no variable.
pub proof fn a_faulty_projection_is_refused(d: Datum, k: int)
    ensures
        !(d is List) && d != Datum::Symbol("*"@) ==> refused(
            projection(d),
            "projection must be a var list (?a ?b …) or *"@,
        ),
        d is List && d->List_0.len() == 0 ==> refused(
            projection(d),
            "projection var list is empty; use * to select all"@,
        ),
        d is List && 0 <= k < d->List_0.len() && !(d->List_0[k] is Symbol && reads_as_variable(
            d->List_0[k]->Symbol_0,
        )) ==> refused(projection(d), "expected a ?variable"@),
{
    if d is List && 0 <= k < d->List_0.len() && !(d->List_0[k] is Symbol && reads_as_variable(
        d->List_0[k]->Symbol_0,
    )) {
        let rs = vars(d->List_0);
        if d->List_0[k] is Symbol {
            a_variable_is_told_by_its_characters(d->List_0[k]->Symbol_0);
        }
        assert(rs[k] is Err);
        let first = lemma_some_fault(rs, k);
        lemma_first_fault(rs, first);
    }
}

/// A row with a fault has a first one.
proof fn lemma_some_fault<T>(rs: Seq<Result<T, Fault>>, k: int) -> (first: int)
    requires
        0 <= k < rs.len(),
        rs[k] is Err,
    ensures
        0 <= first <= k,
        rs[first] is Err,
        forall|i: int| 0 <= i < first ==> #[trigger] rs[i] is Ok,
    decreases k,
{
    if exists|i: int| 0 <= i < k && #[trigger] rs[i] is Err {
        let i = choose|i: int| 0 <= i < k && #[trigger] rs[i] is Err;
        lemma_some_fault(rs, i)
    } else {
        k
    }
}

/// A clause is refused if it is no list, or does not start with one of the four keywords. Of the
/// forms in a `where`, `prefix` or `order-by` clause the first faulty one is told. An `order-by`
/// clause has something in it, and a `limit` clause one integer that is not negative.
pub proof fn a_faulty_clause_is_refused(d: Datum, name: Seq<char>, j: int)
    ensures
        !(d is List) ==> refused(
            clause(d),
            "each select clause must be a list, e.g. (where …)"@,
        ),
        d is List && !has_head(d->List_0) ==> refused(
            clause(d),
            "a select clause must start with a keyword (where/prefix/limit/order-by)"@,
        ),
        starts_with(d, name) && name != "where"@ && name != "prefix"@ && name != "limit"@ && name
            != "order-by"@ ==> refused(
            clause(d),
            "unknown select clause `"@ + name + "`; expected where/prefix/limit/order-by"@,
        ),
        starts_with(d, "where"@) && 1 <= j < d->List_0.len() && (forall|i: int|
            1 <= i < j ==> triple(#[trigger] d->List_0[i]) is Ok) && triple(d->List_0[j]) is Err
            ==> clause(d) is Err && clause(d)->Err_0 == triple(d->List_0[j])->Err_0,
        starts_with(d, "prefix"@) && 1 <= j < d->List_0.len() && (forall|i: int|
            1 <= i < j ==> prefix_line(#[trigger] d->List_0[i]) is Ok) && prefix_line(
            d->List_0[j],
        ) is Err ==> clause(d) is Err && clause(d)->Err_0 == prefix_line(d->List_0[j])->Err_0,
        starts_with(d, "order-by"@) && 1 <= j < d->List_0.len() && (forall|i: int|
            1 <= i < j ==> order_condition(#[trigger] d->List_0[i]) is Ok) && order_condition(
            d->List_0[j],
        ) is Err ==> clause(d) is Err && clause(d)->Err_0 == order_condition(d->List_0[j])->Err_0,
        starts_with(d, "order-by"@) && d->List_0.len() == 1 ==> refused(
            clause(d),
            "order-by needs at least one ?variable"@,
        ),
        starts_with(d, "limit"@) && !(d->List_0.len() == 2 && d->List_0[1] is Int) ==> refused(
            clause(d),
            "limit takes a single non-negative integer, e.g. (limit 10)"@,
        ),
        starts_with(d, "limit"@) && d->List_0.len() == 2 && d->List_0[1] is Int
            && d->List_0[1]->Int_0 < 0 ==> refused(
            clause(d),
            "limit must be a non-negative integer"@,
        ),
{
    reveal_strlit("where");
    reveal_strlit("prefix");
    reveal_strlit("limit");
    reveal_strlit("order-by");
    assert("where"@[0] == 'w' && "prefix"@[0] == 'p' && "limit"@[0] == 'l');
    assert("order-by"@[0] == 'o');
    if d is List && 1 <= j < d->List_0.len() {
        let items = d->List_0;
        if starts_with(d, "where"@) && (forall|i: int| 1 <= i < j ==> triple(#[trigger] items[i])
            is Ok) && triple(items[j]) is Err {
            let rs = triples(items.skip(1));
            assert forall|i: int| 0 <= i < j - 1 implies #[trigger] rs[i] is Ok by {
                assert(triple(items[i + 1]) is Ok);
            }
            assert(rs[j - 1] == triple(items[j]));
            lemma_first_fault(rs, j - 1);
        }
        if starts_with(d, "prefix"@) && (forall|i: int|
            1 <= i < j ==> prefix_line(#[trigger] items[i]) is Ok) && prefix_line(items[j])
            is Err {
            let rs = prefix_lines(items.skip(1));
            assert forall|i: int| 0 <= i < j - 1 implies #[trigger] rs[i] is Ok by {
                assert(prefix_line(items[i + 1]) is Ok);
            }
            assert(rs[j - 1] == prefix_line(items[j]));
            lemma_first_fault(rs, j - 1);
        }
        if starts_with(d, "order-by"@) && (forall|i: int|
            1 <= i < j ==> order_condition(#[trigger] items[i]) is Ok) && order_condition(items[j])
            is Err {
            let rs = order_conditions(items.skip(1));
            assert forall|i: int| 0 <= i < j - 1 implies #[trigger] rs[i] is Ok by {
                assert(order_condition(items[i + 1]) is Ok);
            }
            assert(rs[j - 1] == order_condition(items[j]));
            lemma_first_fault(rs, j - 1);
        }
    }
}

/// A triple pattern is refused if it is no list or has not three terms. Of its terms the subject
/// is judged first, then the predicate, and then the object.
pub proof fn a_faulty_triple_is_refused(d: Datum)
    ensures
        !(d is List) ==> refused(triple(d), "a triple must be a list (S P O)"@),
        d is List && d->List_0.len() != 3 ==> refused(
            triple(d),
            "a triple must have exactly three terms (S P O)"@,
        ),
        d is List && d->List_0.len() == 3 ==> {
            let ts = d->List_0;
            &&& term(ts[0]) is Err ==> triple(d) == term(ts[0])
            &&& term(ts[0]) is Ok && predicate(ts[1]) is Err ==> triple(d) == predicate(ts[1])
            &&& term(ts[0]) is Ok && predicate(ts[1]) is Ok && term(ts[2]) is Err ==> triple(d)
                == term(ts[2])
        },
{
}

/// A symbol that is neither a variable nor a prefixed name is no term, and no list is one but an
/// `(iri ...)` form. A predicate that is not `a` is refused as a term is.
pub proof fn a_faulty_term_is_refused(d: Datum, name: Seq<char>)
    ensures
        d is Symbol && !reads_as_variable(d->Symbol_0) && (forall|k: int|
            !#[trigger] reads_as_name(d->Symbol_0, k)) ==> refused(
            term(d),
            "unrecognized term symbol `"@ + d->Symbol_0
                + "`; use ?var or pfx:local (full IRIs go in (iri \"…\"))"@,
        ),
        d is List && !has_head(d->List_0) ==> refused(
            term(d),
            "a compound term must start with a symbol, e.g. (iri \"…\")"@,
        ),
        starts_with(d, name) && name != "iri"@ ==> refused(
            term(d),
            "unknown term form `("@ + name + " …)`; only (iri \"…\") is a compound term"@,
        ),
        starts_with(d, "iri"@) && iri_of_form(d->List_0) is Err ==> term(d) == iri_of_form(
            d->List_0,
        ),
        d != Datum::Symbol("a"@) ==> predicate(d) == term(d),
{
    if d is Symbol {
        a_variable_is_told_by_its_characters(d->Symbol_0);
        a_name_is_told_by_its_characters(d->Symbol_0);
    }
}

/// A condition of an `order-by` clause is refused if it is a symbol that is no variable, neither a
/// symbol nor a list, a list without `asc` or `desc` in front, one that has not one item behind
/// that, or one whose item is no variable.
pub proof fn a_faulty_condition_is_refused(d: Datum)
    ensures
        d is Symbol && !reads_as_variable(d->Symbol_0) ==> refused(
            order_condition(d),
            "order-by symbol must be a ?variable"@,
        ),
        d is Str || d is Int ==> refused(
            order_condition(d),
            "order-by term must be ?var or (asc ?var)/(desc ?var)"@,
        ),
        d is List && !starts_with(d, "asc"@) && !starts_with(d, "desc"@) ==> refused(
            order_condition(d),
            "order-by direction must be asc or desc"@,
        ),
        (starts_with(d, "asc"@) || starts_with(d, "desc"@)) && d->List_0.len() != 2 ==> refused(
            order_condition(d),
            "(asc …)/(desc …) takes one ?variable"@,
        ),
        (starts_with(d, "asc"@) || starts_with(d, "desc"@)) && d->List_0.len() == 2 && !(
        d->List_0[1] is Symbol && reads_as_variable(d->List_0[1]->Symbol_0)) ==> refused(
            order_condition(d),
            "expected a ?variable"@,
        ),
{
    if d is Symbol {
        a_variable_is_told_by_its_characters(d->Symbol_0);
    }
    if d is List && d->List_0.len() == 2 && d->List_0[1] is Symbol {
        a_variable_is_told_by_its_characters(d->List_0[1]->Symbol_0);
    }
}

/// A prefix line is refused as its binding is.
pub proof fn a_faulty_prefix_is_refused(d: Datum)
    ensures
        binding(d, "prefix name must be a symbol, e.g. rdf"@) is Err ==> prefix_line(d) is Err
            && prefix_line(d)->Err_0 == binding(
            d,
            "prefix name must be a symbol, e.g. rdf"@,
        )->Err_0,
        prefix_binding(d) == binding(d, "prefix name must be a symbol, e.g. ex"@),
{
}

// ---------------------------------------------------------------------------------------
// Graphs
// ---------------------------------------------------------------------------------------

/// Only a `(graph ...)` list is a graph, and of its forms the first faulty one is told.
pub proof fn only_a_graph_form_is_a_graph(d: Datum, name: Seq<char>, j: int)
    ensures
        !(d is List) ==> refused(
            turtle(d),
            "a graph must be a list, e.g. (graph (ex:s ex:p ex:o))"@,
        ),
        d is List && !has_head(d->List_0) ==> refused(
            turtle(d),
            "a graph must start with a head symbol (`graph`)"@,
        ),
        starts_with(d, name) && name != "graph"@ ==> refused(
            turtle(d),
            "unknown graph head `"@ + name + "`; only `graph` is supported"@,
        ),
        starts_with(d, "graph"@) && 1 <= j < d->List_0.len() && (forall|i: int|
            1 <= i < j ==> graph_form(#[trigger] d->List_0[i]) is Ok) && graph_form(d->List_0[j])
            is Err ==> turtle(d) == Err::<Seq<char>, Fault>(graph_form(d->List_0[j])->Err_0),
{
    if starts_with(d, "graph"@) && 1 <= j < d->List_0.len() && (forall|i: int|
        1 <= i < j ==> graph_form(#[trigger] d->List_0[i]) is Ok) && graph_form(d->List_0[j])
        is Err {
        let items = d->List_0;
        let rs = graph_forms(items.skip(1));
        assert forall|i: int| 0 <= i < j - 1 implies #[trigger] rs[i] is Ok by {
            assert(graph_form(items[i + 1]) is Ok);
        }
        assert(rs[j - 1] == graph_form(items[j]));
        lemma_first_fault(rs, j - 1);
    }
}

/// A form of a graph is refused if it is no list. Of the bindings of a `prefix` clause the first
/// faulty one is told. Any other form is a triple: it has three terms, of which the subject is
/// judged first, then the predicate, and then the object.
pub proof fn a_faulty_graph_form_is_refused(d: Datum, j: int)
    ensures
        !(d is List) ==> refused(
            graph_form(d),
            "each graph form must be a list — a triple (S P O) or (prefix …)"@,
        ),
        starts_with(d, "prefix"@) && 1 <= j < d->List_0.len() && (forall|i: int|
            1 <= i < j ==> prefix_binding(#[trigger] d->List_0[i]) is Ok) && prefix_binding(
            d->List_0[j],
        ) is Err ==> graph_form(d) is Err && graph_form(d)->Err_0 == prefix_binding(
            d->List_0[j],
        )->Err_0,
        d is List && !starts_with(d, "prefix"@) && d->List_0.len() != 3 ==> refused(
            graph_form(d),
            "a triple must have exactly three terms (S P O)"@,
        ),
        d is List && !starts_with(d, "prefix"@) && d->List_0.len() == 3 ==> {
            let ts = d->List_0;
            &&& node(ts[0], "subject"@) is Err ==> graph_form(d) is Err && graph_form(d)->Err_0
                == node(ts[0], "subject"@)->Err_0
            &&& node(ts[0], "subject"@) is Ok && predicate_node(ts[1]) is Err ==> graph_form(d)
                is Err && graph_form(d)->Err_0 == predicate_node(ts[1])->Err_0
            &&& node(ts[0], "subject"@) is Ok && predicate_node(ts[1]) is Ok && object(ts[2])
                is Err ==> graph_form(d) is Err && graph_form(d)->Err_0 == object(ts[2])->Err_0
        },
{
    if starts_with(d, "prefix"@) && 1 <= j < d->List_0.len() && (forall|i: int|
        1 <= i < j ==> prefix_binding(#[trigger] d->List_0[i]) is Ok) && prefix_binding(
        d->List_0[j],
    ) is Err {
        let items = d->List_0;
        let rs = prefix_bindings(items.skip(1));
        assert forall|i: int| 0 <= i < j - 1 implies #[trigger] rs[i] is Ok by {
            assert(prefix_binding(items[i + 1]) is Ok);
        }
        assert(rs[j - 1] == prefix_binding(items[j]));
        lemma_first_fault(rs, j - 1);
    }
}

/// Where a node has to stand, a blank node, a variable, any other symbol that is no prefixed
/// name, a literal, and a list that is no `(iri ...)` form are refused; what is told names the
/// place. A predicate that is not `a` is refused as a node is.
pub proof fn a_faulty_node_is_refused(d: Datum, role: Seq<char>, name: Seq<char>)
    ensures
        d is Symbol && d->Symbol_0.len() >= 2 && d->Symbol_0[0] == '_' && d->Symbol_0[1] == ':'
            ==> refused(
            node(d, role),
            "blank nodes are not allowed — skolemize to a stable IRI (pfx:local or (iri \"…\"))"@,
        ),
        d is Symbol && reads_as_variable(d->Symbol_0) ==> refused(
            node(d, role),
            "a "@ + role + " must be an IRI, not the variable `"@ + d->Symbol_0 + "`"@,
        ),
        d is Symbol && !(d->Symbol_0.len() >= 2 && d->Symbol_0[0] == '_' && d->Symbol_0[1] == ':')
            && !reads_as_variable(d->Symbol_0) && (forall|k: int|
            !#[trigger] reads_as_name(d->Symbol_0, k)) ==> refused(
            node(d, role),
            "unrecognized "@ + role + " `"@ + d->Symbol_0 + "`; use pfx:local or (iri \"…\")"@,
        ),
        d is Str || d is Int ==> refused(
            node(d, role),
            "a "@ + role + " must be an IRI (pfx:local or (iri \"…\")), not a literal"@,
        ),
        d is List && !has_head(d->List_0) ==> refused(
            node(d, role),
            "a compound "@ + role + " must start with a symbol, e.g. (iri \"…\")"@,
        ),
        starts_with(d, name) && name != "iri"@ ==> refused(
            node(d, role),
            "unknown "@ + role + " form `("@ + name + " …)`; only (iri \"…\") is an IRI form"@,
        ),
        starts_with(d, "iri"@) && iri_of_form(d->List_0) is Err ==> node(d, role) is Err && node(
            d,
            role,
        )->Err_0 == iri_of_form(d->List_0)->Err_0,
        d != Datum::Symbol("a"@) ==> predicate_node(d) == node(d, "predicate"@),
{
    if d is Symbol {
        a_variable_is_told_by_its_characters(d->Symbol_0);
        a_name_is_told_by_its_characters(d->Symbol_0);
    }
}

/// An object is refused if it is a symbol that is no node, or a list that is neither an
/// `(iri ...)` nor a `(lit ...)` form.
pub proof fn a_faulty_object_is_refused(d: Datum, name: Seq<char>)
    ensures
        d is Symbol && node(d, "object"@) is Err ==> object(d) is Err && object(d)->Err_0 == node(
            d,
            "object"@,
        )->Err_0,
        d is List && !has_head(d->List_0) ==> refused(
            object(d),
            "a compound object must start with a symbol, e.g. (iri \"…\") or (lit …)"@,
        ),
        starts_with(d, name) && name != "iri"@ && name != "lit"@ ==> refused(
            object(d),
            "unknown object form `("@ + name + " …)`; expected (iri \"…\") or (lit \"v\" dt)"@,
        ),
        starts_with(d, "iri"@) && iri_of_form(d->List_0) is Err ==> object(d) is Err && object(
            d,
        )->Err_0 == iri_of_form(d->List_0)->Err_0,
        starts_with(d, "lit"@) && lit_form(d->List_0) is Err ==> object(d) is Err && object(
            d,
        )->Err_0 == lit_form(d->List_0)->Err_0,
{
    reveal_strlit("iri");
    reveal_strlit("lit");
    assert("iri"@[0] == 'i' && "lit"@[0] == 'l');
}

/// A `(lit ...)` form is refused if it has not a value and one thing behind it, if its value is no
/// string, if what starts with `@` is no language tag, or if its datatype is no node.
pub proof fn a_faulty_literal_is_refused(items: Seq<Datum>, tag: Seq<char>, k: int)
    ensures
        items.len() != 3 ==> refused(
            lit_form(items),
            "(lit …) takes a value and a datatype/lang, e.g. (lit \"3.14\" xsd:decimal) or (lit \"hi\" @en)"@,
        ),
        items.len() == 3 && !(items[1] is Str) ==> refused(
            lit_form(items),
            "(lit …) value must be a string literal"@,
        ),
        items.len() == 3 && items[1] is Str && items[2] == Datum::Symbol(seq!['@'] + tag) && (
        tag.len() == 0 || (0 <= k < tag.len() && !is_ascii_letter(tag[k]) && !is_figure(tag[k])
            && tag[k] != '-')) ==> refused(
            lit_form(items),
            "invalid language tag `"@ + (seq!['@'] + tag) + "`"@,
        ),
        items.len() == 3 && items[1] is Str && !(items[2] is Symbol && items[2]->Symbol_0.len() > 0
            && items[2]->Symbol_0[0] == '@') && node(items[2], "datatype"@) is Err ==> lit_form(
            items,
        ) is Err && lit_form(items)->Err_0 == node(items[2], "datatype"@)->Err_0,
{
    let s = seq!['@'] + tag;
    assert(s[0] == '@');
    if 0 <= k < tag.len() {
        assert(s[k + 1] == tag[k]);
    }
}

/// A graph whose text does not read back as its triples is refused: with what the parser says
/// where that stopped it, and else with a word on it.
pub proof fn a_graph_that_does_not_read_back_is_refused(d: Datum)
    ensures
        graph(d) matches Ok(g) ==> {
            let items = turtle_items(graph_text(g));
            &&& items != graph_items(g) && items.len() > 0 && items.last() is Fault ==> refused(
                turtle(d),
                "the graph is not RDF: "@ + items.last()->Fault_0,
            )
            &&& items != graph_items(g) && !(items.len() > 0 && items.last() is Fault) ==> refused(
                turtle(d),
                "the graph does not read back as its triples"@,
            )
        },
{
}

/// A text that reads back as what is meant is handed out as it is, and any other is refused.
pub proof fn only_a_text_that_reads_back_is_handed_out(
    text: Seq<char>,
    meant: Seq<Item>,
    items: Seq<Item>,
    m: Seq<char>,
)
    ensures
        items == meant ==> confirmed(text, meant, items) == Ok::<Seq<char>, Fault>(text),
        items != meant && items.len() > 0 && items.last() == Item::Fault(m) ==> refused(
            confirmed(text, meant, items),
            "the graph is not RDF: "@ + m,
        ),
        items != meant && !(items.len() > 0 && items.last() is Fault) ==> refused(
            confirmed(text, meant, items),
            "the graph does not read back as its triples"@,
        ),
{
}

} // verus!
