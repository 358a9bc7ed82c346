//! What a query says, told form by form: which lines it has, in which order, and what stands on
//! each of them.

use vstd::prelude::*;

use crate::clause_laws::{
    added, all_well_formed, lemma_keyword_tells_the_kind, lemma_values_give_all_ok,
    lemma_well_formed_clauses,
};
use crate::datum::{Datum, Fault};
use crate::layout_laws::run_together;
use crate::lines::{all_ok, joined, lemma_all_ok_values, lines};
use crate::sparql::{
    Clause, clause, has_where, limit, limit_of, optional_line, order_by, order_condition,
    order_conditions, order_of, patterns_of, predicate, prefix_line, prefix_lines, prefixes_of,
    projection, query, query_text, term, triple, triples, var, vars,
};
use crate::terms::{binding, head};
use crate::text::decimal;
use crate::word_laws::{
    a_binding_binds_its_label, a_term_is_written_as_it_reads, a_variable_is_told_by_its_characters,
    is_binding, reads_as_variable, writes_predicate, writes_term,
};

verus! {

// ---------------------------------------------------------------------------------------
// What a query says
// ---------------------------------------------------------------------------------------

/// Whether a form starts with the given symbol.
pub open spec fn starts_with(d: Datum, k: Seq<char>) -> bool {
    d matches Datum::List(items) && items.len() > 0 && items[0] == Datum::Symbol(k)
}

/// The forms that stand behind a keyword, in all clauses of a row with that keyword, in order.
pub open spec fn forms_behind(ds: Seq<Datum>, k: Seq<char>) -> Seq<Datum>
    decreases ds.len(),
{
    if ds.len() == 0 {
        Seq::empty()
    } else if starts_with(ds.last(), k) {
        forms_behind(ds.drop_last(), k) + ds.last()->List_0.skip(1)
    } else {
        forms_behind(ds.drop_last(), k)
    }
}

/// The line of a triple pattern: its three terms, as they are written, and a full stop.
pub open spec fn writes_pattern(form: Datum, line: Seq<char>) -> bool {
    form matches Datum::List(ts) && ts.len() == 3 && exists|
        s: Seq<char>,
        p: Seq<char>,
        o: Seq<char>,
    |
        #![trigger writes_term(ts[0], s), writes_predicate(ts[1], p), writes_term(ts[2], o)]
        writes_term(ts[0], s) && writes_predicate(ts[1], p) && writes_term(ts[2], o) && line
            == "\n  "@ + s + " "@ + p + " "@ + o + " ."@
}

/// The line of a prefix binding: its label and its namespace.
pub open spec fn writes_prefix(form: Datum, line: Seq<char>) -> bool {
    exists|name: Seq<char>, iri: Seq<char>| #[trigger]
        is_binding(form, name, iri) && line == "PREFIX "@ + name + ": "@ + ("<"@ + iri + ">"@)
            + "\n"@
}

/// One variable after the other, each with a blank in front of it.
pub open spec fn writes_variables(vs: Seq<Datum>, row: Seq<Seq<char>>) -> bool {
    &&& row.len() == vs.len()
    &&& forall|i: int|
        0 <= i < vs.len() ==> vs[i] is Symbol && reads_as_variable(vs[i]->Symbol_0)
            && #[trigger] row[i] == " "@ + vs[i]->Symbol_0
}

/// The projection: a star, or one variable or more, each with a blank in front of it.
pub open spec fn writes_projection(d: Datum, text: Seq<char>) -> bool {
    ||| d == Datum::Symbol("*"@) && text == " "@ + "*"@
    ||| d is List && d->List_0.len() > 0 && exists|row: Seq<Seq<char>>| #[trigger]
        writes_variables(d->List_0, row) && text == run_together(row)
}

/// A condition of an ORDER BY, with a blank in front of it: a variable, or a variable with its
/// direction.
pub open spec fn writes_condition(d: Datum, text: Seq<char>) -> bool {
    ||| d matches Datum::Symbol(v) && reads_as_variable(v) && text == " "@ + v
    ||| exists|v: Seq<char>| #[trigger]
        reads_as_variable(v) && d == Datum::List(seq![Datum::Symbol("asc"@), Datum::Symbol(v)])
            && text == " "@ + ("ASC("@ + v + ")"@)
    ||| exists|v: Seq<char>| #[trigger]
        reads_as_variable(v) && d == Datum::List(seq![Datum::Symbol("desc"@), Datum::Symbol(v)])
            && text == " "@ + ("DESC("@ + v + ")"@)
}

/// The line of an `(order-by ...)` clause: one condition or more, in order.
pub open spec fn writes_order_by(d: Datum, line: Seq<char>) -> bool {
    d matches Datum::List(items) && items.len() >= 2 && exists|row: Seq<Seq<char>>|
        line == "\n"@ + "ORDER BY"@ + #[trigger] run_together(row) && row.len() == items.len() - 1
            && forall|i: int|
            0 <= i < row.len() ==> writes_condition(items[i + 1], #[trigger] row[i])
}

/// The line of a `(limit N)` clause.
pub open spec fn writes_limit(d: Datum, line: Seq<char>) -> bool {
    d matches Datum::List(items) && items.len() == 2 && items[1] is Int && items[1]->Int_0 >= 0
        && line == "\n"@ + ("LIMIT "@ + decimal(items[1]->Int_0 as int))
}

/// Whether the `i`-th clause of a row is the last one with a keyword.
pub open spec fn is_last(ds: Seq<Datum>, k: Seq<char>, i: int) -> bool {
    &&& 0 <= i < ds.len()
    &&& starts_with(ds[i], k)
    &&& forall|j: int| i < j < ds.len() ==> !starts_with(#[trigger] ds[j], k)
}

/// The parts of a query, each with its line breaks.
pub struct Parts {
    pub prefixes: Seq<Seq<char>>,
    pub projection: Seq<char>,
    pub patterns: Seq<Seq<char>>,
    pub order: Seq<char>,
    pub limit: Seq<char>,
}

/// The text of a query from its parts.
pub open spec fn parts_text(p: Parts) -> Seq<char> {
    run_together(p.prefixes) + "SELECT"@ + p.projection + " WHERE {"@ + run_together(p.patterns)
        + "\n}"@ + p.order + p.limit
}

/// Whether a datum is a query with the given parts: a `(select PROJECTION CLAUSE...)` with a
/// `where` clause among its clauses, one line for each binding of its `prefix` clauses and one
/// for each triple of its `where` clauses, in order, and the lines of the last `order-by` and of
/// the last `limit`, if it has one.
pub open spec fn has_parts(d: Datum, p: Parts) -> bool {
    &&& starts_with(d, "select"@)
    &&& d->List_0.len() >= 2
    &&& writes_projection(d->List_0[1], p.projection)
    &&& clauses_have_parts(d->List_0.skip(2), p)
}

/// Whether a row of clauses gives a query the given parts, but for its projection.
pub open spec fn clauses_have_parts(ds: Seq<Datum>, p: Parts) -> bool {
    &&& exists|i: int| 0 <= i < ds.len() && starts_with(#[trigger] ds[i], "where"@)
    &&& forall|i: int|
        0 <= i < ds.len() ==> starts_with(#[trigger] ds[i], "where"@) || starts_with(
            ds[i],
            "prefix"@,
        ) || (starts_with(ds[i], "limit"@) && exists|l: Seq<char>| #[trigger]
            writes_limit(ds[i], l)) || (starts_with(ds[i], "order-by"@) && exists|l: Seq<char>|
            #[trigger] writes_order_by(ds[i], l))
    &&& p.patterns.len() == forms_behind(ds, "where"@).len()
    &&& forall|j: int|
        0 <= j < p.patterns.len() ==> writes_pattern(
            forms_behind(ds, "where"@)[j],
            #[trigger] p.patterns[j],
        )
    &&& p.prefixes.len() == forms_behind(ds, "prefix"@).len()
    &&& forall|j: int|
        0 <= j < p.prefixes.len() ==> writes_prefix(
            forms_behind(ds, "prefix"@)[j],
            #[trigger] p.prefixes[j],
        )
    &&& (forall|i: int| 0 <= i < ds.len() ==> !starts_with(#[trigger] ds[i], "order-by"@))
        ==> p.order.len() == 0
    &&& forall|i: int| #[trigger]
        is_last(ds, "order-by"@, i) ==> writes_order_by(ds[i], p.order)
    &&& (forall|i: int| 0 <= i < ds.len() ==> !starts_with(#[trigger] ds[i], "limit"@))
        ==> p.limit.len() == 0
    &&& forall|i: int| #[trigger] is_last(ds, "limit"@, i) ==> writes_limit(ds[i], p.limit)
}

// ---------------------------------------------------------------------------------------
// One form
// ---------------------------------------------------------------------------------------

proof fn lemma_pattern(form: Datum, line: Seq<char>)
    ensures
        writes_pattern(form, line) <==> triple(form) is Ok && line == "\n  "@ + triple(form)->Ok_0,
{
    if let Datum::List(ts) = form {
        if ts.len() == 3 {
            a_term_is_written_as_it_reads(ts[0]);
            a_term_is_written_as_it_reads(ts[1]);
            a_term_is_written_as_it_reads(ts[2]);
            if triple(form) is Ok {
                let (s, p, o) = (term(ts[0])->Ok_0, predicate(ts[1])->Ok_0, term(ts[2])->Ok_0);
                assert(writes_term(ts[0], s) && writes_predicate(ts[1], p) && writes_term(ts[2], o));
                assert("\n  "@ + (s + " "@ + p + " "@ + o + " ."@) =~= "\n  "@ + s + " "@ + p
                    + " "@ + o + " ."@);
            }
            if writes_pattern(form, line) {
                let (s, p, o) = choose|s: Seq<char>, p: Seq<char>, o: Seq<char>|
                    #![trigger writes_term(ts[0], s), writes_predicate(ts[1], p), writes_term(ts[2], o)]
                    writes_term(ts[0], s) && writes_predicate(ts[1], p) && writes_term(ts[2], o)
                        && line == "\n  "@ + s + " "@ + p + " "@ + o + " ."@;
                assert(triple(form) == Ok::<Seq<char>, Fault>(s + " "@ + p + " "@ + o + " ."@));
                assert("\n  "@ + (s + " "@ + p + " "@ + o + " ."@) =~= line);
            }
        }
    }
}

proof fn lemma_prefix(form: Datum, line: Seq<char>)
    ensures
        writes_prefix(form, line) <==> prefix_line(form) is Ok && line == prefix_line(form)->Ok_0
            + "\n"@,
{
    let no_symbol = "prefix name must be a symbol, e.g. rdf"@;
    a_binding_binds_its_label(form, no_symbol);
    if prefix_line(form) is Ok {
        let (name, iri) = binding(form, no_symbol)->Ok_0;
        assert(is_binding(form, name, iri));
    }
    if writes_prefix(form, line) {
        let (name, iri) = choose|name: Seq<char>, iri: Seq<char>| #[trigger]
            is_binding(form, name, iri) && line == "PREFIX "@ + name + ": "@ + ("<"@ + iri + ">"@)
                + "\n"@;
        assert(binding(form, no_symbol) == Ok::<(Seq<char>, Seq<char>), Fault>((name, iri)));
    }
}

proof fn lemma_condition(d: Datum, text: Seq<char>)
    ensures
        writes_condition(d, text) <==> order_condition(d) is Ok && text == " "@ + order_condition(
            d,
        )->Ok_0,
{
    reveal_strlit("asc");
    reveal_strlit("desc");
    assert("asc"@.len() != "desc"@.len());
    match d {
        Datum::Symbol(v) => {
            a_variable_is_told_by_its_characters(v);
        },
        Datum::List(items) => {
            if order_condition(d) is Ok {
                let v = items[1]->Symbol_0;
                a_variable_is_told_by_its_characters(v);
                assert(reads_as_variable(v));
                assert(items =~= seq![items[0], Datum::Symbol(v)]);
            }
            assert forall|v: Seq<char>| #[trigger] reads_as_variable(v) && (d == Datum::List(
                seq![Datum::Symbol("asc"@), Datum::Symbol(v)],
            ) || d == Datum::List(seq![Datum::Symbol("desc"@), Datum::Symbol(v)])) implies var(
                items[1],
            ) == Ok::<Seq<char>, Fault>(v) && items.len() == 2 by {
                a_variable_is_told_by_its_characters(v);
            }
        },
        _ => {},
    }
}

/// A row with one text in front of each, run together.
spec fn each_behind(front: Seq<char>, row: Seq<Seq<char>>) -> Seq<Seq<char>> {
    row.map_values(|t: Seq<char>| front + t)
}

spec fn each_before(row: Seq<Seq<char>>, back: Seq<char>) -> Seq<Seq<char>> {
    row.map_values(|t: Seq<char>| t + back)
}

/// One text more at the end of a row.
pub proof fn lemma_run_together_push(row: Seq<Seq<char>>, t: Seq<char>)
    ensures
        run_together(row.push(t)) == run_together(row) + t,
    decreases row.len(),
{
    let all = row.push(t);
    if row.len() == 0 {
        assert(all.drop_first() =~= Seq::<Seq<char>>::empty());
        assert(run_together(all.drop_first()) =~= Seq::<char>::empty());
        assert(all[0] == t);
        assert(run_together(all) =~= run_together(row) + t);
    } else {
        assert(all.drop_first() =~= row.drop_first().push(t));
        lemma_run_together_push(row.drop_first(), t);
        assert(all[0] == row[0]);
        assert(run_together(all) =~= run_together(row) + t);
    }
}

/// Lines are their texts, run together.
pub proof fn lemma_lines_run_together(row: Seq<Seq<char>>, before: Seq<char>, after: Seq<char>)
    ensures
        lines(row, before, after) == run_together(
            row.map_values(|t: Seq<char>| before + t + after),
        ),
    decreases row.len(),
{
    let all = row.map_values(|t: Seq<char>| before + t + after);
    if row.len() > 0 {
        let less = row.drop_last().map_values(|t: Seq<char>| before + t + after);
        lemma_lines_run_together(row.drop_last(), before, after);
        assert(all =~= less.push(before + row.last() + after));
        lemma_run_together_push(less, before + row.last() + after);
        assert(lines(row, before, after) =~= run_together(all));
    }
}

proof fn lemma_joined_run_together(row: Seq<Seq<char>>)
    requires
        row.len() > 0,
    ensures
        " "@ + joined(row) == run_together(each_behind(" "@, row)),
    decreases row.len(),
{
    let all = each_behind(" "@, row);
    let less = each_behind(" "@, row.drop_last());
    assert(all =~= less.push(" "@ + row.last()));
    lemma_run_together_push(less, " "@ + row.last());
    if row.len() == 1 {
        assert(run_together(less) =~= Seq::<char>::empty());
        assert(run_together(all) =~= " "@ + row[0]);
    } else {
        lemma_joined_run_together(row.drop_last());
        assert(" "@ + joined(row) =~= run_together(all));
    }
}

proof fn lemma_variables(ds: Seq<Datum>, vs: Seq<Seq<char>>)
    requires
        ds.len() == vs.len(),
        forall|i: int| 0 <= i < ds.len() ==> var(#[trigger] ds[i]) == Ok::<Seq<char>, Fault>(vs[i]),
    ensures
        writes_variables(ds, each_behind(" "@, vs)),
{
    let row = each_behind(" "@, vs);
    assert forall|i: int| 0 <= i < ds.len() implies ds[i] is Symbol && reads_as_variable(
        ds[i]->Symbol_0,
    ) && #[trigger] row[i] == " "@ + ds[i]->Symbol_0 by {
        assert(var(ds[i]) == Ok::<Seq<char>, Fault>(vs[i]));
        a_variable_is_told_by_its_characters(vs[i]);
    }
}

proof fn lemma_projection(d: Datum, text: Seq<char>)
    ensures
        writes_projection(d, text) <==> projection(d) is Ok && text == " "@ + projection(d)->Ok_0,
{
    if let Datum::List(ds) = d {
        let rs = vars(ds);
        lemma_all_ok_values(rs);
        if projection(d) is Ok {
            let vs = all_ok(rs)->Ok_0;
            lemma_joined_run_together(vs);
            assert forall|i: int| 0 <= i < ds.len() implies var(#[trigger] ds[i]) == Ok::<
                Seq<char>,
                Fault,
            >(vs[i]) by {
                assert(rs[i] == var(ds[i]));
            }
            lemma_variables(ds, vs);
        }
        if writes_projection(d, text) {
            let row = choose|row: Seq<Seq<char>>| #[trigger]
                writes_variables(d->List_0, row) && text == run_together(row);
            let vs = ds.map_values(|x: Datum| x->Symbol_0);
            assert forall|i: int| 0 <= i < rs.len() implies #[trigger] rs[i] == Ok::<
                Seq<char>,
                Fault,
            >(vs[i]) by {
                assert(row[i] == " "@ + vs[i]);
                a_variable_is_told_by_its_characters(vs[i]);
            }
            lemma_values_give_all_ok(rs, vs);
            lemma_joined_run_together(vs);
            assert(row =~= each_behind(" "@, vs));
        }
    }
}

proof fn lemma_order_by(d: Datum, line: Seq<char>)
    requires
        d is List,
        d->List_0.len() > 0,
    ensures
        writes_order_by(d, line) <==> order_by(d->List_0) is Ok && line == "\n"@ + order_by(
            d->List_0,
        )->Ok_0,
{
    let items = d->List_0;
    let ds = items.skip(1);
    let rs = order_conditions(ds);
    lemma_all_ok_values(rs);
    reveal_strlit("ORDER BY ");
    reveal_strlit("ORDER BY");
    reveal_strlit(" ");
    assert("ORDER BY "@ =~= "ORDER BY"@ + " "@);
    if order_by(items) is Ok {
        let cs = all_ok(rs)->Ok_0;
        let row = each_behind(" "@, cs);
        lemma_joined_run_together(cs);
        assert forall|i: int| 0 <= i < row.len() implies writes_condition(
            items[i + 1],
            #[trigger] row[i],
        ) by {
            assert(rs[i] == order_condition(ds[i]));
            assert(rs[i] == Ok::<Seq<char>, Fault>(cs[i]));
            lemma_condition(items[i + 1], row[i]);
        }
        assert("\n"@ + ("ORDER BY "@ + joined(cs)) =~= "\n"@ + "ORDER BY"@ + (" "@ + joined(cs)));
        assert("\n"@ + order_by(items)->Ok_0 == "\n"@ + "ORDER BY"@ + run_together(row));
    }
    if writes_order_by(d, line) {
        let row = choose|row: Seq<Seq<char>>|
            line == "\n"@ + "ORDER BY"@ + #[trigger] run_together(row) && row.len() == items.len()
                - 1 && forall|i: int|
                0 <= i < row.len() ==> writes_condition(items[i + 1], #[trigger] row[i]);
        let cs = ds.map_values(|x: Datum| order_condition(x)->Ok_0);
        assert forall|i: int| 0 <= i < rs.len() implies #[trigger] rs[i] == Ok::<Seq<char>, Fault>(
            cs[i],
        ) by {
            assert(writes_condition(items[i + 1], row[i]));
            lemma_condition(items[i + 1], row[i]);
        }
        lemma_values_give_all_ok(rs, cs);
        lemma_joined_run_together(cs);
        assert(row =~= each_behind(" "@, cs)) by {
            assert forall|i: int| 0 <= i < row.len() implies row[i] == each_behind(" "@, cs)[i] by {
                assert(writes_condition(items[i + 1], row[i]));
                lemma_condition(items[i + 1], row[i]);
            }
        }
        assert("\n"@ + ("ORDER BY "@ + joined(cs)) =~= "\n"@ + "ORDER BY"@ + (" "@ + joined(cs)));
    }
}

proof fn lemma_limit(d: Datum, line: Seq<char>)
    requires
        d is List,
    ensures
        writes_limit(d, line) <==> limit(d->List_0) is Ok && line == "\n"@ + limit(d->List_0)->Ok_0,
{
}

// ---------------------------------------------------------------------------------------
// A row of clauses
// ---------------------------------------------------------------------------------------

/// The parts that a row of well-formed clauses gives.
spec fn parts_of(proj: Seq<char>, cs: Seq<Clause>) -> Parts {
    Parts {
        prefixes: each_before(prefixes_of(cs), "\n"@),
        projection: " "@ + proj,
        patterns: each_behind("\n  "@, patterns_of(cs)),
        order: optional_line(order_of(cs)),
        limit: optional_line(limit_of(cs)),
    }
}

proof fn lemma_parts_text(proj: Seq<char>, cs: Seq<Clause>)
    ensures
        parts_text(parts_of(proj, cs)) == query_text(
            proj,
            prefixes_of(cs),
            patterns_of(cs),
            order_of(cs),
            limit_of(cs),
        ),
{
    let p = parts_of(proj, cs);
    reveal_strlit("");
    reveal_strlit("SELECT");
    reveal_strlit(" ");
    reveal_strlit("SELECT ");
    assert("SELECT "@ =~= "SELECT"@ + " "@);
    lemma_lines_run_together(prefixes_of(cs), ""@, "\n"@);
    lemma_lines_run_together(patterns_of(cs), "\n  "@, ""@);
    assert(prefixes_of(cs).map_values(|t: Seq<char>| ""@ + t + "\n"@) =~= p.prefixes) by {
        assert forall|i: int| 0 <= i < p.prefixes.len() implies ""@ + prefixes_of(cs)[i] + "\n"@
            == p.prefixes[i] by {
            assert(""@ + prefixes_of(cs)[i] =~= prefixes_of(cs)[i]);
        }
    }
    assert(patterns_of(cs).map_values(|t: Seq<char>| "\n  "@ + t + ""@) =~= p.patterns) by {
        assert forall|i: int| 0 <= i < p.patterns.len() implies "\n  "@ + patterns_of(cs)[i] + ""@
            == p.patterns[i] by {
            assert("\n  "@ + patterns_of(cs)[i] + ""@ =~= "\n  "@ + patterns_of(cs)[i]);
        }
    }
    assert(run_together(p.prefixes) + "SELECT"@ + (" "@ + proj) =~= run_together(p.prefixes)
        + "SELECT "@ + proj);
}

/// The keyword that a clause starts with.
proof fn lemma_clause_keyword(d: Datum)
    requires
        clause(d) is Ok,
    ensures
        clause(d)->Ok_0 is Where <==> starts_with(d, "where"@),
        clause(d)->Ok_0 is Prefix <==> starts_with(d, "prefix"@),
        clause(d)->Ok_0 is Limit <==> starts_with(d, "limit"@),
        clause(d)->Ok_0 is OrderBy <==> starts_with(d, "order-by"@),
        d is List && d->List_0.len() > 0,
{
    lemma_keyword_tells_the_kind(d);
    assert(d->List_0[0] == Datum::Symbol(head(d->List_0)->Some_0));
}

proof fn lemma_patterns_are_of_forms(ds: Seq<Datum>)
    requires
        all_well_formed(ds),
    ensures
        patterns_of(added(ds)).len() == forms_behind(ds, "where"@).len(),
        forall|j: int|
            0 <= j < patterns_of(added(ds)).len() ==> triple(forms_behind(ds, "where"@)[j]) == Ok::<
                Seq<char>,
                Fault,
            >(#[trigger] patterns_of(added(ds))[j]),
    decreases ds.len(),
{
    if ds.len() > 0 {
        let before = ds.drop_last();
        let last = ds[ds.len() - 1];
        assert forall|i: int| 0 <= i < before.len() implies clause(#[trigger] before[i]) is Ok by {
            assert(before[i] == ds[i]);
        }
        lemma_patterns_are_of_forms(before);
        lemma_clause_keyword(last);
        assert(added(ds).drop_last() =~= added(before));
        let fs = last->List_0.skip(1);
        lemma_all_ok_values(triples(fs));
        let n = patterns_of(added(before)).len() as int;
        assert forall|j: int| 0 <= j < patterns_of(added(ds)).len() implies triple(
            forms_behind(ds, "where"@)[j],
        ) == Ok::<Seq<char>, Fault>(#[trigger] patterns_of(added(ds))[j]) by {
            if j < n {
                assert(patterns_of(added(ds))[j] == patterns_of(added(before))[j]);
                assert(forms_behind(ds, "where"@)[j] == forms_behind(before, "where"@)[j]);
            } else {
                assert(triples(fs)[j - n] == triple(fs[j - n]));
                assert(forms_behind(ds, "where"@)[j] == fs[j - n]);
            }
        }
    }
}

proof fn lemma_prefixes_are_of_forms(ds: Seq<Datum>)
    requires
        all_well_formed(ds),
    ensures
        prefixes_of(added(ds)).len() == forms_behind(ds, "prefix"@).len(),
        forall|j: int|
            0 <= j < prefixes_of(added(ds)).len() ==> prefix_line(forms_behind(ds, "prefix"@)[j])
                == Ok::<Seq<char>, Fault>(#[trigger] prefixes_of(added(ds))[j]),
    decreases ds.len(),
{
    if ds.len() > 0 {
        let before = ds.drop_last();
        let last = ds[ds.len() - 1];
        assert forall|i: int| 0 <= i < before.len() implies clause(#[trigger] before[i]) is Ok by {
            assert(before[i] == ds[i]);
        }
        lemma_prefixes_are_of_forms(before);
        lemma_clause_keyword(last);
        assert(added(ds).drop_last() =~= added(before));
        let fs = last->List_0.skip(1);
        lemma_all_ok_values(prefix_lines(fs));
        let n = prefixes_of(added(before)).len() as int;
        assert forall|j: int| 0 <= j < prefixes_of(added(ds)).len() implies prefix_line(
            forms_behind(ds, "prefix"@)[j],
        ) == Ok::<Seq<char>, Fault>(#[trigger] prefixes_of(added(ds))[j]) by {
            if j < n {
                assert(prefixes_of(added(ds))[j] == prefixes_of(added(before))[j]);
                assert(forms_behind(ds, "prefix"@)[j] == forms_behind(before, "prefix"@)[j]);
            } else {
                assert(prefix_lines(fs)[j - n] == prefix_line(fs[j - n]));
                assert(forms_behind(ds, "prefix"@)[j] == fs[j - n]);
            }
        }
    }
}

proof fn lemma_last_order_and_limit(ds: Seq<Datum>)
    requires
        all_well_formed(ds),
    ensures
        order_of(added(ds)) is None <==> forall|i: int|
            0 <= i < ds.len() ==> !starts_with(#[trigger] ds[i], "order-by"@),
        forall|i: int| #[trigger]
            is_last(ds, "order-by"@, i) ==> order_by(ds[i]->List_0) is Ok && order_of(added(ds))
                == Some(order_by(ds[i]->List_0)->Ok_0),
        limit_of(added(ds)) is None <==> forall|i: int|
            0 <= i < ds.len() ==> !starts_with(#[trigger] ds[i], "limit"@),
        forall|i: int| #[trigger]
            is_last(ds, "limit"@, i) ==> limit(ds[i]->List_0) is Ok && limit_of(added(ds)) == Some(
                limit(ds[i]->List_0)->Ok_0,
            ),
    decreases ds.len(),
{
    if ds.len() > 0 {
        let before = ds.drop_last();
        let n = ds.len() - 1;
        let last = ds[n];
        assert forall|i: int| 0 <= i < before.len() implies clause(#[trigger] before[i]) is Ok by {
            assert(before[i] == ds[i]);
        }
        lemma_last_order_and_limit(before);
        lemma_clause_keyword(last);
        assert(added(ds).drop_last() =~= added(before));
        assert(added(ds).last() == clause(last)->Ok_0);
        assert(forall|i: int| 0 <= i < before.len() ==> #[trigger] before[i] == ds[i]);
        if starts_with(last, "order-by"@) {
            assert forall|i: int| #[trigger] is_last(ds, "order-by"@, i) implies i == n by {
                if i < n {
                    assert(!starts_with(ds[n], "order-by"@));
                }
            }
        } else {
            assert forall|i: int| #[trigger] is_last(ds, "order-by"@, i) implies is_last(
                before,
                "order-by"@,
                i,
            ) && before[i] == ds[i] by {
                assert forall|j: int| i < j < before.len() implies !starts_with(
                    #[trigger] before[j],
                    "order-by"@,
                ) by {
                    assert(!starts_with(ds[j], "order-by"@));
                }
            }
            if order_of(added(before)) is None {
                assert forall|i: int| 0 <= i < ds.len() implies !starts_with(
                    #[trigger] ds[i],
                    "order-by"@,
                ) by {
                    if i < n {
                        assert(!starts_with(before[i], "order-by"@));
                    }
                }
            } else {
                let i = choose|i: int|
                    0 <= i < before.len() && starts_with(#[trigger] before[i], "order-by"@);
                assert(starts_with(ds[i], "order-by"@));
            }
        }
        if starts_with(last, "limit"@) {
            assert forall|i: int| #[trigger] is_last(ds, "limit"@, i) implies i == n by {
                if i < n {
                    assert(!starts_with(ds[n], "limit"@));
                }
            }
        } else {
            assert forall|i: int| #[trigger] is_last(ds, "limit"@, i) implies is_last(
                before,
                "limit"@,
                i,
            ) && before[i] == ds[i] by {
                assert forall|j: int| i < j < before.len() implies !starts_with(
                    #[trigger] before[j],
                    "limit"@,
                ) by {
                    assert(!starts_with(ds[j], "limit"@));
                }
            }
            if limit_of(added(before)) is None {
                assert forall|i: int| 0 <= i < ds.len() implies !starts_with(
                    #[trigger] ds[i],
                    "limit"@,
                ) by {
                    if i < n {
                        assert(!starts_with(before[i], "limit"@));
                    }
                }
            } else {
                let i = choose|i: int|
                    0 <= i < before.len() && starts_with(#[trigger] before[i], "limit"@);
                assert(starts_with(ds[i], "limit"@));
            }
        }
    }
}

/// A row of well-formed clauses with a `where` among them has its parts.
proof fn lemma_clauses_have_their_parts(proj: Seq<char>, ds: Seq<Datum>)
    requires
        all_well_formed(ds),
        has_where(added(ds)),
    ensures
        clauses_have_parts(ds, parts_of(proj, added(ds))),
{
    let cs = added(ds);
    let p = parts_of(proj, cs);
    let w = choose|w: int| 0 <= w < cs.len() && #[trigger] cs[w] is Where;
    lemma_clause_keyword(ds[w]);
    assert(starts_with(ds[w], "where"@));
    assert forall|i: int| 0 <= i < ds.len() implies starts_with(#[trigger] ds[i], "where"@)
        || starts_with(ds[i], "prefix"@) || (starts_with(ds[i], "limit"@) && exists|l: Seq<char>|
        #[trigger] writes_limit(ds[i], l)) || (starts_with(ds[i], "order-by"@) && exists|
        l: Seq<char>,
    | #[trigger] writes_order_by(ds[i], l)) by {
        lemma_clause_keyword(ds[i]);
        if starts_with(ds[i], "limit"@) {
            lemma_limit(ds[i], "\n"@ + limit(ds[i]->List_0)->Ok_0);
        }
        if starts_with(ds[i], "order-by"@) {
            lemma_order_by(ds[i], "\n"@ + order_by(ds[i]->List_0)->Ok_0);
        }
    }
    lemma_patterns_are_of_forms(ds);
    lemma_prefixes_are_of_forms(ds);
    lemma_last_order_and_limit(ds);
    assert forall|j: int| 0 <= j < p.patterns.len() implies writes_pattern(
        forms_behind(ds, "where"@)[j],
        #[trigger] p.patterns[j],
    ) by {
        assert(triple(forms_behind(ds, "where"@)[j]) == Ok::<Seq<char>, Fault>(patterns_of(cs)[j]));
        lemma_pattern(forms_behind(ds, "where"@)[j], p.patterns[j]);
    }
    assert forall|j: int| 0 <= j < p.prefixes.len() implies writes_prefix(
        forms_behind(ds, "prefix"@)[j],
        #[trigger] p.prefixes[j],
    ) by {
        assert(prefix_line(forms_behind(ds, "prefix"@)[j]) == Ok::<Seq<char>, Fault>(
            prefixes_of(cs)[j],
        ));
        lemma_prefix(forms_behind(ds, "prefix"@)[j], p.prefixes[j]);
    }
    assert forall|i: int| #[trigger] is_last(ds, "order-by"@, i) implies writes_order_by(
        ds[i],
        p.order,
    ) by {
        lemma_order_by(ds[i], p.order);
    }
    assert forall|i: int| #[trigger] is_last(ds, "limit"@, i) implies writes_limit(
        ds[i],
        p.limit,
    ) by {
        lemma_limit(ds[i], p.limit);
    }
}

/// The forms of a clause are among those behind its keyword.
proof fn lemma_form_is_behind(ds: Seq<Datum>, k: Seq<char>, i: int, m: int) -> (j: int)
    requires
        0 <= i < ds.len(),
        starts_with(ds[i], k),
        0 <= m < ds[i]->List_0.len() - 1,
    ensures
        0 <= j < forms_behind(ds, k).len(),
        forms_behind(ds, k)[j] == ds[i]->List_0[m + 1],
    decreases ds.len(),
{
    let before = ds.drop_last();
    if i == ds.len() - 1 {
        let j = forms_behind(before, k).len() + m;
        assert(forms_behind(ds, k)[j] == ds.last()->List_0.skip(1)[m]);
        j
    } else {
        assert(before[i] == ds[i]);
        let j = lemma_form_is_behind(before, k, i, m);
        assert(forms_behind(ds, k)[j] == forms_behind(before, k)[j]);
        j
    }
}

/// A row of clauses that has parts is well-formed.
proof fn lemma_parts_make_clauses(ds: Seq<Datum>, p: Parts)
    requires
        clauses_have_parts(ds, p),
    ensures
        all_well_formed(ds),
        has_where(added(ds)),
{
    assert forall|i: int| 0 <= i < ds.len() implies clause(#[trigger] ds[i]) is Ok by {
        let items = ds[i]->List_0;
        let fs = items.skip(1);
        assert(head(items) == Some(items[0]->Symbol_0));
        reveal_strlit("where");
        reveal_strlit("prefix");
        reveal_strlit("limit");
        reveal_strlit("order-by");
        assert("where"@[0] == 'w' && "prefix"@[0] == 'p' && "limit"@[0] == 'l' && "order-by"@[0]
            == 'o');
        if starts_with(ds[i], "where"@) {
            let ts = fs.map_values(|f: Datum| triple(f)->Ok_0);
            assert forall|m: int| 0 <= m < triples(fs).len() implies #[trigger] triples(fs)[m]
                == Ok::<Seq<char>, Fault>(ts[m]) by {
                let j = lemma_form_is_behind(ds, "where"@, i, m);
                assert(writes_pattern(forms_behind(ds, "where"@)[j], p.patterns[j]));
                lemma_pattern(forms_behind(ds, "where"@)[j], p.patterns[j]);
                assert(fs[m] == items[m + 1]);
            }
            lemma_values_give_all_ok(triples(fs), ts);
        } else if starts_with(ds[i], "prefix"@) {
            let ts = fs.map_values(|f: Datum| prefix_line(f)->Ok_0);
            assert forall|m: int| 0 <= m < prefix_lines(fs).len() implies #[trigger] prefix_lines(
                fs,
            )[m] == Ok::<Seq<char>, Fault>(ts[m]) by {
                let j = lemma_form_is_behind(ds, "prefix"@, i, m);
                assert(writes_prefix(forms_behind(ds, "prefix"@)[j], p.prefixes[j]));
                lemma_prefix(forms_behind(ds, "prefix"@)[j], p.prefixes[j]);
                assert(fs[m] == items[m + 1]);
            }
            lemma_values_give_all_ok(prefix_lines(fs), ts);
        } else if starts_with(ds[i], "limit"@) {
            let l = choose|l: Seq<char>| #[trigger] writes_limit(ds[i], l);
            lemma_limit(ds[i], l);
        } else {
            let l = choose|l: Seq<char>| #[trigger] writes_order_by(ds[i], l);
            lemma_order_by(ds[i], l);
        }
    }
    let w = choose|w: int| 0 <= w < ds.len() && starts_with(#[trigger] ds[w], "where"@);
    lemma_clause_keyword(ds[w]);
    assert(added(ds)[w] is Where);
}

/// The last clause with a keyword, if there is one.
proof fn lemma_some_is_last(ds: Seq<Datum>, k: Seq<char>) -> (i: int)
    requires
        exists|i: int| 0 <= i < ds.len() && starts_with(#[trigger] ds[i], k),
    ensures
        is_last(ds, k, i),
    decreases ds.len(),
{
    let n = ds.len() - 1;
    if starts_with(ds[n], k) {
        n
    } else {
        let before = ds.drop_last();
        let j = choose|i: int| 0 <= i < ds.len() && starts_with(#[trigger] ds[i], k);
        assert(before[j] == ds[j]);
        let i = lemma_some_is_last(before, k);
        assert(before[i] == ds[i]);
        assert forall|m: int| i < m < ds.len() implies !starts_with(#[trigger] ds[m], k) by {
            if m < n {
                assert(before[m] == ds[m]);
            }
        }
        i
    }
}

/// A row of clauses has its parts in one way only.
proof fn lemma_parts_are_unique(ds: Seq<Datum>, p: Parts, q: Parts)
    requires
        clauses_have_parts(ds, p),
        clauses_have_parts(ds, q),
        p.projection == q.projection,
    ensures
        parts_text(p) == parts_text(q),
{
    assert(p.patterns =~= q.patterns) by {
        assert forall|j: int| 0 <= j < p.patterns.len() implies p.patterns[j] == q.patterns[j] by {
            let f = forms_behind(ds, "where"@)[j];
            assert(writes_pattern(f, p.patterns[j]) && writes_pattern(f, q.patterns[j]));
            lemma_pattern(f, p.patterns[j]);
            lemma_pattern(f, q.patterns[j]);
        }
    }
    assert(p.prefixes =~= q.prefixes) by {
        assert forall|j: int| 0 <= j < p.prefixes.len() implies p.prefixes[j] == q.prefixes[j] by {
            let f = forms_behind(ds, "prefix"@)[j];
            assert(writes_prefix(f, p.prefixes[j]) && writes_prefix(f, q.prefixes[j]));
            lemma_prefix(f, p.prefixes[j]);
            lemma_prefix(f, q.prefixes[j]);
        }
    }
    if exists|i: int| 0 <= i < ds.len() && starts_with(#[trigger] ds[i], "order-by"@) {
        let i = lemma_some_is_last(ds, "order-by"@);
        lemma_order_by(ds[i], p.order);
        lemma_order_by(ds[i], q.order);
    } else {
        assert(p.order =~= q.order);
    }
    if exists|i: int| 0 <= i < ds.len() && starts_with(#[trigger] ds[i], "limit"@) {
        let i = lemma_some_is_last(ds, "limit"@);
        lemma_limit(ds[i], p.limit);
        lemma_limit(ds[i], q.limit);
    } else {
        assert(p.limit =~= q.limit);
    }
}

// ---------------------------------------------------------------------------------------
// The law
// ---------------------------------------------------------------------------------------

/// A query says what its forms say: a datum gives a query if and only if it has parts, and the
/// text of the query is the text of its parts. So its patterns stand in the order of the triples
/// of its `where` clauses, the j-th line with the three terms of the j-th triple, each as it is
/// written; and so with its prefixes, its projection, its order and its limit.
pub proof fn a_query_says_what_its_forms_say(d: Datum)
    ensures
        query(d) matches Ok(q) ==> exists|p: Parts| #[trigger] has_parts(d, p) && q == parts_text(p),
        forall|p: Parts| #[trigger]
            has_parts(d, p) ==> query(d) == Ok::<Seq<char>, Fault>(parts_text(p)),
{
    if let Ok(q) = query(d) {
        lemma_query_has_parts(d);
    }
    assert forall|p: Parts| #[trigger] has_parts(d, p) implies query(d) == Ok::<Seq<char>, Fault>(
        parts_text(p),
    ) by {
        let items = d->List_0;
        let ds = items.skip(2);
        assert(head(items) == Some("select"@));
        lemma_projection(items[1], p.projection);
        lemma_parts_make_clauses(ds, p);
        lemma_well_formed_clauses(ds);
        let proj = projection(items[1])->Ok_0;
        lemma_clauses_have_their_parts(proj, ds);
        lemma_parts_are_unique(ds, p, parts_of(proj, added(ds)));
        lemma_parts_text(proj, added(ds));
    }
}

proof fn lemma_query_has_parts(d: Datum)
    requires
        query(d) is Ok,
    ensures
        exists|p: Parts| #[trigger] has_parts(d, p) && query(d)->Ok_0 == parts_text(p),
{
    let items = d->List_0;
    let ds = items.skip(2);
    lemma_well_formed_clauses(ds);
    let proj = projection(items[1])->Ok_0;
    let p = parts_of(proj, added(ds));
    lemma_clauses_have_their_parts(proj, ds);
    lemma_parts_text(proj, added(ds));
    lemma_projection(items[1], p.projection);
    assert(items[0] == Datum::Symbol("select"@));
    assert(has_parts(d, p));
}

} // verus!
