//! The query compiler: a query-shaped s-expression to a SPARQL SELECT.
//!
//! ```text
//! (select (?a ?b …) | *            ; projection: a var list, or * for all
//!   (prefix (rdf "http://…") …)    ; optional PREFIX lines
//!   (where (S P O) …)              ; triple patterns; S/P/O = ?var | (iri "…")
//!                                  ;   | pfx:local | "string" | integer | a
//!   (order-by ?v (desc ?w) …)      ; optional
//!   (limit N))                     ; optional
//! ```
//!
//! Clauses may stand in any order; the query always comes out in canonical order:
//! PREFIX, SELECT/WHERE, ORDER BY, LIMIT.

use vstd::prelude::*;
use vstd::string::*;

use crate::datum::{Datum, Fault, Sexpr, SexprResult, compile_err, data, lemma_data, text_result};
use crate::lines::{
    all_ok, append_lines, join, joined, lemma_all_ok_fault, lemma_all_ok_step, lemma_texts_push,
    lines, texts,
};
use crate::terms::{
    binding, bracketed, head, head_symbol, iri_form, is_prefixed_name, is_var, list_items,
    prefixed_name, read_binding, render_iri_form, render_statement, statement, symbol_name,
    variable,
};
use crate::text::{decimal, join2, join3, print_decimal, quoted, render_string_literal, same_text};

verus! {

// ---------------------------------------------------------------------------------------
// The query language
// ---------------------------------------------------------------------------------------

/// A symbol as a term: a variable or a prefixed name.
pub open spec fn symbol_term(s: Seq<char>) -> Result<Seq<char>, Fault> {
    if variable(s) || prefixed_name(s) {
        Ok(s)
    } else {
        Err(
            Fault::Compile(
                "unrecognized term symbol `"@ + s
                    + "`; use ?var or pfx:local (full IRIs go in (iri \"…\"))"@,
            ),
        )
    }
}

/// A term in subject or object position.
pub open spec fn term(d: Datum) -> Result<Seq<char>, Fault> {
    match d {
        Datum::Symbol(s) => symbol_term(s),
        Datum::Str(s) => Ok(quoted(s)),
        Datum::Int(n) => Ok(decimal(n as int)),
        Datum::List(items) => match head(items) {
            Some(name) => if name == "iri"@ {
                iri_form(items)
            } else {
                Err(
                    Fault::Compile(
                        "unknown term form `("@ + name
                            + " …)`; only (iri \"…\") is a compound term"@,
                    ),
                )
            },
            None => Err(
                Fault::Compile("a compound term must start with a symbol, e.g. (iri \"…\")"@),
            ),
        },
    }
}

/// A term in predicate position: also the keyword `a`.
pub open spec fn predicate(d: Datum) -> Result<Seq<char>, Fault> {
    if d == Datum::Symbol("a"@) {
        Ok("a"@)
    } else {
        term(d)
    }
}

/// A triple pattern `(S P O)`.
pub open spec fn triple(d: Datum) -> Result<Seq<char>, Fault> {
    match d {
        Datum::List(items) => if items.len() != 3 {
            Err(Fault::Compile("a triple must have exactly three terms (S P O)"@))
        } else {
            match (term(items[0]), predicate(items[1]), term(items[2])) {
                (Err(e), _, _) => Err(e),
                (_, Err(e), _) => Err(e),
                (_, _, Err(e)) => Err(e),
                (Ok(s), Ok(p), Ok(o)) => Ok(statement(s, p, o)),
            }
        },
        _ => Err(Fault::Compile("a triple must be a list (S P O)"@)),
    }
}

/// A prefix binding as a PREFIX line.
pub open spec fn prefix_line(d: Datum) -> Result<Seq<char>, Fault> {
    match binding(d, "prefix name must be a symbol, e.g. rdf"@) {
        Ok((name, iri)) => Ok("PREFIX "@ + name + ": "@ + bracketed(iri)),
        Err(e) => Err(e),
    }
}

/// A variable.
pub open spec fn var(d: Datum) -> Result<Seq<char>, Fault> {
    match d {
        Datum::Symbol(s) => if variable(s) {
            Ok(s)
        } else {
            Err(Fault::Compile("expected a ?variable"@))
        },
        _ => Err(Fault::Compile("expected a ?variable"@)),
    }
}

/// A condition of an ORDER BY: `?v`, `(asc ?v)` or `(desc ?v)`.
pub open spec fn order_condition(d: Datum) -> Result<Seq<char>, Fault> {
    match d {
        Datum::Symbol(s) => if variable(s) {
            Ok(s)
        } else {
            Err(Fault::Compile("order-by symbol must be a ?variable"@))
        },
        Datum::List(items) => if head(items) != Some("asc"@) && head(items) != Some("desc"@) {
            Err(Fault::Compile("order-by direction must be asc or desc"@))
        } else if items.len() != 2 {
            Err(Fault::Compile("(asc …)/(desc …) takes one ?variable"@))
        } else {
            match var(items[1]) {
                Ok(v) => if head(items) == Some("asc"@) {
                    Ok("ASC("@ + v + ")"@)
                } else {
                    Ok("DESC("@ + v + ")"@)
                },
                Err(e) => Err(e),
            }
        },
        _ => Err(Fault::Compile("order-by term must be ?var or (asc ?var)/(desc ?var)"@)),
    }
}

/// The triple patterns of a row of forms.
pub open spec fn triples(ds: Seq<Datum>) -> Seq<Result<Seq<char>, Fault>> {
    ds.map_values(|d: Datum| triple(d))
}

/// The PREFIX lines of a row of forms.
pub open spec fn prefix_lines(ds: Seq<Datum>) -> Seq<Result<Seq<char>, Fault>> {
    ds.map_values(|d: Datum| prefix_line(d))
}

/// The variables of a row of forms.
pub open spec fn vars(ds: Seq<Datum>) -> Seq<Result<Seq<char>, Fault>> {
    ds.map_values(|d: Datum| var(d))
}

/// The ORDER BY conditions of a row of forms.
pub open spec fn order_conditions(ds: Seq<Datum>) -> Seq<Result<Seq<char>, Fault>> {
    ds.map_values(|d: Datum| order_condition(d))
}

/// The projection: `*`, or a non-empty list of variables.
pub open spec fn projection(d: Datum) -> Result<Seq<char>, Fault> {
    if d == Datum::Symbol("*"@) {
        Ok("*"@)
    } else {
        match d {
            Datum::List(items) => if items.len() == 0 {
                Err(Fault::Compile("projection var list is empty; use * to select all"@))
            } else {
                match all_ok(vars(items)) {
                    Ok(vs) => Ok(joined(vs)),
                    Err(e) => Err(e),
                }
            },
            _ => Err(Fault::Compile("projection must be a var list (?a ?b …) or *"@)),
        }
    }
}

/// A `(limit N)` clause: one non-negative integer.
pub open spec fn limit(items: Seq<Datum>) -> Result<Seq<char>, Fault> {
    if items.len() == 2 && items[1] is Int {
        if items[1]->Int_0 >= 0 {
            Ok("LIMIT "@ + decimal(items[1]->Int_0 as int))
        } else {
            Err(Fault::Compile("limit must be a non-negative integer"@))
        }
    } else {
        Err(Fault::Compile("limit takes a single non-negative integer, e.g. (limit 10)"@))
    }
}

/// An `(order-by ...)` clause: one or more conditions.
pub open spec fn order_by(items: Seq<Datum>) -> Result<Seq<char>, Fault> {
    if items.len() == 1 {
        Err(Fault::Compile("order-by needs at least one ?variable"@))
    } else {
        match all_ok(order_conditions(items.skip(1))) {
            Ok(conditions) => Ok("ORDER BY "@ + joined(conditions)),
            Err(e) => Err(e),
        }
    }
}

/// What a clause of a query adds to it.
pub enum Clause {
    /// Triple patterns.
    Where(Seq<Seq<char>>),
    /// PREFIX lines.
    Prefix(Seq<Seq<char>>),
    /// The LIMIT line.
    Limit(Seq<char>),
    /// The ORDER BY line.
    OrderBy(Seq<char>),
}

/// A clause of a query.
pub open spec fn clause(d: Datum) -> Result<Clause, Fault> {
    match d {
        Datum::List(items) => match head(items) {
            None => Err(
                Fault::Compile(
                    "a select clause must start with a keyword (where/prefix/limit/order-by)"@,
                ),
            ),
            Some(name) => if name == "where"@ {
                match all_ok(triples(items.skip(1))) {
                    Ok(ts) => Ok(Clause::Where(ts)),
                    Err(e) => Err(e),
                }
            } else if name == "prefix"@ {
                match all_ok(prefix_lines(items.skip(1))) {
                    Ok(ls) => Ok(Clause::Prefix(ls)),
                    Err(e) => Err(e),
                }
            } else if name == "limit"@ {
                match limit(items) {
                    Ok(l) => Ok(Clause::Limit(l)),
                    Err(e) => Err(e),
                }
            } else if name == "order-by"@ {
                match order_by(items) {
                    Ok(o) => Ok(Clause::OrderBy(o)),
                    Err(e) => Err(e),
                }
            } else {
                Err(
                    Fault::Compile(
                        "unknown select clause `"@ + name
                            + "`; expected where/prefix/limit/order-by"@,
                    ),
                )
            },
        },
        _ => Err(Fault::Compile("each select clause must be a list, e.g. (where …)"@)),
    }
}

/// The clauses of a row of forms.
pub open spec fn clauses(ds: Seq<Datum>) -> Seq<Result<Clause, Fault>> {
    ds.map_values(|d: Datum| clause(d))
}

/// All triple patterns of a row of clauses, in order.
pub open spec fn patterns_of(cs: Seq<Clause>) -> Seq<Seq<char>>
    decreases cs.len(),
{
    if cs.len() == 0 {
        Seq::empty()
    } else {
        match cs.last() {
            Clause::Where(ts) => patterns_of(cs.drop_last()) + ts,
            _ => patterns_of(cs.drop_last()),
        }
    }
}

/// All PREFIX lines of a row of clauses, in order.
pub open spec fn prefixes_of(cs: Seq<Clause>) -> Seq<Seq<char>>
    decreases cs.len(),
{
    if cs.len() == 0 {
        Seq::empty()
    } else {
        match cs.last() {
            Clause::Prefix(ls) => prefixes_of(cs.drop_last()) + ls,
            _ => prefixes_of(cs.drop_last()),
        }
    }
}

/// The last LIMIT line of a row of clauses.
pub open spec fn limit_of(cs: Seq<Clause>) -> Option<Seq<char>>
    decreases cs.len(),
{
    if cs.len() == 0 {
        None
    } else {
        match cs.last() {
            Clause::Limit(l) => Some(l),
            _ => limit_of(cs.drop_last()),
        }
    }
}

/// The last ORDER BY line of a row of clauses.
pub open spec fn order_of(cs: Seq<Clause>) -> Option<Seq<char>>
    decreases cs.len(),
{
    if cs.len() == 0 {
        None
    } else {
        match cs.last() {
            Clause::OrderBy(o) => Some(o),
            _ => order_of(cs.drop_last()),
        }
    }
}

/// Whether a `where` clause is among a row of clauses.
pub open spec fn has_where(cs: Seq<Clause>) -> bool {
    exists|i: int| 0 <= i < cs.len() && #[trigger] cs[i] is Where
}

/// A line of its own, if there is one.
pub open spec fn optional_line(line: Option<Seq<char>>) -> Seq<char> {
    match line {
        Some(l) => "\n"@ + l,
        None => Seq::empty(),
    }
}

/// The text of a query: its parts in canonical order.
pub open spec fn query_text(
    proj: Seq<char>,
    prefixes: Seq<Seq<char>>,
    patterns: Seq<Seq<char>>,
    order: Option<Seq<char>>,
    limit: Option<Seq<char>>,
) -> Seq<char> {
    lines(prefixes, ""@, "\n"@) + "SELECT "@ + proj + " WHERE {"@ + lines(patterns, "\n  "@, ""@)
        + "\n}"@ + optional_line(order) + optional_line(limit)
}

/// The text of a query from its projection and its clauses.
pub open spec fn assembled(proj: Seq<char>, cs: Seq<Clause>) -> Seq<char> {
    query_text(proj, prefixes_of(cs), patterns_of(cs), order_of(cs), limit_of(cs))
}

/// A `(select PROJECTION CLAUSE...)` form.
pub open spec fn select(items: Seq<Datum>) -> Result<Seq<char>, Fault> {
    if items.len() < 2 {
        Err(
            Fault::Compile("select needs a projection: (select (?a …) …) or (select * …)"@),
        )
    } else {
        match (projection(items[1]), all_ok(clauses(items.skip(2)))) {
            (Err(e), _) => Err(e),
            (_, Err(e)) => Err(e),
            (Ok(proj), Ok(cs)) => if !has_where(cs) {
                Err(Fault::Compile("select needs a (where …) clause"@))
            } else {
                Ok(assembled(proj, cs))
            },
        }
    }
}

/// The SPARQL query that a datum stands for.
pub open spec fn query(d: Datum) -> Result<Seq<char>, Fault> {
    match d {
        Datum::List(items) => match head(items) {
            None => Err(Fault::Compile("query must start with a head symbol (e.g. `select`)"@)),
            Some(name) => if name == "select"@ {
                select(items)
            } else {
                Err(
                    Fault::Compile(
                        "unknown query head `"@ + name + "`; only `select` is supported"@,
                    ),
                )
            },
        },
        _ => Err(
            Fault::Compile(
                "query must be a list, e.g. (select (?s ?p ?o) (where (?s ?p ?o)))"@,
            ),
        ),
    }
}

// ---------------------------------------------------------------------------------------
// The compiler
// ---------------------------------------------------------------------------------------

/// Compiles a query-shaped s-expression into a SPARQL query. The head symbol must be `select`;
/// an unknown head, a malformed clause or an unsupported term is an error.
pub fn sexpr_to_sparql(value: &Sexpr) -> (r: SexprResult<String>)
    ensures
        text_result(r) == query(value@),
{
    let items = match list_items(value) {
        Some(items) => items,
        None => {
            return Err(
                compile_err("query must be a list, e.g. (select (?s ?p ?o) (where (?s ?p ?o)))"),
            );
        },
    };
    match head_symbol(items) {
        None => Err(compile_err("query must start with a head symbol (e.g. `select`)")),
        Some(name) => if same_text(name, "select") {
            compile_select(items)
        } else {
            Err(
                compile_err(
                    join3("unknown query head `", name, "`; only `select` is supported").as_str(),
                ),
            )
        },
    }
}

/// What a clause of a query adds to it, rendered.
enum SelectClause {
    Where(Vec<String>),
    Prefix(Vec<String>),
    Limit(String),
    OrderBy(String),
}

impl SelectClause {
    spec fn model(self) -> Clause {
        match self {
            SelectClause::Where(ts) => Clause::Where(texts(ts@)),
            SelectClause::Prefix(ls) => Clause::Prefix(texts(ls@)),
            SelectClause::Limit(l) => Clause::Limit(l@),
            SelectClause::OrderBy(o) => Clause::OrderBy(o@),
        }
    }
}

/// The result of rendering a row of forms, over the mathematical models.
spec fn row_result(r: SexprResult<Vec<String>>) -> Result<Seq<Seq<char>>, Fault> {
    match r {
        Ok(row) => Ok(texts(row@)),
        Err(e) => Err(e@),
    }
}

spec fn optional_text(s: Option<String>) -> Option<Seq<char>> {
    match s {
        Some(s) => Some(s@),
        None => None,
    }
}

/// Compiles a `(select PROJECTION CLAUSE...)` form.
fn compile_select(items: &Vec<Sexpr>) -> (r: SexprResult<String>)
    requires
        items.len() > 0,
    ensures
        text_result(r) == select(data(items@)),
{
    let ghost ds = data(items@);
    let ghost rs = clauses(ds.skip(2));
    proof {
        lemma_data(items@);
    }
    if items.len() < 2 {
        return Err(
            compile_err("select needs a projection: (select (?a …) …) or (select * …)"),
        );
    }
    let proj = match compile_projection(&items[1]) {
        Ok(proj) => proj,
        Err(e) => {
            return Err(e);
        },
    };

    let mut prefixes: Vec<String> = Vec::new();
    let mut patterns: Vec<String> = Vec::new();
    let mut limit: Option<String> = None;
    let mut order: Option<String> = None;
    let mut saw_where = false;
    let ghost mut cs = Seq::<Clause>::empty();
    proof {
        assert(texts(prefixes@) =~= Seq::<Seq<char>>::empty());
        assert(texts(patterns@) =~= Seq::<Seq<char>>::empty());
    }

    let mut i: usize = 2;
    while i < items.len()
        invariant
            2 <= i <= items.len(),
            ds == data(items@),
            ds.len() == items.len(),
            rs == clauses(ds.skip(2)),
            projection(ds[1]) == Ok::<Seq<char>, Fault>(proj@),
            all_ok(rs.take(i - 2)) == Ok::<Seq<Clause>, Fault>(cs),
            texts(prefixes@) == prefixes_of(cs),
            texts(patterns@) == patterns_of(cs),
            optional_text(limit) == limit_of(cs),
            optional_text(order) == order_of(cs),
            saw_where == has_where(cs),
        decreases items.len() - i,
    {
        proof {
            lemma_data(items@);
            lemma_all_ok_step(rs, i - 2);
            assert(rs[i - 2] == clause(items@[i as int]@));
        }
        let compiled = match compile_clause(&items[i]) {
            Ok(compiled) => compiled,
            Err(e) => {
                proof {
                    lemma_all_ok_fault(rs, i - 1);
                }
                return Err(e);
            },
        };
        let ghost before = cs;
        proof {
            cs = cs.push(compiled.model());
            assert(cs.drop_last() =~= before);
            lemma_has_where_push(before, compiled.model());
        }
        match compiled {
            SelectClause::Where(ts) => {
                let mut ts = ts;
                let ghost added = ts@;
                let ghost had = patterns@;
                saw_where = true;
                patterns.append(&mut ts);
                assert(texts(patterns@) =~= texts(had) + texts(added));
            },
            SelectClause::Prefix(ls) => {
                let mut ls = ls;
                let ghost added = ls@;
                let ghost had = prefixes@;
                prefixes.append(&mut ls);
                assert(texts(prefixes@) =~= texts(had) + texts(added));
            },
            SelectClause::Limit(l) => {
                limit = Some(l);
            },
            SelectClause::OrderBy(o) => {
                order = Some(o);
            },
        }
        i = i + 1;
    }
    assert(rs.take(rs.len() as int) =~= rs);
    if !saw_where {
        return Err(compile_err("select needs a (where …) clause"));
    }
    Ok(assemble(&proj, &prefixes, &patterns, &order, &limit))
}

proof fn lemma_has_where_push(cs: Seq<Clause>, c: Clause)
    ensures
        has_where(cs.push(c)) == (has_where(cs) || c is Where),
{
    let all = cs.push(c);
    if has_where(cs) {
        let i = choose|i: int| 0 <= i < cs.len() && #[trigger] cs[i] is Where;
        assert(all[i] is Where);
    }
    if c is Where {
        assert(all[cs.len() as int] is Where);
    }
    if has_where(all) {
        let i = choose|i: int| 0 <= i < all.len() && #[trigger] all[i] is Where;
        if i < cs.len() {
            assert(cs[i] is Where);
        }
    }
}

/// Puts the parts of a query together, in canonical order.
fn assemble(
    proj: &String,
    prefixes: &Vec<String>,
    patterns: &Vec<String>,
    order: &Option<String>,
    limit: &Option<String>,
) -> (out: String)
    ensures
        out@ == query_text(
            proj@,
            texts(prefixes@),
            texts(patterns@),
            optional_text(*order),
            optional_text(*limit),
        ),
{
    let mut out = String::new();
    append_lines(&mut out, prefixes, "", "\n");
    assert(out@ =~= lines(texts(prefixes@), ""@, "\n"@));
    out.append("SELECT ");
    out.append(proj.as_str());
    out.append(" WHERE {");
    append_lines(&mut out, patterns, "\n  ", "");
    out.append("\n}");
    append_optional_line(&mut out, order);
    append_optional_line(&mut out, limit);
    out
}

fn append_optional_line(out: &mut String, line: &Option<String>)
    ensures
        final(out)@ == old(out)@ + optional_line(optional_text(*line)),
{
    match line {
        Some(l) => {
            out.append("\n");
            out.append(l.as_str());
            assert(out@ =~= old(out)@ + ("\n"@ + l@));
        },
        None => {
            assert(out@ =~= old(out)@ + Seq::<char>::empty());
        },
    }
}

/// Compiles one clause of a query.
fn compile_clause(value: &Sexpr) -> (r: SexprResult<SelectClause>)
    ensures
        match (clause(value@), r) {
            (Ok(c), Ok(compiled)) => c == compiled.model(),
            (Err(f), Err(e)) => f == e@,
            _ => false,
        },
{
    let items = match list_items(value) {
        Some(items) => items,
        None => {
            return Err(compile_err("each select clause must be a list, e.g. (where …)"));
        },
    };
    let name = match head_symbol(items) {
        Some(name) => name,
        None => {
            return Err(
                compile_err(
                    "a select clause must start with a keyword (where/prefix/limit/order-by)",
                ),
            );
        },
    };
    if same_text(name, "where") {
        match compile_triples(items) {
            Ok(ts) => Ok(SelectClause::Where(ts)),
            Err(e) => Err(e),
        }
    } else if same_text(name, "prefix") {
        match compile_prefixes(items) {
            Ok(ls) => Ok(SelectClause::Prefix(ls)),
            Err(e) => Err(e),
        }
    } else if same_text(name, "limit") {
        match compile_limit(items) {
            Ok(l) => Ok(SelectClause::Limit(l)),
            Err(e) => Err(e),
        }
    } else if same_text(name, "order-by") {
        match compile_order_by(items) {
            Ok(o) => Ok(SelectClause::OrderBy(o)),
            Err(e) => Err(e),
        }
    } else {
        Err(
            compile_err(
                join3(
                    "unknown select clause `",
                    name,
                    "`; expected where/prefix/limit/order-by",
                ).as_str(),
            ),
        )
    }
}

/// Compiles the projection: `*`, or a non-empty list of variables.
fn compile_projection(value: &Sexpr) -> (r: SexprResult<String>)
    ensures
        text_result(r) == projection(value@),
{
    if let Some(name) = symbol_name(value) {
        if same_text(name, "*") {
            return Ok(String::from_str("*"));
        }
    }
    let items = match list_items(value) {
        Some(items) => items,
        None => {
            return Err(compile_err("projection must be a var list (?a ?b …) or *"));
        },
    };
    if items.len() == 0 {
        return Err(compile_err("projection var list is empty; use * to select all"));
    }
    let ghost rs = vars(data(items@));
    let mut row: Vec<String> = Vec::new();
    let mut i: usize = 0;
    assert(texts(row@) =~= Seq::<Seq<char>>::empty());
    while i < items.len()
        invariant
            i <= items.len(),
            rs == vars(data(items@)),
            value@ == Datum::List(data(items@)),
            items.len() > 0,
            all_ok(rs.take(i as int)) == Ok::<Seq<Seq<char>>, Fault>(texts(row@)),
        decreases items.len() - i,
    {
        proof {
            lemma_data(items@);
            lemma_all_ok_step(rs, i as int);
        }
        match render_var(&items[i]) {
            Ok(v) => {
                proof {
                    lemma_texts_push(row@, v);
                }
                row.push(v);
            },
            Err(e) => {
                proof {
                    lemma_all_ok_fault(rs, i + 1);
                }
                return Err(e);
            },
        }
        i = i + 1;
    }
    proof {
        lemma_data(items@);
        assert(rs.take(rs.len() as int) =~= rs);
    }
    Ok(join(&row))
}

/// Compiles the triple patterns of a `where` clause.
fn compile_triples(items: &Vec<Sexpr>) -> (r: SexprResult<Vec<String>>)
    requires
        items.len() > 0,
    ensures
        row_result(r) == all_ok(triples(data(items@).skip(1))),
{
    let ghost rs = triples(data(items@).skip(1));
    let mut row: Vec<String> = Vec::new();
    let mut i: usize = 1;
    assert(texts(row@) =~= Seq::<Seq<char>>::empty());
    while i < items.len()
        invariant
            1 <= i <= items.len(),
            rs == triples(data(items@).skip(1)),
            all_ok(rs.take(i - 1)) == Ok::<Seq<Seq<char>>, Fault>(texts(row@)),
        decreases items.len() - i,
    {
        proof {
            lemma_data(items@);
            lemma_all_ok_step(rs, i - 1);
        }
        match compile_triple(&items[i]) {
            Ok(t) => {
                proof {
                    lemma_texts_push(row@, t);
                }
                row.push(t);
            },
            Err(e) => {
                proof {
                    lemma_all_ok_fault(rs, i as int);
                }
                return Err(e);
            },
        }
        i = i + 1;
    }
    proof {
        lemma_data(items@);
        assert(rs.take(rs.len() as int) =~= rs);
    }
    Ok(row)
}

/// Compiles the bindings of a `prefix` clause.
fn compile_prefixes(items: &Vec<Sexpr>) -> (r: SexprResult<Vec<String>>)
    requires
        items.len() > 0,
    ensures
        row_result(r) == all_ok(prefix_lines(data(items@).skip(1))),
{
    let ghost rs = prefix_lines(data(items@).skip(1));
    let mut row: Vec<String> = Vec::new();
    let mut i: usize = 1;
    assert(texts(row@) =~= Seq::<Seq<char>>::empty());
    while i < items.len()
        invariant
            1 <= i <= items.len(),
            rs == prefix_lines(data(items@).skip(1)),
            all_ok(rs.take(i - 1)) == Ok::<Seq<Seq<char>>, Fault>(texts(row@)),
        decreases items.len() - i,
    {
        proof {
            lemma_data(items@);
            lemma_all_ok_step(rs, i - 1);
        }
        match compile_prefix(&items[i]) {
            Ok(l) => {
                proof {
                    lemma_texts_push(row@, l);
                }
                row.push(l);
            },
            Err(e) => {
                proof {
                    lemma_all_ok_fault(rs, i as int);
                }
                return Err(e);
            },
        }
        i = i + 1;
    }
    proof {
        lemma_data(items@);
        assert(rs.take(rs.len() as int) =~= rs);
    }
    Ok(row)
}

/// Compiles a triple pattern.
fn compile_triple(value: &Sexpr) -> (r: SexprResult<String>)
    ensures
        text_result(r) == triple(value@),
{
    let items = match list_items(value) {
        Some(items) => items,
        None => {
            return Err(compile_err("a triple must be a list (S P O)"));
        },
    };
    if items.len() != 3 {
        return Err(compile_err("a triple must have exactly three terms (S P O)"));
    }
    proof {
        lemma_data(items@);
    }
    let s = match render_term(&items[0]) {
        Ok(s) => s,
        Err(e) => {
            return Err(e);
        },
    };
    let p = match render_predicate(&items[1]) {
        Ok(p) => p,
        Err(e) => {
            return Err(e);
        },
    };
    let o = match render_term(&items[2]) {
        Ok(o) => o,
        Err(e) => {
            return Err(e);
        },
    };
    Ok(render_statement(s.as_str(), p.as_str(), o.as_str()))
}

/// Compiles a prefix binding into a PREFIX line.
fn compile_prefix(value: &Sexpr) -> (r: SexprResult<String>)
    ensures
        text_result(r) == prefix_line(value@),
{
    match read_binding(value, "prefix name must be a symbol, e.g. rdf") {
        Ok((name, iri)) => {
            let iri_ref = join3("<", iri.as_str(), ">");
            Ok(join3("PREFIX ", name.as_str(), ": ").concat(iri_ref.as_str()))
        },
        Err(e) => Err(e),
    }
}

/// Compiles a `(limit N)` clause.
fn compile_limit(items: &Vec<Sexpr>) -> (r: SexprResult<String>)
    ensures
        text_result(r) == limit(data(items@)),
{
    proof {
        lemma_data(items@);
    }
    if items.len() == 2 {
        if let Sexpr::Int(n) = &items[1] {
            return if *n >= 0 {
                Ok(join2("LIMIT ", print_decimal(*n).as_str()))
            } else {
                Err(compile_err("limit must be a non-negative integer"))
            };
        }
    }
    Err(compile_err("limit takes a single non-negative integer, e.g. (limit 10)"))
}

/// Compiles an `(order-by ?v (desc ?w) ...)` clause.
fn compile_order_by(items: &Vec<Sexpr>) -> (r: SexprResult<String>)
    requires
        items.len() > 0,
    ensures
        text_result(r) == order_by(data(items@)),
{
    proof {
        lemma_data(items@);
    }
    if items.len() == 1 {
        return Err(compile_err("order-by needs at least one ?variable"));
    }
    let ghost rs = order_conditions(data(items@).skip(1));
    let mut row: Vec<String> = Vec::new();
    let mut i: usize = 1;
    assert(texts(row@) =~= Seq::<Seq<char>>::empty());
    while i < items.len()
        invariant
            1 <= i <= items.len(),
            items.len() > 1,
            rs == order_conditions(data(items@).skip(1)),
            all_ok(rs.take(i - 1)) == Ok::<Seq<Seq<char>>, Fault>(texts(row@)),
        decreases items.len() - i,
    {
        proof {
            lemma_data(items@);
            lemma_all_ok_step(rs, i - 1);
        }
        match render_order_condition(&items[i]) {
            Ok(c) => {
                proof {
                    lemma_texts_push(row@, c);
                }
                row.push(c);
            },
            Err(e) => {
                proof {
                    lemma_all_ok_fault(rs, i as int);
                }
                return Err(e);
            },
        }
        i = i + 1;
    }
    proof {
        lemma_data(items@);
        assert(rs.take(rs.len() as int) =~= rs);
    }
    Ok(join2("ORDER BY ", join(&row).as_str()))
}

/// Renders an ORDER BY condition.
fn render_order_condition(value: &Sexpr) -> (r: SexprResult<String>)
    ensures
        text_result(r) == order_condition(value@),
{
    if let Some(s) = symbol_name(value) {
        return if is_var(s) {
            Ok(String::from_str(s))
        } else {
            Err(compile_err("order-by symbol must be a ?variable"))
        };
    }
    let items = match list_items(value) {
        Some(items) => items,
        None => {
            return Err(compile_err("order-by term must be ?var or (asc ?var)/(desc ?var)"));
        },
    };
    let ascending = match head_symbol(items) {
        Some(name) => if same_text(name, "asc") {
            true
        } else if same_text(name, "desc") {
            false
        } else {
            return Err(compile_err("order-by direction must be asc or desc"));
        },
        None => {
            return Err(compile_err("order-by direction must be asc or desc"));
        },
    };
    if items.len() != 2 {
        return Err(compile_err("(asc …)/(desc …) takes one ?variable"));
    }
    proof {
        lemma_data(items@);
    }
    match render_var(&items[1]) {
        Ok(v) => if ascending {
            Ok(join3("ASC(", v.as_str(), ")"))
        } else {
            Ok(join3("DESC(", v.as_str(), ")"))
        },
        Err(e) => Err(e),
    }
}

/// Renders a term in subject or object position.
fn render_term(value: &Sexpr) -> (r: SexprResult<String>)
    ensures
        text_result(r) == term(value@),
{
    match value {
        Sexpr::Symbol(s) => render_symbol_term(s.as_str()),
        Sexpr::Str(s) => Ok(render_string_literal(s.as_str())),
        Sexpr::Int(n) => Ok(print_decimal(*n)),
        Sexpr::List(items) => match head_symbol(items) {
            Some(name) => if same_text(name, "iri") {
                render_iri_form(items)
            } else {
                Err(
                    compile_err(
                        join3(
                            "unknown term form `(",
                            name,
                            " …)`; only (iri \"…\") is a compound term",
                        ).as_str(),
                    ),
                )
            },
            None => Err(
                compile_err("a compound term must start with a symbol, e.g. (iri \"…\")"),
            ),
        },
    }
}

/// Renders a term in predicate position: also the keyword `a`.
fn render_predicate(value: &Sexpr) -> (r: SexprResult<String>)
    ensures
        text_result(r) == predicate(value@),
{
    if let Some(name) = symbol_name(value) {
        if same_text(name, "a") {
            return Ok(String::from_str("a"));
        }
    }
    render_term(value)
}

/// Renders a symbol as a term: a variable or a prefixed name.
fn render_symbol_term(s: &str) -> (r: SexprResult<String>)
    ensures
        text_result(r) == symbol_term(s@),
{
    if is_var(s) || is_prefixed_name(s) {
        Ok(String::from_str(s))
    } else {
        Err(
            compile_err(
                join3(
                    "unrecognized term symbol `",
                    s,
                    "`; use ?var or pfx:local (full IRIs go in (iri \"…\"))",
                ).as_str(),
            ),
        )
    }
}

/// Renders a variable.
fn render_var(value: &Sexpr) -> (r: SexprResult<String>)
    ensures
        text_result(r) == var(value@),
{
    if let Some(s) = symbol_name(value) {
        if is_var(s) {
            return Ok(String::from_str(s));
        }
    }
    Err(compile_err("expected a ?variable"))
}

} // verus!
