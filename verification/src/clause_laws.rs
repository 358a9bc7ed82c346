//! Laws of the clauses of a query: they may stand in any order, and each part of a query has a
//! line of its own.

use vstd::prelude::*;

use crate::compile_laws::{
    a_query_is_made_of_tokens, bare_word, condition_of_tokens, enclosed_iri, keyword,
    lemma_decimal_is_bare, lemma_variable_is_bare, limit_of_tokens, order_of_tokens,
    parts_of_tokens, pattern_of_tokens, prefix_of_tokens, projection_of_tokens, query_token,
    quoted_literal, quoted_text_is_one_line,
};
use crate::datum::{Datum, Fault};
use crate::lines::{all_ok, joined, lemma_all_ok_values, lines};
use crate::sparql::{
    Clause, clause, clauses, has_where, limit_of, optional_line, order_of, patterns_of,
    prefix_lines, prefixes_of, projection, query, query_text, triples,
};
use crate::terms::{bracketed, iri_text, pn_prefix, statement, variable};
use crate::text::{decimal, quoted};

verus! {

// ---------------------------------------------------------------------------------------
// The order of clauses
// ---------------------------------------------------------------------------------------

/// The clauses of a row with the given keyword, in order.
pub open spec fn of_keyword(ds: Seq<Datum>, k: Option<Seq<char>>) -> Seq<Datum>
    decreases ds.len(),
{
    if ds.len() == 0 {
        Seq::empty()
    } else if keyword(ds.last()) == k {
        of_keyword(ds.drop_last(), k).push(ds.last())
    } else {
        of_keyword(ds.drop_last(), k)
    }
}

/// Whether two rows hold the same clauses, and those with the same keyword in the same order.
pub open spec fn reordered(cs: Seq<Datum>, ds: Seq<Datum>) -> bool {
    forall|k: Option<Seq<char>>| #[trigger] of_keyword(cs, k) == of_keyword(ds, k)
}

/// The query with the given projection and clauses.
pub open spec fn selection(proj: Datum, cs: Seq<Datum>) -> Datum {
    Datum::List(seq![Datum::Symbol("select"@), proj] + cs)
}

proof fn lemma_of_keyword_has(ds: Seq<Datum>, i: int)
    requires
        0 <= i < ds.len(),
    ensures
        of_keyword(ds, keyword(ds[i])).contains(ds[i]),
    decreases ds.len(),
{
    let k = keyword(ds[i]);
    let row = of_keyword(ds, k);
    if i == ds.len() - 1 {
        assert(row.last() == ds[i]);
    } else {
        lemma_of_keyword_has(ds.drop_last(), i);
        let before = of_keyword(ds.drop_last(), k);
        let j = choose|j: int| 0 <= j < before.len() && before[j] == ds[i];
        assert(row[j] == before[j]);
    }
}

proof fn lemma_of_keyword_is_of(ds: Seq<Datum>, k: Option<Seq<char>>, j: int)
    requires
        0 <= j < of_keyword(ds, k).len(),
    ensures
        keyword(of_keyword(ds, k)[j]) == k,
        exists|i: int| 0 <= i < ds.len() && #[trigger] ds[i] == of_keyword(ds, k)[j],
    decreases ds.len(),
{
    let before = of_keyword(ds.drop_last(), k);
    if j < before.len() {
        lemma_of_keyword_is_of(ds.drop_last(), k, j);
        let i = choose|i: int|
            0 <= i < ds.len() - 1 && #[trigger] ds.drop_last()[i] == before[j];
        assert(ds[i] == of_keyword(ds, k)[j]);
    } else {
        assert(ds[ds.len() - 1] == of_keyword(ds, k)[j]);
    }
}

/// Whether every clause of a row is well-formed.
pub open spec fn all_well_formed(ds: Seq<Datum>) -> bool {
    forall|i: int| 0 <= i < ds.len() ==> clause(#[trigger] ds[i]) is Ok
}

proof fn lemma_reordered_is_well_formed(cs: Seq<Datum>, ds: Seq<Datum>)
    requires
        reordered(cs, ds),
        all_well_formed(cs),
    ensures
        all_well_formed(ds),
{
    assert forall|i: int| 0 <= i < ds.len() implies clause(#[trigger] ds[i]) is Ok by {
        let k = keyword(ds[i]);
        lemma_of_keyword_has(ds, i);
        assert(of_keyword(cs, k) == of_keyword(ds, k));
        let j = choose|j: int| 0 <= j < of_keyword(cs, k).len() && of_keyword(cs, k)[j] == ds[i];
        lemma_of_keyword_is_of(cs, k, j);
    }
}

/// What the clauses of a row add to a query.
pub open spec fn added(ds: Seq<Datum>) -> Seq<Clause> {
    ds.map_values(|d: Datum| clause(d)->Ok_0)
}

/// A row of results that are all values gives those values.
pub proof fn lemma_values_give_all_ok<T>(rs: Seq<Result<T, Fault>>, ts: Seq<T>)
    requires
        rs.len() == ts.len(),
        forall|i: int| 0 <= i < rs.len() ==> #[trigger] rs[i] == Ok::<T, Fault>(ts[i]),
    ensures
        all_ok(rs) == Ok::<Seq<T>, Fault>(ts),
    decreases rs.len(),
{
    if rs.len() > 0 {
        assert forall|i: int| 0 <= i < rs.len() - 1 implies #[trigger] rs.drop_last()[i] == Ok::<
            T,
            Fault,
        >(ts.drop_last()[i]) by {
            assert(rs[i] == Ok::<T, Fault>(ts[i]));
        }
        lemma_values_give_all_ok(rs.drop_last(), ts.drop_last());
        assert(rs[rs.len() - 1] == Ok::<T, Fault>(ts.last()));
        assert(ts.drop_last().push(ts.last()) =~= ts);
    } else {
        assert(ts =~= Seq::<T>::empty());
    }
}

/// The clauses of a row give values if each of them is well-formed.
pub proof fn lemma_well_formed_clauses(ds: Seq<Datum>)
    ensures
        all_well_formed(ds) <==> all_ok(clauses(ds)) is Ok,
        all_well_formed(ds) ==> all_ok(clauses(ds)) == Ok::<Seq<Clause>, Fault>(added(ds)),
{
    let rs = clauses(ds);
    lemma_all_ok_values(rs);
    if all_ok(rs) is Ok {
        assert forall|i: int| 0 <= i < ds.len() implies clause(#[trigger] ds[i]) is Ok by {
            assert(rs[i] == clause(ds[i]));
        }
    }
    if all_well_formed(ds) {
        assert forall|i: int| 0 <= i < rs.len() implies #[trigger] rs[i] == Ok::<Clause, Fault>(
            added(ds)[i],
        ) by {
            assert(clause(ds[i]) is Ok);
        }
        lemma_values_give_all_ok(rs, added(ds));
    }
}

/// The keyword of a clause tells what it adds.
pub proof fn lemma_keyword_tells_the_kind(d: Datum)
    requires
        clause(d) is Ok,
    ensures
        clause(d)->Ok_0 is Where <==> keyword(d) == Some("where"@),
        clause(d)->Ok_0 is Prefix <==> keyword(d) == Some("prefix"@),
        clause(d)->Ok_0 is Limit <==> keyword(d) == Some("limit"@),
        clause(d)->Ok_0 is OrderBy <==> keyword(d) == Some("order-by"@),
{
    reveal_strlit("where");
    reveal_strlit("prefix");
    reveal_strlit("limit");
    reveal_strlit("order-by");
    assert("where"@[0] == 'w');
    assert("prefix"@[0] == 'p');
    assert("limit"@[0] == 'l');
    assert("order-by"@[0] == 'o');
}

/// Each part of a query comes from the clauses with its keyword alone.
proof fn lemma_parts_by_keyword(ds: Seq<Datum>)
    requires
        all_well_formed(ds),
    ensures
        patterns_of(added(ds)) == patterns_of(added(of_keyword(ds, Some("where"@)))),
        prefixes_of(added(ds)) == prefixes_of(added(of_keyword(ds, Some("prefix"@)))),
        limit_of(added(ds)) == limit_of(added(of_keyword(ds, Some("limit"@)))),
        order_of(added(ds)) == order_of(added(of_keyword(ds, Some("order-by"@)))),
    decreases ds.len(),
{
    if ds.len() > 0 {
        let before = ds.drop_last();
        assert forall|i: int| 0 <= i < before.len() implies clause(#[trigger] before[i]) is Ok by {
            assert(before[i] == ds[i]);
        }
        lemma_parts_by_keyword(before);
        let last = ds[ds.len() - 1];
        lemma_keyword_tells_the_kind(last);
        assert(added(ds).drop_last() =~= added(before));
        lemma_added_push(before, Some("where"@), last);
        lemma_added_push(before, Some("prefix"@), last);
        lemma_added_push(before, Some("limit"@), last);
        lemma_added_push(before, Some("order-by"@), last);
    }
}

proof fn lemma_added_push(before: Seq<Datum>, k: Option<Seq<char>>, d: Datum)
    ensures
        added(of_keyword(before, k).push(d)).drop_last() == added(of_keyword(before, k)),
        added(of_keyword(before, k).push(d)).last() == clause(d)->Ok_0,
{
    assert(added(of_keyword(before, k).push(d)).drop_last() =~= added(of_keyword(before, k)));
}

proof fn lemma_where_by_keyword(ds: Seq<Datum>)
    requires
        all_well_formed(ds),
    ensures
        has_where(added(ds)) <==> of_keyword(ds, Some("where"@)).len() > 0,
{
    let row = of_keyword(ds, Some("where"@));
    if has_where(added(ds)) {
        let i = choose|i: int| 0 <= i < added(ds).len() && #[trigger] added(ds)[i] is Where;
        lemma_keyword_tells_the_kind(ds[i]);
        lemma_of_keyword_has(ds, i);
    }
    if row.len() > 0 {
        lemma_of_keyword_is_of(ds, Some("where"@), 0);
        let i = choose|i: int| 0 <= i < ds.len() && #[trigger] ds[i] == row[0];
        lemma_keyword_tells_the_kind(ds[i]);
        assert(added(ds)[i] is Where);
    }
}

/// The clauses of a query may stand in any order: of two rows of the same clauses, with those of
/// one keyword in the same order, either both give a query or neither does, and the two queries
/// are the same.
pub proof fn clauses_may_stand_in_any_order(proj: Datum, cs: Seq<Datum>, ds: Seq<Datum>)
    requires
        reordered(cs, ds),
    ensures
        query(selection(proj, cs)) is Ok <==> query(selection(proj, ds)) is Ok,
        query(selection(proj, cs)) is Ok ==> query(selection(proj, cs)) == query(
            selection(proj, ds),
        ),
{
    assert((seq![Datum::Symbol("select"@), proj] + cs).skip(2) =~= cs);
    assert((seq![Datum::Symbol("select"@), proj] + ds).skip(2) =~= ds);
    lemma_well_formed_clauses(cs);
    lemma_well_formed_clauses(ds);
    if all_well_formed(cs) {
        lemma_reordered_is_well_formed(cs, ds);
    }
    assert(reordered(ds, cs)) by {
        assert forall|k: Option<Seq<char>>| #[trigger] of_keyword(ds, k) == of_keyword(cs, k) by {
            assert(of_keyword(cs, k) == of_keyword(ds, k));
        }
    }
    if all_well_formed(ds) {
        lemma_reordered_is_well_formed(ds, cs);
        lemma_parts_by_keyword(cs);
        lemma_parts_by_keyword(ds);
        lemma_where_by_keyword(cs);
        lemma_where_by_keyword(ds);
        assert(of_keyword(cs, Some("where"@)) == of_keyword(ds, Some("where"@)));
        assert(of_keyword(cs, Some("prefix"@)) == of_keyword(ds, Some("prefix"@)));
        assert(of_keyword(cs, Some("limit"@)) == of_keyword(ds, Some("limit"@)));
        assert(of_keyword(cs, Some("order-by"@)) == of_keyword(ds, Some("order-by"@)));
    }
}

// ---------------------------------------------------------------------------------------
// Lines
// ---------------------------------------------------------------------------------------

/// How many line feeds a text has.
pub open spec fn line_feeds(t: Seq<char>) -> nat
    decreases t.len(),
{
    if t.len() == 0 {
        0
    } else {
        line_feeds(t.drop_last()) + (if t.last() == '\n' {
            1nat
        } else {
            0nat
        })
    }
}

/// How many forms stand behind the keyword in all clauses of a row with that keyword.
pub open spec fn forms_under(ds: Seq<Datum>, k: Seq<char>) -> nat
    decreases ds.len(),
{
    if ds.len() == 0 {
        0
    } else if keyword(ds.last()) == Some(k) {
        forms_under(ds.drop_last(), k) + (ds.last()->List_0.len() - 1) as nat
    } else {
        forms_under(ds.drop_last(), k)
    }
}

spec fn one_line(t: Seq<char>) -> bool {
    forall|i: int| 0 <= i < t.len() ==> #[trigger] t[i] != '\n'
}

proof fn lemma_one_line_add(a: Seq<char>, b: Seq<char>)
    requires
        one_line(a),
        one_line(b),
    ensures
        one_line(a + b),
{
}

proof fn lemma_line_feeds_add(a: Seq<char>, b: Seq<char>)
    ensures
        line_feeds(a + b) == line_feeds(a) + line_feeds(b),
    decreases b.len(),
{
    if b.len() > 0 {
        assert((a + b).drop_last() =~= a + b.drop_last());
        lemma_line_feeds_add(a, b.drop_last());
    } else {
        assert(a + b =~= a);
    }
}

proof fn lemma_one_line_has_no_feed(t: Seq<char>)
    requires
        one_line(t),
    ensures
        line_feeds(t) == 0,
    decreases t.len(),
{
    if t.len() > 0 {
        assert forall|i: int| 0 <= i < t.len() - 1 implies #[trigger] t.drop_last()[i] != '\n' by {
            assert(t[i] != '\n');
        }
        lemma_one_line_has_no_feed(t.drop_last());
        assert(t[t.len() - 1] != '\n');
    }
}

proof fn lemma_feeds_of_lines(row: Seq<Seq<char>>, before: Seq<char>, after: Seq<char>)
    requires
        forall|i: int| 0 <= i < row.len() ==> one_line(#[trigger] row[i]),
        line_feeds(before) + line_feeds(after) == 1,
    ensures
        line_feeds(lines(row, before, after)) == row.len(),
    decreases row.len(),
{
    if row.len() > 0 {
        assert forall|i: int| 0 <= i < row.len() - 1 implies one_line(
            #[trigger] row.drop_last()[i],
        ) by {
            assert(one_line(row[i]));
        }
        lemma_feeds_of_lines(row.drop_last(), before, after);
        let done = lines(row.drop_last(), before, after);
        assert(one_line(row[row.len() - 1]));
        lemma_one_line_has_no_feed(row.last());
        lemma_line_feeds_add(done + before + row.last(), after);
        lemma_line_feeds_add(done + before, row.last());
        lemma_line_feeds_add(done, before);
    }
}

proof fn lemma_joined_is_one_line(row: Seq<Seq<char>>)
    requires
        forall|i: int| 0 <= i < row.len() ==> one_line(#[trigger] row[i]),
    ensures
        one_line(joined(row)),
    decreases row.len(),
{
    if row.len() > 0 {
        assert(one_line(row[0]));
        if row.len() > 1 {
            assert forall|i: int| 0 <= i < row.len() - 1 implies one_line(
                #[trigger] row.drop_last()[i],
            ) by {
                assert(one_line(row[i]));
            }
            lemma_joined_is_one_line(row.drop_last());
            reveal_strlit(" ");
            assert(one_line(row[row.len() - 1]));
            lemma_one_line_add(joined(row.drop_last()), " "@);
            lemma_one_line_add(joined(row.drop_last()) + " "@, row.last());
        }
    }
}

proof fn lemma_token_is_one_line(t: Seq<char>)
    requires
        query_token(t),
    ensures
        one_line(t),
{
    if enclosed_iri(t) {
        let s = choose|s: Seq<char>| #[trigger] iri_text(s) && t == bracketed(s);
        reveal_strlit("<");
        reveal_strlit(">");
        assert(one_line(s));
        lemma_one_line_add("<"@, s);
        lemma_one_line_add("<"@ + s, ">"@);
    } else if quoted_literal(t) {
        let s = choose|s: Seq<char>| t == #[trigger] quoted(s);
        quoted_text_is_one_line(s);
    } else {
        assert(bare_word(t));
    }
}

proof fn lemma_variable_is_one_line(v: Seq<char>)
    requires
        variable(v),
    ensures
        one_line(v),
{
    lemma_variable_is_bare(v);
    lemma_token_is_one_line(v);
}

proof fn lemma_pattern_is_one_line(line: Seq<char>)
    requires
        pattern_of_tokens(line),
    ensures
        one_line(line),
{
    let (s, p, o) = choose|s: Seq<char>, p: Seq<char>, o: Seq<char>|
        query_token(s) && query_token(p) && query_token(o) && line == #[trigger] statement(s, p, o);
    lemma_token_is_one_line(s);
    lemma_token_is_one_line(p);
    lemma_token_is_one_line(o);
    reveal_strlit(" ");
    reveal_strlit(" .");
    lemma_one_line_add(s, " "@);
    lemma_one_line_add(s + " "@, p);
    lemma_one_line_add(s + " "@ + p, " "@);
    lemma_one_line_add(s + " "@ + p + " "@, o);
    lemma_one_line_add(s + " "@ + p + " "@ + o, " ."@);
}

proof fn lemma_prefix_is_one_line(line: Seq<char>)
    requires
        prefix_of_tokens(line),
    ensures
        one_line(line),
{
    let (name, iri) = choose|name: Seq<char>, iri: Seq<char>|
        pn_prefix(name) && enclosed_iri(iri) && line == #[trigger] ("PREFIX "@ + name
            + ": "@ + iri);
    lemma_token_is_one_line(iri);
    reveal_strlit("PREFIX ");
    reveal_strlit(": ");
    assert(one_line(name));
    lemma_one_line_add("PREFIX "@, name);
    lemma_one_line_add("PREFIX "@ + name, ": "@);
    lemma_one_line_add("PREFIX "@ + name + ": "@, iri);
}

proof fn lemma_projection_is_one_line(proj: Seq<char>)
    requires
        projection_of_tokens(proj),
    ensures
        one_line(proj),
{
    reveal_strlit("*");
    if proj != "*"@ {
        let vs = choose|vs: Seq<Seq<char>>|
            proj == #[trigger] joined(vs) && vs.len() > 0 && (forall|i: int|
                0 <= i < vs.len() ==> variable(#[trigger] vs[i]));
        assert forall|i: int| 0 <= i < vs.len() implies one_line(#[trigger] vs[i]) by {
            lemma_variable_is_one_line(vs[i]);
        }
        lemma_joined_is_one_line(vs);
    }
}

proof fn lemma_order_is_one_line(line: Seq<char>)
    requires
        order_of_tokens(line),
    ensures
        one_line(line),
{
    let cs = choose|cs: Seq<Seq<char>>|
        line == #[trigger] ("ORDER BY "@ + joined(cs)) && cs.len() > 0 && (forall|i: int|
            0 <= i < cs.len() ==> condition_of_tokens(#[trigger] cs[i]));
    reveal_strlit("ORDER BY ");
    reveal_strlit("ASC(");
    reveal_strlit("DESC(");
    reveal_strlit(")");
    assert forall|i: int| 0 <= i < cs.len() implies one_line(#[trigger] cs[i]) by {
        let c = cs[i];
        assert(condition_of_tokens(c));
        let v = choose|v: Seq<char>| #[trigger]
            variable(v) && (c == v || c == "ASC("@ + v + ")"@ || c == "DESC("@ + v + ")"@);
        lemma_variable_is_one_line(v);
        lemma_one_line_add("ASC("@, v);
        lemma_one_line_add("ASC("@ + v, ")"@);
        lemma_one_line_add("DESC("@, v);
        lemma_one_line_add("DESC("@ + v, ")"@);
    }
    lemma_joined_is_one_line(cs);
    lemma_one_line_add("ORDER BY "@, joined(cs));
}

proof fn lemma_limit_is_one_line(line: Seq<char>)
    requires
        limit_of_tokens(line),
    ensures
        one_line(line),
{
    let n = choose|n: i64| n >= 0 && line == #[trigger] ("LIMIT "@ + decimal(n as int));
    reveal_strlit("LIMIT ");
    lemma_decimal_is_bare(n as int);
    lemma_token_is_one_line(decimal(n as int));
    lemma_one_line_add("LIMIT "@, decimal(n as int));
}

proof fn lemma_feeds_of_optional_line(line: Option<Seq<char>>)
    requires
        line matches Some(l) ==> one_line(l),
    ensures
        line_feeds(optional_line(line)) == (if line is Some {
            1nat
        } else {
            0nat
        }),
{
    if let Some(l) = line {
        lemma_feed();
        lemma_one_line_has_no_feed(l);
        lemma_line_feeds_add("\n"@, l);
    }
}

proof fn lemma_feed()
    ensures
        line_feeds("\n"@) == 1,
{
    reveal_strlit("\n");
    assert("\n"@.drop_last() =~= Seq::<char>::empty());
    assert(line_feeds(Seq::<char>::empty()) == 0);
    assert("\n"@.last() == '\n');
}

proof fn lemma_feeds_of_query_text(
    proj: Seq<char>,
    prefixes: Seq<Seq<char>>,
    patterns: Seq<Seq<char>>,
    order: Option<Seq<char>>,
    limit: Option<Seq<char>>,
)
    requires
        parts_of_tokens(proj, prefixes, patterns, order, limit),
    ensures
        line_feeds(query_text(proj, prefixes, patterns, order, limit)) == prefixes.len()
            + patterns.len() + 1 + (if order is Some {
            1nat
        } else {
            0nat
        }) + (if limit is Some {
            1nat
        } else {
            0nat
        }),
{
    lemma_projection_is_one_line(proj);
    assert forall|i: int| 0 <= i < prefixes.len() implies one_line(#[trigger] prefixes[i]) by {
        lemma_prefix_is_one_line(prefixes[i]);
    }
    assert forall|i: int| 0 <= i < patterns.len() implies one_line(#[trigger] patterns[i]) by {
        lemma_pattern_is_one_line(patterns[i]);
    }
    if let Some(o) = order {
        lemma_order_is_one_line(o);
    }
    if let Some(l) = limit {
        lemma_limit_is_one_line(l);
    }
    lemma_feed();
    reveal_strlit("");
    reveal_strlit("SELECT ");
    reveal_strlit(" WHERE {");
    reveal_strlit("\n");
    reveal_strlit("  ");
    reveal_strlit("\n  ");
    reveal_strlit("}");
    reveal_strlit("\n}");
    lemma_one_line_has_no_feed(""@);
    lemma_one_line_has_no_feed("SELECT "@);
    lemma_one_line_has_no_feed(" WHERE {"@);
    lemma_one_line_has_no_feed("  "@);
    lemma_one_line_has_no_feed("}"@);
    lemma_one_line_has_no_feed(proj);
    assert("\n  "@ =~= "\n"@ + "  "@);
    assert("\n}"@ =~= "\n"@ + "}"@);
    lemma_line_feeds_add("\n"@, "  "@);
    lemma_line_feeds_add("\n"@, "}"@);
    lemma_feeds_of_lines(prefixes, ""@, "\n"@);
    lemma_feeds_of_lines(patterns, "\n  "@, ""@);
    lemma_feeds_of_optional_line(order);
    lemma_feeds_of_optional_line(limit);
    let t1 = lines(prefixes, ""@, "\n"@);
    let t2 = t1 + "SELECT "@;
    let t3 = t2 + proj;
    let t4 = t3 + " WHERE {"@;
    let t5 = t4 + lines(patterns, "\n  "@, ""@);
    let t6 = t5 + "\n}"@;
    let t7 = t6 + optional_line(order);
    lemma_line_feeds_add(t1, "SELECT "@);
    lemma_line_feeds_add(t2, proj);
    lemma_line_feeds_add(t3, " WHERE {"@);
    lemma_line_feeds_add(t4, lines(patterns, "\n  "@, ""@));
    lemma_line_feeds_add(t5, "\n}"@);
    lemma_line_feeds_add(t6, optional_line(order));
    lemma_line_feeds_add(t7, optional_line(limit));
}

/// The parts of a query, counted in its clauses.
proof fn lemma_parts_are_counted(ds: Seq<Datum>)
    requires
        all_well_formed(ds),
    ensures
        patterns_of(added(ds)).len() == forms_under(ds, "where"@),
        prefixes_of(added(ds)).len() == forms_under(ds, "prefix"@),
        limit_of(added(ds)) is Some <==> of_keyword(ds, Some("limit"@)).len() > 0,
        order_of(added(ds)) is Some <==> of_keyword(ds, Some("order-by"@)).len() > 0,
    decreases ds.len(),
{
    if ds.len() > 0 {
        let before = ds.drop_last();
        assert forall|i: int| 0 <= i < before.len() implies clause(#[trigger] before[i]) is Ok by {
            assert(before[i] == ds[i]);
        }
        lemma_parts_are_counted(before);
        assert(added(ds).drop_last() =~= added(before));
        let last = ds[ds.len() - 1];
        lemma_keyword_tells_the_kind(last);
        let items = last->List_0;
        lemma_all_ok_values(triples(items.skip(1)));
        lemma_all_ok_values(prefix_lines(items.skip(1)));
    }
}

/// Each part of a query has a line of its own: a query has one line feed for each binding of its
/// `prefix` clauses, one for each triple of its `where` clauses, one for the closing brace, and
/// one each for an ORDER BY and a LIMIT.
pub proof fn each_part_of_a_query_has_a_line(d: Datum)
    ensures
        query(d) matches Ok(q) ==> {
            let ds = d->List_0.skip(2);
            line_feeds(q) == forms_under(ds, "prefix"@) + forms_under(ds, "where"@) + 1 + (
            if of_keyword(ds, Some("order-by"@)).len() > 0 {
                1nat
            } else {
                0nat
            }) + (if of_keyword(ds, Some("limit"@)).len() > 0 {
                1nat
            } else {
                0nat
            })
        },
{
    if let Ok(q) = query(d) {
        let ds = d->List_0.skip(2);
        lemma_well_formed_clauses(ds);
        lemma_parts_are_counted(ds);
        let cs = added(ds);
        let proj = projection(d->List_0[1])->Ok_0;
        a_query_is_made_of_tokens(d);
        assert(q == query_text(
            proj,
            prefixes_of(cs),
            patterns_of(cs),
            order_of(cs),
            limit_of(cs),
        ));
        lemma_feeds_of_query_text(
            proj,
            prefixes_of(cs),
            patterns_of(cs),
            order_of(cs),
            limit_of(cs),
        );
    }
}

} // verus!
