//! Laws of the rows of a code graph: they stand in ascending order, no two of them are alike, and
//! each cell of the datum has two of them.

use vstd::prelude::*;
use vstd::seq_lib::*;

use crate::codec_laws::{
    distinct_cells, each_cell_is_described_once, has_cell, lemma_cell_iri, of_cell,
};
use crate::codegraph::{
    CodeStatement, cell_iri, code_term, graph_of_lines, head_statement, statement_text,
    statement_texts, tail_statement,
};
use crate::datum::Datum;
use crate::encode::{Walk, code_graph, code_statements, meet_cell, no_walk, walk, walk_list};
use crate::order::{sorted, sorted_rows_ascend, text_leq};

verus! {

/// The rows of the code graph of a datum, below its root line.
pub open spec fn code_rows(d: Datum) -> Seq<Seq<char>> {
    sorted(statement_texts(code_statements(d)))
}

/// Whether no two statements of a walk are on the same side of the same cell, and all are on
/// cells that were met.
spec fn tidy(w: Walk) -> bool {
    &&& forall|i: int|
        0 <= i < w.statements.len() ==> w.seen.contains((#[trigger] w.statements[i]).cell)
            && w.statements[i].cell.len() == 74
    &&& forall|i: int, j: int|
        0 <= i < j < w.statements.len() ==> !same_side(
            #[trigger] w.statements[i],
            #[trigger] w.statements[j],
        )
}

spec fn same_side(a: CodeStatement, b: CodeStatement) -> bool {
    a.cell == b.cell && a.head == b.head
}

proof fn lemma_meeting_a_cell_is_tidy(w: Walk, items: Seq<Datum>)
    requires
        tidy(w),
        !w.seen.contains(cell_iri(items)),
    ensures
        tidy(meet_cell(w, items)),
{
    lemma_cell_iri(items);
    let v = meet_cell(w, items);
    let n = w.statements.len() as int;
    assert forall|i: int| 0 <= i < v.statements.len() implies v.seen.contains(
        (#[trigger] v.statements[i]).cell,
    ) && v.statements[i].cell.len() == 74 by {
        if i < n {
            assert(v.statements[i] == w.statements[i]);
        }
    }
    assert forall|i: int, j: int| 0 <= i < j < v.statements.len() implies !same_side(
        #[trigger] v.statements[i],
        #[trigger] v.statements[j],
    ) by {
        if i < n {
            assert(v.statements[i] == w.statements[i]);
        }
        if j < n {
            assert(v.statements[j] == w.statements[j]);
        }
    }
}

proof fn lemma_walk_is_tidy(w: Walk, d: Datum)
    requires
        tidy(w),
    ensures
        tidy(walk(w, d)),
    decreases d, 0int,
{
    if let Datum::List(items) = d {
        lemma_walk_list_is_tidy(w, items);
    }
}

proof fn lemma_walk_list_is_tidy(w: Walk, items: Seq<Datum>)
    requires
        tidy(w),
    ensures
        tidy(walk_list(w, items)),
    decreases items, 1int,
{
    if items.len() > 0 && !w.seen.contains(cell_iri(items)) {
        lemma_meeting_a_cell_is_tidy(w, items);
        let met = meet_cell(w, items);
        lemma_walk_is_tidy(met, items[0]);
        lemma_walk_list_is_tidy(walk(met, items[0]), items.drop_first());
    }
}

/// Statements that are written alike are on the same side of the same cell.
proof fn lemma_row_tells_its_side(a: CodeStatement, b: CodeStatement)
    requires
        a.cell.len() == 74,
        b.cell.len() == 74,
        statement_text(a) == statement_text(b),
    ensures
        same_side(a, b),
{
    reveal_strlit("<");
    reveal_strlit("> rdf:first ");
    reveal_strlit("> rdf:rest ");
    let x = statement_text(a);
    let y = statement_text(b);
    assert(x.subrange(1, 75) =~= a.cell);
    assert(y.subrange(1, 75) =~= b.cell);
    assert(x[82] == (if a.head {
        'i'
    } else {
        'e'
    }));
    assert(y[82] == (if b.head {
        'i'
    } else {
        'e'
    }));
}

/// The code graph of a datum is its root line and its rows, which stand in ascending order, no
/// two of them alike.
pub proof fn rows_ascend_and_are_distinct(d: Datum)
    ensures
        code_graph(d) == graph_of_lines(code_term(d), code_rows(d)),
        code_rows(d).no_duplicates(),
        forall|i: int, j: int|
            0 <= i < j < code_rows(d).len() ==> #[trigger] text_leq(
                code_rows(d)[i],
                code_rows(d)[j],
            ) && code_rows(d)[i] != code_rows(d)[j],
{
    let ss = code_statements(d);
    let texts = statement_texts(ss);
    let rows = code_rows(d);
    assert(tidy(no_walk()));
    lemma_walk_is_tidy(no_walk(), d);
    assert forall|i: int, j: int|
        0 <= i < texts.len() && 0 <= j < texts.len() && i != j implies texts[i] != texts[j] by {
        if texts[i] == texts[j] {
            let (s, t) = if i < j {
                (ss[i], ss[j])
            } else {
                (ss[j], ss[i])
            };
            assert(ss[i].cell.len() == 74 && ss[j].cell.len() == 74);
            lemma_row_tells_its_side(s, t);
            assert(!same_side(s, t));
        }
    }
    sorted_rows_ascend(texts);
    texts.lemma_multiset_has_no_duplicates();
    rows.lemma_multiset_has_no_duplicates_conv();
}

/// A sorted row holds the same texts.
proof fn lemma_sorted_holds(row: Seq<Seq<char>>, text: Seq<char>)
    ensures
        sorted(row).contains(text) <==> row.contains(text),
{
    broadcast use group_to_multiset_ensures;

    sorted_rows_ascend(row);
    assert(sorted(row).contains(text) <==> sorted(row).to_multiset().count(text) > 0);
    assert(row.contains(text) <==> row.to_multiset().count(text) > 0);
}

proof fn lemma_cell_has_rows(d: Datum, t: Seq<Datum>)
    requires
        distinct_cells(d),
        has_cell(d, t),
    ensures
        code_rows(d).contains(statement_text(head_statement(t))),
        code_rows(d).contains(statement_text(tail_statement(t))),
        statement_text(head_statement(t)) != statement_text(tail_statement(t)),
{
    let (a, b) = (head_statement(t), tail_statement(t));
    assert(code_statements(d).contains(a) && code_statements(d).contains(b)) by {
        each_cell_is_described_once(d);
    }
    lemma_statement_has_row(code_statements(d), a);
    lemma_statement_has_row(code_statements(d), b);
    lemma_cell_iri(t);
    if statement_text(a) == statement_text(b) {
        lemma_row_tells_its_side(a, b);
    }
}

proof fn lemma_statement_has_row(ss: Seq<CodeStatement>, s: CodeStatement)
    requires
        ss.contains(s),
    ensures
        sorted(statement_texts(ss)).contains(statement_text(s)),
{
    let i = choose|i: int| 0 <= i < ss.len() && ss[i] == s;
    assert(statement_texts(ss)[i] == statement_text(s));
    lemma_sorted_holds(statement_texts(ss), statement_text(s));
}

proof fn lemma_rows_tell_their_cell(s: Seq<Datum>, t: Seq<Datum>)
    ensures
        statement_text(head_statement(s)) == statement_text(head_statement(t)) ==> cell_iri(s)
            == cell_iri(t),
        statement_text(tail_statement(s)) == statement_text(tail_statement(t)) ==> cell_iri(s)
            == cell_iri(t),
{
    lemma_cell_iri(s);
    lemma_cell_iri(t);
    if statement_text(head_statement(s)) == statement_text(head_statement(t)) {
        lemma_row_tells_its_side(head_statement(s), head_statement(t));
    }
    if statement_text(tail_statement(s)) == statement_text(tail_statement(t)) {
        lemma_row_tells_its_side(tail_statement(s), tail_statement(t));
    }
}

/// The rows of a code graph describe nothing else: where different cells have different IRIs,
/// every row is one for the head or the tail of a cell of the datum.
pub proof fn every_row_is_of_a_cell(d: Datum, row: Seq<char>)
    requires
        distinct_cells(d),
        code_rows(d).contains(row),
    ensures
        exists|t: Seq<Datum>| #[trigger]
            has_cell(d, t) && (row == statement_text(head_statement(t)) || row == statement_text(
                tail_statement(t),
            )),
{
    let ss = code_statements(d);
    let texts = statement_texts(ss);
    lemma_sorted_holds(texts, row);
    let i = choose|i: int| 0 <= i < texts.len() && texts[i] == row;
    assert(of_cell(d, ss[i])) by {
        each_cell_is_described_once(d);
    }
}

/// The rows of a code graph describe each cell of its datum: where different cells have
/// different IRIs, each cell has a row for its head and another for its tail, and different
/// cells have different rows.
pub proof fn each_cell_has_two_rows(d: Datum)
    requires
        distinct_cells(d),
    ensures
        forall|t: Seq<Datum>| #[trigger]
            has_cell(d, t) ==> code_rows(d).contains(statement_text(head_statement(t)))
                && code_rows(d).contains(statement_text(tail_statement(t))) && statement_text(
                head_statement(t),
            ) != statement_text(tail_statement(t)),
        forall|s: Seq<Datum>, t: Seq<Datum>| #[trigger]
            has_cell(d, s) && #[trigger] has_cell(d, t) && s != t ==> statement_text(
                head_statement(s),
            ) != statement_text(head_statement(t)) && statement_text(tail_statement(s))
                != statement_text(tail_statement(t)),
{
    assert forall|t: Seq<Datum>| #[trigger] has_cell(d, t) implies code_rows(d).contains(
        statement_text(head_statement(t)),
    ) && code_rows(d).contains(statement_text(tail_statement(t))) && statement_text(
        head_statement(t),
    ) != statement_text(tail_statement(t)) by {
        lemma_cell_has_rows(d, t);
    }
    assert forall|s: Seq<Datum>, t: Seq<Datum>| #[trigger]
        has_cell(d, s) && #[trigger] has_cell(d, t) && s != t implies statement_text(
        head_statement(s),
    ) != statement_text(head_statement(t)) && statement_text(tail_statement(s)) != statement_text(
        tail_statement(t),
    ) by {
        lemma_rows_tell_their_cell(s, t);
    }
}

} // verus!
