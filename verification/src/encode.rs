//! The encoder: a datum to its code graph.

use vstd::hash_set::StringHashSet;
use vstd::prelude::*;
use vstd::string::*;

use crate::codegraph::{
    CodeStatement, CodeTerm, SEXPR_NODE_PREFIX, cell_iri, code_term, graph_of_lines,
    head_statement, list_term, statement_text, statement_texts, tail_statement, term_text,
};
use crate::datum::{
    Datum, Fault, Sexpr, SexprResult, data, lemma_data, lemma_item_is_smaller, text_result,
};
use crate::digest::{Hashes, hashes_of, hex, lemma_of_fits, list_hash, to_hex};
use crate::lines::{append_lines, lemma_texts_push, texts};
use crate::order::{sort, sorted};
use crate::text::{join2, join3, join5, print_decimal, quoted, render_string_literal};

verus! {

/// What a walk over a datum has found so far.
pub struct Walk {
    /// The IRIs of the cells that were met.
    pub seen: Set<Seq<char>>,
    /// The statements about them.
    pub statements: Seq<CodeStatement>,
}

/// A walk before anything was met.
pub open spec fn no_walk() -> Walk {
    Walk { seen: Set::empty(), statements: Seq::empty() }
}

/// One cell more: the first one of a non-empty list.
pub open spec fn meet_cell(w: Walk, items: Seq<Datum>) -> Walk {
    Walk {
        seen: w.seen.insert(cell_iri(items)),
        statements: w.statements.push(head_statement(items)).push(tail_statement(items)),
    }
}

/// A walk over a datum: the cells of its lists, each under its IRI once.
pub open spec fn walk(w: Walk, d: Datum) -> Walk
    decreases d, 0int,
{
    match d {
        Datum::List(items) => walk_list(w, items),
        _ => w,
    }
}

/// A walk over a list: its first cell and what is in it, then its tail. A cell that was met
/// before is not walked again.
pub open spec fn walk_list(w: Walk, items: Seq<Datum>) -> Walk
    decreases items, 1int,
{
    if items.len() == 0 || w.seen.contains(cell_iri(items)) {
        w
    } else {
        walk_list(walk(meet_cell(w, items), items[0]), items.drop_first())
    }
}

/// The statements of the code graph of a datum.
pub open spec fn code_statements(d: Datum) -> Seq<CodeStatement> {
    walk(no_walk(), d).statements
}

/// The code graph of a datum: its statements stand in ascending order.
pub open spec fn code_graph(d: Datum) -> Seq<char> {
    graph_of_lines(code_term(d), sorted(statement_texts(code_statements(d))))
}

// ---------------------------------------------------------------------------------------
// The code graph for given hashes
// ---------------------------------------------------------------------------------------

/// The IRI of the cons cell at the `i`-th item of a list, for given hashes of its tails.
pub open spec fn labelled_iri(items: Seq<Datum>, h: Hashes, i: int) -> Seq<char> {
    SEXPR_NODE_PREFIX@ + hex(h.tails@[items.len() - i]@)
}

/// The term that stands for the tail of a list from its `i`-th item on.
pub open spec fn labelled_tail(items: Seq<Datum>, h: Hashes, i: int) -> CodeTerm {
    if i >= items.len() {
        CodeTerm::Nil
    } else {
        CodeTerm::Cell(labelled_iri(items, h, i))
    }
}

/// The term that stands for a datum.
pub open spec fn labelled_term(d: Datum, h: Hashes) -> CodeTerm {
    match d {
        Datum::List(items) => labelled_tail(items, h, 0),
        _ => code_term(d),
    }
}

/// The statement that names the head of the cell at the `i`-th item of a list.
pub open spec fn labelled_head_statement(items: Seq<Datum>, h: Hashes, i: int) -> CodeStatement {
    CodeStatement {
        cell: labelled_iri(items, h, i),
        head: true,
        value: labelled_term(items[i], h.parts@[i]),
    }
}

/// The statement that names the tail of the cell at the `i`-th item of a list.
pub open spec fn labelled_tail_statement(items: Seq<Datum>, h: Hashes, i: int) -> CodeStatement {
    CodeStatement {
        cell: labelled_iri(items, h, i),
        head: false,
        value: labelled_tail(items, h, i + 1),
    }
}

/// One cell more: the one at the `i`-th item of a list.
pub open spec fn meet_labelled_cell(w: Walk, items: Seq<Datum>, h: Hashes, i: int) -> Walk {
    Walk {
        seen: w.seen.insert(labelled_iri(items, h, i)),
        statements: w.statements.push(labelled_head_statement(items, h, i)).push(
            labelled_tail_statement(items, h, i),
        ),
    }
}

/// A walk over a datum: the cells of its lists, each under its IRI once.
pub open spec fn labelled_walk(w: Walk, d: Datum, h: Hashes) -> Walk
    decreases d, 0int, 0int,
{
    match d {
        Datum::List(items) => labelled_walk_from(w, items, h, 0),
        _ => w,
    }
}

/// A walk over a list from its `i`-th item on: that cell and what is in it, then its tail. A
/// cell that was met before is not walked again.
pub open spec fn labelled_walk_from(w: Walk, items: Seq<Datum>, h: Hashes, i: int) -> Walk
    decreases items, 1int, items.len() - i,
{
    if !(0 <= i < items.len()) || w.seen.contains(labelled_iri(items, h, i)) {
        w
    } else {
        labelled_walk_from(
            labelled_walk(meet_labelled_cell(w, items, h, i), items[i], h.parts@[i]),
            items,
            h,
            i + 1,
        )
    }
}

/// The code graph of a datum, for given hashes of everything in it.
pub open spec fn labelled_code_graph(d: Datum, h: Hashes) -> Seq<char> {
    graph_of_lines(
        labelled_term(d, h),
        sorted(statement_texts(labelled_walk(no_walk(), d, h).statements)),
    )
}

/// With the content hashes of a datum, the IRIs of its cells are those of its code graph.
proof fn lemma_labels(items: Seq<Datum>, h: Hashes, i: int)
    requires
        h.of(Datum::List(items)),
        0 <= i <= items.len(),
    ensures
        i < items.len() ==> labelled_iri(items, h, i) == cell_iri(items.skip(i)),
        labelled_tail(items, h, i) == list_term(items.skip(i)),
{
    if i < items.len() {
        let k = items.len() - i;
        assert(h.tails@[k]@ == list_hash(items.skip(items.len() - k)));
    }
}

/// With the content hashes of a datum, the terms are those of its code graph.
proof fn lemma_labelled_term(d: Datum, h: Hashes)
    requires
        h.of(d),
    ensures
        labelled_term(d, h) == code_term(d),
{
    if let Datum::List(items) = d {
        lemma_labels(items, h, 0);
        assert(items.skip(0) =~= items);
    }
}

/// With the content hashes of a datum, a walk finds what its code graph holds.
proof fn lemma_labelled_walk(w: Walk, d: Datum, h: Hashes)
    requires
        h.of(d),
    ensures
        labelled_walk(w, d, h) == walk(w, d),
    decreases d, 0int, 0int,
{
    if let Datum::List(items) = d {
        lemma_labelled_walk_from(w, items, h, 0);
        assert(items.skip(0) =~= items);
    }
}

proof fn lemma_labelled_walk_from(w: Walk, items: Seq<Datum>, h: Hashes, i: int)
    requires
        h.of(Datum::List(items)),
        0 <= i <= items.len(),
    ensures
        labelled_walk_from(w, items, h, i) == walk_list(w, items.skip(i)),
    decreases items, 1int, items.len() - i,
{
    let tail = items.skip(i);
    lemma_labels(items, h, i);
    if i < items.len() && !w.seen.contains(cell_iri(tail)) {
        lemma_labels(items, h, i + 1);
        assert(tail[0] == items[i]);
        assert(tail.drop_first() =~= items.skip(i + 1));
        assert(h.parts@[i].of(items[i]));
        lemma_labelled_term(items[i], h.parts@[i]);
        assert(labelled_head_statement(items, h, i) == head_statement(tail));
        assert(labelled_tail_statement(items, h, i) == tail_statement(tail));
        let found = meet_cell(w, tail);
        assert(meet_labelled_cell(w, items, h, i) == found);
        lemma_labelled_walk(found, items[i], h.parts@[i]);
        lemma_labelled_walk_from(walk(found, items[i]), items, h, i + 1);
    }
}

// ---------------------------------------------------------------------------------------
// The encoder
// ---------------------------------------------------------------------------------------

/// Whether a set of IRIs and a row of lines hold what a walk has found.
spec fn holds(w: Walk, seen: Set<Seq<char>>, rows: Seq<String>) -> bool {
    &&& seen == w.seen
    &&& texts(rows) == statement_texts(w.statements)
}

/// Encodes a datum as a code graph. The same datum always gives the same text: the nodes are
/// content-addressed, and the statements are sorted. Equal sub-lists share a node. Never fails;
/// the `Result` is that of the other compilers.
pub fn sexpr_to_rdf(sexpr: &Sexpr) -> (r: SexprResult<String>)
    ensures
        text_result(r) == Ok::<Seq<char>, Fault>(code_graph(sexpr@)),
{
    let hashes = hashes_of(sexpr);
    proof {
        lemma_of_fits(hashes, sexpr@);
        lemma_labelled_term(sexpr@, hashes);
        lemma_labelled_walk(no_walk(), sexpr@, hashes);
    }
    Ok(encode_with(sexpr, &hashes))
}

/// Encodes a datum as a code graph, with given hashes of everything in it.
pub fn encode_with(sexpr: &Sexpr, hashes: &Hashes) -> (text: String)
    requires
        hashes.fits(sexpr@),
    ensures
        text@ == labelled_code_graph(sexpr@, *hashes),
{
    let mut rows: Vec<String> = Vec::new();
    let mut seen = StringHashSet::new();
    assert(texts(rows@) =~= statement_texts(no_walk().statements));
    emit_node(sexpr, hashes, &mut rows, &mut seen, Ghost(no_walk()));
    let root = render_node(sexpr, hashes);
    let rows = sort(rows);
    let mut out = String::from_str(
        "@prefix rdf: <http://www.w3.org/1999/02/22-rdf-syntax-ns#> .\n@prefix sx: <https://ikigai-rs.dev/ns/sexpr#> .\n@prefix xsd: <http://www.w3.org/2001/XMLSchema#> .\n<urn:sexpr:document> sx:root ",
    );
    out.append(root.as_str());
    out.append(" .\n");
    append_lines(&mut out, &rows, "", "\n");
    out
}

/// Appends the statements of every cell of a datum that was not met before. The cons chain of
/// each list is followed in a loop.
fn emit_node(
    sexpr: &Sexpr,
    hashes: &Hashes,
    rows: &mut Vec<String>,
    seen: &mut StringHashSet,
    w: Ghost<Walk>,
)
    requires
        hashes.fits(sexpr@),
        holds(w@, old(seen)@, old(rows)@),
    ensures
        holds(labelled_walk(w@, sexpr@, *hashes), final(seen)@, final(rows)@),
    decreases *sexpr,
{
    if let Sexpr::List(items) = sexpr {
        let ghost ds = data(items@);
        let ghost goal = labelled_walk_from(w@, ds, *hashes, 0);
        let ghost mut at = w@;
        let mut i: usize = 0;
        let mut met = false;
        proof {
            lemma_data(items@);
        }
        while i < items.len() && !met
            invariant
                i <= items.len(),
                *sexpr == Sexpr::List(*items),
                ds == data(items@),
                ds.len() == items.len(),
                hashes.fits(Datum::List(ds)),
                holds(at, seen@, rows@),
                !met ==> labelled_walk_from(at, ds, *hashes, i as int) == goal,
                met ==> at == goal,
            decreases items.len() - i, !met as int,
        {
            proof {
                lemma_data(items@);
                lemma_item_is_smaller(*sexpr, i as int);
                assert(ds[i as int] == items@[i as int]@);
                assert(hashes.parts@[i as int].fits(ds[i as int]));
            }
            let iri = node_iri(hashes, i, Ghost(ds));
            if seen.contains(iri.as_str()) {
                met = true;
            } else {
                let first = render_node(&items[i], &hashes.parts[i]);
                let rest = render_tail(hashes, i + 1, Ghost(ds));
                let head_row = join5("<", iri.as_str(), "> rdf:first ", first.as_str(), " .");
                let tail_row = join5("<", iri.as_str(), "> rdf:rest ", rest.as_str(), " .");
                proof {
                    let found = meet_labelled_cell(at, ds, *hashes, i as int);
                    assert(head_row@ == statement_text(
                        labelled_head_statement(ds, *hashes, i as int),
                    ));
                    assert(tail_row@ == statement_text(
                        labelled_tail_statement(ds, *hashes, i as int),
                    ));
                    lemma_texts_push(rows@, head_row);
                    lemma_texts_push(rows@.push(head_row), tail_row);
                    assert(statement_texts(found.statements) =~= texts(
                        rows@.push(head_row).push(tail_row),
                    ));
                    at = found;
                }
                seen.insert(iri);
                rows.push(head_row);
                rows.push(tail_row);
                emit_node(&items[i], &hashes.parts[i], rows, seen, Ghost(at));
                proof {
                    at = labelled_walk(at, ds[i as int], hashes.parts@[i as int]);
                }
                i = i + 1;
            }
        }
    }
}

/// Renders the term that stands for a datum.
fn render_node(sexpr: &Sexpr, hashes: &Hashes) -> (text: String)
    requires
        hashes.fits(sexpr@),
    ensures
        text@ == term_text(labelled_term(sexpr@, *hashes)),
{
    match sexpr {
        Sexpr::Symbol(s) => typed_literal(s.as_str(), "^^sx:symbol"),
        Sexpr::Str(s) => typed_literal(s.as_str(), "^^xsd:string"),
        Sexpr::Int(n) => typed_literal(print_decimal(*n).as_str(), "^^xsd:integer"),
        Sexpr::List(items) => {
            proof {
                lemma_data(items@);
            }
            render_tail(hashes, 0, Ghost(data(items@)))
        },
    }
}

/// Renders the term that stands for the tail of a list from its `i`-th item on.
fn render_tail(hashes: &Hashes, i: usize, ds: Ghost<Seq<Datum>>) -> (text: String)
    requires
        hashes.fits(Datum::List(ds@)),
        i <= ds@.len(),
    ensures
        text@ == term_text(labelled_tail(ds@, *hashes, i as int)),
{
    if i == hashes.parts.len() {
        String::from_str("rdf:nil")
    } else {
        let iri = node_iri(hashes, i, ds);
        join3("<", iri.as_str(), ">")
    }
}

/// Renders a typed literal. The lexical form is escaped, so that it cannot break out of the
/// literal.
fn typed_literal(value: &str, datatype: &str) -> (text: String)
    ensures
        text@ == quoted(value@) + datatype@,
{
    join2(render_string_literal(value).as_str(), datatype)
}

/// The IRI of the cons cell at the `i`-th item of a list.
fn node_iri(hashes: &Hashes, i: usize, ds: Ghost<Seq<Datum>>) -> (iri: String)
    requires
        hashes.fits(Datum::List(ds@)),
        i < ds@.len(),
    ensures
        iri@ == labelled_iri(ds@, *hashes, i as int),
{
    let k: usize = hashes.parts.len() - i;
    join2(SEXPR_NODE_PREFIX, to_hex(&hashes.tails[k]).as_str())
}

} // verus!
