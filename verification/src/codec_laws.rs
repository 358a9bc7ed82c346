//! Laws of the codec: a code graph decodes to the datum it was made from, equal sub-lists share
//! a node, and different lists have different nodes, different data different graphs, unless
//! what is hashed of them collides.

use vstd::prelude::*;
use vstd::seq_lib::*;
use vstd::utf8::*;

use crate::codegraph::{
    AtomKind, CodeStatement, CodeTerm, RDF_FIRST, RDF_NIL, RDF_REST, SEXPR_DOCUMENT,
    SEXPR_NODE_PREFIX, SX_ROOT, SX_SYMBOL, XSD_INTEGER, XSD_STRING, cell_iri, code_graph_text,
    code_term, head_statement, kind_text, list_term, plain_cell, plain_statement, plain_term,
    prologue, statement_text, statement_texts, tail_statement, term_text,
};
use crate::compile_laws::quoted_text_is_one_line;
use crate::datum::{Datum, Fault};
use crate::decode::{
    Links, MAX_DECODE_DEPTH, RdfTerm, decode_chain, decode_term, decoded, lemma_links_are_finite,
    links_of,
};
use crate::digest::{
    atom_bytes, content_hash, hash, hex, hex_digit, le_bytes, list_hash, twos_complement,
};
use crate::encode::{Walk, code_graph, code_statements, meet_cell, no_walk, walk, walk_list};
use crate::order::{sorted, sorted_rows_ascend};
use crate::quads::{
    Item, Object, Subject, Triple, code_graph_items, object_of, root_item, statement_item,
};
use crate::reader::document;
use crate::roundtrip::{nests_within, quoted_text_reads_back, read_datum_is_readable};
use crate::text::{ascii_alphanumeric, decimal_reads_back, lemma_utf8_is_injective, quoted};

verus! {

// ---------------------------------------------------------------------------------------
// The cells of a datum
// ---------------------------------------------------------------------------------------

/// Whether `t` is a non-empty list in `d`, or a non-empty tail of one.
pub open spec fn has_cell(d: Datum, t: Seq<Datum>) -> bool
    decreases d, 0int,
{
    match d {
        Datum::List(ds) => list_has_cell(ds, t),
        _ => false,
    }
}

/// Whether `t` is a non-empty tail of `ds`, or a non-empty tail of a list in an item of `ds`.
pub open spec fn list_has_cell(ds: Seq<Datum>, t: Seq<Datum>) -> bool
    decreases ds, 1int,
{
    ds.len() > 0 && (t == ds || has_cell(ds[0], t) || list_has_cell(ds.drop_first(), t))
}

/// Whether different cells of a datum have different IRIs.
pub open spec fn distinct_cells(d: Datum) -> bool {
    forall|s: Seq<Datum>, t: Seq<Datum>| #[trigger]
        has_cell(d, s) && #[trigger] has_cell(d, t) && cell_iri(s) == cell_iri(t) ==> s == t
}

proof fn lemma_cells_are_not_empty(d: Datum, t: Seq<Datum>)
    ensures
        has_cell(d, t) ==> t.len() > 0,
    decreases d, 0int,
{
    if let Datum::List(ds) = d {
        lemma_tails_are_not_empty(ds, t);
    }
}

proof fn lemma_tails_are_not_empty(ds: Seq<Datum>, t: Seq<Datum>)
    ensures
        list_has_cell(ds, t) ==> t.len() > 0,
    decreases ds, 1int,
{
    if ds.len() > 0 {
        lemma_cells_are_not_empty(ds[0], t);
        lemma_tails_are_not_empty(ds.drop_first(), t);
    }
}

/// What is in a cell of a datum is in the datum.
proof fn lemma_cells_are_inherited(d: Datum, s: Seq<Datum>, t: Seq<Datum>)
    requires
        has_cell(d, s),
        list_has_cell(s, t),
    ensures
        has_cell(d, t),
    decreases d, 0int,
{
    lemma_tails_are_inherited(d->List_0, s, t);
}

proof fn lemma_tails_are_inherited(ds: Seq<Datum>, s: Seq<Datum>, t: Seq<Datum>)
    requires
        list_has_cell(ds, s),
        list_has_cell(s, t),
    ensures
        list_has_cell(ds, t),
    decreases ds, 1int,
{
    if s == ds {
    } else if has_cell(ds[0], s) {
        lemma_cells_are_inherited(ds[0], s, t);
    } else {
        lemma_tails_are_inherited(ds.drop_first(), s, t);
    }
}

// ---------------------------------------------------------------------------------------
// What a walk finds
// ---------------------------------------------------------------------------------------

/// Whether the lists directly below a cell were met.
spec fn met_below(w: Walk, t: Seq<Datum>) -> bool {
    &&& t.drop_first().len() > 0 ==> w.seen.contains(cell_iri(t.drop_first()))
    &&& t[0] matches Datum::List(ds) ==> ds.len() > 0 ==> w.seen.contains(cell_iri(ds))
}

/// Whether a walk met what is directly below every cell that it met itself.
spec fn met_below_new(d: Datum, before: Walk, after: Walk) -> bool {
    forall|t: Seq<Datum>| #[trigger]
        has_cell(d, t) && after.seen.contains(cell_iri(t)) && !before.seen.contains(cell_iri(t))
            ==> met_below(after, t)
}

/// Whether a walk met no less than another.
spec fn grew(before: Walk, after: Walk) -> bool {
    forall|iri: Seq<char>| before.seen.contains(iri) ==> #[trigger] after.seen.contains(iri)
}

proof fn lemma_walk_meets(d: Datum, w: Walk, part: Datum)
    requires
        distinct_cells(d),
        part matches Datum::List(ds) ==> ds.len() > 0 ==> has_cell(d, ds),
    ensures
        grew(w, walk(w, part)),
        met_below_new(d, w, walk(w, part)),
        part matches Datum::List(ds) ==> ds.len() > 0 ==> walk(w, part).seen.contains(cell_iri(ds)),
    decreases part, 0int,
{
    if let Datum::List(ds) = part {
        lemma_walk_list_meets(d, w, ds);
    }
}

proof fn lemma_walk_list_meets(d: Datum, w: Walk, ds: Seq<Datum>)
    requires
        distinct_cells(d),
        ds.len() > 0 ==> has_cell(d, ds),
    ensures
        grew(w, walk_list(w, ds)),
        met_below_new(d, w, walk_list(w, ds)),
        ds.len() > 0 ==> walk_list(w, ds).seen.contains(cell_iri(ds)),
    decreases ds, 1int,
{
    if ds.len() > 0 && !w.seen.contains(cell_iri(ds)) {
        let rest = ds.drop_first();
        let w1 = meet_cell(w, ds);
        let w2 = walk(w1, ds[0]);
        let w3 = walk_list(w2, rest);
        assert(list_has_cell(ds, ds));
        if let Datum::List(inner) = ds[0] {
            if inner.len() > 0 {
                assert(has_cell(ds[0], inner)) by {
                    assert(list_has_cell(inner, inner));
                }
                lemma_cells_are_inherited(d, ds, inner);
            }
        }
        if rest.len() > 0 {
            assert(list_has_cell(rest, rest));
            lemma_cells_are_inherited(d, ds, rest);
        }
        lemma_walk_meets(d, w1, ds[0]);
        lemma_walk_list_meets(d, w2, rest);
        assert forall|t: Seq<Datum>| #[trigger]
            has_cell(d, t) && w3.seen.contains(cell_iri(t)) && !w.seen.contains(
                cell_iri(t),
            ) implies met_below(w3, t) by {
            if w1.seen.contains(cell_iri(t)) {
                assert(t == ds);
            } else if w2.seen.contains(cell_iri(t)) {
                assert(met_below(w2, t));
            }
        }
    }
}

/// Every cell of a datum is met.
proof fn lemma_every_cell_is_met(d: Datum, t: Seq<Datum>)
    requires
        distinct_cells(d),
        has_cell(d, t),
    ensures
        walk(no_walk(), d).seen.contains(cell_iri(t)),
{
    let ds = d->List_0;
    let w = walk(no_walk(), d);
    if ds.len() > 0 {
        assert(list_has_cell(ds, ds));
    }
    lemma_walk_meets(d, no_walk(), d);
    lemma_cells_below_are_met(d, w, ds, t);
}

/// If a walk met a cell and what is directly below every cell, it met everything below it.
proof fn lemma_cells_below_are_met(d: Datum, w: Walk, ds: Seq<Datum>, t: Seq<Datum>)
    requires
        met_below_new(d, no_walk(), w),
        has_cell(d, ds),
        w.seen.contains(cell_iri(ds)),
        list_has_cell(ds, t),
    ensures
        w.seen.contains(cell_iri(t)),
    decreases ds,
{
    assert(met_below(w, ds));
    let rest = ds.drop_first();
    if t == ds {
    } else if has_cell(ds[0], t) {
        let inner = ds[0]->List_0;
        assert(has_cell(ds[0], inner)) by {
            assert(list_has_cell(inner, inner));
        }
        assert(list_has_cell(ds, inner));
        lemma_cells_are_inherited(d, ds, inner);
        assert(decreases_to!(ds => ds[0]));
        assert(decreases_to!(ds[0] => ds[0]->List_0));
        lemma_cells_below_are_met(d, w, inner, t);
    } else {
        assert(list_has_cell(rest, t));
        assert(list_has_cell(rest, rest));
        assert(list_has_cell(ds, rest));
        lemma_cells_are_inherited(d, ds, rest);
        lemma_cells_below_are_met(d, w, rest, t);
    }
}

/// Whether a walk holds the statements of the cells that it met, and no others.
spec fn faithful(d: Datum, w: Walk) -> bool {
    &&& forall|t: Seq<Datum>| #[trigger]
        has_cell(d, t) && w.seen.contains(cell_iri(t)) ==> w.statements.contains(head_statement(t))
            && w.statements.contains(tail_statement(t))
    &&& forall|i: int|
        0 <= i < w.statements.len() ==> of_cell(d, #[trigger] w.statements[i])
    &&& forall|i: int|
        0 <= i < w.statements.len() ==> w.seen.contains((#[trigger] w.statements[i]).cell)
    &&& forall|i: int, j: int|
        0 <= i < j < w.statements.len() ==> #[trigger] w.statements[i] != #[trigger] w.statements[j]
}

/// Whether a statement is one about a cell of a datum.
pub open spec fn of_cell(d: Datum, s: CodeStatement) -> bool {
    exists|t: Seq<Datum>| #[trigger]
        has_cell(d, t) && (s == head_statement(t) || s == tail_statement(t))
}

proof fn lemma_walk_is_faithful(d: Datum, w: Walk, part: Datum)
    requires
        distinct_cells(d),
        faithful(d, w),
        part matches Datum::List(ds) ==> ds.len() > 0 ==> has_cell(d, ds),
    ensures
        faithful(d, walk(w, part)),
    decreases part, 0int,
{
    if let Datum::List(ds) = part {
        lemma_walk_list_is_faithful(d, w, ds);
    }
}

proof fn lemma_walk_list_is_faithful(d: Datum, w: Walk, ds: Seq<Datum>)
    requires
        distinct_cells(d),
        faithful(d, w),
        ds.len() > 0 ==> has_cell(d, ds),
    ensures
        faithful(d, walk_list(w, ds)),
    decreases ds, 1int,
{
    if ds.len() > 0 && !w.seen.contains(cell_iri(ds)) {
        let rest = ds.drop_first();
        lemma_meet_is_faithful(d, w, ds);
        assert(list_has_cell(ds, ds));
        if let Datum::List(inner) = ds[0] {
            if inner.len() > 0 {
                assert(has_cell(ds[0], inner)) by {
                    assert(list_has_cell(inner, inner));
                }
                lemma_cells_are_inherited(d, ds, inner);
            }
        }
        if rest.len() > 0 {
            assert(list_has_cell(rest, rest));
            lemma_cells_are_inherited(d, ds, rest);
        }
        let w1 = meet_cell(w, ds);
        lemma_walk_is_faithful(d, w1, ds[0]);
        lemma_walk_list_is_faithful(d, walk(w1, ds[0]), rest);
    }
}

proof fn lemma_meet_is_faithful(d: Datum, w: Walk, ds: Seq<Datum>)
    requires
        distinct_cells(d),
        faithful(d, w),
        has_cell(d, ds),
        !w.seen.contains(cell_iri(ds)),
    ensures
        faithful(d, meet_cell(w, ds)),
{
    let w1 = meet_cell(w, ds);
    let n = w.statements.len() as int;
    let head = head_statement(ds);
    let tail = tail_statement(ds);
    assert(w1.statements[n] == head);
    assert(w1.statements[n + 1] == tail);
    assert(forall|i: int| 0 <= i < n ==> #[trigger] w1.statements[i] == w.statements[i]);
    assert forall|t: Seq<Datum>| #[trigger]
        has_cell(d, t) && w1.seen.contains(cell_iri(t)) implies w1.statements.contains(
        head_statement(t),
    ) && w1.statements.contains(tail_statement(t)) by {
        if w.seen.contains(cell_iri(t)) {
            let i = choose|i: int|
                0 <= i < w.statements.len() && w.statements[i] == head_statement(t);
            let j = choose|j: int|
                0 <= j < w.statements.len() && w.statements[j] == tail_statement(t);
            assert(w1.statements[i] == head_statement(t));
            assert(w1.statements[j] == tail_statement(t));
        } else {
            assert(t == ds);
        }
    }
    assert forall|i: int| 0 <= i < w1.statements.len() implies of_cell(
        d,
        #[trigger] w1.statements[i],
    ) by {
        if i < n {
            assert(of_cell(d, w.statements[i]));
        } else {
            assert(has_cell(d, ds));
        }
    }
    assert forall|i: int| 0 <= i < w1.statements.len() implies w1.seen.contains(
        (#[trigger] w1.statements[i]).cell,
    ) by {
        if i < n {
            assert(w.seen.contains(w.statements[i].cell));
        }
    }
    assert forall|i: int, j: int| 0 <= i < j < w1.statements.len() implies #[trigger]
        w1.statements[i] != #[trigger] w1.statements[j] by {
        if j < n {
            assert(w.statements[i] != w.statements[j]);
        } else if i < n {
            assert(w.seen.contains(w.statements[i].cell));
        }
    }
}

proof fn lemma_no_walk_is_faithful(d: Datum)
    ensures
        faithful(d, no_walk()),
{
}

/// The code graph of a datum describes each cell of it once: for every cell it holds one
/// statement of its head and one of its tail, and it holds no other statement. So equal
/// sub-lists share a node.
pub proof fn each_cell_is_described_once(d: Datum)
    requires
        distinct_cells(d),
    ensures
        forall|t: Seq<Datum>| #[trigger]
            has_cell(d, t) ==> code_statements(d).contains(head_statement(t))
                && code_statements(d).contains(tail_statement(t)),
        forall|i: int|
            0 <= i < code_statements(d).len() ==> of_cell(d, #[trigger] code_statements(d)[i]),
        code_statements(d).no_duplicates(),
{
    if let Datum::List(ds) = d {
        if ds.len() > 0 {
            assert(list_has_cell(ds, ds));
        }
    }
    lemma_no_walk_is_faithful(d);
    lemma_walk_is_faithful(d, no_walk(), d);
    assert forall|t: Seq<Datum>| #[trigger] has_cell(d, t) implies code_statements(d).contains(
        head_statement(t),
    ) && code_statements(d).contains(tail_statement(t)) by {
        lemma_every_cell_is_met(d, t);
    }
    assert forall|i: int, j: int|
        0 <= i < code_statements(d).len() && 0 <= j < code_statements(d).len() && i
            != j implies code_statements(d)[i] != code_statements(d)[j] by {
        if i < j {
            assert(walk(no_walk(), d).statements[i] != walk(no_walk(), d).statements[j]);
        } else {
            assert(walk(no_walk(), d).statements[j] != walk(no_walk(), d).statements[i]);
        }
    }
}

// ---------------------------------------------------------------------------------------
// IRIs and lines
// ---------------------------------------------------------------------------------------

proof fn lemma_hex(bytes: Seq<u8>)
    ensures
        hex(bytes).len() == 2 * bytes.len(),
        forall|i: int| 0 <= i < hex(bytes).len() ==> ascii_alphanumeric(#[trigger] hex(bytes)[i]),
    decreases bytes.len(),
{
    if bytes.len() > 0 {
        let before = hex(bytes.drop_last());
        lemma_hex(bytes.drop_last());
        assert forall|i: int| 0 <= i < hex(bytes).len() implies ascii_alphanumeric(
            #[trigger] hex(bytes)[i],
        ) by {
            if i < before.len() {
                assert(hex(bytes)[i] == before[i]);
            }
        }
    }
}

proof fn lemma_hex_is_injective(a: Seq<u8>, b: Seq<u8>)
    requires
        a.len() == b.len(),
        hex(a) == hex(b),
    ensures
        a == b,
    decreases a.len(),
{
    if a.len() > 0 {
        lemma_hex(a.drop_last());
        lemma_hex(b.drop_last());
        let n = hex(a.drop_last()).len() as int;
        assert(hex(a).take(n) =~= hex(a.drop_last()));
        assert(hex(b).take(n) =~= hex(b.drop_last()));
        lemma_hex_is_injective(a.drop_last(), b.drop_last());
        assert(hex(a)[n] == hex_digit(a.last() as int / 16));
        assert(hex(b)[n] == hex_digit(b.last() as int / 16));
        assert(hex(a)[n + 1] == hex_digit(a.last() as int % 16));
        assert(hex(b)[n + 1] == hex_digit(b.last() as int % 16));
        assert(a.last() == b.last());
        assert(a =~= a.drop_last().push(a.last()));
        assert(b =~= b.drop_last().push(b.last()));
    } else {
        assert(a =~= b);
    }
}

proof fn lemma_list_hash_len(items: Seq<Datum>)
    ensures
        list_hash(items).len() == 32,
{
}

/// The IRI of a cell has a fixed length, is in the shape of a cell's, and is no other IRI of the
/// vocabulary.
pub proof fn lemma_cell_iri(items: Seq<Datum>)
    ensures
        cell_iri(items).len() == 74,
        plain_cell(cell_iri(items)),
        cell_iri(items) != RDF_NIL@,
{
    reveal_strlit("urn:sexpr:");
    reveal_strlit("http://www.w3.org/1999/02/22-rdf-syntax-ns#nil");
    lemma_list_hash_len(items);
    lemma_hex(list_hash(items));
    let name = hex(list_hash(items));
    assert(cell_iri(items) == SEXPR_NODE_PREFIX@ + name);
    assert(cell_iri(items)[0] == 'u');
    assert(RDF_NIL@[0] == 'h');
}

/// Cells with the same IRI have the same content hash.
proof fn lemma_cell_iri_is_injective(s: Seq<Datum>, t: Seq<Datum>)
    requires
        cell_iri(s) == cell_iri(t),
    ensures
        list_hash(s) == list_hash(t),
{
    let n = SEXPR_NODE_PREFIX@.len() as int;
    assert(cell_iri(s).skip(n) =~= hex(list_hash(s)));
    assert(cell_iri(t).skip(n) =~= hex(list_hash(t)));
    lemma_list_hash_len(s);
    lemma_list_hash_len(t);
    lemma_hex_is_injective(list_hash(s), list_hash(t));
}

/// Two terms that are written alike are the same.
proof fn lemma_term_text_is_injective(a: CodeTerm, b: CodeTerm)
    requires
        term_text(a) == term_text(b),
    ensures
        a == b,
{
    reveal_strlit("rdf:nil");
    reveal_strlit("<");
    reveal_strlit(">");
    assert(term_text(CodeTerm::Nil)[0] == 'r');
    match a {
        CodeTerm::Nil => {
            match b {
                CodeTerm::Cell(iri) => {
                    assert(term_text(b)[0] == '<');
                },
                CodeTerm::Atom(v, k) => {
                    assert(term_text(b)[0] == '"');
                },
                _ => {},
            }
        },
        CodeTerm::Cell(x) => {
            assert(term_text(a)[0] == '<');
            match b {
                CodeTerm::Cell(y) => {
                    assert(term_text(a).len() == x.len() + 2);
                    assert(term_text(b).len() == y.len() + 2);
                    assert(term_text(a).subrange(1, x.len() as int + 1) =~= x);
                    assert(term_text(b).subrange(1, y.len() as int + 1) =~= y);
                },
                CodeTerm::Atom(v, k) => {
                    assert(term_text(b)[0] == '"');
                },
                _ => {},
            }
        },
        CodeTerm::Atom(v, k) => {
            assert(term_text(a)[0] == '"');
            match b {
                CodeTerm::Cell(y) => {
                    assert(term_text(b)[0] == '<');
                },
                CodeTerm::Atom(u, m) => {
                    lemma_atom_text_is_injective(v, k, u, m);
                },
                _ => {},
            }
        },
    }
}

proof fn lemma_atom_text_is_injective(v: Seq<char>, k: AtomKind, u: Seq<char>, m: AtomKind)
    requires
        quoted(v) + kind_text(k) == quoted(u) + kind_text(m),
    ensures
        v == u,
        k == m,
{
    let text = quoted(v) + kind_text(k);
    assert(text.subrange(0, quoted(v).len() as int) =~= quoted(v));
    assert(text.subrange(0, quoted(u).len() as int) =~= quoted(u)) by {
        assert((quoted(u) + kind_text(m)).subrange(0, quoted(u).len() as int) =~= quoted(u));
    }
    quoted_text_reads_back(text, 0, v);
    quoted_text_reads_back(text, 0, u);
    assert(text.len() == quoted(v).len() + kind_text(k).len());
    assert(text.len() == quoted(u).len() + kind_text(m).len());
    reveal_strlit("^^sx:symbol");
    reveal_strlit("^^xsd:string");
    reveal_strlit("^^xsd:integer");
}

/// Two statements on cells that are written alike are the same.
proof fn lemma_statement_text_is_injective(d: Datum, a: CodeStatement, b: CodeStatement)
    requires
        of_cell(d, a),
        of_cell(d, b),
        statement_text(a) == statement_text(b),
    ensures
        a == b,
{
    reveal_strlit("<");
    reveal_strlit("> rdf:first ");
    reveal_strlit("> rdf:rest ");
    reveal_strlit(" .");
    let s = choose|t: Seq<Datum>| #[trigger]
        has_cell(d, t) && (a == head_statement(t) || a == tail_statement(t));
    let t = choose|t: Seq<Datum>| #[trigger]
        has_cell(d, t) && (b == head_statement(t) || b == tail_statement(t));
    lemma_cell_iri(s);
    lemma_cell_iri(t);
    let x = statement_text(a);
    let y = statement_text(b);
    assert(x.subrange(1, 75) =~= a.cell);
    assert(y.subrange(1, 75) =~= b.cell);
    assert(x[82] == (if a.head {
        'i'
    } else {
        'e'
    }));
    assert(y[82] == (if b.head {
        'i'
    } else {
        'e'
    }));
    let start: int = if a.head {
        87
    } else {
        86
    };
    assert(x.subrange(start, x.len() - 2) =~= term_text(a.value));
    assert(y.subrange(start, y.len() - 2) =~= term_text(b.value));
    lemma_term_text_is_injective(a.value, b.value);
}

// ---------------------------------------------------------------------------------------
// The graph as it is read
// ---------------------------------------------------------------------------------------

/// Whether a row of statements describes every cell of a datum.
#[verifier::opaque]
spec fn covers(d: Datum, ss: Seq<CodeStatement>) -> bool {
    forall|t: Seq<Datum>| #[trigger]
        has_cell(d, t) ==> ss.contains(head_statement(t)) && ss.contains(tail_statement(t))
}

/// Whether a row of statements describes cells of a datum only.
#[verifier::opaque]
spec fn keeps_to(d: Datum, ss: Seq<CodeStatement>) -> bool {
    forall|i: int| 0 <= i < ss.len() ==> of_cell(d, #[trigger] ss[i])
}

/// Whether a row of statements describes every cell of a datum, and nothing else.
spec fn describes(d: Datum, ss: Seq<CodeStatement>) -> bool {
    covers(d, ss) && keeps_to(d, ss)
}

/// The statements of a code graph describe the cells of its datum.
proof fn lemma_statements_describe(d: Datum)
    requires
        distinct_cells(d),
    ensures
        describes(d, code_statements(d)),
{
    assert(covers(d, code_statements(d))) by {
        reveal(covers);
        each_cell_is_described_once(d);
    }
    assert(keeps_to(d, code_statements(d))) by {
        reveal(keeps_to);
        each_cell_is_described_once(d);
    }
}

/// Whether statements that are written alike are the same.
spec fn distinct_lines(ss: Seq<CodeStatement>) -> bool {
    forall|i: int, j: int|
        0 <= i < ss.len() && 0 <= j < ss.len() && #[trigger] statement_text(ss[i])
            == #[trigger] statement_text(ss[j]) ==> ss[i] == ss[j]
}

proof fn lemma_lines_are_distinct(d: Datum, ss: Seq<CodeStatement>)
    requires
        describes(d, ss),
    ensures
        distinct_lines(ss),
{
    assert forall|i: int, j: int|
        0 <= i < ss.len() && 0 <= j < ss.len() && #[trigger] statement_text(ss[i])
            == #[trigger] statement_text(ss[j]) implies ss[i] == ss[j] by {
        assert(of_cell(d, ss[i]) && of_cell(d, ss[j])) by {
            reveal(keeps_to);
        }
        lemma_statement_text_is_injective(d, ss[i], ss[j]);
    }
}

/// Whether two rows hold the same statements.
spec fn same_statements(a: Seq<CodeStatement>, b: Seq<CodeStatement>) -> bool {
    forall|s: CodeStatement| #[trigger] a.contains(s) <==> b.contains(s)
}

/// The place of a statement among others, by its line.
spec fn place_of(ss: Seq<CodeStatement>, line: Seq<char>) -> int {
    choose|j: int| 0 <= j < ss.len() && #[trigger] statement_text(ss[j]) == line
}

/// Sorting the lines of statements puts the statements in some order.
proof fn lemma_sorted_lines(found: Seq<CodeStatement>) -> (ss: Seq<CodeStatement>)
    requires
        distinct_lines(found),
    ensures
        statement_texts(ss) == sorted(statement_texts(found)),
        same_statements(found, ss),
{
    let texts = statement_texts(found);
    let rows = sorted(texts);
    sorted_rows_ascend(texts);
    let ss = Seq::new(rows.len(), |i: int| found[place_of(found, rows[i])]);
    assert forall|i: int| 0 <= i < rows.len() implies 0 <= place_of(found, #[trigger] rows[i])
        < found.len() && statement_text(ss[i]) == rows[i] by {
        broadcast use group_to_multiset_ensures;

        assert(rows.contains(rows[i]));
        assert(texts.to_multiset().count(rows[i]) > 0);
        let j = choose|j: int| 0 <= j < texts.len() && texts[j] == rows[i];
        assert(statement_text(found[j]) == rows[i]);
    }
    assert(statement_texts(ss) =~= rows);
    assert forall|s: CodeStatement| #[trigger] found.contains(s) implies ss.contains(s) by {
        broadcast use group_to_multiset_ensures;

        let j = choose|j: int| 0 <= j < found.len() && found[j] == s;
        assert(texts[j] == statement_text(s));
        assert(texts.contains(texts[j]));
        assert(rows.to_multiset().count(texts[j]) > 0);
        let i = choose|i: int| 0 <= i < rows.len() && rows[i] == texts[j];
        let k = place_of(found, rows[i]);
        assert(statement_text(found[k]) == statement_text(found[j]));
        assert(ss[i] == s);
    }
    assert forall|s: CodeStatement| #[trigger] ss.contains(s) implies found.contains(s) by {
        let i = choose|i: int| 0 <= i < ss.len() && ss[i] == s;
        assert(0 <= place_of(found, rows[i]) < found.len());
    }
    ss
}

/// The same statements in another order describe the same cells.
proof fn lemma_reordered(d: Datum, a: Seq<CodeStatement>, b: Seq<CodeStatement>)
    requires
        describes(d, a),
        same_statements(a, b),
    ensures
        describes(d, b),
{
    assert(covers(d, b)) by {
        reveal(covers);
    }
    assert(keeps_to(d, b)) by {
        reveal(keeps_to);
        assert forall|i: int| 0 <= i < b.len() implies of_cell(d, #[trigger] b[i]) by {
            assert(b.contains(b[i]));
            assert(a.contains(b[i]));
            let j = choose|j: int| 0 <= j < a.len() && a[j] == b[i];
            assert(of_cell(d, a[j]));
        }
    }
}

/// The statements of a code graph, in the order in which they stand there.
proof fn lemma_sorted_statements(d: Datum) -> (ss: Seq<CodeStatement>)
    requires
        distinct_cells(d),
    ensures
        describes(d, ss),
        code_graph(d) == code_graph_text(code_term(d), ss),
{
    let found = code_statements(d);
    lemma_statements_describe(d);
    lemma_lines_are_distinct(d, found);
    let ss = lemma_sorted_lines(found);
    lemma_reordered(d, found, ss);
    ss
}

/// The term of a graph that a term of a code graph is read as.
spec fn as_read(t: CodeTerm) -> RdfTerm<Seq<char>> {
    match object_of(t) {
        Object::Iri(s) => RdfTerm::Iri(s),
        Object::Literal { value, datatype } => RdfTerm::Literal { value, datatype },
        Object::Other => arbitrary(),
    }
}

/// Whether what a graph says of the cells of a datum is what the code graph says.
spec fn says(g: Links, d: Datum) -> bool {
    &&& g.root == Some(as_read(code_term(d)))
    &&& forall|t: Seq<Datum>| #[trigger]
        has_cell(d, t) ==> g.firsts.contains_key(cell_iri(t)) && g.firsts[cell_iri(t)] == as_read(
            code_term(t[0]),
        ) && g.rests.contains_key(cell_iri(t)) && g.rests[cell_iri(t)] == as_read(
            list_term(t.drop_first()),
        )
}

/// Whether what a graph says of the cells of a datum that some statements are about is what
/// those statements say.
spec fn says_so_far(g: Links, d: Datum, ss: Seq<CodeStatement>) -> bool {
    &&& g.root == Some(as_read(code_term(d)))
    &&& forall|t: Seq<Datum>| #[trigger]
        has_cell(d, t) && ss.contains(head_statement(t)) ==> g.firsts.contains_key(cell_iri(t))
            && g.firsts[cell_iri(t)] == as_read(code_term(t[0]))
    &&& forall|t: Seq<Datum>| #[trigger]
        has_cell(d, t) && ss.contains(tail_statement(t)) ==> g.rests.contains_key(cell_iri(t))
            && g.rests[cell_iri(t)] == as_read(list_term(t.drop_first()))
}

proof fn lemma_vocabulary()
    ensures
        RDF_FIRST@ != RDF_REST@,
        SX_ROOT@ != RDF_FIRST@,
        SX_ROOT@ != RDF_REST@,
        SX_SYMBOL@ != XSD_STRING@,
        SX_SYMBOL@ != XSD_INTEGER@,
        XSD_STRING@ != XSD_INTEGER@,
{
    reveal_strlit("http://www.w3.org/1999/02/22-rdf-syntax-ns#first");
    reveal_strlit("http://www.w3.org/1999/02/22-rdf-syntax-ns#rest");
    reveal_strlit("https://ikigai-rs.dev/ns/sexpr#root");
    reveal_strlit("https://ikigai-rs.dev/ns/sexpr#symbol");
    reveal_strlit("http://www.w3.org/2001/XMLSchema#string");
    reveal_strlit("http://www.w3.org/2001/XMLSchema#integer");
    assert(RDF_FIRST@.len() != RDF_REST@.len());
    assert(SX_ROOT@.len() != RDF_FIRST@.len());
    assert(SX_ROOT@.len() != RDF_REST@.len());
    assert(SX_SYMBOL@.len() != XSD_STRING@.len());
    assert(SX_SYMBOL@.len() != XSD_INTEGER@.len());
    assert(XSD_STRING@.len() != XSD_INTEGER@.len());
}

proof fn lemma_graph_says(d: Datum, ss: Seq<CodeStatement>)
    requires
        distinct_cells(d),
        keeps_to(d, ss),
    ensures
        links_of(code_graph_items(code_term(d), ss)) matches Ok(g) && says_so_far(g, d, ss),
    decreases ss.len(),
{
    let root = code_term(d);
    let items = code_graph_items(root, ss);
    lemma_vocabulary();
    if ss.len() == 0 {
        assert(items.drop_last() =~= Seq::<Item>::empty());
        assert(items.last() == root_item(root));
        assert(links_of(items.drop_last()) is Ok);
        assert(links_of(items) is Ok);
    } else {
        let before = ss.drop_last();
        let s = ss.last();
        assert(keeps_to(d, before) && of_cell(d, s)) by {
            reveal(keeps_to);
            assert(s == ss[ss.len() - 1]);
            assert forall|i: int| 0 <= i < before.len() implies of_cell(
                d,
                #[trigger] before[i],
            ) by {
                assert(before[i] == ss[i]);
            }
        }
        lemma_graph_says(d, before);
        assert(items.drop_last() =~= code_graph_items(root, before));
        assert(items.last() == statement_item(s));
        let old_g = links_of(code_graph_items(root, before))->Ok_0;
        let t0 = choose|t: Seq<Datum>| #[trigger]
            has_cell(d, t) && (s == head_statement(t) || s == tail_statement(t));
        assert(links_of(items) is Ok);
        let g = links_of(items)->Ok_0;
        assert forall|t: Seq<Datum>| #[trigger]
            has_cell(d, t) && ss.contains(head_statement(t)) implies g.firsts.contains_key(
            cell_iri(t),
        ) && g.firsts[cell_iri(t)] == as_read(code_term(t[0])) by {
            lemma_contains_last(ss, head_statement(t));
            if s == head_statement(t) {
                assert(s.head);
            } else if s.head && cell_iri(t0) == cell_iri(t) {
                assert(t0 == t);
            }
        }
        assert forall|t: Seq<Datum>| #[trigger]
            has_cell(d, t) && ss.contains(tail_statement(t)) implies g.rests.contains_key(
            cell_iri(t),
        ) && g.rests[cell_iri(t)] == as_read(list_term(t.drop_first())) by {
            lemma_contains_last(ss, tail_statement(t));
            if s == tail_statement(t) {
                assert(!s.head);
            } else if !s.head && cell_iri(t0) == cell_iri(t) {
                assert(t0 == t);
            }
        }
    }
}

proof fn lemma_contains_last(ss: Seq<CodeStatement>, s: CodeStatement)
    requires
        ss.len() > 0,
        ss.contains(s),
    ensures
        ss.last() == s || ss.drop_last().contains(s),
{
    let i = choose|i: int| 0 <= i < ss.len() && ss[i] == s;
    if i < ss.len() - 1 {
        assert(ss.drop_last()[i] == s);
    }
}

// ---------------------------------------------------------------------------------------
// Decoding the graph
// ---------------------------------------------------------------------------------------

/// A term of the code graph decodes to the part of the datum that it stands for.
proof fn lemma_term_decodes(d: Datum, g: Links, part: Datum, room: nat)
    requires
        distinct_cells(d),
        says(g, d),
        g.firsts.dom().finite(),
        part matches Datum::List(ds) ==> ds.len() > 0 ==> has_cell(d, ds),
        room >= 1,
        nests_within(part, room - 1),
    ensures
        decode_term(g, as_read(code_term(part)), room) == Ok::<Datum, Fault>(part),
    decreases part, 0int,
{
    lemma_vocabulary();
    match part {
        Datum::Int(n) => {
            decimal_reads_back(n);
        },
        Datum::List(ds) => {
            lemma_chain_decodes(d, g, ds, Set::empty(), (room - 1) as nat);
        },
        _ => {},
    }
}

/// The chain of cells of a list decodes to the list.
proof fn lemma_chain_decodes(
    d: Datum,
    g: Links,
    ds: Seq<Datum>,
    visited: Set<Seq<char>>,
    room: nat,
)
    requires
        distinct_cells(d),
        says(g, d),
        g.firsts.dom().finite(),
        ds.len() > 0 ==> has_cell(d, ds),
        forall|iri: Seq<char>| #[trigger]
            visited.contains(iri) ==> exists|t: Seq<Datum>| #[trigger]
                has_cell(d, t) && t.len() > ds.len() && cell_iri(t) == iri,
        room >= 1,
        forall|i: int| 0 <= i < ds.len() ==> nests_within(#[trigger] ds[i], room - 1),
    ensures
        decode_chain(g, as_read(list_term(ds)), visited, room) == Ok::<Seq<Datum>, Fault>(ds),
    decreases ds, 1int,
{
    if ds.len() == 0 {
        assert(ds =~= Seq::<Datum>::empty());
    } else {
        let cur = cell_iri(ds);
        let rest = ds.drop_first();
        lemma_cell_iri(ds);
        if visited.contains(cur) {
            let t = choose|t: Seq<Datum>| #[trigger]
                has_cell(d, t) && t.len() > ds.len() && cell_iri(t) == cur;
            assert(t == ds);
        }
        assert(list_has_cell(ds, ds));
        if let Datum::List(inner) = ds[0] {
            if inner.len() > 0 {
                assert(has_cell(ds[0], inner)) by {
                    assert(list_has_cell(inner, inner));
                }
                assert(list_has_cell(ds, inner));
                lemma_cells_are_inherited(d, ds, inner);
            }
        }
        if rest.len() > 0 {
            assert(list_has_cell(rest, rest));
            assert(list_has_cell(ds, rest));
            lemma_cells_are_inherited(d, ds, rest);
        }
        lemma_term_decodes(d, g, ds[0], room);
        let onward = visited.insert(cur);
        assert forall|iri: Seq<char>| #[trigger] onward.contains(iri) implies exists|
            t: Seq<Datum>,
        | #[trigger]
            has_cell(d, t) && t.len() > rest.len() && cell_iri(t) == iri by {
            if iri == cur {
                assert(has_cell(d, ds));
            } else {
                let t = choose|t: Seq<Datum>| #[trigger]
                    has_cell(d, t) && t.len() > ds.len() && cell_iri(t) == iri;
                assert(t.len() > rest.len());
            }
        }
        lemma_chain_decodes(d, g, rest, onward, room);
        assert(seq![ds[0]] + rest =~= ds);
    }
}

/// The terms of a code graph have IRIs in the shape of a cell's.
proof fn lemma_code_terms_are_plain(d: Datum)
    ensures
        plain_term(code_term(d)),
{
    if let Datum::List(ds) = d {
        lemma_cell_iri(ds);
    }
}

/// The statements of a code graph have IRIs in the shape of a cell's.
proof fn lemma_statements_are_plain(d: Datum, s: CodeStatement)
    requires
        of_cell(d, s),
    ensures
        plain_statement(s),
{
    let t = choose|t: Seq<Datum>| #[trigger]
        has_cell(d, t) && (s == head_statement(t) || s == tail_statement(t));
    lemma_cell_iri(t);
    lemma_cell_iri(t.drop_first());
    lemma_code_terms_are_plain(t[0]);
}

/// What the statements of a code graph say of the cells of its datum.
proof fn lemma_described_graph_says(d: Datum, ss: Seq<CodeStatement>)
    requires
        distinct_cells(d),
        describes(d, ss),
    ensures
        links_of(code_graph_items(code_term(d), ss)) matches Ok(g) && says(g, d),
{
    lemma_graph_says(d, ss);
    let g = links_of(code_graph_items(code_term(d), ss))->Ok_0;
    reveal(covers);
    assert forall|t: Seq<Datum>| #[trigger] has_cell(d, t) implies g.firsts.contains_key(
        cell_iri(t),
    ) && g.firsts[cell_iri(t)] == as_read(code_term(t[0])) && g.rests.contains_key(cell_iri(t))
        && g.rests[cell_iri(t)] == as_read(list_term(t.drop_first())) by {
        assert(ss.contains(head_statement(t)));
        assert(ss.contains(tail_statement(t)));
    }
}

/// A graph that describes every cell of a datum decodes to the datum.
proof fn lemma_described_graph_decodes(d: Datum, ss: Seq<CodeStatement>)
    requires
        nests_within(d, MAX_DECODE_DEPTH as int),
        distinct_cells(d),
        describes(d, ss),
    ensures
        decoded(code_graph_items(code_term(d), ss)) == Ok::<Datum, Fault>(d),
{
    lemma_described_graph_says(d, ss);
    let items = code_graph_items(code_term(d), ss);
    let g = links_of(items)->Ok_0;
    lemma_links_are_finite(items);
    if let Datum::List(ds) = d {
        if ds.len() > 0 {
            assert(list_has_cell(ds, ds));
        }
    }
    lemma_term_decodes(d, g, d, (MAX_DECODE_DEPTH + 1) as nat);
}

/// Reading back the triples of the code graph of a datum, in the order in which they stand
/// there, gives the datum: for every datum that nests no deeper than a graph is decoded, and
/// whose different cells have different IRIs.
pub proof fn code_graph_decodes_to_its_datum(d: Datum) -> (ss: Seq<CodeStatement>)
    requires
        nests_within(d, MAX_DECODE_DEPTH as int),
        distinct_cells(d),
    ensures
        code_graph(d) == code_graph_text(code_term(d), ss),
        plain_term(code_term(d)),
        forall|i: int| 0 <= i < ss.len() ==> plain_statement(#[trigger] ss[i]),
        decoded(code_graph_items(code_term(d), ss)) == Ok::<Datum, Fault>(d),
{
    let ss = lemma_sorted_statements(d);
    lemma_code_terms_are_plain(d);
    lemma_described_graph_decodes(d, ss);
    assert forall|i: int| 0 <= i < ss.len() implies plain_statement(#[trigger] ss[i]) by {
        assert(of_cell(d, ss[i])) by {
            reveal(keeps_to);
        }
        lemma_statements_are_plain(d, ss[i]);
    }
    ss
}

/// Whatever the reader gives nests no deeper than a code graph is decoded.
pub proof fn whatever_is_read_can_be_decoded(src: Seq<char>)
    ensures
        document(src) matches Ok(d) ==> nests_within(d, MAX_DECODE_DEPTH as int),
{
    read_datum_is_readable(src);
}

// ---------------------------------------------------------------------------------------
// Nodes are fingerprints
// ---------------------------------------------------------------------------------------

/// Two different runs of bytes with the same hash.
pub open spec fn collision(a: Seq<u8>, b: Seq<u8>) -> bool {
    a != b && hash(a) == hash(b)
}

/// What is hashed of a datum.
pub open spec fn hashed(d: Datum) -> Seq<u8> {
    match d {
        Datum::Symbol(s) => atom_bytes(1, encode_utf8(s)),
        Datum::Str(s) => atom_bytes(2, encode_utf8(s)),
        Datum::Int(n) => atom_bytes(3, le_bytes(twos_complement(n), 8)),
        Datum::List(items) => hashed_list(items),
    }
}

/// What is hashed of a list.
pub open spec fn hashed_list(items: Seq<Datum>) -> Seq<u8> {
    if items.len() == 0 {
        seq![0u8]
    } else {
        seq![4u8] + content_hash(items[0]) + list_hash(items.drop_first())
    }
}

/// Whether a run of bytes is hashed of a datum, or of a part of it.
pub open spec fn hashed_in(d: Datum, x: Seq<u8>) -> bool
    decreases d, 0int,
{
    match d {
        Datum::List(items) => hashed_in_list(items, x),
        _ => x == hashed(d),
    }
}

/// Whether a run of bytes is hashed of a list, or of a tail or an item of it.
pub open spec fn hashed_in_list(items: Seq<Datum>, x: Seq<u8>) -> bool
    decreases items, 1int,
{
    x == hashed_list(items) || (items.len() > 0 && (hashed_in(items[0], x) || hashed_in_list(
        items.drop_first(),
        x,
    )))
}

/// Whether something that is hashed of one datum collides with something that is hashed of
/// another.
pub open spec fn collide(a: Datum, b: Datum) -> bool {
    exists|x: Seq<u8>, y: Seq<u8>|
        hashed_in(a, x) && hashed_in(b, y) && #[trigger] collision(x, y)
}

proof fn lemma_le_bytes(n: nat, count: nat)
    ensures
        le_bytes(n, count).len() == count,
    decreases count,
{
    if count > 0 {
        lemma_le_bytes(n / 256, (count - 1) as nat);
    }
}

/// The largest number that fits in so many bytes, plus one.
spec fn byte_bound(count: nat) -> nat
    decreases count,
{
    if count == 0 {
        1
    } else {
        256 * byte_bound((count - 1) as nat)
    }
}

proof fn lemma_le_bytes_is_injective(m: nat, n: nat, count: nat)
    requires
        m < byte_bound(count),
        n < byte_bound(count),
        le_bytes(m, count) == le_bytes(n, count),
    ensures
        m == n,
    decreases count,
{
    if count > 0 {
        let less = (count - 1) as nat;
        let a = le_bytes(m, count);
        let b = le_bytes(n, count);
        assert(a[0] == (m % 256) as u8);
        assert(b[0] == (n % 256) as u8);
        assert(a.skip(1) =~= le_bytes(m / 256, less));
        assert(b.skip(1) =~= le_bytes(n / 256, less));
        lemma_le_bytes_is_injective(m / 256, n / 256, less);
    }
}

proof fn lemma_atom_bytes_is_injective(tag: u8, a: Seq<u8>, other: u8, b: Seq<u8>)
    requires
        atom_bytes(tag, a) == atom_bytes(other, b),
    ensures
        tag == other,
        a == b,
{
    lemma_le_bytes(a.len(), 8);
    lemma_le_bytes(b.len(), 8);
    assert(atom_bytes(tag, a)[0] == tag);
    assert(atom_bytes(other, b)[0] == other);
    assert(atom_bytes(tag, a).skip(9) =~= a);
    assert(atom_bytes(other, b).skip(9) =~= b);
}

proof fn lemma_content_hash_len(d: Datum)
    ensures
        content_hash(d).len() == 32,
{
}

/// Data with the same content hash are equal, or a collision is among what is hashed of them.
pub proof fn equal_hashes_mean_equal_data(a: Datum, b: Datum)
    requires
        content_hash(a) == content_hash(b),
    ensures
        a == b || collide(a, b),
    decreases a, 0int,
{
    lemma_hashed_in_itself(a);
    lemma_hashed_in_itself(b);
    if hashed(a) != hashed(b) {
        assert(collision(hashed(a), hashed(b)));
    } else {
        match a {
            Datum::List(xs) => match b {
                Datum::List(ys) => {
                    lemma_equal_hashes_mean_equal_lists(xs, ys);
                },
                _ => {
                    lemma_marker(xs);
                },
            },
            _ => match b {
                Datum::List(ys) => {
                    lemma_marker(ys);
                },
                _ => {
                    lemma_equal_atoms(a, b);
                },
            },
        }
    }
}

proof fn lemma_hashed_in_itself(d: Datum)
    ensures
        hashed_in(d, hashed(d)),
{
    if let Datum::List(items) = d {
        assert(hashed_in_list(items, hashed_list(items)));
    }
}

/// What collides in two items or in two tails collides in the lists.
proof fn lemma_collisions_are_inherited(xs: Seq<Datum>, ys: Seq<Datum>)
    requires
        xs.len() > 0,
        ys.len() > 0,
        collide(xs[0], ys[0]) || collide(
            Datum::List(xs.drop_first()),
            Datum::List(ys.drop_first()),
        ),
    ensures
        collide(Datum::List(xs), Datum::List(ys)),
{
    let (a, b) = if collide(xs[0], ys[0]) {
        (xs[0], ys[0])
    } else {
        (Datum::List(xs.drop_first()), Datum::List(ys.drop_first()))
    };
    let (x, y) = choose|x: Seq<u8>, y: Seq<u8>|
        hashed_in(a, x) && hashed_in(b, y) && #[trigger] collision(x, y);
    assert(hashed_in_list(xs, x));
    assert(hashed_in_list(ys, y));
    assert(hashed_in(Datum::List(xs), x));
    assert(hashed_in(Datum::List(ys), y));
}

proof fn lemma_marker(items: Seq<Datum>)
    ensures
        hashed_list(items)[0] == 0 || hashed_list(items)[0] == 4,
{
}

proof fn lemma_equal_atoms(a: Datum, b: Datum)
    requires
        !(a is List),
        !(b is List),
        hashed(a) == hashed(b),
    ensures
        a == b,
{
    let (tag, x): (u8, Seq<u8>) = match a {
        Datum::Symbol(s) => (1u8, encode_utf8(s)),
        Datum::Str(s) => (2u8, encode_utf8(s)),
        Datum::Int(n) => (3u8, le_bytes(twos_complement(n), 8)),
        _ => arbitrary(),
    };
    let (other, y): (u8, Seq<u8>) = match b {
        Datum::Symbol(s) => (1u8, encode_utf8(s)),
        Datum::Str(s) => (2u8, encode_utf8(s)),
        Datum::Int(n) => (3u8, le_bytes(twos_complement(n), 8)),
        _ => arbitrary(),
    };
    lemma_atom_bytes_is_injective(tag, x, other, y);
    match (a, b) {
        (Datum::Symbol(s), Datum::Symbol(t)) => {
            lemma_utf8_is_injective(s, t);
        },
        (Datum::Str(s), Datum::Str(t)) => {
            lemma_utf8_is_injective(s, t);
        },
        (Datum::Int(m), Datum::Int(n)) => {
            reveal_with_fuel(byte_bound, 9);
            assert(byte_bound(8) == 0x1_0000_0000_0000_0000);
            lemma_le_bytes_is_injective(twos_complement(m), twos_complement(n), 8);
        },
        _ => {},
    }
}

proof fn lemma_equal_hashes_mean_equal_lists(xs: Seq<Datum>, ys: Seq<Datum>)
    requires
        list_hash(xs) == list_hash(ys),
    ensures
        xs == ys || collide(Datum::List(xs), Datum::List(ys)),
    decreases xs, 1int,
{
    lemma_hashed_in_itself(Datum::List(xs));
    lemma_hashed_in_itself(Datum::List(ys));
    if hashed_list(xs) != hashed_list(ys) {
        assert(collision(hashed_list(xs), hashed_list(ys)));
    } else {
        lemma_marker(xs);
        lemma_marker(ys);
        if xs.len() == 0 || ys.len() == 0 {
            assert(seq![0u8][0] == 0);
            assert(xs.len() > 0 ==> hashed_list(xs)[0] == 4);
            assert(ys.len() > 0 ==> hashed_list(ys)[0] == 4);
            assert(xs =~= ys);
        } else {
            let h = hashed_list(xs);
            lemma_content_hash_len(xs[0]);
            lemma_content_hash_len(ys[0]);
            assert(h.subrange(1, 33) =~= content_hash(xs[0]));
            assert(h.subrange(1, 33) =~= content_hash(ys[0])) by {
                assert(hashed_list(ys).subrange(1, 33) =~= content_hash(ys[0]));
            }
            assert(h.skip(33) =~= list_hash(xs.drop_first()));
            assert(h.skip(33) =~= list_hash(ys.drop_first())) by {
                assert(hashed_list(ys).skip(33) =~= list_hash(ys.drop_first()));
            }
            equal_hashes_mean_equal_data(xs[0], ys[0]);
            lemma_equal_hashes_mean_equal_lists(xs.drop_first(), ys.drop_first());
            if xs[0] == ys[0] && xs.drop_first() == ys.drop_first() {
                assert(xs =~= seq![xs[0]] + xs.drop_first());
                assert(ys =~= seq![ys[0]] + ys.drop_first());
            } else {
                lemma_collisions_are_inherited(xs, ys);
            }
        }
    }
}

/// The IRI of a cell is a fingerprint: equal lists have the same IRI, and lists with the same
/// IRI are equal, or a collision is among what is hashed of them.
pub proof fn a_node_is_a_fingerprint(s: Seq<Datum>, t: Seq<Datum>)
    ensures
        s == t ==> cell_iri(s) == cell_iri(t),
        cell_iri(s) == cell_iri(t) ==> s == t || collide(Datum::List(s), Datum::List(t)),
{
    if cell_iri(s) == cell_iri(t) {
        lemma_cell_iri_is_injective(s, t);
        lemma_equal_hashes_mean_equal_lists(s, t);
    }
}

/// What is hashed of a cell of a datum is hashed of the datum.
proof fn lemma_hashed_in_cell(d: Datum, t: Seq<Datum>, x: Seq<u8>)
    requires
        has_cell(d, t),
        hashed_in_list(t, x),
    ensures
        hashed_in(d, x),
    decreases d, 0int,
{
    lemma_hashed_in_tail(d->List_0, t, x);
}

proof fn lemma_hashed_in_tail(ds: Seq<Datum>, t: Seq<Datum>, x: Seq<u8>)
    requires
        list_has_cell(ds, t),
        hashed_in_list(t, x),
    ensures
        hashed_in_list(ds, x),
    decreases ds, 1int,
{
    if t != ds {
        if has_cell(ds[0], t) {
            lemma_hashed_in_cell(ds[0], t, x);
        } else {
            lemma_hashed_in_tail(ds.drop_first(), t, x);
        }
    }
}

/// Different cells of a datum have different IRIs, unless two of the runs of bytes that are
/// hashed of it collide.
pub proof fn cells_are_distinct(d: Datum)
    ensures
        distinct_cells(d) || collide(d, d),
{
    if !collide(d, d) {
        assert forall|s: Seq<Datum>, t: Seq<Datum>| #[trigger]
            has_cell(d, s) && #[trigger] has_cell(d, t) && cell_iri(s) == cell_iri(t) implies s
            == t by {
            a_node_is_a_fingerprint(s, t);
            if s != t {
                let (x, y) = choose|x: Seq<u8>, y: Seq<u8>|
                    hashed_in(Datum::List(s), x) && hashed_in(Datum::List(t), y)
                        && #[trigger] collision(x, y);
                lemma_hashed_in_cell(d, s, x);
                lemma_hashed_in_cell(d, t, y);
            }
        }
    }
}

/// A term of a code graph is written on one line.
proof fn lemma_term_text_is_one_line(t: CodeTerm)
    requires
        plain_term(t),
    ensures
        forall|i: int| 0 <= i < term_text(t).len() ==> #[trigger] term_text(t)[i] != '\n',
{
    match t {
        CodeTerm::Nil => {
            reveal_strlit("rdf:nil");
        },
        CodeTerm::Cell(iri) => {
            reveal_strlit("<");
            reveal_strlit(">");
            reveal_strlit("urn:sexpr:");
            let name = choose|name: Seq<char>|
                iri == #[trigger] (SEXPR_NODE_PREFIX@ + name) && name.len() > 0 && forall|i: int|
                    0 <= i < name.len() ==> ascii_alphanumeric(#[trigger] name[i]);
            assert forall|i: int| 0 <= i < term_text(t).len() implies #[trigger] term_text(t)[i]
                != '\n' by {
                let k = SEXPR_NODE_PREFIX@.len() as int;
                if 1 + k <= i < 1 + iri.len() {
                    assert(term_text(t)[i] == name[i - 1 - k]);
                }
            }
        },
        CodeTerm::Atom(value, kind) => {
            quoted_text_is_one_line(value);
            reveal_strlit("^^sx:symbol");
            reveal_strlit("^^xsd:string");
            reveal_strlit("^^xsd:integer");
            assert forall|i: int| 0 <= i < term_text(t).len() implies #[trigger] term_text(t)[i]
                != '\n' by {
                if i < quoted(value).len() {
                    assert(term_text(t)[i] == quoted(value)[i]);
                } else {
                    assert(term_text(t)[i] == kind_text(kind)[i - quoted(value).len()]);
                }
            }
        },
    }
}

/// A text on one line can be told from what follows its line.
proof fn lemma_first_line(t: Seq<char>, u: Seq<char>, v: Seq<char>, w: Seq<char>)
    requires
        forall|i: int| 0 <= i < t.len() ==> #[trigger] t[i] != '\n',
        forall|i: int| 0 <= i < u.len() ==> #[trigger] u[i] != '\n',
        t + " .\n"@ + v == u + " .\n"@ + w,
    ensures
        t == u,
{
    reveal_strlit(" .\n");
    let a = t + " .\n"@ + v;
    let b = u + " .\n"@ + w;
    assert(a[t.len() as int + 2] == '\n');
    assert(b[u.len() as int + 2] == '\n');
    if t.len() < u.len() {
        assert(b[t.len() as int + 2] != '\n');
    }
    if u.len() < t.len() {
        assert(a[u.len() as int + 2] != '\n');
    }
    assert forall|i: int| 0 <= i < t.len() implies t[i] == u[i] by {
        assert(a[i] == t[i]);
        assert(b[i] == u[i]);
    }
    assert(t =~= u);
}

/// Different data have different code graphs, unless something that is hashed of the one
/// collides with something that is hashed of the other.
pub proof fn different_data_have_different_graphs(a: Datum, b: Datum)
    requires
        code_graph(a) == code_graph(b),
    ensures
        a == b || collide(a, b),
{
    let (s, t) = (code_term(a), code_term(b));
    lemma_code_terms_are_plain(a);
    lemma_code_terms_are_plain(b);
    lemma_term_text_is_one_line(s);
    lemma_term_text_is_one_line(t);
    let n = prologue().len() as int;
    let (v, w) = (code_graph(a).skip(n + term_text(s).len() + 3), code_graph(b).skip(n + term_text(
        t,
    ).len() + 3));
    reveal_strlit(" .\n");
    assert(code_graph(a).skip(n) =~= term_text(s) + " .\n"@ + v);
    assert(code_graph(b).skip(n) =~= term_text(t) + " .\n"@ + w);
    lemma_first_line(term_text(s), term_text(t), v, w);
    lemma_term_text_is_injective(s, t);
    match (a, b) {
        (Datum::Int(x), Datum::Int(y)) => {
            decimal_reads_back(x);
            decimal_reads_back(y);
        },
        (Datum::List(xs), Datum::List(ys)) => {
            if xs.len() == 0 || ys.len() == 0 {
                assert(xs =~= ys);
            } else {
                a_node_is_a_fingerprint(xs, ys);
            }
        },
        _ => {},
    }
}

// ---------------------------------------------------------------------------------------
// What else is in a graph
// ---------------------------------------------------------------------------------------

/// A triple that is no part of a code graph: its subject is a blank node, or its predicate is
/// none of the vocabulary, or it names the root of something else.
pub open spec fn unrelated(t: Triple<Seq<char>>) -> bool {
    match t.subject {
        Subject::Blank => true,
        Subject::Iri(s) => t.predicate != RDF_FIRST@ && t.predicate != RDF_REST@ && (t.predicate
            != SX_ROOT@ || s != SEXPR_DOCUMENT@),
    }
}

/// Triples that are no part of a code graph change nothing, wherever they stand.
pub proof fn other_triples_are_ignored(a: Seq<Item>, t: Triple<Seq<char>>, b: Seq<Item>)
    requires
        unrelated(t),
    ensures
        decoded(a.push(Item::Triple(t)) + b) == decoded(a + b),
{
    lemma_unrelated_links(a, t, b);
}

proof fn lemma_unrelated_links(a: Seq<Item>, t: Triple<Seq<char>>, b: Seq<Item>)
    requires
        unrelated(t),
    ensures
        links_of(a.push(Item::Triple(t)) + b) == links_of(a + b),
    decreases b.len(),
{
    let more = a.push(Item::Triple(t));
    if b.len() == 0 {
        assert(more + b =~= more);
        assert(a + b =~= a);
        assert(more.drop_last() =~= a);
        assert(more.last() == Item::Triple(t));
    } else {
        lemma_unrelated_links(a, t, b.drop_last());
        assert((more + b).drop_last() =~= more + b.drop_last());
        assert((a + b).drop_last() =~= a + b.drop_last());
    }
}

/// A code graph has no blank nodes: each of its triples has an IRI for its subject, and an IRI
/// or a literal for its object.
pub proof fn a_code_graph_has_no_blank_nodes(root: CodeTerm, ss: Seq<CodeStatement>, i: int)
    requires
        0 <= i < code_graph_items(root, ss).len(),
    ensures
        code_graph_items(root, ss)[i] matches Item::Triple(t) && t.subject is Iri && !(
        t.object is Other),
{
}

} // verus!
