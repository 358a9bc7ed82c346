//! What a code graph says, told row by row: which rows it has, and what stands on each of them;
//! and which bytes the fingerprint of a datum is made from.

use vstd::prelude::*;
use vstd::utf8::*;

use crate::codec_laws::{distinct_cells, has_cell, list_has_cell};
use crate::codegraph::{
    cell_iri, code_term, head_statement, list_term, statement_text, tail_statement, term_text,
};
use crate::datum::Datum;
use crate::digest::{
    atom_bytes, content_hash, hash, hex, le_bytes, list_hash, sha256_digest, twos_complement,
};
use crate::encode::code_graph;
use crate::layout_laws::run_together;
use crate::lines::lines;
use crate::number_laws::{
    a_number_is_the_sum_of_its_bytes, a_numeral_is_made_of_figures, byte_sum, figures, power,
    twos_complement_is_modular,
};
use crate::order::text_leq;
use crate::query_laws::lemma_lines_run_together;
use crate::row_laws::{
    code_rows, each_cell_has_two_rows, every_row_is_of_a_cell, rows_ascend_and_are_distinct,
};
use crate::text::{decimal, decimal_reads_back, numeral, quoted};
use crate::text_laws::a_plain_text_is_quoted_as_it_is;

verus! {

// ---------------------------------------------------------------------------------------
// Fingerprints
// ---------------------------------------------------------------------------------------

/// Whether a message is a tag, the length of a payload in eight bytes, the lowest first, and the
/// payload.
pub open spec fn frames(m: Seq<u8>, tag: u8, payload: Seq<u8>) -> bool {
    &&& m.len() == 9 + payload.len()
    &&& m[0] == tag
    &&& byte_sum(m.subrange(1, 9)) == payload.len()
    &&& m.skip(9) == payload
}

/// The fingerprint of an atom is the hash of a message that frames it: a symbol or a string by
/// its UTF-8 bytes, an integer by its eight bytes in two's complement, the lowest first; each
/// kind with a tag of its own.
pub proof fn an_atom_is_hashed_as_it_is_framed(d: Datum)
    requires
        d matches Datum::Symbol(s) ==> encode_utf8(s).len() < power(256, 8),
        d matches Datum::Str(s) ==> encode_utf8(s).len() < power(256, 8),
    ensures
        d matches Datum::Symbol(s) ==> exists|m: Seq<u8>| #[trigger]
            frames(m, 1, encode_utf8(s)) && content_hash(d) == hash(m),
        d matches Datum::Str(s) ==> exists|m: Seq<u8>| #[trigger]
            frames(m, 2, encode_utf8(s)) && content_hash(d) == hash(m),
        d matches Datum::Int(n) ==> exists|m: Seq<u8>, payload: Seq<u8>| #[trigger]
            frames(m, 3, payload) && content_hash(d) == hash(m) && payload.len() == 8 && (byte_sum(
                payload,
            ) == n || byte_sum(payload) == n + power(256, 8)),
{
    match d {
        Datum::Symbol(s) => {
            a_message_frames_its_payload(1, encode_utf8(s));
            assert(frames(atom_bytes(1, encode_utf8(s)), 1, encode_utf8(s)));
        },
        Datum::Str(s) => {
            a_message_frames_its_payload(2, encode_utf8(s));
            assert(frames(atom_bytes(2, encode_utf8(s)), 2, encode_utf8(s)));
        },
        Datum::Int(n) => {
            twos_complement_is_modular(n);
            a_number_is_the_sum_of_its_bytes(twos_complement(n), 8);
            let payload = le_bytes(twos_complement(n), 8);
            assert(power(256, 8) > 8) by {
                reveal_with_fuel(power, 9);
            }
            a_message_frames_its_payload(3, payload);
            assert(frames(atom_bytes(3, payload), 3, payload));
        },
        Datum::List(_) => {},
    }
}

/// The message of an atom frames its payload.
pub proof fn a_message_frames_its_payload(tag: u8, payload: Seq<u8>)
    requires
        payload.len() < power(256, 8),
    ensures
        frames(atom_bytes(tag, payload), tag, payload),
{
    let m = atom_bytes(tag, payload);
    a_number_is_the_sum_of_its_bytes(payload.len(), 8);
    assert(m.subrange(1, 9) =~= le_bytes(payload.len(), 8));
    assert(m.skip(9) =~= payload);
}

/// The fingerprint of a list is that of its first item and of the rest behind it, hashed
/// together with a tag; that of the empty list is the hash of a tag alone. A hash is the SHA-256
/// of its message.
pub proof fn a_list_is_hashed_from_its_parts(first: Datum, rest: Seq<Datum>, m: Seq<u8>, i: int)
    requires
        0 <= i < 32,
    ensures
        content_hash(Datum::List(Seq::empty())) == hash(seq![0u8]),
        content_hash(Datum::List(seq![first] + rest)) == hash(
            seq![4u8] + content_hash(first) + content_hash(Datum::List(rest)),
        ),
        hash(m).len() == 32,
        hash(m)[i] == sha256_digest(m)[i],
{
    let all = seq![first] + rest;
    assert(all.drop_first() =~= rest);
    assert(all[0] == first);
    assert(content_hash(Datum::List(rest)) == list_hash(rest));
    assert(content_hash(Datum::List(all)) == list_hash(all));
    let none = Seq::<Datum>::empty();
    assert(content_hash(Datum::List(none)) == list_hash(none));
}

/// The IRI of a node is `urn:sexpr:` and the fingerprint of its list in hexadecimal.
pub proof fn a_node_is_named_by_its_fingerprint(ds: Seq<Datum>)
    ensures
        cell_iri(ds) == "urn:sexpr:"@ + hex(content_hash(Datum::List(ds))),
{
    assert(content_hash(Datum::List(ds)) == list_hash(ds));
}

// ---------------------------------------------------------------------------------------
// Rows
// ---------------------------------------------------------------------------------------

/// Whether a datum is another, or stands in it at some depth.
pub open spec fn part_of(x: Datum, d: Datum) -> bool
    decreases d,
{
    x == d || match d {
        Datum::List(ds) => exists|i: int| 0 <= i < ds.len() && part_of(x, #[trigger] ds[i]),
        _ => false,
    }
}

/// Whether a non-empty run of items is a tail of a list that stands in a datum.
pub open spec fn tail_in(t: Seq<Datum>, d: Datum) -> bool {
    exists|ds: Seq<Datum>, k: int|
        #![trigger part_of(Datum::List(ds), d), ds.skip(k)]
        part_of(Datum::List(ds), d) && 0 <= k < ds.len() && t == ds.skip(k)
}

/// How a datum is written in a code graph: a symbol, a string or an integer as a quoted literal
/// with its datatype; the empty list as `rdf:nil`; and any other list as its node.
pub open spec fn written(d: Datum) -> Seq<char> {
    match d {
        Datum::Symbol(s) => quoted(s) + "^^sx:symbol"@,
        Datum::Str(s) => quoted(s) + "^^xsd:string"@,
        Datum::Int(n) => quoted(decimal(n as int)) + "^^xsd:integer"@,
        Datum::List(ds) => if ds.len() == 0 {
            "rdf:nil"@
        } else {
            "<"@ + cell_iri(ds) + ">"@
        },
    }
}

/// The literal of an integer in a code graph is a numeral of that integer between quotes, with the
/// datatype of integers; that of a symbol or a string without quotes, backslashes, line feeds,
/// carriage returns and tabs is its text between quotes.
pub proof fn a_literal_denotes_its_atom(n: i64, s: Seq<char>)
    requires
        forall|i: int|
            0 <= i < s.len() ==> #[trigger] s[i] != '"' && s[i] != '\\' && s[i] != '\n' && s[i]
                != '\r' && s[i] != '\t',
    ensures
        exists|t: Seq<char>|
            #![trigger numeral(t)]
            numeral(t) == Some(n) && written(Datum::Int(n)) == seq!['"'] + t + seq!['"']
                + "^^xsd:integer"@,
        written(Datum::Symbol(s)) == seq!['"'] + s + seq!['"'] + "^^sx:symbol"@,
        written(Datum::Str(s)) == seq!['"'] + s + seq!['"'] + "^^xsd:string"@,
{
    let t = decimal(n as int);
    decimal_reads_back(n);
    a_numeral_is_made_of_figures(t);
    assert forall|i: int| 0 <= i < t.len() implies #[trigger] t[i] != '"' && t[i] != '\\' && t[i]
        != '\n' && t[i] != '\r' && t[i] != '\t' by {
        if !figures(t) && i > 0 {
            assert(t.skip(1)[i - 1] == t[i]);
        }
    }
    a_plain_text_is_quoted_as_it_is(t);
    a_plain_text_is_quoted_as_it_is(s);
    assert(numeral(t) == Some(n));
}

/// The row that names the first item of a tail.
pub open spec fn first_row(t: Seq<Datum>) -> Seq<char> {
    "<"@ + cell_iri(t) + "> rdf:first "@ + written(t[0]) + " ."@
}

/// The row that names what stands behind the first item of a tail.
pub open spec fn rest_row(t: Seq<Datum>) -> Seq<char> {
    "<"@ + cell_iri(t) + "> rdf:rest "@ + written(Datum::List(t.skip(1))) + " ."@
}

proof fn lemma_written(d: Datum)
    ensures
        term_text(code_term(d)) == written(d),
{
}

proof fn lemma_rows(t: Seq<Datum>)
    requires
        t.len() > 0,
    ensures
        statement_text(head_statement(t)) == first_row(t),
        statement_text(tail_statement(t)) == rest_row(t),
{
    lemma_written(t[0]);
    assert(t.drop_first() =~= t.skip(1));
    lemma_written(Datum::List(t.skip(1)));
    assert(code_term(Datum::List(t.skip(1))) == list_term(t.skip(1)));
}

proof fn lemma_part_in_list(x: Datum, ds: Seq<Datum>)
    ensures
        part_of(x, Datum::List(ds)) <==> (x == Datum::List(ds) || (exists|i: int|
            0 <= i < ds.len() && part_of(x, #[trigger] ds[i]))),
{
    let d = Datum::List(ds);
    if part_of(x, d) && x != d {
        let es = d->List_0;
        assert(es == ds);
        let i = choose|i: int| 0 <= i < es.len() && part_of(x, #[trigger] es[i]);
        assert(part_of(x, ds[i]));
    }
    if exists|i: int| 0 <= i < ds.len() && part_of(x, #[trigger] ds[i]) {
        let i = choose|i: int| 0 <= i < ds.len() && part_of(x, #[trigger] ds[i]);
        assert(part_of(x, d->List_0[i]));
        assert(part_of(x, d));
    }
}

/// A cell of a datum is a tail of a list in it.
proof fn lemma_cells_are_tails(d: Datum, t: Seq<Datum>)
    ensures
        has_cell(d, t) <==> tail_in(t, d),
    decreases d, 0int,
{
    if let Datum::List(ds) = d {
        lemma_list_cells_are_tails(ds, t);
        assert(has_cell(d, t) <==> list_has_cell(ds, t));
        if list_has_cell(ds, t) {
            if exists|k: int| 0 <= k < ds.len() && t == #[trigger] ds.skip(k) {
                let k = choose|k: int| 0 <= k < ds.len() && t == #[trigger] ds.skip(k);
                assert(part_of(Datum::List(ds), d));
                assert(tail_in(t, d));
            } else {
                let i = choose|i: int| 0 <= i < ds.len() && has_cell(#[trigger] ds[i], t);
                lemma_cells_are_tails(ds[i], t);
                let (es, k) = choose|es: Seq<Datum>, k: int|
                    #![trigger part_of(Datum::List(es), ds[i]), es.skip(k)]
                    part_of(Datum::List(es), ds[i]) && 0 <= k < es.len() && t == es.skip(k);
                lemma_part_in_list(Datum::List(es), ds);
                assert(part_of(Datum::List(es), d));
                assert(tail_in(t, d));
            }
        }
        if tail_in(t, d) {
            let (es, k) = choose|es: Seq<Datum>, k: int|
                #![trigger part_of(Datum::List(es), d), es.skip(k)]
                part_of(Datum::List(es), d) && 0 <= k < es.len() && t == es.skip(k);
            lemma_part_in_list(Datum::List(es), ds);
            if Datum::List(es) == d {
                assert(t == ds.skip(k));
            } else {
                let i = choose|i: int|
                    0 <= i < ds.len() && part_of(Datum::List(es), #[trigger] ds[i]);
                assert(tail_in(t, ds[i]));
                lemma_cells_are_tails(ds[i], t);
            }
        }
    } else {
        assert(!tail_in(t, d));
    }
}

proof fn lemma_list_cells_are_tails(ds: Seq<Datum>, t: Seq<Datum>)
    ensures
        list_has_cell(ds, t) <==> (exists|k: int| 0 <= k < ds.len() && t == #[trigger] ds.skip(k))
            || (exists|i: int| 0 <= i < ds.len() && has_cell(#[trigger] ds[i], t)),
    decreases ds, 1int,
{
    if ds.len() > 0 {
        let rest = ds.drop_first();
        lemma_list_cells_are_tails(rest, t);
        assert(ds.skip(0) =~= ds);
        if list_has_cell(ds, t) && t != ds && !has_cell(ds[0], t) {
            if exists|k: int| 0 <= k < rest.len() && t == #[trigger] rest.skip(k) {
                let k = choose|k: int| 0 <= k < rest.len() && t == #[trigger] rest.skip(k);
                assert(ds.skip(k + 1) =~= rest.skip(k));
            } else {
                let i = choose|i: int| 0 <= i < rest.len() && has_cell(#[trigger] rest[i], t);
                assert(has_cell(ds[i + 1], t));
            }
        }
        if exists|k: int| 0 <= k < ds.len() && t == #[trigger] ds.skip(k) {
            let k = choose|k: int| 0 <= k < ds.len() && t == #[trigger] ds.skip(k);
            if k > 0 {
                assert(rest.skip(k - 1) =~= ds.skip(k));
            }
        }
        if exists|i: int| 0 <= i < ds.len() && has_cell(#[trigger] ds[i], t) {
            let i = choose|i: int| 0 <= i < ds.len() && has_cell(#[trigger] ds[i], t);
            if i > 0 {
                assert(has_cell(rest[i - 1], t));
            }
        }
    }
}

/// Whether different tails in a datum have different nodes.
pub open spec fn nodes_are_distinct(d: Datum) -> bool {
    forall|s: Seq<Datum>, t: Seq<Datum>| #[trigger]
        tail_in(s, d) && #[trigger] tail_in(t, d) && cell_iri(s) == cell_iri(t) ==> s == t
}

/// A code graph is three prefix lines, a root line with the datum as it is written, and rows,
/// each on a line of its own, in ascending order and no two alike.
pub proof fn a_code_graph_is_its_root_and_its_rows(d: Datum)
    ensures
        code_graph(d)
            == "@prefix rdf: <http://www.w3.org/1999/02/22-rdf-syntax-ns#> .\n@prefix sx: <https://ikigai-rs.dev/ns/sexpr#> .\n@prefix xsd: <http://www.w3.org/2001/XMLSchema#> .\n<urn:sexpr:document> sx:root "@
            + written(d) + " .\n"@ + run_together(
            code_rows(d).map_values(|row: Seq<char>| row + "\n"@),
        ),
        forall|i: int, j: int|
            0 <= i < j < code_rows(d).len() ==> #[trigger] text_leq(
                code_rows(d)[i],
                code_rows(d)[j],
            ) && code_rows(d)[i] != code_rows(d)[j],
{
    rows_ascend_and_are_distinct(d);
    lemma_written(d);
    let rows = code_rows(d);
    reveal_strlit("");
    lemma_lines_run_together(rows, ""@, "\n"@);
    assert(rows.map_values(|t: Seq<char>| ""@ + t + "\n"@) =~= rows.map_values(
        |row: Seq<char>| row + "\n"@,
    )) by {
        assert forall|i: int| 0 <= i < rows.len() implies ""@ + rows[i] + "\n"@ == rows[i]
            + "\n"@ by {
            assert(""@ + rows[i] =~= rows[i]);
        }
    }
}

/// Each non-empty tail of a list in a datum has its two rows: one that names its first item as it
/// is written, and one that names what stands behind it.
pub proof fn each_tail_has_its_rows(d: Datum, t: Seq<Datum>)
    requires
        nodes_are_distinct(d),
        tail_in(t, d),
    ensures
        code_rows(d).contains(first_row(t)),
        code_rows(d).contains(rest_row(t)),
{
    lemma_distinct(d);
    lemma_cells_are_tails(d, t);
    each_cell_has_two_rows(d);
    assert(t.len() > 0) by {
        let (ds, k) = choose|ds: Seq<Datum>, k: int|
            #![trigger part_of(Datum::List(ds), d), ds.skip(k)]
            part_of(Datum::List(ds), d) && 0 <= k < ds.len() && t == ds.skip(k);
    }
    lemma_rows(t);
}

/// A code graph has no other rows.
pub proof fn each_row_is_of_a_tail(d: Datum, row: Seq<char>)
    requires
        nodes_are_distinct(d),
        code_rows(d).contains(row),
    ensures
        exists|t: Seq<Datum>| #[trigger] tail_in(t, d) && (row == first_row(t) || row == rest_row(t)),
{
    lemma_distinct(d);
    every_row_is_of_a_cell(d, row);
    let t = choose|t: Seq<Datum>| #[trigger]
        has_cell(d, t) && (row == statement_text(head_statement(t)) || row == statement_text(
            tail_statement(t),
        ));
    lemma_cells_are_tails(d, t);
    assert(t.len() > 0) by {
        let (ds, k) = choose|ds: Seq<Datum>, k: int|
            #![trigger part_of(Datum::List(ds), d), ds.skip(k)]
            part_of(Datum::List(ds), d) && 0 <= k < ds.len() && t == ds.skip(k);
    }
    lemma_rows(t);
}

proof fn lemma_distinct(d: Datum)
    requires
        nodes_are_distinct(d),
    ensures
        distinct_cells(d),
{
    assert forall|s: Seq<Datum>, t: Seq<Datum>| #[trigger]
        has_cell(d, s) && #[trigger] has_cell(d, t) && cell_iri(s) == cell_iri(t) implies s == t by {
        lemma_cells_are_tails(d, s);
        lemma_cells_are_tails(d, t);
    }
}

} // verus!
