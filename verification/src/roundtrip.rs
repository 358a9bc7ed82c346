//! Laws that tie the reader and the printer together.

use vstd::prelude::*;

use crate::datum::{Datum, Fault};
use crate::printer::{printed, printed_items};
use crate::reader::{
    MAX_READ_DEPTH, delimiter, document, documents, form, items, lemma_form, lemma_skip_trivia,
    lemma_token_end, skip_trivia, string_body, token_end,
};
use crate::text::{
    ascii_digit, decimal, decimal_reads_back, digits, escaped, escaped_char,
    lemma_escaped_first, numeral, quoted, white_space,
};

verus! {

/// A symbol that is one bare token and no numeral.
pub open spec fn bare_symbol(s: Seq<char>) -> bool {
    &&& s.len() > 0
    &&& forall|i: int| 0 <= i < s.len() ==> !delimiter(#[trigger] s[i])
    &&& numeral(s) is None
}

/// A datum whose symbols are bare.
pub open spec fn readable(d: Datum) -> bool
    decreases d,
{
    match d {
        Datum::Symbol(s) => bare_symbol(s),
        Datum::List(ds) => forall|i: int| 0 <= i < ds.len() ==> readable(#[trigger] ds[i]),
        _ => true,
    }
}

/// Whether no more than `room` lists of a datum enclose one another.
pub open spec fn nests_within(d: Datum, room: int) -> bool
    decreases d,
{
    match d {
        Datum::List(ds) => room > 0 && forall|i: int|
            0 <= i < ds.len() ==> nests_within(#[trigger] ds[i], room - 1),
        _ => true,
    }
}

/// The stretch of a text from `pos` on that holds `part`.
spec fn holds_at(cs: Seq<char>, pos: int, part: Seq<char>) -> bool {
    &&& 0 <= pos
    &&& pos + part.len() <= cs.len()
    &&& cs.subrange(pos, pos + part.len()) == part
}

proof fn lemma_holds_parts(cs: Seq<char>, pos: int, a: Seq<char>, b: Seq<char>)
    requires
        holds_at(cs, pos, a + b),
    ensures
        holds_at(cs, pos, a),
        holds_at(cs, pos + a.len(), b),
{
    let whole = cs.subrange(pos, pos + a.len() + b.len());
    assert(whole =~= a + b);
    assert forall|i: int| 0 <= i < a.len() implies cs[pos + i] == a[i] by {
        assert(whole[i] == (a + b)[i]);
    }
    assert forall|i: int| 0 <= i < b.len() implies cs[pos + a.len() + i] == b[i] by {
        assert(whole[a.len() + i] == (a + b)[a.len() + i]);
    }
    assert(cs.subrange(pos, pos + a.len()) =~= a);
    assert(cs.subrange(pos + a.len(), pos + a.len() + b.len()) =~= b);
}

proof fn lemma_holds_one(cs: Seq<char>, pos: int, c: char)
    requires
        holds_at(cs, pos, seq![c]),
    ensures
        cs[pos] == c,
{
    assert(cs.subrange(pos, pos + 1)[0] == c);
}

/// A quoted literal ends at its last quote and nowhere before, and reads back to the text that
/// was quoted.
pub proof fn quoted_text_reads_back(cs: Seq<char>, pos: int, s: Seq<char>)
    requires
        0 <= pos,
        pos + quoted(s).len() <= cs.len(),
        cs.subrange(pos, pos + quoted(s).len()) == quoted(s),
    ensures
        cs[pos] == '"',
        string_body(cs, pos + 1) == Ok::<(Seq<char>, int), Fault>((s, pos + quoted(s).len())),
{
    assert(quoted(s) =~= seq!['"'] + (escaped(s) + seq!['"']));
    lemma_holds_parts(cs, pos, seq!['"'], escaped(s) + seq!['"']);
    lemma_holds_one(cs, pos, '"');
    lemma_escaped_reads_back(cs, pos + 1, s);
}

proof fn lemma_escaped_reads_back(cs: Seq<char>, pos: int, s: Seq<char>)
    requires
        holds_at(cs, pos, escaped(s) + seq!['"']),
    ensures
        string_body(cs, pos) == Ok::<(Seq<char>, int), Fault>((s, pos + escaped(s).len() + 1)),
    decreases s.len(),
{
    if s.len() == 0 {
        assert(escaped(s) + seq!['"'] =~= seq!['"']);
        lemma_holds_one(cs, pos, '"');
        assert(s =~= Seq::<char>::empty());
    } else {
        let c = s[0];
        let rest = s.drop_first();
        let e = escaped_char(c);
        lemma_escaped_first(s);
        assert(escaped(s) + seq!['"'] =~= e + (escaped(rest) + seq!['"']));
        lemma_holds_parts(cs, pos, e, escaped(rest) + seq!['"']);
        lemma_escaped_reads_back(cs, pos + e.len(), rest);
        assert(cs.subrange(pos, pos + e.len()) == e);
        assert(cs[pos] == e[0]);
        if e.len() == 2 {
            assert(cs[pos + 1] == cs.subrange(pos, pos + e.len())[1]);
        }
        assert(seq![c] + rest =~= s);
    }
}

/// A run of characters without delimiters, with a delimiter or the end behind it, is a token.
proof fn lemma_token_ends_behind(cs: Seq<char>, pos: int, s: Seq<char>)
    requires
        holds_at(cs, pos, s),
        forall|i: int| 0 <= i < s.len() ==> !delimiter(#[trigger] s[i]),
        pos + s.len() == cs.len() || delimiter(cs[pos + s.len()]),
    ensures
        token_end(cs, pos) == pos + s.len(),
{
    lemma_token_end(cs, pos);
    let end = pos + s.len();
    assert forall|i: int| pos <= i < end implies !delimiter(cs[i]) by {
        assert(cs[i] == cs.subrange(pos, end)[i - pos]);
        assert(!delimiter(s[i - pos]));
    }
    let found = token_end(cs, pos);
    if found < end {
        assert(delimiter(cs[found]));
    }
    if found > end {
        assert(!delimiter(cs[end]));
    }
}

/// The digits of a number are digits.
proof fn lemma_digits_are_digits(n: nat)
    ensures
        digits(n).len() > 0,
        forall|i: int| 0 <= i < digits(n).len() ==> ascii_digit(#[trigger] digits(n)[i]),
    decreases n,
{
    if n >= 10 {
        lemma_digits_are_digits(n / 10);
        assert(digits(n).drop_last() =~= digits(n / 10));
        assert forall|i: int| 0 <= i < digits(n).len() implies ascii_digit(
            #[trigger] digits(n)[i],
        ) by {
            if i < digits(n / 10).len() {
                assert(digits(n)[i] == digits(n / 10)[i]);
            }
        }
    }
}

proof fn lemma_decimal_is_token(n: i64)
    ensures
        decimal(n as int).len() > 0,
        forall|i: int| 0 <= i < decimal(n as int).len() ==> !delimiter(#[trigger] decimal(n as int)[i]),
{
    let m: nat = if n < 0 {
        (-(n as int)) as nat
    } else {
        n as nat
    };
    lemma_digits_are_digits(m);
    let t = decimal(n as int);
    assert forall|i: int| 0 <= i < t.len() implies !delimiter(#[trigger] t[i]) by {
        if n < 0 {
            if i > 0 {
                assert(t[i] == digits(m)[i - 1]);
                assert(ascii_digit(digits(m)[i - 1]));
            }
        } else {
            assert(ascii_digit(digits(m)[i]));
        }
    }
}

/// The text of a datum, wherever it stands in front of a delimiter or the end, reads back.
proof fn lemma_printed_reads_back(cs: Seq<char>, pos: int, d: Datum, depth: int)
    requires
        readable(d),
        nests_within(d, MAX_READ_DEPTH - depth),
        holds_at(cs, pos, printed(d)),
        pos + printed(d).len() == cs.len() || delimiter(cs[pos + printed(d).len()]),
    ensures
        form(cs, pos, depth) == Ok::<Option<(Datum, int)>, Fault>(
            Some((d, pos + printed(d).len())),
        ),
        printed(d).len() > 0,
        !white_space(cs[pos]),
        cs[pos] != ';',
        cs[pos] != ')',
    decreases d, 0int,
{
    match d {
        Datum::Symbol(s) => {
            lemma_token_ends_behind(cs, pos, s);
            assert(cs.subrange(pos, pos + s.len())[0] == cs[pos]);
            assert(!delimiter(s[0]));
        },
        Datum::Int(n) => {
            let s = decimal(n as int);
            decimal_reads_back(n);
            lemma_decimal_is_token(n);
            lemma_token_ends_behind(cs, pos, s);
            assert(cs.subrange(pos, pos + s.len())[0] == cs[pos]);
            assert(!delimiter(s[0]));
        },
        Datum::Str(s) => {
            quoted_text_reads_back(cs, pos, s);
        },
        Datum::List(ds) => {
            assert(printed(d) =~= seq!['('] + (printed_items(ds) + seq![')']));
            lemma_holds_parts(cs, pos, seq!['('], printed_items(ds) + seq![')']);
            lemma_holds_one(cs, pos, '(');
            lemma_printed_items_read_back(cs, pos + 1, ds, depth + 1);
        },
    }
}

/// The texts of the items of a list, in front of its `)`, read back.
proof fn lemma_printed_items_read_back(cs: Seq<char>, pos: int, ds: Seq<Datum>, depth: int)
    requires
        forall|i: int| 0 <= i < ds.len() ==> readable(#[trigger] ds[i]),
        forall|i: int|
            0 <= i < ds.len() ==> nests_within(#[trigger] ds[i], MAX_READ_DEPTH - depth),
        holds_at(cs, pos, printed_items(ds) + seq![')']),
    ensures
        items(cs, pos, depth) == Ok::<(Seq<Datum>, int), Fault>(
            (ds, pos + printed_items(ds).len() + 1),
        ),
    decreases ds, 1int,
{
    if ds.len() == 0 {
        assert(printed_items(ds) + seq![')'] =~= seq![')']);
        lemma_holds_one(cs, pos, ')');
        assert(skip_trivia(cs, pos) == pos);
        assert(ds =~= Seq::<Datum>::empty());
    } else {
        let first = printed(ds[0]);
        let end = pos + first.len();
        let rest = ds.drop_first();
        let behind = if ds.len() == 1 {
            seq![')']
        } else {
            seq![' '] + (printed_items(rest) + seq![')'])
        };
        assert(printed_items(ds) + seq![')'] =~= first + behind);
        lemma_holds_parts(cs, pos, first, behind);
        if ds.len() > 1 {
            lemma_holds_parts(cs, end, seq![' '], printed_items(rest) + seq![')']);
            lemma_holds_one(cs, end, ' ');
        } else {
            lemma_holds_one(cs, end, ')');
        }
        lemma_printed_reads_back(cs, pos, ds[0], depth);
        assert(skip_trivia(cs, pos) == pos);
        assert(seq![ds[0]] + rest =~= ds);
        if ds.len() == 1 {
            assert(skip_trivia(cs, end) == end);
            assert(items(cs, end, depth) == Ok::<(Seq<Datum>, int), Fault>(
                (Seq::empty(), end + 1),
            ));
            assert(rest =~= Seq::<Datum>::empty());
        } else {
            lemma_printed_items_read_back(cs, end + 1, rest, depth);
            lemma_skip_trivia(cs, end + 1);
            assert(skip_trivia(cs, end) == skip_trivia(cs, end + 1));
            assert(items(cs, end, depth) == items(cs, end + 1, depth));
        }
    }
}

/// Whatever the reader gives is readable, and nests no deeper than the reader allows.
proof fn lemma_form_is_readable(cs: Seq<char>, pos: int, depth: int)
    requires
        0 <= pos < cs.len(),
        !white_space(cs[pos]),
        cs[pos] != ';',
    ensures
        form(cs, pos, depth) matches Ok(Some((d, next))) ==> readable(d) && nests_within(
            d,
            MAX_READ_DEPTH - depth,
        ),
    decreases cs.len() - pos, 0int,
{
    if cs[pos] == '(' {
        if depth < MAX_READ_DEPTH {
            lemma_items_are_readable(cs, pos + 1, depth + 1);
        }
    } else if cs[pos] != ')' && cs[pos] != '"' {
        lemma_token_end(cs, pos);
        let end = token_end(cs, pos);
        let token = cs.subrange(pos, end);
        assert forall|i: int| 0 <= i < token.len() implies !delimiter(#[trigger] token[i]) by {
            assert(token[i] == cs[pos + i]);
        }
    }
}

proof fn lemma_items_are_readable(cs: Seq<char>, pos: int, depth: int)
    requires
        0 <= pos <= cs.len(),
    ensures
        items(cs, pos, depth) matches Ok((ds, next)) ==> (forall|i: int|
            0 <= i < ds.len() ==> readable(#[trigger] ds[i]) && nests_within(
                ds[i],
                MAX_READ_DEPTH - depth,
            )),
    decreases cs.len() - pos, 1int,
{
    lemma_skip_trivia(cs, pos);
    let p = skip_trivia(cs, pos);
    if p < cs.len() && cs[p] != ')' {
        lemma_form(cs, p, depth);
        lemma_form_is_readable(cs, p, depth);
        if let Ok(Some((d, next))) = form(cs, p, depth) {
            lemma_items_are_readable(cs, next, depth);
        }
    }
}

/// The text that the printer gives for a datum reads back to that datum: for every datum with
/// bare symbols that nests no deeper than the reader allows.
pub proof fn printed_datum_reads_back(d: Datum)
    requires
        readable(d),
        nests_within(d, MAX_READ_DEPTH as int),
    ensures
        document(printed(d)) == Ok::<Datum, Fault>(d),
{
    let cs = printed(d);
    assert(cs.subrange(0, cs.len() as int) =~= cs);
    lemma_printed_reads_back(cs, 0, d, 0);
    assert(skip_trivia(cs, 0) == 0);
}

/// Whatever the reader gives for a text has bare symbols and nests no deeper than the reader
/// allows.
pub proof fn read_datum_is_readable(src: Seq<char>)
    ensures
        document(src) matches Ok(d) ==> readable(d) && nests_within(d, MAX_READ_DEPTH as int),
{
    lemma_skip_trivia(src, 0);
    let p = skip_trivia(src, 0);
    if p < src.len() {
        lemma_form_is_readable(src, p, 0);
    }
}

/// Printing what was read and reading it again gives the same datum, whatever the text was.
pub proof fn read_datum_survives_printing(src: Seq<char>)
    ensures
        document(src) matches Ok(d) ==> document(printed(d)) == Ok::<Datum, Fault>(d),
{
    read_datum_is_readable(src);
    if let Ok(d) = document(src) {
        printed_datum_reads_back(d);
    }
}

/// A text that holds exactly one form reads alike as one form and as a stream of forms.
pub proof fn one_form_is_a_stream_of_one(src: Seq<char>, d: Datum)
    ensures
        document(src) == Ok::<Datum, Fault>(d) <==> documents(src, 0) == Ok::<Seq<Datum>, Fault>(
            seq![d],
        ),
{
    lemma_skip_trivia(src, 0);
    let p = skip_trivia(src, 0);
    if p < src.len() {
        lemma_form(src, p, 0);
        if let Ok(Some((first, next))) = form(src, p, 0) {
            lemma_skip_trivia(src, next);
            let q = skip_trivia(src, next);
            if q < src.len() {
                lemma_form(src, q, 0);
                assert(documents(src, next) matches Ok(ds) ==> ds.len() > 0);
                if let Ok(ds) = documents(src, next) {
                    assert((seq![first] + ds).len() > 1);
                    assert(seq![d].len() == 1);
                }
            } else {
                assert(documents(src, next) == Ok::<Seq<Datum>, Fault>(Seq::empty()));
                assert(seq![first] + Seq::<Datum>::empty() =~= seq![first]);
                assert(seq![first][0] == first && seq![d][0] == d);
            }
        }
    } else {
        assert(Seq::<Datum>::empty().len() != seq![d].len());
    }
}

} // verus!
