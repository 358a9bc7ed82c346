//! Which texts are variables, prefixed names and IRIs, told by their characters; and how the
//! terms that queries and graphs share are written.

use vstd::prelude::*;

use crate::datum::{Datum, Fault};
use crate::sparql::{predicate, term};
use crate::terms::{
    binding, bracketed, iri_char, iri_of_form, iri_ref, iri_text, label, parts_at, pn_local, pn_prefix,
    prefixed_name, variable, word_char,
};
use crate::text::{decimal, quoted};

verus! {

// ---------------------------------------------------------------------------------------
// Words
// ---------------------------------------------------------------------------------------

/// `a` to `z`, or `A` to `Z`.
pub open spec fn is_ascii_letter(c: char) -> bool {
    ('a' <= c && c <= 'z') || ('A' <= c && c <= 'Z')
}

/// `0` to `9`.
pub open spec fn is_figure(c: char) -> bool {
    '0' <= c && c <= '9'
}

/// A question mark, then one or more letters, figures and underscores.
pub open spec fn reads_as_variable(s: Seq<char>) -> bool {
    &&& s.len() >= 2
    &&& s[0] == '?'
    &&& forall|i: int|
        0 < i < s.len() ==> is_ascii_letter(#[trigger] s[i]) || is_figure(s[i]) || s[i] == '_'
}

/// Nothing, or a letter and then letters and figures.
pub open spec fn reads_as_label(s: Seq<char>) -> bool {
    &&& s.len() > 0 ==> is_ascii_letter(s[0])
    &&& forall|i: int| 0 <= i < s.len() ==> is_ascii_letter(#[trigger] s[i]) || is_figure(s[i])
}

/// A label, a colon at `k`, then letters, figures, underscores and hyphens.
pub open spec fn reads_as_name(s: Seq<char>, k: int) -> bool {
    &&& 0 <= k < s.len()
    &&& s[k] == ':'
    &&& reads_as_label(s.take(k))
    &&& forall|i: int|
        k < i < s.len() ==> is_ascii_letter(#[trigger] s[i]) || is_figure(s[i]) || s[i] == '_'
            || s[i] == '-'
}

/// One or more characters, none of them a control character, a blank, or one of
/// `< > " { } | ^` and the backquote and the backslash.
pub open spec fn reads_as_iri(s: Seq<char>) -> bool {
    &&& s.len() > 0
    &&& forall|i: int|
        0 <= i < s.len() ==> {
            &&& #[trigger] s[i] as u32 >= 0x20 && s[i] != ' '
            &&& !(0x7f <= s[i] as u32 <= 0x9f)
            &&& s[i] != '<' && s[i] != '>' && s[i] != '"' && s[i] != '{' && s[i] != '}'
            &&& s[i] != '|' && s[i] != '^' && s[i] != '`' && s[i] != '\\'
        }
}

/// A variable is told by its characters.
pub proof fn a_variable_is_told_by_its_characters(s: Seq<char>)
    ensures
        variable(s) <==> reads_as_variable(s),
{
    if variable(s) {
        assert forall|i: int| 0 < i < s.len() implies is_ascii_letter(#[trigger] s[i]) || is_figure(
            s[i],
        ) || s[i] == '_' by {
            assert(word_char(s[i]));
        }
    }
}

/// A prefix label is told by its characters.
pub proof fn a_label_is_told_by_its_characters(s: Seq<char>)
    ensures
        pn_prefix(s) <==> reads_as_label(s),
{
}

proof fn lemma_parts(s: Seq<char>, k: int)
    ensures
        parts_at(s, k) <==> reads_as_name(s, k),
{
    if 0 <= k < s.len() {
        a_label_is_told_by_its_characters(s.take(k));
        let local = s.skip(k + 1);
        if pn_local(local) {
            assert forall|i: int| k < i < s.len() implies is_ascii_letter(#[trigger] s[i])
                || is_figure(s[i]) || s[i] == '_' || s[i] == '-' by {
                assert(local[i - k - 1] == s[i]);
            }
        }
        if reads_as_name(s, k) {
            assert forall|i: int| 0 <= i < local.len() implies word_char(#[trigger] local[i])
                || local[i] == '-' by {
                assert(local[i] == s[i + k + 1]);
            }
        }
    }
}

/// A prefixed name is told by its characters, and has one colon.
pub proof fn a_name_is_told_by_its_characters(s: Seq<char>)
    ensures
        prefixed_name(s) <==> exists|k: int| #[trigger] reads_as_name(s, k),
        forall|k: int| #[trigger] reads_as_name(s, k) <==> parts_at(s, k),
        forall|j: int, k: int| #[trigger]
            reads_as_name(s, j) && #[trigger] reads_as_name(s, k) ==> j == k,
{
    assert forall|k: int| #[trigger] reads_as_name(s, k) <==> parts_at(s, k) by {
        lemma_parts(s, k);
    }
    if prefixed_name(s) {
        let k = choose|k: int| #[trigger] parts_at(s, k);
        lemma_parts(s, k);
    }
    assert forall|j: int, k: int| #[trigger]
        reads_as_name(s, j) && #[trigger] reads_as_name(s, k) implies j == k by {
        if j < k {
            assert(s.take(k)[j] == ':');
        }
        if k < j {
            assert(s.take(j)[k] == ':');
        }
    }
}

/// An IRI is told by its characters.
pub proof fn an_iri_is_told_by_its_characters(s: Seq<char>)
    ensures
        iri_text(s) <==> reads_as_iri(s),
{
    if iri_text(s) {
        assert forall|i: int| 0 <= i < s.len() implies {
            &&& #[trigger] s[i] as u32 >= 0x20 && s[i] != ' '
            &&& !(0x7f <= s[i] as u32 <= 0x9f)
            &&& s[i] != '<' && s[i] != '>' && s[i] != '"' && s[i] != '{' && s[i] != '}'
            &&& s[i] != '|' && s[i] != '^' && s[i] != '`' && s[i] != '\\'
        } by {
            assert(iri_char(s[i]));
        }
    }
    if reads_as_iri(s) {
        assert forall|i: int| 0 <= i < s.len() implies iri_char(#[trigger] s[i]) by {
            assert(s[i] as u32 >= 0x20);
        }
    }
}

// ---------------------------------------------------------------------------------------
// Terms
// ---------------------------------------------------------------------------------------

/// An `(iri "...")` form of an IRI.
pub open spec fn is_iri_form(d: Datum, iri: Seq<char>) -> bool {
    d == Datum::List(seq![Datum::Symbol("iri"@), Datum::Str(iri)]) && reads_as_iri(iri)
}

/// Whether a text is how a term is written: a variable or a prefixed name as it is; a string
/// quoted; an integer in decimal; and the IRI of an `(iri "...")` form between angle brackets.
pub open spec fn writes_term(d: Datum, t: Seq<char>) -> bool {
    match d {
        Datum::Symbol(s) => t == s && (reads_as_variable(s) || exists|k: int| #[trigger]
            reads_as_name(s, k)),
        Datum::Str(s) => t == quoted(s),
        Datum::Int(n) => t == decimal(n as int),
        Datum::List(_) => exists|iri: Seq<char>| #[trigger]
            is_iri_form(d, iri) && t == seq!['<'] + iri + seq!['>'],
    }
}

/// The same for a predicate, where the keyword `a` is written as it is.
pub open spec fn writes_predicate(d: Datum, t: Seq<char>) -> bool {
    writes_term(d, t) || (d == Datum::Symbol(seq!['a']) && t == seq!['a'])
}

/// Whether a datum is a `(pfx "...")` binding of a label to a namespace. The label may have a
/// colon behind it.
pub open spec fn is_binding(d: Datum, name: Seq<char>, iri: Seq<char>) -> bool {
    &&& reads_as_label(name)
    &&& reads_as_iri(iri)
    &&& d == Datum::List(seq![Datum::Symbol(name), Datum::Str(iri)]) || d == Datum::List(
        seq![Datum::Symbol(name.push(':')), Datum::Str(iri)],
    )
}

proof fn lemma_bracketed(s: Seq<char>)
    ensures
        bracketed(s) == seq!['<'] + s + seq!['>'],
{
    reveal_strlit("<");
    reveal_strlit(">");
    assert("<"@ =~= seq!['<']);
    assert(">"@ =~= seq!['>']);
}

/// The IRI of an `(iri "...")` form.
pub proof fn an_iri_form_stands_for_its_iri(items: Seq<Datum>)
    ensures
        iri_of_form(items) matches Ok(iri) ==> items.len() == 2 && items[1] == Datum::Str(iri)
            && reads_as_iri(iri),
        items.len() == 2 && items[1] is Str && reads_as_iri(items[1]->Str_0) ==> iri_of_form(items)
            == Ok::<Seq<char>, Fault>(items[1]->Str_0),
{
    if items.len() == 2 && items[1] is Str {
        an_iri_is_told_by_its_characters(items[1]->Str_0);
    }
}

/// What a term of a query is: it is written in one way or in none, and it is refused where there
/// is none.
pub proof fn a_term_is_written_as_it_reads(d: Datum)
    ensures
        forall|t: Seq<char>| #[trigger] writes_term(d, t) <==> term(d) == Ok::<Seq<char>, Fault>(t),
        forall|t: Seq<char>| #[trigger]
            writes_predicate(d, t) <==> predicate(d) == Ok::<Seq<char>, Fault>(t),
{
    reveal_strlit("a");
    assert("a"@ =~= seq!['a']);
    match d {
        Datum::Symbol(s) => {
            a_variable_is_told_by_its_characters(s);
            a_name_is_told_by_its_characters(s);
            if s == seq!['a'] {
                assert(!reads_as_variable(s));
                assert forall|k: int| !#[trigger] reads_as_name(s, k) by {}
            }
        },
        Datum::List(items) => {
            an_iri_form_stands_for_its_iri(items);
            assert forall|t: Seq<char>| #[trigger] writes_term(d, t) <==> term(d) == Ok::<
                Seq<char>,
                Fault,
            >(t) by {
                if writes_term(d, t) {
                    let iri = choose|iri: Seq<char>| #[trigger]
                        is_iri_form(d, iri) && t == seq!['<'] + iri + seq!['>'];
                    lemma_bracketed(iri);
                }
                if term(d) == Ok::<Seq<char>, Fault>(t) {
                    let iri = items[1]->Str_0;
                    assert(items =~= seq![Datum::Symbol("iri"@), Datum::Str(iri)]);
                    assert(is_iri_form(d, iri));
                    lemma_bracketed(iri);
                }
            }
        },
        _ => {},
    }
}

/// What a prefix binding is.
pub proof fn a_binding_binds_its_label(d: Datum, no_symbol: Seq<char>)
    ensures
        forall|name: Seq<char>, iri: Seq<char>| #[trigger]
            is_binding(d, name, iri) <==> binding(d, no_symbol) == Ok::<
                (Seq<char>, Seq<char>),
                Fault,
            >((name, iri)),
{
    assert forall|name: Seq<char>, iri: Seq<char>| #[trigger]
        is_binding(d, name, iri) <==> binding(d, no_symbol) == Ok::<(Seq<char>, Seq<char>), Fault>(
        (name, iri),
    ) by {
        a_label_is_told_by_its_characters(name);
        an_iri_is_told_by_its_characters(iri);
        if is_binding(d, name, iri) {
            let raw = d->List_0[0]->Symbol_0;
            if raw == name {
                if name.len() > 0 {
                    assert(is_ascii_letter(name[name.len() - 1]) || is_figure(
                        name[name.len() - 1],
                    ));
                }
            } else {
                assert(raw == name.push(':'));
                assert(raw.drop_last() =~= name);
            }
            assert(label(raw) == name);
        }
        if binding(d, no_symbol) == Ok::<(Seq<char>, Seq<char>), Fault>((name, iri)) {
            let items = d->List_0;
            let raw = items[0]->Symbol_0;
            assert(items =~= seq![Datum::Symbol(raw), Datum::Str(iri)]);
            if raw.len() > 0 && raw.last() == ':' {
                assert(raw =~= name.push(':'));
            }
        }
    }
}

/// A text that reads as an IRI is written between angle brackets, and any other is refused.
pub proof fn an_iri_is_written_in_brackets(s: Seq<char>)
    ensures
        reads_as_iri(s) ==> iri_ref(s) == Ok::<Seq<char>, Fault>(seq!['<'] + s + seq!['>']),
        s.len() == 0 ==> iri_ref(s) == Err::<Seq<char>, Fault>(
            Fault::Compile("(iri \"\") is empty"@),
        ),
        s.len() > 0 && !reads_as_iri(s) ==> iri_ref(s) == Err::<Seq<char>, Fault>(
            Fault::Compile(
                "IRI `"@ + s + "` contains characters not allowed in a SPARQL IRIREF"@,
            ),
        ),
{
    an_iri_is_told_by_its_characters(s);
    reveal_strlit("<");
    reveal_strlit(">");
    assert("<"@ =~= seq!['<']);
    assert(">"@ =~= seq!['>']);
}

} // verus!
