//! The terms that queries and graphs share: variables, prefixed names, and IRIs.

use vstd::prelude::*;
use vstd::string::*;

use crate::datum::{Datum, Fault, Sexpr, SexprResult, compile_err, data, lemma_data, text_result};
use crate::text::{
    ascii_alphanumeric, ascii_letter, chars_of, control, is_alphanumeric, is_control, is_letter,
    join3, join5, string_of,
};

verus! {

// ---------------------------------------------------------------------------------------
// Forms
// ---------------------------------------------------------------------------------------

/// The symbol that a form starts with, if it starts with one.
pub open spec fn head(items: Seq<Datum>) -> Option<Seq<char>> {
    if items.len() > 0 {
        match items[0] {
            Datum::Symbol(s) => Some(s),
            _ => None,
        }
    } else {
        None
    }
}

/// The items of a list, or `None` if it is not a list.
pub(crate) fn list_items(value: &Sexpr) -> (items: Option<&Vec<Sexpr>>)
    ensures
        match (value@, items) {
            (Datum::List(ds), Some(items)) => ds == data(items@) && ds.len() == items.len(),
            (Datum::List(_), None) => false,
            (_, Some(_)) => false,
            (_, None) => true,
        },
{
    match value {
        Sexpr::List(items) => {
            proof {
                lemma_data(items@);
            }
            Some(items)
        },
        _ => None,
    }
}

/// The name of a symbol, or `None` if it is not a symbol.
pub(crate) fn symbol_name(value: &Sexpr) -> (name: Option<&str>)
    ensures
        match (value@, name) {
            (Datum::Symbol(s), Some(name)) => s == name@,
            (Datum::Symbol(_), None) => false,
            (_, Some(_)) => false,
            (_, None) => true,
        },
{
    match value {
        Sexpr::Symbol(s) => Some(s.as_str()),
        _ => None,
    }
}

/// The symbol that a form starts with, or `None` if it starts with no symbol.
pub(crate) fn head_symbol(items: &Vec<Sexpr>) -> (name: Option<&str>)
    ensures
        match (head(data(items@)), name) {
            (Some(s), Some(name)) => s == name@,
            (None, None) => true,
            _ => false,
        },
{
    proof {
        lemma_data(items@);
    }
    if items.len() > 0 {
        symbol_name(&items[0])
    } else {
        None
    }
}

// ---------------------------------------------------------------------------------------
// Variables and prefixed names
// ---------------------------------------------------------------------------------------

/// The characters of a variable's name.
pub open spec fn word_char(c: char) -> bool {
    ascii_alphanumeric(c) || c == '_'
}

/// A variable: `?` and one or more ASCII word characters.
pub open spec fn variable(s: Seq<char>) -> bool {
    &&& s.len() > 1
    &&& s[0] == '?'
    &&& forall|i: int| 1 <= i < s.len() ==> word_char(#[trigger] s[i])
}

/// A prefix label: empty (the default prefix), or a letter and then letters and digits.
pub open spec fn pn_prefix(s: Seq<char>) -> bool {
    ||| s.len() == 0
    ||| ascii_letter(s[0]) && forall|i: int| 0 <= i < s.len() ==> ascii_alphanumeric(#[trigger] s[i])
}

/// The local part of a prefixed name: word characters and hyphens; it may be empty.
pub open spec fn pn_local(s: Seq<char>) -> bool {
    forall|i: int| 0 <= i < s.len() ==> word_char(#[trigger] s[i]) || s[i] == '-'
}

/// Whether the colon at `k` parts a prefixed name into its label and its local part.
pub open spec fn parts_at(s: Seq<char>, k: int) -> bool {
    &&& 0 <= k < s.len()
    &&& s[k] == ':'
    &&& pn_prefix(s.take(k))
    &&& pn_local(s.skip(k + 1))
}

/// A prefixed name: a prefix label, a colon, and a local part.
pub open spec fn prefixed_name(s: Seq<char>) -> bool {
    exists|k: int| #[trigger] parts_at(s, k)
}

/// Whether a text is a variable.
pub fn is_var(s: &str) -> (yes: bool)
    ensures
        yes == variable(s@),
{
    let chars = chars_of(s);
    if chars.len() < 2 || chars[0] != '?' {
        return false;
    }
    let mut i: usize = 1;
    while i < chars.len()
        invariant
            1 <= i <= chars.len(),
            chars@ == s@,
            forall|j: int| 1 <= j < i ==> word_char(#[trigger] s@[j]),
        decreases chars.len() - i,
    {
        if !(is_alphanumeric(chars[i]) || chars[i] == '_') {
            assert(!word_char(s@[i as int]));
            return false;
        }
        i = i + 1;
    }
    true
}

/// Whether the characters before `to` are a prefix label.
fn prefix_before(chars: &Vec<char>, to: usize) -> (yes: bool)
    requires
        to <= chars.len(),
    ensures
        yes == pn_prefix(chars@.take(to as int)),
{
    let ghost s = chars@.take(to as int);
    if to == 0 {
        return true;
    }
    assert(s[0] == chars@[0]);
    if !is_letter(chars[0]) {
        return false;
    }
    let mut i: usize = 0;
    while i < to
        invariant
            i <= to <= chars.len(),
            to > 0,
            s == chars@.take(to as int),
            forall|j: int| 0 <= j < i ==> ascii_alphanumeric(#[trigger] s[j]),
        decreases to - i,
    {
        assert(s[i as int] == chars@[i as int]);
        if !is_alphanumeric(chars[i]) {
            return false;
        }
        i = i + 1;
    }
    true
}

/// Whether the characters from `from` on are the local part of a prefixed name.
fn local_from(chars: &Vec<char>, from: usize) -> (yes: bool)
    requires
        from <= chars.len(),
    ensures
        yes == pn_local(chars@.skip(from as int)),
{
    let ghost s = chars@.skip(from as int);
    let mut i: usize = from;
    while i < chars.len()
        invariant
            from <= i <= chars.len(),
            s == chars@.skip(from as int),
            forall|j: int| 0 <= j < i - from ==> word_char(#[trigger] s[j]) || s[j] == '-',
        decreases chars.len() - i,
    {
        let c = chars[i];
        assert(s[i - from] == c);
        if !(is_alphanumeric(c) || c == '_' || c == '-') {
            return false;
        }
        i = i + 1;
    }
    true
}

/// The place of the colon of a prefixed name, or nothing for any other text.
pub(crate) fn colon_of(s: &str) -> (at: Option<usize>)
    ensures
        match at {
            Some(k) => parts_at(s@, k as int) && forall|j: int|
                #[trigger] parts_at(s@, j) ==> j == k,
            None => !prefixed_name(s@),
        },
{
    let chars = chars_of(s);
    let mut k: usize = 0;
    while k < chars.len() && chars[k] != ':'
        invariant
            k <= chars.len(),
            chars@ == s@,
            forall|j: int| 0 <= j < k ==> s@[j] != ':',
        decreases chars.len() - k,
    {
        k = k + 1;
    }
    proof {
        // A colon lies in neither part, so a name can be parted at its first colon only.
        assert forall|j: int| #[trigger] parts_at(s@, j) implies j == k by {
            if j > k {
                assert(s@.take(j)[k as int] == ':');
            }
        }
    }
    if k == chars.len() {
        return None;
    }
    let yes = prefix_before(&chars, k) && local_from(&chars, k + 1);
    assert(yes == parts_at(s@, k as int));
    if yes {
        Some(k)
    } else {
        None
    }
}

/// Whether a text is a prefixed name.
pub fn is_prefixed_name(s: &str) -> (yes: bool)
    ensures
        yes == prefixed_name(s@),
{
    colon_of(s).is_some()
}

// ---------------------------------------------------------------------------------------
// IRIs
// ---------------------------------------------------------------------------------------

/// The characters that may stand in an IRI reference: no control character, angle bracket,
/// quote, brace, bar, caret, backquote, backslash or blank.
pub open spec fn iri_char(c: char) -> bool {
    !control(c) && c != '<' && c != '>' && c != '"' && c != '{' && c != '}' && c != '|' && c != '^'
        && c != '`' && c != '\\' && c != ' '
}

/// A text that may stand in an IRI reference.
pub open spec fn iri_text(s: Seq<char>) -> bool {
    &&& s.len() > 0
    &&& forall|i: int| 0 <= i < s.len() ==> iri_char(#[trigger] s[i])
}

/// An IRI as an IRI reference.
pub open spec fn bracketed(iri: Seq<char>) -> Seq<char> {
    "<"@ + iri + ">"@
}

/// A text as an IRI: the text itself if it may stand in an IRI reference.
pub open spec fn iri_of(s: Seq<char>) -> Result<Seq<char>, Fault> {
    if s.len() == 0 {
        Err(Fault::Compile("(iri \"\") is empty"@))
    } else if !iri_text(s) {
        Err(
            Fault::Compile(
                "IRI `"@ + s + "` contains characters not allowed in a SPARQL IRIREF"@,
            ),
        )
    } else {
        Ok(s)
    }
}

/// A text as an IRI reference.
pub open spec fn iri_ref(s: Seq<char>) -> Result<Seq<char>, Fault> {
    match iri_of(s) {
        Ok(iri) => Ok(bracketed(iri)),
        Err(e) => Err(e),
    }
}

/// The IRI of an `(iri "...")` form.
pub open spec fn iri_of_form(items: Seq<Datum>) -> Result<Seq<char>, Fault> {
    if items.len() == 2 && items[1] is Str {
        iri_of(items[1]->Str_0)
    } else {
        Err(Fault::Compile("(iri …) takes exactly one string, e.g. (iri \"http://…\")"@))
    }
}

/// An `(iri "...")` form as an IRI reference.
pub open spec fn iri_form(items: Seq<Datum>) -> Result<Seq<char>, Fault> {
    match iri_of_form(items) {
        Ok(iri) => Ok(bracketed(iri)),
        Err(e) => Err(e),
    }
}

/// Reads a text as an IRI. Refuses every character that may not stand in an IRI reference, so
/// that a term can never break out of it and inject syntax.
fn read_iri(iri: &str) -> (r: SexprResult<String>)
    ensures
        text_result(r) == iri_of(iri@),
{
    let chars = chars_of(iri);
    if chars.len() == 0 {
        return Err(compile_err("(iri \"\") is empty"));
    }
    let mut i: usize = 0;
    while i < chars.len()
        invariant
            i <= chars.len(),
            chars.len() > 0,
            chars@ == iri@,
            forall|j: int| 0 <= j < i ==> iri_char(#[trigger] iri@[j]),
        decreases chars.len() - i,
    {
        let c = chars[i];
        if is_control(c) || c == '<' || c == '>' || c == '"' || c == '{' || c == '}' || c == '|'
            || c == '^' || c == '`' || c == '\\' || c == ' ' {
            assert(!iri_char(iri@[i as int]));
            return Err(
                compile_err(
                    join3(
                        "IRI `",
                        iri,
                        "` contains characters not allowed in a SPARQL IRIREF",
                    ).as_str(),
                ),
            );
        }
        i = i + 1;
    }
    Ok(String::from_str(iri))
}

/// Wraps an IRI in angle brackets. Refuses every character that may not stand in an IRI
/// reference, so that a term can never break out of it and inject syntax.
pub fn render_iri(iri: &str) -> (r: SexprResult<String>)
    ensures
        text_result(r) == iri_ref(iri@),
{
    match read_iri(iri) {
        Ok(iri) => Ok(join3("<", iri.as_str(), ">")),
        Err(e) => Err(e),
    }
}

/// Reads the IRI of an `(iri "...")` form.
pub(crate) fn read_iri_form(items: &Vec<Sexpr>) -> (r: SexprResult<String>)
    ensures
        text_result(r) == iri_of_form(data(items@)),
{
    proof {
        lemma_data(items@);
    }
    if items.len() == 2 {
        if let Sexpr::Str(s) = &items[1] {
            return read_iri(s.as_str());
        }
    }
    Err(compile_err("(iri …) takes exactly one string, e.g. (iri \"http://…\")"))
}

/// Renders an `(iri "...")` form.
pub(crate) fn render_iri_form(items: &Vec<Sexpr>) -> (r: SexprResult<String>)
    ensures
        text_result(r) == iri_form(data(items@)),
{
    match read_iri_form(items) {
        Ok(iri) => Ok(join3("<", iri.as_str(), ">")),
        Err(e) => Err(e),
    }
}

// ---------------------------------------------------------------------------------------
// Statements
// ---------------------------------------------------------------------------------------

/// Three terms as one statement.
pub open spec fn statement(s: Seq<char>, p: Seq<char>, o: Seq<char>) -> Seq<char> {
    s + " "@ + p + " "@ + o + " ."@
}

/// Renders three terms as one statement.
pub(crate) fn render_statement(s: &str, p: &str, o: &str) -> (line: String)
    ensures
        line@ == statement(s@, p@, o@),
{
    join5(s, " ", p, " ", o).concat(" .")
}

// ---------------------------------------------------------------------------------------
// Prefix bindings
// ---------------------------------------------------------------------------------------

/// A prefix label as written, without the colon that may stand behind it.
pub open spec fn label(s: Seq<char>) -> Seq<char> {
    if s.len() > 0 && s.last() == ':' {
        s.drop_last()
    } else {
        s
    }
}

/// A `(pfx "http://...")` binding: the label, and the IRI of the namespace. The
/// `no_symbol` text is the detail of the fault of a label that is no symbol.
pub open spec fn binding(d: Datum, no_symbol: Seq<char>) -> Result<
    (Seq<char>, Seq<char>),
    Fault,
> {
    match d {
        Datum::List(items) => if items.len() != 2 {
            Err(Fault::Compile("a prefix binding is (pfx \"http://…\")"@))
        } else {
            match items[0] {
                Datum::Symbol(raw) => if !pn_prefix(label(raw)) {
                    Err(Fault::Compile("invalid prefix name `"@ + label(raw) + "`"@))
                } else {
                    match items[1] {
                        Datum::Str(s) => match iri_of(s) {
                            Ok(iri) => Ok((label(raw), iri)),
                            Err(e) => Err(e),
                        },
                        _ => Err(Fault::Compile("a prefix namespace must be a string IRI"@)),
                    }
                },
                _ => Err(Fault::Compile(no_symbol)),
            }
        },
        _ => Err(Fault::Compile("a prefix binding must be a list (pfx \"http://…\")"@)),
    }
}

/// Reads a `(pfx "http://...")` binding: the label, and the IRI of the namespace. The
/// label may be written `pfx` or `pfx:`.
pub(crate) fn read_binding(value: &Sexpr, no_symbol: &str) -> (r: SexprResult<(String, String)>)
    ensures
        match (binding(value@, no_symbol@), r) {
            (Ok((name, iri)), Ok((n, i))) => name == n@ && iri == i@,
            (Err(f), Err(e)) => f == e@,
            _ => false,
        },
{
    let items = match list_items(value) {
        Some(items) => items,
        None => {
            return Err(compile_err("a prefix binding must be a list (pfx \"http://…\")"));
        },
    };
    if items.len() != 2 {
        return Err(compile_err("a prefix binding is (pfx \"http://…\")"));
    }
    proof {
        lemma_data(items@);
    }
    let raw = match symbol_name(&items[0]) {
        Some(raw) => raw,
        None => {
            return Err(compile_err(no_symbol));
        },
    };
    let chars = chars_of(raw);
    let end: usize = if chars.len() > 0 && chars[chars.len() - 1] == ':' {
        chars.len() - 1
    } else {
        chars.len()
    };
    let name = string_of(&chars, 0, end);
    proof {
        assert(chars@.take(end as int) =~= label(raw@));
        assert(name@ =~= label(raw@));
    }
    if !prefix_before(&chars, end) {
        return Err(compile_err(join3("invalid prefix name `", name.as_str(), "`").as_str()));
    }
    match &items[1] {
        Sexpr::Str(s) => match read_iri(s.as_str()) {
            Ok(iri) => Ok((name, iri)),
            Err(e) => Err(e),
        },
        _ => Err(compile_err("a prefix namespace must be a string IRI")),
    }
}

} // verus!
