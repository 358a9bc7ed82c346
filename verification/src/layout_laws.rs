//! What a text stands for, told by how it can be laid out: words, quoted strings and groups in
//! parentheses, with white space and comments between them. Whatever is laid out so reads as
//! what it denotes, and nothing else is read.

use vstd::prelude::*;

use crate::datum::{Datum, Fault};
use crate::reader::{
    delimiter, document, documents, form, items, lemma_form, lemma_items, lemma_skip_trivia,
    lemma_string_body, lemma_token_end, line_end, skip_trivia, string_body, token_end,
};
use crate::roundtrip::one_form_is_a_stream_of_one;
use crate::text::{numeral, white_space};

verus! {

// ---------------------------------------------------------------------------------------
// Layouts
// ---------------------------------------------------------------------------------------

/// What stands between forms: blanks, each of them a character of white space, or a comment,
/// which is a semicolon, a text, and a line feed.
pub type Gap = Seq<Seq<char>>;

/// What stands between the quotes of a string: marks, each of them a character as it is, or a
/// backslash and a character.
pub type Marks = Seq<Seq<char>>;

/// How a datum may be laid out.
pub enum Layout {
    /// A bare word.
    Word(Seq<char>),
    /// A string between quotes.
    Quote(Marks),
    /// Forms between parentheses, with a gap in front of each and one behind the last.
    Group(Seq<Layout>, Seq<Gap>),
}

/// A row of texts, one behind the other.
pub open spec fn run_together(row: Seq<Seq<char>>) -> Seq<char>
    decreases row.len(),
{
    if row.len() == 0 {
        Seq::empty()
    } else {
        row[0] + run_together(row.drop_first())
    }
}

pub open spec fn layout_text(l: Layout) -> Seq<char>
    decreases l, 0int,
{
    match l {
        Layout::Word(t) => t,
        Layout::Quote(ms) => seq!['"'] + run_together(ms) + seq!['"'],
        Layout::Group(ls, gs) => seq!['('] + row_text(ls, gs) + seq![')'],
    }
}

/// A row of forms, with a gap in front of each and one behind the last.
pub open spec fn row_text(ls: Seq<Layout>, gs: Seq<Gap>) -> Seq<char>
    decreases ls, 1int,
{
    if ls.len() == 0 {
        run_together(gs[0])
    } else {
        run_together(gs[0]) + layout_text(ls[0]) + row_text(ls.drop_first(), gs.drop_first())
    }
}

/// A comment that the end of the text ends.
pub open spec fn last_text(last: Option<Seq<char>>) -> Seq<char> {
    match last {
        Some(t) => seq![';'] + t,
        None => Seq::empty(),
    }
}

// ---------------------------------------------------------------------------------------
// What is laid out well, and what it denotes
// ---------------------------------------------------------------------------------------

pub open spec fn one_line(t: Seq<char>) -> bool {
    forall|i: int| 0 <= i < t.len() ==> #[trigger] t[i] != '\n'
}

/// A character of white space, or a comment with its line feed.
pub open spec fn blank_ok(b: Seq<char>) -> bool {
    ||| b.len() == 1 && white_space(b[0])
    ||| b.len() >= 2 && b[0] == ';' && b.last() == '\n' && one_line(b.drop_last())
}

pub open spec fn gap_ok(g: Gap) -> bool {
    forall|i: int| 0 <= i < g.len() ==> blank_ok(#[trigger] g[i])
}

/// A character as it is, neither a quote nor a backslash; or a backslash and any character.
pub open spec fn mark_ok(m: Seq<char>) -> bool {
    ||| m.len() == 1 && m[0] != '"' && m[0] != '\\'
    ||| m.len() == 2 && m[0] == '\\'
}

pub open spec fn marks_ok(ms: Marks) -> bool {
    forall|i: int| 0 <= i < ms.len() ==> mark_ok(#[trigger] ms[i])
}

/// A word: no white space, parenthesis, quote or semicolon.
pub open spec fn word_ok(t: Seq<char>) -> bool {
    &&& t.len() > 0
    &&& forall|i: int|
        0 <= i < t.len() ==> !white_space(#[trigger] t[i]) && t[i] != '(' && t[i] != ')' && t[i]
            != '"' && t[i] != ';'
}

pub open spec fn layout_ok(l: Layout) -> bool
    decreases l, 0int,
{
    match l {
        Layout::Word(t) => word_ok(t),
        Layout::Quote(ms) => marks_ok(ms),
        Layout::Group(ls, gs) => row_ok(ls, gs),
    }
}

/// A row of forms with a gap in front of each and one behind the last; between two words there
/// is something.
pub open spec fn row_ok(ls: Seq<Layout>, gs: Seq<Gap>) -> bool
    decreases ls, 1int,
{
    &&& gs.len() == ls.len() + 1
    &&& forall|i: int| 0 <= i < gs.len() ==> gap_ok(#[trigger] gs[i])
    &&& forall|i: int| 0 <= i < ls.len() ==> layout_ok(#[trigger] ls[i])
    &&& forall|i: int|
        0 < i < ls.len() && ls[i - 1] is Word && #[trigger] ls[i] is Word ==> gs[i].len() > 0
}

/// Whether no more than `room` groups enclose one another.
pub open spec fn fits(l: Layout, room: int) -> bool
    decreases l,
{
    match l {
        Layout::Group(ls, _) => room > 0 && forall|i: int|
            0 <= i < ls.len() ==> fits(#[trigger] ls[i], room - 1),
        _ => true,
    }
}

/// The character that a mark denotes: after a backslash `n`, `r` and `t` name the line feed, the
/// carriage return and the tab; every other character denotes itself.
pub open spec fn mark_char(m: Seq<char>) -> char {
    if m.len() == 1 {
        m[0]
    } else if m[1] == 'n' {
        '\n'
    } else if m[1] == 'r' {
        '\r'
    } else if m[1] == 't' {
        '\t'
    } else {
        m[1]
    }
}

/// The characters that a row of marks denotes.
pub open spec fn marks_chars(ms: Marks) -> Seq<char> {
    ms.map_values(|m: Seq<char>| mark_char(m))
}

/// What a layout denotes: a word its number if it is a numeral, else its symbol; a quoted string
/// the characters of its marks; a group the list of what is in it.
pub open spec fn denoted(l: Layout) -> Datum
    decreases l, 0int,
{
    match l {
        Layout::Word(t) => match numeral(t) {
            Some(n) => Datum::Int(n),
            None => Datum::Symbol(t),
        },
        Layout::Quote(ms) => Datum::Str(marks_chars(ms)),
        Layout::Group(ls, _) => Datum::List(denoted_row(ls)),
    }
}

pub open spec fn denoted_row(ls: Seq<Layout>) -> Seq<Datum>
    decreases ls, 1int,
{
    if ls.len() == 0 {
        Seq::empty()
    } else {
        seq![denoted(ls[0])] + denoted_row(ls.drop_first())
    }
}

// ---------------------------------------------------------------------------------------
// A part of a text
// ---------------------------------------------------------------------------------------

spec fn at(cs: Seq<char>, pos: int, part: Seq<char>) -> bool {
    &&& 0 <= pos
    &&& pos + part.len() <= cs.len()
    &&& forall|i: int| 0 <= i < part.len() ==> cs[pos + i] == #[trigger] part[i]
}

proof fn lemma_at(cs: Seq<char>, pos: int, a: Seq<char>, b: Seq<char>)
    requires
        at(cs, pos, a + b),
    ensures
        at(cs, pos, a),
        at(cs, pos + a.len(), b),
{
    assert forall|i: int| 0 <= i < a.len() implies cs[pos + i] == #[trigger] a[i] by {
        assert((a + b)[i] == a[i]);
    }
    assert forall|i: int| 0 <= i < b.len() implies cs[pos + a.len() + i] == #[trigger] b[i] by {
        assert((a + b)[a.len() + i] == b[i]);
    }
}

// ---------------------------------------------------------------------------------------
// What is laid out is read
// ---------------------------------------------------------------------------------------

proof fn lemma_line_end_at(cs: Seq<char>, pos: int, t: Seq<char>)
    requires
        at(cs, pos, t),
        one_line(t),
    ensures
        line_end(cs, pos) == (if pos + t.len() < cs.len() && cs[pos + t.len()] == '\n' {
            pos + t.len() + 1
        } else {
            line_end(cs, pos + t.len())
        }),
    decreases t.len(),
{
    if t.len() > 0 {
        assert(cs[pos + 0] == t[0]);
        let rest = t.drop_first();
        assert(t =~= seq![t[0]] + rest);
        lemma_at(cs, pos, seq![t[0]], rest);
        assert(one_line(rest)) by {
            assert forall|i: int| 0 <= i < rest.len() implies #[trigger] rest[i] != '\n' by {
                assert(t[i + 1] != '\n');
            }
        }
        lemma_line_end_at(cs, pos + 1, rest);
    }
}

proof fn lemma_gap_is_skipped(cs: Seq<char>, pos: int, g: Gap)
    requires
        at(cs, pos, run_together(g)),
        gap_ok(g),
    ensures
        skip_trivia(cs, pos) == skip_trivia(cs, pos + run_together(g).len()),
    decreases g.len(),
{
    if g.len() > 0 {
        let rest = g.drop_first();
        let b = g[0];
        lemma_at(cs, pos, b, run_together(rest));
        assert forall|i: int| 0 <= i < rest.len() implies blank_ok(#[trigger] rest[i]) by {
            assert(rest[i] == g[i + 1]);
        }
        lemma_gap_is_skipped(cs, pos + b.len(), rest);
        assert(blank_ok(b));
        assert(cs[pos + 0] == b[0]);
        if b.len() >= 2 {
            let t = b.drop_last();
            assert(b =~= t + seq!['\n']);
            lemma_at(cs, pos, t, seq!['\n']);
            assert(cs[pos + t.len() + 0] == seq!['\n'][0]);
            lemma_line_end_at(cs, pos, t);
            assert(!white_space(';'));
        }
    }
}

proof fn lemma_quote_reads(cs: Seq<char>, pos: int, ms: Marks)
    requires
        at(cs, pos, run_together(ms) + seq!['"']),
        marks_ok(ms),
    ensures
        string_body(cs, pos) == Ok::<(Seq<char>, int), Fault>(
            (marks_chars(ms), pos + run_together(ms).len() + 1),
        ),
    decreases ms.len(),
{
    let chars = marks_chars(ms);
    lemma_at(cs, pos, run_together(ms), seq!['"']);
    if ms.len() == 0 {
        assert(cs[pos + 0] == seq!['"'][0]);
        assert(chars =~= Seq::<char>::empty());
    } else {
        let rest = ms.drop_first();
        let m = ms[0];
        let more = marks_chars(rest);
        assert(run_together(ms) + seq!['"'] =~= m + (run_together(rest) + seq!['"']));
        lemma_at(cs, pos, m, run_together(rest) + seq!['"']);
        assert forall|i: int| 0 <= i < rest.len() implies mark_ok(#[trigger] rest[i]) by {
            assert(rest[i] == ms[i + 1]);
        }
        lemma_quote_reads(cs, pos + m.len(), rest);
        assert(mark_ok(m));
        assert(cs[pos + 0] == m[0]);
        if m.len() == 2 {
            assert(cs[pos + 1] == m[1]);
        }
        assert(chars =~= seq![mark_char(m)] + more);
    }
}

proof fn lemma_word_ends(cs: Seq<char>, pos: int, t: Seq<char>)
    requires
        at(cs, pos, t),
        word_ok(t),
        pos + t.len() == cs.len() || delimiter(cs[pos + t.len()]),
    ensures
        token_end(cs, pos) == pos + t.len(),
        cs.subrange(pos, pos + t.len()) == t,
{
    lemma_token_end(cs, pos);
    let found = token_end(cs, pos);
    if found < pos + t.len() {
        assert(cs[pos + (found - pos)] == t[found - pos]);
        assert(delimiter(cs[found]));
    }
    if found > pos + t.len() {
        assert(!delimiter(cs[pos + t.len()]));
    }
    assert(cs.subrange(pos, pos + t.len()) =~= t);
}

proof fn lemma_layout_starts(l: Layout)
    requires
        layout_ok(l),
    ensures
        layout_text(l).len() > 0,
        !white_space(layout_text(l)[0]),
        layout_text(l)[0] != ';',
        layout_text(l)[0] != ')',
        l is Word <==> !delimiter(layout_text(l)[0]),
{
    match l {
        Layout::Word(t) => {
            assert(!white_space(t[0]));
        },
        Layout::Quote(ms) => {
            assert(layout_text(l)[0] == '"');
        },
        Layout::Group(ls, gs) => {
            assert(layout_text(l)[0] == '(');
        },
    }
}

proof fn lemma_row_rest(ls: Seq<Layout>, gs: Seq<Gap>)
    requires
        row_ok(ls, gs),
        ls.len() > 0,
    ensures
        row_ok(ls.drop_first(), gs.drop_first()),
        row_text(ls.drop_first(), gs.drop_first()).len() > 0 && ls[0] is Word ==> delimiter(
            row_text(ls.drop_first(), gs.drop_first())[0],
        ),
{
    let (ks, hs) = (ls.drop_first(), gs.drop_first());
    assert forall|i: int| 0 <= i < hs.len() implies gap_ok(#[trigger] hs[i]) by {
        assert(hs[i] == gs[i + 1]);
    }
    assert forall|i: int| 0 <= i < ks.len() implies layout_ok(#[trigger] ks[i]) by {
        assert(ks[i] == ls[i + 1]);
    }
    assert forall|i: int| 0 < i < ks.len() && ks[i - 1] is Word && #[trigger] ks[i] is Word implies
        hs[i].len() > 0 by {
        assert(ks[i] == ls[i + 1]);
        assert(ks[i - 1] == ls[i]);
        assert(hs[i] == gs[i + 1]);
    }
    assert(row_ok(ks, hs));
    let text = row_text(ks, hs);
    if text.len() > 0 && ls[0] is Word {
        assert(gap_ok(hs[0]));
        if hs[0].len() > 0 {
            let b = hs[0][0];
            assert(blank_ok(b));
            assert(text[0] == b[0]);
        } else {
            assert(run_together(hs[0]).len() == 0);
            assert(ks.len() > 0);
            assert(ks[0] == ls[1]);
            assert(hs[0] == gs[1]);
            lemma_layout_starts(ks[0]);
            assert(text[0] == layout_text(ks[0])[0]);
        }
    }
}

proof fn lemma_layout_reads(cs: Seq<char>, pos: int, l: Layout, depth: int)
    requires
        at(cs, pos, layout_text(l)),
        layout_ok(l),
        fits(l, 4096 - depth),
        l is Word ==> pos + layout_text(l).len() == cs.len() || delimiter(
            cs[pos + layout_text(l).len()],
        ),
    ensures
        form(cs, pos, depth) == Ok::<Option<(Datum, int)>, Fault>(
            Some((denoted(l), pos + layout_text(l).len())),
        ),
        0 <= pos < cs.len(),
        !white_space(cs[pos]),
        cs[pos] != ';',
        cs[pos] != ')',
    decreases l, 0int,
{
    lemma_layout_starts(l);
    assert(cs[pos + 0] == layout_text(l)[0]);
    match l {
        Layout::Word(t) => {
            lemma_word_ends(cs, pos, t);
        },
        Layout::Quote(ms) => {
            assert(layout_text(l) =~= seq!['"'] + (run_together(ms) + seq!['"']));
            lemma_at(cs, pos, seq!['"'], run_together(ms) + seq!['"']);
            lemma_quote_reads(cs, pos + 1, ms);
        },
        Layout::Group(ls, gs) => {
            assert(layout_text(l) =~= seq!['('] + (row_text(ls, gs) + seq![')']));
            lemma_at(cs, pos, seq!['('], row_text(ls, gs) + seq![')']);
            lemma_at(cs, pos + 1, row_text(ls, gs), seq![')']);
            assert(cs[pos + 1 + row_text(ls, gs).len() + 0] == seq![')'][0]);
            lemma_row_reads(cs, pos + 1, ls, gs, depth + 1);
        },
    }
}

proof fn lemma_row_reads(
    cs: Seq<char>,
    pos: int,
    ls: Seq<Layout>,
    gs: Seq<Gap>,
    depth: int,
)
    requires
        at(cs, pos, row_text(ls, gs)),
        pos + row_text(ls, gs).len() < cs.len(),
        cs[pos + row_text(ls, gs).len()] == ')',
        row_ok(ls, gs),
        forall|i: int| 0 <= i < ls.len() ==> fits(#[trigger] ls[i], 4096 - depth),
    ensures
        items(cs, pos, depth) == Ok::<(Seq<Datum>, int), Fault>(
            (denoted_row(ls), pos + row_text(ls, gs).len() + 1),
        ),
    decreases ls, 1int,
{
    let end = pos + row_text(ls, gs).len();
    assert(gap_ok(gs[0]));
    assert(!white_space(')'));
    if ls.len() == 0 {
        lemma_gap_is_skipped(cs, pos, gs[0]);
        assert(skip_trivia(cs, end) == end);
    } else {
        let (ks, hs) = (ls.drop_first(), gs.drop_first());
        let p = pos + run_together(gs[0]).len();
        let q = p + layout_text(ls[0]).len();
        lemma_at(cs, pos, run_together(gs[0]) + layout_text(ls[0]), row_text(ks, hs));
        lemma_at(cs, pos, run_together(gs[0]), layout_text(ls[0]));
        lemma_gap_is_skipped(cs, pos, gs[0]);
        lemma_row_rest(ls, gs);
        if row_text(ks, hs).len() > 0 {
            assert(cs[q + 0] == row_text(ks, hs)[0]);
        }
        assert(layout_ok(ls[0]));
        assert(fits(ls[0], 4096 - depth));
        lemma_layout_reads(cs, p, ls[0], depth);
        assert forall|i: int| 0 <= i < ks.len() implies fits(#[trigger] ks[i], 4096 - depth) by {
            assert(ks[i] == ls[i + 1]);
        }
        lemma_row_reads(cs, q, ks, hs, depth);
        assert(skip_trivia(cs, p) == p);
    }
}

proof fn lemma_stream_reads(cs: Seq<char>, pos: int, ls: Seq<Layout>, gs: Seq<Gap>)
    requires
        at(cs, pos, row_text(ls, gs)),
        skip_trivia(cs, pos + row_text(ls, gs).len()) == cs.len(),
        pos + row_text(ls, gs).len() < cs.len() ==> cs[pos + row_text(ls, gs).len()] == ';',
        row_ok(ls, gs),
        forall|i: int| 0 <= i < ls.len() ==> fits(#[trigger] ls[i], 4096),
    ensures
        documents(cs, pos) == Ok::<Seq<Datum>, Fault>(denoted_row(ls)),
    decreases ls,
{
    assert(gap_ok(gs[0]));
    if ls.len() == 0 {
        lemma_gap_is_skipped(cs, pos, gs[0]);
    } else {
        let (ks, hs) = (ls.drop_first(), gs.drop_first());
        let p = pos + run_together(gs[0]).len();
        let q = p + layout_text(ls[0]).len();
        lemma_at(cs, pos, run_together(gs[0]) + layout_text(ls[0]), row_text(ks, hs));
        lemma_at(cs, pos, run_together(gs[0]), layout_text(ls[0]));
        lemma_gap_is_skipped(cs, pos, gs[0]);
        lemma_row_rest(ls, gs);
        if row_text(ks, hs).len() > 0 {
            assert(cs[q + 0] == row_text(ks, hs)[0]);
        }
        assert(layout_ok(ls[0]));
        assert(fits(ls[0], 4096));
        lemma_layout_reads(cs, p, ls[0], 0);
        assert forall|i: int| 0 <= i < ks.len() implies fits(#[trigger] ks[i], 4096) by {
            assert(ks[i] == ls[i + 1]);
        }
        lemma_stream_reads(cs, q, ks, hs);
        assert(skip_trivia(cs, p) == p);
    }
}

/// The text of a stream of forms.
pub open spec fn stream_text(
    ls: Seq<Layout>,
    gs: Seq<Gap>,
    last: Option<Seq<char>>,
) -> Seq<char> {
    row_text(ls, gs) + last_text(last)
}

/// A stream of forms that is laid out well, and nests no deeper than the reader allows.
pub open spec fn stream_ok(
    ls: Seq<Layout>,
    gs: Seq<Gap>,
    last: Option<Seq<char>>,
) -> bool {
    &&& row_ok(ls, gs)
    &&& forall|i: int| 0 <= i < ls.len() ==> fits(#[trigger] ls[i], 4096)
    &&& last matches Some(t) ==> one_line(t)
}

/// Whatever is laid out reads as what it denotes: a stream of words, quoted strings and groups,
/// with white space and comments between them.
pub proof fn a_layout_reads_as_what_it_denotes(
    ls: Seq<Layout>,
    gs: Seq<Gap>,
    last: Option<Seq<char>>,
)
    requires
        stream_ok(ls, gs, last),
    ensures
        documents(stream_text(ls, gs, last), 0) == Ok::<Seq<Datum>, Fault>(denoted_row(ls)),
        ls.len() == 1 ==> document(stream_text(ls, gs, last)) == Ok::<Datum, Fault>(denoted(ls[0])),
{
    let cs = stream_text(ls, gs, last);
    let end = row_text(ls, gs).len() as int;
    lemma_at(cs, 0, row_text(ls, gs), last_text(last));
    if let Some(t) = last {
        assert(cs[end + 0] == last_text(last)[0]);
        assert(one_line(seq![';'] + t));
        lemma_line_end_at(cs, end, seq![';'] + t);
        assert(end + (seq![';'] + t).len() == cs.len());
        assert(line_end(cs, cs.len() as int) == cs.len());
        assert(!white_space(';'));
        assert(skip_trivia(cs, cs.len() as int) == cs.len());
    }
    lemma_stream_reads(cs, 0, ls, gs);
    if ls.len() == 1 {
        assert(ls.drop_first() =~= Seq::<Layout>::empty());
        assert(denoted_row(ls.drop_first()) =~= Seq::<Datum>::empty());
        assert(denoted_row(ls) =~= seq![denoted(ls[0])]);
        one_form_is_a_stream_of_one(cs, denoted(ls[0]));
    }
}

/// A text without a quote and without a backslash, between two quotes, reads as the string of
/// exactly those characters, line feeds and all.
pub proof fn a_plain_string_reads_as_it_stands(s: Seq<char>)
    requires
        forall|i: int| 0 <= i < s.len() ==> #[trigger] s[i] != '"' && s[i] != '\\',
    ensures
        document(seq!['"'] + s + seq!['"']) == Ok::<Datum, Fault>(Datum::Str(s)),
{
    let ms = s.map_values(|c: char| seq![c]);
    let ls = seq![Layout::Quote(ms)];
    let gs: Seq<Gap> = seq![Seq::empty(), Seq::empty()];
    lemma_raw_marks(s);
    assert(marks_chars(ms) =~= s);
    assert(marks_ok(ms));
    assert(stream_ok(ls, gs, None));
    a_layout_reads_as_what_it_denotes(ls, gs, None);
    assert(ls.drop_first() =~= Seq::<Layout>::empty());
    assert(gs.drop_first()[0] == Seq::<Seq<char>>::empty());
    assert(row_text(ls.drop_first(), gs.drop_first()) =~= Seq::<char>::empty());
    assert(run_together(gs[0]) =~= Seq::<char>::empty());
    assert(layout_text(ls[0]) == seq!['"'] + s + seq!['"']);
    assert(row_text(ls, gs) =~= layout_text(ls[0]));
    assert(stream_text(ls, gs, None) =~= seq!['"'] + s + seq!['"']);
}

proof fn lemma_raw_marks(s: Seq<char>)
    ensures
        run_together(s.map_values(|c: char| seq![c])) == s,
    decreases s.len(),
{
    let ms = s.map_values(|c: char| seq![c]);
    if s.len() > 0 {
        lemma_raw_marks(s.drop_first());
        assert(ms.drop_first() =~= s.drop_first().map_values(|c: char| seq![c]));
        assert(seq![s[0]] + s.drop_first() =~= s);
    } else {
        assert(run_together(ms) =~= s);
    }
}

// ---------------------------------------------------------------------------------------
// What is read is laid out
// ---------------------------------------------------------------------------------------

proof fn lemma_line_end_is(cs: Seq<char>, pos: int)
    requires
        0 <= pos < cs.len(),
    ensures
        pos < line_end(cs, pos) <= cs.len(),
        forall|i: int| pos <= i < line_end(cs, pos) - 1 ==> #[trigger] cs[i] != '\n',
        cs[line_end(cs, pos) - 1] == '\n' || line_end(cs, pos) == cs.len(),
    decreases cs.len() - pos,
{
    if cs[pos] != '\n' {
        if pos + 1 < cs.len() {
            lemma_line_end_is(cs, pos + 1);
        } else {
            assert(line_end(cs, pos + 1) == pos + 1);
        }
    }
}

proof fn lemma_gap_of(cs: Seq<char>, pos: int) -> (r: (Gap, Option<Seq<char>>))
    requires
        0 <= pos <= cs.len(),
    ensures
        pos <= skip_trivia(cs, pos) <= cs.len(),
        cs.subrange(pos, skip_trivia(cs, pos)) == run_together(r.0) + last_text(r.1),
        gap_ok(r.0),
        r.1 matches Some(t) ==> one_line(t),
        skip_trivia(cs, pos) < cs.len() ==> r.1 is None,
    decreases cs.len() - pos,
{
    lemma_skip_trivia(cs, pos);
    let p = skip_trivia(cs, pos);
    let none: Gap = Seq::empty();
    if pos == cs.len() || (!white_space(cs[pos]) && cs[pos] != ';') {
        assert(p == pos);
        assert(cs.subrange(pos, p) =~= run_together(none) + last_text(None));
        (none, None)
    } else if white_space(cs[pos]) {
        let (g, last) = lemma_gap_of(cs, pos + 1);
        let all = seq![seq![cs[pos]]] + g;
        assert(all.drop_first() =~= g);
        assert(cs.subrange(pos, p) =~= seq![cs[pos]] + cs.subrange(pos + 1, p));
        assert(cs.subrange(pos, p) =~= run_together(all) + last_text(last));
        (all, last)
    } else {
        lemma_line_end_is(cs, pos);
        let e = line_end(cs, pos);
        if cs[e - 1] == '\n' {
            let t = cs.subrange(pos + 1, e - 1);
            assert(one_line(t)) by {
                assert forall|i: int| 0 <= i < t.len() implies #[trigger] t[i] != '\n' by {
                    assert(cs[pos + 1 + i] != '\n');
                }
            }
            let (g, last) = lemma_gap_of(cs, e);
            let b = seq![';'] + t + seq!['\n'];
            let all = seq![b] + g;
            assert(all.drop_first() =~= g);
            assert(b.drop_last() =~= seq![';'] + t);
            assert(blank_ok(b));
            assert(cs.subrange(pos, p) =~= b + cs.subrange(e, p));
            assert(cs.subrange(pos, p) =~= run_together(all) + last_text(last));
            (all, last)
        } else {
            let t = cs.subrange(pos + 1, e);
            assert(one_line(t)) by {
                assert forall|i: int| 0 <= i < t.len() implies #[trigger] t[i] != '\n' by {
                    if i < t.len() - 1 {
                        assert(cs[pos + 1 + i] != '\n');
                    }
                }
            }
            assert(skip_trivia(cs, e) == e);
            assert(cs.subrange(pos, p) =~= run_together(none) + last_text(Some(t)));
            (none, Some(t))
        }
    }
}

proof fn lemma_marks_of(cs: Seq<char>, pos: int) -> (ms: Marks)
    requires
        0 <= pos <= cs.len(),
        string_body(cs, pos) is Ok,
    ensures
        marks_ok(ms),
        pos < string_body(cs, pos)->Ok_0.1 <= cs.len(),
        cs.subrange(pos, string_body(cs, pos)->Ok_0.1) == run_together(ms) + seq!['"'],
        marks_chars(ms) == string_body(cs, pos)->Ok_0.0,
    decreases cs.len() - pos,
{
    lemma_string_body(cs, pos);
    let (s, q) = string_body(cs, pos)->Ok_0;
    if cs[pos] == '"' {
        let ms: Marks = Seq::empty();
        assert(cs.subrange(pos, q) =~= run_together(ms) + seq!['"']);
        assert(marks_chars(ms) =~= s);
        ms
    } else {
        let (m, next) = if cs[pos] == '\\' {
            (seq!['\\', cs[pos + 1]], pos + 2)
        } else {
            (seq![cs[pos]], pos + 1)
        };
        let rest = lemma_marks_of(cs, next);
        let ms = seq![m] + rest;
        assert(ms.drop_first() =~= rest);
        assert(cs.subrange(pos, q) =~= m + cs.subrange(next, q));
        assert(cs.subrange(pos, q) =~= run_together(ms) + seq!['"']);
        assert(marks_chars(ms) =~= seq![mark_char(m)] + marks_chars(rest));
        assert forall|i: int| 0 <= i < ms.len() implies mark_ok(#[trigger] ms[i]) by {
            if i > 0 {
                assert(ms[i] == rest[i - 1]);
            }
        }
        ms
    }
}

proof fn lemma_layout_of(cs: Seq<char>, pos: int, depth: int) -> (l: Layout)
    requires
        0 <= pos < cs.len(),
        !white_space(cs[pos]),
        cs[pos] != ';',
        form(cs, pos, depth) is Ok,
    ensures
        form(cs, pos, depth)->Ok_0 is Some,
        pos < form(cs, pos, depth)->Ok_0->Some_0.1 <= cs.len(),
        cs.subrange(pos, form(cs, pos, depth)->Ok_0->Some_0.1) == layout_text(l),
        layout_ok(l),
        fits(l, 4096 - depth),
        denoted(l) == form(cs, pos, depth)->Ok_0->Some_0.0,
        l is Word && form(cs, pos, depth)->Ok_0->Some_0.1 < cs.len() ==> delimiter(
            cs[form(cs, pos, depth)->Ok_0->Some_0.1],
        ),
    decreases cs.len() - pos, 0int,
{
    lemma_form(cs, pos, depth);
    let q = form(cs, pos, depth)->Ok_0->Some_0.1;
    if cs[pos] == '(' {
        let (ls, gs) = lemma_row_of(cs, pos + 1, depth + 1);
        let l = Layout::Group(ls, gs);
        assert(cs.subrange(pos, q) =~= seq!['('] + cs.subrange(pos + 1, q));
        assert(cs.subrange(pos, q) =~= layout_text(l));
        l
    } else if cs[pos] == '"' {
        let ms = lemma_marks_of(cs, pos + 1);
        let l = Layout::Quote(ms);
        assert(cs.subrange(pos, q) =~= seq!['"'] + cs.subrange(pos + 1, q));
        assert(cs.subrange(pos, q) =~= layout_text(l));
        l
    } else {
        lemma_token_end(cs, pos);
        let t = cs.subrange(pos, q);
        assert forall|i: int| 0 <= i < t.len() implies !white_space(#[trigger] t[i]) && t[i] != '('
            && t[i] != ')' && t[i] != '"' && t[i] != ';' by {
            assert(!delimiter(cs[pos + i]));
        }
        Layout::Word(t)
    }
}

proof fn lemma_row_of(cs: Seq<char>, pos: int, depth: int) -> (r: (
    Seq<Layout>,
    Seq<Gap>,
))
    requires
        0 <= pos <= cs.len(),
        items(cs, pos, depth) is Ok,
    ensures
        pos < items(cs, pos, depth)->Ok_0.1 <= cs.len(),
        cs.subrange(pos, items(cs, pos, depth)->Ok_0.1) == row_text(r.0, r.1) + seq![')'],
        row_ok(r.0, r.1),
        forall|i: int| 0 <= i < r.0.len() ==> fits(#[trigger] r.0[i], 4096 - depth),
        denoted_row(r.0) == items(cs, pos, depth)->Ok_0.0,
        r.0.len() > 0 && r.0[0] is Word && r.1[0].len() == 0 ==> !delimiter(cs[pos]),
    decreases cs.len() - pos, 1int,
{
    lemma_items(cs, pos, depth);
    let q = items(cs, pos, depth)->Ok_0.1;
    let (g, last) = lemma_gap_of(cs, pos);
    lemma_skip_trivia(cs, pos);
    let p = skip_trivia(cs, pos);
    assert(cs.subrange(pos, p) =~= run_together(g));
    if cs[p] == ')' {
        let ls = Seq::<Layout>::empty();
        let gs = seq![g];
        assert(cs.subrange(pos, q) =~= cs.subrange(pos, p) + seq![')']);
        assert(denoted_row(ls) =~= items(cs, pos, depth)->Ok_0.0);
        (ls, gs)
    } else {
        lemma_form(cs, p, depth);
        let l = lemma_layout_of(cs, p, depth);
        let next = form(cs, p, depth)->Ok_0->Some_0.1;
        assert(items(cs, next, depth) is Ok);
        let (ks, hs) = lemma_row_of(cs, next, depth);
        let (ls, gs) = (seq![l] + ks, seq![g] + hs);
        lemma_row_first(l, g, ks, hs);
        lemma_layout_starts(l);
        if l is Word && g.len() == 0 {
            assert(p == pos);
            assert(cs[p] == cs.subrange(p, next)[0]);
        }
        assert(cs.subrange(pos, q) =~= cs.subrange(pos, p) + cs.subrange(p, next) + cs.subrange(
            next,
            q,
        ));
        assert(cs.subrange(pos, q) =~= row_text(ls, gs) + seq![')']);
        assert forall|i: int| 0 <= i < ls.len() implies fits(#[trigger] ls[i], 4096 - depth) by {
            if i > 0 {
                assert(ls[i] == ks[i - 1]);
            }
        }
        (ls, gs)
    }
}

/// One form more in front of a row.
proof fn lemma_row_first(l: Layout, g: Gap, ks: Seq<Layout>, hs: Seq<Gap>)
    requires
        layout_ok(l),
        gap_ok(g),
        row_ok(ks, hs),
        l is Word && ks.len() > 0 && ks[0] is Word ==> hs[0].len() > 0,
    ensures
        row_ok(seq![l] + ks, seq![g] + hs),
        row_text(seq![l] + ks, seq![g] + hs) == run_together(g) + layout_text(l) + row_text(ks, hs),
        denoted_row(seq![l] + ks) == seq![denoted(l)] + denoted_row(ks),
{
    let (ls, gs) = (seq![l] + ks, seq![g] + hs);
    assert(ls.drop_first() =~= ks);
    assert(gs.drop_first() =~= hs);
    assert forall|i: int| 0 <= i < gs.len() implies gap_ok(#[trigger] gs[i]) by {
        if i > 0 {
            assert(gs[i] == hs[i - 1]);
        }
    }
    assert forall|i: int| 0 <= i < ls.len() implies layout_ok(#[trigger] ls[i]) by {
        if i > 0 {
            assert(ls[i] == ks[i - 1]);
        }
    }
    assert forall|i: int| 0 < i < ls.len() && ls[i - 1] is Word && #[trigger] ls[i] is Word implies
        gs[i].len() > 0 by {
        assert(ls[i] == ks[i - 1]);
        assert(gs[i] == hs[i - 1]);
        if i > 1 {
            assert(ls[i - 1] == ks[i - 2]);
        }
    }
}

proof fn lemma_stream_of(cs: Seq<char>, pos: int) -> (r: (
    Seq<Layout>,
    Seq<Gap>,
    Option<Seq<char>>,
))
    requires
        0 <= pos <= cs.len(),
        documents(cs, pos) is Ok,
    ensures
        cs.skip(pos) == stream_text(r.0, r.1, r.2),
        stream_ok(r.0, r.1, r.2),
        denoted_row(r.0) == documents(cs, pos)->Ok_0,
        r.0.len() > 0 && r.0[0] is Word && r.1[0].len() == 0 ==> !delimiter(cs[pos]),
    decreases cs.len() - pos,
{
    let (g, last) = lemma_gap_of(cs, pos);
    lemma_skip_trivia(cs, pos);
    let p = skip_trivia(cs, pos);
    if p == cs.len() {
        let ls = Seq::<Layout>::empty();
        let gs = seq![g];
        assert(form(cs, p, 0) == Ok::<Option<(Datum, int)>, Fault>(None));
        assert(cs.skip(pos) =~= cs.subrange(pos, p));
        assert(denoted_row(ls) =~= documents(cs, pos)->Ok_0);
        (ls, gs, last)
    } else {
        lemma_form(cs, p, 0);
        let l = lemma_layout_of(cs, p, 0);
        let next = form(cs, p, 0)->Ok_0->Some_0.1;
        assert(documents(cs, next) is Ok);
        let (ks, hs, end) = lemma_stream_of(cs, next);
        let (ls, gs) = (seq![l] + ks, seq![g] + hs);
        lemma_row_first(l, g, ks, hs);
        lemma_layout_starts(l);
        if l is Word && g.len() == 0 {
            assert(cs.subrange(pos, p).len() == 0);
            assert(cs[p] == cs.subrange(p, next)[0]);
        }
        assert(cs.skip(pos) =~= cs.subrange(pos, p) + cs.subrange(p, next) + cs.skip(next));
        assert(cs.subrange(pos, p) =~= run_together(g));
        assert(cs.skip(pos) =~= stream_text(ls, gs, end));
        assert forall|i: int| 0 <= i < ls.len() implies fits(#[trigger] ls[i], 4096) by {
            if i > 0 {
                assert(ls[i] == ks[i - 1]);
            }
        }
        (ls, gs, end)
    }
}

/// Nothing else is read: a text that reads as a row of data is laid out so that it denotes them,
/// and one that reads as a datum is laid out as one form that denotes it.
pub proof fn whatever_is_read_is_laid_out(src: Seq<char>)
    ensures
        documents(src, 0) matches Ok(ds) ==> exists|
            ls: Seq<Layout>,
            gs: Seq<Gap>,
            last: Option<Seq<char>>,
        |
            src == #[trigger] stream_text(ls, gs, last) && stream_ok(ls, gs, last) && denoted_row(ls)
                == ds,
        document(src) matches Ok(d) ==> exists|
            l: Layout,
            gs: Seq<Gap>,
            last: Option<Seq<char>>,
        |
            src == #[trigger] stream_text(seq![l], gs, last) && stream_ok(seq![l], gs, last)
                && denoted(l) == d,
{
    if documents(src, 0) is Ok {
        let (ls, gs, last) = lemma_stream_of(src, 0);
        assert(src.skip(0) =~= src);
        assert(src == stream_text(ls, gs, last));
    }
    if let Ok(d) = document(src) {
        one_form_is_a_stream_of_one(src, d);
        let (ls, gs, last) = lemma_stream_of(src, 0);
        assert(src.skip(0) =~= src);
        assert(denoted_row(ls).len() == 1);
        lemma_denoted_len(ls);
        let l = ls[0];
        assert(ls =~= seq![l]);
        assert(ls.drop_first() =~= Seq::<Layout>::empty());
        assert(denoted_row(ls)[0] == denoted(l));
        assert(seq![d][0] == d);
        assert(src == stream_text(seq![l], gs, last));
    }
}

proof fn lemma_denoted_len(ls: Seq<Layout>)
    ensures
        denoted_row(ls).len() == ls.len(),
    decreases ls.len(),
{
    if ls.len() > 0 {
        lemma_denoted_len(ls.drop_first());
    }
}

// ---------------------------------------------------------------------------------------
// What cannot be read
// ---------------------------------------------------------------------------------------

/// How the end of a text may break off the form that it starts.
pub enum Flaw {
    /// A string without its closing quote.
    Quote(Marks),
    /// A string that ends in a backslash.
    Escape(Marks),
    /// One group too many, and anything behind its parenthesis.
    TooDeep(Seq<char>),
    /// A group without its closing parenthesis, and a comment that the end of the text ends.
    Open(Seq<Layout>, Seq<Gap>, Option<Seq<char>>),
    /// A group in which something else is broken off.
    Inside(Seq<Layout>, Seq<Gap>, Box<Flaw>),
}

pub open spec fn flaw_text(f: Flaw) -> Seq<char>
    decreases f,
{
    match f {
        Flaw::Quote(ms) => seq!['"'] + run_together(ms),
        Flaw::Escape(ms) => seq!['"'] + (run_together(ms) + seq!['\\']),
        Flaw::TooDeep(rest) => seq!['('] + rest,
        Flaw::Open(ls, gs, last) => seq!['('] + (row_text(ls, gs) + last_text(last)),
        Flaw::Inside(ls, gs, inner) => seq!['('] + (row_text(ls, gs) + flaw_text(*inner)),
    }
}

/// Whether what stands before the flaw is laid out well, when `room` groups more may stand in one
/// another.
pub open spec fn flaw_ok(f: Flaw, room: int) -> bool
    decreases f,
{
    match f {
        Flaw::Quote(ms) => marks_ok(ms),
        Flaw::Escape(ms) => marks_ok(ms),
        Flaw::TooDeep(_) => room == 0,
        Flaw::Open(ls, gs, last) => {
            &&& room > 0
            &&& row_ok(ls, gs)
            &&& forall|i: int| 0 <= i < ls.len() ==> fits(#[trigger] ls[i], room - 1)
            &&& last matches Some(t) ==> one_line(t)
        },
        Flaw::Inside(ls, gs, inner) => {
            &&& room > 0
            &&& row_ok(ls, gs)
            &&& forall|i: int| 0 <= i < ls.len() ==> fits(#[trigger] ls[i], room - 1)
            &&& flaw_ok(*inner, room - 1)
        },
    }
}

/// What is told of a flaw.
pub open spec fn flaw_detail(f: Flaw) -> Seq<char>
    decreases f,
{
    match f {
        Flaw::Quote(_) => "unterminated string literal"@,
        Flaw::Escape(_) => "unterminated escape at end of string"@,
        Flaw::TooDeep(_) => "s-expression nests deeper than the read limit"@,
        Flaw::Open(_, _, _) => "unexpected end of input: missing `)`"@,
        Flaw::Inside(_, _, inner) => flaw_detail(*inner),
    }
}

proof fn lemma_open_quote(cs: Seq<char>, pos: int, ms: Marks)
    requires
        at(cs, pos, run_together(ms)),
        marks_ok(ms),
        pos + run_together(ms).len() == cs.len() || (pos + run_together(ms).len() + 1 == cs.len()
            && cs[cs.len() - 1] == '\\'),
    ensures
        string_body(cs, pos) == Err::<(Seq<char>, int), Fault>(
            Fault::Parse(
                if pos + run_together(ms).len() == cs.len() {
                    "unterminated string literal"@
                } else {
                    "unterminated escape at end of string"@
                },
            ),
        ),
    decreases ms.len(),
{
    if ms.len() > 0 {
        let rest = ms.drop_first();
        let m = ms[0];
        assert(mark_ok(m));
        lemma_at(cs, pos, m, run_together(rest));
        assert forall|i: int| 0 <= i < rest.len() implies mark_ok(#[trigger] rest[i]) by {
            assert(rest[i] == ms[i + 1]);
        }
        assert(cs[pos + 0] == m[0]);
        lemma_open_quote(cs, pos + m.len(), rest);
    }
}

proof fn lemma_last_comment(cs: Seq<char>, pos: int, last: Option<Seq<char>>)
    requires
        at(cs, pos, last_text(last)),
        pos + last_text(last).len() == cs.len(),
        last matches Some(t) ==> one_line(t),
    ensures
        skip_trivia(cs, pos) == cs.len(),
        pos < cs.len() ==> cs[pos] == ';',
{
    if let Some(t) = last {
        assert(cs[pos + 0] == last_text(last)[0]);
        assert(one_line(seq![';'] + t));
        lemma_line_end_at(cs, pos, seq![';'] + t);
        assert(line_end(cs, cs.len() as int) == cs.len());
        assert(!white_space(';'));
        assert(skip_trivia(cs, cs.len() as int) == cs.len());
    }
}

/// A row that something broken stands behind.
proof fn lemma_row_breaks(
    cs: Seq<char>,
    pos: int,
    ls: Seq<Layout>,
    gs: Seq<Gap>,
    depth: int,
    e: Fault,
)
    requires
        at(cs, pos, row_text(ls, gs)),
        row_ok(ls, gs),
        forall|i: int| 0 <= i < ls.len() ==> fits(#[trigger] ls[i], 4096 - depth),
        ({
            let end = pos + row_text(ls, gs).len();
            ||| skip_trivia(cs, end) == cs.len() && (end == cs.len() || cs[end] == ';') && e
                == Fault::Parse("unexpected end of input: missing `)`"@)
            ||| skip_trivia(cs, end) == end && end < cs.len() && cs[end] != ')' && delimiter(
                cs[end],
            ) && form(cs, end, depth) == Err::<Option<(Datum, int)>, Fault>(e)
        }),
    ensures
        items(cs, pos, depth) == Err::<(Seq<Datum>, int), Fault>(e),
    decreases ls,
{
    assert(gap_ok(gs[0]));
    lemma_skip_trivia(cs, pos);
    if ls.len() == 0 {
        lemma_gap_is_skipped(cs, pos, gs[0]);
    } else {
        let (ks, hs) = (ls.drop_first(), gs.drop_first());
        let p = pos + run_together(gs[0]).len();
        let q = p + layout_text(ls[0]).len();
        lemma_at(cs, pos, run_together(gs[0]) + layout_text(ls[0]), row_text(ks, hs));
        lemma_at(cs, pos, run_together(gs[0]), layout_text(ls[0]));
        lemma_gap_is_skipped(cs, pos, gs[0]);
        lemma_row_rest(ls, gs);
        if row_text(ks, hs).len() > 0 {
            assert(cs[q + 0] == row_text(ks, hs)[0]);
        }
        assert(layout_ok(ls[0]));
        assert(fits(ls[0], 4096 - depth));
        lemma_layout_reads(cs, p, ls[0], depth);
        assert forall|i: int| 0 <= i < ks.len() implies fits(#[trigger] ks[i], 4096 - depth) by {
            assert(ks[i] == ls[i + 1]);
        }
        lemma_row_breaks(cs, q, ks, hs, depth, e);
        assert(skip_trivia(cs, p) == p);
    }
}

proof fn lemma_flaw_starts(f: Flaw)
    ensures
        flaw_text(f).len() > 0,
        flaw_text(f)[0] == '(' || flaw_text(f)[0] == '"',
        !white_space('('),
        !white_space('"'),
        !white_space(')'),
{
}

proof fn lemma_flaw_breaks(cs: Seq<char>, pos: int, f: Flaw, depth: int)
    requires
        at(cs, pos, flaw_text(f)),
        pos + flaw_text(f).len() == cs.len(),
        flaw_ok(f, 4096 - depth),
    ensures
        form(cs, pos, depth) == Err::<Option<(Datum, int)>, Fault>(Fault::Parse(flaw_detail(f))),
    decreases f,
{
    lemma_flaw_starts(f);
    assert(cs[pos + 0] == flaw_text(f)[0]);
    match f {
        Flaw::Quote(ms) => {
            lemma_at(cs, pos, seq!['"'], run_together(ms));
            lemma_open_quote(cs, pos + 1, ms);
        },
        Flaw::Escape(ms) => {
            lemma_at(cs, pos, seq!['"'], run_together(ms) + seq!['\\']);
            lemma_at(cs, pos + 1, run_together(ms), seq!['\\']);
            assert(cs[pos + 1 + run_together(ms).len() + 0] == seq!['\\'][0]);
            lemma_open_quote(cs, pos + 1, ms);
        },
        Flaw::TooDeep(_) => {},
        Flaw::Open(ls, gs, last) => {
            let q = pos + 1 + row_text(ls, gs).len();
            lemma_at(cs, pos, seq!['('], row_text(ls, gs) + last_text(last));
            lemma_at(cs, pos + 1, row_text(ls, gs), last_text(last));
            lemma_last_comment(cs, q, last);
            lemma_row_breaks(cs, pos + 1, ls, gs, depth + 1, Fault::Parse(flaw_detail(f)));
        },
        Flaw::Inside(ls, gs, inner) => {
            let q = pos + 1 + row_text(ls, gs).len();
            lemma_at(cs, pos, seq!['('], row_text(ls, gs) + flaw_text(*inner));
            lemma_at(cs, pos + 1, row_text(ls, gs), flaw_text(*inner));
            lemma_flaw_starts(*inner);
            assert(cs[q + 0] == flaw_text(*inner)[0]);
            lemma_flaw_breaks(cs, q, *inner, depth + 1);
            assert(skip_trivia(cs, q) == q);
            lemma_row_breaks(cs, pos + 1, ls, gs, depth + 1, Fault::Parse(flaw_detail(f)));
        },
    }
}

/// A stream that something broken stands behind.
proof fn lemma_stream_breaks(cs: Seq<char>, pos: int, ls: Seq<Layout>, gs: Seq<Gap>, e: Fault)
    requires
        at(cs, pos, row_text(ls, gs)),
        row_ok(ls, gs),
        forall|i: int| 0 <= i < ls.len() ==> fits(#[trigger] ls[i], 4096),
        ({
            let end = pos + row_text(ls, gs).len();
            skip_trivia(cs, end) == end && end < cs.len() && delimiter(cs[end]) && form(
                cs,
                end,
                0,
            ) == Err::<Option<(Datum, int)>, Fault>(e)
        }),
    ensures
        documents(cs, pos) == Err::<Seq<Datum>, Fault>(e),
        ls.len() == 0 && pos == 0 ==> document(cs) == Err::<Datum, Fault>(e),
    decreases ls,
{
    assert(gap_ok(gs[0]));
    lemma_skip_trivia(cs, pos);
    if ls.len() == 0 {
        lemma_gap_is_skipped(cs, pos, gs[0]);
    } else {
        let (ks, hs) = (ls.drop_first(), gs.drop_first());
        let p = pos + run_together(gs[0]).len();
        let q = p + layout_text(ls[0]).len();
        lemma_at(cs, pos, run_together(gs[0]) + layout_text(ls[0]), row_text(ks, hs));
        lemma_at(cs, pos, run_together(gs[0]), layout_text(ls[0]));
        lemma_gap_is_skipped(cs, pos, gs[0]);
        lemma_row_rest(ls, gs);
        if row_text(ks, hs).len() > 0 {
            assert(cs[q + 0] == row_text(ks, hs)[0]);
        }
        assert(layout_ok(ls[0]));
        assert(fits(ls[0], 4096));
        lemma_layout_reads(cs, p, ls[0], 0);
        assert forall|i: int| 0 <= i < ks.len() implies fits(#[trigger] ks[i], 4096) by {
            assert(ks[i] == ls[i + 1]);
        }
        lemma_stream_breaks(cs, q, ks, hs, e);
        assert(skip_trivia(cs, p) == p);
    }
}

/// A text that breaks off in the middle of a form is refused, with what is wrong where it breaks
/// off; and so is a stream in which well laid out forms stand before that.
pub proof fn a_broken_form_is_refused(ls: Seq<Layout>, gs: Seq<Gap>, f: Flaw)
    requires
        row_ok(ls, gs),
        forall|i: int| 0 <= i < ls.len() ==> fits(#[trigger] ls[i], 4096),
        flaw_ok(f, 4096),
    ensures
        documents(row_text(ls, gs) + flaw_text(f), 0) == Err::<Seq<Datum>, Fault>(
            Fault::Parse(flaw_detail(f)),
        ),
        ls.len() == 0 ==> document(row_text(ls, gs) + flaw_text(f)) == Err::<Datum, Fault>(
            Fault::Parse(flaw_detail(f)),
        ),
{
    let cs = row_text(ls, gs) + flaw_text(f);
    let end = row_text(ls, gs).len() as int;
    lemma_at(cs, 0, row_text(ls, gs), flaw_text(f));
    lemma_flaw_starts(f);
    assert(cs[end + 0] == flaw_text(f)[0]);
    lemma_flaw_breaks(cs, end, f, 0);
    assert(skip_trivia(cs, end) == end);
    lemma_stream_breaks(cs, 0, ls, gs, Fault::Parse(flaw_detail(f)));
}

/// A closing parenthesis where no group is open is refused, whatever stands behind it.
pub proof fn a_stray_parenthesis_is_refused(ls: Seq<Layout>, gs: Seq<Gap>, rest: Seq<char>)
    requires
        row_ok(ls, gs),
        forall|i: int| 0 <= i < ls.len() ==> fits(#[trigger] ls[i], 4096),
    ensures
        documents(row_text(ls, gs) + (seq![')'] + rest), 0) == Err::<Seq<Datum>, Fault>(
            Fault::Parse("unexpected `)` — unbalanced parens"@),
        ),
        ls.len() == 0 ==> document(row_text(ls, gs) + (seq![')'] + rest)) == Err::<Datum, Fault>(
            Fault::Parse("unexpected `)` — unbalanced parens"@),
        ),
{
    let cs = row_text(ls, gs) + (seq![')'] + rest);
    let end = row_text(ls, gs).len() as int;
    lemma_at(cs, 0, row_text(ls, gs), seq![')'] + rest);
    assert(cs[end + 0] == (seq![')'] + rest)[0]);
    assert(!white_space(')'));
    assert(skip_trivia(cs, end) == end);
    lemma_stream_breaks(cs, 0, ls, gs, Fault::Parse("unexpected `)` — unbalanced parens"@));
}

/// A text with nothing but white space and comments is no document.
pub proof fn an_empty_text_is_refused(g: Gap, last: Option<Seq<char>>)
    requires
        gap_ok(g),
        last matches Some(t) ==> one_line(t),
    ensures
        document(run_together(g) + last_text(last)) == Err::<Datum, Fault>(
            Fault::Parse("empty input: expected an s-expression"@),
        ),
{
    let cs = run_together(g) + last_text(last);
    lemma_at(cs, 0, run_together(g), last_text(last));
    lemma_gap_is_skipped(cs, 0, g);
    lemma_last_comment(cs, run_together(g).len() as int, last);
}

/// A form with anything but white space and comments behind it is no document: where it is a
/// word, what stands behind it is apart from it.
pub proof fn a_second_form_is_refused(l: Layout, gs: Seq<Gap>, rest: Seq<char>)
    requires
        row_ok(seq![l], gs),
        fits(l, 4096),
        rest.len() > 0,
        !white_space(rest[0]),
        rest[0] != ';',
        l is Word && gs[1].len() == 0 ==> rest[0] == '(' || rest[0] == ')' || rest[0] == '"',
    ensures
        document(row_text(seq![l], gs) + rest) == Err::<Datum, Fault>(
            Fault::Parse("unexpected trailing tokens after the first form"@),
        ),
{
    let ls = seq![l];
    let (ks, hs) = (ls.drop_first(), gs.drop_first());
    let cs = row_text(ls, gs) + rest;
    let p = run_together(gs[0]).len() as int;
    let q = p + layout_text(l).len();
    let end = row_text(ls, gs).len() as int;
    lemma_at(cs, 0, row_text(ls, gs), rest);
    assert(cs[end + 0] == rest[0]);
    lemma_at(cs, 0, run_together(gs[0]) + layout_text(l), row_text(ks, hs));
    lemma_at(cs, 0, run_together(gs[0]), layout_text(l));
    assert(gap_ok(gs[0]) && gap_ok(gs[1]));
    lemma_gap_is_skipped(cs, 0, gs[0]);
    lemma_row_rest(ls, gs);
    assert(hs[0] == gs[1]);
    if row_text(ks, hs).len() > 0 {
        assert(cs[q + 0] == row_text(ks, hs)[0]);
    } else if gs[1].len() > 0 {
        assert(blank_ok(gs[1][0]));
        assert(run_together(gs[1]).len() > 0);
    }
    assert(layout_ok(ls[0]));
    lemma_layout_reads(cs, p, l, 0);
    assert(skip_trivia(cs, p) == p);
    lemma_gap_is_skipped(cs, q, gs[1]);
    assert(skip_trivia(cs, end) == end);
}

} // verus!
