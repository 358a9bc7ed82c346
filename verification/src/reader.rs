//! The reader: s-expression text to datum.
//!
//! The grammar is stated by the spec functions [`form`] and [`items`] over a text and a
//! position in it; [`document`] and [`documents`] are what [`parse`] and [`parse_all`]
//! compute.

use vstd::prelude::*;
use vstd::string::*;

use crate::datum::{
    Datum, Fault, Sexpr, SexprResult, data, data_result, datum_result, lemma_data, parse_err,
};
use crate::text::{chars_of, is_whitespace, numeral, read_numeral, string_of, white_space};

verus! {

/// How many lists may enclose one another in a text. A deeper text is refused; this is also
/// the depth to which a code graph is decoded, so that whatever the reader accepts survives
/// the trip through a graph.
pub const MAX_READ_DEPTH: usize = 4096;

// ---------------------------------------------------------------------------------------
// The grammar
// ---------------------------------------------------------------------------------------

/// The position after the line that `pos` lies on: behind its line feed, or at the end.
pub open spec fn line_end(cs: Seq<char>, pos: int) -> int
    decreases cs.len() - pos,
{
    if pos < 0 || pos >= cs.len() {
        pos
    } else if cs[pos] == '\n' {
        pos + 1
    } else {
        line_end(cs, pos + 1)
    }
}

/// The first position from `pos` on that lies neither in white space nor in a `;` comment.
pub open spec fn skip_trivia(cs: Seq<char>, pos: int) -> int
    decreases cs.len() - pos,
{
    if pos < 0 || pos >= cs.len() {
        pos
    } else if white_space(cs[pos]) {
        skip_trivia(cs, pos + 1)
    } else if cs[pos] == ';' {
        let next = line_end(cs, pos);
        if pos < next <= cs.len() {
            skip_trivia(cs, next)
        } else {
            pos
        }
    } else {
        pos
    }
}

/// The characters that end a bare token.
pub open spec fn delimiter(c: char) -> bool {
    white_space(c) || c == '(' || c == ')' || c == '"' || c == ';'
}

/// The end of the bare token that starts at `pos`.
pub open spec fn token_end(cs: Seq<char>, pos: int) -> int
    decreases cs.len() - pos,
{
    if pos < 0 || pos >= cs.len() || delimiter(cs[pos]) {
        pos
    } else {
        token_end(cs, pos + 1)
    }
}

/// What a bare token stands for: an integer if it is a numeral, else a symbol.
pub open spec fn atom(token: Seq<char>) -> Datum {
    match numeral(token) {
        Some(n) => Datum::Int(n),
        None => Datum::Symbol(token),
    }
}

/// What `\c` stands for inside a string: the control character that `c` names, else `c`.
pub open spec fn unescaped(c: char) -> char {
    if c == 'n' {
        '\n'
    } else if c == 'r' {
        '\r'
    } else if c == 't' {
        '\t'
    } else {
        c
    }
}

/// The contents of a string from `pos` up to its closing quote, and the position behind
/// that quote.
pub open spec fn string_body(cs: Seq<char>, pos: int) -> Result<(Seq<char>, int), Fault>
    decreases cs.len() - pos,
{
    if pos < 0 || pos >= cs.len() {
        Err(Fault::Parse("unterminated string literal"@))
    } else if cs[pos] == '"' {
        Ok((Seq::empty(), pos + 1))
    } else if cs[pos] == '\\' {
        if pos + 1 >= cs.len() {
            Err(Fault::Parse("unterminated escape at end of string"@))
        } else {
            prepend(unescaped(cs[pos + 1]), string_body(cs, pos + 2))
        }
    } else {
        prepend(cs[pos], string_body(cs, pos + 1))
    }
}

/// A character in front of what a reading of a string gives.
pub open spec fn prepend(c: char, r: Result<(Seq<char>, int), Fault>) -> Result<
    (Seq<char>, int),
    Fault,
> {
    match r {
        Ok((s, next)) => Ok((seq![c] + s, next)),
        Err(e) => Err(e),
    }
}

/// The form that starts at `pos`, inside `depth` open lists, and the position behind it:
/// `None` at the end of the text.
pub open spec fn form(cs: Seq<char>, pos: int, depth: int) -> Result<Option<(Datum, int)>, Fault>
    decreases cs.len() - pos, 0int,
{
    if pos < 0 || pos >= cs.len() {
        Ok(None)
    } else if cs[pos] == '(' {
        if depth >= MAX_READ_DEPTH {
            Err(Fault::Parse("s-expression nests deeper than the read limit"@))
        } else {
            match items(cs, pos + 1, depth + 1) {
                Ok((ds, next)) => Ok(Some((Datum::List(ds), next))),
                Err(e) => Err(e),
            }
        }
    } else if cs[pos] == ')' {
        Err(Fault::Parse("unexpected `)` — unbalanced parens"@))
    } else if cs[pos] == '"' {
        match string_body(cs, pos + 1) {
            Ok((s, next)) => Ok(Some((Datum::Str(s), next))),
            Err(e) => Err(e),
        }
    } else {
        let end = token_end(cs, pos);
        Ok(Some((atom(cs.subrange(pos, end)), end)))
    }
}

/// The forms from `pos` up to the `)` that closes the list they stand in, inside `depth`
/// open lists, and the position behind that `)`.
pub open spec fn items(cs: Seq<char>, pos: int, depth: int) -> Result<(Seq<Datum>, int), Fault>
    decreases cs.len() - pos, 1int,
{
    let p = skip_trivia(cs, pos);
    if !(0 <= pos <= p < cs.len()) {
        Err(Fault::Parse("unexpected end of input: missing `)`"@))
    } else if cs[p] == ')' {
        Ok((Seq::empty(), p + 1))
    } else {
        match form(cs, p, depth) {
            Ok(Some((d, next))) if p < next <= cs.len() => match items(cs, next, depth) {
                Ok((ds, end)) => Ok((seq![d] + ds, end)),
                Err(e) => Err(e),
            },
            Ok(_) => Err(Fault::Parse("unexpected end of input: missing `)`"@)),
            Err(e) => Err(e),
        }
    }
}

/// What a text with exactly one form stands for.
pub open spec fn document(cs: Seq<char>) -> Result<Datum, Fault> {
    match form(cs, skip_trivia(cs, 0), 0) {
        Err(e) => Err(e),
        Ok(None) => Err(Fault::Parse("empty input: expected an s-expression"@)),
        Ok(Some((d, next))) => if skip_trivia(cs, next) < cs.len() {
            Err(Fault::Parse("unexpected trailing tokens after the first form"@))
        } else {
            Ok(d)
        },
    }
}

/// What a text with any number of forms, read from `pos` on, stands for.
pub open spec fn documents(cs: Seq<char>, pos: int) -> Result<Seq<Datum>, Fault>
    decreases cs.len() - pos,
{
    let p = skip_trivia(cs, pos);
    match form(cs, p, 0) {
        Err(e) => Err(e),
        Ok(Some((d, next))) if pos <= p < next <= cs.len() => match documents(cs, next) {
            Ok(ds) => Ok(seq![d] + ds),
            Err(e) => Err(e),
        },
        Ok(_) => Ok(Seq::empty()),
    }
}

// ---------------------------------------------------------------------------------------
// Facts about the grammar
// ---------------------------------------------------------------------------------------

proof fn lemma_line_end(cs: Seq<char>, pos: int)
    requires
        0 <= pos < cs.len(),
    ensures
        pos < line_end(cs, pos) <= cs.len(),
    decreases cs.len() - pos,
{
    if cs[pos] != '\n' {
        if pos + 1 < cs.len() {
            lemma_line_end(cs, pos + 1);
        } else {
            assert(line_end(cs, pos + 1) == pos + 1);
        }
    }
}

/// Skipping trivia moves forward, and stops at the end or at a character that is not trivia.
pub proof fn lemma_skip_trivia(cs: Seq<char>, pos: int)
    requires
        0 <= pos <= cs.len(),
    ensures
        pos <= skip_trivia(cs, pos) <= cs.len(),
        skip_trivia(cs, pos) < cs.len() ==> !white_space(cs[skip_trivia(cs, pos)])
            && cs[skip_trivia(cs, pos)] != ';',
        skip_trivia(cs, skip_trivia(cs, pos)) == skip_trivia(cs, pos),
    decreases cs.len() - pos,
{
    if pos < cs.len() {
        if white_space(cs[pos]) {
            lemma_skip_trivia(cs, pos + 1);
        } else if cs[pos] == ';' {
            lemma_line_end(cs, pos);
            lemma_skip_trivia(cs, line_end(cs, pos));
        }
    }
}

/// A bare token ends at the end of the text or at the first delimiter.
pub proof fn lemma_token_end(cs: Seq<char>, pos: int)
    requires
        0 <= pos <= cs.len(),
    ensures
        pos <= token_end(cs, pos) <= cs.len(),
        pos < cs.len() && !delimiter(cs[pos]) ==> pos < token_end(cs, pos),
        forall|i: int| pos <= i < token_end(cs, pos) ==> !delimiter(#[trigger] cs[i]),
        token_end(cs, pos) < cs.len() ==> delimiter(cs[token_end(cs, pos)]),
    decreases cs.len() - pos,
{
    if pos < cs.len() && !delimiter(cs[pos]) {
        lemma_token_end(cs, pos + 1);
    }
}

/// A string ends behind its opening quote, inside the text.
pub proof fn lemma_string_body(cs: Seq<char>, pos: int)
    requires
        0 <= pos <= cs.len(),
    ensures
        string_body(cs, pos) matches Ok((s, next)) ==> pos < next <= cs.len(),
    decreases cs.len() - pos,
{
    if pos < cs.len() && cs[pos] != '"' {
        if cs[pos] == '\\' {
            if pos + 1 < cs.len() {
                lemma_string_body(cs, pos + 2);
            }
        } else {
            lemma_string_body(cs, pos + 1);
        }
    }
}

/// A form that starts at a character that is not trivia ends behind it, inside the text.
pub proof fn lemma_form(cs: Seq<char>, pos: int, depth: int)
    requires
        0 <= pos < cs.len(),
        !white_space(cs[pos]),
        cs[pos] != ';',
    ensures
        match form(cs, pos, depth) {
            Ok(Some((d, next))) => pos < next <= cs.len(),
            Ok(None) => false,
            Err(_) => true,
        },
    decreases cs.len() - pos, 0int,
{
    if cs[pos] == '(' {
        lemma_items(cs, pos + 1, depth + 1);
    } else if cs[pos] == '"' {
        lemma_string_body(cs, pos + 1);
    } else {
        lemma_token_end(cs, pos);
    }
}

/// The items of a list end behind the position they are read from, inside the text.
pub proof fn lemma_items(cs: Seq<char>, pos: int, depth: int)
    requires
        0 <= pos <= cs.len(),
    ensures
        items(cs, pos, depth) matches Ok((ds, next)) ==> pos < next <= cs.len(),
    decreases cs.len() - pos, 1int,
{
    lemma_skip_trivia(cs, pos);
    let p = skip_trivia(cs, pos);
    if p < cs.len() && cs[p] != ')' {
        lemma_form(cs, p, depth);
        if let Ok(Some((d, next))) = form(cs, p, depth) {
            lemma_items(cs, next, depth);
        }
    }
}

/// What reading on with the lists `open` gives, the innermost of them last: each holds the
/// items read so far. The outermost list, and the position behind it.
spec fn close_all(cs: Seq<char>, open: Seq<Seq<Datum>>, pos: int) -> Result<(Datum, int), Fault>
    decreases open.len(),
{
    match items(cs, pos, open.len() as int) {
        Err(e) => Err(e),
        Ok((ds, next)) => {
            let list = Datum::List(open.last() + ds);
            if open.len() <= 1 {
                Ok((list, next))
            } else {
                close_all(cs, add_item(open.drop_last(), list), next)
            }
        },
    }
}

/// One more item in the innermost of the open lists.
spec fn add_item(open: Seq<Seq<Datum>>, d: Datum) -> Seq<Seq<Datum>> {
    open.drop_last().push(open.last().push(d))
}

/// Reading one item of the innermost open list and reading on.
proof fn lemma_close_all_item(
    cs: Seq<char>,
    open: Seq<Seq<Datum>>,
    pos: int,
    d: Datum,
    next: int,
)
    requires
        open.len() > 0,
        0 <= pos < cs.len(),
        skip_trivia(cs, pos) == pos,
        cs[pos] != ')',
        form(cs, pos, open.len() as int) == Ok::<Option<(Datum, int)>, Fault>(Some((d, next))),
        pos < next <= cs.len(),
    ensures
        close_all(cs, open, pos) == close_all(cs, add_item(open, d), next),
{
    let grown = add_item(open, d);
    assert(grown.drop_last() =~= open.drop_last());
    if let Ok((ds, end)) = items(cs, next, open.len() as int) {
        assert(open.last() + (seq![d] + ds) =~= grown.last() + ds);
    }
}

/// Opening one more list and reading on.
proof fn lemma_close_all_open(cs: Seq<char>, open: Seq<Seq<Datum>>, pos: int)
    requires
        0 < open.len() < MAX_READ_DEPTH,
        0 <= pos < cs.len(),
        skip_trivia(cs, pos) == pos,
        cs[pos] == '(',
    ensures
        close_all(cs, open, pos) == close_all(cs, open.push(Seq::empty()), pos + 1),
{
    let depth = open.len() as int;
    let inner = open.push(Seq::<Datum>::empty());
    assert(inner.drop_last() =~= open);
    match items(cs, pos + 1, depth + 1) {
        Err(e) => {
            assert(form(cs, pos, depth) == Err::<Option<(Datum, int)>, Fault>(e));
        },
        Ok((ds, next)) => {
            lemma_items(cs, pos + 1, depth + 1);
            assert(inner.last() + ds =~= ds);
            lemma_close_all_item(cs, open, pos, Datum::List(ds), next);
        },
    }
}

/// Trivia in front of the next item changes nothing.
proof fn lemma_close_all_trivia(cs: Seq<char>, open: Seq<Seq<Datum>>, pos: int)
    requires
        open.len() > 0,
        0 <= pos <= cs.len(),
    ensures
        close_all(cs, open, pos) == close_all(cs, open, skip_trivia(cs, pos)),
{
    lemma_skip_trivia(cs, pos);
}

/// Closing the innermost of two or more open lists and reading on.
proof fn lemma_close_all_close(cs: Seq<char>, open: Seq<Seq<Datum>>, pos: int)
    requires
        open.len() > 0,
        0 <= pos < cs.len(),
        skip_trivia(cs, pos) == pos,
        cs[pos] == ')',
    ensures
        open.len() == 1 ==> close_all(cs, open, pos) == Ok::<(Datum, int), Fault>(
            (Datum::List(open.last()), pos + 1),
        ),
        open.len() > 1 ==> close_all(cs, open, pos) == close_all(
            cs,
            add_item(open.drop_last(), Datum::List(open.last())),
            pos + 1,
        ),
{
    assert(open.last() + Seq::<Datum>::empty() =~= open.last());
}

// ---------------------------------------------------------------------------------------
// The reader
// ---------------------------------------------------------------------------------------

/// A cursor over the characters of a text.
struct Reader {
    chars: Vec<char>,
    pos: usize,
}

/// The items of the open lists.
spec fn open_data(open: Seq<Vec<Sexpr>>) -> Seq<Seq<Datum>> {
    Seq::new(open.len(), |i: int| data(open[i]@))
}

impl Reader {
    spec fn wf(self) -> bool {
        self.pos <= self.chars.len()
    }

    fn new(src: &str) -> (r: Self)
        ensures
            r.wf(),
            r.chars@ == src@,
            r.pos == 0,
    {
        Reader { chars: chars_of(src), pos: 0 }
    }

    fn peek(&self) -> (c: Option<char>)
        ensures
            self.pos < self.chars@.len() ==> c == Some(self.chars@[self.pos as int]),
            self.pos >= self.chars@.len() ==> c is None,
    {
        if self.pos < self.chars.len() {
            Some(self.chars[self.pos])
        } else {
            None
        }
    }

    /// Skips white space and `;` line comments.
    fn skip_trivia(&mut self)
        requires
            old(self).wf(),
        ensures
            final(self).wf(),
            final(self).chars == old(self).chars,
            final(self).pos == skip_trivia(old(self).chars@, old(self).pos as int),
    {
        let ghost start = self.pos as int;
        let ghost chars = self.chars;
        while self.pos < self.chars.len()
            invariant_except_break
                self.wf(),
                self.chars == chars,
                skip_trivia(chars@, self.pos as int) == skip_trivia(chars@, start),
            ensures
                self.wf(),
                self.chars == chars,
                self.pos == skip_trivia(chars@, start),
            decreases self.chars.len() - self.pos,
        {
            let c = self.chars[self.pos];
            if is_whitespace(c) {
                self.pos = self.pos + 1;
            } else if c == ';' {
                let ghost comment = self.pos as int;
                proof {
                    lemma_line_end(chars@, comment);
                }
                let mut at_end = false;
                while self.pos < self.chars.len() && !at_end
                    invariant
                        self.wf(),
                        self.chars == chars,
                        comment <= self.pos,
                        !at_end ==> line_end(chars@, self.pos as int) == line_end(chars@, comment),
                        at_end ==> self.pos == line_end(chars@, comment),
                    decreases self.chars.len() - self.pos, !at_end as int,
                {
                    if self.chars[self.pos] == '\n' {
                        at_end = true;
                    }
                    self.pos = self.pos + 1;
                }
            } else {
                break;
            }
        }
    }

    /// Reads a string literal from its opening quote on, decoding `\\ \" \n \r \t`; an unknown
    /// `\c` stands for `c`.
    fn read_string(&mut self) -> (r: SexprResult<Sexpr>)
        requires
            old(self).pos < old(self).chars.len(),
        ensures
            final(self).chars == old(self).chars,
            match (string_body(old(self).chars@, old(self).pos + 1), r) {
                (Ok((s, next)), Ok(d)) => d@ == Datum::Str(s) && final(self).pos == next
                    && final(self).wf(),
                (Err(f), Err(e)) => e@ == f,
                _ => false,
            },
    {
        let ghost chars = self.chars;
        let ghost start = self.pos + 1;
        self.pos = self.pos + 1;
        let mut out = String::new();
        proof {
            if let Ok((s, next)) = string_body(chars@, start) {
                assert(out@ + s =~= s);
            }
        }
        loop
            invariant
                self.wf(),
                self.chars == chars,
                chars == old(self).chars,
                start == old(self).pos + 1,
                match (string_body(chars@, start), string_body(chars@, self.pos as int)) {
                    (Ok((all, next)), Ok((rest, end))) => all == out@ + rest && next == end,
                    (Err(f), Err(g)) => f == g,
                    _ => false,
                },
            decreases chars@.len() - self.pos,
        {
            let ghost before = out@;
            if self.pos >= self.chars.len() {
                return Err(parse_err("unterminated string literal"));
            }
            let c = self.chars[self.pos];
            if c == '"' {
                assert(before + Seq::<char>::empty() =~= before);
                self.pos = self.pos + 1;
                return Ok(Sexpr::Str(out));
            } else if c == '\\' {
                self.pos = self.pos + 1;
                if self.pos >= self.chars.len() {
                    return Err(parse_err("unterminated escape at end of string"));
                }
                let e = self.chars[self.pos];
                let u = if e == 'n' {
                    '\n'
                } else if e == 'r' {
                    '\r'
                } else if e == 't' {
                    '\t'
                } else {
                    e
                };
                out.push(u);
                self.pos = self.pos + 1;
                proof {
                    if let Ok((rest, end)) = string_body(chars@, self.pos as int) {
                        assert(before + (seq![u] + rest) =~= out@ + rest);
                    }
                }
            } else {
                out.push(c);
                self.pos = self.pos + 1;
                proof {
                    if let Ok((rest, end)) = string_body(chars@, self.pos as int) {
                        assert(before + (seq![c] + rest) =~= out@ + rest);
                    }
                }
            }
        }
    }

    /// Reads a bare token up to the next delimiter: an integer if it is a numeral, else a
    /// symbol.
    fn read_atom(&mut self) -> (d: Sexpr)
        requires
            old(self).wf(),
        ensures
            final(self).wf(),
            final(self).chars == old(self).chars,
            final(self).pos == token_end(old(self).chars@, old(self).pos as int),
            d@ == atom(old(self).chars@.subrange(old(self).pos as int, final(self).pos as int)),
    {
        let start = self.pos;
        let ghost chars = self.chars;
        let mut at_end = false;
        while self.pos < self.chars.len() && !at_end
            invariant
                self.wf(),
                start <= self.pos,
                self.chars == chars,
                token_end(chars@, self.pos as int) == token_end(chars@, start as int),
                at_end ==> token_end(chars@, self.pos as int) == self.pos,
            decreases self.chars.len() - self.pos, !at_end as int,
        {
            let c = self.chars[self.pos];
            if is_whitespace(c) || c == '(' || c == ')' || c == '"' || c == ';' {
                at_end = true;
            } else {
                self.pos = self.pos + 1;
            }
        }
        match read_numeral(&self.chars, start, self.pos) {
            Some(n) => Sexpr::Int(n),
            None => Sexpr::Symbol(string_of(&self.chars, start, self.pos)),
        }
    }

    /// Reads a list from its `(` on, with every list inside it. The open lists are kept on a
    /// stack of its own, so that a deep text cannot exhaust the call stack.
    fn read_list(&mut self) -> (r: SexprResult<Sexpr>)
        requires
            old(self).pos < old(self).chars.len(),
            old(self).chars@[old(self).pos as int] == '(',
        ensures
            final(self).chars == old(self).chars,
            match (form(old(self).chars@, old(self).pos as int, 0), r) {
                (Ok(Some((d, next))), Ok(x)) => x@ == d && final(self).pos == next
                    && final(self).wf(),
                (Err(f), Err(e)) => e@ == f,
                _ => false,
            },
    {
        let ghost chars = self.chars;
        let ghost start = self.pos as int;
        self.pos = self.pos + 1;
        let mut open: Vec<Vec<Sexpr>> = Vec::new();
        open.push(Vec::new());
        proof {
            lemma_data(open@[0]@);
            assert(data(open@[0]@) =~= Seq::<Datum>::empty());
            assert(open_data(open@) =~= seq![Seq::<Datum>::empty()]);
            if let Ok((ds, next)) = items(chars@, start + 1, 1) {
                assert(Seq::<Datum>::empty() + ds =~= ds);
            }
        }
        loop
            invariant
                self.wf(),
                self.chars == chars,
                chars == old(self).chars,
                start == old(self).pos,
                start < chars@.len(),
                chars@[start] == '(',
                1 <= open.len() <= MAX_READ_DEPTH,
                match (form(chars@, start, 0), close_all(
                    chars@,
                    open_data(open@),
                    self.pos as int,
                )) {
                    (Ok(Some((d, next))), Ok((c, end))) => d == c && next == end,
                    (Err(f), Err(g)) => f == g,
                    _ => false,
                },
            decreases chars@.len() - self.pos,
        {
            proof {
                lemma_skip_trivia(chars@, self.pos as int);
                lemma_close_all_trivia(chars@, open_data(open@), self.pos as int);
            }
            self.skip_trivia();
            let ghost pos = self.pos as int;
            let ghost lists = open_data(open@);
            if self.pos >= self.chars.len() {
                return Err(parse_err("unexpected end of input: missing `)`"));
            }
            let c = self.chars[self.pos];
            if c == ')' {
                proof {
                    lemma_close_all_close(chars@, lists, pos);
                }
                self.pos = self.pos + 1;
                let closed = open.pop();
                match closed {
                    Some(inner) => {
                        let list = Sexpr::List(inner);
                        if open.len() == 0 {
                            return Ok(list);
                        }
                        let ghost outer = open@;
                        let ghost item = list;
                        let last: usize = open.len() - 1;
                        open[last].push(list);
                        proof {
                            lemma_pushed(outer, open@, item);
                            assert(open_data(outer) =~= lists.drop_last());
                        }
                    },
                    None => {
                        return Err(parse_err("unexpected end of input: missing `)`"));
                    },
                }
            } else if c == '(' {
                if open.len() >= MAX_READ_DEPTH {
                    assert(form(chars@, pos, lists.len() as int) is Err);
                    return Err(parse_err("s-expression nests deeper than the read limit"));
                }
                proof {
                    lemma_close_all_open(chars@, lists, pos);
                }
                self.pos = self.pos + 1;
                open.push(Vec::new());
                proof {
                    lemma_data(open@.last()@);
                    assert(data(open@.last()@) =~= Seq::<Datum>::empty());
                    assert(open_data(open@) =~= lists.push(Seq::<Datum>::empty()));
                }
            } else {
                proof {
                    lemma_form(chars@, pos, lists.len() as int);
                }
                let item = if c == '"' {
                    match self.read_string() {
                        Ok(d) => d,
                        Err(e) => {
                            return Err(e);
                        },
                    }
                } else {
                    self.read_atom()
                };
                let ghost read = item;
                let ghost outer = open@;
                let last: usize = open.len() - 1;
                open[last].push(item);
                proof {
                    lemma_pushed(outer, open@, read);
                    lemma_close_all_item(chars@, lists, pos, read@, self.pos as int);
                }
            }
        }
    }

    /// Reads one form, with trivia already skipped: `None` at the end of the text.
    fn read_form(&mut self) -> (r: SexprResult<Option<Sexpr>>)
        requires
            old(self).wf(),
        ensures
            final(self).chars == old(self).chars,
            match (form(old(self).chars@, old(self).pos as int, 0), r) {
                (Ok(None), Ok(None)) => *final(self) == *old(self),
                (Ok(Some((d, next))), Ok(Some(x))) => x@ == d && final(self).pos == next
                    && final(self).wf(),
                (Err(f), Err(e)) => e@ == f,
                _ => false,
            },
    {
        match self.peek() {
            None => Ok(None),
            Some(c) => if c == '(' {
                match self.read_list() {
                    Ok(d) => Ok(Some(d)),
                    Err(e) => Err(e),
                }
            } else if c == ')' {
                Err(parse_err("unexpected `)` — unbalanced parens"))
            } else if c == '"' {
                match self.read_string() {
                    Ok(d) => Ok(Some(d)),
                    Err(e) => Err(e),
                }
            } else {
                Ok(Some(self.read_atom()))
            },
        }
    }
}

/// One more value in the innermost of the open lists.
proof fn lemma_pushed(before: Seq<Vec<Sexpr>>, after: Seq<Vec<Sexpr>>, x: Sexpr)
    requires
        before.len() > 0,
        after.len() == before.len(),
        forall|i: int| 0 <= i < before.len() - 1 ==> after[i] == before[i],
        after.last()@ == before.last()@.push(x),
    ensures
        open_data(after) == add_item(open_data(before), x@),
{
    lemma_data(before.last()@);
    lemma_data(after.last()@);
    let b = before.last()@;
    let a = after.last()@;
    assert forall|i: int| 0 <= i < b.len() implies data(a)[i] == data(b)[i] by {
        assert(a[i] == b[i]);
        assert(data(a)[i] == a[i]@);
        assert(data(b)[i] == b[i]@);
    }
    assert(data(a)[b.len() as int] == x@);
    assert(data(a) =~= data(b).push(x@));
    assert(open_data(after) =~= add_item(open_data(before), x@));
}

/// Reads exactly one s-expression from a text. White space and `;` line comments are skipped.
/// Fails on an empty text, unbalanced parens, an unterminated string, lists nested deeper
/// than [`MAX_READ_DEPTH`], or anything behind the first form (see [`parse_all`]).
pub fn parse(src: &str) -> (r: SexprResult<Sexpr>)
    ensures
        datum_result(r) == document(src@),
{
    let mut reader = Reader::new(src);
    proof {
        lemma_skip_trivia(src@, 0);
    }
    reader.skip_trivia();
    proof {
        if reader.pos < src@.len() {
            lemma_form(src@, reader.pos as int, 0);
        }
    }
    match reader.read_form() {
        Err(e) => Err(e),
        Ok(None) => Err(parse_err("empty input: expected an s-expression")),
        Ok(Some(form)) => {
            reader.skip_trivia();
            match reader.peek() {
                Some(_) => Err(parse_err("unexpected trailing tokens after the first form")),
                None => Ok(form),
            }
        },
    }
}

/// Reads every s-expression in a text, zero or more of them.
pub fn parse_all(src: &str) -> (r: SexprResult<Vec<Sexpr>>)
    ensures
        data_result(r) == documents(src@, 0),
{
    let mut reader = Reader::new(src);
    let mut forms: Vec<Sexpr> = Vec::new();
    proof {
        lemma_data(forms@);
        if let Ok(ds) = documents(src@, 0) {
            assert(data(forms@) + ds =~= ds);
        }
    }
    loop
        invariant
            reader.wf(),
            reader.chars@ == src@,
            match (documents(src@, 0), documents(src@, reader.pos as int)) {
                (Ok(all), Ok(rest)) => all == data(forms@) + rest,
                (Err(f), Err(g)) => f == g,
                _ => false,
            },
        decreases src@.len() - reader.pos,
    {
        let ghost pos = reader.pos as int;
        proof {
            lemma_skip_trivia(src@, pos);
        }
        reader.skip_trivia();
        proof {
            if reader.pos < src@.len() {
                lemma_form(src@, reader.pos as int, 0);
            }
        }
        let ghost before = forms@;
        match reader.read_form() {
            Err(e) => {
                return Err(e);
            },
            Ok(None) => {
                assert(data(before) + Seq::<Datum>::empty() =~= data(before));
                return Ok(forms);
            },
            Ok(Some(form)) => {
                let ghost d = form@;
                forms.push(form);
                proof {
                    lemma_data(before);
                    lemma_data(forms@);
                    assert(data(forms@) =~= data(before).push(d));
                    if let Ok(rest) = documents(src@, reader.pos as int) {
                        assert(data(before) + (seq![d] + rest) =~= data(forms@) + rest);
                    }
                }
            },
        }
    }
}

} // verus!
