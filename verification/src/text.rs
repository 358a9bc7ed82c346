//! Characters and strings: classes, comparison, decimal numerals, and quoted literals.

use vstd::prelude::*;
use vstd::string::*;
use vstd::utf8::*;

verus! {

/// `String::push` appends the given character to the end of the string.
pub assume_specification[ String::push ](s: &mut String, c: char)
    ensures
        final(s)@ == old(s)@.push(c),
;

// ---------------------------------------------------------------------------------------
// Strings and runs of characters
// ---------------------------------------------------------------------------------------

/// The characters of a string, in order.
pub(crate) fn chars_of(s: &str) -> (chars: Vec<char>)
    ensures
        chars@ == s@,
{
    let mut chars: Vec<char> = Vec::new();
    for c in it: s.chars()
        invariant
            it.seq() == s@,
            chars@ == s@.take(it.index()),
    {
        chars.push(c);
        assert(s@.take(it.index() + 1) == s@.take(it.index()).push(c));
    }
    assert(chars@ == s@);
    chars
}

/// The string made of a stretch of a run of characters.
pub(crate) fn string_of(chars: &Vec<char>, from: usize, to: usize) -> (s: String)
    requires
        from <= to <= chars.len(),
    ensures
        s@ == chars@.subrange(from as int, to as int),
{
    let mut s = String::new();
    let mut i = from;
    while i < to
        invariant
            from <= i <= to <= chars.len(),
            s@ == chars@.subrange(from as int, i as int),
        decreases to - i,
    {
        s.push(chars[i]);
        assert(chars@.subrange(from as int, i + 1) == chars@.subrange(from as int, i as int).push(
            chars@[i as int],
        ));
        i = i + 1;
    }
    s
}

/// A string made of two pieces.
pub(crate) fn join2(a: &str, b: &str) -> (s: String)
    ensures
        s@ == a@ + b@,
{
    String::from_str(a).concat(b)
}

/// A string made of three pieces.
pub(crate) fn join3(a: &str, b: &str, c: &str) -> (s: String)
    ensures
        s@ == a@ + b@ + c@,
{
    String::from_str(a).concat(b).concat(c)
}

/// A string made of five pieces.
pub(crate) fn join5(a: &str, b: &str, c: &str, d: &str, e: &str) -> (s: String)
    ensures
        s@ == a@ + b@ + c@ + d@ + e@,
{
    String::from_str(a).concat(b).concat(c).concat(d).concat(e)
}

/// Two texts with the same UTF-8 bytes are the same text.
pub proof fn lemma_utf8_is_injective(a: Seq<char>, b: Seq<char>)
    requires
        encode_utf8(a) == encode_utf8(b),
    ensures
        a == b,
{
    encode_utf8_decode_utf8(a);
    encode_utf8_decode_utf8(b);
}

/// Whether two strings hold the same text.
pub(crate) fn same_text(a: &str, b: &str) -> (same: bool)
    ensures
        same == (a@ == b@),
{
    let x = a.as_bytes();
    let y = b.as_bytes();
    if x.len() != y.len() {
        return false;
    }
    let mut i: usize = 0;
    while i < x.len()
        invariant
            i <= x.len(),
            x.len() == y.len(),
            x@ == encode_utf8(a@),
            y@ == encode_utf8(b@),
            forall|j: int| 0 <= j < i ==> x@[j] == y@[j],
        decreases x.len() - i,
    {
        if x[i] != y[i] {
            return false;
        }
        i = i + 1;
    }
    proof {
        assert(x@ =~= y@);
        lemma_utf8_is_injective(a@, b@);
    }
    true
}

// ---------------------------------------------------------------------------------------
// Character classes
// ---------------------------------------------------------------------------------------

/// The characters with Unicode's `White_Space` property.
pub open spec fn white_space(c: char) -> bool {
    let u = c as u32;
    ||| 0x09 <= u <= 0x0d
    ||| u == 0x20
    ||| u == 0x85
    ||| u == 0xa0
    ||| u == 0x1680
    ||| 0x2000 <= u <= 0x200a
    ||| u == 0x2028
    ||| u == 0x2029
    ||| u == 0x202f
    ||| u == 0x205f
    ||| u == 0x3000
}

/// The control characters: Unicode's general category `Cc`.
pub open spec fn control(c: char) -> bool {
    let u = c as u32;
    ||| u <= 0x1f
    ||| 0x7f <= u <= 0x9f
}

pub open spec fn ascii_digit(c: char) -> bool {
    '0' <= c && c <= '9'
}

pub open spec fn ascii_letter(c: char) -> bool {
    ||| 'a' <= c && c <= 'z'
    ||| 'A' <= c && c <= 'Z'
}

pub open spec fn ascii_alphanumeric(c: char) -> bool {
    ascii_letter(c) || ascii_digit(c)
}

/// Whether a character has Unicode's `White_Space` property.
pub fn is_whitespace(c: char) -> (yes: bool)
    ensures
        yes == white_space(c),
{
    let u = c as u32;
    (0x09 <= u && u <= 0x0d) || u == 0x20 || u == 0x85 || u == 0xa0 || u == 0x1680 || (0x2000 <= u
        && u <= 0x200a) || u == 0x2028 || u == 0x2029 || u == 0x202f || u == 0x205f || u == 0x3000
}

/// Whether a character is a control character.
pub fn is_control(c: char) -> (yes: bool)
    ensures
        yes == control(c),
{
    let u = c as u32;
    u <= 0x1f || (0x7f <= u && u <= 0x9f)
}

pub(crate) fn is_digit(c: char) -> (yes: bool)
    ensures
        yes == ascii_digit(c),
{
    '0' <= c && c <= '9'
}

pub(crate) fn is_letter(c: char) -> (yes: bool)
    ensures
        yes == ascii_letter(c),
{
    ('a' <= c && c <= 'z') || ('A' <= c && c <= 'Z')
}

pub(crate) fn is_alphanumeric(c: char) -> (yes: bool)
    ensures
        yes == ascii_alphanumeric(c),
{
    is_letter(c) || is_digit(c)
}

// ---------------------------------------------------------------------------------------
// Decimal numerals
// ---------------------------------------------------------------------------------------

/// The character of a decimal digit.
pub open spec fn digit_char(d: int) -> char
    recommends
        0 <= d < 10,
{
    ('0' as int + d) as char
}

/// The number that a decimal digit stands for.
pub open spec fn digit_value(c: char) -> int {
    c as int - '0' as int
}

/// The decimal digits of a natural number, without leading zeros.
pub open spec fn digits(n: nat) -> Seq<char>
    decreases n,
{
    if n < 10 {
        seq![digit_char(n as int)]
    } else {
        digits(n / 10).push(digit_char((n % 10) as int))
    }
}

/// The decimal numeral of an integer.
pub open spec fn decimal(n: int) -> Seq<char> {
    if n < 0 {
        seq!['-'] + digits((-n) as nat)
    } else {
        digits(n as nat)
    }
}

/// The number that a run of decimal digits stands for.
pub open spec fn digits_value(ds: Seq<char>) -> nat
    decreases ds.len(),
{
    if ds.len() == 0 {
        0
    } else {
        (digits_value(ds.drop_last()) * 10 + digit_value(ds.last())) as nat
    }
}

/// A non-empty run of decimal digits.
pub open spec fn all_digits(ds: Seq<char>) -> bool {
    &&& ds.len() > 0
    &&& forall|i: int| 0 <= i < ds.len() ==> ascii_digit(#[trigger] ds[i])
}

/// The number that a numeral stands for: an optional sign, then decimal digits, in the range
/// of a 64-bit signed integer.
pub open spec fn numeral(t: Seq<char>) -> Option<i64> {
    let negative = t.len() > 0 && t[0] == '-';
    let signed = t.len() > 0 && (t[0] == '-' || t[0] == '+');
    let ds = if signed {
        t.skip(1)
    } else {
        t
    };
    let value = if negative {
        -(digits_value(ds) as int)
    } else {
        digits_value(ds) as int
    };
    if all_digits(ds) && i64::MIN <= value <= i64::MAX {
        Some(value as i64)
    } else {
        None
    }
}

/// More digits make no smaller number.
proof fn lemma_digits_value_grows(ds: Seq<char>, k: int)
    requires
        all_digits(ds),
        0 <= k <= ds.len(),
    ensures
        digits_value(ds.take(k)) <= digits_value(ds),
    decreases ds.len() - k,
{
    if k == ds.len() {
        assert(ds.take(k) == ds);
    } else {
        lemma_digits_value_grows(ds, k + 1);
        assert(ds.take(k + 1).drop_last() == ds.take(k));
        assert(ascii_digit(ds[k]));
    }
}

/// Reads a numeral: the number it stands for, or `None` if it is not the numeral of a 64-bit
/// signed integer.
pub(crate) fn read_numeral(t: &Vec<char>, from: usize, to: usize) -> (n: Option<i64>)
    requires
        from <= to <= t.len(),
    ensures
        n == numeral(t@.subrange(from as int, to as int)),
{
    let ghost token = t@.subrange(from as int, to as int);
    if from == to {
        return None;
    }
    let negative = t[from] == '-';
    let start: usize = if negative || t[from] == '+' {
        from + 1
    } else {
        from
    };
    let ghost ds = t@.subrange(start as int, to as int);
    proof {
        if start == from + 1 {
            assert(token.skip(1) =~= ds);
        } else {
            assert(token =~= ds);
        }
    }
    if start == to {
        return None;
    }
    let limit: u64 = 0x8000_0000_0000_0000;
    let mut value: u64 = 0;
    let mut i: usize = start;
    while i < to
        invariant
            from <= start <= i <= to <= t.len(),
            ds == t@.subrange(start as int, to as int),
            start < to,
            limit == 0x8000_0000_0000_0000u64,
            value <= limit,
            value == digits_value(ds.take(i - start)),
            forall|j: int| 0 <= j < i - start ==> ascii_digit(#[trigger] ds[j]),
            token == t@.subrange(from as int, to as int),
            ds == (if token[0] == '-' || token[0] == '+' {
                token.skip(1)
            } else {
                token
            }),
            token.len() > 0,
        decreases to - i,
    {
        let c = t[i];
        assert(c == ds[i - start]);
        if !is_digit(c) {
            return None;
        }
        let d: u64 = (c as u32 - '0' as u32) as u64;
        assert(ds.take(i - start + 1).drop_last() == ds.take(i - start));
        let next: u128 = value as u128 * 10 + d as u128;
        assert(next == digits_value(ds.take(i - start + 1)));
        if next > limit as u128 {
            proof {
                if all_digits(ds) {
                    lemma_digits_value_grows(ds, i - start + 1);
                }
            }
            return None;
        }
        value = next as u64;
        i = i + 1;
    }
    assert(ds.take(to - start) == ds);
    if negative {
        if value == limit {
            Some(i64::MIN)
        } else {
            Some(-(value as i64))
        }
    } else if value == limit {
        None
    } else {
        Some(value as i64)
    }
}

/// Prints the decimal numeral of a 64-bit signed integer.
pub(crate) fn print_decimal(n: i64) -> (s: String)
    ensures
        s@ == decimal(n as int),
{
    let mut rest: u64 = if n < 0 {
        (-(n as i128)) as u64
    } else {
        n as u64
    };
    let ghost magnitude: nat = rest as nat;
    let mut reversed: Vec<char> = Vec::new();
    while rest >= 10
        invariant
            digits(magnitude) == digits(rest as nat) + reversed@.reverse(),
        decreases rest,
    {
        let d: u64 = rest % 10;
        let c = ('0' as u8 + d as u8) as char;
        let ghost before = reversed@;
        reversed.push(c);
        proof {
            assert(c == digit_char(d as int));
            assert(digits(rest as nat) == digits((rest / 10) as nat).push(c));
            assert(digits(rest as nat) + before.reverse() =~= digits((rest / 10) as nat)
                + reversed@.reverse());
        }
        rest = rest / 10;
    }
    let mut s = String::new();
    if n < 0 {
        s.push('-');
    }
    let ghost sign = s@;
    let c = ('0' as u8 + rest as u8) as char;
    s.push(c);
    assert(digits(rest as nat) == seq![c]);
    let mut k: usize = reversed.len();
    assert(s@ =~= sign + seq![c] + reversed@.reverse().take(0));
    while k > 0
        invariant
            k <= reversed.len(),
            s@ == sign + seq![c] + reversed@.reverse().take(reversed.len() - k),
        decreases k,
    {
        k = k - 1;
        s.push(reversed[k]);
        proof {
            let done = reversed.len() - k;
            assert(reversed@.reverse()[done - 1] == reversed@[k as int]);
            assert(reversed@.reverse().take(done) =~= reversed@.reverse().take(done - 1).push(
                reversed@[k as int],
            ));
            assert(s@ =~= sign + seq![c] + reversed@.reverse().take(done));
        }
    }
    proof {
        assert(reversed@.reverse().take(reversed@.len() as int) =~= reversed@.reverse());
        assert(s@ =~= sign + digits(magnitude));
        if n >= 0 {
            assert(s@ =~= digits(magnitude));
        } else {
            assert(sign =~= seq!['-']);
        }
    }
    s
}

/// The decimal digits of a number stand for that number.
proof fn lemma_digits_stand_for_their_number(n: nat)
    ensures
        all_digits(digits(n)),
        digits_value(digits(n)) == n,
    decreases n,
{
    if n < 10 {
        let ds = digits(n);
        assert(ds.drop_last() =~= Seq::<char>::empty());
        assert(digits_value(ds.drop_last()) == 0);
    } else {
        lemma_digits_stand_for_their_number(n / 10);
        let ds = digits(n);
        assert(ds.drop_last() =~= digits(n / 10));
    }
}

/// Reading back the decimal numeral of an integer gives that integer.
pub proof fn decimal_reads_back(n: i64)
    ensures
        numeral(decimal(n as int)) == Some(n),
{
    let t = decimal(n as int);
    if n < 0 {
        lemma_digits_stand_for_their_number((-(n as int)) as nat);
        assert(t.skip(1) =~= digits((-(n as int)) as nat));
    } else {
        lemma_digits_stand_for_their_number(n as nat);
        assert(ascii_digit(t[0]));
    }
}

// ---------------------------------------------------------------------------------------
// Quoted literals
// ---------------------------------------------------------------------------------------

/// How a character is written inside a quoted literal.
pub open spec fn escaped_char(c: char) -> Seq<char> {
    if c == '\\' {
        seq!['\\', '\\']
    } else if c == '"' {
        seq!['\\', '"']
    } else if c == '\n' {
        seq!['\\', 'n']
    } else if c == '\r' {
        seq!['\\', 'r']
    } else if c == '\t' {
        seq!['\\', 't']
    } else {
        seq![c]
    }
}

/// How a text is written inside a quoted literal: character by character.
pub open spec fn escaped(s: Seq<char>) -> Seq<char>
    decreases s.len(),
{
    if s.len() == 0 {
        Seq::empty()
    } else {
        escaped(s.drop_last()) + escaped_char(s.last())
    }
}

/// A text as a quoted literal.
pub open spec fn quoted(s: Seq<char>) -> Seq<char> {
    seq!['"'] + escaped(s) + seq!['"']
}

/// Renders a text as a quoted literal, escaping the reserved characters so that the literal
/// can neither end early nor inject syntax. Serves SPARQL, Turtle and the printer.
pub fn render_string_literal(s: &str) -> (out: String)
    ensures
        out@ == quoted(s@),
{
    let mut out = String::new();
    out.push('"');
    for c in it: s.chars()
        invariant
            it.seq() == s@,
            out@ == seq!['"'] + escaped(s@.take(it.index())),
    {
        let ghost before = out@;
        if c == '\\' {
            out.push('\\');
            out.push('\\');
        } else if c == '"' {
            out.push('\\');
            out.push('"');
        } else if c == '\n' {
            out.push('\\');
            out.push('n');
        } else if c == '\r' {
            out.push('\\');
            out.push('r');
        } else if c == '\t' {
            out.push('\\');
            out.push('t');
        } else {
            out.push(c);
        }
        proof {
            let k = it.index();
            assert(s@.take(k + 1).drop_last() =~= s@.take(k));
            assert(out@ =~= before + escaped_char(c));
            assert(out@ =~= seq!['"'] + escaped(s@.take(k + 1)));
        }
    }
    assert(s@.take(s@.len() as int) =~= s@);
    out.push('"');
    assert(out@ =~= quoted(s@));
    out
}

/// The escaped form of a text, from its first character on.
pub proof fn lemma_escaped_first(s: Seq<char>)
    requires
        s.len() > 0,
    ensures
        escaped(s) == escaped_char(s[0]) + escaped(s.drop_first()),
    decreases s.len(),
{
    if s.len() == 1 {
        assert(s.drop_last() =~= Seq::<char>::empty());
        assert(s.drop_first() =~= Seq::<char>::empty());
        assert(escaped(s) =~= escaped_char(s[0]) + escaped(s.drop_first()));
    } else {
        lemma_escaped_first(s.drop_last());
        assert(s.drop_last().drop_first() =~= s.drop_first().drop_last());
        assert(escaped(s) =~= escaped_char(s[0]) + escaped(s.drop_first()));
    }
}

} // verus!
