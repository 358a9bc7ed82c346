//! Laws of texts as they are written: a quoted literal is its characters, each by itself, and
//! texts stand in the order of their bytes.

use vstd::prelude::*;
use vstd::utf8::*;

use crate::order::{bytes_leq, text_leq};
use crate::text::{escaped, quoted};

verus! {

/// A character in a quoted literal stands for itself, but for five that are written with a
/// backslash: the quote, the backslash, the line feed, the carriage return and the tab.
pub proof fn each_character_is_quoted_by_itself(c: char)
    ensures
        quoted(seq![c]) == (if c == '"' {
            seq!['"', '\\', '"', '"']
        } else if c == '\\' {
            seq!['"', '\\', '\\', '"']
        } else if c == '\n' {
            seq!['"', '\\', 'n', '"']
        } else if c == '\r' {
            seq!['"', '\\', 'r', '"']
        } else if c == '\t' {
            seq!['"', '\\', 't', '"']
        } else {
            seq!['"', c, '"']
        }),
{
    let s = seq![c];
    assert(s.drop_last() =~= Seq::<char>::empty());
    assert(escaped(s.drop_last()) =~= Seq::<char>::empty());
    assert(s.last() == c);
    assert(quoted(s) =~= (if c == '"' {
        seq!['"', '\\', '"', '"']
    } else if c == '\\' {
        seq!['"', '\\', '\\', '"']
    } else if c == '\n' {
        seq!['"', '\\', 'n', '"']
    } else if c == '\r' {
        seq!['"', '\\', 'r', '"']
    } else if c == '\t' {
        seq!['"', '\\', 't', '"']
    } else {
        seq!['"', c, '"']
    }));
}

/// The quoted literal of two texts in a row is that of the first without its last quote, and
/// that of the second without its first. The empty literal is two quotes.
pub proof fn literals_are_joined_inside_their_quotes(s: Seq<char>, t: Seq<char>)
    ensures
        quoted(Seq::empty()) == seq!['"', '"'],
        quoted(s + t) == quoted(s).drop_last() + quoted(t).skip(1),
{
    assert(quoted(Seq::empty()) =~= seq!['"', '"']);
    lemma_escaped_joined(s, t);
    assert(quoted(s + t) =~= quoted(s).drop_last() + quoted(t).skip(1));
}

/// A text without any of the five characters that are written with a backslash stands between its
/// quotes as it is.
pub proof fn a_plain_text_is_quoted_as_it_is(s: Seq<char>)
    requires
        forall|i: int|
            0 <= i < s.len() ==> #[trigger] s[i] != '"' && s[i] != '\\' && s[i] != '\n' && s[i]
                != '\r' && s[i] != '\t',
    ensures
        quoted(s) == seq!['"'] + s + seq!['"'],
    decreases s.len(),
{
    if s.len() == 0 {
        literals_are_joined_inside_their_quotes(s, s);
        assert(s =~= Seq::<char>::empty());
        assert(seq!['"'] + s + seq!['"'] =~= seq!['"', '"']);
    } else {
        let before = s.drop_last();
        let c = s.last();
        a_plain_text_is_quoted_as_it_is(before);
        each_character_is_quoted_by_itself(c);
        literals_are_joined_inside_their_quotes(before, seq![c]);
        assert(s =~= before + seq![c]);
        assert(s[s.len() - 1] == c);
        assert(quoted(s) =~= seq!['"'] + s + seq!['"']);
    }
}

proof fn lemma_escaped_joined(s: Seq<char>, t: Seq<char>)
    ensures
        escaped(s + t) == escaped(s) + escaped(t),
    decreases t.len(),
{
    if t.len() == 0 {
        assert(s + t =~= s);
        assert(escaped(s) + escaped(t) =~= escaped(s));
    } else {
        assert((s + t).drop_last() =~= s + t.drop_last());
        lemma_escaped_joined(s, t.drop_last());
        assert(escaped(s + t) =~= escaped(s) + escaped(t));
    }
}

/// Whether a run of bytes is the start of another, or has the lower byte at the first place
/// where the two differ.
pub open spec fn comes_first(a: Seq<u8>, b: Seq<u8>, k: int) -> bool {
    &&& 0 <= k <= a.len()
    &&& k <= b.len()
    &&& a.take(k) == b.take(k)
    &&& k == a.len() || (k < b.len() && a[k] < b[k])
}

/// Texts stand in the order of their UTF-8 bytes: a text comes no later than another if it is
/// the start of it, or has the lower byte at the first place where the two differ.
pub proof fn texts_stand_in_the_order_of_their_bytes(a: Seq<char>, b: Seq<char>)
    ensures
        text_leq(a, b) <==> exists|k: int| #[trigger]
            comes_first(encode_utf8(a), encode_utf8(b), k),
{
    lemma_bytes(encode_utf8(a), encode_utf8(b));
}

proof fn lemma_bytes(a: Seq<u8>, b: Seq<u8>)
    ensures
        bytes_leq(a, b) <==> exists|k: int| #[trigger] comes_first(a, b, k),
    decreases a.len(),
{
    if a.len() == 0 {
        assert(a.take(0) =~= b.take(0));
        assert(comes_first(a, b, 0));
    } else if b.len() == 0 {
        assert forall|k: int| !#[trigger] comes_first(a, b, k) by {}
    } else if a[0] != b[0] {
        if a[0] < b[0] {
            assert(a.take(0) =~= b.take(0));
            assert(comes_first(a, b, 0));
        } else {
            assert forall|k: int| !#[trigger] comes_first(a, b, k) by {
                if 0 < k <= a.len() && k <= b.len() {
                    assert(a.take(k)[0] == a[0] && b.take(k)[0] == b[0]);
                }
            }
        }
    } else {
        let (x, y) = (a.drop_first(), b.drop_first());
        lemma_bytes(x, y);
        if bytes_leq(a, b) {
            let k = choose|k: int| #[trigger] comes_first(x, y, k);
            assert(a.take(k + 1) =~= seq![a[0]] + x.take(k));
            assert(b.take(k + 1) =~= seq![b[0]] + y.take(k));
            assert(comes_first(a, b, k + 1));
        }
        if exists|k: int| #[trigger] comes_first(a, b, k) {
            let k = choose|k: int| #[trigger] comes_first(a, b, k);
            assert(k > 0);
            assert(x.take(k - 1) =~= a.take(k).drop_first());
            assert(y.take(k - 1) =~= b.take(k).drop_first());
            assert(comes_first(x, y, k - 1));
        }
    }
}

} // verus!
