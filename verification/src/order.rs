//! Sorting rows of texts by their UTF-8 bytes.

use vstd::prelude::*;
use vstd::relations::*;
use vstd::seq_lib::*;
use vstd::string::*;
use vstd::utf8::*;

use crate::lines::{lemma_texts_push, texts};
use crate::text::lemma_utf8_is_injective;

verus! {

/// The lexicographic order of runs of bytes.
pub open spec fn bytes_leq(a: Seq<u8>, b: Seq<u8>) -> bool
    decreases a.len(),
{
    if a.len() == 0 {
        true
    } else if b.len() == 0 {
        false
    } else if a[0] != b[0] {
        a[0] < b[0]
    } else {
        bytes_leq(a.drop_first(), b.drop_first())
    }
}

/// The order of texts: that of their UTF-8 bytes.
pub open spec fn text_leq(a: Seq<char>, b: Seq<char>) -> bool {
    bytes_leq(encode_utf8(a), encode_utf8(b))
}

/// The order of texts as a relation.
pub open spec fn text_order() -> spec_fn(Seq<char>, Seq<char>) -> bool {
    |a: Seq<char>, b: Seq<char>| text_leq(a, b)
}

/// A row of texts in ascending order.
pub open spec fn sorted(row: Seq<Seq<char>>) -> Seq<Seq<char>> {
    row.sort_by(text_order())
}

proof fn lemma_bytes_reflexive(a: Seq<u8>)
    ensures
        bytes_leq(a, a),
    decreases a.len(),
{
    if a.len() > 0 {
        lemma_bytes_reflexive(a.drop_first());
    }
}

proof fn lemma_bytes_antisymmetric(a: Seq<u8>, b: Seq<u8>)
    requires
        bytes_leq(a, b),
        bytes_leq(b, a),
    ensures
        a == b,
    decreases a.len(),
{
    if a.len() > 0 && b.len() > 0 {
        lemma_bytes_antisymmetric(a.drop_first(), b.drop_first());
        assert(a =~= seq![a[0]] + a.drop_first());
        assert(b =~= seq![b[0]] + b.drop_first());
    } else {
        assert(a =~= b);
    }
}

proof fn lemma_bytes_transitive(a: Seq<u8>, b: Seq<u8>, c: Seq<u8>)
    requires
        bytes_leq(a, b),
        bytes_leq(b, c),
    ensures
        bytes_leq(a, c),
    decreases a.len(),
{
    if a.len() > 0 && b.len() > 0 && c.len() > 0 && a[0] == b[0] && b[0] == c[0] {
        lemma_bytes_transitive(a.drop_first(), b.drop_first(), c.drop_first());
    }
}

proof fn lemma_bytes_connected(a: Seq<u8>, b: Seq<u8>)
    ensures
        bytes_leq(a, b) || bytes_leq(b, a),
    decreases a.len(),
{
    if a.len() > 0 && b.len() > 0 && a[0] == b[0] {
        lemma_bytes_connected(a.drop_first(), b.drop_first());
    }
}

/// The order of texts is total.
pub proof fn text_order_is_total()
    ensures
        total_ordering(text_order()),
{
    let leq = text_order();
    assert forall|x: Seq<char>| #[trigger] leq(x, x) by {
        lemma_bytes_reflexive(encode_utf8(x));
    }
    assert forall|x: Seq<char>, y: Seq<char>| #[trigger] leq(x, y) && #[trigger] leq(y, x) implies x
        == y by {
        lemma_bytes_antisymmetric(encode_utf8(x), encode_utf8(y));
        lemma_utf8_is_injective(x, y);
    }
    assert forall|x: Seq<char>, y: Seq<char>, z: Seq<char>| #[trigger]
        leq(x, y) && #[trigger] leq(y, z) implies leq(x, z) by {
        lemma_bytes_transitive(encode_utf8(x), encode_utf8(y), encode_utf8(z));
    }
    assert forall|x: Seq<char>, y: Seq<char>| #[trigger] leq(x, y) || #[trigger] leq(y, x) by {
        lemma_bytes_connected(encode_utf8(x), encode_utf8(y));
    }
}

/// A sorted row holds the same texts, in ascending order.
pub proof fn sorted_rows_ascend(row: Seq<Seq<char>>)
    ensures
        sorted(row).to_multiset() == row.to_multiset(),
        forall|i: int, j: int|
            0 <= i < j < sorted(row).len() ==> #[trigger] text_leq(sorted(row)[i], sorted(row)[j]),
{
    let leq = text_order();
    text_order_is_total();
    row.lemma_sort_by_ensures(leq);
    assert forall|i: int, j: int| 0 <= i < j < sorted(row).len() implies #[trigger] text_leq(
        sorted(row)[i],
        sorted(row)[j],
    ) by {
        assert(leq(sorted(row)[i], sorted(row)[j]));
    }
}

/// Whether one text stands no later than another.
fn no_later(a: &str, b: &str) -> (yes: bool)
    ensures
        yes == text_leq(a@, b@),
{
    let x = a.as_bytes();
    let y = b.as_bytes();
    let mut i: usize = 0;
    assert(x@.skip(0) =~= x@);
    assert(y@.skip(0) =~= y@);
    while i < x.len() && i < y.len()
        invariant
            i <= x.len(),
            i <= y.len(),
            x@ == encode_utf8(a@),
            y@ == encode_utf8(b@),
            bytes_leq(x@, y@) == bytes_leq(x@.skip(i as int), y@.skip(i as int)),
        decreases x.len() - i,
    {
        proof {
            assert(x@.skip(i as int)[0] == x@[i as int]);
            assert(y@.skip(i as int)[0] == y@[i as int]);
            assert(x@.skip(i as int).drop_first() =~= x@.skip(i + 1));
            assert(y@.skip(i as int).drop_first() =~= y@.skip(i + 1));
        }
        if x[i] != y[i] {
            return x[i] < y[i];
        }
        i = i + 1;
    }
    i == x.len()
}

/// The order of texts in one direction or the other.
spec fn directed(up: bool) -> spec_fn(Seq<char>, Seq<char>) -> bool {
    |a: Seq<char>, b: Seq<char>|
        if up {
            text_leq(a, b)
        } else {
            text_leq(b, a)
        }
}

proof fn lemma_directed(up: bool, down: bool)
    requires
        down == !up,
    ensures
        forall|x: Seq<char>, y: Seq<char>, z: Seq<char>| #[trigger]
            directed(up)(x, y) && #[trigger] directed(up)(y, z) ==> directed(up)(x, z),
        forall|x: Seq<char>, y: Seq<char>| #[trigger]
            directed(up)(x, y) || #[trigger] directed(up)(y, x),
        forall|x: Seq<char>, y: Seq<char>| #[trigger]
            directed(down)(x, y) == directed(up)(y, x),
{
    text_order_is_total();
    let leq = text_order();
    assert forall|x: Seq<char>, y: Seq<char>, z: Seq<char>| #[trigger]
        directed(up)(x, y) && #[trigger] directed(up)(y, z) implies directed(up)(x, z) by {
        if up {
            assert(leq(x, y) && leq(y, z));
            assert(leq(x, z));
        } else {
            assert(leq(z, y) && leq(y, x));
            assert(leq(z, x));
        }
    }
    assert forall|x: Seq<char>, y: Seq<char>| #[trigger]
        directed(up)(x, y) || #[trigger] directed(up)(y, x) by {
        assert(leq(x, y) || leq(y, x));
    }
}

/// A row that ends with `x`, and the row before it.
proof fn lemma_multiset_of_last(row: Seq<Seq<char>>)
    requires
        row.len() > 0,
    ensures
        row.to_multiset() == row.drop_last().to_multiset().insert(row.last()),
{
    broadcast use group_to_multiset_ensures;

    assert(row =~= row.drop_last().push(row.last()));
}

/// Merges two rows that are sorted in the other direction, taking them from their ends.
fn merge(a: Vec<String>, b: Vec<String>, up: bool) -> (out: Vec<String>)
    requires
        sorted_by(texts(a@), directed(!up)),
        sorted_by(texts(b@), directed(!up)),
    ensures
        sorted_by(texts(out@), directed(up)),
        texts(out@).to_multiset() == texts(a@).to_multiset().add(texts(b@).to_multiset()),
{
    let ghost whole = texts(a@).to_multiset().add(texts(b@).to_multiset());
    let mut a = a;
    let mut b = b;
    let mut out: Vec<String> = Vec::new();
    proof {
        broadcast use group_to_multiset_ensures;

        assert(texts(out@) =~= Seq::<Seq<char>>::empty());
        assert(texts(out@).to_multiset().add(texts(a@).to_multiset()).add(texts(b@).to_multiset())
            =~= whole);
    }
    while a.len() > 0 || b.len() > 0
        invariant
            sorted_by(texts(a@), directed(!up)),
            sorted_by(texts(b@), directed(!up)),
            sorted_by(texts(out@), directed(up)),
            forall|i: int, j: int|
                0 <= i < out@.len() && 0 <= j < a@.len() ==> #[trigger] directed(up)(
                    texts(out@)[i],
                    texts(a@)[j],
                ),
            forall|i: int, j: int|
                0 <= i < out@.len() && 0 <= j < b@.len() ==> #[trigger] directed(up)(
                    texts(out@)[i],
                    texts(b@)[j],
                ),
            texts(out@).to_multiset().add(texts(a@).to_multiset()).add(texts(b@).to_multiset())
                =~= whole,
        decreases a.len() + b.len(),
    {
        let ghost a0 = texts(a@);
        let ghost b0 = texts(b@);
        let ghost out0 = texts(out@);
        proof {
            lemma_directed(up, !up);
        }
        let from_a = if a.len() == 0 {
            false
        } else if b.len() == 0 {
            true
        } else {
            let x = a[a.len() - 1].as_str();
            let y = b[b.len() - 1].as_str();
            if up {
                no_later(x, y)
            } else {
                no_later(y, x)
            }
        };
        if from_a {
            let taken = a.pop();
            if let Some(x) = taken {
                proof {
                    assert(a0.last() == x@);
                    assert(texts(a@) =~= a0.drop_last());
                    lemma_multiset_of_last(a0);
                    lemma_texts_push(out@, x);
                    lemma_take_from_end(out0, a0, b0, up);
                    lemma_multiset_of_last(out0.push(x@));
                    assert(out0.push(x@).drop_last() =~= out0);
                }
                out.push(x);
            }
        } else {
            let taken = b.pop();
            if let Some(x) = taken {
                proof {
                    assert(b0.last() == x@);
                    assert(texts(b@) =~= b0.drop_last());
                    lemma_multiset_of_last(b0);
                    lemma_texts_push(out@, x);
                    if a0.len() > 0 {
                        assert(directed(up)(a0.last(), x@) || directed(up)(x@, a0.last()));
                    }
                    lemma_take_from_end(out0, b0, a0, up);
                    lemma_multiset_of_last(out0.push(x@));
                    assert(out0.push(x@).drop_last() =~= out0);
                }
                out.push(x);
            }
        }
    }
    proof {
        broadcast use group_to_multiset_ensures;

        assert(texts(a@) =~= Seq::<Seq<char>>::empty());
        assert(texts(b@) =~= Seq::<Seq<char>>::empty());
        assert(texts(out@).to_multiset().add(texts(a@).to_multiset()).add(texts(b@).to_multiset())
            =~= texts(out@).to_multiset());
    }
    out
}

/// Moving the last text of one row behind a sorted row keeps it sorted and in front of the
/// rest, if that text stands no later than the last text of the other row.
proof fn lemma_take_from_end(
    out: Seq<Seq<char>>,
    a: Seq<Seq<char>>,
    b: Seq<Seq<char>>,
    up: bool,
)
    requires
        a.len() > 0,
        sorted_by(a, directed(!up)),
        sorted_by(b, directed(!up)),
        sorted_by(out, directed(up)),
        forall|i: int, j: int|
            0 <= i < out.len() && 0 <= j < a.len() ==> #[trigger] directed(up)(out[i], a[j]),
        forall|i: int, j: int|
            0 <= i < out.len() && 0 <= j < b.len() ==> #[trigger] directed(up)(out[i], b[j]),
        b.len() > 0 ==> directed(up)(a.last(), b.last()),
    ensures
        ({
            let more = out.push(a.last());
            let rest = a.drop_last();
            &&& sorted_by(more, directed(up))
            &&& sorted_by(rest, directed(!up))
            &&& forall|i: int, j: int|
                0 <= i < more.len() && 0 <= j < rest.len() ==> #[trigger] directed(up)(
                    more[i],
                    rest[j],
                )
            &&& forall|i: int, j: int|
                0 <= i < more.len() && 0 <= j < b.len() ==> #[trigger] directed(up)(more[i], b[j])
        }),
{
    lemma_directed(up, !up);
    let x = a.last();
    let more = out.push(x);
    let rest = a.drop_last();
    let down = directed(!up);
    assert forall|i: int, j: int| 0 <= i < j < more.len() implies #[trigger] directed(up)(
        more[i],
        more[j],
    ) by {
        if j == out.len() {
            assert(directed(up)(out[i], a[a.len() - 1]));
        } else {
            assert(directed(up)(out[i], out[j]));
        }
    }
    assert forall|i: int, j: int| 0 <= i < j < rest.len() implies #[trigger] down(rest[i], rest[j]) by {
        assert(directed(!up)(a[i], a[j]));
    }
    assert forall|i: int, j: int| 0 <= i < more.len() && 0 <= j < rest.len() implies #[trigger]
        directed(up)(more[i], rest[j]) by {
        if i == out.len() {
            assert(directed(!up)(a[j], a[a.len() - 1]));
        } else {
            assert(directed(up)(out[i], a[j]));
        }
    }
    assert forall|i: int, j: int| 0 <= i < more.len() && 0 <= j < b.len() implies #[trigger]
        directed(up)(more[i], b[j]) by {
        if i == out.len() {
            if j < b.len() - 1 {
                assert(directed(!up)(b[j], b[b.len() - 1]));
                assert(directed(up)(b[b.len() - 1], b[j]));
            }
            assert(directed(up)(x, b[b.len() - 1]));
        } else {
            assert(directed(up)(out[i], b[j]));
        }
    }
}

/// Sorts a row of texts in one direction or the other.
fn sort_directed(row: Vec<String>, up: bool) -> (out: Vec<String>)
    ensures
        sorted_by(texts(out@), directed(up)),
        texts(out@).to_multiset() == texts(row@).to_multiset(),
    decreases row@.len(),
{
    if row.len() <= 1 {
        return row;
    }
    let ghost whole = texts(row@);
    let mut left = row;
    let half: usize = left.len() / 2;
    let right = left.split_off(half);
    proof {
        assert(whole =~= texts(left@) + texts(right@));
        lemma_multiset_commutative(texts(left@), texts(right@));
    }
    let a = sort_directed(left, !up);
    let b = sort_directed(right, !up);
    merge(a, b, up)
}

/// Sorts a row of texts in ascending order.
pub(crate) fn sort(row: Vec<String>) -> (out: Vec<String>)
    ensures
        texts(out@) == sorted(texts(row@)),
{
    let ghost before = texts(row@);
    let out = sort_directed(row, true);
    proof {
        let leq = text_order();
        text_order_is_total();
        before.lemma_sort_by_ensures(leq);
        assert forall|i: int, j: int| 0 <= i < j < texts(out@).len() implies #[trigger] leq(
            texts(out@)[i],
            texts(out@)[j],
        ) by {
            assert(directed(true)(texts(out@)[i], texts(out@)[j]));
        }
        lemma_sorted_unique(texts(out@), sorted(before), leq);
    }
    out
}

} // verus!
