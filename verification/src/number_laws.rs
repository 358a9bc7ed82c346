//! Laws of numbers as they are written: a numeral stands for the sum of its figures, each times
//! the power of ten of its place; a decimal is the shortest numeral of its number; and a number
//! in bytes or in hexadecimal digits is the sum of those.

use vstd::prelude::*;

use crate::digest::{hex, le_bytes, twos_complement};
use crate::text::{all_digits, decimal, digits, digits_value, numeral};

verus! {

// ---------------------------------------------------------------------------------------
// Decimal
// ---------------------------------------------------------------------------------------

/// A power of a base.
pub open spec fn power(base: nat, k: nat) -> nat
    decreases k,
{
    if k == 0 {
        1
    } else {
        base * power(base, (k - 1) as nat)
    }
}

/// One or more of the figures `0` to `9`.
pub open spec fn figures(ds: Seq<char>) -> bool {
    &&& ds.len() > 0
    &&& forall|i: int| 0 <= i < ds.len() ==> '0' <= #[trigger] ds[i] <= '9'
}

/// The sum of the figures of a numeral, each times the power of ten of its place.
pub open spec fn place_value(ds: Seq<char>) -> int
    decreases ds.len(),
{
    if ds.len() == 0 {
        0
    } else {
        (ds[0] as int - '0' as int) * power(10, (ds.len() - 1) as nat) + place_value(
            ds.drop_first(),
        )
    }
}

proof fn lemma_place_value_push(ds: Seq<char>, c: char)
    ensures
        place_value(ds.push(c)) == 10 * place_value(ds) + (c as int - '0' as int),
    decreases ds.len(),
{
    let all = ds.push(c);
    if ds.len() == 0 {
        assert(all.drop_first() =~= Seq::<char>::empty());
        assert(place_value(all.drop_first()) == 0);
        assert(power(10, 0) == 1);
        assert(all[0] == c);
        assert(place_value(all) == (c as int - '0' as int) * 1);
        assert(place_value(ds) == 0);
    } else {
        assert(all.drop_first() =~= ds.drop_first().push(c));
        lemma_place_value_push(ds.drop_first(), c);
        let p = power(10, (ds.len() - 1) as nat) as int;
        let q = power(10, ds.len()) as int;
        let f = ds[0] as int - '0' as int;
        assert(all[0] == ds[0]);
        assert(q == 10 * p);
        assert(place_value(all) == f * q + place_value(all.drop_first()));
        assert(place_value(ds) == f * p + place_value(ds.drop_first()));
        assert(f * q == 10 * (f * p)) by (nonlinear_arith)
            requires
                q == 10 * p,
        ;
    }
}

proof fn lemma_place_value(ds: Seq<char>)
    requires
        forall|i: int| 0 <= i < ds.len() ==> '0' <= #[trigger] ds[i] <= '9',
    ensures
        digits_value(ds) == place_value(ds),
        place_value(ds) >= 0,
    decreases ds.len(),
{
    if ds.len() > 0 {
        let before = ds.drop_last();
        assert forall|i: int| 0 <= i < before.len() implies '0' <= #[trigger] before[i] <= '9' by {
            assert(before[i] == ds[i]);
        }
        lemma_place_value(before);
        lemma_place_value_push(before, ds.last());
        assert(before.push(ds.last()) =~= ds);
        assert('0' <= ds[ds.len() - 1] <= '9');
    }
}

/// A numeral without a sign, or with the sign `+`, stands for the sum of its figures, each times
/// the power of ten of its place; with the sign `-`, for the negative of it. A number that a
/// 64-bit signed integer cannot hold has no numeral.
pub proof fn a_numeral_is_the_sum_of_its_figures(ds: Seq<char>)
    requires
        figures(ds),
    ensures
        place_value(ds) <= 0x7fff_ffff_ffff_ffff ==> numeral(ds) == Some(place_value(ds) as i64)
            && numeral(seq!['+'] + ds) == Some(place_value(ds) as i64),
        place_value(ds) > 0x7fff_ffff_ffff_ffff ==> numeral(ds) is None && numeral(
            seq!['+'] + ds,
        ) is None,
        place_value(ds) <= 0x8000_0000_0000_0000 ==> numeral(seq!['-'] + ds) == Some(
            (-place_value(ds)) as i64,
        ),
        place_value(ds) > 0x8000_0000_0000_0000 ==> numeral(seq!['-'] + ds) is None,
{
    lemma_place_value(ds);
    assert((seq!['+'] + ds).skip(1) =~= ds);
    assert((seq!['-'] + ds).skip(1) =~= ds);
    assert('0' <= ds[0] <= '9');
    assert(all_digits(ds));
}

/// Nothing else is a numeral.
pub proof fn a_numeral_is_made_of_figures(t: Seq<char>)
    ensures
        numeral(t) is Some ==> figures(t) || (t.len() > 0 && (t[0] == '+' || t[0] == '-')
            && figures(t.skip(1))),
{
}

/// The decimal of a natural number is made of figures whose sum it is, without a leading zero;
/// that of a negative number is a minus sign and the decimal of its negative.
pub proof fn a_decimal_is_the_shortest_numeral(n: nat)
    ensures
        figures(decimal(n as int)),
        place_value(decimal(n as int)) == n,
        decimal(n as int).len() > 1 ==> decimal(n as int)[0] != '0',
        n > 0 ==> decimal(-n) == seq!['-'] + decimal(n as int),
    decreases n,
{
    if n < 10 {
        let ds = digits(n);
        assert(ds.drop_first() =~= Seq::<char>::empty());
        assert(place_value(ds.drop_first()) == 0);
        assert(power(10, 0) == 1);
        assert(ds[0] as int - '0' as int == n);
        assert(place_value(ds) == (ds[0] as int - '0' as int) * 1);
    } else {
        a_decimal_is_the_shortest_numeral(n / 10);
        let before = digits(n / 10);
        let ds = digits(n);
        lemma_place_value_push(before, ds.last());
        assert forall|i: int| 0 <= i < ds.len() implies '0' <= #[trigger] ds[i] <= '9' by {
            if i < before.len() {
                assert(ds[i] == before[i]);
            }
        }
        assert(ds[0] == before[0]);
        if before.len() == 1 {
            // A single figure stands for ten or more tens, so it is not zero.
            assert(before.drop_first() =~= Seq::<char>::empty());
            assert(place_value(before.drop_first()) == 0);
            assert(power(10, 0) == 1);
            assert(place_value(before) == (before[0] as int - '0' as int) * 1);
        }
    }
}

// ---------------------------------------------------------------------------------------
// Bytes
// ---------------------------------------------------------------------------------------

/// The sum of a run of bytes, each times the power of 256 of its place, the lowest first.
pub open spec fn byte_sum(bytes: Seq<u8>) -> int
    decreases bytes.len(),
{
    if bytes.len() == 0 {
        0
    } else {
        byte_sum(bytes.drop_last()) + bytes.last() * power(256, (bytes.len() - 1) as nat)
    }
}

proof fn lemma_byte_sum_first(b: u8, bytes: Seq<u8>)
    ensures
        byte_sum(seq![b] + bytes) == b + 256 * byte_sum(bytes),
    decreases bytes.len(),
{
    let all = seq![b] + bytes;
    if bytes.len() == 0 {
        assert(all.drop_last() =~= Seq::<u8>::empty());
        assert(byte_sum(all.drop_last()) == 0);
        assert(power(256, 0) == 1);
        assert(all.last() == b);
        assert(byte_sum(all) == b * 1);
        assert(byte_sum(bytes) == 0);
    } else {
        assert(all.drop_last() =~= seq![b] + bytes.drop_last());
        lemma_byte_sum_first(b, bytes.drop_last());
        let p = power(256, (bytes.len() - 1) as nat) as int;
        let q = power(256, bytes.len()) as int;
        let x = bytes.last() as int;
        assert(all.last() == bytes.last());
        assert(q == 256 * p);
        assert(byte_sum(all) == byte_sum(all.drop_last()) + x * q);
        assert(byte_sum(bytes) == byte_sum(bytes.drop_last()) + x * p);
        assert(x * q == 256 * (x * p)) by (nonlinear_arith)
            requires
                q == 256 * p,
        ;
    }
}

/// A number in so many bytes is the sum of those bytes, each times the power of 256 of its
/// place, if that many bytes can hold it.
pub proof fn a_number_is_the_sum_of_its_bytes(n: nat, count: nat)
    requires
        n < power(256, count),
    ensures
        le_bytes(n, count).len() == count,
        byte_sum(le_bytes(n, count)) == n,
    decreases count,
{
    if count > 0 {
        let less = (count - 1) as nat;
        assert(n / 256 < power(256, less)) by (nonlinear_arith)
            requires
                n < 256 * power(256, less),
        ;
        a_number_is_the_sum_of_its_bytes(n / 256, less);
        lemma_byte_sum_first((n % 256) as u8, le_bytes(n / 256, less));
    }
}

/// Two's complement differs from the number by nothing or by two to the 64, and lies in between.
pub proof fn twos_complement_is_modular(n: i64)
    ensures
        0 <= twos_complement(n) < power(256, 8),
        twos_complement(n) == n || twos_complement(n) == n + power(256, 8),
{
    reveal_with_fuel(power, 9);
    assert(power(256, 8) == 0x1_0000_0000_0000_0000);
}

/// The number that a lower-case hexadecimal digit stands for.
pub open spec fn hex_value(c: char) -> int {
    if '0' <= c <= '9' {
        c as int - '0' as int
    } else if 'a' <= c <= 'f' {
        c as int - 'a' as int + 10
    } else {
        -1
    }
}

/// A run of bytes in hexadecimal has two lower-case digits for each byte, the higher first.
pub proof fn a_byte_is_two_digits(bytes: Seq<u8>, i: int)
    requires
        0 <= i < bytes.len(),
    ensures
        hex(bytes).len() == 2 * bytes.len(),
        0 <= hex_value(hex(bytes)[2 * i]) < 16,
        0 <= hex_value(hex(bytes)[2 * i + 1]) < 16,
        hex_value(hex(bytes)[2 * i]) * 16 + hex_value(hex(bytes)[2 * i + 1]) == bytes[i],
    decreases bytes.len(),
{
    let before = bytes.drop_last();
    lemma_hex_len(before);
    if i < before.len() {
        a_byte_is_two_digits(before, i);
        assert(hex(bytes)[2 * i] == hex(before)[2 * i]);
        assert(hex(bytes)[2 * i + 1] == hex(before)[2 * i + 1]);
    }
}

proof fn lemma_hex_len(bytes: Seq<u8>)
    ensures
        hex(bytes).len() == 2 * bytes.len(),
    decreases bytes.len(),
{
    if bytes.len() > 0 {
        lemma_hex_len(bytes.drop_last());
    }
}

} // verus!
