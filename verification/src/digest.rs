//! Content hashes: the fingerprint of a datum is a SHA-256 of its whole tree.

use sha2::{Digest, Sha256};
use vstd::prelude::*;
use vstd::string::*;
use vstd::utf8::*;

use crate::datum::{Datum, Sexpr, data, lemma_data, lemma_item_is_smaller};

verus! {

// ---------------------------------------------------------------------------------------
// SHA-256
// ---------------------------------------------------------------------------------------

/// The SHA-256 of a run of bytes.
pub uninterp spec fn sha256_digest(bytes: Seq<u8>) -> Seq<u8>;

/// `sha2::Sha256::digest` hashes a run of bytes. The result is a function of those bytes alone,
/// and it is 32 bytes long. (The crate counts the bits of a message in 64 bits; no address
/// space holds a message that long.)
#[verifier::external_body]
fn sha256(bytes: &[u8]) -> (h: Vec<u8>)
    ensures
        h@ == sha256_digest(bytes@),
        h@.len() == 32,
{
    Sha256::digest(bytes).to_vec()
}

/// The hash of a run of bytes: its SHA-256 as 32 bytes.
pub open spec fn hash(bytes: Seq<u8>) -> Seq<u8> {
    Seq::new(32, |i: int| sha256_digest(bytes)[i])
}

/// Hashes a run of bytes.
fn hash_bytes(bytes: &Vec<u8>) -> (h: Vec<u8>)
    ensures
        h@ == hash(bytes@),
{
    let h = sha256(bytes.as_slice());
    assert(h@ =~= hash(bytes@));
    h
}

// ---------------------------------------------------------------------------------------
// What is hashed
// ---------------------------------------------------------------------------------------

/// A number as `count` bytes, the lowest first.
pub open spec fn le_bytes(n: nat, count: nat) -> Seq<u8>
    decreases count,
{
    if count == 0 {
        Seq::empty()
    } else {
        seq![(n % 256) as u8] + le_bytes(n / 256, (count - 1) as nat)
    }
}

/// A 64-bit signed integer as a natural number, in two's complement.
pub open spec fn twos_complement(n: i64) -> nat {
    if n < 0 {
        (n + 0x1_0000_0000_0000_0000) as nat
    } else {
        n as nat
    }
}

/// What is hashed of an atom: a tag for its kind, the length of its payload, and the payload.
pub open spec fn atom_bytes(tag: u8, payload: Seq<u8>) -> Seq<u8> {
    seq![tag] + le_bytes(payload.len(), 8) + payload
}

/// The content hash of a datum.
pub open spec fn content_hash(d: Datum) -> Seq<u8>
    decreases d, 0int,
{
    match d {
        Datum::Symbol(s) => hash(atom_bytes(1, encode_utf8(s))),
        Datum::Str(s) => hash(atom_bytes(2, encode_utf8(s))),
        Datum::Int(n) => hash(atom_bytes(3, le_bytes(twos_complement(n), 8))),
        Datum::List(items) => list_hash(items),
    }
}

/// The content hash of a list: that of the nil marker for the empty list, else that of the cons
/// marker, the hash of the first item, and the hash of the rest.
pub open spec fn list_hash(items: Seq<Datum>) -> Seq<u8>
    decreases items, 1int,
{
    if items.len() == 0 {
        hash(seq![0u8])
    } else {
        hash(seq![4u8] + content_hash(items[0]) + list_hash(items.drop_first()))
    }
}

/// Appends a number as eight bytes, the lowest first.
fn append_le_bytes(out: &mut Vec<u8>, n: u64)
    ensures
        final(out)@ == old(out)@ + le_bytes(n as nat, 8),
{
    let mut rest: u64 = n;
    let mut left: usize = 8;
    while left > 0
        invariant
            left <= 8,
            out@ + le_bytes(rest as nat, left as nat) == old(out)@ + le_bytes(n as nat, 8),
        decreases left,
    {
        let ghost before = out@;
        let ghost r: nat = rest as nat;
        let b: u8 = (rest % 256) as u8;
        out.push(b);
        proof {
            assert(le_bytes(r, left as nat) == seq![b] + le_bytes(r / 256, (left - 1) as nat));
            assert(before + (seq![b] + le_bytes(r / 256, (left - 1) as nat)) =~= out@ + le_bytes(
                r / 256,
                (left - 1) as nat,
            ));
        }
        rest = rest / 256;
        left = left - 1;
    }
    assert(out@ + le_bytes(rest as nat, 0) =~= out@);
}

/// What is hashed of an atom: a tag for its kind, the length of its payload, and the payload.
pub fn atom_message(tag: u8, payload: &[u8]) -> (bytes: Vec<u8>)
    ensures
        bytes@ == atom_bytes(tag, payload@),
{
    let mut bytes: Vec<u8> = Vec::new();
    bytes.push(tag);
    append_le_bytes(&mut bytes, payload.len() as u64);
    bytes.extend_from_slice(payload);
    assert(bytes@ =~= atom_bytes(tag, payload@));
    bytes
}

/// Hashes an atom.
fn atom_hash(tag: u8, payload: &[u8]) -> (h: Vec<u8>)
    ensures
        h@ == hash(atom_bytes(tag, payload@)),
{
    hash_bytes(&atom_message(tag, payload))
}

/// The payload of an integer: eight bytes in two's complement, the lowest first.
pub fn int_payload(n: i64) -> (payload: Vec<u8>)
    ensures
        payload@ == le_bytes(twos_complement(n), 8),
{
    let value: u64 = if n < 0 {
        (n as i128 + 0x1_0000_0000_0000_0000) as u64
    } else {
        n as u64
    };
    let mut payload: Vec<u8> = Vec::new();
    append_le_bytes(&mut payload, value);
    assert(payload@ =~= le_bytes(twos_complement(n), 8));
    payload
}

/// Hashes the empty list.
fn nil_hash() -> (h: Vec<u8>)
    ensures
        h@ == list_hash(Seq::empty()),
{
    let mut bytes: Vec<u8> = Vec::new();
    bytes.push(0);
    assert(bytes@ =~= seq![0u8]);
    hash_bytes(&bytes)
}

/// What is hashed of a cons cell: the cons marker, the hash of its first item, and that of its
/// rest.
pub fn cons_message(first: &Vec<u8>, rest: &Vec<u8>) -> (bytes: Vec<u8>)
    ensures
        bytes@ == seq![4u8] + first@ + rest@,
{
    let mut bytes: Vec<u8> = Vec::new();
    bytes.push(4);
    bytes.extend_from_slice(first.as_slice());
    bytes.extend_from_slice(rest.as_slice());
    assert(bytes@ =~= seq![4u8] + first@ + rest@);
    bytes
}

/// Hashes a cons cell from the hashes of its first item and of its rest.
fn cons_hash(first: &Vec<u8>, rest: &Vec<u8>) -> (h: Vec<u8>)
    ensures
        h@ == hash(seq![4u8] + first@ + rest@),
{
    hash_bytes(&cons_message(first, rest))
}

// ---------------------------------------------------------------------------------------
// The hashes of a tree
// ---------------------------------------------------------------------------------------

/// The content hashes of a datum and of everything in it, each computed once.
pub struct Hashes {
    /// For a list, the hashes of its tails: that of the empty tail first, that of the list
    /// itself last. For an atom, its hash alone.
    pub tails: Vec<Vec<u8>>,
    /// For a list, the hashes of its items.
    pub parts: Vec<Hashes>,
}

impl Hashes {
    /// Whether there is a hash for each part of a datum.
    pub open spec fn fits(self, d: Datum) -> bool
        decreases d,
    {
        match d {
            Datum::List(items) => {
                &&& self.tails@.len() == items.len() + 1
                &&& self.parts@.len() == items.len()
                &&& forall|i: int|
                    0 <= i < items.len() ==> (#[trigger] self.parts@[i]).fits(items[i])
            },
            _ => true,
        }
    }

    /// Whether these are the content hashes of a datum and of everything in it.
    pub open spec fn of(self, d: Datum) -> bool
        decreases d,
    {
        match d {
            Datum::List(items) => {
                &&& self.tails@.len() == items.len() + 1
                &&& forall|k: int|
                    0 <= k <= items.len() ==> (#[trigger] self.tails@[k])@ == list_hash(
                        items.skip(items.len() - k),
                    )
                &&& self.parts@.len() == items.len()
                &&& forall|i: int|
                    0 <= i < items.len() ==> (#[trigger] self.parts@[i]).of(items[i])
            },
            _ => self.tails@.len() == 1 && self.tails@[0]@ == content_hash(d),
        }
    }

    /// The content hash of the datum itself.
    fn top(&self, d: Ghost<Datum>) -> (h: &Vec<u8>)
        requires
            self.of(d@),
        ensures
            h@ == content_hash(d@),
    {
        proof {
            if let Datum::List(items) = d@ {
                assert(items.skip(0) =~= items);
                assert(self.tails@[items.len() as int]@ == list_hash(items.skip(0)));
            }
        }
        &self.tails[self.tails.len() - 1]
    }
}

/// The content hashes of a datum are a hash for each part of it.
pub proof fn lemma_of_fits(h: Hashes, d: Datum)
    requires
        h.of(d),
    ensures
        h.fits(d),
    decreases d,
{
    if let Datum::List(items) = d {
        assert forall|i: int| 0 <= i < items.len() implies (#[trigger] h.parts@[i]).fits(
            items[i],
        ) by {
            lemma_of_fits(h.parts@[i], items[i]);
        }
    }
}

/// The content hashes of an atom.
fn hashes_of_atom(h: Vec<u8>) -> (hashes: Hashes)
    ensures
        hashes.tails@ == seq![h],
{
    let mut tails: Vec<Vec<u8>> = Vec::new();
    tails.push(h);
    assert(tails@ =~= seq![h]);
    Hashes { tails, parts: Vec::new() }
}

/// Computes the content hashes of a datum and of everything in it. The cons chain of a list is
/// walked from its end, so that each tail is hashed once.
pub(crate) fn hashes_of(sexpr: &Sexpr) -> (hashes: Hashes)
    ensures
        hashes.of(sexpr@),
    decreases *sexpr,
{
    match sexpr {
        Sexpr::Symbol(s) => hashes_of_atom(atom_hash(1, s.as_str().as_bytes())),
        Sexpr::Str(s) => hashes_of_atom(atom_hash(2, s.as_str().as_bytes())),
        Sexpr::Int(n) => hashes_of_atom(atom_hash(3, int_payload(*n).as_slice())),
        Sexpr::List(items) => {
            let ghost ds = data(items@);
            let mut parts: Vec<Hashes> = Vec::new();
            let mut i: usize = 0;
            while i < items.len()
                invariant
                    i <= items.len(),
                    *sexpr == Sexpr::List(*items),
                    ds == data(items@),
                    parts@.len() == i,
                    forall|j: int| 0 <= j < i ==> (#[trigger] parts@[j]).of(ds[j]),
                decreases items.len() - i,
            {
                proof {
                    lemma_data(items@);
                    lemma_item_is_smaller(*sexpr, i as int);
                }
                parts.push(hashes_of(&items[i]));
                i = i + 1;
            }
            let mut tails: Vec<Vec<u8>> = Vec::new();
            tails.push(nil_hash());
            proof {
                lemma_data(items@);
                assert(ds.skip(ds.len() as int) =~= Seq::<Datum>::empty());
            }
            while i > 0
                invariant
                    i <= items.len(),
                    ds == data(items@),
                    ds.len() == items.len(),
                    parts@.len() == items.len(),
                    forall|j: int| 0 <= j < items.len() ==> (#[trigger] parts@[j]).of(ds[j]),
                    tails@.len() == items.len() - i + 1,
                    forall|k: int|
                        0 <= k < tails@.len() ==> (#[trigger] tails@[k])@ == list_hash(
                            ds.skip(ds.len() - k),
                        ),
                decreases i,
            {
                i = i - 1;
                let ghost done = tails@.len() - 1;
                let h = cons_hash(parts[i].top(Ghost(ds[i as int])), &tails[tails.len() - 1]);
                proof {
                    assert(tails@[done]@ == list_hash(ds.skip(i + 1)));
                    assert(ds.skip(i as int)[0] == ds[i as int]);
                    assert(ds.skip(i as int).drop_first() =~= ds.skip(i + 1));
                }
                tails.push(h);
            }
            Hashes { tails, parts }
        },
    }
}

// ---------------------------------------------------------------------------------------
// Hexadecimal
// ---------------------------------------------------------------------------------------

/// The character of a hexadecimal digit.
pub open spec fn hex_digit(d: int) -> char
    recommends
        0 <= d < 16,
{
    if d < 10 {
        ('0' as int + d) as char
    } else {
        ('a' as int + (d - 10)) as char
    }
}

/// A run of bytes in lowercase hexadecimal.
pub open spec fn hex(bytes: Seq<u8>) -> Seq<char>
    decreases bytes.len(),
{
    if bytes.len() == 0 {
        Seq::empty()
    } else {
        hex(bytes.drop_last()) + seq![
            hex_digit(bytes.last() as int / 16),
            hex_digit(bytes.last() as int % 16),
        ]
    }
}

fn hex_char(d: u8) -> (c: char)
    requires
        d < 16,
    ensures
        c == hex_digit(d as int),
{
    if d < 10 {
        ('0' as u8 + d) as char
    } else {
        ('a' as u8 + (d - 10)) as char
    }
}

/// Prints a run of bytes in lowercase hexadecimal.
pub fn to_hex(bytes: &Vec<u8>) -> (s: String)
    ensures
        s@ == hex(bytes@),
{
    let mut s = String::new();
    let mut i: usize = 0;
    while i < bytes.len()
        invariant
            i <= bytes.len(),
            s@ == hex(bytes@.take(i as int)),
        decreases bytes.len() - i,
    {
        let b: u8 = bytes[i];
        let ghost before = s@;
        s.push(hex_char(b / 16));
        s.push(hex_char(b % 16));
        proof {
            assert(bytes@.take(i + 1).drop_last() =~= bytes@.take(i as int));
            assert(s@ =~= hex(bytes@.take(i + 1)));
        }
        i = i + 1;
    }
    assert(bytes@.take(bytes@.len() as int) =~= bytes@);
    s
}

} // verus!
