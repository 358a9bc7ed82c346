//! The text of a datum, told by what stands beside what.

use vstd::prelude::*;

use crate::datum::Datum;
use crate::printer::{printed, printed_items};
use crate::text::{decimal, quoted};

verus! {

/// An atom is printed as it is written: a symbol as its text, a number in decimal, a string as
/// its literal.
pub proof fn an_atom_is_printed_as_it_is_written(s: Seq<char>, n: i64)
    ensures
        printed(Datum::Symbol(s)) == s,
        printed(Datum::Int(n)) == decimal(n as int),
        printed(Datum::Str(s)) == quoted(s),
{
}

/// The empty list is printed as two parentheses, and a list of one item as that item between
/// them.
pub proof fn a_short_list_is_printed_between_parentheses(d: Datum)
    ensures
        printed(Datum::List(Seq::empty())) == seq!['(', ')'],
        printed(Datum::List(seq![d])) == seq!['('] + printed(d) + seq![')'],
{
    assert(printed(Datum::List(Seq::empty())) =~= seq!['(', ')']);
    assert(seq![d][0] == d);
}

/// Two runs of items behind each other are printed behind each other, one blank between them,
/// between one pair of parentheses.
pub proof fn lists_are_printed_behind_each_other(a: Seq<Datum>, b: Seq<Datum>)
    requires
        a.len() > 0,
        b.len() > 0,
    ensures
        printed(Datum::List(a)).len() >= 2,
        printed(Datum::List(b)).len() >= 2,
        printed(Datum::List(a + b)) == printed(Datum::List(a)).drop_last() + seq![' '] + printed(
            Datum::List(b),
        ).skip(1),
{
    lemma_items_behind_each_other(a, b);
    let (x, y) = (printed_items(a), printed_items(b));
    assert(printed(Datum::List(a)).drop_last() =~= seq!['('] + x);
    assert(printed(Datum::List(b)).skip(1) =~= y + seq![')']);
    assert(printed(Datum::List(a + b)) =~= seq!['('] + x + seq![' '] + (y + seq![')']));
}

proof fn lemma_items_behind_each_other(a: Seq<Datum>, b: Seq<Datum>)
    requires
        a.len() > 0,
        b.len() > 0,
    ensures
        printed_items(a + b) == printed_items(a) + seq![' '] + printed_items(b),
    decreases a.len(),
{
    assert((a + b)[0] == a[0]);
    if a.len() == 1 {
        assert((a + b).drop_first() =~= b);
    } else {
        lemma_items_behind_each_other(a.drop_first(), b);
        assert((a + b).drop_first() =~= a.drop_first() + b);
        assert(printed_items(a + b) =~= printed_items(a) + seq![' '] + printed_items(b));
    }
}

} // verus!
