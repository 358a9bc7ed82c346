//! The printer: datum to s-expression text.

use vstd::prelude::*;
use vstd::string::*;

use crate::datum::{Datum, Sexpr, data, lemma_data, lemma_item_is_smaller};
use crate::text::{decimal, print_decimal, quoted, render_string_literal};

verus! {

/// The canonical text of a datum.
pub open spec fn printed(d: Datum) -> Seq<char>
    decreases d, 0int,
{
    match d {
        Datum::Symbol(s) => s,
        Datum::Int(n) => decimal(n as int),
        Datum::Str(s) => quoted(s),
        Datum::List(items) => seq!['('] + printed_items(items) + seq![')'],
    }
}

/// The canonical texts of the items of a list, with one blank between any two.
pub open spec fn printed_items(items: Seq<Datum>) -> Seq<char>
    decreases items, 1int,
{
    if items.len() == 0 {
        Seq::empty()
    } else if items.len() == 1 {
        printed(items[0])
    } else {
        printed(items[0]) + seq![' '] + printed_items(items.drop_first())
    }
}

/// What is still to be printed of a list before its `i`-th item.
spec fn still_to_print(items: Seq<Datum>, i: int) -> Seq<char> {
    if 0 < i < items.len() {
        seq![' '] + printed_items(items.skip(i))
    } else {
        printed_items(items.skip(i))
    }
}

/// Appends the canonical text of a datum.
pub(crate) fn write_into(sexpr: &Sexpr, out: &mut String)
    ensures
        final(out)@ == old(out)@ + printed(sexpr@),
    decreases *sexpr,
{
    match sexpr {
        Sexpr::Symbol(s) => out.append(s.as_str()),
        Sexpr::Int(n) => out.append(print_decimal(*n).as_str()),
        Sexpr::Str(s) => out.append(render_string_literal(s.as_str()).as_str()),
        Sexpr::List(items) => {
            let ghost before = out@;
            let ghost ds = data(items@);
            out.push('(');
            let mut i: usize = 0;
            proof {
                lemma_data(items@);
                assert(ds.skip(0) =~= ds);
                assert(before + (seq!['('] + printed_items(ds)) =~= out@ + still_to_print(ds, 0));
            }
            while i < items.len()
                invariant
                    i <= items.len(),
                    *sexpr == Sexpr::List(*items),
                    ds == data(items@),
                    before + (seq!['('] + printed_items(ds)) == out@ + still_to_print(
                        ds,
                        i as int,
                    ),
                decreases items.len() - i,
            {
                let ghost at = out@;
                proof {
                    lemma_data(items@);
                    lemma_item_is_smaller(*sexpr, i as int);
                    assert(ds.skip(i as int)[0] == items@[i as int]@);
                    assert(ds.skip(i as int).drop_first() =~= ds.skip(i + 1));
                }
                if i > 0 {
                    out.push(' ');
                }
                write_into(&items[i], out);
                proof {
                    let item = printed(items@[i as int]@);
                    if i + 1 == ds.len() {
                        assert(printed_items(ds.skip(i + 1)) =~= Seq::<char>::empty());
                    }
                    assert(at + still_to_print(ds, i as int) =~= out@ + still_to_print(ds, i + 1));
                }
                i = i + 1;
            }
            proof {
                lemma_data(items@);
                assert(printed_items(ds.skip(i as int)) =~= Seq::<char>::empty());
            }
            out.push(')');
            assert(out@ =~= before + printed(sexpr@));
        },
    }
}

} // verus!
