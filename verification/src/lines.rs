//! Rows of texts: rendering them one after another, and joining them.

use vstd::prelude::*;
use vstd::string::*;

use crate::datum::Fault;

verus! {

/// The texts of a row of strings.
pub open spec fn texts(rows: Seq<String>) -> Seq<Seq<char>> {
    rows.map_values(|row: String| row@)
}

/// One string more in a row.
pub proof fn lemma_texts_push(rows: Seq<String>, row: String)
    ensures
        texts(rows.push(row)) == texts(rows).push(row@),
{
    assert(texts(rows.push(row)) =~= texts(rows).push(row@));
}

/// The values of a row of results if all of them are values, else the first fault.
pub open spec fn all_ok<T>(rs: Seq<Result<T, Fault>>) -> Result<Seq<T>, Fault>
    decreases rs.len(),
{
    if rs.len() == 0 {
        Ok(Seq::empty())
    } else {
        match all_ok(rs.drop_last()) {
            Err(e) => Err(e),
            Ok(ts) => match rs.last() {
                Err(e) => Err(e),
                Ok(t) => Ok(ts.push(t)),
            },
        }
    }
}

/// One result more in a row.
pub proof fn lemma_all_ok_step<T>(rs: Seq<Result<T, Fault>>, i: int)
    requires
        0 <= i < rs.len(),
    ensures
        all_ok(rs.take(i + 1)) == match all_ok(rs.take(i)) {
            Err(e) => Err::<Seq<T>, Fault>(e),
            Ok(ts) => match rs[i] {
                Err(e) => Err(e),
                Ok(t) => Ok(ts.push(t)),
            },
        },
{
    assert(rs.take(i + 1).drop_last() =~= rs.take(i));
}

/// The first fault of a row is the fault of the whole row.
pub proof fn lemma_all_ok_fault<T>(rs: Seq<Result<T, Fault>>, i: int)
    requires
        0 <= i <= rs.len(),
        all_ok(rs.take(i)) is Err,
    ensures
        all_ok(rs) == all_ok(rs.take(i)),
    decreases rs.len() - i,
{
    if i == rs.len() {
        assert(rs.take(i) =~= rs);
    } else {
        lemma_all_ok_step(rs, i);
        lemma_all_ok_fault(rs, i + 1);
    }
}

/// If a row gives values, then it gives one for each result, in order.
pub proof fn lemma_all_ok_values<T>(rs: Seq<Result<T, Fault>>)
    ensures
        all_ok(rs) matches Ok(ts) ==> ts.len() == rs.len() && forall|i: int|
            0 <= i < rs.len() ==> #[trigger] rs[i] == Ok::<T, Fault>(ts[i]),
    decreases rs.len(),
{
    if rs.len() > 0 {
        lemma_all_ok_values(rs.drop_last());
        if let Ok(ts) = all_ok(rs) {
            let before = all_ok(rs.drop_last())->Ok_0;
            assert forall|i: int| 0 <= i < rs.len() implies #[trigger] rs[i] == Ok::<T, Fault>(
                ts[i],
            ) by {
                if i < rs.len() - 1 {
                    assert(rs.drop_last()[i] == rs[i]);
                }
            }
        }
    }
}

/// A row of texts, with one blank between any two.
pub open spec fn joined(row: Seq<Seq<char>>) -> Seq<char>
    decreases row.len(),
{
    if row.len() == 0 {
        Seq::empty()
    } else if row.len() == 1 {
        row[0]
    } else {
        joined(row.drop_last()) + " "@ + row.last()
    }
}

/// A row of texts, each with `before` in front of it and `after` behind it.
pub open spec fn lines(row: Seq<Seq<char>>, before: Seq<char>, after: Seq<char>) -> Seq<char>
    decreases row.len(),
{
    if row.len() == 0 {
        Seq::empty()
    } else {
        lines(row.drop_last(), before, after) + before + row.last() + after
    }
}

/// Joins a row of texts with blanks.
pub(crate) fn join(row: &Vec<String>) -> (text: String)
    ensures
        text@ == joined(texts(row@)),
{
    let mut out = String::new();
    let mut i: usize = 0;
    let ghost ts = texts(row@);
    while i < row.len()
        invariant
            i <= row.len(),
            ts == texts(row@),
            out@ == joined(ts.take(i as int)),
        decreases row.len() - i,
    {
        let ghost before = out@;
        if i > 0 {
            out.append(" ");
        }
        out.append(row[i].as_str());
        proof {
            assert(ts.take(i + 1).drop_last() =~= ts.take(i as int));
            if i == 0 {
                assert(out@ =~= ts.take(1)[0]);
            }
        }
        i = i + 1;
    }
    assert(ts.take(ts.len() as int) =~= ts);
    out
}

/// Appends a row of texts, each with `before` in front of it and `after` behind it.
pub(crate) fn append_lines(out: &mut String, row: &Vec<String>, before: &str, after: &str)
    ensures
        final(out)@ == old(out)@ + lines(texts(row@), before@, after@),
{
    let mut i: usize = 0;
    let ghost ts = texts(row@);
    assert(out@ =~= old(out)@ + lines(ts.take(0), before@, after@));
    while i < row.len()
        invariant
            i <= row.len(),
            ts == texts(row@),
            out@ == old(out)@ + lines(ts.take(i as int), before@, after@),
        decreases row.len() - i,
    {
        out.append(before);
        out.append(row[i].as_str());
        out.append(after);
        proof {
            assert(ts.take(i + 1).drop_last() =~= ts.take(i as int));
            assert(out@ =~= old(out)@ + lines(ts.take(i + 1), before@, after@));
        }
        i = i + 1;
    }
    assert(ts.take(ts.len() as int) =~= ts);
}

} // verus!
