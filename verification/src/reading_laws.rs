//! Laws of the reader: white space and comments around a form change nothing, and two streams of
//! forms may be joined.

use vstd::prelude::*;

use crate::datum::{Datum, Fault};
use crate::reader::{
    document, documents, form, items, lemma_form, lemma_items, lemma_skip_trivia, lemma_token_end,
    line_end, skip_trivia, string_body, token_end,
};
use crate::text::white_space;

verus! {

/// Whether a text is nothing but white space and comments.
pub open spec fn trivia(w: Seq<char>) -> bool {
    skip_trivia(w, 0) == w.len()
}

// ---------------------------------------------------------------------------------------
// A text inside another
// ---------------------------------------------------------------------------------------

/// Whether a text stands at `n` in another, up to its end or up to a line feed.
spec fn stands_at(src: Seq<char>, all: Seq<char>, n: int) -> bool {
    &&& 0 <= n
    &&& n + src.len() <= all.len()
    &&& forall|i: int| 0 <= i < src.len() ==> all[n + i] == #[trigger] src[i]
    &&& n + src.len() < all.len() ==> all[n + src.len()] == '\n'
}

proof fn lemma_line_end_inside(src: Seq<char>, all: Seq<char>, n: int, pos: int)
    requires
        stands_at(src, all, n),
        0 <= pos <= src.len(),
        pos < src.len() || n + src.len() < all.len(),
    ensures
        0 <= pos <= line_end(src, pos) <= src.len(),
        line_end(all, n + pos) == n + line_end(src, pos) || (line_end(src, pos) == src.len()
            && line_end(all, n + pos) == skip_feed(all, n + src.len())),
    decreases src.len() - pos,
{
    if pos < src.len() {
        assert(all[n + pos] == src[pos]);
        if src[pos] != '\n' {
            if pos + 1 < src.len() || n + src.len() < all.len() {
                lemma_line_end_inside(src, all, n, pos + 1);
            } else {
                assert(line_end(src, pos + 1) == pos + 1);
                assert(line_end(all, n + pos + 1) == n + pos + 1);
            }
        }
    } else {
        assert(line_end(all, n + pos) == n + pos + 1);
    }
}

/// The position behind a line feed, if one stands at `pos`.
spec fn skip_feed(all: Seq<char>, pos: int) -> int {
    if 0 <= pos < all.len() && all[pos] == '\n' {
        pos + 1
    } else {
        pos
    }
}

/// Trivia is skipped alike in a text by itself and where it stands in another; at the end of
/// the text, skipping goes on behind it.
proof fn lemma_trivia_inside(src: Seq<char>, all: Seq<char>, n: int, pos: int)
    requires
        stands_at(src, all, n),
        0 <= pos <= src.len(),
    ensures
        pos <= skip_trivia(src, pos) <= src.len(),
        skip_trivia(src, pos) < src.len() ==> skip_trivia(all, n + pos) == n + skip_trivia(
            src,
            pos,
        ),
        skip_trivia(src, pos) == src.len() ==> skip_trivia(all, n + pos) == skip_trivia(
            all,
            n + src.len(),
        ),
    decreases src.len() - pos,
{
    lemma_skip_trivia(src, pos);
    if pos < src.len() {
        assert(all[n + pos] == src[pos]);
        if white_space(src[pos]) {
            lemma_trivia_inside(src, all, n, pos + 1);
        } else if src[pos] == ';' {
            lemma_line_end_inside(src, all, n, pos);
            let e = line_end(src, pos);
            if pos + 1 < src.len() || n + src.len() < all.len() {
                lemma_line_end_inside(src, all, n, pos + 1);
            }
            assert(pos < e);
            lemma_trivia_inside(src, all, n, e);
            if line_end(all, n + pos) != n + e {
                // The comment runs up to the end of the text, and the line feed behind it.
                assert(skip_trivia(src, e) == e);
                assert(white_space('\n'));
            }
        }
    }
}

proof fn lemma_token_inside(src: Seq<char>, all: Seq<char>, n: int, pos: int)
    requires
        stands_at(src, all, n),
        0 <= pos <= src.len(),
    ensures
        token_end(all, n + pos) == n + token_end(src, pos),
    decreases src.len() - pos,
{
    if pos < src.len() {
        assert(all[n + pos] == src[pos]);
        lemma_token_inside(src, all, n, pos + 1);
    } else if n + pos < all.len() {
        assert(white_space('\n'));
    }
}

proof fn lemma_string_inside(src: Seq<char>, all: Seq<char>, n: int, pos: int)
    requires
        stands_at(src, all, n),
        0 <= pos <= src.len(),
    ensures
        string_body(src, pos) matches Ok((s, next)) ==> string_body(all, n + pos) == Ok::<
            (Seq<char>, int),
            Fault,
        >((s, n + next)),
    decreases src.len() - pos,
{
    if pos < src.len() {
        assert(all[n + pos] == src[pos]);
        if src[pos] == '\\' {
            if pos + 1 < src.len() {
                assert(all[n + (pos + 1)] == src[pos + 1]);
                lemma_string_inside(src, all, n, pos + 2);
            }
        } else if src[pos] != '"' {
            lemma_string_inside(src, all, n, pos + 1);
        }
    }
}

/// A form reads alike in a text by itself and where it stands in another.
proof fn lemma_form_inside(src: Seq<char>, all: Seq<char>, n: int, pos: int, depth: int)
    requires
        stands_at(src, all, n),
        0 <= pos < src.len(),
    ensures
        form(src, pos, depth) matches Ok(Some((d, next))) ==> form(all, n + pos, depth) == Ok::<
            Option<(Datum, int)>,
            Fault,
        >(Some((d, n + next))),
    decreases src.len() - pos, 0int,
{
    assert(all[n + pos] == src[pos]);
    if src[pos] == '(' {
        lemma_items_inside(src, all, n, pos + 1, depth + 1);
    } else if src[pos] == '"' {
        lemma_string_inside(src, all, n, pos + 1);
    } else if src[pos] != ')' {
        lemma_token_inside(src, all, n, pos);
        lemma_token_end(src, pos);
        let end = token_end(src, pos);
        assert(all.subrange(n + pos, n + end) =~= src.subrange(pos, end)) by {
            assert forall|i: int| 0 <= i < end - pos implies all.subrange(n + pos, n + end)[i]
                == src.subrange(pos, end)[i] by {
                assert(all[n + (pos + i)] == src[pos + i]);
            }
        }
    }
}

/// The items of a list read alike in a text by itself and where it stands in another.
proof fn lemma_items_inside(src: Seq<char>, all: Seq<char>, n: int, pos: int, depth: int)
    requires
        stands_at(src, all, n),
        0 <= pos <= src.len(),
    ensures
        items(src, pos, depth) matches Ok((ds, next)) ==> items(all, n + pos, depth) == Ok::<
            (Seq<Datum>, int),
            Fault,
        >((ds, n + next)),
    decreases src.len() - pos, 1int,
{
    lemma_trivia_inside(src, all, n, pos);
    lemma_skip_trivia(src, pos);
    let p = skip_trivia(src, pos);
    if p < src.len() {
        assert(all[n + p] == src[p]);
        if src[p] != ')' {
            lemma_form(src, p, depth);
            lemma_form_inside(src, all, n, p, depth);
            if let Ok(Some((d, next))) = form(src, p, depth) {
                lemma_items_inside(src, all, n, next, depth);
                lemma_items(src, next, depth);
                assert(items(src, pos, depth) == match items(src, next, depth) {
                    Ok((ds, end)) => Ok((seq![d] + ds, end)),
                    Err(e) => Err::<(Seq<Datum>, int), Fault>(e),
                });
                assert(items(all, n + pos, depth) == match items(all, n + next, depth) {
                    Ok((ds, end)) => Ok((seq![d] + ds, end)),
                    Err(e) => Err::<(Seq<Datum>, int), Fault>(e),
                });
            }
        }
    }
}

// ---------------------------------------------------------------------------------------
// One form
// ---------------------------------------------------------------------------------------

/// White space and comments around a form change nothing: a text that reads as a datum reads as
/// the same datum with trivia on lines of its own in front of it and behind it.
pub proof fn trivia_around_a_form_changes_nothing(
    before: Seq<char>,
    src: Seq<char>,
    after: Seq<char>,
)
    requires
        trivia(before),
        trivia(after),
        document(src) is Ok,
    ensures
        document(before + seq!['\n'] + src + seq!['\n'] + after) == document(src),
{
    let all = before + seq!['\n'] + src + seq!['\n'] + after;
    let n = before.len() as int + 1;
    let m = n + src.len() + 1;
    assert(stands_at(before, all, 0));
    assert(stands_at(src, all, n));
    assert(stands_at(after, all, m));
    assert(white_space('\n'));
    lemma_trivia_inside(before, all, 0, 0);
    assert(all[n - 1] == '\n');
    assert(skip_trivia(all, 0) == skip_trivia(all, n));
    lemma_trivia_inside(src, all, n, 0);
    let p = skip_trivia(src, 0);
    lemma_skip_trivia(src, 0);
    lemma_form(src, p, 0);
    lemma_form_inside(src, all, n, p, 0);
    let next = form(src, p, 0)->Ok_0->Some_0.1;
    lemma_skip_trivia(src, next);
    lemma_trivia_inside(src, all, n, next);
    assert(all[m - 1] == '\n');
    assert(skip_trivia(all, n + next) == skip_trivia(all, m));
    lemma_trivia_inside(after, all, m, 0);
    assert(m + after.len() == all.len());
}

/// White space and a comment behind it, up to the end of a text, are trivia.
pub proof fn a_comment_is_trivia(w: Seq<char>, c: Seq<char>)
    requires
        forall|i: int| 0 <= i < w.len() ==> white_space(#[trigger] w[i]),
        forall|i: int| 0 <= i < c.len() ==> #[trigger] c[i] != '\n',
    ensures
        trivia(w + seq![';'] + c),
{
    let all = w + seq![';'] + c;
    lemma_white_space_is_skipped(w, all, 0);
    lemma_last_line(c, all, w.len() as int);
    assert(all[w.len() as int] == ';');
    assert(!white_space(';'));
    assert(skip_trivia(all, w.len() as int) == skip_trivia(all, all.len() as int));
}

proof fn lemma_white_space_is_skipped(w: Seq<char>, all: Seq<char>, pos: int)
    requires
        0 <= pos <= w.len() <= all.len(),
        forall|i: int| 0 <= i < w.len() ==> white_space(#[trigger] w[i]) && all[i] == w[i],
    ensures
        skip_trivia(all, pos) == skip_trivia(all, w.len() as int),
    decreases w.len() - pos,
{
    if pos < w.len() {
        assert(white_space(w[pos]));
        lemma_white_space_is_skipped(w, all, pos + 1);
    }
}

proof fn lemma_last_line(c: Seq<char>, all: Seq<char>, pos: int)
    requires
        0 <= pos <= all.len(),
        all.len() >= c.len() + 1,
        forall|i: int| 0 <= i < c.len() ==> #[trigger] c[i] != '\n',
        forall|i: int|
            all.len() - c.len() <= i < all.len() ==> #[trigger] all[i] == c[i - all.len()
                + c.len()],
        all[all.len() - c.len() - 1] != '\n',
        pos >= all.len() - c.len() - 1,
    ensures
        line_end(all, pos) == all.len(),
    decreases all.len() - pos,
{
    if pos < all.len() {
        if pos >= all.len() - c.len() {
            assert(all[pos] == c[pos - all.len() + c.len()]);
        }
        assert(all[pos] != '\n');
        lemma_last_line(c, all, pos + 1);
    }
}

/// A comment line in front of a form and one behind it change nothing.
pub proof fn comments_around_a_form_change_nothing(w: Seq<char>, c: Seq<char>, src: Seq<char>)
    requires
        forall|i: int| 0 <= i < w.len() ==> white_space(#[trigger] w[i]),
        forall|i: int| 0 <= i < c.len() ==> #[trigger] c[i] != '\n',
        document(src) is Ok,
    ensures
        document(w + ";"@ + c + "\n"@ + src + "\n"@ + w + ";"@ + c) == document(src),
{
    let line = w + seq![';'] + c;
    a_comment_is_trivia(w, c);
    trivia_around_a_form_changes_nothing(line, src, line);
    reveal_strlit(";");
    reveal_strlit("\n");
    assert(w + ";"@ + c + "\n"@ + src + "\n"@ + w + ";"@ + c =~= line + seq!['\n'] + src
        + seq!['\n'] + line);
}

// ---------------------------------------------------------------------------------------
// Streams of forms
// ---------------------------------------------------------------------------------------

proof fn lemma_documents_inside(src: Seq<char>, all: Seq<char>, n: int, pos: int)
    requires
        stands_at(src, all, n),
        0 <= pos <= src.len(),
        documents(src, pos) is Ok,
        documents(all, n + src.len()) is Ok,
    ensures
        documents(all, n + pos) == Ok::<Seq<Datum>, Fault>(
            documents(src, pos)->Ok_0 + documents(all, n + src.len())->Ok_0,
        ),
    decreases src.len() - pos,
{
    let rest = documents(all, n + src.len())->Ok_0;
    let p = skip_trivia(src, pos);
    lemma_skip_trivia(src, pos);
    lemma_trivia_inside(src, all, n, pos);
    if p < src.len() {
        lemma_form(src, p, 0);
        lemma_form_inside(src, all, n, p, 0);
        let (d, next) = form(src, p, 0)->Ok_0->Some_0;
        lemma_documents_inside(src, all, n, next);
        assert(documents(src, pos) == Ok::<Seq<Datum>, Fault>(
            seq![d] + documents(src, next)->Ok_0,
        ));
        assert(documents(all, n + pos) == Ok::<Seq<Datum>, Fault>(
            seq![d] + documents(all, n + next)->Ok_0,
        ));
        assert(seq![d] + (documents(src, next)->Ok_0 + rest) =~= seq![d] + documents(
            src,
            next,
        )->Ok_0 + rest);
    } else {
        assert(documents(src, pos) == Ok::<Seq<Datum>, Fault>(Seq::empty()));
        lemma_same_trivia_same_documents(all, n + pos, n + src.len());
        assert(Seq::<Datum>::empty() + rest =~= rest);
    }
}

/// A stream reads alike from two positions with nothing but trivia between them.
proof fn lemma_same_trivia_same_documents(all: Seq<char>, p: int, q: int)
    requires
        0 <= p <= all.len(),
        0 <= q <= all.len(),
        skip_trivia(all, p) == skip_trivia(all, q),
    ensures
        documents(all, p) == documents(all, q),
{
    lemma_skip_trivia(all, p);
    lemma_skip_trivia(all, q);
}

/// Two streams of forms may be joined by a line feed: what is read is what the first gives, then
/// what the second gives.
pub proof fn streams_may_be_joined(a: Seq<char>, b: Seq<char>)
    requires
        documents(a, 0) is Ok,
        documents(b, 0) is Ok,
    ensures
        documents(a + "\n"@ + b, 0) == Ok::<Seq<Datum>, Fault>(
            documents(a, 0)->Ok_0 + documents(b, 0)->Ok_0,
        ),
{
    reveal_strlit("\n");
    let all = a + "\n"@ + b;
    let n = a.len() as int + 1;
    assert(stands_at(a, all, 0));
    assert(stands_at(b, all, n));
    assert(documents(all, all.len() as int) == Ok::<Seq<Datum>, Fault>(Seq::empty()));
    lemma_documents_inside(b, all, n, 0);
    assert(documents(b, 0)->Ok_0 + Seq::<Datum>::empty() =~= documents(b, 0)->Ok_0);
    assert(all[n - 1] == '\n');
    assert(white_space('\n'));
    lemma_same_trivia_same_documents(all, n - 1, n);
    lemma_documents_inside(a, all, 0, 0);
}

} // verus!
