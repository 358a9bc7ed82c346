//! What a graph stands for, told triple by triple: a graph decodes to a datum if and only if its
//! triples say that datum, in whatever order they stand.

use vstd::prelude::*;

use crate::codegraph::{
    RDF_FIRST, RDF_NIL, RDF_REST, SEXPR_DOCUMENT, SX_ROOT, SX_SYMBOL, XSD_INTEGER, XSD_STRING,
};
use crate::datum::{Datum, Fault};
use crate::decode::{
    Links, MAX_DECODE_DEPTH, RdfTerm, atom_of, decode_chain, decode_term, decoded,
    lemma_links_are_finite, lemma_visit_one, links_of, with_item,
};
use crate::quads::{Item, Object, Subject, Triple};
use crate::text::numeral;

verus! {

// ---------------------------------------------------------------------------------------
// What triples say
// ---------------------------------------------------------------------------------------

/// Whether an item is a triple with the given subject and predicate.
pub open spec fn speaks_of(item: Item, subject: Seq<char>, predicate: Seq<char>) -> bool {
    item matches Item::Triple(t) && t.subject == Subject::Iri(subject) && t.predicate == predicate
}

/// Whether the `i`-th item is the last triple with the given subject and predicate, and has the
/// given object.
pub open spec fn says_at(
    items: Seq<Item>,
    subject: Seq<char>,
    predicate: Seq<char>,
    o: Object<Seq<char>>,
    i: int,
) -> bool {
    &&& 0 <= i < items.len()
    &&& speaks_of(items[i], subject, predicate)
    &&& items[i]->Triple_0.object == o
    &&& forall|j: int| i < j < items.len() ==> !speaks_of(#[trigger] items[j], subject, predicate)
}

/// Whether the last triple with the given subject and predicate has the given object.
pub open spec fn says(
    items: Seq<Item>,
    subject: Seq<char>,
    predicate: Seq<char>,
    o: Object<Seq<char>>,
) -> bool {
    exists|i: int| #[trigger] says_at(items, subject, predicate, o, i)
}

/// The object of the last triple with the given subject and predicate.
pub open spec fn said(items: Seq<Item>, subject: Seq<char>, predicate: Seq<char>) -> Object<
    Seq<char>,
> {
    choose|o: Object<Seq<char>>| says(items, subject, predicate, o)
}

/// Whether an object stands for a datum: a literal of `sx:symbol` for the symbol of its text, one
/// of `xsd:string` for the string of its text, one of `xsd:integer` for the number that its
/// numeral stands for, and an IRI for the list that its chain of cells spells out.
pub open spec fn stands_for(items: Seq<Item>, o: Object<Seq<char>>, d: Datum) -> bool
    decreases d, 0int,
{
    match d {
        Datum::Symbol(s) => o == (Object::Literal {
            value: s,
            datatype: "https://ikigai-rs.dev/ns/sexpr#symbol"@,
        }),
        Datum::Str(s) => o == (Object::Literal {
            value: s,
            datatype: "http://www.w3.org/2001/XMLSchema#string"@,
        }),
        Datum::Int(n) => match o {
            Object::Literal { value, datatype } => numeral(value) == Some(n) && datatype
                == "http://www.w3.org/2001/XMLSchema#integer"@,
            _ => false,
        },
        Datum::List(ds) => spells(items, o, ds),
    }
}

/// Whether an object is the start of a chain of cells that spells out a list: `rdf:nil` for the
/// empty list, and else a cell whose `rdf:first` stands for the first item and whose `rdf:rest`
/// spells out the others.
pub open spec fn spells(items: Seq<Item>, o: Object<Seq<char>>, ds: Seq<Datum>) -> bool
    decreases ds, 1int,
{
    match o {
        Object::Iri(cell) => if ds.len() == 0 {
            cell == "http://www.w3.org/1999/02/22-rdf-syntax-ns#nil"@
        } else {
            let first = "http://www.w3.org/1999/02/22-rdf-syntax-ns#first"@;
            let rest = "http://www.w3.org/1999/02/22-rdf-syntax-ns#rest"@;
            &&& cell != "http://www.w3.org/1999/02/22-rdf-syntax-ns#nil"@
            &&& says(items, cell, first, said(items, cell, first))
            &&& stands_for(items, said(items, cell, first), ds[0])
            &&& says(items, cell, rest, said(items, cell, rest))
            &&& spells(items, said(items, cell, rest), ds.drop_first())
        },
        _ => false,
    }
}

/// Whether no more than so many data of a datum stand in one another.
pub open spec fn decodes_within(d: Datum, room: int) -> bool
    decreases d,
{
    &&& room > 0
    &&& d matches Datum::List(ds) ==> forall|i: int|
        0 <= i < ds.len() ==> decodes_within(#[trigger] ds[i], room - 1)
}

/// Whether an item is one that no code graph has: a fault, or a triple on the head or the tail of
/// a cell, or on the root, whose object is neither an IRI nor a literal.
pub open spec fn is_amiss(item: Item) -> bool {
    match item {
        Item::Fault(_) => true,
        Item::Triple(t) => {
            &&& t.object is Other
            &&& t.subject matches Subject::Iri(s) && (t.predicate
                == "http://www.w3.org/1999/02/22-rdf-syntax-ns#first"@ || t.predicate
                == "http://www.w3.org/1999/02/22-rdf-syntax-ns#rest"@ || (t.predicate
                == "https://ikigai-rs.dev/ns/sexpr#root"@ && s == "urn:sexpr:document"@))
        },
    }
}

/// Whether the triples of a graph say a datum: nothing is amiss, the object of the last
/// `<urn:sexpr:document> sx:root` triple stands for the datum, wherever that triple stands, and
/// the datum nests no deeper than a graph is decoded.
pub open spec fn says_datum(items: Seq<Item>, d: Datum) -> bool {
    &&& forall|i: int| 0 <= i < items.len() ==> !is_amiss(#[trigger] items[i])
    &&& says(
        items,
        "urn:sexpr:document"@,
        "https://ikigai-rs.dev/ns/sexpr#root"@,
        said(items, "urn:sexpr:document"@, "https://ikigai-rs.dev/ns/sexpr#root"@),
    )
    &&& stands_for(
        items,
        said(items, "urn:sexpr:document"@, "https://ikigai-rs.dev/ns/sexpr#root"@),
        d,
    )
    &&& decodes_within(d, 4097)
}

// ---------------------------------------------------------------------------------------
// Links
// ---------------------------------------------------------------------------------------

proof fn lemma_predicates()
    ensures
        RDF_FIRST@ != RDF_REST@,
        RDF_FIRST@ != SX_ROOT@,
        RDF_REST@ != SX_ROOT@,
{
    reveal_strlit("http://www.w3.org/1999/02/22-rdf-syntax-ns#first");
    reveal_strlit("http://www.w3.org/1999/02/22-rdf-syntax-ns#rest");
    reveal_strlit("https://ikigai-rs.dev/ns/sexpr#root");
    assert(RDF_FIRST@.len() != RDF_REST@.len());
    assert(RDF_FIRST@.len() != SX_ROOT@.len());
    assert(RDF_REST@.len() != SX_ROOT@.len());
}

proof fn lemma_nothing_amiss(items: Seq<Item>)
    ensures
        links_of(items) is Ok <==> forall|i: int| 0 <= i < items.len() ==> !is_amiss(
            #[trigger] items[i],
        ),
    decreases items.len(),
{
    if items.len() > 0 {
        let before = items.drop_last();
        let last = items[items.len() - 1];
        lemma_nothing_amiss(before);
        lemma_predicates();
        if links_of(items) is Ok {
            assert forall|i: int| 0 <= i < items.len() implies !is_amiss(#[trigger] items[i]) by {
                if i < before.len() {
                    assert(before[i] == items[i]);
                } else {
                    assert(with_item(links_of(before)->Ok_0, last) is Ok);
                }
            }
        }
        if forall|i: int| 0 <= i < items.len() ==> !is_amiss(#[trigger] items[i]) {
            assert forall|i: int| 0 <= i < before.len() implies !is_amiss(#[trigger] before[i]) by {
                assert(before[i] == items[i]);
            }
            assert(!is_amiss(last));
            assert(with_item(links_of(before)->Ok_0, last) is Ok);
        }
    }
}

/// A term as an object.
spec fn object_of_term(t: RdfTerm<Seq<char>>) -> Object<Seq<char>> {
    match t {
        RdfTerm::Iri(s) => Object::Iri(s),
        RdfTerm::Literal { value, datatype } => Object::Literal { value, datatype },
    }
}

/// One item more.
proof fn lemma_says_push(
    items: Seq<Item>,
    subject: Seq<char>,
    predicate: Seq<char>,
    o: Object<Seq<char>>,
)
    requires
        items.len() > 0,
    ensures
        speaks_of(items.last(), subject, predicate) ==> (says(items, subject, predicate, o) <==> o
            == items.last()->Triple_0.object),
        !speaks_of(items.last(), subject, predicate) ==> (says(items, subject, predicate, o)
            <==> says(items.drop_last(), subject, predicate, o)),
{
    let before = items.drop_last();
    let n = items.len() - 1;
    if speaks_of(items.last(), subject, predicate) {
        if o == items.last()->Triple_0.object {
            assert(says_at(items, subject, predicate, o, n));
        }
        if says(items, subject, predicate, o) {
            let i = choose|i: int| #[trigger] says_at(items, subject, predicate, o, i);
            if i < n {
                assert(!speaks_of(items[n], subject, predicate));
            }
        }
    } else {
        if says(items, subject, predicate, o) {
            let i = choose|i: int| #[trigger] says_at(items, subject, predicate, o, i);
            assert(i < n);
            assert(before[i] == items[i]);
            assert forall|j: int| i < j < before.len() implies !speaks_of(
                #[trigger] before[j],
                subject,
                predicate,
            ) by {
                assert(before[j] == items[j]);
            }
            assert(says_at(before, subject, predicate, o, i));
        }
        if says(before, subject, predicate, o) {
            let i = choose|i: int| #[trigger] says_at(before, subject, predicate, o, i);
            assert(before[i] == items[i]);
            assert forall|j: int| i < j < items.len() implies !speaks_of(
                #[trigger] items[j],
                subject,
                predicate,
            ) by {
                if j < n {
                    assert(before[j] == items[j]);
                }
            }
            assert(says_at(items, subject, predicate, o, i));
        }
    }
}

/// There is one last triple.
proof fn lemma_one_is_said(
    items: Seq<Item>,
    subject: Seq<char>,
    predicate: Seq<char>,
    o: Object<Seq<char>>,
)
    requires
        says(items, subject, predicate, o),
    ensures
        said(items, subject, predicate) == o,
{
    let q = said(items, subject, predicate);
    let i = choose|i: int| #[trigger] says_at(items, subject, predicate, o, i);
    let j = choose|j: int| #[trigger] says_at(items, subject, predicate, q, j);
    if i < j {
        assert(!speaks_of(items[j], subject, predicate));
    } else if j < i {
        assert(!speaks_of(items[i], subject, predicate));
    }
}

proof fn lemma_links_say(items: Seq<Item>, cell: Seq<char>, o: Object<Seq<char>>)
    requires
        links_of(items) is Ok,
    ensures
        says(items, cell, RDF_FIRST@, o) <==> links_of(items)->Ok_0.firsts.contains_key(cell)
            && object_of_term(links_of(items)->Ok_0.firsts[cell]) == o,
        says(items, cell, RDF_REST@, o) <==> links_of(items)->Ok_0.rests.contains_key(cell)
            && object_of_term(links_of(items)->Ok_0.rests[cell]) == o,
        says(items, SEXPR_DOCUMENT@, SX_ROOT@, o) <==> links_of(items)->Ok_0.root is Some
            && object_of_term(links_of(items)->Ok_0.root->Some_0) == o,
    decreases items.len(),
{
    lemma_predicates();
    if items.len() > 0 {
        let before = items.drop_last();
        lemma_links_say(before, cell, o);
        lemma_says_push(items, cell, RDF_FIRST@, o);
        lemma_says_push(items, cell, RDF_REST@, o);
        lemma_says_push(items, SEXPR_DOCUMENT@, SX_ROOT@, o);
        assert(with_item(links_of(before)->Ok_0, items.last()) is Ok);
    }
}

// ---------------------------------------------------------------------------------------
// Decoding
// ---------------------------------------------------------------------------------------

proof fn lemma_atom(value: Seq<char>, datatype: Seq<char>, items: Seq<Item>, d: Datum)
    ensures
        atom_of(value, datatype) == Ok::<Datum, Fault>(d) <==> !(d is List) && stands_for(
            items,
            Object::Literal { value, datatype },
            d,
        ),
{
    reveal_strlit("https://ikigai-rs.dev/ns/sexpr#symbol");
    reveal_strlit("http://www.w3.org/2001/XMLSchema#string");
    reveal_strlit("http://www.w3.org/2001/XMLSchema#integer");
    assert(SX_SYMBOL@[4] == 's' && XSD_STRING@[4] == ':' && XSD_INTEGER@[4] == ':');
    assert(XSD_STRING@.len() != XSD_INTEGER@.len());
}

/// What is decoded is what the triples say.
proof fn lemma_term_says(items: Seq<Item>, g: Links, t: RdfTerm<Seq<char>>, d: Datum, room: nat)
    requires
        links_of(items) == Ok::<Links, Fault>(g),
        decode_term(g, t, room) == Ok::<Datum, Fault>(d),
    ensures
        stands_for(items, object_of_term(t), d),
        decodes_within(d, room as int),
    decreases d, 0int,
{
    lemma_links_are_finite(items);
    match t {
        RdfTerm::Literal { value, datatype } => {
            lemma_atom(value, datatype, items, d);
        },
        RdfTerm::Iri(_) => {
            lemma_chain_says(items, g, t, d->List_0, Set::empty(), (room - 1) as nat);
        },
    }
}

proof fn lemma_chain_says(
    items: Seq<Item>,
    g: Links,
    link: RdfTerm<Seq<char>>,
    ds: Seq<Datum>,
    visited: Set<Seq<char>>,
    room: nat,
)
    requires
        links_of(items) == Ok::<Links, Fault>(g),
        decode_chain(g, link, visited, room) == Ok::<Seq<Datum>, Fault>(ds),
    ensures
        spells(items, object_of_term(link), ds),
        forall|i: int| 0 <= i < ds.len() ==> decodes_within(#[trigger] ds[i], room as int),
    decreases ds, 1int,
{
    lemma_links_are_finite(items);
    let cur = link->Iri_0;
    if cur != RDF_NIL@ {
        lemma_visit_one(g, visited, cur);
        let first = g.firsts[cur];
        let rest = g.rests[cur];
        let more = decode_chain(g, rest, visited.insert(cur), room)->Ok_0;
        let d = decode_term(g, first, room)->Ok_0;
        assert(ds == seq![d] + more);
        assert(ds.drop_first() =~= more);
        assert(ds[0] == d);
        lemma_term_says(items, g, first, ds[0], room);
        lemma_chain_says(items, g, rest, ds.drop_first(), visited.insert(cur), room);
        lemma_links_say(items, cur, object_of_term(first));
        lemma_links_say(items, cur, object_of_term(rest));
        assert forall|i: int| 0 <= i < ds.len() implies decodes_within(
            #[trigger] ds[i],
            room as int,
        ) by {
            if i > 0 {
                assert(ds[i] == ds.drop_first()[i - 1]);
            }
        }
        lemma_one_is_said(items, cur, RDF_FIRST@, object_of_term(first));
        lemma_one_is_said(items, cur, RDF_REST@, object_of_term(rest));
    }
}

/// A chain of cells has one length.
proof fn lemma_chain_has_one_length(
    items: Seq<Item>,
    o: Object<Seq<char>>,
    ds: Seq<Datum>,
    es: Seq<Datum>,
)
    requires
        links_of(items) is Ok,
        spells(items, o, ds),
        spells(items, o, es),
    ensures
        ds.len() == es.len(),
    decreases ds.len(),
{
    if ds.len() > 0 && es.len() > 0 {
        let cell = o->Iri_0;
        let r = said(items, cell, RDF_REST@);
        let q = said(items, cell, RDF_REST@);
        lemma_links_say(items, cell, r);
        lemma_links_say(items, cell, q);
        lemma_chain_has_one_length(items, r, ds.drop_first(), es.drop_first());
    }
}

/// What the triples say is decoded.
proof fn lemma_term_is_decoded(
    items: Seq<Item>,
    g: Links,
    t: RdfTerm<Seq<char>>,
    d: Datum,
    room: nat,
)
    requires
        links_of(items) == Ok::<Links, Fault>(g),
        stands_for(items, object_of_term(t), d),
        decodes_within(d, room as int),
    ensures
        decode_term(g, t, room) == Ok::<Datum, Fault>(d),
    decreases d, 0int,
{
    lemma_links_are_finite(items);
    match t {
        RdfTerm::Literal { value, datatype } => {
            lemma_atom(value, datatype, items, d);
        },
        RdfTerm::Iri(_) => {
            let ds = d->List_0;
            lemma_chain_is_decoded(items, g, t, ds, Set::empty(), (room - 1) as nat);
        },
    }
}

/// Whether every visited cell starts a chain that is longer than so much.
spec fn longer(items: Seq<Item>, visited: Set<Seq<char>>, n: nat) -> bool {
    forall|v: Seq<char>| #[trigger]
        visited.contains(v) ==> exists|es: Seq<Datum>| #[trigger]
            spells(items, Object::Iri(v), es) && es.len() > n
}

proof fn lemma_chain_is_decoded(
    items: Seq<Item>,
    g: Links,
    link: RdfTerm<Seq<char>>,
    ds: Seq<Datum>,
    visited: Set<Seq<char>>,
    room: nat,
)
    requires
        links_of(items) == Ok::<Links, Fault>(g),
        spells(items, object_of_term(link), ds),
        forall|i: int| 0 <= i < ds.len() ==> decodes_within(#[trigger] ds[i], room as int),
        longer(items, visited, ds.len()),
    ensures
        decode_chain(g, link, visited, room) == Ok::<Seq<Datum>, Fault>(ds),
    decreases ds, 1int,
{
    lemma_links_are_finite(items);
    let cur = link->Iri_0;
    if ds.len() == 0 {
        assert(ds =~= Seq::<Datum>::empty());
    } else {
        let rest_ds = ds.drop_first();
        if visited.contains(cur) {
            let es = choose|es: Seq<Datum>| #[trigger]
                spells(items, Object::Iri(cur), es) && es.len() > ds.len();
            lemma_chain_has_one_length(items, Object::Iri(cur), ds, es);
        }
        let f = said(items, cur, RDF_FIRST@);
        let r = said(items, cur, RDF_REST@);
        lemma_links_say(items, cur, f);
        lemma_links_say(items, cur, r);
        assert(decodes_within(ds[0], room as int));
        lemma_term_is_decoded(items, g, g.firsts[cur], ds[0], room);
        assert(longer(items, visited.insert(cur), rest_ds.len())) by {
            assert forall|v: Seq<char>| #[trigger] visited.insert(cur).contains(v) implies exists|
                es: Seq<Datum>,
            | #[trigger] spells(items, Object::Iri(v), es) && es.len() > rest_ds.len() by {
                if v == cur {
                    assert(spells(items, Object::Iri(v), ds));
                } else {
                    assert(visited.contains(v));
                }
            }
        }
        assert forall|i: int| 0 <= i < rest_ds.len() implies decodes_within(
            #[trigger] rest_ds[i],
            room as int,
        ) by {
            assert(rest_ds[i] == ds[i + 1]);
        }
        lemma_chain_is_decoded(items, g, g.rests[cur], rest_ds, visited.insert(cur), room);
        lemma_visit_one(g, visited, cur);
        assert(seq![ds[0]] + rest_ds =~= ds);
    }
}

// ---------------------------------------------------------------------------------------
// The law
// ---------------------------------------------------------------------------------------

/// A graph decodes to a datum if and only if its triples say that datum: the order in which they
/// stand matters only where two of them say different things of one cell or of the root, and
/// then the last one counts.
pub proof fn a_graph_decodes_to_what_it_says(items: Seq<Item>, d: Datum)
    ensures
        decoded(items) == Ok::<Datum, Fault>(d) <==> says_datum(items, d),
{
    lemma_nothing_amiss(items);
    if links_of(items) is Ok {
        let g = links_of(items)->Ok_0;
        if decoded(items) == Ok::<Datum, Fault>(d) {
            let t = g.root->Some_0;
            lemma_term_says(items, g, t, d, (MAX_DECODE_DEPTH + 1) as nat);
            lemma_links_say(items, SEXPR_DOCUMENT@, object_of_term(t));
            lemma_one_is_said(items, SEXPR_DOCUMENT@, SX_ROOT@, object_of_term(t));
        }
        if says_datum(items, d) {
            let o = said(items, SEXPR_DOCUMENT@, SX_ROOT@);
            lemma_links_say(items, SEXPR_DOCUMENT@, o);
            lemma_term_is_decoded(items, g, g.root->Some_0, d, (MAX_DECODE_DEPTH + 1) as nat);
        }
    }
}

/// The order of the triples of a graph does not matter: where no two of them speak of the same
/// side of one cell or of the root, any other row of the same items decodes to the same datum.
pub proof fn the_order_of_triples_does_not_matter(a: Seq<Item>, b: Seq<Item>, d: Datum)
    requires
        a.to_multiset() == b.to_multiset(),
        forall|i: int, j: int, s: Seq<char>, p: Seq<char>|
            0 <= i < a.len() && 0 <= j < a.len() && #[trigger] speaks_of(a[i], s, p)
                && #[trigger] speaks_of(a[j], s, p) ==> i == j,
    ensures
        decoded(a) == Ok::<Datum, Fault>(d) ==> decoded(b) == Ok::<Datum, Fault>(d),
{
    a_graph_decodes_to_what_it_says(a, d);
    a_graph_decodes_to_what_it_says(b, d);
    if says_datum(a, d) {
        lemma_reordered(a, b);
        assert forall|i: int| 0 <= i < b.len() implies !is_amiss(#[trigger] b[i]) by {
            lemma_same_items(a, b, b[i]);
            let k = choose|k: int| 0 <= k < a.len() && a[k] == b[i];
            assert(!is_amiss(a[k]));
        }
        let o = said(a, "urn:sexpr:document"@, "https://ikigai-rs.dev/ns/sexpr#root"@);
        lemma_reordered_stands(a, b, o, d);
        lemma_one_is_said(b, "urn:sexpr:document"@, "https://ikigai-rs.dev/ns/sexpr#root"@, o);
    }
}

proof fn lemma_same_items(a: Seq<Item>, b: Seq<Item>, item: Item)
    requires
        a.to_multiset() == b.to_multiset(),
    ensures
        a.contains(item) <==> b.contains(item),
{
    broadcast use vstd::seq_lib::group_to_multiset_ensures;

    assert(a.contains(item) <==> a.to_multiset().count(item) > 0);
    assert(b.contains(item) <==> b.to_multiset().count(item) > 0);
}

/// Whether whatever one row of items says, another says too.
spec fn says_as_much(a: Seq<Item>, b: Seq<Item>) -> bool {
    forall|s: Seq<char>, p: Seq<char>, o: Object<Seq<char>>|
        says(a, s, p, o) ==> #[trigger] says(b, s, p, o)
}

proof fn lemma_reordered(a: Seq<Item>, b: Seq<Item>)
    requires
        a.to_multiset() == b.to_multiset(),
        forall|i: int, j: int, s: Seq<char>, p: Seq<char>|
            0 <= i < a.len() && 0 <= j < a.len() && #[trigger] speaks_of(a[i], s, p)
                && #[trigger] speaks_of(a[j], s, p) ==> i == j,
    ensures
        says_as_much(a, b),
{
    assert forall|s: Seq<char>, p: Seq<char>, o: Object<Seq<char>>| says(a, s, p, o) implies
        #[trigger] says(b, s, p, o) by {
        let i = choose|i: int| #[trigger] says_at(a, s, p, o, i);
        lemma_same_items(a, b, a[i]);
        assert(a.contains(a[i]));
        let k = choose|k: int| 0 <= k < b.len() && b[k] == a[i];
        let last = lemma_last_that_speaks(b, s, p, k);
        lemma_same_items(a, b, b[last]);
        assert(b.contains(b[last]));
        let m = choose|m: int| 0 <= m < a.len() && a[m] == b[last];
        assert(speaks_of(a[m], s, p) && speaks_of(a[i], s, p));
        assert(says_at(b, s, p, o, last));
    }
}

proof fn lemma_last_that_speaks(b: Seq<Item>, s: Seq<char>, p: Seq<char>, k: int) -> (last: int)
    requires
        0 <= k < b.len(),
        speaks_of(b[k], s, p),
    ensures
        k <= last < b.len(),
        speaks_of(b[last], s, p),
        forall|j: int| last < j < b.len() ==> !speaks_of(#[trigger] b[j], s, p),
    decreases b.len() - k,
{
    if exists|j: int| k < j < b.len() && speaks_of(#[trigger] b[j], s, p) {
        let j = choose|j: int| k < j < b.len() && speaks_of(#[trigger] b[j], s, p);
        lemma_last_that_speaks(b, s, p, j)
    } else {
        k
    }
}

proof fn lemma_reordered_stands(a: Seq<Item>, b: Seq<Item>, o: Object<Seq<char>>, d: Datum)
    requires
        says_as_much(a, b),
        stands_for(a, o, d),
    ensures
        stands_for(b, o, d),
    decreases d, 0int,
{
    if let Datum::List(ds) = d {
        lemma_reordered_spells(a, b, o, ds);
    }
}

proof fn lemma_reordered_spells(a: Seq<Item>, b: Seq<Item>, o: Object<Seq<char>>, ds: Seq<Datum>)
    requires
        says_as_much(a, b),
        spells(a, o, ds),
    ensures
        spells(b, o, ds),
    decreases ds, 1int,
{
    if ds.len() > 0 {
        let cell = o->Iri_0;
        let (pf, pr) = (
            "http://www.w3.org/1999/02/22-rdf-syntax-ns#first"@,
            "http://www.w3.org/1999/02/22-rdf-syntax-ns#rest"@,
        );
        let f = said(a, cell, pf);
        let r = said(a, cell, pr);
        lemma_reordered_stands(a, b, f, ds[0]);
        lemma_reordered_spells(a, b, r, ds.drop_first());
        lemma_one_is_said(b, cell, pf, f);
        lemma_one_is_said(b, cell, pr, r);
    }
}

// ---------------------------------------------------------------------------------------
// What is told of other graphs
// ---------------------------------------------------------------------------------------

/// The first item that no code graph has is told, whatever stands behind it: a fault of the
/// document by what the parser says, and a triple by its object.
pub proof fn the_first_item_amiss_is_told(items: Seq<Item>, j: int)
    requires
        0 <= j < items.len(),
        forall|i: int| 0 <= i < j ==> !is_amiss(#[trigger] items[i]),
        is_amiss(items[j]),
    ensures
        items[j] matches Item::Fault(m) ==> decoded(items) == Err::<Datum, Fault>(
            Fault::Parse("turtle parse error: "@ + m),
        ),
        items[j] is Triple ==> decoded(items) == Err::<Datum, Fault>(
            Fault::Parse("unsupported RDF term (blank node or quoted triple) in a code-graph"@),
        ),
{
    let before = items.take(j);
    assert forall|i: int| 0 <= i < before.len() implies !is_amiss(#[trigger] before[i]) by {
        assert(before[i] == items[i]);
    }
    lemma_nothing_amiss(before);
    let upto = items.take(j + 1);
    assert(upto.drop_last() =~= before);
    assert(upto.last() == items[j]);
    lemma_predicates();
    assert(links_of(upto) is Err);
    lemma_fault_stays(items, j + 1);
}

proof fn lemma_fault_stays(items: Seq<Item>, i: int)
    requires
        0 <= i <= items.len(),
        links_of(items.take(i)) is Err,
    ensures
        links_of(items) == links_of(items.take(i)),
    decreases items.len() - i,
{
    if i == items.len() {
        assert(items.take(i) =~= items);
    } else {
        assert(items.take(i + 1).drop_last() =~= items.take(i));
        lemma_fault_stays(items, i + 1);
    }
}

/// A graph without a root is told so.
pub proof fn a_graph_without_a_root_is_refused(items: Seq<Item>)
    requires
        forall|i: int| 0 <= i < items.len() ==> !is_amiss(#[trigger] items[i]),
        forall|i: int|
            0 <= i < items.len() ==> !speaks_of(
                #[trigger] items[i],
                "urn:sexpr:document"@,
                "https://ikigai-rs.dev/ns/sexpr#root"@,
            ),
    ensures
        decoded(items) == Err::<Datum, Fault>(
            Fault::Parse(
                "no `<urn:sexpr:document> sx:root …` triple — not an s-expression code-graph"@,
            ),
        ),
{
    lemma_nothing_amiss(items);
    let g = links_of(items)->Ok_0;
    if g.root is Some {
        let o = object_of_term(g.root->Some_0);
        lemma_links_say(items, SEXPR_DOCUMENT@, o);
        let i = choose|i: int| #[trigger] says_at(items, SEXPR_DOCUMENT@, SX_ROOT@, o, i);
        assert(speaks_of(items[i], SEXPR_DOCUMENT@, SX_ROOT@));
    }
}

/// The way to what is wrong with an object: it is wrong itself, or it is a list, and the way leads
/// along some of its cells, and from there on.
pub enum Trail {
    Here,
    Along(Seq<Seq<char>>, Box<Trail>),
}

/// Whether something is said with the given subject and predicate.
pub open spec fn is_said(items: Seq<Item>, subject: Seq<char>, predicate: Seq<char>) -> bool {
    says(items, subject, predicate, said(items, subject, predicate))
}

/// Whether an object stands for some datum that does not nest too deep.
pub open spec fn stands_for_some(items: Seq<Item>, o: Object<Seq<char>>, room: int) -> bool {
    exists|d: Datum| #[trigger] stands_for(items, o, d) && decodes_within(d, room)
}

/// Where a chain of cells leads on from its first `i` cells.
pub open spec fn link_behind(
    items: Seq<Item>,
    o: Object<Seq<char>>,
    cells: Seq<Seq<char>>,
    i: int,
) -> Object<Seq<char>> {
    if i <= 0 {
        o
    } else {
        said(items, cells[i - 1], "http://www.w3.org/1999/02/22-rdf-syntax-ns#rest"@)
    }
}

/// Whether a chain of cells leads from an object along the given cells, no two of them the same,
/// each with a head that stands for a datum.
pub open spec fn leads_along(
    items: Seq<Item>,
    o: Object<Seq<char>>,
    cells: Seq<Seq<char>>,
    room: int,
) -> bool {
    let first = "http://www.w3.org/1999/02/22-rdf-syntax-ns#first"@;
    let rest = "http://www.w3.org/1999/02/22-rdf-syntax-ns#rest"@;
    &&& cells.no_duplicates()
    &&& forall|i: int|
        0 <= i < cells.len() ==> {
            &&& #[trigger] link_behind(items, o, cells, i) == Object::Iri(cells[i])
            &&& cells[i] != "http://www.w3.org/1999/02/22-rdf-syntax-ns#nil"@
            &&& is_said(items, cells[i], first)
            &&& is_said(items, cells[i], rest)
            &&& stands_for_some(items, said(items, cells[i], first), room)
        }
}

/// Whether a literal is no atom, and what is wrong with it.
pub open spec fn is_no_atom(value: Seq<char>, datatype: Seq<char>, m: Seq<char>) -> bool {
    ||| datatype == "http://www.w3.org/2001/XMLSchema#integer"@ && numeral(value) is None && m
        == "`"@ + value + "` is not a valid xsd:integer for an Int atom"@
    ||| datatype != "http://www.w3.org/2001/XMLSchema#integer"@ && datatype
        != "http://www.w3.org/2001/XMLSchema#string"@ && datatype
        != "https://ikigai-rs.dev/ns/sexpr#symbol"@ && m == "unknown atom datatype `"@ + datatype
        + "` (expected sx:symbol, xsd:string, or xsd:integer)"@
}

/// Whether an object stands for no datum, and what is wrong at the end of the given trail: it
/// nests too deep, a literal is no atom, a chain ends in a literal, comes back to a cell, or
/// comes to a cell without a head or a tail.
pub open spec fn fails(
    items: Seq<Item>,
    o: Object<Seq<char>>,
    trail: Trail,
    room: int,
    m: Seq<char>,
) -> bool
    decreases trail,
{
    let first = "http://www.w3.org/1999/02/22-rdf-syntax-ns#first"@;
    let rest = "http://www.w3.org/1999/02/22-rdf-syntax-ns#rest"@;
    match trail {
        Trail::Here => {
            ||| room == 0 && m == "code-graph nests deeper than the decode limit"@
            ||| room > 0 && (o matches Object::Literal { value, datatype } && is_no_atom(
                value,
                datatype,
                m,
            ))
        },
        Trail::Along(cells, inner) => room > 0 && o is Iri && leads_along(items, o, cells, room - 1)
            && match link_behind(items, o, cells, cells.len() as int) {
            Object::Literal { .. } => m == "rdf:rest must be a node IRI or rdf:nil, not a literal"@,
            Object::Iri(c) => c != "http://www.w3.org/1999/02/22-rdf-syntax-ns#nil"@ && (
            if cells.contains(c) {
                m == "cyclic rdf:rest chain at <"@ + c + "> in code-graph"@
            } else if !is_said(items, c, first) {
                m == "cons node <"@ + c + "> has no rdf:first"@
            } else if !is_said(items, c, rest) {
                m == "cons node <"@ + c + "> has no rdf:rest"@
            } else {
                fails(items, said(items, c, first), *inner, room - 1, m)
            }),
            Object::Other => false,
        },
    }
}

proof fn lemma_is_said(items: Seq<Item>, cell: Seq<char>)
    requires
        links_of(items) is Ok,
    ensures
        is_said(items, cell, RDF_FIRST@) <==> links_of(items)->Ok_0.firsts.contains_key(cell),
        is_said(items, cell, RDF_FIRST@) ==> said(items, cell, RDF_FIRST@) == object_of_term(
            links_of(items)->Ok_0.firsts[cell],
        ),
        is_said(items, cell, RDF_REST@) <==> links_of(items)->Ok_0.rests.contains_key(cell),
        is_said(items, cell, RDF_REST@) ==> said(items, cell, RDF_REST@) == object_of_term(
            links_of(items)->Ok_0.rests[cell],
        ),
{
    let g = links_of(items)->Ok_0;
    lemma_links_say(items, cell, said(items, cell, RDF_FIRST@));
    lemma_links_say(items, cell, said(items, cell, RDF_REST@));
    if g.firsts.contains_key(cell) {
        lemma_links_say(items, cell, object_of_term(g.firsts[cell]));
        lemma_one_is_said(items, cell, RDF_FIRST@, object_of_term(g.firsts[cell]));
    }
    if g.rests.contains_key(cell) {
        lemma_links_say(items, cell, object_of_term(g.rests[cell]));
        lemma_one_is_said(items, cell, RDF_REST@, object_of_term(g.rests[cell]));
    }
}

proof fn lemma_no_atom(value: Seq<char>, datatype: Seq<char>, m: Seq<char>)
    requires
        is_no_atom(value, datatype, m),
    ensures
        atom_of(value, datatype) == Err::<Datum, Fault>(Fault::Parse(m)),
{
    reveal_strlit("https://ikigai-rs.dev/ns/sexpr#symbol");
    reveal_strlit("http://www.w3.org/2001/XMLSchema#string");
    reveal_strlit("http://www.w3.org/2001/XMLSchema#integer");
    assert(SX_SYMBOL@[4] == 's' && XSD_STRING@[4] == ':' && XSD_INTEGER@[4] == ':');
    assert(XSD_STRING@.len() != XSD_INTEGER@.len());
}

proof fn lemma_term_fails(
    items: Seq<Item>,
    g: Links,
    t: RdfTerm<Seq<char>>,
    trail: Trail,
    room: nat,
    m: Seq<char>,
)
    requires
        links_of(items) == Ok::<Links, Fault>(g),
        fails(items, object_of_term(t), trail, room as int, m),
    ensures
        decode_term(g, t, room) == Err::<Datum, Fault>(Fault::Parse(m)),
    decreases trail, 1int, 0int,
{
    lemma_links_are_finite(items);
    match trail {
        Trail::Here => {
            if room > 0 {
                let o = object_of_term(t);
                lemma_no_atom(o->value, o->datatype, m);
            }
        },
        Trail::Along(cells, inner) => {
            assert(cells.take(0).to_set() =~= Set::<Seq<char>>::empty());
            lemma_chain_fails(items, g, t, t, trail, (room - 1) as nat, m, 0);
        },
    }
}

proof fn lemma_chain_fails(
    items: Seq<Item>,
    g: Links,
    t: RdfTerm<Seq<char>>,
    link: RdfTerm<Seq<char>>,
    trail: Trail,
    room: nat,
    m: Seq<char>,
    i: int,
)
    requires
        links_of(items) == Ok::<Links, Fault>(g),
        trail is Along,
        fails(items, object_of_term(t), trail, room as int + 1, m),
        0 <= i <= trail->Along_0.len(),
        object_of_term(link) == link_behind(items, object_of_term(t), trail->Along_0, i),
    ensures
        decode_chain(g, link, trail->Along_0.take(i).to_set(), room) == Err::<Seq<Datum>, Fault>(
            Fault::Parse(m),
        ),
    decreases trail, 0int, trail->Along_0.len() - i,
{
    lemma_links_are_finite(items);
    let cells = trail->Along_0;
    let visited = cells.take(i).to_set();
    if i < cells.len() {
        let cur = cells[i];
        lemma_is_said(items, cur);
        let first = g.firsts[cur];
        let rest = g.rests[cur];
        let d = choose|d: Datum| #[trigger]
            stands_for(items, object_of_term(first), d) && decodes_within(d, room as int);
        assert(stands_for_some(items, object_of_term(first), room as int));
        lemma_term_is_decoded(items, g, first, d, room);
        assert(!visited.contains(cur)) by {
            if cells.take(i).contains(cur) {
                let k = choose|k: int| 0 <= k < cells.take(i).len() && cells.take(i)[k] == cur;
                assert(cells[k] == cells[i]);
            }
        }
        assert(cells.take(i + 1).to_set() =~= visited.insert(cur)) by {
            let next = cells.take(i + 1);
            assert forall|v: Seq<char>| next.contains(v) <==> (cells.take(i).contains(v) || v
                == cur) by {
                if next.contains(v) {
                    let k = choose|k: int| 0 <= k < next.len() && next[k] == v;
                    if k < i {
                        assert(cells.take(i)[k] == v);
                    }
                }
                if cells.take(i).contains(v) {
                    let k = choose|k: int| 0 <= k < cells.take(i).len() && cells.take(i)[k] == v;
                    assert(next[k] == v);
                }
                assert(next[i] == cur);
            }
        }
        lemma_chain_fails(items, g, t, rest, trail, room, m, i + 1);
        lemma_visit_one(g, visited, cur);
    } else {
        assert(cells.take(i) =~= cells);
        if let RdfTerm::Iri(c) = link {
            lemma_is_said(items, c);
            if !cells.contains(c) && g.firsts.contains_key(c) && g.rests.contains_key(c) {
                lemma_term_fails(items, g, g.firsts[c], *trail->Along_1, room, m);
                lemma_visit_one(g, visited, c);
            }
        }
    }
}

/// Where nothing is amiss in a graph and its root fails, what is wrong is told: what stands at the
/// end of the trail.
pub proof fn a_graph_that_fails_is_refused(items: Seq<Item>, trail: Trail, m: Seq<char>)
    requires
        forall|i: int| 0 <= i < items.len() ==> !is_amiss(#[trigger] items[i]),
        is_said(items, "urn:sexpr:document"@, "https://ikigai-rs.dev/ns/sexpr#root"@),
        fails(
            items,
            said(items, "urn:sexpr:document"@, "https://ikigai-rs.dev/ns/sexpr#root"@),
            trail,
            4097,
            m,
        ),
    ensures
        decoded(items) == Err::<Datum, Fault>(Fault::Parse(m)),
{
    lemma_nothing_amiss(items);
    let g = links_of(items)->Ok_0;
    lemma_links_say(items, SEXPR_DOCUMENT@, said(items, SEXPR_DOCUMENT@, SX_ROOT@));
    lemma_term_fails(items, g, g.root->Some_0, trail, (MAX_DECODE_DEPTH + 1) as nat, m);
}

} // verus!
