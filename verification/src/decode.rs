//! The decoder: a code graph to the datum it stands for.

use vstd::hash_map::StringHashMap;
use vstd::hash_set::StringHashSet;
use vstd::prelude::*;
use vstd::string::*;

use crate::codec_laws::{code_graph_decodes_to_its_datum, distinct_cells};
use crate::codegraph::{
    RDF_FIRST, RDF_NIL, RDF_REST, SEXPR_DOCUMENT, SX_ROOT, SX_SYMBOL, XSD_INTEGER, XSD_STRING,
    code_graph_text, code_term,
};
use crate::datum::{Datum, Fault, Sexpr, SexprResult, data, datum_result, lemma_data, parse_err};
use crate::encode::code_graph;
use crate::quads::{
    Item, Object, Subject, Triple, TurtleItem, item_models, read_items, turtle_items,
};
use crate::roundtrip::nests_within;
use crate::text::{chars_of, join2, join3, numeral, read_numeral, same_text};

verus! {

/// How deep a code graph is decoded. A deeper one is refused.
pub const MAX_DECODE_DEPTH: usize = 4096;

// ---------------------------------------------------------------------------------------
// What a graph says of its cells
// ---------------------------------------------------------------------------------------

/// What the head, the tail or the root of a code graph points at.
pub enum RdfTerm<T> {
    Iri(T),
    Literal { value: T, datatype: T },
}

impl View for RdfTerm<String> {
    type V = RdfTerm<Seq<char>>;

    open spec fn view(&self) -> RdfTerm<Seq<char>> {
        match self {
            RdfTerm::Iri(s) => RdfTerm::Iri(s@),
            RdfTerm::Literal { value, datatype } => RdfTerm::Literal {
                value: value@,
                datatype: datatype@,
            },
        }
    }
}

/// What a graph says of its cells: their heads, their tails, and the root.
pub struct Links {
    pub firsts: Map<Seq<char>, RdfTerm<Seq<char>>>,
    pub rests: Map<Seq<char>, RdfTerm<Seq<char>>>,
    pub root: Option<RdfTerm<Seq<char>>>,
}

/// Before anything was said.
pub open spec fn no_links() -> Links {
    Links { firsts: Map::empty(), rests: Map::empty(), root: None }
}

/// An object as the head, the tail or the root of a code graph.
pub open spec fn term_of(o: Object<Seq<char>>) -> Result<RdfTerm<Seq<char>>, Fault> {
    match o {
        Object::Iri(s) => Ok(RdfTerm::Iri(s)),
        Object::Literal { value, datatype } => Ok(RdfTerm::Literal { value, datatype }),
        Object::Other => Err(
            Fault::Parse("unsupported RDF term (blank node or quoted triple) in a code-graph"@),
        ),
    }
}

/// What a graph says with one item more. A later statement on a cell replaces an earlier one.
pub open spec fn with_item(g: Links, item: Item) -> Result<Links, Fault> {
    match item {
        Item::Fault(m) => Err(Fault::Parse("turtle parse error: "@ + m)),
        Item::Triple(t) => match t.subject {
            Subject::Blank => Ok(g),
            Subject::Iri(s) => if t.predicate == RDF_FIRST@ {
                match term_of(t.object) {
                    Ok(x) => Ok(Links { firsts: g.firsts.insert(s, x), ..g }),
                    Err(e) => Err(e),
                }
            } else if t.predicate == RDF_REST@ {
                match term_of(t.object) {
                    Ok(x) => Ok(Links { rests: g.rests.insert(s, x), ..g }),
                    Err(e) => Err(e),
                }
            } else if t.predicate == SX_ROOT@ && s == SEXPR_DOCUMENT@ {
                match term_of(t.object) {
                    Ok(x) => Ok(Links { root: Some(x), ..g }),
                    Err(e) => Err(e),
                }
            } else {
                Ok(g)
            },
        },
    }
}

/// What the items of a document say, up to the first fault.
pub open spec fn links_of(items: Seq<Item>) -> Result<Links, Fault>
    decreases items.len(),
{
    if items.len() == 0 {
        Ok(no_links())
    } else {
        match links_of(items.drop_last()) {
            Err(e) => Err(e),
            Ok(g) => with_item(g, items.last()),
        }
    }
}

// ---------------------------------------------------------------------------------------
// What a graph stands for
// ---------------------------------------------------------------------------------------

/// The atom that a literal stands for.
pub open spec fn atom_of(value: Seq<char>, datatype: Seq<char>) -> Result<Datum, Fault> {
    if datatype == SX_SYMBOL@ {
        Ok(Datum::Symbol(value))
    } else if datatype == XSD_STRING@ {
        Ok(Datum::Str(value))
    } else if datatype == XSD_INTEGER@ {
        match numeral(value) {
            Some(n) => Ok(Datum::Int(n)),
            None => Err(
                Fault::Parse("`"@ + value + "` is not a valid xsd:integer for an Int atom"@),
            ),
        }
    } else {
        Err(
            Fault::Parse(
                "unknown atom datatype `"@ + datatype
                    + "` (expected sx:symbol, xsd:string, or xsd:integer)"@,
            ),
        )
    }
}

/// How many cells of a graph were not visited yet.
pub open spec fn unvisited(g: Links, visited: Set<Seq<char>>) -> nat {
    g.firsts.dom().difference(visited).len()
}

/// Visiting a cell leaves one fewer.
pub proof fn lemma_visit_one(g: Links, visited: Set<Seq<char>>, cur: Seq<char>)
    requires
        g.firsts.dom().finite(),
        g.firsts.dom().contains(cur),
        !visited.contains(cur),
    ensures
        unvisited(g, visited.insert(cur)) < unvisited(g, visited),
{
    let before = g.firsts.dom().difference(visited);
    let after = g.firsts.dom().difference(visited.insert(cur));
    assert(after =~= before.remove(cur));
}

/// The datum that a term of a graph stands for, with `room` for lists inside lists.
pub open spec fn decode_term(g: Links, t: RdfTerm<Seq<char>>, room: nat) -> Result<Datum, Fault>
    decreases room, 0nat, 0nat,
    when g.firsts.dom().finite()
{
    if room == 0 {
        Err(Fault::Parse("code-graph nests deeper than the decode limit"@))
    } else {
        match t {
            RdfTerm::Literal { value, datatype } => atom_of(value, datatype),
            RdfTerm::Iri(_) => match decode_chain(g, t, Set::empty(), (room - 1) as nat) {
                Ok(ds) => Ok(Datum::List(ds)),
                Err(e) => Err(e),
            },
        }
    }
}

/// The items of the list that a link leads to, with `room` for lists inside its items, when the
/// cells before it were `visited`.
pub open spec fn decode_chain(
    g: Links,
    link: RdfTerm<Seq<char>>,
    visited: Set<Seq<char>>,
    room: nat,
) -> Result<Seq<Datum>, Fault>
    decreases room, 1nat, unvisited(g, visited),
    when g.firsts.dom().finite()
{
    match link {
        RdfTerm::Literal { .. } => Err(
            Fault::Parse("rdf:rest must be a node IRI or rdf:nil, not a literal"@),
        ),
        RdfTerm::Iri(cur) => if cur == RDF_NIL@ {
            Ok(Seq::empty())
        } else if visited.contains(cur) {
            Err(Fault::Parse("cyclic rdf:rest chain at <"@ + cur + "> in code-graph"@))
        } else if !g.firsts.contains_key(cur) {
            Err(Fault::Parse("cons node <"@ + cur + "> has no rdf:first"@))
        } else if !g.rests.contains_key(cur) {
            Err(Fault::Parse("cons node <"@ + cur + "> has no rdf:rest"@))
        } else {
            proof {
                lemma_visit_one(g, visited, cur);
            }
            match decode_term(g, g.firsts[cur], room) {
                Err(e) => Err(e),
                Ok(d) => match decode_chain(g, g.rests[cur], visited.insert(cur), room) {
                    Err(e) => Err(e),
                    Ok(ds) => Ok(seq![d] + ds),
                },
            }
        },
    }
}

/// The datum that the items of a document stand for.
pub open spec fn decoded(items: Seq<Item>) -> Result<Datum, Fault> {
    match links_of(items) {
        Err(e) => Err(e),
        Ok(g) => match g.root {
            None => Err(
                Fault::Parse(
                    "no `<urn:sexpr:document> sx:root …` triple — not an s-expression code-graph"@,
                ),
            ),
            Some(t) => decode_term(g, t, (MAX_DECODE_DEPTH + 1) as nat),
        },
    }
}

/// What a graph says is finite.
pub proof fn lemma_links_are_finite(items: Seq<Item>)
    ensures
        links_of(items) matches Ok(g) ==> g.firsts.dom().finite(),
    decreases items.len(),
{
    if items.len() > 0 {
        lemma_links_are_finite(items.drop_last());
        if let Ok(g) = links_of(items) {
            let before = links_of(items.drop_last())->Ok_0;
            if let Item::Triple(t) = items.last() {
                if let Subject::Iri(s) = t.subject {
                    if let Ok(x) = term_of(t.object) {
                        assert(before.firsts.insert(s, x).dom() =~= before.firsts.dom().insert(s));
                    }
                }
            }
        }
    }
}

// ---------------------------------------------------------------------------------------
// Collecting what a graph says
// ---------------------------------------------------------------------------------------

/// What a graph says of its cells, as tables.
struct Tables {
    firsts: StringHashMap<RdfTerm<String>>,
    rests: StringHashMap<RdfTerm<String>>,
    root: Option<RdfTerm<String>>,
}

/// The terms of a table.
spec fn terms(m: Map<Seq<char>, RdfTerm<String>>) -> Map<Seq<char>, RdfTerm<Seq<char>>> {
    Map::new(|k: Seq<char>| m.contains_key(k), |k: Seq<char>| m[k]@)
}

spec fn optional_term(t: Option<RdfTerm<String>>) -> Option<RdfTerm<Seq<char>>> {
    match t {
        Some(t) => Some(t@),
        None => None,
    }
}

impl Tables {
    spec fn model(self) -> Links {
        Links {
            firsts: terms(self.firsts@),
            rests: terms(self.rests@),
            root: optional_term(self.root),
        }
    }
}

/// Projects an object into a term of a code graph.
fn project(o: &Object<String>) -> (r: SexprResult<RdfTerm<String>>)
    ensures
        forall|t: Triple<String>|
            t.object == *o ==> match (term_of(#[trigger] t@.object), r) {
                (Ok(x), Ok(y)) => x == y@,
                (Err(f), Err(e)) => f == e@,
                _ => false,
            },
{
    match o {
        Object::Iri(s) => Ok(RdfTerm::Iri(s.clone())),
        Object::Literal { value, datatype } => Ok(
            RdfTerm::Literal { value: value.clone(), datatype: datatype.clone() },
        ),
        Object::Other => Err(
            parse_err("unsupported RDF term (blank node or quoted triple) in a code-graph"),
        ),
    }
}

proof fn lemma_terms_insert(m: Map<Seq<char>, RdfTerm<String>>, k: Seq<char>, v: RdfTerm<String>)
    ensures
        terms(m.insert(k, v)) == terms(m).insert(k, v@),
{
    assert(terms(m.insert(k, v)) =~= terms(m).insert(k, v@));
}

/// Enters one triple into the tables. Triples that say nothing of a cell or of the root are
/// passed over.
fn enter(tables: &mut Tables, t: &Triple<String>) -> (r: SexprResult<()>)
    ensures
        match (with_item(old(tables).model(), Item::Triple(t@)), r) {
            (Ok(g), Ok(())) => g == final(tables).model(),
            (Err(f), Err(e)) => f == e@,
            _ => false,
        },
{
    let subject = match &t.subject {
        Subject::Iri(s) => s,
        Subject::Blank => {
            return Ok(());
        },
    };
    let predicate = t.predicate.as_str();
    if same_text(predicate, RDF_FIRST) {
        match project(&t.object) {
            Ok(x) => {
                proof {
                    lemma_terms_insert(tables.firsts@, subject@, x);
                }
                tables.firsts.insert(subject.clone(), x);
                Ok(())
            },
            Err(e) => Err(e),
        }
    } else if same_text(predicate, RDF_REST) {
        match project(&t.object) {
            Ok(x) => {
                proof {
                    lemma_terms_insert(tables.rests@, subject@, x);
                }
                tables.rests.insert(subject.clone(), x);
                Ok(())
            },
            Err(e) => Err(e),
        }
    } else if same_text(predicate, SX_ROOT) && same_text(subject.as_str(), SEXPR_DOCUMENT) {
        match project(&t.object) {
            Ok(x) => {
                tables.root = Some(x);
                Ok(())
            },
            Err(e) => Err(e),
        }
    } else {
        Ok(())
    }
}

proof fn lemma_links_fault(items: Seq<Item>, i: int)
    requires
        0 <= i <= items.len(),
        links_of(items.take(i)) is Err,
    ensures
        links_of(items) == links_of(items.take(i)),
    decreases items.len() - i,
{
    if i == items.len() {
        assert(items.take(i) =~= items);
    } else {
        assert(items.take(i + 1).drop_last() =~= items.take(i));
        lemma_links_fault(items, i + 1);
    }
}

/// Collects what the items of a document say.
fn collect(items: &Vec<TurtleItem>) -> (r: SexprResult<Tables>)
    ensures
        match (links_of(item_models(items@)), r) {
            (Ok(g), Ok(tables)) => g == tables.model(),
            (Err(f), Err(e)) => f == e@,
            _ => false,
        },
{
    let ghost models = item_models(items@);
    let mut tables = Tables {
        firsts: StringHashMap::new(),
        rests: StringHashMap::new(),
        root: None,
    };
    proof {
        assert(terms(tables.firsts@) =~= Map::<Seq<char>, RdfTerm<Seq<char>>>::empty());
        assert(terms(tables.rests@) =~= Map::<Seq<char>, RdfTerm<Seq<char>>>::empty());
    }
    let mut i: usize = 0;
    while i < items.len()
        invariant
            i <= items.len(),
            models == item_models(items@),
            links_of(models.take(i as int)) == Ok::<Links, Fault>(tables.model()),
        decreases items.len() - i,
    {
        proof {
            assert(models.take(i + 1).drop_last() =~= models.take(i as int));
            assert(models[i as int] == items@[i as int]@);
        }
        match &items[i] {
            TurtleItem::Fault(m) => {
                proof {
                    lemma_links_fault(models, i + 1);
                }
                return Err(parse_err(join2("turtle parse error: ", m.as_str()).as_str()));
            },
            TurtleItem::Triple(t) => {
                if let Err(e) = enter(&mut tables, t) {
                    proof {
                        lemma_links_fault(models, i + 1);
                    }
                    return Err(e);
                }
            },
        }
        i = i + 1;
    }
    assert(models.take(models.len() as int) =~= models);
    Ok(tables)
}

// ---------------------------------------------------------------------------------------
// Decoding
// ---------------------------------------------------------------------------------------

/// Decodes a literal into the atom that its datatype names.
fn decode_atom(value: &str, datatype: &str) -> (r: SexprResult<Sexpr>)
    ensures
        datum_result(r) == atom_of(value@, datatype@),
{
    if same_text(datatype, SX_SYMBOL) {
        Ok(Sexpr::Symbol(String::from_str(value)))
    } else if same_text(datatype, XSD_STRING) {
        Ok(Sexpr::Str(String::from_str(value)))
    } else if same_text(datatype, XSD_INTEGER) {
        let chars = chars_of(value);
        assert(chars@.subrange(0, chars@.len() as int) =~= value@);
        match read_numeral(&chars, 0, chars.len()) {
            Some(n) => Ok(Sexpr::Int(n)),
            None => Err(
                parse_err(
                    join3("`", value, "` is not a valid xsd:integer for an Int atom").as_str(),
                ),
            ),
        }
    } else {
        Err(
            parse_err(
                join3(
                    "unknown atom datatype `",
                    datatype,
                    "` (expected sx:symbol, xsd:string, or xsd:integer)",
                ).as_str(),
            ),
        )
    }
}

/// A list that is being decoded: the items decoded so far, the cells visited, and the link to
/// what is still to come.
struct Chain {
    done: Vec<Sexpr>,
    visited: StringHashSet,
    link: RdfTerm<String>,
}

/// The mathematical model of a [`Chain`].
struct ChainModel {
    done: Seq<Datum>,
    visited: Set<Seq<char>>,
    link: RdfTerm<Seq<char>>,
}

impl Chain {
    spec fn model(self) -> ChainModel {
        ChainModel { done: data(self.done@), visited: self.visited@, link: self.link@ }
    }
}

spec fn chain_models(chains: Seq<Chain>) -> Seq<ChainModel> {
    chains.map_values(|c: Chain| c.model())
}

/// The room for lists inside the items of the innermost of `open` lists.
spec fn room_inside(open: nat) -> nat {
    if open <= MAX_DECODE_DEPTH {
        (MAX_DECODE_DEPTH + 1 - open) as nat
    } else {
        0
    }
}

/// What decoding on with the open lists gives, the innermost of them last.
spec fn finish(g: Links, chains: Seq<ChainModel>) -> Result<Datum, Fault>
    decreases chains.len(),
{
    let top = chains.last();
    match decode_chain(g, top.link, top.visited, room_inside(chains.len())) {
        Err(e) => Err(e),
        Ok(ds) => {
            let list = Datum::List(top.done + ds);
            if chains.len() <= 1 {
                Ok(list)
            } else {
                finish(g, with_done(chains.drop_last(), list))
            }
        },
    }
}

/// One item more in the innermost of the open lists.
spec fn with_done(chains: Seq<ChainModel>, d: Datum) -> Seq<ChainModel> {
    let top = chains.last();
    chains.drop_last().push(ChainModel { done: top.done.push(d), ..top })
}

/// How many cells and ends are passed in decoding a term.
spec fn term_steps(g: Links, t: RdfTerm<Seq<char>>, room: nat) -> nat
    decreases room, 0nat, 0nat,
    when g.firsts.dom().finite()
{
    if room == 0 || t is Literal {
        0
    } else {
        chain_steps(g, t, Set::empty(), (room - 1) as nat)
    }
}

/// How many cells and ends are passed in decoding a list.
spec fn chain_steps(
    g: Links,
    link: RdfTerm<Seq<char>>,
    visited: Set<Seq<char>>,
    room: nat,
) -> nat
    decreases room, 1nat, unvisited(g, visited),
    when g.firsts.dom().finite()
{
    match link {
        RdfTerm::Literal { .. } => 1,
        RdfTerm::Iri(cur) => if cur == RDF_NIL@ || visited.contains(cur) || !g.firsts.contains_key(
            cur,
        ) || !g.rests.contains_key(cur) {
            1
        } else {
            proof {
                lemma_visit_one(g, visited, cur);
            }
            1 + term_steps(g, g.firsts[cur], room) + chain_steps(
                g,
                g.rests[cur],
                visited.insert(cur),
                room,
            )
        },
    }
}

/// How many cells and ends are passed in decoding on with the open lists.
spec fn all_steps(g: Links, chains: Seq<ChainModel>) -> nat
    decreases chains.len(),
{
    if chains.len() == 0 {
        0
    } else {
        let top = chains.last();
        all_steps(g, chains.drop_last()) + chain_steps(
            g,
            top.link,
            top.visited,
            room_inside(chains.len()),
        )
    }
}

/// Copies a term.
fn copy_term(t: &RdfTerm<String>) -> (copy: RdfTerm<String>)
    ensures
        copy@ == t@,
{
    match t {
        RdfTerm::Iri(s) => RdfTerm::Iri(s.clone()),
        RdfTerm::Literal { value, datatype } => RdfTerm::Literal {
            value: value.clone(),
            datatype: datatype.clone(),
        },
    }
}

/// Decodes the list that starts at a node. The cons chains are followed in a loop, with the
/// open lists on a stack of its own, so that neither a long nor a deep graph can exhaust the
/// call stack. A cell without head or tail, a literal tail or a cycle is an error.
fn decode_list(head: &RdfTerm<String>, tables: &Tables) -> (r: SexprResult<Sexpr>)
    requires
        tables.model().firsts.dom().finite(),
        head@ is Iri,
    ensures
        datum_result(r) == decode_term(
            tables.model(),
            head@,
            (MAX_DECODE_DEPTH + 1) as nat,
        ),
{
    let ghost g = tables.model();
    let ghost goal = decode_term(g, head@, (MAX_DECODE_DEPTH + 1) as nat);
    let mut below: Vec<Chain> = Vec::new();
    let mut top = Chain {
        done: Vec::new(),
        visited: StringHashSet::new(),
        link: copy_term(head),
    };
    proof {
        lemma_data(top.done@);
        let frames = chain_models(below@).push(top.model());
        assert(frames.len() == 1 && frames.last() == top.model());
        assert(frames.drop_last() =~= Seq::<ChainModel>::empty());
        if let Ok(ds) = decode_chain(g, head@, Set::empty(), MAX_DECODE_DEPTH as nat) {
            assert(data(top.done@) + ds =~= ds);
        }
        assert(finish(g, frames) == goal);
    }
    loop
        invariant
            g == tables.model(),
            g.firsts.dom().finite(),
            below.len() <= MAX_DECODE_DEPTH,
            finish(g, chain_models(below@).push(top.model())) == goal,
            goal == decode_term(g, head@, (MAX_DECODE_DEPTH + 1) as nat),
        decreases all_steps(g, chain_models(below@).push(top.model())),
    {
        let ghost outer = chain_models(below@);
        let ghost this = top.model();
        let ghost frames = outer.push(this);
        let ghost room = room_inside(frames.len());
        proof {
            assert(frames.drop_last() =~= outer);
            assert(frames.last() == this);
        }
        let cur = match &top.link {
            RdfTerm::Literal { .. } => {
                return Err(
                    parse_err("rdf:rest must be a node IRI or rdf:nil, not a literal"),
                );
            },
            RdfTerm::Iri(cur) => cur.clone(),
        };
        if same_text(cur.as_str(), RDF_NIL) {
            let list = Sexpr::List(top.done);
            assert(this.done + Seq::<Datum>::empty() =~= this.done);
            let ghost closed = list;
            match below.pop() {
                None => {
                    return Ok(list);
                },
                Some(next) => {
                    let mut next = next;
                    let ghost was = next.model();
                    proof {
                        assert(outer.last() == was);
                        assert(chain_models(below@) =~= outer.drop_last());
                        lemma_done_push(next.done@, closed);
                    }
                    next.done.push(list);
                    top = next;
                    proof {
                        let after = chain_models(below@).push(top.model());
                        assert(after =~= with_done(outer, closed@));
                        assert(after.drop_last() =~= outer.drop_last());
                        assert(after.last().link == was.link && after.last().visited
                            == was.visited);
                        assert(all_steps(g, after) == all_steps(g, outer));
                        assert(chain_steps(g, this.link, this.visited, room) == 1);
                        assert(all_steps(g, after) < all_steps(g, frames));
                    }
                },
            }
            continue ;
        }
        if top.visited.contains(cur.as_str()) {
            return Err(
                parse_err(
                    join3("cyclic rdf:rest chain at <", cur.as_str(), "> in code-graph").as_str(),
                ),
            );
        }
        let first = match tables.firsts.get(cur.as_str()) {
            Some(first) => first,
            None => {
                return Err(
                    parse_err(join3("cons node <", cur.as_str(), "> has no rdf:first").as_str()),
                );
            },
        };
        let rest = match tables.rests.get(cur.as_str()) {
            Some(rest) => rest,
            None => {
                return Err(
                    parse_err(join3("cons node <", cur.as_str(), "> has no rdf:rest").as_str()),
                );
            },
        };
        proof {
            assert(g.firsts[cur@] == first@);
            assert(g.rests[cur@] == rest@);
        }
        if below.len() >= MAX_DECODE_DEPTH {
            assert(decode_term(g, first@, room) is Err);
            return Err(parse_err("code-graph nests deeper than the decode limit"));
        }
        top.link = copy_term(rest);
        top.visited.insert(cur);
        let ghost onward = top.model();
        match first {
            RdfTerm::Literal { value, datatype } => match decode_atom(
                value.as_str(),
                datatype.as_str(),
            ) {
                Ok(d) => {
                    let ghost item = d;
                    proof {
                        lemma_done_push(top.done@, item);
                        lemma_step_over(g, outer, this, onward, item@);
                    }
                    top.done.push(d);
                    proof {
                        assert(outer.push(top.model()) =~= with_done(outer.push(onward), item@));
                    }
                },
                Err(e) => {
                    return Err(e);
                },
            },
            RdfTerm::Iri(_) => {
                let inner = Chain {
                    done: Vec::new(),
                    visited: StringHashSet::new(),
                    link: copy_term(first),
                };
                proof {
                    lemma_data(inner.done@);
                    assert(inner.model().done =~= Seq::<Datum>::empty());
                    lemma_step_into(g, outer, this, onward, inner.model());
                }
                below.push(top);
                top = inner;
                proof {
                    assert(chain_models(below@) =~= outer.push(onward));
                }
            },
        }
    }
}

proof fn lemma_done_push(done: Seq<Sexpr>, x: Sexpr)
    ensures
        data(done.push(x)) == data(done).push(x@),
{
    lemma_data(done);
    lemma_data(done.push(x));
    assert(data(done.push(x)) =~= data(done).push(x@));
}

/// Decoding an atom in the innermost list and going on with its tail.
proof fn lemma_step_over(
    g: Links,
    outer: Seq<ChainModel>,
    this: ChainModel,
    onward: ChainModel,
    d: Datum,
)
    requires
        g.firsts.dom().finite(),
        outer.len() < MAX_DECODE_DEPTH,
        this.link matches RdfTerm::Iri(cur) && {
            &&& cur != RDF_NIL@
            &&& !this.visited.contains(cur)
            &&& g.firsts.contains_key(cur)
            &&& g.rests.contains_key(cur)
            &&& g.firsts[cur] is Literal
            &&& decode_term(g, g.firsts[cur], room_inside(outer.len() + 1)) == Ok::<Datum, Fault>(
                d,
            )
            &&& onward == ChainModel {
                done: this.done,
                visited: this.visited.insert(cur),
                link: g.rests[cur],
            }
        },
    ensures
        finish(g, with_done(outer.push(onward), d)) == finish(g, outer.push(this)),
        all_steps(g, with_done(outer.push(onward), d)) < all_steps(g, outer.push(this)),
{
    let before = outer.push(this);
    let after = with_done(outer.push(onward), d);
    assert(outer.push(onward).drop_last() =~= outer);
    assert(before.drop_last() =~= outer);
    assert(after.drop_last() =~= outer);
    assert(after.last() == ChainModel { done: this.done.push(d), ..onward });
    let room = room_inside(before.len());
    if let Ok(ds) = decode_chain(g, onward.link, onward.visited, room) {
        assert(this.done + (seq![d] + ds) =~= this.done.push(d) + ds);
    }
}

/// Opening a list that is an item of the innermost list.
proof fn lemma_step_into(
    g: Links,
    outer: Seq<ChainModel>,
    this: ChainModel,
    onward: ChainModel,
    inner: ChainModel,
)
    requires
        g.firsts.dom().finite(),
        outer.len() < MAX_DECODE_DEPTH,
        this.link matches RdfTerm::Iri(cur) && {
            &&& cur != RDF_NIL@
            &&& !this.visited.contains(cur)
            &&& g.firsts.contains_key(cur)
            &&& g.rests.contains_key(cur)
            &&& g.firsts[cur] is Iri
            &&& onward == ChainModel {
                done: this.done,
                visited: this.visited.insert(cur),
                link: g.rests[cur],
            }
            &&& inner == ChainModel {
                done: Seq::empty(),
                visited: Set::empty(),
                link: g.firsts[cur],
            }
        },
    ensures
        finish(g, outer.push(onward).push(inner)) == finish(g, outer.push(this)),
        all_steps(g, outer.push(onward).push(inner)) < all_steps(g, outer.push(this)),
{
    let cur = this.link->Iri_0;
    let before = outer.push(this);
    let middle = outer.push(onward);
    let after = middle.push(inner);
    assert(before.drop_last() =~= outer);
    assert(middle.drop_last() =~= outer);
    assert(after.drop_last() =~= middle);
    let room = room_inside(before.len());
    assert(room_inside(after.len()) == room - 1);
    assert(term_steps(g, g.firsts[cur], room) == chain_steps(
        g,
        inner.link,
        inner.visited,
        (room - 1) as nat,
    ));
    assert(all_steps(g, middle) == all_steps(g, outer) + chain_steps(
        g,
        onward.link,
        onward.visited,
        room,
    ));
    match decode_chain(g, inner.link, inner.visited, (room - 1) as nat) {
        Err(e) => {
            assert(decode_term(g, g.firsts[cur], room) == Err::<Datum, Fault>(e));
            assert(decode_chain(g, this.link, this.visited, room) == Err::<Seq<Datum>, Fault>(e));
        },
        Ok(ds) => {
            let d = Datum::List(ds);
            assert(inner.done + ds =~= ds);
            assert(decode_term(g, g.firsts[cur], room) == Ok::<Datum, Fault>(d));
            let resumed = with_done(middle, d);
            assert(resumed.drop_last() =~= outer);
            assert(resumed.last() == ChainModel { done: this.done.push(d), ..onward });
            assert(finish(g, after) == finish(g, resumed));
            match decode_chain(g, onward.link, onward.visited, room) {
                Err(e) => {
                    assert(decode_chain(g, this.link, this.visited, room) == Err::<
                        Seq<Datum>,
                        Fault,
                    >(e));
                },
                Ok(more) => {
                    assert(decode_chain(g, this.link, this.visited, room) == Ok::<
                        Seq<Datum>,
                        Fault,
                    >(seq![d] + more));
                    assert(this.done + (seq![d] + more) =~= this.done.push(d) + more);
                },
            }
        },
    }
}

/// Decodes the items of a document into the datum they stand for. Triples that are no part of
/// the code graph are passed over, so that a code graph can stand in a larger graph.
pub fn decode_items(items: &Vec<TurtleItem>) -> (r: SexprResult<Sexpr>)
    ensures
        datum_result(r) == decoded(item_models(items@)),
{
    let tables = match collect(items) {
        Ok(tables) => tables,
        Err(e) => {
            return Err(e);
        },
    };
    proof {
        lemma_links_are_finite(item_models(items@));
    }
    match &tables.root {
        None => Err(
            parse_err(
                "no `<urn:sexpr:document> sx:root …` triple — not an s-expression code-graph",
            ),
        ),
        Some(root) => match root {
            RdfTerm::Literal { value, datatype } => decode_atom(
                value.as_str(),
                datatype.as_str(),
            ),
            RdfTerm::Iri(_) => decode_list(root, &tables),
        },
    }
}

/// Decodes a code graph, or any Turtle document in the same shape, into the datum it stands
/// for. Whatever is malformed is an error. The code graph of a datum decodes to that datum, if
/// the datum nests no deeper than the decode limit and its different cells have different IRIs.
pub fn rdf_to_sexpr(turtle: &str) -> (r: SexprResult<Sexpr>)
    ensures
        datum_result(r) == decoded(turtle_items(turtle@)),
        forall|d: Datum|
            turtle@ == #[trigger] code_graph(d) && nests_within(d, MAX_DECODE_DEPTH as int)
                && distinct_cells(d) ==> datum_result(r) == Ok::<Datum, Fault>(d),
{
    let items = read_items(turtle);
    proof {
        assert forall|d: Datum|
            turtle@ == #[trigger] code_graph(d) && nests_within(d, MAX_DECODE_DEPTH as int)
                && distinct_cells(d) implies decoded(item_models(items@)) == Ok::<Datum, Fault>(
            d,
        ) by {
            let ss = code_graph_decodes_to_its_datum(d);
            assert(turtle@ == code_graph_text(code_term(d), ss));
        }
    }
    decode_items(&items)
}

} // verus!
