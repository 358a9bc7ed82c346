//! The s-expression datum, its mathematical model, and the errors of the pure layers.

use vstd::prelude::*;
use vstd::string::*;

verus! {

/// A neutral s-expression datum. The reader produces it, the printer prints it, and the
/// compilers consume it. Symbols carry `?var`, `pfx:local`, `a`, `*` and every other bare
/// token.
#[derive(Debug, PartialEq)]
pub enum Sexpr {
    /// A bare symbol: `select`, `where`, `?s`, `rdf:type`, `a`, `*`, ...
    Symbol(String),
    /// A string literal: its decoded contents, without the quotes.
    Str(String),
    /// An integer literal.
    Int(i64),
    /// A parenthesized list of forms.
    List(Vec<Sexpr>),
}

/// The mathematical model of a [`Sexpr`]: the same tree over sequences.
pub enum Datum {
    Symbol(Seq<char>),
    Str(Seq<char>),
    Int(i64),
    List(Seq<Datum>),
}

impl Sexpr {
    /// The tree that this value stands for.
    pub open spec fn datum(self) -> Datum
        decreases self,
    {
        match self {
            Sexpr::Symbol(s) => Datum::Symbol(s@),
            Sexpr::Str(s) => Datum::Str(s@),
            Sexpr::Int(n) => Datum::Int(n),
            Sexpr::List(items) => Datum::List(data(items@)),
        }
    }
}

/// The trees that a run of values stands for.
pub open spec fn data(items: Seq<Sexpr>) -> Seq<Datum>
    decreases items,
{
    Seq::new(
        items.len(),
        |i: int|
            if 0 <= i < items.len() {
                items[i].datum()
            } else {
                arbitrary()
            },
    )
}

impl View for Sexpr {
    type V = Datum;

    open spec fn view(&self) -> Datum {
        self.datum()
    }
}

/// The trees of a run of values, one by one.
pub proof fn lemma_data(items: Seq<Sexpr>)
    ensures
        data(items).len() == items.len(),
        forall|i: int| 0 <= i < items.len() ==> #[trigger] data(items)[i] == items[i]@,
{
}

/// A list is larger than each of its items.
pub proof fn lemma_item_is_smaller(s: Sexpr, i: int)
    requires
        s is List,
        0 <= i < s->List_0@.len(),
    ensures
        decreases_to!(s => s->List_0@[i]),
{
    assert(decreases_to!(s => s->List_0));
    assert(decreases_to!(s->List_0 => s->List_0@));
    assert(decreases_to!(s->List_0@ => s->List_0@[i]));
}

impl Clone for Sexpr {
    fn clone(&self) -> (copy: Self)
        ensures
            copy@ == self@,
        decreases *self,
    {
        match self {
            Sexpr::Symbol(s) => Sexpr::Symbol(s.clone()),
            Sexpr::Str(s) => Sexpr::Str(s.clone()),
            Sexpr::Int(n) => Sexpr::Int(*n),
            Sexpr::List(items) => {
                let mut copies: Vec<Sexpr> = Vec::new();
                let mut i: usize = 0;
                while i < items.len()
                    invariant
                        i <= items.len(),
                        *self == Sexpr::List(*items),
                        copies.len() == i,
                        forall|j: int| 0 <= j < i ==> #[trigger] copies@[j]@ == items@[j]@,
                    decreases items.len() - i,
                {
                    proof {
                        lemma_item_is_smaller(*self, i as int);
                    }
                    copies.push(items[i].clone());
                    i = i + 1;
                }
                proof {
                    lemma_data(copies@);
                    lemma_data(items@);
                    assert(data(copies@) =~= data(items@));
                }
                Sexpr::List(copies)
            },
        }
    }
}

/// An error of the pure layers: of the reader, of a compiler, or of the graph codec.
#[derive(Debug, PartialEq)]
pub enum SexprError {
    /// The input could not be read (e.g. unbalanced parens, or not a code graph).
    Parse(String),
    /// A well-formed s-expression is not a valid query or graph.
    Compile(String),
}

/// The mathematical model of a [`SexprError`].
pub enum Fault {
    Parse(Seq<char>),
    Compile(Seq<char>),
}

impl View for SexprError {
    type V = Fault;

    open spec fn view(&self) -> Fault {
        match self {
            SexprError::Parse(m) => Fault::Parse(m@),
            SexprError::Compile(m) => Fault::Compile(m@),
        }
    }
}

impl Fault {
    /// The detail that a fault carries.
    pub open spec fn detail(self) -> Seq<char> {
        match self {
            Fault::Parse(m) => m,
            Fault::Compile(m) => m,
        }
    }

    /// A fault as one line: the label of its layer, then its detail.
    pub open spec fn labelled(self) -> Seq<char> {
        match self {
            Fault::Parse(m) => "sexpr parse error: "@ + m,
            Fault::Compile(m) => "sparql-from-sexpr: "@ + m,
        }
    }
}

impl Clone for SexprError {
    fn clone(&self) -> (copy: Self)
        ensures
            copy@ == self@,
    {
        match self {
            SexprError::Parse(m) => SexprError::Parse(m.clone()),
            SexprError::Compile(m) => SexprError::Compile(m.clone()),
        }
    }
}

impl SexprError {
    /// The human-readable detail, without the label that [`SexprError::labelled`] puts in
    /// front of it.
    pub fn detail(&self) -> (detail: &str)
        ensures
            detail@ == self@.detail(),
    {
        match self {
            SexprError::Parse(m) => m.as_str(),
            SexprError::Compile(m) => m.as_str(),
        }
    }

    /// The error as one line: the label of its layer, then its detail.
    pub fn labelled(&self) -> (line: String)
        ensures
            line@ == self@.labelled(),
    {
        match self {
            SexprError::Parse(m) => String::from_str("sexpr parse error: ").concat(m.as_str()),
            SexprError::Compile(m) => String::from_str("sparql-from-sexpr: ").concat(m.as_str()),
        }
    }
}

/// The result type of the pure layers.
pub type SexprResult<T> = Result<T, SexprError>;

/// A reader's result over the mathematical models.
pub open spec fn datum_result(r: SexprResult<Sexpr>) -> Result<Datum, Fault> {
    match r {
        Ok(s) => Ok(s@),
        Err(e) => Err(e@),
    }
}

/// The result of reading a stream of forms, over the mathematical models.
pub open spec fn data_result(r: SexprResult<Vec<Sexpr>>) -> Result<Seq<Datum>, Fault> {
    match r {
        Ok(forms) => Ok(data(forms@)),
        Err(e) => Err(e@),
    }
}

/// A compiler's result over the mathematical models.
pub open spec fn text_result(r: SexprResult<String>) -> Result<Seq<char>, Fault> {
    match r {
        Ok(text) => Ok(text@),
        Err(e) => Err(e@),
    }
}

/// A parse error with the given detail.
pub(crate) fn parse_err(msg: &str) -> (e: SexprError)
    ensures
        e@ == Fault::Parse(msg@),
{
    SexprError::Parse(String::from_str(msg))
}

/// A compile error with the given detail.
pub(crate) fn compile_err(msg: &str) -> (e: SexprError)
    ensures
        e@ == Fault::Compile(msg@),
{
    SexprError::Compile(String::from_str(msg))
}

} // verus!
