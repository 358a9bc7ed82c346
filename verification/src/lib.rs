//! `ikigai_sexpr`: one s-expression datum for queries, graphs and code.
//!
//! - [`datum`]: [`Sexpr`], its model, and the errors of the pure layers; [`value_laws`] says how
//!   a value and its model go together.
//! - [`reader`] and [`printer`]: [`parse`], [`parse_all`] and [`write`]; [`layout_laws`] and
//!   [`printing_laws`] say which text stands for which datum, [`reading_laws`] and [`roundtrip`]
//!   what holds of the two together.
//! - [`sparql`] and [`turtle`]: the compilers [`sexpr_to_sparql`] and [`sexpr_to_turtle`] over
//!   the terms of [`terms`] and the graphs of [`rdfgraph`]; [`query_laws`] and [`graph_laws`] say
//!   what a query or a graph is made of, form by form, [`refusal_laws`] what is told of a form
//!   that is amiss, [`clause_laws`] and [`compile_laws`] what else holds of them.
//! - [`encode`] and [`decode`]: the lossless codec [`sexpr_to_rdf`] and [`rdf_to_sexpr`] over
//!   the graphs of [`codegraph`] and the hashes of [`digest`]; [`code_laws`] says what a code
//!   graph is made of, row by row, [`decode_laws`] what a graph stands for, triple by triple,
//!   [`codec_laws`] and [`row_laws`] what holds of the two together.
//! - [`endpoint`]: the four transreptors as functions of the documents they are handed;
//!   [`endpoint_laws`] says what each answers, word by word.
//! - [`word_laws`], [`number_laws`] and [`text_laws`]: which words are variables, names, labels
//!   and IRIs, which numerals stand for which numbers, and how texts are quoted and ordered.
//!
//! Every function states what it returns, for every input, and each statement is proved. What
//! is believed of other crates stands in [`digest`] (SHA-256), in [`quads`] (the Turtle parser)
//! and in [`text`] (`String::push`).

use vstd::prelude::*;

pub mod clause_laws;
pub mod code_laws;
pub mod code_rdf;
pub mod codec_laws;
pub mod codegraph;
pub mod compile_laws;
pub mod datum;
pub mod decode;
pub mod decode_laws;
pub mod digest;
pub mod encode;
pub mod endpoint;
pub mod endpoint_laws;
pub mod graph_laws;
pub mod layout_laws;
pub mod lines;
pub mod number_laws;
pub mod order;
pub mod printer;
pub mod printing_laws;
pub mod quads;
pub mod query_laws;
pub mod rdfgraph;
pub mod reader;
pub mod reading_laws;
pub mod refusal_laws;
pub mod roundtrip;
pub mod row_laws;
pub mod sparql;
pub mod terms;
pub mod text;
pub mod text_laws;
pub mod turtle;
pub mod value_laws;
pub mod word_laws;

pub use codegraph::SX_NS;
pub use datum::{Sexpr, SexprError, SexprResult};
pub use decode::rdf_to_sexpr;
pub use encode::sexpr_to_rdf;
pub use endpoint::{
    Intake, MEDIA_SEXPR, MEDIA_SPARQL_QUERY, MEDIA_TURTLE, MEDIA_TURTLE_CODE_GRAPH, Refusal, Reply,
    Transreptor,
};
pub use reader::{parse, parse_all};
pub use sparql::sexpr_to_sparql;
pub use turtle::sexpr_to_turtle;

use printer::{printed, write_into};

verus! {

/// Prints a datum as canonical s-expression text. String literals are escaped, so that the
/// text reads back to the same contents.
pub fn write(sexpr: &Sexpr) -> (text: String)
    ensures
        text@ == printed(sexpr@),
{
    let mut out = String::new();
    write_into(sexpr, &mut out);
    assert(out@ =~= printed(sexpr@));
    out
}

} // verus!
