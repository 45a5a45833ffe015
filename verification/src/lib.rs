//! Turtle text surgery, IRI rendering and ontology-workspace helpers.
use vstd::prelude::*;

pub mod alldiff;
pub mod block;
pub mod compare;
pub mod drange;
pub mod edit;
pub mod error;
pub mod host;
pub mod iri;
pub mod lex;
pub mod lexical;
pub mod lifecycle;
pub mod links;
pub mod lists;
pub mod literal;
pub mod manchester;
pub mod mconv;
pub mod mexpr;
pub mod mlex;
pub mod mman;
pub mod mparse;
pub mod mtree;
pub mod mturtle;
pub mod namespaces;
pub mod parsing;
pub mod patch;
pub mod plugin;
pub mod ops;
pub mod ordering;
pub mod parse;
pub mod prefixes;
pub mod process;
pub mod render;
pub mod schema;
pub mod span;
pub mod sparql;
pub mod sparql_update;
pub mod standalone;
pub mod swrl;
pub mod text;
pub mod unicode;
pub mod util;
pub mod validators;
pub mod vocab;

verus! {
} // verus!
