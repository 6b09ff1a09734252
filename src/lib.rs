//! Query parsing, ranked retrieval and suggestion logic of a multilingual
//! dictionary lookup service.
use vstd::prelude::*;

pub mod language;
pub mod text;
pub mod japanese;
pub mod query;
pub mod dict;
pub mod kanji;
pub mod cache;
pub mod suggestion;
pub mod words;
pub mod producers;
pub mod tags;
pub mod vector;
pub mod search;

verus! {

} // verus!
