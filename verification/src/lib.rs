//! Fuzzy-match lexical lookup over WordNet-style lexicons.
//!
//! A [`lexicon::Lexicon`] holds the senses and word entries of one language.
//! A `WordNetSearcher` owns a lexicon together with a reverse index from
//! sense identifiers to the words that reference them, and answers fuzzy
//! queries with ranked results. A `Registry` maps language codes to
//! searchers and dispatches queries per language.
use vstd::prelude::*;

pub mod engine;
pub mod index;
pub mod laws;
pub mod lexicon;
pub mod order;
pub mod rank;
pub mod registry;
pub mod sorted;

verus! {

} // verus!
