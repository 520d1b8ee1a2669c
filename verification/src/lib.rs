//! A unigram language-model tokenizer.
//!
//! A [`Unigram`] model holds a vocabulary of tokens with scores. It encodes a sentence by the
//! tokens whose scores add up to the largest sum. It can also keep several sets of weights for
//! its tokens and find the set that gives a sentence the largest score.

pub mod agreement;
pub mod binary_float;
pub mod cache;
pub mod choice_laws;
pub mod construction;
pub mod contract_laws;
pub mod double;
pub mod encoding;
pub mod encoding_laws;
pub mod error;
pub mod float_arith;
pub mod forward_bound;
pub mod forward_laws;
pub mod graph_laws;
pub mod lattice;
pub mod lattice_encoding;
pub mod lattice_entry_laws;
pub mod lattice_laws;
pub mod model;
pub mod model_laws;
pub mod optimality;
pub mod parallel;
pub mod parting;
pub mod prepared_dp;
pub mod ranking;
pub mod recurrence_laws;
pub mod rounding;
pub mod rounding_laws;
pub mod scan;
pub mod segmentation;
pub mod sentence;
pub mod single;
pub mod text;
pub mod text_laws;
pub mod token_laws;
pub mod token_map;
pub mod tokenization;
pub mod trie;
pub mod unknown_laws;
pub mod vocabulary;
pub mod weight_sets;

pub use error::UnigramError;
pub use model::query::UnigramIterator;
pub use model::Unigram;
pub use prepared_dp::PreparedDP;
