//! Password-candidate generation from seed words: per-word leet and case
//! variants, multi-word arrangements, special-character padding, and an
//! analytical counter that predicts how many candidates will be produced.
pub mod agreement;
pub mod args;
pub mod arrangements;
pub mod combinatorics;
pub mod generator;
pub mod text;
pub mod word_list;
pub mod words;
