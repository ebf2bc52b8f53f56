//! NepBPE: a byte pair encoding tokenizer for Nepali text in Devanagari.
//!
//! A text is normalized ([`normalizer`]), cut into runs of one script ([`script`]) and
//! encoded by longest match over a vocabulary ([`vocabulary`], [`contents`]); what it does
//! not have is spelled out in bytes ([`alphabet`]). Decoding undoes encoding, whatever the
//! text ([`encoding`], [`lossless`]).
//!
//! The vocabulary is trained by merging pairs of tokens ([`trainer`]). Which pairs may be
//! merged is constrained by script, by tags and by the paradigms of Nepali morphology
//! ([`paradigm`], [`training`]); of those, the best of the whole corpus is merged at each
//! step ([`greedy`], [`runs`]). [`corpus`] and [`counting`] keep the frequencies of pairs exact
//! without ever counting them again.
//!
//! [`tokenizer`] and [`learning`] put this together.
pub mod alphabet;
pub mod contents;
pub mod corpus;
pub mod counting;
pub mod dfa;
pub mod encoding;
pub mod greedy;
pub mod heap;
pub mod learning;
pub mod lossless;
pub mod normalizer;
pub mod pairs;
pub mod paradigm;
pub mod runs;
pub mod script;
pub mod sorting;
pub mod text;
pub mod token;
pub mod tokenizer;
pub mod trainer;
pub mod training;
pub mod tsv;
pub mod vocabulary;
pub mod word_counts;
