//! Gemma's tokenizer, read from a checkpoint's `tokenizer.json`.
//!
//! It follows the fields that the file declares:
//!
//! ```text
//! normalizer      Replace " " -> U+2581
//! pre_tokenizer   Split on " ", MergedWithPrevious
//! model           BPE, byte_fallback = true, ignore_merges = true
//! decoder         Replace U+2581 -> " ", ByteFallback, Fuse
//! ```
//!
//! Two of those are easy to get wrong. The pre-tokenizer splits on a literal
//! space, but the normalizer has already replaced every space, so nothing is
//! ever split: a text between control tokens is one unit. And `ignore_merges`
//! means that a unit which is in the vocabulary as it stands is that one id,
//! with no merges run at all.
//!
//! Control tokens are matched as literal strings before anything else, because
//! no merge leads to them.

pub mod bpe;
pub mod cases;
pub mod laws;
pub mod load;
pub mod merging;
pub mod model;
pub mod reading;

pub use self::load::LoadError;
pub use self::model::Tokenizer;
