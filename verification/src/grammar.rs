//! Token-level constrained decoding for tool calls.
//!
//! Sampling freely and hoping for a well-formed call gives a distribution over
//! nearly well-formed calls. The tool schemas are compiled into an automaton
//! over bytes and delimiter tokens, and the automaton is lifted to the
//! vocabulary: per state, the set of tokens that keep the output on a path to a
//! call. Masking is then one lookup per token.
//!
//! Where a state admits a single token, the model need not be asked at all; see
//! [`Constraint::forced`] and [`Constraint::forced_run`].

pub mod agree;
pub mod builder;
pub mod call;
pub mod constraint;
pub mod dfa;
pub mod lang;
pub mod laws;
pub mod layout;
pub mod nfa;
pub mod twins;
pub mod vocab;
pub mod written;

pub use self::builder::GrammarBuilder;
pub use self::call::{parse_call, render, Call};
pub use self::constraint::Constraint;
pub use self::dfa::Dfa;
pub use self::lang::{Delims, Param, ParamType, Sym, Tool};
pub use self::vocab::{load_vocab_bytes, synthetic_tools, tool_index, vocab_bytes, VocabError};
