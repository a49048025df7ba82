//! The completions server: what it accepts, what it refuses, what it answers.
//!
//! The endpoint is text completions and nothing else. What is not implemented is
//! refused and not ignored: a client that asks for `temperature: 0.8` and is
//! handed greedy output has been given wrong results, not degraded ones.

pub mod args;
pub mod reply;
pub mod request;
pub mod route;

pub use self::args::{parse_args, vocabulary_flaw, Args};
pub use self::reply::{Reply, Step};
pub use self::request::{accept, completion, stops_from, unsupported, Accepted, Refusal};
pub use self::route::{route, Route};
