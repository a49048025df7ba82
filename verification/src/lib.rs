//! A CPU inference engine for Gemma-class models: the parts that decide.
//!
//! The kernels, threads, memory maps and sockets live in the application; the
//! rules they follow live here, each with a contract.
pub mod bench;
pub mod engine;
pub mod fetch;
pub mod forward;
pub mod grammar;
pub mod http;
pub mod json;
pub mod kernels;
pub mod kv;
pub mod lossy;
pub mod model;
pub mod pool;
pub mod serve;
pub mod text;
pub mod tokenizer;
