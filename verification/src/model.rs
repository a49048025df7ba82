//! `.fgm` files: the shape of the model, and where its tensors lie.
//!
//! A file is mapped, never copied: the weights are in tile order on disk
//! already. What is decided here is which bytes a tensor is, and how a kernel
//! has to read them.
pub mod config;
pub mod file;

pub use config::{Config, QuantBits};
pub use file::{
    header_span, Dual, HeaderError, Model, QLinear, Span, Table, TensorEntry, TensorError, WeightSel,
};
