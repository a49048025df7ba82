//! The batching scheduler's rules: who is admitted, what is computed, what each
//! client is told.
//!
//! Decoding reads all the weights whether it computes one row or eight, so
//! concurrent sequences are decoded together. The shape of the loop, which [`run`]
//! takes from one piece of outside work to the next:
//!
//! ```text
//! place  fill free slots from the queue, prefilling each on arrival
//! emit   per slot, decode the token it holds, apply stops, stream or retire
//! step   one forward pass across every active slot at its own position
//! ```

pub mod laws;
pub mod plan;
pub mod run;
pub mod scheduler;
pub mod sharing;
pub mod slot;
pub mod turns;

pub use self::plan::{lcp, prefill_chunks, reuse_len, share_len};
pub use self::run::{run, Action, Reply, Run};
pub use self::scheduler::{Admission, Batch, Config, Engine, Plan};
pub use self::slot::{stable_len, Event, Job, Slot};
