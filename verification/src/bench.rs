//! What the benchmark driver decides: its synthetic prompts, the tool schemas
//! it reads, how it walks a grammar, and how it decodes.
pub mod decode;
pub mod prompt;
pub mod toolspec;
pub mod walk;

pub use decode::{lookup, Decoder, Rules, Stage, Step, Want};
pub use prompt::{
    end_ids, id_list, number_or, parse_ids, parse_prompts, parse_sizes, sibling_bench, synth_tokens,
};
pub use toolspec::{load_toolspec, read_tools, Flaw, ToolspecError};
pub use walk::{pick_token, reachable, run_lengths, walk_call, Walk};
