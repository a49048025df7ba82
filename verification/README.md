# fastgemma

A CPU inference engine for Gemma 4, whose decisions are verified with
[Verus](https://github.com/verus-lang/verus).

`src/` is the library: every rule the engine follows, each with a contract that
Verus proves. `app/` is what the rules are for: kernels, threads, memory maps,
sockets. `tests/` runs the library from outside.

| module | what it decides |
|---|---|
| `grammar` | which tokens keep a tool call well formed, and what a call says |
| `tokenizer` | text to ids and back |
| `engine` | the loop between forward passes: who is prefilled, what is shared, what is emitted, when a request ends |
| `serve`, `http` | what a request asks for, what is refused, what is answered |
| `model`, `forward` | where weights lie, which of them a product reads, how long buffers are |
| `kv` | which positions a cache keeps, and how it is forked |
| `pool`, `kernels` | who does what of a job, and which shapes the kernels take |
| `fetch` | where files come from, and when a download is whole |
| `bench` | synthetic prompts, schemas, walks over a grammar, speculative decoding |
| `text`, `lossy`, `json` | strings, ill-formed bytes, JSON values |

Laws that span functions are public proof functions named `law_…`. Some of them:

* what is decoded under a constraint is a call exactly if the constraint says it
  is done, a walk is never stuck, and nothing follows a complete call;
* a tool set has one automaton, to the numbers of its states, and what the parser
  reads back of a call is what the call spells;
* decoding what was encoded gives the text back, with any tokenizer file that has
  one string for each id and a token for each byte;
* what a client hears, put together, is the text, nothing is taken back, and every
  request ends once;
* sharing the beginnings of prompts changes nothing that any client is told;
* a ring cache still holds every position that a batch reads, and a fork is a
  copy;
* every piece of a job is done by one worker and by no other;
* taking several tokens at once does not change what is decoded.

## What is believed without proof

* `serde_json` reads and prints JSON (`src/json.rs`). What it makes of a text is
  named and not described; a printed value is known to be one line.
* `std::str::from_utf8` takes exactly the well-formed bytes (`src/lossy.rs`).
* `String::push` appends a character (`src/text.rs`).

Floating-point arithmetic is not modelled. The forward pass runs in `app/`;
logits and scales cross into the library as the bits of their `f32`.

## The programs

Started as `fgm-serve`, the application is a text-completions server; as
`fgm-bench` it is the benchmark driver; as `fgm-tokcheck` it encodes strings. It
links the AMX and AVX-512 kernels, which are C.
