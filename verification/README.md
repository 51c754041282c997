# ic-debug

A time-travel debugger for canisters on the Internet Computer. Canisters record
what they do under a trace; the recorder keeps it in a store; `replay` tells a
trace as one story across canisters, `diff` shows how recorded state changed,
`serve` shows both in a browser, and `instrument` puts the recording calls into
Rust and Motoko source.

`src/` is the library, verified with Verus. `app/` is the command-line program
around it: arguments, files, SQLite, HTTP and the questions at the terminal.

| Module | What it holds |
|---|---|
| `event` | traces, headers and events |
| `trace`, `method` | recording in a canister: numbering, the ring buffer, calls, `#[trace_method]` |
| `store` | an event as columns, and back |
| `replay`, `replay_order`, `replay_view` | the causal order of a trace, its laws, and how it is shown |
| `value`, `diff`, `diff_mirror`, `diff_view` | recorded values, their differences, and how they are shown |
| `names` | names of canisters: defaults and overrides |
| `instrument` | the wizard: rules for Rust (`detect`) and Motoko (`motoko`), edits, questions, JavaScript callers |
| `order`, `groups`, `any_order`, `text` | sorting, grouping and text, with their specifications |

Each executable function states in its contract what it returns, over spec
functions on sequences of characters and events. What holds of several
functions together is a proof function whose name begins with `law_`: that
reordering loses no event, keeps the order of each canister's events and puts
an entry behind the call that caused it, that a value does not differ from
itself, that what is written to the store is read back, that a rule does not
fire a second time on what it put there, and others.

The laws have limits, which their `requires` and doc comments state:

- A canister keeps the order of its events in the timeline where some canister
  was called by no other. An entry is shown to follow its call directly where the
  call is reached and the entry is the next event of its canister.
- The timeline, and how state changes, do not depend on the order of reading
  where no two events of a canister, or snapshots of a canister and a key, have
  the same number.
- That a rule leaves alone what it put there is shown rule by rule. For the rules
  on Motoko functions, but for the snapshots, it is shown of a second pass over
  the whole file (`second_pass`, `second_wrap`, `second_header`, `second_notes`):
  where the public functions before the one in question have bodies, the module
  is imported before the actor and the tracer bound before the function, no two
  functions are named alike, and a note goes into the body behind code. For the
  bootstrap, the snapshots and the rules on Rust source it is shown for the text
  or the syntax around the edit.
- That a second pass over JavaScript callers finds nothing is shown for method
  names without a space or `(`: every identifier is one.
- The edits that one pass over a Motoko actor finds do not overlap, unless the
  actor ends with an import line, which no actor may hold. In Rust source the
  edits of calls inside each other overlap; these are refused when they are
  applied together.

What the library takes from other crates stands behind small wrappers marked
`external_body`, each with a comment on what it claims: `syn` and `proc-macro2`
read Rust source, `ciborium` reads recorded values, `serde_json` reads mapping
files, `similar` finds the hunks of a diff, `sha2` hashes, `uuid` and `candid`
write identifiers.
