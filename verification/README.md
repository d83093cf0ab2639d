# dod_worker

A worker that orders transactions fairly by graphs, written in Rust and verified with Verus.

Workers do not agree on a total order of what their clients submit. Each of them says which of two
conflicting transactions it saw first, and leaves open what it cannot tell. A global graph is derived
from the local graphs of a quorum, and its transactions are executed along its edges.

- `src/` is the library. Each stage of the pipeline is a state machine over plain values, with a
  mathematical model of its state that the contracts are stated over. `src/lib.rs` gives an
  overview.
- `app/` runs the stages: channels, timers, the network, the store, and the serialized form of
  messages. It also holds the benchmark client.
- `tests/` exercises the library on concrete values.

What is not proved but taken as given stands in `src/channels.rs` (sending and receiving without
waiting), `src/processor.rs` (SHA-512) and `src/client.rs` (a random number).
