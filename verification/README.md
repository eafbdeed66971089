# hotshot-new-protocol

The decision logic of a two-phase, epoch-aware BFT consensus node, written in
Verus. Every function in `src/` carries a contract that Verus proves, but for
a few wrappers of the standard library and `rand` (the clock, durations, a
random draw), whose contracts restate what those libraries document.

- `src/consensus.rs` is the state machine at the centre: `Consensus::apply`
  takes one input (a proposal, a share of its payload, a certificate, a
  timeout, a storage confirmation, ...) and appends the outputs it calls for
  to an `Outbox`. `src/laws.rs` states what every run keeps: no vote or
  decision twice, views and locks only move forward, a second vote only on a
  persisted lock, decisions only of certified chains.
- `src/block.rs`, `src/fetch.rs`, `src/serve.rs`, `src/cert_verifier.rs`,
  `src/epoch_root.rs`, `src/vid_shares.rs`, `src/epoch.rs`, `src/drb.rs`
  hold the bookkeeping around it: the transaction buffers, payload recovery,
  certificate checking, epoch-root vote routing, share accumulation and the
  DRB requests; `src/peers.rs` decides which network peers a node keeps as
  epochs pass.
- `src/validation.rs`, `src/schedule.rs`, `src/membership.rs` and
  `src/data.rs` are the rules and values these share.
- `src/stat.rs` and `src/text.rs` parse the `/proc` text the benchmark
  samples; `src/bench.rs`, `src/leader_trace.rs` and `src/oracle.rs` build
  what the benchmark and the trace oracle record.
- `app/` is the ordinary Rust around the library: command-line options,
  reading `/proc`, the sampling thread, and writing CSV files.

`tests/` runs the library on concrete values.
