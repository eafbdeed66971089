//! The decision logic of a two-phase, epoch-aware BFT consensus node.
pub mod bench;
pub mod block;
pub mod cert_verifier;
pub mod collections;
pub mod consensus;
pub mod cutover;
pub mod data;
pub mod drb;
pub mod epoch;
pub mod epoch_root;
pub mod fetch;
pub mod handover;
pub mod laws;
pub mod leader_trace;
pub mod leaf_store;
pub mod limits;
pub mod membership;
pub mod oracle;
pub mod outbox;
pub mod peers;
pub mod schedule;
pub mod serve;
pub mod stat;
pub mod sums;
pub mod task;
pub mod text;
pub mod timer;
pub mod validation;
pub mod vid_shares;
