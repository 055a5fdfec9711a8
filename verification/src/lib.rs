//! Metadata control plane: a replicated key/value store behind a consensus
//! engine, the coordinator that routes client requests to the leader, and the
//! service layer that authenticates callers and dispatches requests.
//!
//! The executable parts, leaves first:
//! - `token`: bearer tokens under a signing key; `wire`: the handshake's credential.
//! - `types`, `messages`: log entries, commands and the requests between nodes.
//! - `protocol`: what each event does to a node's consensus state, as mathematics;
//!   `engine`, `replication`: the engine that does it; `preservation`, `ids`: what its
//!   proofs rest on.
//! - `state_machine`: the key/value store that committed entries are applied to.
//! - `node`: the coordinator that owns engine and store and routes requests;
//!   `forwarding`: how far a request travels.
//! - `service`, `errors`: the layer that faces the callers, and what it reports.
//! - `keywords_table`, `query_fragment_broadcast`, `comparison_not_eq`: three
//!   collaborators of the query engine.
//!
//! The laws of a whole cluster are proved of the model in `cluster`, which is made
//! of the functions of `protocol`: one leader per term in `election`, matching logs
//! in `log_matching`, and in `safety`, over `leadership`, `growth`, `handover`,
//! `commitment` and `commitment_steps`, that committed entries stand in the log of
//! every later leader and in the logs of a majority.

pub mod cluster;
pub mod commitment;
pub mod commitment_steps;
pub mod comparison_not_eq;
pub mod election;
pub mod engine;
pub mod errors;
pub mod forwarding;
pub mod growth;
pub mod handover;
pub mod ids;
pub mod keywords_table;
pub mod leadership;
pub mod log_matching;
pub mod messages;
pub mod node;
pub mod preservation;
pub mod protocol;
pub mod query_fragment_broadcast;
pub mod replication;
pub mod safety;
pub mod service;
pub mod state_machine;
pub mod token;
pub mod types;
pub mod wire;
