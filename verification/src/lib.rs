//! A replicated key-value store built on a Raft-style consensus core.
//!
//! The crate holds the deterministic part of a node: the key-value state
//! machine, the replicated log, the per-node protocol rules, and a model of a
//! whole cluster over which the protocol's safety properties are proved.
//! Timers, sockets and storage belong to the program that drives a node; it
//! hands events in and carries the resulting messages out.
//!
//! `kv`, `command`, `log` and `message` define the data. `model` states the
//! rules of a node as functions on mathematical values, and `raft` is the
//! executable node that follows them. `cluster` puts nodes and messages
//! together; `election`, `matching`, `commit`, `completeness` and
//! `statemachine` prove what every reachable state of a cluster satisfies,
//! `progress` shows that a quorum always has a way forward, and `safety`
//! states the results of every run.

pub mod kv;
pub mod command;
pub mod log;
pub mod message;
pub mod model;
pub mod raft;
pub mod cluster;
pub mod election;
pub mod matching;
pub mod commit;
pub mod completeness;
pub mod statemachine;
pub mod progress;
pub mod safety;
