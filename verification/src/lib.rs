//! A host-telemetry reconciliation engine.
//!
//! The monitor samples operating-system state (processes, CPU cores, memory,
//! disks, network interfaces) and keeps a bounded-retention history of it in a
//! relational store. This crate is the verified core of that agent: it models
//! the persisted tables as in-memory data and proves the reconciliation,
//! aggregation and pruning logic that turns a live snapshot plus the persisted
//! state into the next persisted state. The unverified shell around it reads
//! the snapshots, talks to the store, and schedules the periodic passes.

pub mod cpu;
pub mod database;
pub mod df;
pub mod disk;
pub mod memory;
pub mod monitor;
pub mod network;
pub mod process;
pub mod response;
pub mod seq_util;
pub mod snapshot;
pub mod tables;
