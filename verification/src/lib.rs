//! Coordination core for multiple coding agents working on one project:
//! agent registry, claims, overlap heat, conflicts and their negotiation,
//! wait-for deadlock detection, learned hotzones and session statistics.

pub mod outside;
pub mod text;
pub mod waitgraph;
pub mod cap;
pub mod conflict;
pub mod entries;
pub mod knowledge;
pub mod state;
pub mod claim;
pub mod sets;
pub mod heat;
pub mod heatstore;
pub mod paths;
pub mod bootstrap;
pub mod ipc;
pub mod stats;
pub mod coordinator;
pub mod entertainment;
pub mod eventlog;
