//! Verified core of a network emulator: the network graph of services,
//! bridges and links, the shortest-path computation that turns it into
//! per-destination paths, the dynamic events that derive new graphs from old
//! ones, and the small protocols spoken between the emulation processes.
#![allow(unused_imports)]

pub mod assoc;
pub mod text;
pub mod elements;
pub mod graph;
pub mod shortest;
pub mod setup;
pub mod address;
pub mod monitor;
pub mod files;
pub mod schedule;
pub mod topology;
pub mod orchestrator;
pub mod state;
pub mod commands;
pub mod ids;
pub mod network;
pub mod arguments;
pub mod shaping;
pub mod rules;
pub mod xml;
