//! Core of a userspace software router: a bounded packet and particle pool,
//! a graph of named processing nodes run in scheduling passes, the
//! per-thread forwarding state machine, and the control-plane context that
//! talks to forwarding threads through messages.

pub mod config;
pub mod ctx;
pub mod engine;
pub mod graph;
pub mod logs;
pub mod msg;
pub mod nodes;
pub mod packet;
pub mod particle;
pub mod pool;
pub mod text;
pub mod veth;
