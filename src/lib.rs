//! Core of an actor runtime: mailboxes, the actor table with links,
//! monitors and exit propagation, supervision, flat and hierarchical name
//! registries, timers, payload buffers, and the node-to-node wire protocol.
pub mod buffers;
pub mod mailbox;
pub mod network;
pub mod paths;
pub mod registry;
pub mod runtime;
pub mod scheduler;
pub mod supervisor;
pub mod timers;
pub mod wire;
