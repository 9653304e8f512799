//! Coordination core of a distributed actor messaging fabric.
//!
//! The coordinator keeps the registries of one process (configured nodes, live
//! node links, per-type supporters, per-type routing proxies, published
//! handlers, inbound workers) and decides, for each event it receives, how the
//! registries change and which instructions go out to its collaborators.
//! Running the collaborators themselves is left to the embedding program.

pub mod msgs;
pub mod world;
pub mod laws;
