use vstd::prelude::*;

verus! {

/// Registers a node by its transport address, written as text.
pub struct RegisterNode {
    pub addr: String,
}

/// Instruction to an existing node link: connect again.
pub struct ReconnectNode;

/// A node with this identity made contact.
pub struct NodeConnected(pub String);

/// A node declares the message types it can handle.
#[derive(Clone)]
pub struct NodeSupportedTypes {
    pub node: String,
    pub types: Vec<String>,
}

/// Instruction to an inbound worker: stop.
pub struct StopWorker;

/// The inbound worker with this connection id has gone away.
pub struct WorkerDisconnected(pub usize);

/// Publishes a local handler for a message type; the handler itself is
/// referred to by a token of the embedding program.
pub struct RegisterRecipient(pub String, pub u64);

/// Notification for the routing proxy `proxy`: node `node_id` now supports
/// messages of type `type_id`.
pub struct TypeSupported {
    pub proxy: usize,
    pub type_id: String,
    pub node_id: String,
}

impl View for TypeSupported {
    type V = (nat, Seq<char>, Seq<char>);

    open spec fn view(&self) -> (nat, Seq<char>, Seq<char>) {
        (self.proxy as nat, self.type_id@, self.node_id@)
    }
}

} // verus!
