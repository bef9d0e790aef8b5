//! The messages that nodes of the block network send each other.

use vstd::prelude::*;

verus! {

/// Address of a node in the network.
pub type NodeId = u32;

/// Name of a port of a node.
pub type NodePort = String;

/// Sequence number that makes sure that messages are executed in the correct order.
pub type Clock = u32;

/// A message between two nodes.
#[derive(Clone, Debug, PartialEq, Eq)]
pub struct Message {
    pub sender: NodeId,
    pub receiver: NodeId,
    /// Sequence number that makes sure that messages are executed in the correct order.
    pub clock: Clock,
    /// The clock of the message that this one answers, if any.
    pub in_reply_to: Option<Clock>,
    pub payload: Payload,
}

/// What a message says.
#[derive(Clone, Debug, PartialEq, Eq)]
pub enum Payload {
    /// Acknowledges that a message was received; `in_reply_to` holds the clock
    /// of the message that is acknowledged.
    Ack,
    /// Acknowledges several messages at once; `in_reply_to` is `None`.
    BatchAck(Vec<Clock>),
    /// A node announces that it connected; sender and receiver are 0. The direct
    /// neighbour that receives it turns it into `NewNode`. Only sent by non-master nodes.
    Hello(NodeInfo),
    /// Asks for a `NodeId` for a newly connected node, remembering the node and the
    /// port it connected on, since the new node cannot be addressed otherwise.
    NewNode {
        info: NodeInfo,
        connected_on: NodeIdWithPort,
    },
    NewNodeAck(NodeId),
    /// Neighbouring nodes tell each other on which ports they are connected.
    PortSync(String),
    /// Sets a block active, e.g. while it is the instruction being executed.
    Activate(bool),
    /// The messages with these clocks were not received and should be sent again.
    Missed(Vec<Clock>),
    /// Tells the master that a neighbouring node disconnected.
    Disconnected(NodeId),
    /// A message from outside the node network, for the handler of its kind.
    Generic {
        kind: String,
        message: String,
    },
}

/// What the network knows of a node.
#[derive(Clone, Debug, PartialEq, Eq)]
pub struct Node {
    pub id: NodeId,
    pub status: NodeStatus,
    /// Keeps track of the sequence number.
    pub sync_status: SyncStatus,
    pub ports: Vec<NodePort>,
}

/// What a node tells of itself when it connects.
#[derive(Clone, Debug, PartialEq, Eq)]
pub struct NodeInfo {
    pub ports: Vec<NodePort>,
    pub capabilities: Vec<Capability>,
}

/// Addresses a newly connected node that has no `NodeId` yet: the neighbour that
/// received its `Hello` and the port it was received on.
#[derive(Clone, Debug, PartialEq, Eq)]
pub struct NodeIdWithPort {
    pub id: NodeId,
    pub port: NodePort,
}

/// Something a node can do.
#[derive(Clone, Debug, PartialEq, Eq)]
pub struct Capability {
    pub name: String,
    pub kind: CapabilityType,
}

/// The kinds of hardware a node can carry.
#[derive(Clone, Copy, Debug, PartialEq, Eq)]
pub enum CapabilityType {
    LED,
    Button,
    Potentiometer,
    LCD,
}

/// Whether a node can be reached.
#[derive(Clone, Copy, Debug, PartialEq, Eq)]
pub enum NodeStatus {
    /// A node that has no `NodeId` yet and cannot communicate.
    Startup,
    /// Connected and reachable.
    Active,
    /// Some neighbours reported it disconnected, others did not yet.
    LikelyDisconnected,
    /// Disconnected and unreachable.
    Disconnected,
}

/// How far the messages to a node have arrived.
#[derive(Clone, Debug, PartialEq, Eq)]
pub enum SyncStatus {
    /// All messages with a lower clock than this one have arrived.
    Synced(Clock),
    /// These clocks are missing.
    Missing(Vec<Clock>),
}

} // verus!
