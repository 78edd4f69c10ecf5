//! The plain values that the network works on.

use vstd::prelude::*;

verus! {

/// The public key of a node: its nonce and the key share that it holds.
///
/// Two keys are the same key exactly when both parts agree.
#[derive(Clone, Copy, Debug, PartialEq, Eq, Structural, PartialOrd, Ord, Hash)]
pub struct PubKey {
    /// The nonce of the node.
    pub nonce: u64,
    /// The share of the key that the node holds.
    pub share: u64,
}

/// A change in the membership of the network.
#[derive(Clone, Copy, Debug, PartialEq, Eq, Structural)]
pub enum NetworkChange {
    /// The node with this key was attached.
    NodeConnected(PubKey),
}

/// Why an operation on the network failed.
#[derive(Clone, Copy, Debug, PartialEq, Eq, Structural)]
pub enum NetworkError {
    /// The message has no wire format within the size limit.
    FailedToSerialize,
    /// A node on the way takes no messages any more.
    CouldNotDeliver,
    /// No node is registered under the key of the recipient.
    NoSuchNode,
    /// Nothing is left to receive, and nothing can come any more.
    ShutDown,
}

/// The two ways that a message takes: to one node, or to every node.
#[derive(Clone, Copy, Debug, PartialEq, Eq, Structural)]
pub enum Lane {
    /// Messages for one node.
    Direct,
    /// Messages for every node.
    Broadcast,
}

impl Lane {
    /// The lane that this one is not.
    pub open spec fn other_lane(self) -> Lane {
        match self {
            Lane::Direct => Lane::Broadcast,
            Lane::Broadcast => Lane::Direct,
        }
    }

    /// The lane that this one is not.
    pub fn other(self) -> (lane: Lane)
        ensures
            lane == self.other_lane(),
    {
        match self {
            Lane::Direct => Lane::Broadcast,
            Lane::Broadcast => Lane::Direct,
        }
    }
}

/// There are two lanes, and each is the other of the other.
pub proof fn law_two_lanes(lane: Lane)
    ensures
        Lane::Direct.other_lane() == Lane::Broadcast,
        Lane::Broadcast.other_lane() == Lane::Direct,
        lane.other_lane() != lane,
        lane.other_lane().other_lane() == lane,
{
}

/// What travels through the queues of a node.
#[derive(Debug)]
pub enum Packet {
    /// The bytes of a message.
    Message(Vec<u8>),
    /// News about the membership of the network.
    Change(NetworkChange),
}

/// The mathematical value of a [`Packet`].
pub enum PacketView {
    /// The bytes of a message.
    Message(Seq<u8>),
    /// News about the membership of the network.
    Change(NetworkChange),
}

impl View for Packet {
    type V = PacketView;

    open spec fn view(&self) -> PacketView {
        match *self {
            Packet::Message(bytes) => PacketView::Message(bytes@),
            Packet::Change(change) => PacketView::Change(change),
        }
    }
}

} // verus!
