//! An in-memory simulation of a network, for tests of what runs on top of one.
//!
//! A [`MasterMap`] is a group of nodes, and a [`MemoryNetwork`] is a handle to one of them. A
//! message is a string of bytes; it is sent to one node or to every node, and waits in bounded
//! queues on its way, or in line behind one that is full. What a node takes in is worked on step
//! by step: bytes that are no message are skipped, and a [`NetworkReliability`] model, where a
//! node has one, decides which messages are lost and how long the others are held back.
//!
//! No function blocks. Where there is no room, or nothing yet, the answer says so, and the
//! caller comes back later.
//!
//! The functions are specified over the mathematical values of [`line`] and [`model`], and what
//! holds of the network as a whole is proved in [`node_laws`], [`group_laws`] and [`news_laws`].
//! What each operation does to what it finds is said in [`operation_laws`] and
//! [`delivery_laws`].

pub mod channel;
pub mod codec;
pub mod delivery_laws;
pub mod group_laws;
pub mod line;
pub mod model;
pub mod network;
pub mod news_laws;
pub mod node;
pub mod node_laws;
pub mod operation_laws;
pub mod registry;
pub mod reliability;
pub mod types;

pub use channel::Intake;
pub use codec::{decode, encode, EncodeError, MESSAGE_LIMIT};
pub use line::QUEUE_CAPACITY;
pub use model::Progress;
pub use network::{Attachment, Delivery, MasterMap, MemoryNetwork, PendingAttach, PendingSend};
pub use node::MemoryNetworkInner;
pub use reliability::{draw_fate, Asked, DummyReliability, Fate, NetworkReliability};
pub use types::{Lane, NetworkChange, NetworkError, PubKey};
