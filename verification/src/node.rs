//! One node: its queues and its background work.

use crate::channel::{Channel, Intake, Received};
use crate::codec::{decode, read};
use crate::line::{law_cleared_one_by_one, Line};
use crate::model::{
    disposed, drained, drained_changes, received, released, stepped, NodeView, ParcelView, Progress,
};
use crate::reliability::{possible_fate, Asked, Fate, NetworkReliability, Recorded};
use crate::types::{Lane, NetworkChange, NetworkError, Packet, PacketView, PubKey};
use vstd::prelude::*;

verus! {

/// The bytes of the messages in a queue.
pub open spec fn messages(queue: Seq<PacketView>) -> Seq<Seq<u8>> {
    queue.map_values(|packet: PacketView| packet->Message_0)
}

/// The news in a queue.
pub open spec fn news(queue: Seq<PacketView>) -> Seq<NetworkChange> {
    queue.map_values(|packet: PacketView| packet->Change_0)
}

/// A line of packets as a line of messages.
pub open spec fn message_line(line: Line<PacketView>) -> Line<Seq<u8>> {
    Line { items: messages(line.items), senders: line.senders, arrived: line.arrived }
}

/// A line of packets as a line of news.
pub open spec fn news_line(line: Line<PacketView>) -> Line<NetworkChange> {
    Line { items: news(line.items), senders: line.senders, arrived: line.arrived }
}

/// The values of a list of messages.
pub open spec fn contents(list: Seq<Vec<u8>>) -> Seq<Seq<u8>> {
    list.map_values(|message: Vec<u8>| message@)
}

/// The value of a message that may be missing.
pub open spec fn content(message: Option<Vec<u8>>) -> Option<Seq<u8>> {
    match message {
        Some(message) => Some(message@),
        None => None,
    }
}

/// The value of the receipt of a message.
pub open spec fn receipt(res: Result<Option<Vec<u8>>, NetworkError>) -> Result<
    Option<Seq<u8>>,
    NetworkError,
> {
    match res {
        Ok(message) => Ok(content(message)),
        Err(error) => Err(error),
    }
}

/// The value of the receipt of a list of messages.
pub open spec fn receipts(res: Result<Option<Vec<Vec<u8>>>, NetworkError>) -> Result<
    Option<Seq<Seq<u8>>>,
    NetworkError,
> {
    match res {
        Ok(Some(list)) => Ok(Some(contents(list@))),
        Ok(None) => Ok(None),
        Err(error) => Err(error),
    }
}

/// The value of the receipt of news.
pub open spec fn tidings(res: Result<Option<Vec<NetworkChange>>, NetworkError>) -> Result<
    Option<Seq<NetworkChange>>,
    NetworkError,
> {
    match res {
        Ok(Some(list)) => Ok(Some(list@)),
        Ok(None) => Ok(None),
        Err(error) => Err(error),
    }
}

/// What a decoder can read bytes as.
pub open spec fn decodings<F: Fn(&Vec<u8>) -> Option<Vec<u8>>>(decoder: F) -> spec_fn(
    Seq<u8>,
    Option<Seq<u8>>,
) -> bool {
    |bytes: Seq<u8>, message: Option<Seq<u8>>|
        exists|given: Vec<u8>, got: Option<Vec<u8>>| #[trigger]
            call_ensures(decoder, (&given,), got) && given@ == bytes && content(got) == message
}

/// A way to read bytes: as a message, or as no message.
pub type Reading = spec_fn(Seq<u8>) -> Option<Seq<u8>>;

/// What bytes are read as.
pub open spec fn decoded_by(reading: Reading) -> spec_fn(Seq<u8>, Option<Seq<u8>>) -> bool {
    |bytes: Seq<u8>, message: Option<Seq<u8>>| message == reading(bytes)
}

/// How the wire format reads bytes.
pub open spec fn wire_reading() -> Reading {
    |bytes: Seq<u8>| read(bytes)
}

/// Whether a channel is sound and holds messages only.
spec fn carries_messages(channel: Channel) -> bool {
    &&& channel.wf()
    &&& channel@.line.valid()
    &&& forall|i: int|
        0 <= i < channel@.line.items.len() ==> #[trigger] channel@.line.items[i] is Message
}

/// Whether a channel is sound and holds news only.
spec fn carries_news(channel: Channel) -> bool {
    &&& channel.wf()
    &&& channel@.line.valid()
    &&& forall|i: int|
        0 <= i < channel@.line.items.len() ==> #[trigger] channel@.line.items[i] is Change
}

/// Puts bytes at the end of the line of a channel of messages.
fn send_message(channel: &mut Channel, message: Vec<u8>) -> (res: Intake<Vec<u8>>)
    requires
        carries_messages(*old(channel)),
    ensures
        carries_messages(*final(channel)),
        final(channel)@.open == old(channel)@.open,
        match res {
            Intake::Accepted => {
                &&& old(channel)@.open && old(channel)@.line.has_room()
                &&& message_line(final(channel)@.line) == message_line(old(channel)@.line).joined(
                    message@,
                    None,
                )
            },
            Intake::Queued(ticket) => {
                &&& old(channel)@.open && !old(channel)@.line.has_room()
                &&& !old(channel)@.line.in_use(ticket as int)
                &&& message_line(final(channel)@.line) == message_line(old(channel)@.line).joined(
                    message@,
                    Some(ticket as int),
                )
            },
            Intake::Closed(back) => !old(channel)@.open && final(channel)@ == old(channel)@ && back
                == message,
        },
{
    let ghost line = message_line(channel@.line);
    let res = channel.send(Packet::Message(message));
    proof {
        channel.lemma_valid();
        let ticket = match res {
            Intake::Queued(ticket) => Some(ticket as int),
            _ => None,
        };
        if !(res is Closed) {
            assert(message_line(channel@.line) =~= line.joined(message@, ticket));
        }
    }
    match res {
        Intake::Accepted => Intake::Accepted,
        Intake::Queued(ticket) => Intake::Queued(ticket),
        Intake::Closed(Packet::Message(back)) => Intake::Closed(back),
        // Only the packet that was sent comes back.
        Intake::Closed(Packet::Change(_)) => Intake::Accepted,
    }
}

/// Puts bytes at the end of the line of an open channel of messages; says whether they got room.
fn put_message(channel: &mut Channel, message: Vec<u8>) -> (room: bool)
    requires
        carries_messages(*old(channel)),
        old(channel)@.open,
    ensures
        carries_messages(*final(channel)),
        final(channel)@.open,
        room == old(channel)@.line.has_room(),
        messages(final(channel)@.line.items) == messages(old(channel)@.line.items).push(message@),
{
    let ghost items = messages(channel@.line.items);
    let room = channel.put(Packet::Message(message));
    proof {
        channel.lemma_valid();
        assert(messages(channel@.line.items) =~= items.push(message@));
    }
    room
}

/// Takes the oldest bytes out of a channel of messages.
fn receive_message(channel: &mut Channel) -> (res: Result<Option<Vec<u8>>, NetworkError>)
    requires
        carries_messages(*old(channel)),
    ensures
        carries_messages(*final(channel)),
        final(channel)@.open == old(channel)@.open,
        match res {
            Ok(Some(message)) => {
                &&& old(channel)@.line.items.len() > 0
                &&& message@ == message_line(old(channel)@.line).items[0]
                &&& message_line(final(channel)@.line) == message_line(
                    old(channel)@.line,
                ).advanced()
            },
            Ok(None) => old(channel)@.line.items.len() == 0 && old(channel)@.open && final(
                channel
            )@ == old(channel)@,
            Err(error) => error == NetworkError::ShutDown && old(channel)@.line.items.len() == 0
                && !old(channel)@.open && final(channel)@ == old(channel)@,
        },
{
    let ghost line = message_line(channel@.line);
    match channel.receive() {
        Received::Packet(packet) => {
            proof {
                channel.lemma_valid();
                assert(message_line(channel@.line) =~= line.advanced());
            }
            match packet {
                Packet::Message(message) => Ok(Some(message)),
                // The channel holds messages only.
                Packet::Change(_) => Ok(None),
            }
        },
        Received::Empty => Ok(None),
        Received::Disconnected => Err(NetworkError::ShutDown),
    }
}

/// Whether the bytes of a ticket got room in a channel of messages.
fn settle_message(channel: &mut Channel, ticket: usize) -> (arrived: bool)
    requires
        carries_messages(*old(channel)),
    ensures
        carries_messages(*final(channel)),
        final(channel)@.open == old(channel)@.open,
        arrived == old(channel)@.line.arrived.contains(ticket as int),
        message_line(final(channel)@.line) == if arrived {
            message_line(old(channel)@.line).acknowledged(ticket as int)
        } else {
            message_line(old(channel)@.line)
        },
{
    let arrived = channel.settle(ticket);
    proof {
        channel.lemma_valid();
    }
    arrived
}

/// A message on its way to a queue of its node.
#[derive(Debug)]
struct Parcel {
    /// The queue that the message is for.
    lane: Lane,
    /// The message.
    message: Vec<u8>,
}

impl View for Parcel {
    type V = ParcelView;

    closed spec fn view(&self) -> ParcelView {
        ParcelView { lane: self.lane, message: self.message@ }
    }
}

/// The state of one node.
#[derive(Debug)]
pub struct MemoryNetworkInner<R> {
    /// The public key of this node.
    pub_key: PubKey,
    /// Bytes that were sent to every node.
    broadcast_input: Channel,
    /// Bytes that were sent to this node.
    direct_input: Channel,
    /// Messages for every node.
    broadcast_output: Channel,
    /// Messages for this node.
    direct_output: Channel,
    /// News about the membership of the network.
    network_changes: Channel,
    /// The reliability model, where there is one.
    reliability_config: Option<Recorded<R>>,
    /// The messages that are delivered on their own; the place of a message is its ticket.
    in_flight: Vec<Option<Parcel>>,
    /// Whether the background work is over.
    stopped: bool,
}

/// The messages under way, by ticket.
spec fn by_ticket(parcels: Seq<Option<Parcel>>) -> Map<int, ParcelView> {
    Map::new(
        |ticket: int| 0 <= ticket < parcels.len() && parcels[ticket] is Some,
        |ticket: int| parcels[ticket]->0@,
    )
}

impl<R> View for MemoryNetworkInner<R> {
    type V = NodeView<R>;

    closed spec fn view(&self) -> NodeView<R> {
        NodeView {
            pub_key: self.pub_key,
            direct_open: self.direct_input@.open,
            broadcast_open: self.broadcast_input@.open,
            news_open: self.network_changes@.open,
            direct_input: message_line(self.direct_input@.line),
            broadcast_input: message_line(self.broadcast_input@.line),
            direct_output: messages(self.direct_output@.line.items),
            broadcast_output: messages(self.broadcast_output@.line.items),
            changes: news_line(self.network_changes@.line),
            reliability: match self.reliability_config {
                Some(recorded) => Some(recorded.model()),
                None => None,
            },
            asked: match self.reliability_config {
                Some(recorded) => recorded.asked(),
                None => Asked::nothing(),
            },
            in_flight: by_ticket(self.in_flight@),
            stopped: self.stopped,
        }
    }
}

impl<R> MemoryNetworkInner<R> {
    /// The channels are sound, and an output is closed exactly when nothing can reach it any
    /// more.
    pub closed spec fn sound(&self) -> bool {
        &&& carries_messages(self.direct_input)
        &&& carries_messages(self.broadcast_input)
        &&& carries_messages(self.direct_output)
        &&& carries_messages(self.broadcast_output)
        &&& carries_news(self.network_changes)
        &&& self.direct_output@.open == !self@.finished(Lane::Direct)
        &&& self.broadcast_output@.open == !self@.finished(Lane::Broadcast)
    }

    /// What holds of every node.
    pub open spec fn wf(&self) -> bool {
        self.sound() && self@.valid()
    }

    /// A new node, with empty queues and the background work about to start.
    pub fn new(pub_key: PubKey, reliability_config: Option<R>) -> (node: MemoryNetworkInner<R>)
        ensures
            node.wf(),
            node@ == NodeView::fresh(pub_key, reliability_config),
    {
        let node = MemoryNetworkInner {
            pub_key,
            broadcast_input: Channel::new(),
            direct_input: Channel::new(),
            broadcast_output: Channel::new(),
            direct_output: Channel::new(),
            network_changes: Channel::new(),
            reliability_config: match reliability_config {
                Some(model) => Some(Recorded::new(model)),
                None => None,
            },
            in_flight: Vec::new(),
            stopped: false,
        };
        proof {
            assert(node@ =~= NodeView::fresh(pub_key, reliability_config));
        }
        node
    }

    /// Puts bytes at the end of the line of a lane. Where they have no room, the ticket says so,
    /// and [`MemoryNetworkInner::settle`] tells when they got room. A lane that was closed
    /// hands the bytes back.
    pub fn input(&mut self, lane: Lane, message: Vec<u8>) -> (res: Intake<Vec<u8>>)
        requires
            old(self).wf(),
        ensures
            final(self).wf(),
            match res {
                Intake::Accepted => old(self)@.accepts(lane) && final(self)@ == old(self)@.given(
                    lane,
                    message@,
                    None,
                ),
                Intake::Queued(ticket) => {
                    &&& old(self)@.is_open(lane) && !old(self)@.accepts(lane)
                    &&& !old(self)@.input(lane).in_use(ticket as int)
                    &&& final(self)@ == old(self)@.given(lane, message@, Some(ticket as int))
                },
                Intake::Closed(back) => !old(self)@.is_open(lane) && final(self)@ == old(self)@
                    && back == message,
            },
    {
        let res = match lane {
            Lane::Direct => send_message(&mut self.direct_input, message),
            Lane::Broadcast => send_message(&mut self.broadcast_input, message),
        };
        proof {
            match res {
                Intake::Accepted => assert(self@ =~= old(self)@.given(lane, message@, None)),
                Intake::Queued(ticket) => assert(self@ =~= old(self)@.given(
                    lane,
                    message@,
                    Some(ticket as int),
                )),
                Intake::Closed(_) => assert(self@ =~= old(self)@),
            }
        }
        res
    }

    /// Whether the bytes of a ticket got room on a lane; a sender that is told gives the ticket
    /// back.
    pub fn settle(&mut self, lane: Lane, ticket: usize) -> (arrived: bool)
        requires
            old(self).wf(),
        ensures
            final(self).wf(),
            arrived == old(self)@.input(lane).arrived.contains(ticket as int),
            final(self)@ == if arrived {
                old(self)@.settled(lane, ticket as int)
            } else {
                old(self)@
            },
    {
        let arrived = match lane {
            Lane::Direct => settle_message(&mut self.direct_input, ticket),
            Lane::Broadcast => settle_message(&mut self.broadcast_input, ticket),
        };
        proof {
            if arrived {
                assert(self@ =~= old(self)@.settled(lane, ticket as int));
            } else {
                assert(self@ =~= old(self)@);
            }
        }
        arrived
    }

    /// Puts news at the end of its line. Where it has no room, the ticket says so, and
    /// [`MemoryNetworkInner::settle_news`] tells when it got room. A node that takes no news any
    /// more hands it back.
    pub fn network_changes_input(&mut self, change: NetworkChange) -> (res: Intake<NetworkChange>)
        requires
            old(self).wf(),
        ensures
            final(self).wf(),
            match res {
                Intake::Accepted => old(self)@.accepts_news() && final(self)@ == old(self)@.told(
                    change,
                    None,
                ),
                Intake::Queued(ticket) => {
                    &&& old(self)@.news_open && !old(self)@.accepts_news()
                    &&& !old(self)@.changes.in_use(ticket as int)
                    &&& final(self)@ == old(self)@.told(change, Some(ticket as int))
                },
                Intake::Closed(back) => !old(self)@.news_open && final(self)@ == old(self)@ && back
                    == change,
            },
    {
        let res = match self.network_changes.send(Packet::Change(change)) {
            Intake::Accepted => Intake::Accepted,
            Intake::Queued(ticket) => Intake::Queued(ticket),
            Intake::Closed(_) => Intake::Closed(change),
        };
        proof {
            self.network_changes.lemma_valid();
            match res {
                Intake::Accepted => assert(self@ =~= old(self)@.told(change, None)),
                Intake::Queued(ticket) => assert(self@ =~= old(self)@.told(
                    change,
                    Some(ticket as int),
                )),
                Intake::Closed(_) => assert(self@ =~= old(self)@),
            }
        }
        res
    }

    /// Whether the news of a ticket got room; a sender that is told gives the ticket back.
    pub fn settle_news(&mut self, ticket: usize) -> (arrived: bool)
        requires
            old(self).wf(),
        ensures
            final(self).wf(),
            arrived == old(self)@.changes.arrived.contains(ticket as int),
            final(self)@ == if arrived {
                old(self)@.settled_news(ticket as int)
            } else {
                old(self)@
            },
    {
        let arrived = self.network_changes.settle(ticket);
        proof {
            self.network_changes.lemma_valid();
            if arrived {
                assert(self@ =~= old(self)@.settled_news(ticket as int));
            } else {
                assert(self@ =~= old(self)@);
            }
        }
        arrived
    }

    /// Closes the inputs of the node in turn, and the next one only when no sender stands in line
    /// at the one before; says whether that came to its end. What was taken before is still
    /// worked on.
    pub fn shut_down(&mut self) -> (done: bool)
        requires
            old(self).wf(),
        ensures
            final(self).wf(),
            final(self)@ == old(self)@.shut(),
            done == final(self)@.is_shut(),
    {
        self.broadcast_input.close();
        let mut done = !self.broadcast_input.is_overfull();
        if done {
            self.direct_input.close();
            done = !self.direct_input.is_overfull();
        }
        if done {
            self.network_changes.close();
            done = !self.network_changes.is_overfull();
        }
        proof {
            assert(self@ =~= old(self)@.shut());
        }
        done
    }

    /// Takes the oldest message of a lane. An empty lane is an error once nothing can reach it
    /// any more.
    pub fn receive(&mut self, lane: Lane) -> (res: Result<Option<Vec<u8>>, NetworkError>)
        requires
            old(self).wf(),
        ensures
            final(self).wf(),
            received(old(self)@, final(self)@, lane, receipt(res)),
    {
        let res = match lane {
            Lane::Direct => receive_message(&mut self.direct_output),
            Lane::Broadcast => receive_message(&mut self.broadcast_output),
        };
        proof {
            if res matches Ok(Some(_)) {
                assert(self@ =~= old(self)@.with_output(
                    lane,
                    old(self)@.output(lane).drop_first(),
                ));
            } else {
                assert(self@ =~= old(self)@);
            }
        }
        res
    }

    /// Takes every message of a lane, the oldest first. An empty lane is an error once nothing
    /// can reach it any more.
    pub fn drain(&mut self, lane: Lane) -> (res: Result<Option<Vec<Vec<u8>>>, NetworkError>)
        requires
            old(self).wf(),
        ensures
            final(self).wf(),
            drained(old(self)@, final(self)@, lane, receipts(res)),
    {
        let first = match self.receive(lane) {
            Ok(Some(first)) => first,
            Ok(None) => return Ok(None),
            Err(error) => return Err(error),
        };
        let ghost all = old(self)@.output(lane);
        let mut list: Vec<Vec<u8>> = Vec::new();
        list.push(first);
        proof {
            assert(contents(list@) + self@.output(lane) =~= all);
        }
        loop
            invariant
                self.wf(),
                all == old(self)@.output(lane),
                contents(list@) + self@.output(lane) == all,
                self@ == old(self)@.with_output(lane, self@.output(lane)),
            ensures
                self.wf(),
                contents(list@) == all,
                self@ == old(self)@.with_output(lane, Seq::empty()),
            decreases self@.output(lane).len(),
        {
            match self.receive(lane) {
                Ok(Some(next)) => {
                    let ghost before = contents(list@);
                    list.push(next);
                    proof {
                        assert(contents(list@) =~= before.push(next@));
                        assert(contents(list@) + self@.output(lane) =~= all);
                    }
                },
                _ => {
                    proof {
                        assert(self@.output(lane) =~= Seq::<Seq<u8>>::empty());
                        assert(contents(list@) =~= all);
                    }
                    break;
                },
            }
        }
        Ok(Some(list))
    }

    /// Takes all news, the oldest first. No news is an error once the node takes none any more.
    pub fn drain_changes(&mut self) -> (res: Result<Option<Vec<NetworkChange>>, NetworkError>)
        requires
            old(self).wf(),
        ensures
            final(self).wf(),
            drained_changes(old(self)@, final(self)@, tidings(res)),
    {
        let first = match self.receive_change() {
            Ok(Some(first)) => first,
            Ok(None) => return Ok(None),
            Err(error) => return Err(error),
        };
        let ghost line = old(self)@.changes;
        let mut list: Vec<NetworkChange> = Vec::new();
        list.push(first);
        proof {
            assert(list@ + self@.changes.items =~= line.items);
            law_cleared_one_by_one(line);
        }
        loop
            invariant
                self.wf(),
                line == old(self)@.changes,
                list@ + self@.changes.items == line.items,
                self@.changes.cleared() == line.cleared(),
                self@ == (NodeView { changes: self@.changes, ..old(self)@ }),
            ensures
                self.wf(),
                list@ == line.items,
                self@ == (NodeView { changes: line.cleared(), ..old(self)@ }),
            decreases self@.changes.items.len(),
        {
            let ghost earlier = self@.changes;
            match self.receive_change() {
                Ok(Some(next)) => {
                    list.push(next);
                    proof {
                        assert(list@ + self@.changes.items =~= line.items);
                        law_cleared_one_by_one(earlier);
                    }
                },
                _ => {
                    proof {
                        assert(self@.changes =~= self@.changes.cleared());
                        assert(list@ =~= line.items);
                    }
                    break;
                },
            }
        }
        Ok(Some(list))
    }

    /// Takes the oldest news.
    fn receive_change(&mut self) -> (res: Result<Option<NetworkChange>, NetworkError>)
        requires
            old(self).wf(),
        ensures
            final(self).wf(),
            match res {
                Ok(Some(change)) => {
                    &&& old(self)@.changes.items.len() > 0
                    &&& change == old(self)@.changes.items[0]
                    &&& final(self)@ == (NodeView {
                        changes: old(self)@.changes.advanced(),
                        ..old(self)@
                    })
                },
                Ok(None) => old(self)@.changes.items.len() == 0 && old(self)@.news_open && final(
                    self
                )@ == old(self)@,
                Err(error) => error == NetworkError::ShutDown && old(self)@.changes.items.len()
                    == 0 && !old(self)@.news_open && final(self)@ == old(self)@,
            },
    {
        match self.network_changes.receive() {
            Received::Packet(packet) => {
                proof {
                    self.network_changes.lemma_valid();
                    assert(self@ =~= (NodeView {
                        changes: old(self)@.changes.advanced(),
                        ..old(self)@
                    }));
                }
                match packet {
                    Packet::Change(change) => Ok(Some(change)),
                    // The channel holds news only.
                    Packet::Message(_) => Ok(None),
                }
            },
            Received::Empty => {
                proof {
                    assert(self@ =~= old(self)@);
                }
                Ok(None)
            },
            Received::Disconnected => {
                proof {
                    assert(self@ =~= old(self)@);
                }
                Err(NetworkError::ShutDown)
            },
        }
    }

    /// Takes the oldest bytes of a lane that were not looked at yet.
    fn take_input(&mut self, lane: Lane) -> (res: Option<Vec<u8>>)
        requires
            old(self).wf(),
        ensures
            final(self).wf(),
            match res {
                Some(bytes) => {
                    &&& old(self)@.input(lane).items.len() > 0
                    &&& bytes@ == old(self)@.input(lane).items[0]
                    &&& final(self)@ == old(self)@.with_input(
                        lane,
                        old(self)@.input(lane).advanced(),
                    )
                },
                None => old(self)@.input(lane).items.len() == 0 && final(self)@ == old(self)@,
            },
    {
        let res = match lane {
            Lane::Direct => receive_message(&mut self.direct_input),
            Lane::Broadcast => receive_message(&mut self.broadcast_input),
        };
        match res {
            Ok(Some(bytes)) => {
                proof {
                    assert(self@ =~= old(self)@.with_input(
                        lane,
                        old(self)@.input(lane).advanced(),
                    ));
                }
                Some(bytes)
            },
            _ => {
                proof {
                    assert(self@ =~= old(self)@);
                }
                None
            },
        }
    }

    /// Puts a message at the end of the output of a lane that something can still reach; says
    /// whether it got room.
    fn deliver(&mut self, lane: Lane, message: Vec<u8>) -> (progress: Progress)
        requires
            old(self).wf(),
            !old(self)@.finished(lane),
            old(self)@.stalled() is None,
        ensures
            final(self).wf(),
            final(self)@ == old(self)@.delivered(lane, message@),
            progress == old(self)@.arrival(lane),
    {
        let room = match lane {
            Lane::Direct => put_message(&mut self.direct_output, message),
            Lane::Broadcast => put_message(&mut self.broadcast_output, message),
        };
        proof {
            assert(self@ =~= old(self)@.delivered(lane, message@));
        }
        if room {
            Progress::Delivered(lane)
        } else {
            Progress::Blocked(lane)
        }
    }

    /// Sets a message aside under a ticket that is not in use.
    fn set_aside(&mut self, lane: Lane, message: Vec<u8>) -> (ticket: usize)
        requires
            old(self).wf(),
            !old(self)@.stopped,
            old(self)@.reliability is Some,
        ensures
            final(self).wf(),
            !old(self)@.in_flight.contains_key(ticket as int),
            final(self)@ == (NodeView {
                in_flight: old(self)@.in_flight.insert(
                    ticket as int,
                    ParcelView { lane, message: message@ },
                ),
                ..old(self)@
            }),
    {
        let parcel = Parcel { lane, message };
        let ghost entry = parcel@;
        let mut ticket: usize = 0;
        while ticket < self.in_flight.len() && self.in_flight[ticket].is_some()
            invariant
                ticket <= self.in_flight.len(),
                *self == *old(self),
            decreases self.in_flight.len() - ticket,
        {
            ticket = ticket + 1;
        }
        if ticket < self.in_flight.len() {
            self.in_flight[ticket] = Some(parcel);
        } else {
            self.in_flight.push(Some(parcel));
        }
        proof {
            assert(self@.in_flight =~= old(self)@.in_flight.insert(ticket as int, entry));
            assert(self@ =~= (NodeView {
                in_flight: old(self)@.in_flight.insert(ticket as int, entry),
                ..old(self)@
            }));
        }
        ticket
    }

    /// Does with a message of a lane what its fate asks for.
    pub fn dispose(&mut self, lane: Lane, message: Vec<u8>, fate: Fate) -> (progress: Progress)
        requires
            old(self).wf(),
            !old(self)@.stopped,
            old(self)@.stalled() is None,
            fate is InOrder <==> old(self)@.reliability is None,
        ensures
            final(self).wf(),
            disposed(old(self)@, final(self)@, lane, message@, fate, progress),
    {
        match fate {
            Fate::InOrder => self.deliver(lane, message),
            Fate::Lost => Progress::Dropped(lane),
            Fate::Delayed(delay) => {
                let ticket = self.set_aside(lane, message);
                let pause: Option<u128> = if delay > 0 {
                    Some(delay)
                } else {
                    None
                };
                Progress::Scheduled { lane, ticket, pause }
            },
        }
    }

    /// Whether a message of the lane is delivered on its own.
    fn is_in_flight(&self, lane: Lane) -> (busy: bool)
        ensures
            busy == self@.lane_in_flight(lane),
    {
        let mut ticket: usize = 0;
        while ticket < self.in_flight.len()
            invariant
                ticket <= self.in_flight.len(),
                forall|t: int|
                    0 <= t < ticket ==> (#[trigger] self.in_flight@[t] matches Some(parcel)
                        ==> parcel.lane != lane),
            decreases self.in_flight.len() - ticket,
        {
            if let Some(parcel) = &self.in_flight[ticket] {
                if parcel.lane == lane {
                    proof {
                        assert(self@.in_flight.contains_key(ticket as int));
                    }
                    return true;
                }
            }
            ticket = ticket + 1;
        }
        false
    }

    /// Ends the background work: closes the outputs that nothing can reach any more.
    fn stop(&mut self)
        requires
            old(self).wf(),
            !old(self)@.stopped,
            !old(self)@.direct_open,
            old(self)@.direct_input.items.len() == 0,
            old(self)@.broadcast_input.items.len() == 0,
        ensures
            final(self).wf(),
            final(self)@ == (NodeView { stopped: true, ..old(self)@ }),
    {
        let direct_busy = self.is_in_flight(Lane::Direct);
        let broadcast_busy = self.is_in_flight(Lane::Broadcast);
        self.stopped = true;
        if !direct_busy {
            self.direct_output.close();
        }
        if !broadcast_busy {
            self.broadcast_output.close();
        }
        proof {
            assert(self@ =~= (NodeView { stopped: true, ..old(self)@ }));
        }
    }

    /// Puts a message that was set aside at the end of its output; an output that nothing can
    /// reach after that is closed.
    pub fn release(&mut self, ticket: usize) -> (progress: Option<Progress>)
        requires
            old(self).wf(),
        ensures
            final(self).wf(),
            released(old(self)@, final(self)@, ticket as int, progress),
    {
        if ticket >= self.in_flight.len() {
            return None;
        }
        let lane = match &self.in_flight[ticket] {
            Some(parcel) => parcel.lane,
            None => return None,
        };
        assert(self@.in_flight.contains_key(ticket as int));
        let ghost parcel = self@.in_flight[ticket as int];
        let mut room = true;
        if let Some(taken) = self.in_flight[ticket].take() {
            room = match lane {
                Lane::Direct => put_message(&mut self.direct_output, taken.message),
                Lane::Broadcast => put_message(&mut self.broadcast_output, taken.message),
            };
        }
        if self.stopped && !self.is_in_flight(lane) {
            match lane {
                Lane::Direct => self.direct_output.close(),
                Lane::Broadcast => self.broadcast_output.close(),
            }
        }
        proof {
            let left = old(self)@.in_flight.remove(ticket as int);
            assert(self@.in_flight =~= left);
            assert(self@ =~= (NodeView { in_flight: left, ..old(self)@ }).delivered(
                lane,
                parcel.message,
            ));
            if old(self)@.lane_in_flight(lane.other_lane()) {
                let other = choose|t: int| #[trigger]
                    old(self)@.in_flight.contains_key(t) && old(self)@.in_flight[t].lane
                        == lane.other_lane();
                assert(self@.in_flight.contains_key(other));
            }
        }
        if room {
            Some(Progress::Delivered(lane))
        } else {
            Some(Progress::Blocked(lane))
        }
    }

    /// The lane whose message holds the background work up, where there is one.
    fn blocked_lane(&self) -> (lane: Option<Lane>)
        requires
            self.wf(),
        ensures
            lane == self@.stalled(),
    {
        if self.reliability_config.is_some() {
            None
        } else if self.direct_output.is_overfull() {
            Some(Lane::Direct)
        } else if self.broadcast_output.is_overfull() {
            Some(Lane::Broadcast)
        } else {
            None
        }
    }

    /// Whether the node takes messages on a lane.
    pub fn is_open(&self, lane: Lane) -> (open: bool)
        ensures
            open == self@.is_open(lane),
    {
        match lane {
            Lane::Direct => self.direct_input.is_open(),
            Lane::Broadcast => self.broadcast_input.is_open(),
        }
    }
}

impl<R: NetworkReliability> MemoryNetworkInner<R> {
    /// Asks the reliability model, where there is one, what becomes of a message.
    fn draw(&mut self) -> (fate: Fate)
        requires
            old(self).wf(),
        ensures
            final(self).wf(),
            final(self)@ == (NodeView {
                asked: old(self)@.asked.after_fate(fate),
                ..old(self)@
            }),
            possible_fate(old(self)@.reliability, fate),
            fate is InOrder <==> old(self)@.reliability is None,
    {
        let fate = match &mut self.reliability_config {
            Some(recorded) => recorded.draw(),
            None => Fate::InOrder,
        };
        proof {
            assert(self@ =~= (NodeView {
                asked: old(self)@.asked.after_fate(fate),
                ..old(self)@
            }));
        }
        fate
    }

    /// One step of the background work, with a decoder of the caller's. The lane that is
    /// favoured is looked at first.
    ///
    /// The reliability model is asked once for every message, when the message is looked at, and
    /// not for bytes that are no message.
    pub fn step_with<F: Fn(&Vec<u8>) -> Option<Vec<u8>>>(
        &mut self,
        favoured: Lane,
        decoder: &F,
    ) -> (progress: Progress)
        requires
            old(self).wf(),
            forall|bytes: &Vec<u8>| #[trigger] call_requires(*decoder, (bytes,)),
        ensures
            final(self).wf(),
            stepped(old(self)@, final(self)@, favoured, decodings(*decoder), progress),
    {
        if self.stopped {
            return Progress::Stopped;
        }
        if let Some(lane) = self.blocked_lane() {
            return Progress::Blocked(lane);
        }
        let mut lane = favoured;
        let mut taken = self.take_input(favoured);
        if taken.is_none() {
            lane = favoured.other();
            taken = self.take_input(lane);
        }
        match taken {
            Some(bytes) => {
                let ghost rest = self@;
                match decoder(&bytes) {
                    Some(message) => {
                        let fate = self.draw();
                        let ghost value = message@;
                        let progress = self.dispose(lane, message, fate);
                        proof {
                            assert(decodings(*decoder)(bytes@, content(Some(message))));
                            assert(disposed(
                                NodeView { asked: rest.asked.after_fate(fate), ..rest },
                                self@,
                                lane,
                                value,
                                fate,
                                progress,
                            ));
                        }
                        progress
                    },
                    None => {
                        proof {
                            assert(decodings(*decoder)(bytes@, content(None)));
                        }
                        Progress::Skipped(lane)
                    },
                }
            },
            None => {
                if self.is_open(Lane::Direct) || self.is_open(Lane::Broadcast) {
                    Progress::Idle
                } else {
                    self.stop();
                    Progress::Stopped
                }
            },
        }
    }

    /// One step of the background work on messages in the wire format.
    pub fn step(&mut self, favoured: Lane) -> (progress: Progress)
        requires
            old(self).wf(),
        ensures
            final(self).wf(),
            stepped(old(self)@, final(self)@, favoured, decoded_by(wire_reading()), progress),
    {
        let progress = self.step_with(favoured, &decode);
        proof {
            law_step_follows_reading(
                old(self)@,
                self@,
                favoured,
                decode,
                wire_reading(),
                progress,
            );
        }
        progress
    }
}

/// A step with a decoder is a step for any reading of bytes that the decoder keeps to.
pub proof fn law_step_follows_reading<R: NetworkReliability, F: Fn(&Vec<u8>) -> Option<Vec<u8>>>(
    before: NodeView<R>,
    after: NodeView<R>,
    favoured: Lane,
    decoder: F,
    reading: Reading,
    progress: Progress,
)
    requires
        stepped(before, after, favoured, decodings(decoder), progress),
        forall|bytes: &Vec<u8>, got: Option<Vec<u8>>| #[trigger]
            call_ensures(decoder, (bytes,), got) ==> content(got) == reading(bytes@),
    ensures
        stepped(before, after, favoured, decoded_by(reading), progress),
{
    if let Some(lane) = before.next_lane(favoured) {
        let bytes = before.input(lane).items[0];
        assert forall|message: Option<Seq<u8>>| #[trigger]
            decodings(decoder)(bytes, message) implies decoded_by(reading)(bytes, message) by {}
    }
}

} // verus!
