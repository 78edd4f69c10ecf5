//! Bounded queues of packets, held in `flume` channels.
//!
//! A [`Channel`] owns both ends of its channel and never hands one out, so what stands in it
//! changes only through its own methods. A packet for which the queue has no room stands in line
//! behind it, and every receipt moves the oldest of those into the queue. `flume` itself is
//! reached through the wrappers at the top of this module; what they claim of it is not proved
//! here.

use crate::line::{Line, QUEUE_CAPACITY};
use crate::types::{Packet, PacketView};
use vstd::prelude::*;

verus! {

/// The sending end of a `flume` channel.
#[verifier::external_type_specification]
#[verifier::external_body]
#[verifier::reject_recursive_types(T)]
pub struct ExSender<T>(flume::Sender<T>);

/// The receiving end of a `flume` channel.
#[verifier::external_type_specification]
#[verifier::external_body]
#[verifier::reject_recursive_types(T)]
pub struct ExReceiver<T>(flume::Receiver<T>);

/// The packets that wait in the channel of a receiver, the oldest first.
pub uninterp spec fn queued(rx: flume::Receiver<Packet>) -> Seq<PacketView>;

/// The capacity that the channel of a receiver was made with.
pub uninterp spec fn capacity(rx: flume::Receiver<Packet>) -> nat;

/// Whether the sender of the channel of a receiver is gone.
pub uninterp spec fn disconnected(rx: flume::Receiver<Packet>) -> bool;

/// Whether a sender and a receiver are the two ends of one channel, and its only ends.
pub uninterp spec fn paired(tx: flume::Sender<Packet>, rx: flume::Receiver<Packet>) -> bool;

/// What an attempt to receive came to.
#[derive(Debug)]
pub enum Received {
    /// The oldest packet that waited.
    Packet(Packet),
    /// Nothing waits, and more may come.
    Empty,
    /// Nothing waits, and nothing can come any more.
    Disconnected,
}

/// Calls `flume::bounded`: the two ends of a new channel, which is empty and connected and
/// holds at most `cap` packets.
#[verifier::external_body]
fn flume_bounded(cap: usize) -> (ends: (flume::Sender<Packet>, flume::Receiver<Packet>))
    ensures
        paired(ends.0, ends.1),
        queued(ends.1) == Seq::<PacketView>::empty(),
        capacity(ends.1) == cap,
        !disconnected(ends.1),
{
    flume::bounded(cap)
}

/// Calls `flume::Sender::try_send`: the packet joins the end of the queue, or comes back and
/// leaves the queue as it was when the channel is full.
///
/// The receiver is an argument because it stands for the queue that changes, and because a
/// channel whose receiver lives never refuses a packet for another reason.
#[verifier::external_body]
fn flume_try_send(
    tx: &flume::Sender<Packet>,
    rx: &mut flume::Receiver<Packet>,
    packet: Packet,
) -> (res: Result<(), Packet>)
    requires
        paired(*tx, *old(rx)),
    ensures
        paired(*tx, *final(rx)),
        capacity(*final(rx)) == capacity(*old(rx)),
        disconnected(*final(rx)) == disconnected(*old(rx)),
        res is Ok <==> queued(*old(rx)).len() < capacity(*old(rx)),
        res is Ok ==> queued(*final(rx)) == queued(*old(rx)).push(packet@),
        res matches Err(back) ==> back == packet && queued(*final(rx)) == queued(*old(rx)),
{
    tx.try_send(packet).map_err(|refused| refused.into_inner())
}

/// Calls `flume::Receiver::try_recv`: takes the oldest packet, or tells an empty channel that
/// still has its sender from an empty channel that has lost it.
///
/// The sender is an argument because a channel stays connected as long as its sender lives. The
/// capacity is bounded because the call adds one to it.
#[verifier::external_body]
fn flume_try_recv(
    tx: &Option<flume::Sender<Packet>>,
    rx: &mut flume::Receiver<Packet>,
) -> (res: Received)
    requires
        match *tx {
            Some(sender) => paired(sender, *old(rx)) && !disconnected(*old(rx)),
            None => disconnected(*old(rx)),
        },
        capacity(*old(rx)) < usize::MAX,
    ensures
        *tx matches Some(sender) ==> paired(sender, *final(rx)),
        capacity(*final(rx)) == capacity(*old(rx)),
        disconnected(*final(rx)) == disconnected(*old(rx)),
        match res {
            Received::Packet(packet) => {
                &&& queued(*old(rx)).len() > 0
                &&& packet@ == queued(*old(rx))[0]
                &&& queued(*final(rx)) == queued(*old(rx)).drop_first()
            },
            Received::Empty => {
                &&& queued(*old(rx)).len() == 0 && !disconnected(*old(rx))
                &&& queued(*final(rx)) == queued(*old(rx))
            },
            Received::Disconnected => {
                &&& queued(*old(rx)).len() == 0 && disconnected(*old(rx))
                &&& queued(*final(rx)) == queued(*old(rx))
            },
        },
{
    match rx.try_recv() {
        Ok(packet) => Received::Packet(packet),
        Err(flume::TryRecvError::Empty) => Received::Empty,
        Err(flume::TryRecvError::Disconnected) => Received::Disconnected,
    }
}

/// Runs `Drop` of `flume::Sender`: the channel loses its only sender and is disconnected; what
/// waits in it stays.
#[verifier::external_body]
fn flume_drop_sender(tx: flume::Sender<Packet>, rx: &mut flume::Receiver<Packet>)
    requires
        paired(tx, *old(rx)),
    ensures
        disconnected(*final(rx)),
        capacity(*final(rx)) == capacity(*old(rx)),
        queued(*final(rx)) == queued(*old(rx)),
{
    drop(tx)
}

/// What a channel did with a packet.
#[derive(Debug)]
pub enum Intake<M> {
    /// It is in the queue.
    Accepted,
    /// It stands in line, and its sender can ask by this ticket whether it got room.
    Queued(usize),
    /// It came back because the channel was closed.
    Closed(M),
}

/// A packet that has no room in the queue.
#[derive(Debug)]
struct Waiting {
    /// The packet.
    packet: Packet,
    /// The ticket by which its sender asks for it, where it does.
    ticket: Option<usize>,
}

/// What is known of a ticket.
#[derive(Clone, Copy, Debug, PartialEq, Eq, Structural)]
enum Slot {
    /// Nobody holds it.
    Free,
    /// Its packet waits for room.
    Waiting,
    /// Its packet got room, and its sender was not told yet.
    Arrived,
}

/// A first-in, first-out queue with room for [`QUEUE_CAPACITY`] packets, and a line of packets
/// that wait for room. It can be closed.
#[derive(Debug)]
pub struct Channel {
    /// The sending end, until the channel is closed and nothing waits for room.
    tx: Option<flume::Sender<Packet>>,
    /// The receiving end.
    rx: flume::Receiver<Packet>,
    /// Whether packets may still join the line.
    open: bool,
    /// The packets that wait for room, the oldest first.
    waiting: Vec<Waiting>,
    /// What is known of each ticket.
    slots: Vec<Slot>,
}

/// The mathematical value of a [`Channel`].
#[verifier::ext_equal]
pub struct ChannelView {
    /// The packets that can be received, and those that wait for room.
    pub line: Line<PacketView>,
    /// Whether packets may still join the line.
    pub open: bool,
}

/// The packets that wait for room.
spec fn packets(waiting: Seq<Waiting>) -> Seq<PacketView> {
    waiting.map_values(|w: Waiting| w.packet@)
}

/// The tickets of the packets that wait for room.
spec fn tickets(waiting: Seq<Waiting>) -> Seq<Option<int>> {
    waiting.map_values(
        |w: Waiting|
            match w.ticket {
                Some(ticket) => Some(ticket as int),
                None => None,
            },
    )
}

/// The tickets whose packets got room.
spec fn arrivals(slots: Seq<Slot>) -> Set<int> {
    Set::new(|ticket: int| 0 <= ticket < slots.len() && slots[ticket] is Arrived)
}

impl View for Channel {
    type V = ChannelView;

    closed spec fn view(&self) -> ChannelView {
        ChannelView {
            line: Line {
                items: queued(self.rx) + packets(self.waiting@),
                senders: tickets(self.waiting@),
                arrived: arrivals(self.slots@),
            },
            open: self.open,
        }
    }
}

impl Channel {
    /// The two ends belong together, the queue is within its bound, packets wait only where
    /// there is no room, and every ticket of a packet that waits is marked so.
    pub closed spec fn wf(&self) -> bool {
        &&& capacity(self.rx) == QUEUE_CAPACITY
        &&& queued(self.rx).len() <= QUEUE_CAPACITY
        &&& self.waiting@.len() > 0 ==> queued(self.rx).len() == QUEUE_CAPACITY
        &&& self.tx is Some <==> self.open || self.waiting@.len() > 0
        &&& match self.tx {
            Some(tx) => paired(tx, self.rx) && !disconnected(self.rx),
            None => disconnected(self.rx),
        }
        &&& forall|i: int|
            0 <= i < self.waiting@.len() ==> (#[trigger] self.waiting@[i].ticket matches Some(t)
                ==> t < self.slots@.len() && self.slots@[t as int] is Waiting)
        &&& forall|i: int, j: int|
            0 <= i < j < self.waiting@.len() && self.waiting@[i].ticket is Some
                ==> #[trigger] self.waiting@[i].ticket != #[trigger] self.waiting@[j].ticket
    }

    /// A sound channel holds a valid line.
    pub proof fn lemma_valid(&self)
        requires
            self.wf(),
        ensures
            self@.line.valid(),
    {
        let senders = self@.line.senders;
        assert forall|i: int, j: int| 0 <= i < j < senders.len() && senders[i] is Some implies
            #[trigger] senders[i] != #[trigger] senders[j] by {
            assert(self.waiting@[i].ticket != self.waiting@[j].ticket);
        }
        assert forall|i: int| 0 <= i < senders.len() implies (#[trigger] senders[i] matches Some(t)
            ==> !self@.line.arrived.contains(t)) by {
            assert(self.waiting@[i].ticket matches Some(t) ==> self.slots@[t as int] is Waiting);
        }
    }

    /// A new channel, empty and open.
    pub fn new() -> (channel: Channel)
        ensures
            channel.wf(),
            channel@ == (ChannelView { line: Line::empty(), open: true }),
    {
        let (tx, rx) = flume_bounded(QUEUE_CAPACITY);
        let channel = Channel {
            tx: Some(tx),
            rx,
            open: true,
            waiting: Vec::new(),
            slots: Vec::new(),
        };
        proof {
            assert(channel@.line =~= Line::empty());
        }
        channel
    }

    /// Puts a packet into the queue of an open channel that has room, and hands it back
    /// otherwise.
    fn try_send(&mut self, packet: Packet) -> (res: Result<(), Packet>)
        requires
            old(self).wf(),
            old(self)@.open,
        ensures
            final(self).wf(),
            match res {
                Ok(_) => old(self)@.line.has_room() && final(self)@ == (ChannelView {
                    line: old(self)@.line.joined(packet@, None),
                    ..old(self)@
                }),
                Err(back) => !old(self)@.line.has_room() && final(self)@ == old(self)@ && back
                    == packet,
            },
    {
        if self.waiting.len() > 0 {
            return Err(packet);
        }
        match &self.tx {
            Some(tx) => {
                let ghost line = self@.line;
                match flume_try_send(tx, &mut self.rx, packet) {
                    Ok(()) => {
                        proof {
                            assert(self@ =~= (ChannelView {
                                line: line.joined(packet@, None),
                                ..old(self)@
                            }));
                        }
                        Ok(())
                    },
                    Err(back) => Err(back),
                }
            },
            // An open channel has its sending end.
            None => Err(packet),
        }
    }

    /// Puts a packet at the end of the line. Where it has no room, the ticket says so, and
    /// [`Channel::settle`] tells when it got room. A closed channel hands the packet back.
    pub fn send(&mut self, packet: Packet) -> (res: Intake<Packet>)
        requires
            old(self).wf(),
        ensures
            final(self).wf(),
            match res {
                Intake::Accepted => {
                    &&& old(self)@.open && old(self)@.line.has_room()
                    &&& final(self)@ == (ChannelView {
                        line: old(self)@.line.joined(packet@, None),
                        ..old(self)@
                    })
                },
                Intake::Queued(ticket) => {
                    &&& old(self)@.open && !old(self)@.line.has_room()
                    &&& !old(self)@.line.in_use(ticket as int)
                    &&& final(self)@ == (ChannelView {
                        line: old(self)@.line.joined(packet@, Some(ticket as int)),
                        ..old(self)@
                    })
                },
                Intake::Closed(back) => {
                    &&& !old(self)@.open
                    &&& final(self)@ == old(self)@
                    &&& back == packet
                },
            },
    {
        if !self.open {
            return Intake::Closed(packet);
        }
        match self.try_send(packet) {
            Ok(()) => Intake::Accepted,
            Err(back) => {
                let ticket = self.reserve();
                self.enqueue(back, Some(ticket));
                Intake::Queued(ticket)
            },
        }
    }

    /// Puts a packet at the end of the line of an open channel for a sender that does not ask
    /// for it; says whether it got room.
    pub fn put(&mut self, packet: Packet) -> (room: bool)
        requires
            old(self).wf(),
            old(self)@.open,
        ensures
            final(self).wf(),
            room == old(self)@.line.has_room(),
            final(self)@ == (ChannelView {
                line: old(self)@.line.joined(packet@, None),
                ..old(self)@
            }),
    {
        match self.try_send(packet) {
            Ok(()) => true,
            Err(back) => {
                self.enqueue(back, None);
                false
            },
        }
    }

    /// Takes a ticket that nobody holds and marks it as that of a packet that waits.
    fn reserve(&mut self) -> (ticket: usize)
        requires
            old(self).wf(),
        ensures
            final(self).wf(),
            final(self)@ == old(self)@,
            final(self).waiting == old(self).waiting,
            final(self).open == old(self).open,
            final(self).rx == old(self).rx,
            ticket < final(self).slots@.len() && final(self).slots@[ticket as int] is Waiting,
            !old(self)@.line.in_use(ticket as int),
            forall|i: int|
                0 <= i < old(self).waiting@.len() ==> #[trigger] old(self).waiting@[i].ticket
                    != Some(ticket),
    {
        let mut ticket: usize = 0;
        while ticket < self.slots.len() && self.slots[ticket] != Slot::Free
            invariant
                ticket <= self.slots.len(),
                *self == *old(self),
            decreases self.slots.len() - ticket,
        {
            ticket = ticket + 1;
        }
        if ticket < self.slots.len() {
            self.slots[ticket] = Slot::Waiting;
        } else {
            self.slots.push(Slot::Waiting);
        }
        proof {
            let before = *old(self);
            assert(forall|i: int|
                0 <= i < before.waiting@.len() ==> #[trigger] before.waiting@[i].ticket != Some(
                    ticket,
                ));
            assert(self@.line =~= before@.line);
            let senders = before@.line.senders;
            if senders.contains(Some(ticket as int)) {
                let i = senders.index_of(Some(ticket as int));
                assert(before.waiting@[i].ticket == Some(ticket));
            }
        }
        ticket
    }

    /// Puts a packet behind those that wait for room.
    fn enqueue(&mut self, packet: Packet, ticket: Option<usize>)
        requires
            old(self).wf(),
            old(self).open,
            !old(self)@.line.has_room(),
            ticket matches Some(t) ==> t < old(self).slots@.len() && old(self).slots@[t as int]
                is Waiting && forall|i: int|
                0 <= i < old(self).waiting@.len() ==> #[trigger] old(self).waiting@[i].ticket
                    != Some(t),
        ensures
            final(self).wf(),
            final(self)@ == (ChannelView {
                line: old(self)@.line.joined(
                    packet@,
                    match ticket {
                        Some(t) => Some(t as int),
                        None => None,
                    },
                ),
                ..old(self)@
            }),
    {
        self.waiting.push(Waiting { packet, ticket });
        proof {
            assert(self@.line =~= old(self)@.line.joined(
                packet@,
                match ticket {
                    Some(t) => Some(t as int),
                    None => None,
                },
            ));
        }
    }

    /// Takes the oldest packet, which makes room for the one that has waited longest; says of an
    /// empty channel whether more may come.
    pub fn receive(&mut self) -> (res: Received)
        requires
            old(self).wf(),
        ensures
            final(self).wf(),
            match res {
                Received::Packet(packet) => {
                    &&& old(self)@.line.items.len() > 0
                    &&& packet@ == old(self)@.line.items[0]
                    &&& final(self)@ == (ChannelView {
                        line: old(self)@.line.advanced(),
                        ..old(self)@
                    })
                },
                Received::Empty => {
                    &&& old(self)@.line.items.len() == 0 && old(self)@.open
                    &&& final(self)@ == old(self)@
                },
                Received::Disconnected => {
                    &&& old(self)@.line.items.len() == 0 && !old(self)@.open
                    &&& final(self)@ == old(self)@
                },
            },
    {
        let ghost line = self@.line;
        let res = flume_try_recv(&self.tx, &mut self.rx);
        if self.waiting.len() > 0 {
            let first = self.waiting.remove(0);
            if let Some(tx) = &self.tx {
                let _ = flume_try_send(tx, &mut self.rx, first.packet);
            }
            if let Some(ticket) = first.ticket {
                self.slots[ticket] = Slot::Arrived;
            }
            if !self.open && self.waiting.len() == 0 {
                self.disconnect();
            }
        }
        proof {
            if res is Packet {
                let before = *old(self);
                assert(self@.line.items =~= line.advanced().items);
                assert(self@.line.senders =~= line.advanced().senders);
                assert(self@.line.arrived =~= line.advanced().arrived) by {
                    if before.waiting@.len() > 0 {
                        assert(before@.line.senders[0] == tickets(before.waiting@)[0]);
                    }
                }
                assert(self@.line =~= line.advanced());
            } else {
                assert(self@.line =~= line);
            }
        }
        res
    }

    /// Drops the sending end.
    fn disconnect(&mut self)
        requires
            old(self).tx matches Some(tx) && paired(tx, old(self).rx),
        ensures
            final(self).tx is None,
            disconnected(final(self).rx),
            capacity(final(self).rx) == capacity(old(self).rx),
            queued(final(self).rx) == queued(old(self).rx),
            final(self).open == old(self).open,
            final(self).waiting == old(self).waiting,
            final(self).slots == old(self).slots,
    {
        match self.tx.take() {
            Some(tx) => flume_drop_sender(tx, &mut self.rx),
            None => {},
        }
    }

    /// Whether the packet of a ticket got room; a sender that is told gives the ticket back.
    pub fn settle(&mut self, ticket: usize) -> (arrived: bool)
        requires
            old(self).wf(),
        ensures
            final(self).wf(),
            arrived == old(self)@.line.arrived.contains(ticket as int),
            final(self)@ == if arrived {
                ChannelView { line: old(self)@.line.acknowledged(ticket as int), ..old(self)@ }
            } else {
                old(self)@
            },
    {
        if ticket < self.slots.len() && self.slots[ticket] == Slot::Arrived {
            self.slots[ticket] = Slot::Free;
            proof {
                assert(self@.line =~= old(self)@.line.acknowledged(ticket as int));
            }
            true
        } else {
            false
        }
    }

    /// Closes the channel: nothing more joins the line, and what stands in it can still be
    /// received.
    pub fn close(&mut self)
        requires
            old(self).wf(),
        ensures
            final(self).wf(),
            final(self)@ == (ChannelView { open: false, ..old(self)@ }),
    {
        if self.open {
            self.open = false;
            if self.waiting.len() == 0 {
                self.disconnect();
            }
        }
    }

    /// Whether packets may still join the line.
    pub fn is_open(&self) -> (open: bool)
        ensures
            open == self@.open,
    {
        self.open
    }

    /// Whether packets wait for room.
    pub fn is_overfull(&self) -> (overfull: bool)
        requires
            self.wf(),
        ensures
            overfull <==> self@.line.items.len() > QUEUE_CAPACITY,
    {
        self.waiting.len() > 0
    }
}

} // verus!
