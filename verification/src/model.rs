//! The mathematical model of a node and of a group of nodes.
//!
//! Contracts and laws speak of these values: lines for what was sent, sequences for what can be
//! received, a map for the deliveries that are under way, and a map from keys to nodes for the
//! group.

use crate::line::{Line, QUEUE_CAPACITY};
use crate::reliability::{possible_fate, pause, Asked, Fate, NetworkReliability};
use crate::types::{Lane, NetworkChange, NetworkError, PubKey};
use vstd::prelude::*;

verus! {

/// A message on its way to a queue of its node.
#[verifier::ext_equal]
pub struct ParcelView {
    /// The queue that the message is for.
    pub lane: Lane,
    /// The message.
    pub message: Seq<u8>,
}

/// What one step of the background work of a node did.
#[derive(Clone, Copy, Debug, PartialEq, Eq, Structural)]
pub enum Progress {
    /// Nothing waits; more may come.
    Idle,
    /// Nothing waits, nothing can come any more, and the work is over.
    Stopped,
    /// The oldest bytes of the lane were no message and were skipped.
    Skipped(Lane),
    /// A message reached the queue of the lane.
    Delivered(Lane),
    /// A message of the lane stands in line behind its queue, which is full. Without a
    /// reliability model nothing else is looked at until the message has room.
    Blocked(Lane),
    /// A message of the lane was lost.
    Dropped(Lane),
    /// A message of the lane was set aside under a ticket.
    Scheduled {
        /// The lane of the message.
        lane: Lane,
        /// The ticket that the message is delivered by.
        ticket: usize,
        /// For how many nanoseconds to wait before the message is delivered.
        pause: Option<u128>,
    },
}

/// The mathematical value of a node.
#[verifier::ext_equal]
pub struct NodeView<R> {
    /// The key of the node.
    pub pub_key: PubKey,
    /// Whether the node takes messages for this node.
    pub direct_open: bool,
    /// Whether the node takes messages for every node.
    pub broadcast_open: bool,
    /// Whether the node takes news.
    pub news_open: bool,
    /// The bytes that were sent to this node and not looked at yet.
    pub direct_input: Line<Seq<u8>>,
    /// The bytes that were sent to every node and not looked at yet.
    pub broadcast_input: Line<Seq<u8>>,
    /// The messages for this node that can be received, those behind the queue among them.
    pub direct_output: Seq<Seq<u8>>,
    /// The messages for every node that can be received, those behind the queue among them.
    pub broadcast_output: Seq<Seq<u8>>,
    /// The news that can be received.
    pub changes: Line<NetworkChange>,
    /// The reliability model, where there is one.
    pub reliability: Option<R>,
    /// What the reliability model was asked.
    pub asked: Asked,
    /// The messages that are delivered on their own, by ticket.
    pub in_flight: Map<int, ParcelView>,
    /// Whether the background work is over.
    pub stopped: bool,
}

impl<R> NodeView<R> {
    /// A node that was just attached.
    pub open spec fn fresh(pub_key: PubKey, reliability: Option<R>) -> NodeView<R> {
        NodeView {
            pub_key,
            direct_open: true,
            broadcast_open: true,
            news_open: true,
            direct_input: Line::empty(),
            broadcast_input: Line::empty(),
            direct_output: Seq::empty(),
            broadcast_output: Seq::empty(),
            changes: Line::empty(),
            reliability,
            asked: Asked::nothing(),
            in_flight: Map::empty(),
            stopped: false,
        }
    }

    /// The bytes of a lane that were not looked at yet.
    pub open spec fn input(self, lane: Lane) -> Line<Seq<u8>> {
        match lane {
            Lane::Direct => self.direct_input,
            Lane::Broadcast => self.broadcast_input,
        }
    }

    /// The messages of a lane that can be received, the oldest first.
    pub open spec fn output(self, lane: Lane) -> Seq<Seq<u8>> {
        match lane {
            Lane::Direct => self.direct_output,
            Lane::Broadcast => self.broadcast_output,
        }
    }

    /// The node with other bytes in the input of a lane.
    pub open spec fn with_input(self, lane: Lane, line: Line<Seq<u8>>) -> NodeView<R> {
        match lane {
            Lane::Direct => NodeView { direct_input: line, ..self },
            Lane::Broadcast => NodeView { broadcast_input: line, ..self },
        }
    }

    /// The node with other messages in the output of a lane.
    pub open spec fn with_output(self, lane: Lane, queue: Seq<Seq<u8>>) -> NodeView<R> {
        match lane {
            Lane::Direct => NodeView { direct_output: queue, ..self },
            Lane::Broadcast => NodeView { broadcast_output: queue, ..self },
        }
    }

    /// Whether the node takes messages on a lane.
    pub open spec fn is_open(self, lane: Lane) -> bool {
        match lane {
            Lane::Direct => self.direct_open,
            Lane::Broadcast => self.broadcast_open,
        }
    }

    /// Whether bytes sent on the lane have room at once.
    pub open spec fn accepts(self, lane: Lane) -> bool {
        self.is_open(lane) && self.input(lane).has_room()
    }

    /// The node after bytes have joined the input of a lane; the ticket counts only where there
    /// is no room.
    pub open spec fn given(self, lane: Lane, bytes: Seq<u8>, ticket: Option<int>) -> NodeView<R> {
        self.with_input(lane, self.input(lane).joined(bytes, ticket))
    }

    /// The node after a sender was told that its bytes got room on a lane.
    pub open spec fn settled(self, lane: Lane, ticket: int) -> NodeView<R> {
        self.with_input(lane, self.input(lane).acknowledged(ticket))
    }

    /// Whether news has room at once.
    pub open spec fn accepts_news(self) -> bool {
        self.news_open && self.changes.has_room()
    }

    /// The node after it was told of a change; the ticket counts only where there is no room.
    pub open spec fn told(self, change: NetworkChange, ticket: Option<int>) -> NodeView<R> {
        NodeView { changes: self.changes.joined(change, ticket), ..self }
    }

    /// The node after a sender was told that its news got room.
    pub open spec fn settled_news(self, ticket: int) -> NodeView<R> {
        NodeView { changes: self.changes.acknowledged(ticket), ..self }
    }

    /// The node after a message has joined the output of its lane.
    pub open spec fn delivered(self, lane: Lane, message: Seq<u8>) -> NodeView<R> {
        self.with_output(lane, self.output(lane).push(message))
    }

    /// Whether the output of the lane has room for a message.
    pub open spec fn has_room(self, lane: Lane) -> bool {
        self.output(lane).len() < QUEUE_CAPACITY
    }

    /// What is said of a message that joins the output of the lane.
    pub open spec fn arrival(self, lane: Lane) -> Progress {
        if self.has_room(lane) {
            Progress::Delivered(lane)
        } else {
            Progress::Blocked(lane)
        }
    }

    /// The lane whose message holds the background work up, where there is one. Only without a
    /// reliability model does the work wait until a message has room.
    pub open spec fn stalled(self) -> Option<Lane> {
        if self.reliability is Some {
            None
        } else if self.direct_output.len() > QUEUE_CAPACITY {
            Some(Lane::Direct)
        } else if self.broadcast_output.len() > QUEUE_CAPACITY {
            Some(Lane::Broadcast)
        } else {
            None
        }
    }

    /// Whether a message of the lane is delivered on its own.
    pub open spec fn lane_in_flight(self, lane: Lane) -> bool {
        exists|ticket: int| #[trigger]
            self.in_flight.contains_key(ticket) && self.in_flight[ticket].lane == lane
    }

    /// Whether nothing can reach the output of the lane any more.
    pub open spec fn finished(self, lane: Lane) -> bool {
        self.stopped && !self.lane_in_flight(lane)
    }

    /// The lane that the background work looks at next when it favours one of the two.
    pub open spec fn next_lane(self, favoured: Lane) -> Option<Lane> {
        if self.input(favoured).items.len() > 0 {
            Some(favoured)
        } else if self.input(favoured.other_lane()).items.len() > 0 {
            Some(favoured.other_lane())
        } else {
            None
        }
    }

    /// Whether a sender stands in line at the node.
    pub open spec fn has_senders(self) -> bool {
        self.direct_input.senders.len() > 0 || self.broadcast_input.senders.len() > 0
            || self.changes.senders.len() > 0
    }

    /// The node after it was shut down as far as that goes: its inputs are closed in turn, and
    /// the next one only when no sender stands in line at the one before. A node at which
    /// senders stand in line goes on taking what the inputs behind are for.
    pub open spec fn shut(self) -> NodeView<R> {
        let first = NodeView { broadcast_open: false, ..self };
        let second = NodeView { direct_open: false, ..first };
        if self.broadcast_input.senders.len() > 0 {
            first
        } else if self.direct_input.senders.len() > 0 {
            second
        } else {
            NodeView { news_open: false, ..second }
        }
    }

    /// Whether the node is shut down for good: it takes nothing any more, and no sender stands in
    /// line.
    pub open spec fn is_shut(self) -> bool {
        !self.broadcast_open && !self.direct_open && !self.news_open && !self.has_senders()
    }

    /// What holds of every node: its lines are valid, its inputs are closed in turn, only a node
    /// whose inputs for messages are closed and that has looked at everything has stopped, and a
    /// node without a reliability model delivers one message after the other, so that at most one
    /// of them has no room.
    pub open spec fn valid(self) -> bool {
        &&& self.direct_input.valid() && self.broadcast_input.valid()
        &&& self.changes.valid()
        &&& !self.direct_open ==> !self.broadcast_open && self.broadcast_input.senders.len() == 0
        &&& !self.news_open ==> !self.direct_open && self.direct_input.senders.len() == 0
        &&& self.stopped ==> !self.direct_open && self.direct_input.items.len() == 0
            && self.broadcast_input.items.len() == 0
        &&& self.reliability is None ==> {
            &&& self.in_flight == Map::<int, ParcelView>::empty()
            &&& self.direct_output.len() <= QUEUE_CAPACITY + 1
            &&& self.broadcast_output.len() <= QUEUE_CAPACITY + 1
            &&& self.direct_output.len() <= QUEUE_CAPACITY || self.broadcast_output.len()
                <= QUEUE_CAPACITY
        }
        &&& self.in_flight.dom().finite()
    }
}

/// What becomes of a message of a lane once its fate is known.
pub open spec fn disposed<R>(
    before: NodeView<R>,
    after: NodeView<R>,
    lane: Lane,
    message: Seq<u8>,
    fate: Fate,
    progress: Progress,
) -> bool {
    match fate {
        Fate::InOrder => after == before.delivered(lane, message) && progress == before.arrival(
            lane,
        ),
        Fate::Lost => after == before && progress == Progress::Dropped(lane),
        Fate::Delayed(delay) => {
            &&& progress matches Progress::Scheduled { lane: l, ticket, pause: p }
            &&& l == lane && p == pause(delay)
            &&& !before.in_flight.contains_key(ticket as int)
            &&& after == (NodeView {
                in_flight: before.in_flight.insert(ticket as int, ParcelView { lane, message }),
                ..before
            })
        },
    }
}

/// One step of the background work of a node that favours a lane: it is held up while a message
/// has no room, and otherwise looks at the oldest bytes of a lane; the work is over when the node
/// takes no messages any more and nothing waits. `decodes` relates bytes to what they can be read
/// as.
pub open spec fn stepped<R: NetworkReliability>(
    before: NodeView<R>,
    after: NodeView<R>,
    favoured: Lane,
    decodes: spec_fn(Seq<u8>, Option<Seq<u8>>) -> bool,
    progress: Progress,
) -> bool {
    if before.stopped {
        after == before && progress == Progress::Stopped
    } else if let Some(lane) = before.stalled() {
        after == before && progress == Progress::Blocked(lane)
    } else if let Some(lane) = before.next_lane(favoured) {
        let bytes = before.input(lane).items[0];
        let rest = before.with_input(lane, before.input(lane).advanced());
        ||| decodes(bytes, None) && after == rest && progress == Progress::Skipped(lane)
        ||| exists|message: Seq<u8>, fate: Fate| #[trigger]
            disposed(
                NodeView { asked: before.asked.after_fate(fate), ..rest },
                after,
                lane,
                message,
                fate,
                progress,
            ) && decodes(bytes, Some(message)) && possible_fate(before.reliability, fate)
    } else if before.direct_open || before.broadcast_open {
        after == before && progress == Progress::Idle
    } else {
        after == (NodeView { stopped: true, ..before }) && progress == Progress::Stopped
    }
}

/// The delivery of a message that was set aside under a ticket.
pub open spec fn released<R>(
    before: NodeView<R>,
    after: NodeView<R>,
    ticket: int,
    progress: Option<Progress>,
) -> bool {
    if !before.in_flight.contains_key(ticket) {
        after == before && progress is None
    } else {
        let parcel = before.in_flight[ticket];
        after == (NodeView { in_flight: before.in_flight.remove(ticket), ..before }).delivered(
            parcel.lane,
            parcel.message,
        ) && progress == Some(before.arrival(parcel.lane))
    }
}

/// The receipt of the oldest message of a lane. An empty lane is an error once nothing can reach
/// it any more, and until then there is nothing yet.
pub open spec fn received<R>(
    before: NodeView<R>,
    after: NodeView<R>,
    lane: Lane,
    res: Result<Option<Seq<u8>>, NetworkError>,
) -> bool {
    let queue = before.output(lane);
    if queue.len() > 0 {
        after == before.with_output(lane, queue.drop_first()) && res == Ok::<_, NetworkError>(
            Some(queue[0]),
        )
    } else if before.finished(lane) {
        after == before && res == Err::<Option<Seq<u8>>, _>(NetworkError::ShutDown)
    } else {
        after == before && res == Ok::<_, NetworkError>(None::<Seq<u8>>)
    }
}

/// The receipt of every message of a lane, the oldest first.
pub open spec fn drained<R>(
    before: NodeView<R>,
    after: NodeView<R>,
    lane: Lane,
    res: Result<Option<Seq<Seq<u8>>>, NetworkError>,
) -> bool {
    let queue = before.output(lane);
    if queue.len() > 0 {
        after == before.with_output(lane, Seq::empty()) && res == Ok::<_, NetworkError>(Some(queue))
    } else if before.finished(lane) {
        after == before && res == Err::<Option<Seq<Seq<u8>>>, _>(NetworkError::ShutDown)
    } else {
        after == before && res == Ok::<_, NetworkError>(None::<Seq<Seq<u8>>>)
    }
}

/// The receipt of all news, the oldest first. No news is an error once the node takes none any
/// more.
pub open spec fn drained_changes<R>(
    before: NodeView<R>,
    after: NodeView<R>,
    res: Result<Option<Seq<NetworkChange>>, NetworkError>,
) -> bool {
    if before.changes.items.len() > 0 {
        after == (NodeView { changes: before.changes.cleared(), ..before }) && res == Ok::<
            _,
            NetworkError,
        >(Some(before.changes.items))
    } else if before.news_open {
        after == before && res == Ok::<_, NetworkError>(None::<Seq<NetworkChange>>)
    } else {
        after == before && res == Err::<Option<Seq<NetworkChange>>, _>(NetworkError::ShutDown)
    }
}

/// The mathematical value of a group of nodes.
#[verifier::ext_equal]
pub struct GroupView<R> {
    /// The nodes that can be found, by key.
    pub registry: Map<PubKey, int>,
    /// Every node that was ever attached, in the order of their attachment.
    pub nodes: Seq<NodeView<R>>,
    /// The number that tells the group from others.
    pub id: u64,
}

impl<R> GroupView<R> {
    /// A group without nodes.
    pub open spec fn empty(id: u64) -> GroupView<R> {
        GroupView { registry: Map::empty(), nodes: Seq::empty(), id }
    }

    /// Whether the node at this place can be found by its key.
    pub open spec fn listed(self, slot: int) -> bool {
        &&& 0 <= slot < self.nodes.len()
        &&& self.registry.contains_key(self.nodes[slot].pub_key)
        &&& self.registry[self.nodes[slot].pub_key] == slot
    }

    /// Whether every key of the registry leads to a node that has this key.
    pub open spec fn leads_right(self) -> bool {
        forall|key: PubKey| #[trigger]
            self.registry.contains_key(key) ==> 0 <= self.registry[key] < self.nodes.len()
                && self.nodes[self.registry[key]].pub_key == key
    }

    /// What holds of every group: each of its nodes is valid, and a key leads to a node that
    /// has this key.
    pub open spec fn valid(self) -> bool {
        &&& forall|slot: int|
            0 <= slot < self.nodes.len() ==> (#[trigger] self.nodes[slot]).valid()
        &&& self.leads_right()
    }

    /// The places of the nodes that keys lead to.
    pub open spec fn slots(self, keys: Seq<PubKey>) -> Seq<int> {
        keys.map_values(|key: PubKey| self.registry[key])
    }

    /// Whether a list names keys that lead to a node only, and each of them once.
    pub open spec fn knows(self, keys: Seq<PubKey>) -> bool {
        &&& keys.no_duplicates()
        &&& forall|i: int| 0 <= i < keys.len() ==> self.registry.contains_key(#[trigger] keys[i])
    }

    /// The group with another value at one place.
    pub open spec fn with_node(self, slot: int, node: NodeView<R>) -> GroupView<R> {
        GroupView { nodes: self.nodes.update(slot, node), ..self }
    }

    /// The group after bytes have joined the input of a lane of the nodes at some places, which
    /// have room.
    pub open spec fn given(self, lane: Lane, bytes: Seq<u8>, slots: Seq<int>) -> GroupView<R> {
        GroupView {
            nodes: Seq::new(
                self.nodes.len(),
                |slot: int|
                    if slots.contains(slot) {
                        self.nodes[slot].given(lane, bytes, None)
                    } else {
                        self.nodes[slot]
                    },
            ),
            ..self
        }
    }

    /// The group after the nodes at some places, which have room, were told of a change.
    pub open spec fn told(self, change: NetworkChange, slots: Seq<int>) -> GroupView<R> {
        GroupView {
            nodes: Seq::new(
                self.nodes.len(),
                |slot: int|
                    if slots.contains(slot) {
                        self.nodes[slot].told(change, None)
                    } else {
                        self.nodes[slot]
                    },
            ),
            ..self
        }
    }

    /// The group with one more node, which is found by its key.
    pub open spec fn with_new(self, pub_key: PubKey, reliability: Option<R>) -> GroupView<R> {
        GroupView {
            registry: self.registry.insert(pub_key, self.nodes.len() as int),
            nodes: self.nodes.push(NodeView::fresh(pub_key, reliability)),
            ..self
        }
    }

    /// Whether every node that can be found has room for news at once.
    pub open spec fn accepts_news(self) -> bool {
        forall|slot: int| #[trigger] self.listed(slot) ==> self.nodes[slot].accepts_news()
    }

    /// The group after a node was attached without waiting: every node that could be found was
    /// told, and the new node is found by its key.
    pub open spec fn attached(self, pub_key: PubKey, reliability: Option<R>) -> GroupView<R> {
        GroupView {
            registry: self.registry.insert(pub_key, self.nodes.len() as int),
            nodes: Seq::new(
                self.nodes.len(),
                |slot: int|
                    if self.listed(slot) {
                        self.nodes[slot].told(NetworkChange::NodeConnected(pub_key), None)
                    } else {
                        self.nodes[slot]
                    },
            ).push(NodeView::fresh(pub_key, reliability)),
            ..self
        }
    }

    /// Whether every node of an earlier state of the group is still at its place, under its key,
    /// and every key that led to a node still leads to one.
    pub open spec fn keeps_nodes_of(self, earlier: GroupView<R>) -> bool {
        &&& earlier.nodes.len() <= self.nodes.len()
        &&& forall|key: PubKey| #[trigger]
            earlier.registry.contains_key(key) ==> self.registry.contains_key(key)
        &&& forall|slot: int|
            0 <= slot < earlier.nodes.len() ==> (#[trigger] self.nodes[slot]).pub_key
                == earlier.nodes[slot].pub_key
    }

    /// Whether a list names every key that leads to a node, and each of them once.
    pub open spec fn enumerated_by(self, keys: Seq<PubKey>) -> bool {
        &&& keys.no_duplicates()
        &&& forall|key: PubKey| keys.contains(key) <==> #[trigger] self.registry.contains_key(key)
    }
}

/// Whether a list names places of a group only, and each of them once.
pub open spec fn names_places<R>(slots: Seq<int>, group: GroupView<R>) -> bool {
    &&& slots.no_duplicates()
    &&& forall|i: int| 0 <= i < slots.len() ==> 0 <= #[trigger] slots[i] < group.nodes.len()
}

/// Different keys lead to different places.
pub proof fn lemma_slots<R>(group: GroupView<R>, keys: Seq<PubKey>)
    requires
        group.leads_right(),
        group.knows(keys),
    ensures
        names_places(group.slots(keys), group),
        forall|i: int|
            0 <= i < keys.len() ==> group.nodes[#[trigger] group.slots(keys)[i]].pub_key == keys[i],
{
    let slots = group.slots(keys);
    assert forall|i: int| 0 <= i < keys.len() implies 0 <= #[trigger] slots[i] < group.nodes.len()
        && group.nodes[slots[i]].pub_key == keys[i] by {
        assert(group.registry.contains_key(keys[i]));
    }
    assert forall|i: int, j: int| 0 <= i < slots.len() && 0 <= j < slots.len() && i
        != j implies slots[i] != slots[j] by {
        assert(group.nodes[slots[i]].pub_key == keys[i]);
        assert(group.nodes[slots[j]].pub_key == keys[j]);
    }
}

/// The keys that lead to a node lead to the nodes that can be found.
pub proof fn lemma_enumerated<R>(group: GroupView<R>, keys: Seq<PubKey>)
    requires
        group.leads_right(),
        group.enumerated_by(keys),
    ensures
        group.knows(keys),
        names_places(group.slots(keys), group),
        forall|slot: int| group.slots(keys).contains(slot) <==> #[trigger] group.listed(slot),
        forall|i: int| 0 <= i < keys.len() ==> group.listed(#[trigger] group.slots(keys)[i]),
{
    let slots = group.slots(keys);
    assert forall|i: int| 0 <= i < keys.len() implies group.registry.contains_key(
        #[trigger] keys[i],
    ) by {
        assert(keys.contains(keys[i]));
    }
    lemma_slots(group, keys);
    assert forall|i: int| 0 <= i < keys.len() implies group.listed(#[trigger] slots[i]) by {
        assert(group.registry.contains_key(keys[i]));
    }
    assert forall|slot: int| slots.contains(slot) <==> #[trigger] group.listed(slot) by {
        if group.listed(slot) {
            let key = group.nodes[slot].pub_key;
            assert(keys.contains(key));
            assert(slots[keys.index_of(key)] == slot);
        }
    }
}

/// Where bytes or news stand in line.
pub struct Standing {
    /// The place of the node.
    pub slot: int,
    /// The ticket at that node.
    pub ticket: int,
}

/// The ticket of what stands in line, where something does.
pub open spec fn ticket_of(standing: Option<Standing>) -> Option<int> {
    match standing {
        Some(standing) => Some(standing.ticket),
        None => None,
    }
}

/// The mathematical value of a send that is under way: the bytes have room at the nodes that the
/// keys before `next` led to when their turn came. Which node a key leads to is asked when its
/// turn comes; keys that were not in use when the send began are not reached.
#[verifier::ext_equal]
pub struct PendingView {
    /// The lane of the send.
    pub lane: Lane,
    /// The bytes that are sent.
    pub bytes: Seq<u8>,
    /// The keys of the nodes that the bytes go to, in order.
    pub targets: Seq<PubKey>,
    /// At how many of the nodes the bytes have room.
    pub next: int,
    /// Where the bytes stand in line, if they do: at the node for the key number `next`.
    pub standing: Option<Standing>,
}

impl PendingView {
    /// A send that begins.
    pub open spec fn begun(lane: Lane, bytes: Seq<u8>, targets: Seq<PubKey>) -> PendingView {
        PendingView { lane, bytes, targets, next: 0, standing: None }
    }

    /// Whether the send can go on in a group: its keys lead to nodes, and it waits at a node that
    /// has the key whose turn it is.
    pub open spec fn valid_in<R>(self, group: GroupView<R>) -> bool {
        &&& 0 <= self.next <= self.targets.len()
        &&& group.knows(self.targets)
        &&& self.standing matches Some(standing) ==> {
            &&& self.next < self.targets.len()
            &&& 0 <= standing.slot < group.nodes.len()
            &&& group.nodes[standing.slot].pub_key == self.targets[self.next]
        }
    }

    /// The send once the bytes that waited have room.
    pub open spec fn passed(self) -> PendingView {
        PendingView { next: self.next + 1, standing: None, ..self }
    }
}

/// How far a send came.
pub enum DeliveryView {
    /// The bytes have room at every node.
    Done,
    /// The bytes stand in line at a node.
    Waiting(PendingView),
}

/// A send goes on. Bytes that stand in line at a node are waited for, whatever became of the node
/// meanwhile; once they have room the send moves on to the nodes behind.
pub open spec fn sent<R>(
    before: GroupView<R>,
    after: GroupView<R>,
    pending: PendingView,
    outcome: Result<DeliveryView, NetworkError>,
) -> bool {
    match pending.standing {
        Some(Standing { slot, ticket }) => {
            let node = before.nodes[slot];
            if node.input(pending.lane).arrived.contains(ticket) {
                sent_on(
                    before.with_node(slot, node.settled(pending.lane, ticket)),
                    after,
                    pending.passed(),
                    outcome,
                )
            } else {
                after == before && outcome == Ok::<DeliveryView, NetworkError>(
                    DeliveryView::Waiting(pending),
                )
            }
        },
        None => sent_on(before, after, pending, outcome),
    }
}

/// A send moves on from node to node.
pub open spec fn sent_on<R>(
    before: GroupView<R>,
    after: GroupView<R>,
    pending: PendingView,
    outcome: Result<DeliveryView, NetworkError>,
) -> bool {
    exists|stop: int| #[trigger] sent_up_to(before, after, pending, stop, outcome)
}

/// A send moves on up to the node for the key number `stop` of its list, the first that has no
/// room at once. If that one takes none any more the send fails, and if it is full the bytes
/// stand in line there.
pub open spec fn sent_up_to<R>(
    before: GroupView<R>,
    after: GroupView<R>,
    pending: PendingView,
    stop: int,
    outcome: Result<DeliveryView, NetworkError>,
) -> bool {
    let slots = before.slots(pending.targets);
    let passed = before.given(pending.lane, pending.bytes, slots.subrange(pending.next, stop));
    &&& pending.next <= stop <= pending.targets.len()
    &&& forall|i: int|
        pending.next <= i < stop ==> before.nodes[#[trigger] slots[i]].accepts(pending.lane)
    &&& if stop == pending.targets.len() {
        after == passed && outcome == Ok::<DeliveryView, NetworkError>(DeliveryView::Done)
    } else {
        let slot = slots[stop];
        let node = before.nodes[slot];
        &&& !node.accepts(pending.lane)
        &&& if node.is_open(pending.lane) {
            &&& outcome matches Ok(DeliveryView::Waiting(rest))
            &&& rest.standing matches Some(Standing { slot: _, ticket })
            &&& rest == (PendingView {
                next: stop,
                standing: Some(Standing { slot, ticket }),
                ..pending
            })
            &&& !node.input(pending.lane).in_use(ticket)
            &&& after == passed.with_node(
                slot,
                node.given(pending.lane, pending.bytes, Some(ticket)),
            )
        } else {
            after == passed && outcome == Err::<DeliveryView, NetworkError>(
                NetworkError::CouldNotDeliver,
            )
        }
    }
}

/// A send of bytes to every node that can be found, in some order.
pub open spec fn broadcast<R>(
    before: GroupView<R>,
    after: GroupView<R>,
    bytes: Seq<u8>,
    outcome: Result<DeliveryView, NetworkError>,
) -> bool {
    exists|targets: Seq<PubKey>| #[trigger]
        before.enumerated_by(targets) && sent(
            before,
            after,
            PendingView::begun(Lane::Broadcast, bytes, targets),
            outcome,
        )
}

/// A send of bytes to the node that a key leads to.
pub open spec fn directed<R>(
    before: GroupView<R>,
    after: GroupView<R>,
    recipient: PubKey,
    bytes: Seq<u8>,
    outcome: Result<DeliveryView, NetworkError>,
) -> bool {
    if !before.registry.contains_key(recipient) {
        after == before && outcome == Err::<DeliveryView, NetworkError>(NetworkError::NoSuchNode)
    } else {
        let slot = before.registry[recipient];
        let node = before.nodes[slot];
        if !node.direct_open {
            after == before && outcome == Err::<DeliveryView, NetworkError>(
                NetworkError::CouldNotDeliver,
            )
        } else if node.accepts(Lane::Direct) {
            after == before.with_node(slot, node.given(Lane::Direct, bytes, None)) && outcome
                == Ok::<DeliveryView, NetworkError>(DeliveryView::Done)
        } else {
            &&& outcome matches Ok(DeliveryView::Waiting(rest))
            &&& rest.standing matches Some(Standing { slot: _, ticket })
            &&& rest == (PendingView {
                standing: Some(Standing { slot, ticket }),
                ..PendingView::begun(Lane::Direct, bytes, seq![recipient])
            })
            &&& !node.input(Lane::Direct).in_use(ticket)
            &&& after == before.with_node(slot, node.given(Lane::Direct, bytes, Some(ticket)))
        }
    }
}

/// The mathematical value of an attachment that is under way: the news has room at the nodes that
/// the keys before `next` led to when their turn came. Which node a key leads to is asked when
/// its turn comes; keys that were not in use when the attachment began are not reached.
#[verifier::ext_equal]
pub struct AttachView<R> {
    /// The key of the new node.
    pub pub_key: PubKey,
    /// The reliability model of the new node.
    pub reliability: Option<R>,
    /// The keys of the nodes that are told, in order.
    pub targets: Seq<PubKey>,
    /// At how many of the nodes the news has room.
    pub next: int,
    /// Where the news stands in line, if it does: at the node for the key number `next`.
    pub standing: Option<Standing>,
}

impl<R> AttachView<R> {
    /// An attachment that begins.
    pub open spec fn begun(
        pub_key: PubKey,
        reliability: Option<R>,
        targets: Seq<PubKey>,
    ) -> AttachView<R> {
        AttachView { pub_key, reliability, targets, next: 0, standing: None }
    }

    /// Whether the attachment can go on in a group: its keys lead to nodes, and it waits at a node
    /// that has the key whose turn it is.
    pub open spec fn valid_in(self, group: GroupView<R>) -> bool {
        &&& 0 <= self.next <= self.targets.len()
        &&& group.knows(self.targets)
        &&& self.standing matches Some(standing) ==> {
            &&& self.next < self.targets.len()
            &&& 0 <= standing.slot < group.nodes.len()
            &&& group.nodes[standing.slot].pub_key == self.targets[self.next]
        }
    }

    /// The attachment once the news that waited has room.
    pub open spec fn passed(self) -> AttachView<R> {
        AttachView { next: self.next + 1, standing: None, ..self }
    }

    /// The news that is told.
    pub open spec fn change(self) -> NetworkChange {
        NetworkChange::NodeConnected(self.pub_key)
    }
}

/// How far an attachment came.
pub enum AttachmentView<R> {
    /// The node is attached, at this place.
    Attached(int),
    /// The news stands in line at a node.
    Waiting(AttachView<R>),
}

/// An attachment goes on. News that stands in line at a node is waited for, whatever became of
/// the node meanwhile; once it has room the nodes behind are told.
pub open spec fn announced<R>(
    before: GroupView<R>,
    after: GroupView<R>,
    pending: AttachView<R>,
    outcome: Result<AttachmentView<R>, NetworkError>,
) -> bool {
    match pending.standing {
        Some(Standing { slot, ticket }) => {
            let node = before.nodes[slot];
            if node.changes.arrived.contains(ticket) {
                announced_on(
                    before.with_node(slot, node.settled_news(ticket)),
                    after,
                    pending.passed(),
                    outcome,
                )
            } else {
                after == before && outcome == Ok::<AttachmentView<R>, NetworkError>(
                    AttachmentView::Waiting(pending),
                )
            }
        },
        None => announced_on(before, after, pending, outcome),
    }
}

/// An attachment moves on from node to node.
pub open spec fn announced_on<R>(
    before: GroupView<R>,
    after: GroupView<R>,
    pending: AttachView<R>,
    outcome: Result<AttachmentView<R>, NetworkError>,
) -> bool {
    exists|stop: int| #[trigger] announced_up_to(before, after, pending, stop, outcome)
}

/// An attachment moves on up to the node for the key number `stop` of its list, the first that
/// has no room for the news at once. If that one takes none any more the attachment fails, and if
/// it is full the news stands in line there. Once every node was told, the new node is there.
pub open spec fn announced_up_to<R>(
    before: GroupView<R>,
    after: GroupView<R>,
    pending: AttachView<R>,
    stop: int,
    outcome: Result<AttachmentView<R>, NetworkError>,
) -> bool {
    let slots = before.slots(pending.targets);
    let passed = before.told(pending.change(), slots.subrange(pending.next, stop));
    &&& pending.next <= stop <= pending.targets.len()
    &&& forall|i: int|
        pending.next <= i < stop ==> before.nodes[#[trigger] slots[i]].accepts_news()
    &&& if stop == pending.targets.len() {
        after == passed.with_new(pending.pub_key, pending.reliability) && outcome == Ok::<
            AttachmentView<R>,
            NetworkError,
        >(AttachmentView::Attached(before.nodes.len() as int))
    } else {
        let slot = slots[stop];
        let node = before.nodes[slot];
        &&& !node.accepts_news()
        &&& if node.news_open {
            &&& outcome matches Ok(AttachmentView::Waiting(rest))
            &&& rest.standing matches Some(Standing { slot: _, ticket })
            &&& rest == (AttachView {
                next: stop,
                standing: Some(Standing { slot, ticket }),
                ..pending
            })
            &&& !node.changes.in_use(ticket)
            &&& after == passed.with_node(slot, node.told(pending.change(), Some(ticket)))
        } else {
            after == passed && outcome == Err::<AttachmentView<R>, NetworkError>(
                NetworkError::CouldNotDeliver,
            )
        }
    }
}

/// The attachment of a node: every node that can be found is told, in some order, and then the
/// new node is there.
pub open spec fn attaching<R>(
    before: GroupView<R>,
    after: GroupView<R>,
    pub_key: PubKey,
    reliability: Option<R>,
    outcome: Result<AttachmentView<R>, NetworkError>,
) -> bool {
    exists|targets: Seq<PubKey>| #[trigger]
        before.enumerated_by(targets) && announced(
            before,
            after,
            AttachView::begun(pub_key, reliability, targets),
            outcome,
        )
}

} // verus!
