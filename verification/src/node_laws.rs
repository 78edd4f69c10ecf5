//! What holds of a node, whatever happens to it.
//!
//! The laws hold for every way of reading bytes as messages. What they come to for messages in
//! the wire format is said apart.

use crate::codec::{encodable, law_wire_is_read_back, wire};
use crate::line::{law_line_stays_valid, law_ticket_stays_in_use};
use crate::model::{
    drained, drained_changes, received, released, stepped, NodeView, ParcelView, Progress,
};
use crate::node::{decoded_by, wire_reading, Reading};
use crate::reliability::{DummyReliability, NetworkReliability};
use crate::types::{Lane, NetworkChange, NetworkError, PubKey};
use vstd::prelude::*;

verus! {

/// The messages that bytes are read as, in order; bytes that are no message are left out.
pub open spec fn readable(queue: Seq<Seq<u8>>, reading: Reading) -> Seq<Seq<u8>>
    decreases queue.len(),
{
    if queue.len() == 0 {
        Seq::empty()
    } else {
        let rest = readable(queue.drop_first(), reading);
        match reading(queue[0]) {
            Some(message) => seq![message] + rest,
            None => rest,
        }
    }
}

/// The messages of a lane that a node without a reliability model has yet to hand out, in the
/// order in which it will: those that can be received, and those that were not looked at yet.
pub open spec fn pipeline<R>(node: NodeView<R>, lane: Lane, reading: Reading) -> Seq<Seq<u8>> {
    node.output(lane) + readable(node.input(lane).items, reading)
}

proof fn lemma_readable_concat(left: Seq<Seq<u8>>, right: Seq<Seq<u8>>, reading: Reading)
    ensures
        readable(left + right, reading) == readable(left, reading) + readable(right, reading),
    decreases left.len(),
{
    if left.len() == 0 {
        assert(left + right =~= right);
    } else {
        lemma_readable_concat(left.drop_first(), right, reading);
        assert((left + right).drop_first() =~= left.drop_first() + right);
    }
    assert(readable(left + right, reading) =~= readable(left, reading) + readable(right, reading));
}

/// The wire format of messages, in order.
pub open spec fn wired(messages: Seq<Seq<u8>>) -> Seq<Seq<u8>> {
    messages.map_values(|message: Seq<u8>| wire(message))
}

/// Messages that have a wire format are read back from it, in order, every one of them once.
pub proof fn law_wired_messages_are_read_back(messages: Seq<Seq<u8>>)
    requires
        forall|i: int| 0 <= i < messages.len() ==> encodable(#[trigger] messages[i]),
    ensures
        readable(wired(messages), wire_reading()) == messages,
    decreases messages.len(),
{
    if messages.len() > 0 {
        law_wire_is_read_back(messages[0]);
        law_wired_messages_are_read_back(messages.drop_first());
        assert(wired(messages).drop_first() =~= wired(messages.drop_first()));
        assert(wired(messages)[0] == wire(messages[0]));
    }
    assert(readable(wired(messages), wire_reading()) =~= messages);
}

/// What bytes that a node takes are read as joins the end of the pipeline of their lane, and the
/// other lane stays as it was.
pub proof fn law_bytes_join_pipeline<R>(
    node: NodeView<R>,
    lane: Lane,
    bytes: Seq<u8>,
    ticket: Option<int>,
    reading: Reading,
)
    ensures
        pipeline(node.given(lane, bytes, ticket), lane, reading) == pipeline(node, lane, reading)
            + readable(seq![bytes], reading),
        pipeline(node.given(lane, bytes, ticket), lane.other_lane(), reading) == pipeline(
            node,
            lane.other_lane(),
            reading,
        ),
{
    let items = node.input(lane).items;
    assert(items.push(bytes) =~= items + seq![bytes]);
    lemma_readable_concat(items, seq![bytes], reading);
    assert(pipeline(node.given(lane, bytes, ticket), lane, reading) =~= pipeline(
        node,
        lane,
        reading,
    ) + readable(seq![bytes], reading));
}

/// A message in the wire format that a node takes joins the end of the pipeline of its lane.
pub proof fn law_message_joins_pipeline<R>(
    node: NodeView<R>,
    lane: Lane,
    message: Seq<u8>,
    ticket: Option<int>,
)
    requires
        encodable(message),
    ensures
        pipeline(node.given(lane, wire(message), ticket), lane, wire_reading()) == pipeline(
            node,
            lane,
            wire_reading(),
        ).push(message),
{
    law_bytes_join_pipeline(node, lane, wire(message), ticket, wire_reading());
    assert(seq![wire(message)] =~= wired(seq![message]));
    law_wired_messages_are_read_back(seq![message]);
    assert(pipeline(node, lane, wire_reading()).push(message) =~= pipeline(
        node,
        lane,
        wire_reading(),
    ) + seq![message]);
}

/// The background work of a node without a reliability model loses no message, repeats none and
/// changes no order: both pipelines stay as they were.
pub proof fn law_step_keeps_pipeline<R: NetworkReliability>(
    before: NodeView<R>,
    after: NodeView<R>,
    favoured: Lane,
    progress: Progress,
    reading: Reading,
)
    requires
        before.reliability is None,
        stepped(before, after, favoured, decoded_by(reading), progress),
    ensures
        after.reliability is None,
        forall|lane: Lane| #[trigger]
            pipeline(after, lane, reading) == pipeline(before, lane, reading),
{
    assert forall|lane: Lane| #[trigger]
        pipeline(after, lane, reading) == pipeline(before, lane, reading) by {
        reveal_with_fuel(readable, 1);
        assert(pipeline(after, lane, reading) =~= pipeline(before, lane, reading));
    }
}

/// What is received is the head of the pipeline of its lane, and the other lane stays as it was.
pub proof fn law_receive_takes_head<R>(
    before: NodeView<R>,
    after: NodeView<R>,
    lane: Lane,
    message: Seq<u8>,
    reading: Reading,
)
    requires
        received(before, after, lane, Ok(Some(message))),
    ensures
        pipeline(before, lane, reading) == seq![message] + pipeline(after, lane, reading),
        pipeline(before, lane.other_lane(), reading) == pipeline(
            after,
            lane.other_lane(),
            reading,
        ),
{
    assert(pipeline(before, lane, reading) =~= seq![message] + pipeline(after, lane, reading));
}

/// What is received at once is the beginning of the pipeline of its lane, and the other lane
/// stays as it was.
pub proof fn law_drain_takes_beginning<R>(
    before: NodeView<R>,
    after: NodeView<R>,
    lane: Lane,
    list: Seq<Seq<u8>>,
    reading: Reading,
)
    requires
        drained(before, after, lane, Ok(Some(list))),
    ensures
        pipeline(before, lane, reading) == list + pipeline(after, lane, reading),
        pipeline(before, lane.other_lane(), reading) == pipeline(
            after,
            lane.other_lane(),
            reading,
        ),
{
    assert(pipeline(before, lane, reading) =~= list + pipeline(after, lane, reading));
}

/// Something that happens to a node.
pub enum NodeEvent {
    /// Bytes join the input of a lane; where they have no room there is a ticket.
    Take(Lane, Seq<u8>, Option<int>),
    /// A sender is told that its bytes got room on a lane.
    Settle(Lane, int),
    /// The background work of the node does a step that favours a lane.
    Step(Lane, Progress),
    /// A message that was set aside is delivered by its ticket.
    Release(int, Option<Progress>),
    /// The oldest message of a lane is received.
    Receive(Lane, Seq<u8>),
    /// Every message of a lane is received.
    Drain(Lane, Seq<Seq<u8>>),
    /// The node is told of a change; where the news has no room there is a ticket.
    Tell(NetworkChange, Option<int>),
    /// A sender is told that its news got room.
    SettleNews(int),
    /// All news is received.
    ReadNews(Seq<NetworkChange>),
    /// The node is shut down, as far as that goes.
    ShutDown,
    /// Nothing happens to the node.
    Rest,
}

/// How an event changes a node whose bytes are read in some way.
pub open spec fn happens<R: NetworkReliability>(
    before: NodeView<R>,
    after: NodeView<R>,
    event: NodeEvent,
    reading: Reading,
) -> bool {
    match event {
        NodeEvent::Take(lane, bytes, ticket) => {
            &&& before.is_open(lane)
            &&& match ticket {
                Some(ticket) => !before.accepts(lane) && !before.input(lane).in_use(ticket),
                None => before.accepts(lane),
            }
            &&& after == before.given(lane, bytes, ticket)
        },
        NodeEvent::Settle(lane, ticket) => before.input(lane).arrived.contains(ticket) && after
            == before.settled(lane, ticket),
        NodeEvent::Step(favoured, progress) => stepped(
            before,
            after,
            favoured,
            decoded_by(reading),
            progress,
        ),
        NodeEvent::Release(ticket, progress) => released(before, after, ticket, progress),
        NodeEvent::Receive(lane, message) => received(before, after, lane, Ok(Some(message))),
        NodeEvent::Drain(lane, list) => drained(before, after, lane, Ok(Some(list))),
        NodeEvent::Tell(change, ticket) => {
            &&& before.news_open
            &&& match ticket {
                Some(ticket) => !before.accepts_news() && !before.changes.in_use(ticket),
                None => before.accepts_news(),
            }
            &&& after == before.told(change, ticket)
        },
        NodeEvent::SettleNews(ticket) => before.changes.arrived.contains(ticket) && after
            == before.settled_news(ticket),
        NodeEvent::ReadNews(list) => drained_changes(before, after, Ok(Some(list))),
        NodeEvent::ShutDown => after == before.shut(),
        NodeEvent::Rest => after == before,
    }
}

/// A history of a node whose bytes are read in some way: its states, and the events between them.
pub open spec fn history<R: NetworkReliability>(
    states: Seq<NodeView<R>>,
    events: Seq<NodeEvent>,
    reading: Reading,
) -> bool {
    &&& states.len() == events.len() + 1
    &&& forall|i: int|
        0 <= i < events.len() ==> happens(states[i], states[i + 1], #[trigger] events[i], reading)
}

/// The last event of a history comes after a shorter history.
proof fn lemma_shorter_history<R: NetworkReliability>(
    states: Seq<NodeView<R>>,
    events: Seq<NodeEvent>,
    reading: Reading,
)
    requires
        history(states, events, reading),
        events.len() > 0,
    ensures
        history(states.drop_last(), events.drop_last(), reading),
        states.drop_last()[0] == states[0],
        happens(states.drop_last().last(), states.last(), events.last(), reading),
{
    let earlier_states = states.drop_last();
    let earlier = events.drop_last();
    assert forall|i: int| 0 <= i < earlier.len() implies happens(
        earlier_states[i],
        earlier_states[i + 1],
        #[trigger] earlier[i],
        reading,
    ) by {
        assert(events[i] == earlier[i]);
    }
    assert(happens(
        states[events.len() - 1],
        states[events.len() as int],
        events[events.len() - 1],
        reading,
    ));
}

/// The bytes that an event makes a node take on a lane.
pub open spec fn takes(event: NodeEvent, lane: Lane) -> Seq<Seq<u8>> {
    match event {
        NodeEvent::Take(l, bytes, _) => if l == lane {
            seq![bytes]
        } else {
            Seq::empty()
        },
        _ => Seq::empty(),
    }
}

/// The messages that are received on a lane by an event.
pub open spec fn hands_out(event: NodeEvent, lane: Lane) -> Seq<Seq<u8>> {
    match event {
        NodeEvent::Receive(l, message) => if l == lane {
            seq![message]
        } else {
            Seq::empty()
        },
        NodeEvent::Drain(l, list) => if l == lane {
            list
        } else {
            Seq::empty()
        },
        _ => Seq::empty(),
    }
}

/// The bytes that a node takes on a lane, in order.
pub open spec fn taken(events: Seq<NodeEvent>, lane: Lane) -> Seq<Seq<u8>>
    decreases events.len(),
{
    if events.len() == 0 {
        Seq::empty()
    } else {
        taken(events.drop_last(), lane) + takes(events.last(), lane)
    }
}

/// The messages that are received on a lane, in order.
pub open spec fn handed_out(events: Seq<NodeEvent>, lane: Lane) -> Seq<Seq<u8>>
    decreases events.len(),
{
    if events.len() == 0 {
        Seq::empty()
    } else {
        handed_out(events.drop_last(), lane) + hands_out(events.last(), lane)
    }
}

/// Every event keeps what holds of every node, the key of the node and its reliability model.
pub proof fn law_events_keep_validity<R: NetworkReliability>(
    before: NodeView<R>,
    after: NodeView<R>,
    event: NodeEvent,
    reading: Reading,
)
    requires
        before.valid(),
        happens(before, after, event, reading),
    ensures
        after.valid(),
        after.pub_key == before.pub_key,
        after.reliability == before.reliability,
{
    match event {
        NodeEvent::Take(lane, bytes, ticket) => {
            law_line_stays_valid(before.input(lane), bytes, ticket, 0);
        },
        NodeEvent::Settle(lane, ticket) => {
            law_line_stays_valid(before.input(lane), Seq::empty(), None, ticket);
        },
        NodeEvent::Step(favoured, progress) => {
            law_line_stays_valid(before.direct_input, Seq::empty(), None, 0);
            law_line_stays_valid(before.broadcast_input, Seq::empty(), None, 0);
        },
        NodeEvent::Tell(change, ticket) => {
            law_line_stays_valid(before.changes, change, ticket, 0);
        },
        NodeEvent::SettleNews(ticket) => {
            law_line_stays_valid(before.changes, before.changes.items[0], None, ticket);
        },
        NodeEvent::ReadNews(list) => {
            law_line_stays_valid(before.changes, before.changes.items[0], None, 0);
        },
        _ => {},
    }
}

/// A sender that stands in line at a node keeps its ticket: the ticket stays in use, whatever
/// happens to the node, until it is told that its bytes got room. That the node is shut down
/// changes nothing about it.
pub proof fn law_sender_keeps_its_ticket<R: NetworkReliability>(
    before: NodeView<R>,
    after: NodeView<R>,
    event: NodeEvent,
    reading: Reading,
    lane: Lane,
    ticket: int,
)
    requires
        happens(before, after, event, reading),
        before.input(lane).in_use(ticket),
    ensures
        event != NodeEvent::Settle(lane, ticket) ==> after.input(lane).in_use(ticket),
{
    match event {
        NodeEvent::Take(l, bytes, t) => {
            law_ticket_stays_in_use(before.input(lane), ticket, bytes, t, 0);
        },
        NodeEvent::Settle(l, t) => {
            law_ticket_stays_in_use(before.input(lane), ticket, Seq::empty(), None, t);
        },
        NodeEvent::Step(favoured, progress) => {
            law_ticket_stays_in_use(before.input(lane), ticket, Seq::empty(), None, 0);
        },
        _ => {},
    }
}

/// One event on a node without a reliability model: what it hands out leaves the pipeline at the
/// head, and what it takes joins the pipeline at the end.
proof fn lemma_event_is_first_in_first_out<R: NetworkReliability>(
    before: NodeView<R>,
    after: NodeView<R>,
    event: NodeEvent,
    lane: Lane,
    reading: Reading,
)
    requires
        before.valid(),
        before.reliability is None,
        happens(before, after, event, reading),
    ensures
        hands_out(event, lane) + pipeline(after, lane, reading) == pipeline(before, lane, reading)
            + readable(takes(event, lane), reading),
{
    match event {
        NodeEvent::Take(l, bytes, ticket) => {
            law_bytes_join_pipeline(before, l, bytes, ticket, reading);
        },
        NodeEvent::Step(favoured, progress) => {
            law_step_keeps_pipeline(before, after, favoured, progress, reading);
            assert(pipeline(after, lane, reading) == pipeline(before, lane, reading));
        },
        NodeEvent::Receive(l, message) => {
            law_receive_takes_head(before, after, l, message, reading);
        },
        NodeEvent::Drain(l, list) => {
            law_drain_takes_beginning(before, after, l, list, reading);
        },
        _ => {},
    }
    assert(hands_out(event, lane) + pipeline(after, lane, reading) =~= pipeline(
        before,
        lane,
        reading,
    ) + readable(takes(event, lane), reading));
}

/// A node without a reliability model hands out the messages that it has taken, in that order,
/// every one of them once, and skips bytes that are no message: at any time the messages that
/// were received on a lane, followed by those that are still to come, are the messages that were
/// there at first, followed by those that were taken.
pub proof fn law_first_in_first_out<R: NetworkReliability>(
    states: Seq<NodeView<R>>,
    events: Seq<NodeEvent>,
    lane: Lane,
    reading: Reading,
)
    requires
        history(states, events, reading),
        states[0].valid(),
        states[0].reliability is None,
    ensures
        handed_out(events, lane) + pipeline(states.last(), lane, reading) == pipeline(
            states[0],
            lane,
            reading,
        ) + readable(taken(events, lane), reading),
        states.last().valid(),
        states.last().reliability is None,
    decreases events.len(),
{
    let first = pipeline(states[0], lane, reading);
    let last = pipeline(states.last(), lane, reading);
    if events.len() == 0 {
        assert(handed_out(events, lane) + last =~= first + readable(taken(events, lane), reading));
    } else {
        let earlier = events.drop_last();
        let event = events.last();
        let before = states.drop_last().last();
        lemma_shorter_history(states, events, reading);
        law_first_in_first_out(states.drop_last(), earlier, lane, reading);
        law_events_keep_validity(before, states.last(), event, reading);
        lemma_event_is_first_in_first_out(before, states.last(), event, lane, reading);
        lemma_readable_concat(taken(earlier, lane), takes(event, lane), reading);
        let middle = pipeline(before, lane, reading);
        let new = readable(takes(event, lane), reading);
        assert(handed_out(events, lane) + last =~= handed_out(earlier, lane) + (hands_out(
            event,
            lane,
        ) + last));
        assert(handed_out(earlier, lane) + (middle + new) =~= (handed_out(earlier, lane) + middle)
            + new);
        assert((first + readable(taken(earlier, lane), reading)) + new =~= first + readable(
            taken(events, lane),
            reading,
        ));
    }
}

/// Once a node without a reliability model that was attached anew has nothing left to work on
/// and nothing left to hand out on a lane, exactly the messages that it has taken were received,
/// in that order.
pub proof fn law_all_that_is_taken_is_received<R: NetworkReliability>(
    pub_key: PubKey,
    states: Seq<NodeView<R>>,
    events: Seq<NodeEvent>,
    lane: Lane,
    reading: Reading,
)
    requires
        history(states, events, reading),
        states[0] == NodeView::<R>::fresh(pub_key, None),
        states.last().input(lane).items.len() == 0,
        states.last().output(lane).len() == 0,
    ensures
        handed_out(events, lane) == readable(taken(events, lane), reading),
{
    law_first_in_first_out(states, events, lane, reading);
    let first = pipeline(states[0], lane, reading);
    let last = pipeline(states.last(), lane, reading);
    assert(first =~= Seq::<Seq<u8>>::empty());
    assert(last =~= Seq::<Seq<u8>>::empty());
    assert(handed_out(events, lane) + last =~= handed_out(events, lane));
    assert(first + readable(taken(events, lane), reading) =~= readable(
        taken(events, lane),
        reading,
    ));
}

/// Once a node without a reliability model that was attached anew has nothing left to work on
/// and nothing left to hand out on a lane, and was sent messages in the wire format only, exactly
/// these messages were received, in that order.
pub proof fn law_all_that_is_sent_is_received<R: NetworkReliability>(
    pub_key: PubKey,
    states: Seq<NodeView<R>>,
    events: Seq<NodeEvent>,
    lane: Lane,
    messages: Seq<Seq<u8>>,
)
    requires
        history(states, events, wire_reading()),
        states[0] == NodeView::<R>::fresh(pub_key, None),
        states.last().input(lane).items.len() == 0,
        states.last().output(lane).len() == 0,
        forall|i: int| 0 <= i < messages.len() ==> encodable(#[trigger] messages[i]),
        taken(events, lane) == wired(messages),
    ensures
        handed_out(events, lane) == messages,
{
    law_all_that_is_taken_is_received(pub_key, states, events, lane, wire_reading());
    law_wired_messages_are_read_back(messages);
}

/// That a lane has shut down is said only when every message that the node has taken on it, and
/// that was not lost, was received.
pub proof fn law_shut_down_comes_last<R>(
    before: NodeView<R>,
    after: NodeView<R>,
    lane: Lane,
    reading: Reading,
)
    requires
        before.valid(),
        received(before, after, lane, Err(NetworkError::ShutDown)),
    ensures
        after == before,
        !before.direct_open && !before.broadcast_open,
        pipeline(before, lane, reading) == Seq::<Seq<u8>>::empty(),
        !before.lane_in_flight(lane),
{
    assert(pipeline(before, lane, reading) =~= Seq::<Seq<u8>>::empty());
}

/// How much a node has yet to look at.
pub open spec fn backlog<R>(node: NodeView<R>) -> nat {
    node.direct_input.items.len() + node.broadcast_input.items.len()
}

/// The background work gets done: a step finds nothing to do only when nothing is left to look
/// at, it is held up only by an output that is full, and any other step leaves less to look at.
/// It is over only for a node that takes no messages any more.
pub proof fn law_background_work_ends<R: NetworkReliability>(
    before: NodeView<R>,
    after: NodeView<R>,
    favoured: Lane,
    progress: Progress,
    reading: Reading,
)
    requires
        before.valid(),
        stepped(before, after, favoured, decoded_by(reading), progress),
    ensures
        match progress {
            Progress::Idle => backlog(before) == 0 && (before.direct_open
                || before.broadcast_open) && after == before,
            Progress::Stopped => backlog(before) == 0 && !before.direct_open
                && !before.broadcast_open && after.stopped,
            Progress::Blocked(lane) => !before.has_room(lane) && (after == before || backlog(after)
                < backlog(before)),
            _ => backlog(after) < backlog(before),
        },
{
}

/// Background work that is held up goes on as soon as a message of the lane was received whose
/// output is full.
pub proof fn law_receipt_lets_work_go_on<R>(
    before: NodeView<R>,
    after: NodeView<R>,
    lane: Lane,
    message: Seq<u8>,
)
    requires
        before.valid(),
        before.stalled() == Some(lane),
        received(before, after, lane, Ok(Some(message))),
    ensures
        after.stalled() is None,
{
}

/// How often a message stands in a list.
pub open spec fn count(list: Seq<Seq<u8>>, message: Seq<u8>) -> nat {
    list.to_multiset().count(message)
}

/// The tickets under which a message of a lane is set aside.
pub open spec fn tickets<R>(node: NodeView<R>, lane: Lane, message: Seq<u8>) -> Set<int> {
    node.in_flight.dom().filter(
        |ticket: int| node.in_flight[ticket] == (ParcelView { lane, message }),
    )
}

/// How many copies of a message a node has yet to hand out on a lane, if none of them is lost.
pub open spec fn copies<R>(
    node: NodeView<R>,
    lane: Lane,
    message: Seq<u8>,
    reading: Reading,
) -> nat {
    count(pipeline(node, lane, reading), message) + tickets(node, lane, message).len()
}

/// How many copies of a message are lost on a lane by an event.
pub open spec fn loses<R>(
    before: NodeView<R>,
    event: NodeEvent,
    lane: Lane,
    message: Seq<u8>,
    reading: Reading,
) -> nat {
    match event {
        NodeEvent::Step(_, Progress::Dropped(l)) => if l == lane && reading(
            before.input(lane).items[0],
        ) == Some(message) {
            1
        } else {
            0
        },
        _ => 0,
    }
}

/// How many copies of a message are lost on a lane in a history.
pub open spec fn lost<R>(
    states: Seq<NodeView<R>>,
    events: Seq<NodeEvent>,
    lane: Lane,
    message: Seq<u8>,
    reading: Reading,
) -> nat
    decreases events.len(),
{
    if events.len() == 0 {
        0
    } else {
        lost(states.drop_last(), events.drop_last(), lane, message, reading) + loses(
            states[events.len() - 1],
            events.last(),
            lane,
            message,
            reading,
        )
    }
}

proof fn lemma_count_concat(left: Seq<Seq<u8>>, right: Seq<Seq<u8>>, message: Seq<u8>)
    ensures
        count(left + right, message) == count(left, message) + count(right, message),
{
    vstd::seq_lib::lemma_multiset_commutative(left, right);
}

proof fn lemma_count_few(only: Seq<u8>, message: Seq<u8>)
    ensures
        count(Seq::empty(), message) == 0,
        count(seq![only], message) == if only == message {
            1nat
        } else {
            0nat
        },
{
    broadcast use vstd::seq_lib::group_to_multiset_ensures;

    assert(Seq::<Seq<u8>>::empty().to_multiset().len() == 0);
    assert(seq![only] =~= Seq::<Seq<u8>>::empty().push(only));
}

proof fn lemma_release_keeps_count<R>(
    before: NodeView<R>,
    after: NodeView<R>,
    ticket: int,
    progress: Option<Progress>,
    lane: Lane,
    message: Seq<u8>,
    reading: Reading,
)
    requires
        before.valid(),
        released(before, after, ticket, progress),
    ensures
        copies(after, lane, message, reading) == copies(before, lane, message, reading),
{
    if after != before {
        let parcel = before.in_flight[ticket];
        let output = before.output(lane);
        let input = readable(before.input(lane).items, reading);
        lemma_count_concat(output, input, message);
        lemma_count_concat(after.output(lane), input, message);
        assert(output.push(parcel.message) =~= output + seq![parcel.message]);
        lemma_count_concat(output, seq![parcel.message], message);
        lemma_count_few(parcel.message, message);
        if parcel == (ParcelView { lane, message }) {
            assert(tickets(before, lane, message).contains(ticket));
        }
        assert(tickets(after, lane, message) =~= tickets(before, lane, message).remove(ticket));
    }
}

proof fn lemma_step_keeps_count<R: NetworkReliability>(
    before: NodeView<R>,
    after: NodeView<R>,
    favoured: Lane,
    progress: Progress,
    lane: Lane,
    message: Seq<u8>,
    reading: Reading,
)
    requires
        before.valid(),
        stepped(before, after, favoured, decoded_by(reading), progress),
    ensures
        copies(after, lane, message, reading) + loses(
            before,
            NodeEvent::Step(favoured, progress),
            lane,
            message,
            reading,
        ) == copies(before, lane, message, reading),
{
    if before.reliability is None {
        law_step_keeps_pipeline(before, after, favoured, progress, reading);
        assert(pipeline(after, lane, reading) == pipeline(before, lane, reading));
        assert(tickets(after, lane, message) =~= tickets(before, lane, message));
    } else if before.stopped {
    } else if let Some(l) = before.next_lane(favoured) {
        let bytes = before.input(l).items[0];
        let output = before.output(lane);
        let input = readable(before.input(lane).items, reading);
        let rest = readable(before.input(l).items.drop_first(), reading);
        lemma_count_concat(output, input, message);
        lemma_count_concat(output, rest, message);
        if let Some(m) = reading(bytes) {
            lemma_count_concat(seq![m], rest, message);
            lemma_count_few(m, message);
            match progress {
                Progress::Scheduled { lane: _, ticket, pause: _ } => {
                    if l == lane && m == message {
                        assert(tickets(after, lane, message) =~= tickets(
                            before,
                            lane,
                            message,
                        ).insert(ticket as int));
                    } else {
                        assert(tickets(after, lane, message) =~= tickets(before, lane, message));
                    }
                },
                _ => {
                    assert(tickets(after, lane, message) =~= tickets(before, lane, message));
                },
            }
        } else {
            assert(tickets(after, lane, message) =~= tickets(before, lane, message));
        }
    } else {
        assert(tickets(after, lane, message) =~= tickets(before, lane, message));
    }
}

proof fn lemma_event_keeps_count<R: NetworkReliability>(
    before: NodeView<R>,
    after: NodeView<R>,
    event: NodeEvent,
    lane: Lane,
    message: Seq<u8>,
    reading: Reading,
)
    requires
        before.valid(),
        happens(before, after, event, reading),
    ensures
        count(hands_out(event, lane), message) + copies(after, lane, message, reading) + loses(
            before,
            event,
            lane,
            message,
            reading,
        ) == copies(before, lane, message, reading) + count(
            readable(takes(event, lane), reading),
            message,
        ),
{
    lemma_count_few(message, message);
    match event {
        NodeEvent::Take(l, bytes, ticket) => {
            law_bytes_join_pipeline(before, l, bytes, ticket, reading);
            lemma_count_concat(
                pipeline(before, l, reading),
                readable(seq![bytes], reading),
                message,
            );
            assert(tickets(after, lane, message) =~= tickets(before, lane, message));
        },
        NodeEvent::Step(favoured, progress) => {
            lemma_step_keeps_count(before, after, favoured, progress, lane, message, reading);
        },
        NodeEvent::Release(ticket, progress) => {
            lemma_release_keeps_count(before, after, ticket, progress, lane, message, reading);
        },
        NodeEvent::Receive(l, m) => {
            law_receive_takes_head(before, after, l, m, reading);
            lemma_count_concat(seq![m], pipeline(after, l, reading), message);
            assert(tickets(after, lane, message) =~= tickets(before, lane, message));
        },
        NodeEvent::Drain(l, list) => {
            law_drain_takes_beginning(before, after, l, list, reading);
            lemma_count_concat(list, pipeline(after, l, reading), message);
            assert(tickets(after, lane, message) =~= tickets(before, lane, message));
        },
        _ => {
            assert(tickets(after, lane, message) =~= tickets(before, lane, message));
        },
    }
}

/// A node hands out nothing that it has not taken, and nothing twice, whatever its reliability
/// model: at any time the copies of a message that were received on a lane, those that are still
/// to come and those that were lost are as many as were there at first and were taken.
pub proof fn law_nothing_is_made_up<R: NetworkReliability>(
    states: Seq<NodeView<R>>,
    events: Seq<NodeEvent>,
    lane: Lane,
    message: Seq<u8>,
    reading: Reading,
)
    requires
        history(states, events, reading),
        states[0].valid(),
    ensures
        count(handed_out(events, lane), message) + copies(states.last(), lane, message, reading)
            + lost(states, events, lane, message, reading) == copies(
            states[0],
            lane,
            message,
            reading,
        ) + count(readable(taken(events, lane), reading), message),
        states.last().valid(),
    decreases events.len(),
{
    if events.len() == 0 {
        lemma_count_few(message, message);
    } else {
        let earlier = events.drop_last();
        let event = events.last();
        let before = states.drop_last().last();
        lemma_shorter_history(states, events, reading);
        law_nothing_is_made_up(states.drop_last(), earlier, lane, message, reading);
        law_events_keep_validity(before, states.last(), event, reading);
        lemma_event_keeps_count(before, states.last(), event, lane, message, reading);
        lemma_count_concat(handed_out(earlier, lane), hands_out(event, lane), message);
        lemma_readable_concat(taken(earlier, lane), takes(event, lane), reading);
        lemma_count_concat(
            readable(taken(earlier, lane), reading),
            readable(takes(event, lane), reading),
            message,
        );
    }
}

/// A node with [`DummyReliability`] loses no message.
pub proof fn law_dummy_loses_nothing(
    states: Seq<NodeView<DummyReliability>>,
    events: Seq<NodeEvent>,
    lane: Lane,
    message: Seq<u8>,
    reading: Reading,
)
    requires
        history(states, events, reading),
    ensures
        lost(states, events, lane, message, reading) == 0,
    decreases events.len(),
{
    if events.len() > 0 {
        lemma_shorter_history(states, events, reading);
        law_dummy_loses_nothing(states.drop_last(), events.drop_last(), lane, message, reading);
    }
}

/// An input that was closed stays closed, whatever happens to the node, and takes nothing any
/// more.
pub proof fn law_shut_down_is_final<R: NetworkReliability>(
    before: NodeView<R>,
    after: NodeView<R>,
    event: NodeEvent,
    reading: Reading,
)
    requires
        happens(before, after, event, reading),
    ensures
        forall|lane: Lane| #[trigger]
            before.is_open(lane) || !after.is_open(lane) && takes(event, lane) == Seq::<
                Seq<u8>,
            >::empty(),
        before.news_open || !after.news_open && tells(event) == Seq::<NetworkChange>::empty(),
{
}

/// A shut down changes nothing but which inputs are open, and to try it again at once changes
/// nothing. It comes to its end, then or when it is tried again later, exactly when no sender
/// stands in line any more.
pub proof fn law_shut_down_ends<R>(node: NodeView<R>)
    requires
        node.valid(),
    ensures
        node.shut() == (NodeView {
            direct_open: node.shut().direct_open,
            broadcast_open: node.shut().broadcast_open,
            news_open: node.shut().news_open,
            ..node
        }),
        node.shut().shut() == node.shut(),
        node.shut().is_shut() <==> !node.has_senders(),
        node.is_shut() ==> node.shut() == node,
{
}

/// A shut down that senders hold up goes no further: while a sender stands in line at the input
/// for every node, messages for this node and news are taken as before, and while one stands in
/// line at the input for this node, news is.
pub proof fn law_shut_down_is_held_up<R>(node: NodeView<R>)
    ensures
        !node.shut().broadcast_open,
        node.broadcast_input.senders.len() > 0 ==> node.shut().direct_open == node.direct_open
            && node.shut().news_open == node.news_open,
        node.broadcast_input.senders.len() == 0 ==> !node.shut().direct_open,
        node.direct_input.senders.len() > 0 ==> node.shut().news_open == node.news_open,
{
}

/// The news that an event brings to a node.
pub open spec fn tells(event: NodeEvent) -> Seq<NetworkChange> {
    match event {
        NodeEvent::Tell(change, _) => seq![change],
        _ => Seq::empty(),
    }
}

/// The news that is received by an event.
pub open spec fn reads(event: NodeEvent) -> Seq<NetworkChange> {
    match event {
        NodeEvent::ReadNews(list) => list,
        _ => Seq::empty(),
    }
}

/// The news that is brought to a node, in order.
pub open spec fn news_told(events: Seq<NodeEvent>) -> Seq<NetworkChange>
    decreases events.len(),
{
    if events.len() == 0 {
        Seq::empty()
    } else {
        news_told(events.drop_last()) + tells(events.last())
    }
}

/// The news that is received, in order.
pub open spec fn news_read(events: Seq<NodeEvent>) -> Seq<NetworkChange>
    decreases events.len(),
{
    if events.len() == 0 {
        Seq::empty()
    } else {
        news_read(events.drop_last()) + reads(events.last())
    }
}

/// A node hands out the news that it was told, in that order, every change once, whatever its
/// reliability model and whatever else happens to it: at any time the news that was received,
/// followed by the news that is still to come, is the news that was there at first, followed by
/// the news that it was told.
pub proof fn law_news_first_in_first_out<R: NetworkReliability>(
    states: Seq<NodeView<R>>,
    events: Seq<NodeEvent>,
    reading: Reading,
)
    requires
        history(states, events, reading),
    ensures
        news_read(events) + states.last().changes.items == states[0].changes.items + news_told(
            events,
        ),
    decreases events.len(),
{
    let first = states[0].changes.items;
    let last = states.last().changes.items;
    if events.len() == 0 {
        assert(news_read(events) + last =~= first + news_told(events));
    } else {
        let earlier = events.drop_last();
        let event = events.last();
        let before = states.drop_last().last();
        lemma_shorter_history(states, events, reading);
        law_news_first_in_first_out(states.drop_last(), earlier, reading);
        let middle = before.changes.items;
        assert(reads(event) + last =~= middle + tells(event));
        assert(news_read(events) + last =~= news_read(earlier) + (reads(event) + last));
        assert(news_read(earlier) + (middle + tells(event)) =~= (news_read(earlier) + middle)
            + tells(event));
        assert((first + news_told(earlier)) + tells(event) =~= first + news_told(events));
    }
}

/// News that is received is never nothing, and it is all that there was.
pub proof fn law_news_is_read_in_full<R>(
    before: NodeView<R>,
    after: NodeView<R>,
    list: Seq<NetworkChange>,
)
    requires
        drained_changes(before, after, Ok(Some(list))),
    ensures
        list.len() > 0,
        list == before.changes.items,
        after.changes.items.len() == 0,
{
}

} // verus!
