//! What the operations of a node do, said of what they find and of what they leave behind.
//!
//! The laws speak of the queues, lines and switches of a node one by one, and of every case that
//! an operation can meet.

use crate::line::Line;
use crate::model::{
    disposed, drained, drained_changes, received, released, stepped, NodeView, ParcelView, Progress,
};
use crate::node::{content, contents, decoded_by, decodings, receipt, receipts, tidings, Reading};
use crate::node_laws::{happens, history, NodeEvent};
use crate::reliability::{possible_fate, Asked, Fate, NetworkReliability};
use crate::types::{Lane, NetworkChange, NetworkError, PubKey};
use vstd::prelude::*;

verus! {

/// The line in which bytes of a lane stand that were not looked at yet.
pub open spec fn inbox<R>(node: NodeView<R>, lane: Lane) -> Line<Seq<u8>> {
    match lane {
        Lane::Direct => node.direct_input,
        Lane::Broadcast => node.broadcast_input,
    }
}

/// The messages of a lane that can be received.
pub open spec fn outbox<R>(node: NodeView<R>, lane: Lane) -> Seq<Seq<u8>> {
    match lane {
        Lane::Direct => node.direct_output,
        Lane::Broadcast => node.broadcast_output,
    }
}

/// Whether bytes are taken on a lane.
pub open spec fn takes_bytes<R>(node: NodeView<R>, lane: Lane) -> bool {
    match lane {
        Lane::Direct => node.direct_open,
        Lane::Broadcast => node.broadcast_open,
    }
}

/// The lane that this one is not.
pub open spec fn opposite(lane: Lane) -> Lane {
    match lane {
        Lane::Direct => Lane::Broadcast,
        Lane::Broadcast => Lane::Direct,
    }
}

/// Whether two nodes differ in the inbox of a lane at most.
pub open spec fn same_but_inbox<R>(before: NodeView<R>, after: NodeView<R>, lane: Lane) -> bool {
    match lane {
        Lane::Direct => after == (NodeView { direct_input: after.direct_input, ..before }),
        Lane::Broadcast => after == (NodeView { broadcast_input: after.broadcast_input, ..before }),
    }
}

/// Whether two nodes differ in the outbox of a lane at most.
pub open spec fn same_but_outbox<R>(before: NodeView<R>, after: NodeView<R>, lane: Lane) -> bool {
    match lane {
        Lane::Direct => after == (NodeView { direct_output: after.direct_output, ..before }),
        Lane::Broadcast => after == (NodeView {
            broadcast_output: after.broadcast_output,
            ..before
        }),
    }
}

/// Whether the oldest item has left a line, and the sender that has waited longest, where one
/// waits, was let through.
pub open spec fn oldest_left<M>(before: Line<M>, after: Line<M>) -> bool {
    &&& before.items.len() > 0
    &&& after.items == before.items.subrange(1, before.items.len() as int)
    &&& if before.senders.len() == 0 {
        after.senders == before.senders && after.arrived == before.arrived
    } else {
        &&& after.senders == before.senders.subrange(1, before.senders.len() as int)
        &&& forall|ticket: int| #[trigger]
            after.arrived.contains(ticket) <==> before.arrived.contains(ticket)
                || before.senders[0] == Some(ticket)
    }
}

/// Whether an item has joined a line at its end: with room where fewer than 128 items stand in
/// it, and behind the senders that wait otherwise.
pub open spec fn joined_at_end<M>(
    before: Line<M>,
    after: Line<M>,
    item: M,
    ticket: Option<int>,
) -> bool {
    &&& after.items.len() == before.items.len() + 1
    &&& after.items.last() == item
    &&& forall|i: int| 0 <= i < before.items.len() ==> #[trigger] after.items[i] == before.items[i]
    &&& after.arrived == before.arrived
    &&& if before.items.len() < 128 {
        after.senders == before.senders
    } else {
        after.senders == before.senders + seq![ticket]
    }
}

/// A line has room for 128 items.
pub proof fn law_line_holds_128_items<M>(line: Line<M>)
    ensures
        line.has_room() <==> line.items.len() < 128,
        line.valid() ==> line.senders.len() == if line.items.len() <= 128 {
            0
        } else {
            line.items.len() - 128
        },
{
}

/// What joins a line stands at its end, what is received leaves it at its head, and nothing else
/// in it changes. To receive everything leaves nothing in it and lets every sender through.
pub proof fn law_line_moves_on<M>(line: Line<M>, item: M, ticket: Option<int>, told: int)
    ensures
        joined_at_end(line, line.joined(item, ticket), item, ticket),
        line.items.len() > 0 ==> oldest_left(line, line.advanced()),
        line.cleared().items.len() == 0 && line.cleared().senders.len() == 0,
        forall|t: int| #[trigger]
            line.cleared().arrived.contains(t) <==> line.arrived.contains(t) || exists|i: int|
                0 <= i < line.senders.len() && #[trigger] line.senders[i] == Some(t),
        line.acknowledged(told).items == line.items,
        line.acknowledged(told).senders == line.senders,
        forall|t: int| #[trigger]
            line.acknowledged(told).arrived.contains(t) <==> line.arrived.contains(t) && t != told,
        line.in_use(told) <==> line.arrived.contains(told) || exists|i: int|
            0 <= i < line.senders.len() && #[trigger] line.senders[i] == Some(told),
        Line::<M>::empty().items.len() == 0,
        Line::<M>::empty().senders.len() == 0,
        forall|t: int| !(#[trigger] Line::<M>::empty().arrived.contains(t)),
{
    assert(line.senders.push(ticket) =~= line.senders + seq![ticket]);
    if line.items.len() > 0 {
        assert(line.advanced().items =~= line.items.subrange(1, line.items.len() as int));
    }
    if line.senders.len() > 0 {
        assert(line.advanced().senders =~= line.senders.subrange(1, line.senders.len() as int));
    }
    assert forall|t: int| line.senders.contains(Some(t)) <==> exists|i: int|
        0 <= i < line.senders.len() && #[trigger] line.senders[i] == Some(t) by {}
}

/// A node that was just attached takes messages for it, broadcasts and news, whatever its key and
/// its reliability model, and has room for 128 of each. Nothing waits anywhere in it, its model
/// was asked nothing, and its background work is not over.
pub proof fn law_new_node_takes_everything<R>(pub_key: PubKey, reliability: Option<R>)
    ensures
        ({
            let node = NodeView::fresh(pub_key, reliability);
            &&& node.pub_key == pub_key && node.reliability == reliability
            &&& node.direct_open && node.broadcast_open && node.news_open && !node.stopped
            &&& node.direct_input.items.len() == 0 && node.direct_input.senders.len() == 0
            &&& node.broadcast_input.items.len() == 0 && node.broadcast_input.senders.len() == 0
            &&& node.changes.items.len() == 0 && node.changes.senders.len() == 0
            &&& node.direct_output.len() == 0 && node.broadcast_output.len() == 0
            &&& forall|ticket: int| !(#[trigger] node.in_flight.contains_key(ticket))
            &&& node.asked == (Asked { keeps: 0, kept: false, delays: 0, delay: 0 })
            &&& node.accepts(Lane::Direct) && node.accepts(Lane::Broadcast) && node.accepts_news()
            &&& node.valid()
        }),
{
}

/// A node takes bytes at once exactly when the lane is open and fewer than 128 stand in its
/// inbox. Bytes that it takes stand at the end of that inbox, and nothing else about the node
/// changes.
pub proof fn law_node_takes_bytes<R>(
    node: NodeView<R>,
    lane: Lane,
    bytes: Seq<u8>,
    ticket: Option<int>,
)
    ensures
        node.is_open(lane) <==> takes_bytes(node, lane),
        node.accepts(lane) <==> takes_bytes(node, lane) && inbox(node, lane).items.len() < 128,
        node.input(lane) == inbox(node, lane),
        node.output(lane) == outbox(node, lane),
        same_but_inbox(node, node.given(lane, bytes, ticket), lane),
        joined_at_end(
            inbox(node, lane),
            inbox(node.given(lane, bytes, ticket), lane),
            bytes,
            ticket,
        ),
{
    law_line_moves_on(inbox(node, lane), bytes, ticket, 0);
}

/// A node takes news at once exactly when it takes news and fewer than 128 changes stand in line.
/// News that it takes stands at the end of that line, and nothing else about the node changes.
pub proof fn law_node_takes_news<R>(node: NodeView<R>, change: NetworkChange, ticket: Option<int>)
    ensures
        node.accepts_news() <==> node.news_open && node.changes.items.len() < 128,
        node.told(change, ticket) == (NodeView {
            changes: node.told(change, ticket).changes,
            ..node
        }),
        joined_at_end(node.changes, node.told(change, ticket).changes, change, ticket),
{
    law_line_moves_on(node.changes, change, ticket, 0);
}

/// A sender that is told gives back its ticket and no other, and nothing else about the node
/// changes.
pub proof fn law_settling_gives_back_one_ticket<R>(node: NodeView<R>, lane: Lane, ticket: int)
    ensures
        ({
            let after = node.settled(lane, ticket);
            &&& same_but_inbox(node, after, lane)
            &&& inbox(after, lane).items == inbox(node, lane).items
            &&& inbox(after, lane).senders == inbox(node, lane).senders
            &&& forall|t: int| #[trigger]
                inbox(after, lane).arrived.contains(t) <==> inbox(node, lane).arrived.contains(t)
                    && t != ticket
        }),
        ({
            let after = node.settled_news(ticket);
            &&& after == (NodeView { changes: after.changes, ..node })
            &&& after.changes.items == node.changes.items
            &&& after.changes.senders == node.changes.senders
            &&& forall|t: int| #[trigger]
                after.changes.arrived.contains(t) <==> node.changes.arrived.contains(t) && t
                    != ticket
        }),
{
}

/// A message that was set aside can be released, whichever lane it is for: it then stands at the
/// end of the outbox of its lane, its ticket is free, and nothing else about the node changes. It
/// is delivered where fewer than 128 messages can be received on the lane, and stands in line
/// otherwise. A ticket that is free releases nothing.
pub proof fn law_what_is_set_aside_can_be_released<R>(
    before: NodeView<R>,
    after: NodeView<R>,
    ticket: int,
    progress: Option<Progress>,
)
    requires
        released(before, after, ticket, progress),
    ensures
        before.in_flight.contains_key(ticket) ==> {
            let lane = before.in_flight[ticket].lane;
            let message = before.in_flight[ticket].message;
            &&& progress == if outbox(before, lane).len() < 128 {
                Some(Progress::Delivered(lane))
            } else {
                Some(Progress::Blocked(lane))
            }
            &&& outbox(after, lane) == outbox(before, lane) + seq![message]
            &&& outbox(after, opposite(lane)) == outbox(before, opposite(lane))
            &&& !after.in_flight.contains_key(ticket)
            &&& forall|t: int|
                t != ticket ==> (#[trigger] after.in_flight.contains_key(t)
                    <==> before.in_flight.contains_key(t)) && (before.in_flight.contains_key(t)
                    ==> after.in_flight[t] == before.in_flight[t])
            &&& after == (NodeView {
                direct_output: after.direct_output,
                broadcast_output: after.broadcast_output,
                in_flight: after.in_flight,
                ..before
            })
        },
        !before.in_flight.contains_key(ticket) ==> progress is None && after == before,
{
    if before.in_flight.contains_key(ticket) {
        let lane = before.in_flight[ticket].lane;
        let message = before.in_flight[ticket].message;
        assert(outbox(before, lane).push(message) =~= outbox(before, lane) + seq![message]);
    }
}

/// A receipt takes the oldest message of a lane, where one can be received, and leaves the others
/// in their order. Where none can be received, the answer is that the lane has shut down exactly
/// when the background work is over and no message of the lane is set aside, and that there is
/// nothing yet otherwise.
pub proof fn law_receipt_takes_the_oldest<R>(
    before: NodeView<R>,
    after: NodeView<R>,
    lane: Lane,
    res: Result<Option<Seq<u8>>, NetworkError>,
)
    requires
        received(before, after, lane, res),
    ensures
        same_but_outbox(before, after, lane),
        outbox(before, lane).len() > 0 ==> {
            &&& res == Ok::<_, NetworkError>(Some(outbox(before, lane)[0]))
            &&& outbox(before, lane) == seq![outbox(before, lane)[0]] + outbox(after, lane)
        },
        outbox(before, lane).len() == 0 ==> after == before && res == if before.stopped && forall|
            ticket: int,
        | #[trigger]
            before.in_flight.contains_key(ticket) ==> before.in_flight[ticket].lane != lane {
            Err::<Option<Seq<u8>>, _>(NetworkError::ShutDown)
        } else {
            Ok(None)
        },
{
    if outbox(before, lane).len() > 0 {
        assert(outbox(before, lane) =~= seq![outbox(before, lane)[0]] + outbox(after, lane));
    }
    law_end_of_a_lane(before, lane);
}

/// Nothing can reach a lane any more exactly when the background work is over and no message of
/// the lane is set aside.
pub proof fn law_end_of_a_lane<R>(node: NodeView<R>, lane: Lane)
    ensures
        node.finished(lane) <==> node.stopped && forall|ticket: int| #[trigger]
            node.in_flight.contains_key(ticket) ==> node.in_flight[ticket].lane != lane,
{
}

/// A receipt of a whole queue takes everything: where messages can be received on a lane, the
/// answer is all of them, in their order, and none is left. Where none can be received, the
/// answer is as for a receipt of one message.
pub proof fn law_receipt_of_a_queue_takes_everything<R>(
    before: NodeView<R>,
    after: NodeView<R>,
    lane: Lane,
    res: Result<Option<Seq<Seq<u8>>>, NetworkError>,
)
    requires
        drained(before, after, lane, res),
    ensures
        same_but_outbox(before, after, lane),
        outbox(after, lane).len() == 0,
        outbox(before, lane).len() > 0 ==> {
            &&& res matches Ok(Some(list))
            &&& list.len() == outbox(before, lane).len()
            &&& forall|i: int| 0 <= i < list.len() ==> #[trigger] list[i] == outbox(before, lane)[i]
        },
        outbox(before, lane).len() == 0 ==> after == before && res == if before.stopped && forall|
            ticket: int,
        | #[trigger]
            before.in_flight.contains_key(ticket) ==> before.in_flight[ticket].lane != lane {
            Err::<Option<Seq<Seq<u8>>>, _>(NetworkError::ShutDown)
        } else {
            Ok(None)
        },
{
    law_end_of_a_lane(before, lane);
}

/// A receipt of a whole queue is the receipts of its messages one by one: it answers with the
/// message that a receipt of one message answers with, followed by what a receipt of the whole
/// queue answers with after that.
pub proof fn law_queue_is_received_one_by_one<R>(
    before: NodeView<R>,
    middle: NodeView<R>,
    after: NodeView<R>,
    end: NodeView<R>,
    lane: Lane,
    all: Seq<Seq<u8>>,
    first: Seq<u8>,
    rest: Result<Option<Seq<Seq<u8>>>, NetworkError>,
)
    requires
        drained(before, end, lane, Ok(Some(all))),
        received(before, middle, lane, Ok(Some(first))),
        drained(middle, after, lane, rest),
    ensures
        after == end,
        all == match rest {
            Ok(Some(list)) => seq![first] + list,
            _ => seq![first],
        },
{
    let queue = outbox(before, lane);
    assert(all =~= match rest {
        Ok(Some(list)) => seq![first] + list,
        _ => seq![first],
    });
    assert(after =~= end);
}

/// News that waits can be read, whatever the reliability model of the node: where news stands in
/// line, the answer is all of it, in its order, none is left, and every sender is let through.
/// That there is nothing yet, and that the node has shut down, is answered only where no news
/// stands in line, and shut down exactly when the node takes no news any more.
pub proof fn law_news_that_waits_is_read<R>(
    before: NodeView<R>,
    after: NodeView<R>,
    res: Result<Option<Seq<NetworkChange>>, NetworkError>,
)
    requires
        drained_changes(before, after, res),
    ensures
        after == (NodeView { changes: after.changes, ..before }),
        after.changes.items.len() == 0,
        before.changes.items.len() > 0 ==> {
            &&& res matches Ok(Some(list))
            &&& list.len() == before.changes.items.len()
            &&& forall|i: int| 0 <= i < list.len() ==> #[trigger] list[i] == before.changes.items[i]
            &&& after.changes.senders.len() == 0
            &&& forall|t: int| #[trigger]
                after.changes.arrived.contains(t) <==> before.changes.arrived.contains(t)
                    || exists|i: int|
                    0 <= i < before.changes.senders.len() && #[trigger] before.changes.senders[i]
                        == Some(t)
        },
        before.changes.items.len() == 0 ==> after == before && res == if before.news_open {
            Ok::<Option<Seq<NetworkChange>>, _>(None)
        } else {
            Err(NetworkError::ShutDown)
        },
{
    if before.changes.items.len() > 0 {
        law_line_moves_on(before.changes, before.changes.items[0], None, 0);
    }
}

/// A shut down closes the inputs of a node in turn, and nothing else about the node changes: that
/// for broadcasts at once, that for messages for the node when no broadcast stands in line, and
/// that for news when no message stands in line. It is complete when everything is closed and
/// nobody stands in line.
pub proof fn law_shut_down_closes_in_turn<R>(node: NodeView<R>)
    ensures
        ({
            let after = node.shut();
            &&& after == (NodeView {
                direct_open: after.direct_open,
                broadcast_open: after.broadcast_open,
                news_open: after.news_open,
                ..node
            })
            &&& !after.broadcast_open
            &&& after.direct_open <==> node.direct_open && node.broadcast_input.senders.len() > 0
            &&& after.news_open <==> node.news_open && (node.broadcast_input.senders.len() > 0
                || node.direct_input.senders.len() > 0)
        }),
        node.is_shut() <==> !node.broadcast_open && !node.direct_open && !node.news_open
            && node.broadcast_input.senders.len() == 0 && node.direct_input.senders.len() == 0
            && node.changes.senders.len() == 0,
{
}

/// Whether a node waits until a message has room: it has no reliability model, and more than 128
/// messages can be received on one of its lanes.
pub open spec fn waits_for_room<R>(node: NodeView<R>) -> bool {
    node.reliability is None && (node.direct_output.len() > 128 || node.broadcast_output.len()
        > 128)
}

/// The lane that is looked at: the one that is favoured, unless nothing stands in its inbox.
pub open spec fn looked_at<R>(node: NodeView<R>, favoured: Lane) -> Lane {
    if inbox(node, favoured).items.len() > 0 {
        favoured
    } else {
        opposite(favoured)
    }
}

/// A step of a node whose work is over, or that waits for room, or in whose inboxes nothing
/// stands, looks at nothing. It says which of these it is, and the work is over from then on where
/// nothing can come any more.
pub proof fn law_step_that_looks_at_nothing<R: NetworkReliability>(
    before: NodeView<R>,
    after: NodeView<R>,
    favoured: Lane,
    progress: Progress,
    reading: Reading,
)
    requires
        stepped(before, after, favoured, decoded_by(reading), progress),
    ensures
        before.stopped ==> after == before && progress == Progress::Stopped,
        !before.stopped && waits_for_room(before) ==> after == before && progress
            == Progress::Blocked(
            if before.direct_output.len() > 128 {
                Lane::Direct
            } else {
                Lane::Broadcast
            },
        ),
        !before.stopped && !waits_for_room(before) && before.direct_input.items.len() == 0
            && before.broadcast_input.items.len() == 0 ==> if before.direct_open
            || before.broadcast_open {
            after == before && progress == Progress::Idle
        } else {
            after == (NodeView { stopped: true, ..before }) && progress == Progress::Stopped
        },
{
}

/// A step that looks at something takes the oldest bytes out of an inbox, that of the lane that is
/// favoured where something stands in it. What it does to the other inbox, to news, to what is
/// open and to the model is nothing.
pub proof fn law_step_looks_at_the_oldest<R: NetworkReliability>(
    before: NodeView<R>,
    after: NodeView<R>,
    favoured: Lane,
    progress: Progress,
    reading: Reading,
)
    requires
        stepped(before, after, favoured, decoded_by(reading), progress),
        !before.stopped && !waits_for_room(before),
        before.direct_input.items.len() > 0 || before.broadcast_input.items.len() > 0,
    ensures
        ({
            let lane = looked_at(before, favoured);
            &&& oldest_left(inbox(before, lane), inbox(after, lane))
            &&& inbox(after, opposite(lane)) == inbox(before, opposite(lane))
            &&& after == (NodeView {
                direct_input: after.direct_input,
                broadcast_input: after.broadcast_input,
                direct_output: after.direct_output,
                broadcast_output: after.broadcast_output,
                asked: after.asked,
                in_flight: after.in_flight,
                ..before
            })
            &&& outbox(after, opposite(lane)) == outbox(before, opposite(lane))
        }),
{
    let lane = looked_at(before, favoured);
    law_line_moves_on(inbox(before, lane), inbox(before, lane).items[0], None, 0);
}

/// Bytes that are no message are skipped: nothing comes of them. A message of a node without a
/// reliability model stands at the end of the outbox of its lane. A message of a node with one is
/// lost, or set aside under a ticket that was free.
pub proof fn law_step_does_with_bytes<R: NetworkReliability>(
    before: NodeView<R>,
    after: NodeView<R>,
    favoured: Lane,
    progress: Progress,
    reading: Reading,
)
    requires
        stepped(before, after, favoured, decoded_by(reading), progress),
        !before.stopped && !waits_for_room(before),
        before.direct_input.items.len() > 0 || before.broadcast_input.items.len() > 0,
    ensures
        ({
            let lane = looked_at(before, favoured);
            match reading(inbox(before, lane).items[0]) {
                None => {
                    &&& progress == Progress::Skipped(lane)
                    &&& outbox(after, lane) == outbox(before, lane)
                    &&& after.in_flight == before.in_flight
                },
                Some(message) => if before.reliability is None {
                    &&& progress == if outbox(before, lane).len() < 128 {
                        Progress::Delivered(lane)
                    } else {
                        Progress::Blocked(lane)
                    }
                    &&& outbox(after, lane) == outbox(before, lane) + seq![message]
                    &&& after.in_flight == before.in_flight
                } else {
                    &&& outbox(after, lane) == outbox(before, lane)
                    &&& match progress {
                        Progress::Dropped(l) => l == lane && after.in_flight == before.in_flight,
                        Progress::Scheduled { lane: l, ticket, pause: _ } => {
                            &&& l == lane
                            &&& !before.in_flight.contains_key(ticket as int)
                            &&& after.in_flight.contains_key(ticket as int)
                            &&& after.in_flight[ticket as int].lane == lane
                            &&& after.in_flight[ticket as int].message == message
                            &&& forall|t: int|
                                t != ticket ==> (#[trigger] after.in_flight.contains_key(t)
                                    <==> before.in_flight.contains_key(t)) && (
                                before.in_flight.contains_key(t) ==> after.in_flight[t]
                                    == before.in_flight[t])
                        },
                        _ => false,
                    }
                },
            }
        }),
{
    let lane = looked_at(before, favoured);
    if let Some(message) = reading(inbox(before, lane).items[0]) {
        assert(outbox(before, lane).push(message) =~= outbox(before, lane) + seq![message]);
    }
}

/// Whether a count has gone up by one; behind the largest `u64` it starts again.
pub open spec fn up_by_one(before: u64, after: u64) -> bool {
    after == (before + 1) % 0x1_0000_0000_0000_0000
}

/// One sample decides each message. For every message that a node with a reliability model looks
/// at, the model is asked exactly once whether the message is kept. Where the answer is no, the
/// message is lost, and nothing else is asked. Where it is yes, the model is asked exactly once
/// how long the message is held back, and the message is set aside for that long. The model is
/// asked nothing in any other step.
pub proof fn law_one_sample_decides<R: NetworkReliability>(
    before: NodeView<R>,
    after: NodeView<R>,
    favoured: Lane,
    progress: Progress,
    reading: Reading,
)
    requires
        stepped(before, after, favoured, decoded_by(reading), progress),
    ensures
        match progress {
            Progress::Dropped(_) => {
                &&& up_by_one(before.asked.keeps, after.asked.keeps)
                &&& !after.asked.kept
                &&& after.asked.delays == before.asked.delays
                &&& after.asked.delay == before.asked.delay
                &&& before.reliability matches Some(model) && call_ensures(
                    R::sample_keep,
                    (&model,),
                    false,
                )
            },
            Progress::Scheduled { lane: _, ticket: _, pause } => {
                &&& up_by_one(before.asked.keeps, after.asked.keeps)
                &&& after.asked.kept
                &&& up_by_one(before.asked.delays, after.asked.delays)
                &&& pause == if after.asked.delay == 0 {
                    None
                } else {
                    Some(after.asked.delay)
                }
                &&& before.reliability matches Some(model) && call_ensures(
                    R::sample_keep,
                    (&model,),
                    true,
                ) && call_ensures(R::sample_delay, (&model,), after.asked.delay)
            },
            _ => after.asked == before.asked,
        },
{
}

/// Nothing but a step asks a reliability model anything.
pub proof fn law_only_steps_ask<R: NetworkReliability>(
    before: NodeView<R>,
    after: NodeView<R>,
    event: NodeEvent,
    reading: Reading,
)
    requires
        happens(before, after, event, reading),
        !(event is Step),
    ensures
        after.asked == before.asked,
{
}

/// How many messages were decided by a sample.
pub open spec fn decided(events: Seq<NodeEvent>) -> nat
    decreases events.len(),
{
    if events.len() == 0 {
        0
    } else {
        decided(events.drop_last()) + match events.last() {
            NodeEvent::Step(_, Progress::Dropped(_)) => 1nat,
            NodeEvent::Step(_, Progress::Scheduled { .. }) => 1nat,
            _ => 0nat,
        }
    }
}

/// Over any history of a node, its reliability model was asked whether a message is kept as often
/// as messages were lost or set aside.
pub proof fn law_samples_are_counted<R: NetworkReliability>(
    states: Seq<NodeView<R>>,
    events: Seq<NodeEvent>,
    reading: Reading,
)
    requires
        history(states, events, reading),
    ensures
        states.last().asked.keeps == (states[0].asked.keeps + decided(events))
            % 0x1_0000_0000_0000_0000,
    decreases events.len(),
{
    if events.len() > 0 {
        let earlier_states = states.drop_last();
        let earlier = events.drop_last();
        assert forall|i: int| 0 <= i < earlier.len() implies happens(
            earlier_states[i],
            earlier_states[i + 1],
            #[trigger] earlier[i],
            reading,
        ) by {
            assert(events[i] == earlier[i]);
        }
        law_samples_are_counted(earlier_states, earlier, reading);
        let before = states[events.len() - 1];
        let after = states[events.len() as int];
        assert(happens(before, after, events[events.len() - 1], reading));
        match events.last() {
            NodeEvent::Step(favoured, progress) => {
                law_one_sample_decides(before, after, favoured, progress, reading);
            },
            _ => {
                law_only_steps_ask(before, after, events.last(), reading);
            },
        }
    }
}

/// What becomes of a message whose fate is known: in order, it stands at the end of the outbox of
/// its lane; lost, nothing comes of it; delayed, it is set aside under a ticket that was free, for
/// as long as the delay says. Nothing else about the node changes.
pub proof fn law_fate_is_carried_out<R>(
    before: NodeView<R>,
    after: NodeView<R>,
    lane: Lane,
    message: Seq<u8>,
    fate: Fate,
    progress: Progress,
)
    requires
        disposed(before, after, lane, message, fate, progress),
    ensures
        match fate {
            Fate::InOrder => {
                &&& same_but_outbox(before, after, lane)
                &&& outbox(after, lane) == outbox(before, lane) + seq![message]
                &&& progress == if outbox(before, lane).len() < 128 {
                    Progress::Delivered(lane)
                } else {
                    Progress::Blocked(lane)
                }
            },
            Fate::Lost => after == before && progress == Progress::Dropped(lane),
            Fate::Delayed(delay) => {
                &&& progress matches Progress::Scheduled { lane: l, ticket, pause }
                &&& l == lane
                &&& pause == if delay == 0 {
                    None
                } else {
                    Some(delay)
                }
                &&& !before.in_flight.contains_key(ticket as int)
                &&& after == (NodeView { in_flight: after.in_flight, ..before })
                &&& after.in_flight == before.in_flight.insert(
                    ticket as int,
                    ParcelView { lane, message },
                )
            },
        },
{
    assert(outbox(before, lane).push(message) =~= outbox(before, lane) + seq![message]);
}

/// Without a reliability model every message is delivered in order. With one it is lost only where
/// the model can answer that it is not kept, and set aside only where the model can answer that it
/// is kept and held back that long.
pub proof fn law_fates_are_answers<R: NetworkReliability>(config: Option<R>, fate: Fate)
    ensures
        possible_fate(config, fate) <==> match fate {
            Fate::InOrder => config is None,
            Fate::Lost => config matches Some(model) && call_ensures(
                R::sample_keep,
                (&model,),
                false,
            ),
            Fate::Delayed(delay) => config matches Some(model) && call_ensures(
                R::sample_keep,
                (&model,),
                true,
            ) && call_ensures(R::sample_delay, (&model,), delay),
        },
{
}

/// A message that is sent to a node without a reliability model that has nothing else to do can be
/// received after one step, whatever the lane, and whichever lane the step favours.
pub proof fn law_message_can_be_received<R: NetworkReliability>(
    start: NodeView<R>,
    given: NodeView<R>,
    worked: NodeView<R>,
    end: NodeView<R>,
    lane: Lane,
    bytes: Seq<u8>,
    favoured: Lane,
    progress: Progress,
    res: Result<Option<Seq<u8>>, NetworkError>,
    reading: Reading,
)
    requires
        start.valid() && start.reliability is None && !start.stopped,
        start.direct_input.items.len() == 0 && start.broadcast_input.items.len() == 0,
        start.direct_output.len() == 0 && start.broadcast_output.len() == 0,
        happens(start, given, NodeEvent::Take(lane, bytes, None), reading),
        happens(given, worked, NodeEvent::Step(favoured, progress), reading),
        received(worked, end, lane, res),
        reading(bytes) is Some,
    ensures
        progress == Progress::Delivered(lane),
        res == Ok::<_, NetworkError>(reading(bytes)),
        end == start,
{
    assert(given.direct_output.len() == 0 && given.broadcast_output.len() == 0);
    law_node_takes_bytes(start, lane, bytes, None);
    law_step_looks_at_the_oldest(given, worked, favoured, progress, reading);
    law_step_does_with_bytes(given, worked, favoured, progress, reading);
    law_one_sample_decides(given, worked, favoured, progress, reading);
    assert(looked_at(given, favoured) == lane);
    law_receipt_takes_the_oldest(worked, end, lane, res);
    assert(end =~= start);
}

/// A message that a reliability model keeps can be received once it was released, whatever the
/// lane.
pub proof fn law_kept_message_can_be_received<R: NetworkReliability>(
    start: NodeView<R>,
    worked: NodeView<R>,
    freed: NodeView<R>,
    end: NodeView<R>,
    favoured: Lane,
    lane: Lane,
    ticket: usize,
    pause: Option<u128>,
    progress: Option<Progress>,
    res: Result<Option<Seq<u8>>, NetworkError>,
    reading: Reading,
)
    requires
        stepped(
            start,
            worked,
            favoured,
            decoded_by(reading),
            Progress::Scheduled { lane, ticket, pause },
        ),
        released(worked, freed, ticket as int, progress),
        start.direct_output.len() == 0 && start.broadcast_output.len() == 0,
        received(freed, end, lane, res),
    ensures
        progress == Some(Progress::Delivered(lane)),
        res == Ok::<_, NetworkError>(reading(inbox(start, lane).items[0])),
        res matches Ok(Some(_)),
        !end.in_flight.contains_key(ticket as int),
{
    law_step_that_looks_at_nothing(
        start,
        worked,
        favoured,
        Progress::Scheduled { lane, ticket, pause },
        reading,
    );
    law_step_looks_at_the_oldest(
        start,
        worked,
        favoured,
        Progress::Scheduled { lane, ticket, pause },
        reading,
    );
    law_step_does_with_bytes(
        start,
        worked,
        favoured,
        Progress::Scheduled { lane, ticket, pause },
        reading,
    );
    law_what_is_set_aside_can_be_released(worked, freed, ticket as int, progress);
    law_receipt_takes_the_oldest(freed, end, lane, res);
}

/// An answer with messages or news holds them byte for byte and in order, and an error is the
/// error.
pub proof fn law_answers_hold_what_was_received(
    message: Vec<u8>,
    list: Vec<Vec<u8>>,
    changes: Vec<NetworkChange>,
    error: NetworkError,
)
    ensures
        content(Some(message)) == Some(message@),
        content(None) is None,
        receipt(Ok(Some(message))) == Ok::<_, NetworkError>(Some(message@)),
        receipt(Ok(None)) == Ok::<Option<Seq<u8>>, NetworkError>(None),
        receipt(Err(error)) == Err::<Option<Seq<u8>>, _>(error),
        receipts(Ok(Some(list))) matches Ok(Some(values)) && values.len() == list@.len() && forall|
            i: int,
        |
            0 <= i < list@.len() ==> #[trigger] values[i] == list@[i]@,
        contents(list@).len() == list@.len(),
        receipts(Ok(None)) == Ok::<Option<Seq<Seq<u8>>>, NetworkError>(None),
        receipts(Err(error)) == Err::<Option<Seq<Seq<u8>>>, _>(error),
        tidings(Ok(Some(changes))) == Ok::<_, NetworkError>(Some(changes@)),
        tidings(Ok(None)) == Ok::<Option<Seq<NetworkChange>>, NetworkError>(None),
        tidings(Err(error)) == Err::<Option<Seq<NetworkChange>>, _>(error),
{
}

/// Bytes are read as exactly what a decoder can answer for them, and a reading reads them as
/// exactly one thing.
pub proof fn law_bytes_are_read_by_their_decoder<F: Fn(&Vec<u8>) -> Option<Vec<u8>>>(
    decoder: F,
    reading: Reading,
    bytes: Vec<u8>,
    message: Option<Vec<u8>>,
)
    ensures
        call_ensures(decoder, (&bytes,), message) ==> decodings(decoder)(
            bytes@,
            content(message),
        ),
        forall|b: Seq<u8>, m: Option<Seq<u8>>| #[trigger]
            decodings(decoder)(b, m) ==> exists|given: Vec<u8>, got: Option<Vec<u8>>| #[trigger]
                call_ensures(decoder, (&given,), got) && given@ == b && match got {
                    Some(got) => m == Some(got@),
                    None => m is None,
                },
        forall|b: Seq<u8>, m: Option<Seq<u8>>| #[trigger]
            decoded_by(reading)(b, m) <==> m == reading(b),
{
}

} // verus!
