//! What holds of a group of nodes, whatever happens to it.

use crate::model::{
    announced, announced_on, announced_up_to, attaching, broadcast, directed, lemma_enumerated,
    lemma_slots, sent, sent_on, sent_up_to, ticket_of, AttachView, AttachmentView, DeliveryView,
    GroupView, NodeView, PendingView, Standing,
};
use crate::node::Reading;
use crate::node_laws::{
    handed_out, happens, history, law_events_keep_validity, law_first_in_first_out, pipeline,
    readable, taken, NodeEvent,
};
use crate::reliability::NetworkReliability;
use crate::types::{Lane, NetworkChange, NetworkError, PubKey};
use vstd::prelude::*;

verus! {

/// Bytes that were sent to a key join the input of the node that the key leads to, once, and of
/// no other node, unless the send fails.
pub proof fn law_message_goes_to_recipient<R: NetworkReliability>(
    before: GroupView<R>,
    after: GroupView<R>,
    recipient: PubKey,
    bytes: Seq<u8>,
    delivery: DeliveryView,
    reading: Reading,
)
    requires
        before.valid(),
        directed(before, after, recipient, bytes, Ok(delivery)),
    ensures
        before.registry.contains_key(recipient),
        before.nodes[before.registry[recipient]].pub_key == recipient,
        happens(
            before.nodes[before.registry[recipient]],
            after.nodes[before.registry[recipient]],
            NodeEvent::Take(
                Lane::Direct,
                bytes,
                match delivery {
                    DeliveryView::Done => None,
                    DeliveryView::Waiting(rest) => ticket_of(rest.standing),
                },
            ),
            reading,
        ),
        forall|slot: int|
            0 <= slot < before.nodes.len() && slot != before.registry[recipient]
                ==> #[trigger] after.nodes[slot] == before.nodes[slot],
        after.nodes.len() == before.nodes.len(),
        after.registry == before.registry,
{
}

/// A send to a key comes to an end at once, and successfully, exactly when the key leads to a
/// node that takes messages for it and has room. It waits exactly when that node is full.
pub proof fn law_message_succeeds<R>(
    before: GroupView<R>,
    after: GroupView<R>,
    recipient: PubKey,
    bytes: Seq<u8>,
    outcome: Result<DeliveryView, NetworkError>,
)
    requires
        before.valid(),
        directed(before, after, recipient, bytes, outcome),
    ensures
        outcome matches Ok(DeliveryView::Done) <==> before.registry.contains_key(recipient)
            && before.nodes[before.registry[recipient]].accepts(Lane::Direct),
        outcome matches Ok(DeliveryView::Waiting(_)) <==> before.registry.contains_key(recipient)
            && before.nodes[before.registry[recipient]].direct_open
            && !before.nodes[before.registry[recipient]].accepts(Lane::Direct),
        outcome == Err::<DeliveryView, _>(NetworkError::NoSuchNode)
            <==> !before.registry.contains_key(recipient),
        outcome == Err::<DeliveryView, _>(NetworkError::CouldNotDeliver)
            <==> before.registry.contains_key(recipient)
            && !before.nodes[before.registry[recipient]].direct_open,
{
}

/// A broadcast that came to a good end was taken by every node that can be found, by each of
/// them once, and by no other node. The sender is no exception.
pub proof fn law_broadcast_goes_to_everyone<R: NetworkReliability>(
    before: GroupView<R>,
    after: GroupView<R>,
    bytes: Seq<u8>,
    reading: Reading,
)
    requires
        before.valid(),
        broadcast(before, after, bytes, Ok(DeliveryView::Done)),
    ensures
        forall|slot: int| #[trigger]
            before.listed(slot) ==> happens(
                before.nodes[slot],
                after.nodes[slot],
                NodeEvent::Take(Lane::Broadcast, bytes, None),
                reading,
            ),
        forall|slot: int|
            0 <= slot < before.nodes.len() && !before.listed(slot)
                ==> #[trigger] after.nodes[slot] == before.nodes[slot],
        after.nodes.len() == before.nodes.len(),
        after.registry == before.registry,
{
    let targets = choose|targets: Seq<PubKey>| #[trigger]
        before.enumerated_by(targets) && sent(
            before,
            after,
            PendingView::begun(Lane::Broadcast, bytes, targets),
            Ok(DeliveryView::Done),
        );
    let pending = PendingView::begun(Lane::Broadcast, bytes, targets);
    let stop = choose|stop: int| #[trigger]
        sent_up_to(before, after, pending, stop, Ok(DeliveryView::Done));
    let slots = before.slots(targets);
    lemma_enumerated(before, targets);
    assert(slots.subrange(0, stop) =~= slots);
    assert forall|slot: int| #[trigger] before.listed(slot) implies happens(
        before.nodes[slot],
        after.nodes[slot],
        NodeEvent::Take(Lane::Broadcast, bytes, None),
        reading,
    ) by {
        assert(slots.contains(slot));
        let i = slots.index_of(slot);
        assert(slots[i] == slot);
    }
    assert forall|slot: int|
        0 <= slot < before.nodes.len() && !before.listed(slot) implies #[trigger] after.nodes[slot]
        == before.nodes[slot] by {
        assert(!slots.contains(slot));
    }
}

/// A broadcast comes to an end at once, and successfully, exactly when every node that can be
/// found takes broadcasts and has room. Where it fails, some node that can be found takes none any
/// more; where it waits, some node that can be found is full.
pub proof fn law_broadcast_succeeds<R>(
    before: GroupView<R>,
    after: GroupView<R>,
    bytes: Seq<u8>,
    outcome: Result<DeliveryView, NetworkError>,
)
    requires
        before.valid(),
        broadcast(before, after, bytes, outcome),
    ensures
        outcome matches Ok(DeliveryView::Done) <==> forall|slot: int| #[trigger]
            before.listed(slot) ==> before.nodes[slot].accepts(Lane::Broadcast),
        outcome matches Err(error) ==> error == NetworkError::CouldNotDeliver && exists|slot: int|
            #[trigger] before.listed(slot) && !before.nodes[slot].broadcast_open,
        outcome matches Ok(DeliveryView::Waiting(_)) ==> exists|slot: int| #[trigger]
            before.listed(slot) && before.nodes[slot].broadcast_open && !before.nodes[slot].accepts(
                Lane::Broadcast,
            ),
{
    let targets = choose|targets: Seq<PubKey>| #[trigger]
        before.enumerated_by(targets) && sent(
            before,
            after,
            PendingView::begun(Lane::Broadcast, bytes, targets),
            outcome,
        );
    let pending = PendingView::begun(Lane::Broadcast, bytes, targets);
    let stop = choose|stop: int| #[trigger] sent_up_to(before, after, pending, stop, outcome);
    let slots = before.slots(targets);
    lemma_enumerated(before, targets);
    if stop == targets.len() {
        assert forall|slot: int| #[trigger] before.listed(slot) implies before.nodes[slot].accepts(
            Lane::Broadcast,
        ) by {
            assert(slots.contains(slot));
            let i = slots.index_of(slot);
            assert(slots[i] == slot);
        }
    } else {
        assert(before.listed(slots[stop]));
    }
}

/// The number of the first key in a list that was not reached yet.
pub open spec fn first_left(next: int, standing: Option<Standing>) -> int {
    if standing is Some {
        next + 1
    } else {
        next
    }
}

/// The places of the nodes that a send or an attachment has yet to reach.
pub open spec fn left<R>(
    group: GroupView<R>,
    targets: Seq<PubKey>,
    next: int,
    standing: Option<Standing>,
) -> Seq<int> {
    group.slots(targets).subrange(first_left(next, standing), targets.len() as int)
}

/// A send or an attachment can go on in every later state of its group.
pub proof fn law_pending_stays_valid<R>(
    before: GroupView<R>,
    after: GroupView<R>,
    send: PendingView,
    attachment: AttachView<R>,
)
    requires
        after.keeps_nodes_of(before),
    ensures
        send.valid_in(before) ==> send.valid_in(after),
        attachment.valid_in(before) ==> attachment.valid_in(after),
{
}

/// The place that something stands in line at is none of those that are yet to be reached.
proof fn lemma_standing_is_not_left<R>(
    group: GroupView<R>,
    targets: Seq<PubKey>,
    next: int,
    standing: Standing,
)
    requires
        group.leads_right(),
        group.knows(targets),
        0 <= next < targets.len(),
        0 <= standing.slot < group.nodes.len(),
        group.nodes[standing.slot].pub_key == targets[next],
    ensures
        !left(group, targets, next, Some(standing)).contains(standing.slot),
{
    lemma_slots(group, targets);
    let slots = group.slots(targets);
    let rest = left(group, targets, next, Some(standing));
    if rest.contains(standing.slot) {
        let i = rest.index_of(standing.slot);
        assert(slots[next + 1 + i] == standing.slot);
        assert(group.nodes[slots[next + 1 + i]].pub_key == targets[next + 1 + i]);
    }
}

/// What a send changes that moves on from node to node.
proof fn lemma_send_changes<R>(
    before: GroupView<R>,
    after: GroupView<R>,
    pending: PendingView,
    outcome: Result<DeliveryView, NetworkError>,
)
    requires
        before.leads_right(),
        before.knows(pending.targets),
        0 <= pending.next <= pending.targets.len(),
        sent_on(before, after, pending, outcome),
    ensures
        after.nodes.len() == before.nodes.len(),
        after.registry == before.registry,
        forall|slot: int|
            0 <= slot < before.nodes.len() && !left(
                before,
                pending.targets,
                pending.next,
                None,
            ).contains(slot) ==> #[trigger] after.nodes[slot] == before.nodes[slot],
        outcome matches Ok(DeliveryView::Done) ==> forall|slot: int| #[trigger]
            left(before, pending.targets, pending.next, None).contains(slot) ==> after.nodes[slot]
                == before.nodes[slot].given(pending.lane, pending.bytes, None),
{
    let stop = choose|stop: int| #[trigger] sent_up_to(before, after, pending, stop, outcome);
    lemma_slots(before, pending.targets);
    lemma_left(before, pending.targets, pending.next, stop);
}

/// What is reached before a place in a list is a part of what was yet to be reached.
proof fn lemma_left<R>(group: GroupView<R>, targets: Seq<PubKey>, next: int, stop: int)
    requires
        0 <= next <= stop <= targets.len(),
    ensures
        ({
            let slots = group.slots(targets);
            let rest = left(group, targets, next, None);
            let done = slots.subrange(next, stop);
            &&& forall|slot: int| #[trigger] done.contains(slot) ==> rest.contains(slot)
            &&& stop < targets.len() ==> rest.contains(slots[stop])
            &&& stop == targets.len() ==> done == rest
        }),
{
    let slots = group.slots(targets);
    let rest = left(group, targets, next, None);
    let done = slots.subrange(next, stop);
    assert forall|slot: int| #[trigger] done.contains(slot) implies rest.contains(slot) by {
        let i = done.index_of(slot);
        assert(rest[i] == slot);
    }
    if stop < targets.len() {
        assert(rest[stop - next] == slots[stop]);
    }
}

/// A send that goes on gives the bytes to nodes only that it has not reached yet, and only
/// settles the node that it waits at. Where it came to an end, each of the others has taken the
/// bytes once.
pub proof fn law_resumed_send_repeats_nothing<R>(
    before: GroupView<R>,
    after: GroupView<R>,
    pending: PendingView,
    outcome: Result<DeliveryView, NetworkError>,
)
    requires
        before.valid(),
        pending.valid_in(before),
        sent(before, after, pending, outcome),
    ensures
        ({
            let rest = left(before, pending.targets, pending.next, pending.standing);
            &&& after.nodes.len() == before.nodes.len()
            &&& after.registry == before.registry
            &&& forall|slot: int|
                0 <= slot < before.nodes.len() && !rest.contains(slot) ==> (
                #[trigger] after.nodes[slot] == before.nodes[slot] || (pending.standing matches Some(
                    standing,
                ) && slot == standing.slot && after.nodes[slot] == before.nodes[slot].settled(
                    pending.lane,
                    standing.ticket,
                )))
            &&& outcome matches Ok(DeliveryView::Done) ==> forall|slot: int| #[trigger]
                rest.contains(slot) ==> after.nodes[slot] == before.nodes[slot].given(
                    pending.lane,
                    pending.bytes,
                    None,
                )
        }),
{
    match pending.standing {
        Some(standing) => {
            let node = before.nodes[standing.slot];
            lemma_standing_is_not_left(before, pending.targets, pending.next, standing);
            if node.input(pending.lane).arrived.contains(standing.ticket) {
                let start = before.with_node(
                    standing.slot,
                    node.settled(pending.lane, standing.ticket),
                );
                lemma_send_changes(start, after, pending.passed(), outcome);
                assert(left(start, pending.targets, pending.next + 1, None) =~= left(
                    before,
                    pending.targets,
                    pending.next,
                    pending.standing,
                ));
            }
        },
        None => {
            lemma_send_changes(before, after, pending, outcome);
        },
    }
}

/// A send whose bytes stand in line at a node does not fail on account of that node, whether it
/// was shut down since or not: it goes on exactly when the bytes got room, and where that node
/// was the last one it comes to a good end.
pub proof fn law_waiting_send_is_kept<R>(
    before: GroupView<R>,
    after: GroupView<R>,
    pending: PendingView,
    standing: Standing,
    outcome: Result<DeliveryView, NetworkError>,
)
    requires
        before.valid(),
        pending.valid_in(before),
        pending.standing == Some(standing),
        sent(before, after, pending, outcome),
    ensures
        ({
            let arrived = before.nodes[standing.slot].input(pending.lane).arrived.contains(
                standing.ticket,
            );
            &&& !arrived ==> after == before && outcome == Ok::<DeliveryView, NetworkError>(
                DeliveryView::Waiting(pending),
            )
            &&& arrived && pending.next + 1 == pending.targets.len() ==> outcome == Ok::<
                DeliveryView,
                NetworkError,
            >(DeliveryView::Done)
            &&& outcome is Err ==> exists|slot: int| #[trigger]
                left(before, pending.targets, pending.next, pending.standing).contains(slot)
                    && !before.nodes[slot].is_open(pending.lane)
        }),
{
    let node = before.nodes[standing.slot];
    lemma_standing_is_not_left(before, pending.targets, pending.next, standing);
    if node.input(pending.lane).arrived.contains(standing.ticket) {
        let start = before.with_node(standing.slot, node.settled(pending.lane, standing.ticket));
        let stop = choose|stop: int| #[trigger]
            sent_up_to(start, after, pending.passed(), stop, outcome);
        lemma_left(start, pending.targets, pending.next + 1, stop);
        assert(left(start, pending.targets, pending.next + 1, None) =~= left(
            before,
            pending.targets,
            pending.next,
            pending.standing,
        ));
    }
}

/// A send gives nothing to a node whose key leads to another node by now, whichever it led to
/// when the send began; it only settles the node that it waits at.
pub proof fn law_replaced_node_is_not_reached<R>(
    before: GroupView<R>,
    after: GroupView<R>,
    pending: PendingView,
    outcome: Result<DeliveryView, NetworkError>,
    slot: int,
)
    requires
        before.valid(),
        pending.valid_in(before),
        sent(before, after, pending, outcome),
        0 <= slot < before.nodes.len(),
        !before.listed(slot),
    ensures
        after.nodes[slot] == before.nodes[slot] || (pending.standing matches Some(standing) && slot
            == standing.slot),
{
    law_resumed_send_repeats_nothing(before, after, pending, outcome);
    let rest = left(before, pending.targets, pending.next, pending.standing);
    if rest.contains(slot) {
        let i = first_left(pending.next, pending.standing) + rest.index_of(slot);
        lemma_slots(before, pending.targets);
        assert(before.slots(pending.targets)[i] == slot);
        assert(before.registry.contains_key(pending.targets[i]));
    }
}

/// An input that was closed takes nothing any more: what is sent to a node whose input for it is
/// closed cannot be delivered, and no broadcast comes to a good end while a node can be found
/// whose input for broadcasts is closed.
pub proof fn law_shut_down_refuses<R>(
    before: GroupView<R>,
    after: GroupView<R>,
    slot: int,
    bytes: Seq<u8>,
    outcome: Result<DeliveryView, NetworkError>,
)
    requires
        before.valid(),
        before.listed(slot),
    ensures
        !before.nodes[slot].direct_open && directed(
            before,
            after,
            before.nodes[slot].pub_key,
            bytes,
            outcome,
        ) ==> after == before && outcome == Err::<DeliveryView, _>(NetworkError::CouldNotDeliver),
        !before.nodes[slot].broadcast_open && broadcast(before, after, bytes, outcome) ==> !(
        outcome matches Ok(DeliveryView::Done)),
{
    if broadcast(before, after, bytes, outcome) {
        law_broadcast_succeeds(before, after, bytes, outcome);
    }
}

/// An attachment comes to an end at once exactly when every node that can be found takes news and
/// has room for it. Where it fails, some node that can be found takes none any more; where it
/// waits, some node that can be found is full of news.
pub proof fn law_attachment_succeeds<R>(
    before: GroupView<R>,
    after: GroupView<R>,
    pub_key: PubKey,
    reliability: Option<R>,
    outcome: Result<AttachmentView<R>, NetworkError>,
)
    requires
        before.valid(),
        attaching(before, after, pub_key, reliability, outcome),
    ensures
        before.accepts_news() ==> outcome == Ok::<AttachmentView<R>, NetworkError>(
            AttachmentView::Attached(before.nodes.len() as int),
        ) && after == before.attached(pub_key, reliability),
        outcome matches Ok(AttachmentView::Attached(_)) ==> before.accepts_news(),
        outcome matches Err(error) ==> error == NetworkError::CouldNotDeliver && exists|slot: int|
            #[trigger] before.listed(slot) && !before.nodes[slot].news_open,
        outcome matches Ok(AttachmentView::Waiting(_)) ==> exists|slot: int| #[trigger]
            before.listed(slot) && before.nodes[slot].news_open && !before.nodes[slot].accepts_news(),
{
    let targets = choose|targets: Seq<PubKey>| #[trigger]
        before.enumerated_by(targets) && announced(
            before,
            after,
            AttachView::begun(pub_key, reliability, targets),
            outcome,
        );
    let pending = AttachView::begun(pub_key, reliability, targets);
    let stop = choose|stop: int| #[trigger] announced_up_to(before, after, pending, stop, outcome);
    let slots = before.slots(targets);
    lemma_enumerated(before, targets);
    if stop < targets.len() {
        assert(before.listed(slots[stop]));
    } else {
        assert forall|slot: int| #[trigger] before.listed(
            slot,
        ) implies before.nodes[slot].accepts_news() by {
            assert(slots.contains(slot));
            let i = slots.index_of(slot);
            assert(slots[i] == slot);
        }
        assert(slots.subrange(0, stop) =~= slots);
        let goal = before.attached(pub_key, reliability);
        assert forall|slot: int| 0 <= slot < before.nodes.len() implies #[trigger] after.nodes[slot]
            == goal.nodes[slot] by {
            assert(slots.contains(slot) <==> before.listed(slot));
        }
        assert(after =~= goal);
    }
}

/// What an attachment changes that moves on from node to node.
proof fn lemma_attachment_changes<R>(
    before: GroupView<R>,
    after: GroupView<R>,
    pending: AttachView<R>,
    outcome: Result<AttachmentView<R>, NetworkError>,
)
    requires
        before.leads_right(),
        before.knows(pending.targets),
        0 <= pending.next <= pending.targets.len(),
        announced_on(before, after, pending, outcome),
    ensures
        after.nodes.len() == before.nodes.len() + if outcome matches Ok(
            AttachmentView::Attached(_),
        ) {
            1int
        } else {
            0
        },
        forall|slot: int|
            0 <= slot < before.nodes.len() && !left(
                before,
                pending.targets,
                pending.next,
                None,
            ).contains(slot) ==> #[trigger] after.nodes[slot] == before.nodes[slot],
        outcome matches Ok(AttachmentView::Attached(_)) ==> forall|slot: int| #[trigger]
            left(before, pending.targets, pending.next, None).contains(slot) ==> after.nodes[slot]
                == before.nodes[slot].told(pending.change(), None),
{
    let stop = choose|stop: int| #[trigger] announced_up_to(before, after, pending, stop, outcome);
    lemma_slots(before, pending.targets);
    lemma_left(before, pending.targets, pending.next, stop);
    let rest = left(before, pending.targets, pending.next, None);
    assert forall|slot: int| #[trigger] rest.contains(slot) implies 0 <= slot
        < before.nodes.len() by {
        assert(before.slots(pending.targets)[pending.next + rest.index_of(slot)] == slot);
    }
}

/// An attachment that goes on tells nodes only that it has not reached yet, and only settles the
/// node that it waits at. Where it came to an end, each of the others was told once, and one node
/// was added.
pub proof fn law_resumed_attachment_repeats_nothing<R>(
    before: GroupView<R>,
    after: GroupView<R>,
    pending: AttachView<R>,
    outcome: Result<AttachmentView<R>, NetworkError>,
)
    requires
        before.valid(),
        pending.valid_in(before),
        announced(before, after, pending, outcome),
    ensures
        ({
            let rest = left(before, pending.targets, pending.next, pending.standing);
            &&& after.nodes.len() == before.nodes.len() + if outcome matches Ok(
                AttachmentView::Attached(_),
            ) {
                1int
            } else {
                0
            }
            &&& forall|slot: int|
                0 <= slot < before.nodes.len() && !rest.contains(slot) ==> (
                #[trigger] after.nodes[slot] == before.nodes[slot] || (pending.standing matches Some(
                    standing,
                ) && slot == standing.slot && after.nodes[slot] == before.nodes[slot].settled_news(
                    standing.ticket,
                )))
            &&& outcome matches Ok(AttachmentView::Attached(_)) ==> forall|slot: int| #[trigger]
                rest.contains(slot) ==> after.nodes[slot] == before.nodes[slot].told(
                    pending.change(),
                    None,
                )
        }),
{
    match pending.standing {
        Some(standing) => {
            let node = before.nodes[standing.slot];
            lemma_standing_is_not_left(before, pending.targets, pending.next, standing);
            if node.changes.arrived.contains(standing.ticket) {
                let start = before.with_node(standing.slot, node.settled_news(standing.ticket));
                lemma_attachment_changes(start, after, pending.passed(), outcome);
                assert(left(start, pending.targets, pending.next + 1, None) =~= left(
                    before,
                    pending.targets,
                    pending.next,
                    pending.standing,
                ));
            }
        },
        None => {
            lemma_attachment_changes(before, after, pending, outcome);
        },
    }
}

/// An attachment whose news stands in line at a node does not fail on account of that node,
/// whether it was shut down since or not: it goes on exactly when the news got room, and where
/// that node was the last one it comes to its end.
pub proof fn law_waiting_attachment_is_kept<R>(
    before: GroupView<R>,
    after: GroupView<R>,
    pending: AttachView<R>,
    standing: Standing,
    outcome: Result<AttachmentView<R>, NetworkError>,
)
    requires
        before.valid(),
        pending.valid_in(before),
        pending.standing == Some(standing),
        announced(before, after, pending, outcome),
    ensures
        ({
            let arrived = before.nodes[standing.slot].changes.arrived.contains(standing.ticket);
            &&& !arrived ==> after == before && outcome == Ok::<AttachmentView<R>, NetworkError>(
                AttachmentView::Waiting(pending),
            )
            &&& arrived && pending.next + 1 == pending.targets.len() ==> outcome == Ok::<
                AttachmentView<R>,
                NetworkError,
            >(AttachmentView::Attached(before.nodes.len() as int))
            &&& outcome is Err ==> exists|slot: int| #[trigger]
                left(before, pending.targets, pending.next, pending.standing).contains(slot)
                    && !before.nodes[slot].news_open
        }),
{
    let node = before.nodes[standing.slot];
    lemma_standing_is_not_left(before, pending.targets, pending.next, standing);
    if node.changes.arrived.contains(standing.ticket) {
        let start = before.with_node(standing.slot, node.settled_news(standing.ticket));
        let stop = choose|stop: int| #[trigger]
            announced_up_to(start, after, pending.passed(), stop, outcome);
        lemma_left(start, pending.targets, pending.next + 1, stop);
        assert(left(start, pending.targets, pending.next + 1, None) =~= left(
            before,
            pending.targets,
            pending.next,
            pending.standing,
        ));
    }
}

/// An attachment that came to an end, at once or after it waited, has added one node, which is
/// found by its key and knows of nothing yet.
pub proof fn law_attached_node_is_found<R>(
    before: GroupView<R>,
    after: GroupView<R>,
    pending: AttachView<R>,
    slot: int,
)
    requires
        before.valid(),
        pending.valid_in(before),
        announced(before, after, pending, Ok(AttachmentView::Attached(slot))),
    ensures
        slot == before.nodes.len(),
        after.nodes.len() == slot + 1,
        after.listed(slot),
        after.nodes[slot] == NodeView::fresh(pending.pub_key, pending.reliability),
        after.registry == before.registry.insert(pending.pub_key, slot),
{
}

/// A node that is attached without waiting is found by its key. Every node that could be found
/// was told once, the new one was told nothing, and nothing else about the other nodes has
/// changed.
pub proof fn law_attached_node_is_announced<R: NetworkReliability>(
    before: GroupView<R>,
    pub_key: PubKey,
    reliability: Option<R>,
    reading: Reading,
)
    requires
        before.valid(),
        before.accepts_news(),
    ensures
        ({
            let after = before.attached(pub_key, reliability);
            let place = before.nodes.len() as int;
            &&& after.listed(place)
            &&& after.nodes[place] == NodeView::fresh(pub_key, reliability)
            &&& forall|key: PubKey| #[trigger]
                after.registry.contains_key(key) <==> key == pub_key
                    || before.registry.contains_key(key)
            &&& forall|slot: int| #[trigger]
                before.listed(slot) ==> happens(
                    before.nodes[slot],
                    after.nodes[slot],
                    NodeEvent::Tell(NetworkChange::NodeConnected(pub_key), None),
                    reading,
                )
            &&& forall|slot: int|
                0 <= slot < place && !before.listed(slot) ==> #[trigger] after.nodes[slot]
                    == before.nodes[slot]
        }),
{
}

/// A node that is attached under a key in use takes the place of the node that the key led to:
/// that node cannot be found any more, and the other nodes can be found as before.
pub proof fn law_attached_node_replaces<R>(
    before: GroupView<R>,
    pub_key: PubKey,
    reliability: Option<R>,
    slot: int,
)
    requires
        before.valid(),
        0 <= slot < before.nodes.len(),
    ensures
        before.with_new(pub_key, reliability).listed(slot) <==> before.listed(slot)
            && before.nodes[slot].pub_key != pub_key,
{
}

/// Something that happens to a group.
pub enum GroupEvent<R> {
    /// Bytes are sent to a key.
    Message(PubKey, Seq<u8>, Result<DeliveryView, NetworkError>),
    /// Bytes are sent to every node.
    Broadcast(Seq<u8>, Result<DeliveryView, NetworkError>),
    /// A send goes on.
    Resume(PendingView, Result<DeliveryView, NetworkError>),
    /// A node is to be attached.
    Attach(PubKey, Option<R>, Result<AttachmentView<R>, NetworkError>),
    /// An attachment goes on.
    ResumeAttach(AttachView<R>, Result<AttachmentView<R>, NetworkError>),
    /// Something happens to the node at a place that does not come from another node.
    Local(int, NodeEvent),
}

/// How an event changes a group whose nodes read bytes in some way.
pub open spec fn group_happens<R: NetworkReliability>(
    before: GroupView<R>,
    after: GroupView<R>,
    event: GroupEvent<R>,
    reading: Reading,
) -> bool {
    match event {
        GroupEvent::Message(recipient, bytes, outcome) => directed(
            before,
            after,
            recipient,
            bytes,
            outcome,
        ),
        GroupEvent::Broadcast(bytes, outcome) => broadcast(before, after, bytes, outcome),
        GroupEvent::Resume(pending, outcome) => pending.valid_in(before) && sent(
            before,
            after,
            pending,
            outcome,
        ),
        GroupEvent::Attach(pub_key, reliability, outcome) => attaching(
            before,
            after,
            pub_key,
            reliability,
            outcome,
        ),
        GroupEvent::ResumeAttach(pending, outcome) => pending.valid_in(before) && announced(
            before,
            after,
            pending,
            outcome,
        ),
        GroupEvent::Local(slot, local) => {
            &&& 0 <= slot < before.nodes.len()
            &&& match local {
                NodeEvent::Take(_, _, _) | NodeEvent::Settle(_, _) => false,
                NodeEvent::Tell(_, _) | NodeEvent::SettleNews(_) => false,
                _ => true,
            }
            &&& after == before.with_node(slot, after.nodes[slot])
            &&& happens(before.nodes[slot], after.nodes[slot], local, reading)
        },
    }
}

/// What a send that moves on is for the node at a place.
pub open spec fn seen_of_send<R>(
    before: GroupView<R>,
    after: GroupView<R>,
    lane: Lane,
    bytes: Seq<u8>,
    outcome: Result<DeliveryView, NetworkError>,
    slot: int,
) -> NodeEvent {
    if after.nodes[slot] == before.nodes[slot] {
        NodeEvent::Rest
    } else {
        match outcome {
            Ok(DeliveryView::Waiting(
                PendingView { standing: Some(standing), .. },
            )) if standing.slot == slot => NodeEvent::Take(lane, bytes, Some(standing.ticket)),
            _ => NodeEvent::Take(lane, bytes, None),
        }
    }
}

/// What an attachment that moves on is for the node at a place.
pub open spec fn seen_of_attachment<R>(
    before: GroupView<R>,
    after: GroupView<R>,
    pub_key: PubKey,
    outcome: Result<AttachmentView<R>, NetworkError>,
    slot: int,
) -> NodeEvent {
    let change = NetworkChange::NodeConnected(pub_key);
    if after.nodes[slot] == before.nodes[slot] {
        NodeEvent::Rest
    } else {
        match outcome {
            Ok(AttachmentView::Waiting(
                AttachView { standing: Some(standing), .. },
            )) if standing.slot == slot => NodeEvent::Tell(change, Some(standing.ticket)),
            _ => NodeEvent::Tell(change, None),
        }
    }
}

/// What an event of the group is for the node at a place.
pub open spec fn seen_by<R: NetworkReliability>(
    before: GroupView<R>,
    after: GroupView<R>,
    event: GroupEvent<R>,
    slot: int,
) -> NodeEvent {
    match event {
        GroupEvent::Message(recipient, bytes, outcome) => seen_of_send(
            before,
            after,
            Lane::Direct,
            bytes,
            outcome,
            slot,
        ),
        GroupEvent::Broadcast(bytes, outcome) => seen_of_send(
            before,
            after,
            Lane::Broadcast,
            bytes,
            outcome,
            slot,
        ),
        GroupEvent::Resume(pending, outcome) => match pending.standing {
            Some(Standing { slot: place, ticket }) => if slot != place {
                seen_of_send(before, after, pending.lane, pending.bytes, outcome, slot)
            } else if before.nodes[slot].input(pending.lane).arrived.contains(ticket) {
                NodeEvent::Settle(pending.lane, ticket)
            } else {
                NodeEvent::Rest
            },
            None => seen_of_send(before, after, pending.lane, pending.bytes, outcome, slot),
        },
        GroupEvent::Attach(pub_key, _, outcome) => seen_of_attachment(
            before,
            after,
            pub_key,
            outcome,
            slot,
        ),
        GroupEvent::ResumeAttach(pending, outcome) => match pending.standing {
            Some(Standing { slot: place, ticket }) => if slot != place {
                seen_of_attachment(before, after, pending.pub_key, outcome, slot)
            } else if before.nodes[slot].changes.arrived.contains(ticket) {
                NodeEvent::SettleNews(ticket)
            } else {
                NodeEvent::Rest
            },
            None => seen_of_attachment(before, after, pending.pub_key, outcome, slot),
        },
        GroupEvent::Local(place, local) => if place == slot {
            local
        } else {
            NodeEvent::Rest
        },
    }
}

proof fn lemma_send_is_seen<R: NetworkReliability>(
    before: GroupView<R>,
    after: GroupView<R>,
    pending: PendingView,
    outcome: Result<DeliveryView, NetworkError>,
    slot: int,
    reading: Reading,
)
    requires
        before.leads_right(),
        before.knows(pending.targets),
        sent_on(before, after, pending, outcome),
        pending.next >= 0,
        0 <= slot < before.nodes.len(),
    ensures
        after.nodes.len() == before.nodes.len(),
        after.registry == before.registry,
        happens(
            before.nodes[slot],
            after.nodes[slot],
            seen_of_send(before, after, pending.lane, pending.bytes, outcome, slot),
            reading,
        ),
{
    let stop = choose|stop: int| #[trigger] sent_up_to(before, after, pending, stop, outcome);
    let slots = before.slots(pending.targets);
    let done = slots.subrange(pending.next, stop);
    lemma_slots(before, pending.targets);
    if done.contains(slot) {
        let i = done.index_of(slot);
        assert(slots[pending.next + i] == slot);
    }
}

proof fn lemma_attachment_is_seen<R: NetworkReliability>(
    before: GroupView<R>,
    after: GroupView<R>,
    pending: AttachView<R>,
    outcome: Result<AttachmentView<R>, NetworkError>,
    slot: int,
    reading: Reading,
)
    requires
        before.leads_right(),
        before.knows(pending.targets),
        announced_on(before, after, pending, outcome),
        pending.next >= 0,
        0 <= slot < before.nodes.len(),
    ensures
        before.nodes.len() <= after.nodes.len(),
        happens(
            before.nodes[slot],
            after.nodes[slot],
            seen_of_attachment(before, after, pending.pub_key, outcome, slot),
            reading,
        ),
{
    let stop = choose|stop: int| #[trigger] announced_up_to(before, after, pending, stop, outcome);
    let slots = before.slots(pending.targets);
    let done = slots.subrange(pending.next, stop);
    lemma_slots(before, pending.targets);
    if done.contains(slot) {
        let i = done.index_of(slot);
        assert(slots[pending.next + i] == slot);
    }
}

/// Whatever happens to a group is, for each of its nodes, an event of that node: nodes influence
/// each other only by bytes that are taken and by news.
pub proof fn law_group_events_are_node_events<R: NetworkReliability>(
    before: GroupView<R>,
    after: GroupView<R>,
    event: GroupEvent<R>,
    slot: int,
    reading: Reading,
)
    requires
        before.valid(),
        group_happens(before, after, event, reading),
        0 <= slot < before.nodes.len(),
    ensures
        before.nodes.len() <= after.nodes.len(),
        happens(
            before.nodes[slot],
            after.nodes[slot],
            seen_by(before, after, event, slot),
            reading,
        ),
{
    match event {
        GroupEvent::Broadcast(bytes, outcome) => {
            let targets = choose|targets: Seq<PubKey>| #[trigger]
                before.enumerated_by(targets) && sent(
                    before,
                    after,
                    PendingView::begun(Lane::Broadcast, bytes, targets),
                    outcome,
                );
            let pending = PendingView::begun(Lane::Broadcast, bytes, targets);
            lemma_enumerated(before, targets);
            lemma_send_is_seen(before, after, pending, outcome, slot, reading);
        },
        GroupEvent::Resume(pending, outcome) => {
            lemma_resumed_send_is_seen(before, after, pending, outcome, slot, reading);
        },
        GroupEvent::Attach(pub_key, reliability, outcome) => {
            let targets = choose|targets: Seq<PubKey>| #[trigger]
                before.enumerated_by(targets) && announced(
                    before,
                    after,
                    AttachView::begun(pub_key, reliability, targets),
                    outcome,
                );
            let pending = AttachView::begun(pub_key, reliability, targets);
            lemma_enumerated(before, targets);
            lemma_attachment_is_seen(before, after, pending, outcome, slot, reading);
        },
        GroupEvent::ResumeAttach(pending, outcome) => {
            lemma_resumed_attachment_is_seen(before, after, pending, outcome, slot, reading);
        },
        _ => {},
    }
}

proof fn lemma_resumed_send_is_seen<R: NetworkReliability>(
    before: GroupView<R>,
    after: GroupView<R>,
    pending: PendingView,
    outcome: Result<DeliveryView, NetworkError>,
    slot: int,
    reading: Reading,
)
    requires
        before.valid(),
        pending.valid_in(before),
        sent(before, after, pending, outcome),
        0 <= slot < before.nodes.len(),
    ensures
        after.nodes.len() == before.nodes.len(),
        after.registry == before.registry,
        happens(
            before.nodes[slot],
            after.nodes[slot],
            seen_by(before, after, GroupEvent::Resume(pending, outcome), slot),
            reading,
        ),
{
    if let Some(standing) = pending.standing {
        let place = standing.slot;
        let node = before.nodes[place];
        if node.input(pending.lane).arrived.contains(standing.ticket) {
            let start = before.with_node(place, node.settled(pending.lane, standing.ticket));
            let rest = pending.passed();
            lemma_standing_is_not_left(start, pending.targets, pending.next, standing);
            lemma_send_is_seen(start, after, rest, outcome, slot, reading);
            lemma_send_changes(start, after, rest, outcome);
            assert(after.nodes[place] == start.nodes[place]);
        }
    } else {
        lemma_send_is_seen(before, after, pending, outcome, slot, reading);
    }
}

proof fn lemma_resumed_attachment_is_seen<R: NetworkReliability>(
    before: GroupView<R>,
    after: GroupView<R>,
    pending: AttachView<R>,
    outcome: Result<AttachmentView<R>, NetworkError>,
    slot: int,
    reading: Reading,
)
    requires
        before.valid(),
        pending.valid_in(before),
        announced(before, after, pending, outcome),
        0 <= slot < before.nodes.len(),
    ensures
        before.nodes.len() <= after.nodes.len(),
        happens(
            before.nodes[slot],
            after.nodes[slot],
            seen_by(before, after, GroupEvent::ResumeAttach(pending, outcome), slot),
            reading,
        ),
{
    if let Some(standing) = pending.standing {
        let place = standing.slot;
        let node = before.nodes[place];
        if node.changes.arrived.contains(standing.ticket) {
            let start = before.with_node(place, node.settled_news(standing.ticket));
            let rest = pending.passed();
            lemma_standing_is_not_left(start, pending.targets, pending.next, standing);
            lemma_attachment_is_seen(start, after, rest, outcome, slot, reading);
            lemma_attachment_changes(start, after, rest, outcome);
            assert(after.nodes[place] == start.nodes[place]);
        }
    } else {
        lemma_attachment_is_seen(before, after, pending, outcome, slot, reading);
    }
}

/// Every event keeps what holds of every group, and every node stays at its place, under its
/// key.
pub proof fn law_group_events_keep_validity<R: NetworkReliability>(
    before: GroupView<R>,
    after: GroupView<R>,
    event: GroupEvent<R>,
    reading: Reading,
)
    requires
        before.valid(),
        group_happens(before, after, event, reading),
    ensures
        after.valid(),
        after.keeps_nodes_of(before),
{
    assert forall|slot: int| 0 <= slot < before.nodes.len() implies (
    #[trigger] after.nodes[slot]).valid() && after.nodes[slot].pub_key
        == before.nodes[slot].pub_key && before.nodes.len() <= after.nodes.len() by {
        assert(before.nodes[slot].valid());
        law_group_events_are_node_events(before, after, event, slot, reading);
        law_events_keep_validity(
            before.nodes[slot],
            after.nodes[slot],
            seen_by(before, after, event, slot),
            reading,
        );
    }
    lemma_registry(before, after, event, reading);
    assert forall|slot: int| 0 <= slot < after.nodes.len() implies (
    #[trigger] after.nodes[slot]).valid() by {
        if slot < before.nodes.len() {
            assert(before.nodes[slot].valid());
        }
    }
    assert forall|key: PubKey| #[trigger] after.registry.contains_key(key) implies 0
        <= after.registry[key] < after.nodes.len() && after.nodes[after.registry[key]].pub_key
        == key by {
        if before.registry.contains_key(key) && after.registry[key] == before.registry[key] {
            let slot = before.registry[key];
            assert(after.nodes[slot].pub_key == before.nodes[slot].pub_key);
        }
    }
}

/// What an event does to the registry: nothing, or one node is added and found by its key.
proof fn lemma_registry<R: NetworkReliability>(
    before: GroupView<R>,
    after: GroupView<R>,
    event: GroupEvent<R>,
    reading: Reading,
)
    requires
        before.valid(),
        group_happens(before, after, event, reading),
    ensures
        after.registry == before.registry && after.nodes.len() == before.nodes.len() || {
            let place = before.nodes.len() as int;
            &&& after.nodes.len() == place + 1
            &&& after.nodes[place] == NodeView::fresh(
                after.nodes[place].pub_key,
                after.nodes[place].reliability,
            )
            &&& after.registry == before.registry.insert(after.nodes[place].pub_key, place)
        },
{
    match event {
        GroupEvent::Attach(pub_key, reliability, outcome) => {
            let targets = choose|targets: Seq<PubKey>| #[trigger]
                before.enumerated_by(targets) && announced(
                    before,
                    after,
                    AttachView::begun(pub_key, reliability, targets),
                    outcome,
                );
            lemma_enumerated(before, targets);
        },
        GroupEvent::ResumeAttach(pending, outcome) => {},
        _ => {
            law_only_attachments_add_nodes(before, after, event, reading);
        },
    }
}

/// Only an attachment adds a node or changes which node a key leads to.
pub proof fn law_only_attachments_add_nodes<R: NetworkReliability>(
    before: GroupView<R>,
    after: GroupView<R>,
    event: GroupEvent<R>,
    reading: Reading,
)
    requires
        before.valid(),
        group_happens(before, after, event, reading),
        !(event is Attach) && !(event is ResumeAttach),
    ensures
        after.registry == before.registry,
        after.nodes.len() == before.nodes.len(),
{
    if let GroupEvent::Broadcast(bytes, outcome) = event {
        let targets = choose|targets: Seq<PubKey>| #[trigger]
            before.enumerated_by(targets) && sent(
                before,
                after,
                PendingView::begun(Lane::Broadcast, bytes, targets),
                outcome,
            );
        lemma_enumerated(before, targets);
        lemma_send_changes(
            before,
            after,
            PendingView::begun(Lane::Broadcast, bytes, targets),
            outcome,
        );
    }
    if let GroupEvent::Resume(pending, outcome) = event {
        law_resumed_send_repeats_nothing(before, after, pending, outcome);
    }
}

/// A history of a group whose nodes read bytes in some way: its states, and the events between
/// them.
pub open spec fn group_history<R: NetworkReliability>(
    states: Seq<GroupView<R>>,
    events: Seq<GroupEvent<R>>,
    reading: Reading,
) -> bool {
    &&& states.len() == events.len() + 1
    &&& forall|i: int|
        0 <= i < events.len() ==> group_happens(
            states[i],
            states[i + 1],
            #[trigger] events[i],
            reading,
        )
}

/// The states of the node at a place in a history of its group.
pub open spec fn states_of<R>(states: Seq<GroupView<R>>, slot: int) -> Seq<NodeView<R>> {
    Seq::new(states.len(), |i: int| states[i].nodes[slot])
}

/// The events of the node at a place in a history of its group.
pub open spec fn events_of<R: NetworkReliability>(
    states: Seq<GroupView<R>>,
    events: Seq<GroupEvent<R>>,
    slot: int,
) -> Seq<NodeEvent> {
    Seq::new(events.len(), |i: int| seen_by(states[i], states[i + 1], events[i], slot))
}

proof fn lemma_group_history_is_valid<R: NetworkReliability>(
    states: Seq<GroupView<R>>,
    events: Seq<GroupEvent<R>>,
    i: int,
    reading: Reading,
)
    requires
        group_history(states, events, reading),
        states[0].valid(),
        0 <= i < states.len(),
    ensures
        states[i].valid(),
        states[i].keeps_nodes_of(states[0]),
    decreases i,
{
    if i > 0 {
        lemma_group_history_is_valid(states, events, i - 1, reading);
        assert(group_happens(states[i - 1], states[i - 1 + 1], events[i - 1], reading));
        law_group_events_keep_validity(states[i - 1], states[i], events[i - 1], reading);
        assert forall|slot: int| 0 <= slot < states[0].nodes.len() implies (
        #[trigger] states[i].nodes[slot]).pub_key == states[0].nodes[slot].pub_key by {
            assert(states[i - 1].nodes[slot].pub_key == states[0].nodes[slot].pub_key);
        }
    }
}

/// A history of a group is a history of each of its nodes.
pub proof fn law_group_history_is_node_history<R: NetworkReliability>(
    states: Seq<GroupView<R>>,
    events: Seq<GroupEvent<R>>,
    slot: int,
    reading: Reading,
)
    requires
        group_history(states, events, reading),
        states[0].valid(),
        0 <= slot < states[0].nodes.len(),
    ensures
        history(states_of(states, slot), events_of(states, events, slot), reading),
        states_of(states, slot)[0].valid(),
{
    let node_states = states_of(states, slot);
    let node_events = events_of(states, events, slot);
    assert forall|i: int| 0 <= i < node_events.len() implies happens(
        node_states[i],
        node_states[i + 1],
        #[trigger] node_events[i],
        reading,
    ) by {
        lemma_group_history_is_valid(states, events, i, reading);
        assert(group_happens(states[i], states[i + 1], events[i], reading));
        law_group_events_are_node_events(states[i], states[i + 1], events[i], slot, reading);
    }
    assert(states[0].nodes[slot].valid());
}

/// Whatever happens in a group, a node without a reliability model hands out the messages that
/// were sent to it, in the order in which it took them, every one of them once, and skips bytes
/// that are no message: at any time the messages that were received on a lane, followed by those
/// that are still to come, are the messages that were there at first, followed by those that were
/// taken since.
pub proof fn law_group_delivers<R: NetworkReliability>(
    states: Seq<GroupView<R>>,
    events: Seq<GroupEvent<R>>,
    slot: int,
    lane: Lane,
    reading: Reading,
)
    requires
        group_history(states, events, reading),
        states[0].valid(),
        0 <= slot < states[0].nodes.len(),
        states[0].nodes[slot].reliability is None,
    ensures
        handed_out(events_of(states, events, slot), lane) + pipeline(
            states.last().nodes[slot],
            lane,
            reading,
        ) == pipeline(states[0].nodes[slot], lane, reading) + readable(
            taken(events_of(states, events, slot), lane),
            reading,
        ),
{
    law_group_history_is_node_history(states, events, slot, reading);
    law_first_in_first_out(
        states_of(states, slot),
        events_of(states, events, slot),
        lane,
        reading,
    );
    assert(states_of(states, slot).last() == states.last().nodes[slot]);
}

} // verus!
