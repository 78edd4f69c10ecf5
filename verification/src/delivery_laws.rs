//! What the operations of a group do, said of what they find and of what they leave behind.

use crate::group_laws::law_attached_node_is_found;
use crate::model::{
    announced, announced_on, announced_up_to, attaching, broadcast, directed, lemma_enumerated,
    lemma_slots, sent, sent_on, sent_up_to, AttachView, AttachmentView, DeliveryView, GroupView,
    NodeView, PendingView, Standing,
};
use crate::operation_laws::{
    inbox, joined_at_end, law_line_moves_on, law_new_node_takes_everything, law_node_takes_bytes,
    law_node_takes_news, law_settling_gives_back_one_ticket, same_but_inbox, takes_bytes,
};
use crate::types::{Lane, NetworkChange, NetworkError, PubKey};
use vstd::prelude::*;

verus! {

/// A change of one node leaves the others, their order, the keys and the number of the group as
/// they were. A group without nodes has none, and no key leads anywhere in it.
pub proof fn law_one_node_changes<R>(group: GroupView<R>, slot: int, node: NodeView<R>, id: u64)
    requires
        0 <= slot < group.nodes.len(),
    ensures
        ({
            let after = group.with_node(slot, node);
            &&& after.registry == group.registry && after.id == group.id
            &&& after.nodes.len() == group.nodes.len()
            &&& after.nodes[slot] == node
            &&& forall|s: int|
                0 <= s < group.nodes.len() && s != slot ==> #[trigger] after.nodes[s]
                    == group.nodes[s]
        }),
        GroupView::<R>::empty(id).nodes.len() == 0,
        GroupView::<R>::empty(id).id == id,
        forall|key: PubKey| !(#[trigger] GroupView::<R>::empty(id).registry.contains_key(key)),
{
}

/// A node can be found exactly when its key leads to it, and a list of all keys names every key
/// that leads to a node, and each of them once.
pub proof fn law_nodes_are_found_by_key<R>(group: GroupView<R>, slot: int, keys: Seq<PubKey>)
    requires
        0 <= slot < group.nodes.len(),
    ensures
        group.listed(slot) <==> group.registry.contains_key(group.nodes[slot].pub_key)
            && group.registry[group.nodes[slot].pub_key] == slot,
        group.enumerated_by(keys) ==> {
            &&& forall|key: PubKey| #[trigger]
                group.registry.contains_key(key) ==> exists|i: int|
                    0 <= i < keys.len() && #[trigger] keys[i] == key
            &&& forall|i: int|
                0 <= i < keys.len() ==> group.registry.contains_key(#[trigger] keys[i])
            &&& forall|i: int, j: int|
                0 <= i < j < keys.len() ==> #[trigger] keys[i] != #[trigger] keys[j]
        },
{
    if group.enumerated_by(keys) {
        assert forall|key: PubKey| #[trigger] group.registry.contains_key(key) implies exists|
            i: int,
        |
            0 <= i < keys.len() && #[trigger] keys[i] == key by {
            assert(keys.contains(key));
            assert(keys[keys.index_of(key)] == key);
        }
        assert forall|i: int| 0 <= i < keys.len() implies group.registry.contains_key(
            #[trigger] keys[i],
        ) by {
            assert(keys.contains(keys[i]));
        }
    }
}

/// Whether bytes have joined the inbox of a lane of a node, and nothing else about the node has
/// changed.
pub open spec fn took<R>(
    before: NodeView<R>,
    after: NodeView<R>,
    lane: Lane,
    bytes: Seq<u8>,
    ticket: Option<int>,
) -> bool {
    same_but_inbox(before, after, lane) && joined_at_end(
        inbox(before, lane),
        inbox(after, lane),
        bytes,
        ticket,
    )
}

/// Whether news has joined the line of news of a node, and nothing else about the node has
/// changed.
pub open spec fn heard<R>(
    before: NodeView<R>,
    after: NodeView<R>,
    change: NetworkChange,
    ticket: Option<int>,
) -> bool {
    after == (NodeView { changes: after.changes, ..before }) && joined_at_end(
        before.changes,
        after.changes,
        change,
        ticket,
    )
}

/// Whether no sender holds a ticket of a line.
pub open spec fn is_free(senders: Seq<Option<int>>, arrived: Set<int>, ticket: int) -> bool {
    !arrived.contains(ticket) && forall|i: int|
        0 <= i < senders.len() ==> #[trigger] senders[i] != Some(ticket)
}

/// A message for a key goes to the node that the key leads to, and to no other. It is taken at
/// once where that node takes messages for it and fewer than 128 stand in its inbox; it stands in
/// line there where 128 or more do; it cannot be delivered where the node takes none any more; and
/// there is no such node where the key leads nowhere.
pub proof fn law_message_is_for_its_recipient<R>(
    before: GroupView<R>,
    after: GroupView<R>,
    recipient: PubKey,
    bytes: Seq<u8>,
    outcome: Result<DeliveryView, NetworkError>,
)
    requires
        before.valid(),
        directed(before, after, recipient, bytes, outcome),
    ensures
        after.registry == before.registry && after.id == before.id,
        after.nodes.len() == before.nodes.len(),
        !before.registry.contains_key(recipient) ==> after == before && outcome == Err::<
            DeliveryView,
            _,
        >(NetworkError::NoSuchNode),
        before.registry.contains_key(recipient) ==> {
            let slot = before.registry[recipient];
            let node = before.nodes[slot];
            &&& node.pub_key == recipient
            &&& forall|s: int|
                0 <= s < before.nodes.len() && s != slot ==> #[trigger] after.nodes[s]
                    == before.nodes[s]
            &&& if !node.direct_open {
                after == before && outcome == Err::<DeliveryView, _>(NetworkError::CouldNotDeliver)
            } else if node.direct_input.items.len() < 128 {
                &&& outcome == Ok::<_, NetworkError>(DeliveryView::Done)
                &&& took(node, after.nodes[slot], Lane::Direct, bytes, None)
            } else {
                &&& outcome matches Ok(DeliveryView::Waiting(rest))
                &&& rest.standing matches Some(standing)
                &&& standing.slot == slot
                &&& took(node, after.nodes[slot], Lane::Direct, bytes, Some(standing.ticket))
                &&& is_free(
                    node.direct_input.senders,
                    node.direct_input.arrived,
                    standing.ticket,
                )
                &&& rest.lane == Lane::Direct && rest.bytes == bytes && rest.next == 0
                &&& rest.targets.len() == 1 && rest.targets[0] == recipient
            }
        },
{
    if before.registry.contains_key(recipient) {
        let slot = before.registry[recipient];
        let node = before.nodes[slot];
        law_node_takes_bytes(node, Lane::Direct, bytes, None);
        if let Ok(DeliveryView::Waiting(rest)) = outcome {
            let ticket = rest.standing->0.ticket;
            law_node_takes_bytes(node, Lane::Direct, bytes, Some(ticket));
            law_line_moves_on(node.direct_input, bytes, None, ticket);
        }
    }
}

/// The node that a key leads to.
pub open spec fn node_for<R>(group: GroupView<R>, key: PubKey) -> NodeView<R> {
    group.nodes[group.registry[key]]
}

/// Whether bytes were given to the nodes for the keys of a list in turn, from one place of the
/// list up to another: every node up to there took them at once, and those behind got nothing.
/// The node at that place is the first that does not take them at once: where it takes none any
/// more the send fails, and where it is full the bytes stand in line there.
pub open spec fn went_round<R>(
    before: GroupView<R>,
    after: GroupView<R>,
    pending: PendingView,
    from: int,
    stop: int,
    outcome: Result<DeliveryView, NetworkError>,
) -> bool {
    let keys = pending.targets;
    let lane = pending.lane;
    &&& from <= stop <= keys.len()
    &&& after.registry == before.registry && after.id == before.id
    &&& after.nodes.len() == before.nodes.len()
    &&& forall|i: int|
        from <= i < stop ==> {
            let node = node_for(before, #[trigger] keys[i]);
            &&& takes_bytes(node, lane) && inbox(node, lane).items.len() < 128
            &&& took(node, node_for(after, keys[i]), lane, pending.bytes, None)
        }
    &&& forall|slot: int|
        0 <= slot < before.nodes.len() && (forall|i: int|
            from <= i <= stop && i < keys.len() ==> before.registry[#[trigger] keys[i]] != slot)
            ==> #[trigger] after.nodes[slot] == before.nodes[slot]
    &&& if stop == keys.len() {
        outcome == Ok::<_, NetworkError>(DeliveryView::Done)
    } else {
        let node = node_for(before, keys[stop]);
        if !takes_bytes(node, lane) {
            &&& outcome == Err::<DeliveryView, _>(NetworkError::CouldNotDeliver)
            &&& node_for(after, keys[stop]) == node
        } else {
            &&& inbox(node, lane).items.len() >= 128
            &&& outcome matches Ok(DeliveryView::Waiting(rest))
            &&& rest.lane == lane && rest.bytes == pending.bytes && rest.targets == keys
            &&& rest.next == stop
            &&& rest.standing matches Some(standing)
            &&& standing.slot == before.registry[keys[stop]]
            &&& is_free(inbox(node, lane).senders, inbox(node, lane).arrived, standing.ticket)
            &&& took(
                node,
                node_for(after, keys[stop]),
                lane,
                pending.bytes,
                Some(standing.ticket),
            )
        }
    }
}

proof fn lemma_went_round<R>(
    before: GroupView<R>,
    after: GroupView<R>,
    pending: PendingView,
    outcome: Result<DeliveryView, NetworkError>,
) -> (stop: int)
    requires
        before.leads_right(),
        before.knows(pending.targets),
        0 <= pending.next <= pending.targets.len(),
        sent_on(before, after, pending, outcome),
    ensures
        went_round(before, after, pending, pending.next, stop, outcome),
{
    let stop = choose|stop: int| #[trigger] sent_up_to(before, after, pending, stop, outcome);
    let keys = pending.targets;
    let lane = pending.lane;
    let slots = before.slots(keys);
    let done = slots.subrange(pending.next, stop);
    lemma_slots(before, keys);
    assert forall|i: int| pending.next <= i < stop implies {
        let node = node_for(before, #[trigger] keys[i]);
        &&& takes_bytes(node, lane) && inbox(node, lane).items.len() < 128
        &&& took(node, node_for(after, keys[i]), lane, pending.bytes, None)
    } by {
        let node = node_for(before, keys[i]);
        assert(slots[i] == before.registry[keys[i]]);
        assert(done[i - pending.next] == slots[i]);
        assert(done.contains(slots[i]));
        assert(stop < keys.len() ==> slots[stop] != slots[i]);
        law_node_takes_bytes(node, lane, pending.bytes, None);
    }
    assert forall|slot: int|
        0 <= slot < before.nodes.len() && (forall|i: int|
            pending.next <= i <= stop && i < keys.len() ==> before.registry[#[trigger] keys[i]]
                != slot) implies #[trigger] after.nodes[slot] == before.nodes[slot] by {
        if done.contains(slot) {
            let i = pending.next + done.index_of(slot);
            assert(slots[i] == slot);
            assert(before.registry[keys[i]] == slot);
        }
        if stop < keys.len() {
            assert(before.registry[keys[stop]] != slot);
        }
    }
    if stop < keys.len() {
        let node = node_for(before, keys[stop]);
        assert(slots[stop] == before.registry[keys[stop]]);
        assert(!done.contains(slots[stop])) by {
            if done.contains(slots[stop]) {
                let i = pending.next + done.index_of(slots[stop]);
                assert(slots[i] == slots[stop]);
            }
        }
        law_node_takes_bytes(node, lane, pending.bytes, None);
        if let Ok(DeliveryView::Waiting(rest)) = outcome {
            let ticket = rest.standing->0.ticket;
            law_node_takes_bytes(node, lane, pending.bytes, Some(ticket));
            law_line_moves_on(inbox(node, lane), pending.bytes, None, ticket);
        }
    }
    stop
}

/// A broadcast goes to the node for every key in turn, in some order: every key that leads to a
/// node is in its list once.
pub proof fn law_broadcast_goes_round<R>(
    before: GroupView<R>,
    after: GroupView<R>,
    bytes: Seq<u8>,
    outcome: Result<DeliveryView, NetworkError>,
) -> (found: (PendingView, int))
    requires
        before.valid(),
        broadcast(before, after, bytes, outcome),
    ensures
        ({
            let (pending, stop) = found;
            &&& pending.lane == Lane::Broadcast && pending.bytes == bytes
            &&& forall|key: PubKey| #[trigger]
                before.registry.contains_key(key) ==> exists|i: int|
                    0 <= i < pending.targets.len() && #[trigger] pending.targets[i] == key
            &&& forall|i: int|
                0 <= i < pending.targets.len() ==> before.registry.contains_key(
                    #[trigger] pending.targets[i],
                )
            &&& forall|i: int, j: int|
                0 <= i < j < pending.targets.len() ==> #[trigger] pending.targets[i]
                    != #[trigger] pending.targets[j]
            &&& went_round(before, after, pending, 0, stop, outcome)
        }),
{
    let targets = choose|targets: Seq<PubKey>| #[trigger]
        before.enumerated_by(targets) && sent(
            before,
            after,
            PendingView::begun(Lane::Broadcast, bytes, targets),
            outcome,
        );
    let pending = PendingView::begun(Lane::Broadcast, bytes, targets);
    lemma_enumerated(before, targets);
    let stop = lemma_went_round(before, after, pending, outcome);
    assert forall|key: PubKey| #[trigger] before.registry.contains_key(key) implies exists|i: int|
        0 <= i < targets.len() && #[trigger] targets[i] == key by {
        assert(targets.contains(key));
        assert(targets[targets.index_of(key)] == key);
    }
    (pending, stop)
}

/// A broadcast is taken at once by the node for every key exactly when each of them takes
/// broadcasts and has fewer than 128 in its inbox. The sender is no exception, and no node gets it
/// that no key leads to.
pub proof fn law_broadcast_is_for_everyone<R>(
    before: GroupView<R>,
    after: GroupView<R>,
    bytes: Seq<u8>,
    outcome: Result<DeliveryView, NetworkError>,
)
    requires
        before.valid(),
        broadcast(before, after, bytes, outcome),
    ensures
        outcome == Ok::<_, NetworkError>(DeliveryView::Done) <==> forall|key: PubKey| #[trigger]
            before.registry.contains_key(key) ==> node_for(before, key).broadcast_open && node_for(
                before,
                key,
            ).broadcast_input.items.len() < 128,
        outcome == Ok::<_, NetworkError>(DeliveryView::Done) ==> forall|key: PubKey| #[trigger]
            before.registry.contains_key(key) ==> took(
                node_for(before, key),
                node_for(after, key),
                Lane::Broadcast,
                bytes,
                None,
            ),
        outcome matches Err(error) ==> error == NetworkError::CouldNotDeliver && exists|key: PubKey|
            #[trigger] before.registry.contains_key(key) && !node_for(before, key).broadcast_open,
        forall|slot: int|
            0 <= slot < before.nodes.len() && (forall|key: PubKey| #[trigger]
                before.registry.contains_key(key) ==> before.registry[key] != slot)
                ==> #[trigger] after.nodes[slot] == before.nodes[slot],
{
    let (pending, stop) = law_broadcast_goes_round(before, after, bytes, outcome);
    let keys = pending.targets;
    if stop < keys.len() {
        assert(before.registry.contains_key(keys[stop]));
    } else {
        assert forall|key: PubKey| #[trigger] before.registry.contains_key(key) implies node_for(
            before,
            key,
        ).broadcast_open && node_for(before, key).broadcast_input.items.len() < 128 && took(
            node_for(before, key),
            node_for(after, key),
            Lane::Broadcast,
            bytes,
            None,
        ) by {
            let i = choose|i: int| 0 <= i < keys.len() && #[trigger] keys[i] == key;
            assert(keys[i] == key);
        }
    }
    assert forall|slot: int|
        0 <= slot < before.nodes.len() && (forall|key: PubKey| #[trigger]
            before.registry.contains_key(key) ==> before.registry[key]
                != slot) implies #[trigger] after.nodes[slot] == before.nodes[slot] by {
        assert forall|i: int| 0 <= i <= stop && i < keys.len() implies before.registry[
        #[trigger] keys[i]] != slot by {
            assert(before.registry.contains_key(keys[i]));
        }
    }
}

/// Whether one sender was told at a node: its ticket is given back, and nothing else about the
/// node has changed.
pub open spec fn was_told<R>(
    before: NodeView<R>,
    after: NodeView<R>,
    lane: Lane,
    ticket: int,
) -> bool {
    &&& same_but_inbox(before, after, lane)
    &&& inbox(after, lane).items == inbox(before, lane).items
    &&& inbox(after, lane).senders == inbox(before, lane).senders
    &&& forall|t: int| #[trigger]
        inbox(after, lane).arrived.contains(t) <==> inbox(before, lane).arrived.contains(t) && t
            != ticket
}

/// A send that waits stays as it is until its bytes have room, whatever became of the node that it
/// waits at. Then the ticket is given back there, and the send goes round the keys behind.
pub proof fn law_waiting_send_goes_on<R>(
    before: GroupView<R>,
    after: GroupView<R>,
    pending: PendingView,
    standing: Standing,
    outcome: Result<DeliveryView, NetworkError>,
) -> (found: (GroupView<R>, int))
    requires
        before.valid(),
        pending.valid_in(before),
        pending.standing == Some(standing),
        sent(before, after, pending, outcome),
    ensures
        ({
            let (start, stop) = found;
            let node = before.nodes[standing.slot];
            if !inbox(node, pending.lane).arrived.contains(standing.ticket) {
                after == before && outcome == Ok::<_, NetworkError>(DeliveryView::Waiting(pending))
            } else {
                &&& start.registry == before.registry && start.id == before.id
                &&& start.nodes.len() == before.nodes.len()
                &&& was_told(node, start.nodes[standing.slot], pending.lane, standing.ticket)
                &&& forall|slot: int|
                    0 <= slot < before.nodes.len() && slot != standing.slot
                        ==> #[trigger] start.nodes[slot] == before.nodes[slot]
                &&& went_round(start, after, pending, pending.next + 1, stop, outcome)
            }
        }),
{
    let node = before.nodes[standing.slot];
    let start = before.with_node(standing.slot, node.settled(pending.lane, standing.ticket));
    law_settling_gives_back_one_ticket(node, pending.lane, standing.ticket);
    let stop = if inbox(node, pending.lane).arrived.contains(standing.ticket) {
        lemma_went_round(start, after, pending.passed(), outcome)
    } else {
        0
    };
    (start, stop)
}

/// Whether news was told to the nodes for the keys of a list in turn, from one place of the list
/// up to another: every node up to there took it at once, and those behind heard nothing. The
/// node at that place is the first that does not take it at once: where it takes none any more
/// the attachment fails, and where it is full the news stands in line there. Where there is no
/// such node, the new node is added at the end, and its key leads to it.
pub open spec fn was_announced<R>(
    before: GroupView<R>,
    after: GroupView<R>,
    pending: AttachView<R>,
    from: int,
    stop: int,
    outcome: Result<AttachmentView<R>, NetworkError>,
) -> bool {
    let keys = pending.targets;
    let change = NetworkChange::NodeConnected(pending.pub_key);
    &&& from <= stop <= keys.len()
    &&& after.id == before.id
    &&& forall|i: int|
        from <= i < stop ==> {
            let slot = before.registry[#[trigger] keys[i]];
            &&& before.nodes[slot].news_open && before.nodes[slot].changes.items.len() < 128
            &&& heard(before.nodes[slot], after.nodes[slot], change, None)
        }
    &&& forall|slot: int|
        0 <= slot < before.nodes.len() && (forall|i: int|
            from <= i <= stop && i < keys.len() ==> before.registry[#[trigger] keys[i]] != slot)
            ==> #[trigger] after.nodes[slot] == before.nodes[slot]
    &&& if stop == keys.len() {
        let place = before.nodes.len() as int;
        &&& outcome == Ok::<_, NetworkError>(AttachmentView::<R>::Attached(place))
        &&& after.nodes.len() == place + 1
        &&& after.nodes[place].pub_key == pending.pub_key
        &&& after.nodes[place].reliability == pending.reliability
        &&& after.nodes[place].direct_open && after.nodes[place].broadcast_open
        &&& after.nodes[place].news_open && !after.nodes[place].stopped
        &&& after.nodes[place].direct_input.items.len() == 0
        &&& after.nodes[place].broadcast_input.items.len() == 0
        &&& after.nodes[place].direct_output.len() == 0
        &&& after.nodes[place].broadcast_output.len() == 0
        &&& after.nodes[place].changes.items.len() == 0
        &&& after.registry.contains_key(pending.pub_key) && after.registry[pending.pub_key] == place
        &&& forall|key: PubKey|
            key != pending.pub_key ==> (#[trigger] after.registry.contains_key(key)
                <==> before.registry.contains_key(key)) && (before.registry.contains_key(key)
                ==> after.registry[key] == before.registry[key])
    } else {
        let slot = before.registry[keys[stop]];
        let node = before.nodes[slot];
        &&& after.registry == before.registry
        &&& after.nodes.len() == before.nodes.len()
        &&& if !node.news_open {
            &&& outcome == Err::<AttachmentView<R>, _>(NetworkError::CouldNotDeliver)
            &&& after.nodes[slot] == node
        } else {
            &&& node.changes.items.len() >= 128
            &&& outcome matches Ok(AttachmentView::Waiting(rest))
            &&& rest.pub_key == pending.pub_key && rest.reliability == pending.reliability
            &&& rest.targets == keys && rest.next == stop
            &&& rest.standing matches Some(standing)
            &&& standing.slot == slot
            &&& is_free(node.changes.senders, node.changes.arrived, standing.ticket)
            &&& heard(node, after.nodes[slot], change, Some(standing.ticket))
        }
    }
}

proof fn lemma_was_announced<R>(
    before: GroupView<R>,
    after: GroupView<R>,
    pending: AttachView<R>,
    outcome: Result<AttachmentView<R>, NetworkError>,
) -> (stop: int)
    requires
        before.leads_right(),
        before.knows(pending.targets),
        0 <= pending.next <= pending.targets.len(),
        announced_on(before, after, pending, outcome),
    ensures
        was_announced(before, after, pending, pending.next, stop, outcome),
{
    let stop = choose|stop: int| #[trigger] announced_up_to(before, after, pending, stop, outcome);
    let keys = pending.targets;
    let change = NetworkChange::NodeConnected(pending.pub_key);
    let slots = before.slots(keys);
    let done = slots.subrange(pending.next, stop);
    lemma_slots(before, keys);
    assert forall|i: int| pending.next <= i < stop implies {
        let slot = before.registry[#[trigger] keys[i]];
        &&& before.nodes[slot].news_open && before.nodes[slot].changes.items.len() < 128
        &&& heard(before.nodes[slot], after.nodes[slot], change, None)
    } by {
        let slot = before.registry[keys[i]];
        assert(slots[i] == slot);
        assert(done[i - pending.next] == slot);
        assert(done.contains(slot));
        assert(stop < keys.len() ==> slots[stop] != slots[i]);
        law_node_takes_news(before.nodes[slot], change, None);
    }
    assert forall|slot: int|
        0 <= slot < before.nodes.len() && (forall|i: int|
            pending.next <= i <= stop && i < keys.len() ==> before.registry[#[trigger] keys[i]]
                != slot) implies #[trigger] after.nodes[slot] == before.nodes[slot] by {
        if done.contains(slot) {
            let i = pending.next + done.index_of(slot);
            assert(slots[i] == slot);
            assert(before.registry[keys[i]] == slot);
        }
        if stop < keys.len() {
            assert(before.registry[keys[stop]] != slot);
        }
    }
    if stop < keys.len() {
        let slot = before.registry[keys[stop]];
        let node = before.nodes[slot];
        assert(slots[stop] == slot);
        assert(!done.contains(slot)) by {
            if done.contains(slot) {
                let i = pending.next + done.index_of(slot);
                assert(slots[i] == slots[stop]);
            }
        }
        law_node_takes_news(node, change, None);
        if let Ok(AttachmentView::Waiting(rest)) = outcome {
            let ticket = rest.standing->0.ticket;
            law_node_takes_news(node, change, Some(ticket));
            law_line_moves_on(node.changes, change, None, ticket);
        }
    }
    stop
}

/// An attachment tells the node for every key in turn, in some order: every key that leads to a
/// node is in its list once.
pub proof fn law_attachment_goes_round<R>(
    before: GroupView<R>,
    after: GroupView<R>,
    pub_key: PubKey,
    reliability: Option<R>,
    outcome: Result<AttachmentView<R>, NetworkError>,
) -> (found: (AttachView<R>, int))
    requires
        before.valid(),
        attaching(before, after, pub_key, reliability, outcome),
    ensures
        ({
            let (pending, stop) = found;
            &&& pending.pub_key == pub_key && pending.reliability == reliability
            &&& forall|key: PubKey| #[trigger]
                before.registry.contains_key(key) ==> exists|i: int|
                    0 <= i < pending.targets.len() && #[trigger] pending.targets[i] == key
            &&& forall|i: int|
                0 <= i < pending.targets.len() ==> before.registry.contains_key(
                    #[trigger] pending.targets[i],
                )
            &&& forall|i: int, j: int|
                0 <= i < j < pending.targets.len() ==> #[trigger] pending.targets[i]
                    != #[trigger] pending.targets[j]
            &&& was_announced(before, after, pending, 0, stop, outcome)
        }),
{
    let targets = choose|targets: Seq<PubKey>| #[trigger]
        before.enumerated_by(targets) && announced(
            before,
            after,
            AttachView::begun(pub_key, reliability, targets),
            outcome,
        );
    let pending = AttachView::begun(pub_key, reliability, targets);
    lemma_enumerated(before, targets);
    let stop = lemma_was_announced(before, after, pending, outcome);
    assert forall|key: PubKey| #[trigger] before.registry.contains_key(key) implies exists|i: int|
        0 <= i < targets.len() && #[trigger] targets[i] == key by {
        assert(targets.contains(key));
        assert(targets[targets.index_of(key)] == key);
    }
    (pending, stop)
}

/// An attachment that waits stays as it is until its news has room, whatever became of the node
/// that it waits at. Then the ticket is given back there, and the nodes for the keys behind are
/// told.
pub proof fn law_waiting_attachment_goes_on<R>(
    before: GroupView<R>,
    after: GroupView<R>,
    pending: AttachView<R>,
    standing: Standing,
    outcome: Result<AttachmentView<R>, NetworkError>,
) -> (found: (GroupView<R>, int))
    requires
        before.valid(),
        pending.valid_in(before),
        pending.standing == Some(standing),
        announced(before, after, pending, outcome),
    ensures
        ({
            let (start, stop) = found;
            let node = before.nodes[standing.slot];
            let told = start.nodes[standing.slot];
            if !node.changes.arrived.contains(standing.ticket) {
                after == before && outcome == Ok::<_, NetworkError>(
                    AttachmentView::Waiting(pending),
                )
            } else {
                &&& start.registry == before.registry && start.id == before.id
                &&& start.nodes.len() == before.nodes.len()
                &&& told == (NodeView { changes: told.changes, ..node })
                &&& told.changes.items == node.changes.items
                &&& told.changes.senders == node.changes.senders
                &&& forall|t: int| #[trigger]
                    told.changes.arrived.contains(t) <==> node.changes.arrived.contains(t) && t
                        != standing.ticket
                &&& forall|slot: int|
                    0 <= slot < before.nodes.len() && slot != standing.slot
                        ==> #[trigger] start.nodes[slot] == before.nodes[slot]
                &&& was_announced(start, after, pending, pending.next + 1, stop, outcome)
            }
        }),
{
    let node = before.nodes[standing.slot];
    let start = before.with_node(standing.slot, node.settled_news(standing.ticket));
    law_settling_gives_back_one_ticket(node, Lane::Direct, standing.ticket);
    let stop = if node.changes.arrived.contains(standing.ticket) {
        lemma_was_announced(start, after, pending.passed(), outcome)
    } else {
        0
    };
    (start, stop)
}

/// Where every node that can be found takes news and has fewer than 128 changes in line, a node is
/// attached at once: each of them is told once, the new node is the last one and takes
/// everything, its key leads to it, and the other keys lead where they led.
pub proof fn law_attached_at_once<R>(
    before: GroupView<R>,
    pub_key: PubKey,
    reliability: Option<R>,
)
    requires
        before.valid(),
    ensures
        ({
            let after = before.attached(pub_key, reliability);
            let place = before.nodes.len() as int;
            let node = after.nodes[place];
            &&& after.id == before.id && after.nodes.len() == place + 1
            &&& node.pub_key == pub_key && node.reliability == reliability
            &&& node.direct_open && node.broadcast_open && node.news_open
            &&& node.direct_input.items.len() == 0 && node.broadcast_input.items.len() == 0
            &&& node.changes.items.len() == 0
            &&& after.registry.contains_key(pub_key) && after.registry[pub_key] == place
            &&& forall|key: PubKey|
                key != pub_key ==> (#[trigger] after.registry.contains_key(key)
                    <==> before.registry.contains_key(key)) && (before.registry.contains_key(key)
                    ==> after.registry[key] == before.registry[key])
            &&& forall|key: PubKey| #[trigger]
                before.registry.contains_key(key) ==> heard(
                    before.nodes[before.registry[key]],
                    after.nodes[before.registry[key]],
                    NetworkChange::NodeConnected(pub_key),
                    None,
                )
            &&& forall|slot: int|
                0 <= slot < place && !(before.registry.contains_key(before.nodes[slot].pub_key)
                    && before.registry[before.nodes[slot].pub_key] == slot)
                    ==> #[trigger] after.nodes[slot] == before.nodes[slot]
        }),
        before.accepts_news() <==> forall|key: PubKey| #[trigger]
            before.registry.contains_key(key) ==> before.nodes[before.registry[key]].news_open
                && before.nodes[before.registry[key]].changes.items.len() < 128,
{
    let after = before.attached(pub_key, reliability);
    law_new_node_takes_everything(pub_key, reliability);
    assert forall|key: PubKey| #[trigger] before.registry.contains_key(key) implies heard(
        before.nodes[before.registry[key]],
        after.nodes[before.registry[key]],
        NetworkChange::NodeConnected(pub_key),
        None,
    ) && before.listed(before.registry[key]) by {
        law_node_takes_news(
            before.nodes[before.registry[key]],
            NetworkChange::NodeConnected(pub_key),
            None,
        );
    }
    if forall|key: PubKey| #[trigger]
        before.registry.contains_key(key) ==> before.nodes[before.registry[key]].news_open
            && before.nodes[before.registry[key]].changes.items.len() < 128 {
        assert forall|slot: int| #[trigger] before.listed(
            slot,
        ) implies before.nodes[slot].accepts_news() by {
            assert(before.registry.contains_key(before.nodes[slot].pub_key));
        }
    }
}

/// A node that was just attached can be sent to, whatever its key and its reliability model: a
/// message for its key is taken by it at once, and a broadcast does not fail or wait on its
/// account, and is taken by it where it comes to a good end.
pub proof fn law_new_node_can_be_sent_to<R>(
    before: GroupView<R>,
    after: GroupView<R>,
    later: GroupView<R>,
    pending: AttachView<R>,
    slot: int,
    bytes: Seq<u8>,
    outcome: Result<DeliveryView, NetworkError>,
)
    requires
        before.valid(),
        pending.valid_in(before),
        announced(before, after, pending, Ok(AttachmentView::Attached(slot))),
        after.valid(),
    ensures
        directed(after, later, pending.pub_key, bytes, outcome) ==> {
            &&& outcome == Ok::<_, NetworkError>(DeliveryView::Done)
            &&& later.nodes[slot].direct_input.items == seq![bytes]
        },
        broadcast(after, later, bytes, outcome) ==> match outcome {
            Ok(DeliveryView::Done) => later.nodes[slot].broadcast_input.items == seq![bytes],
            Ok(DeliveryView::Waiting(rest)) => rest.standing matches Some(standing)
                && standing.slot != slot,
            Err(error) => exists|key: PubKey| #[trigger]
                after.registry.contains_key(key) && after.registry[key] != slot && !node_for(
                    after,
                    key,
                ).broadcast_open,
        },
{
    law_attached_node_is_found(before, after, pending, slot);
    law_new_node_takes_everything(pending.pub_key, pending.reliability);
    if directed(after, later, pending.pub_key, bytes, outcome) {
        law_message_is_for_its_recipient(after, later, pending.pub_key, bytes, outcome);
        assert(later.nodes[slot].direct_input.items =~= seq![bytes]);
    }
    if broadcast(after, later, bytes, outcome) {
        law_broadcast_is_for_everyone(after, later, bytes, outcome);
        let (found, stop) = law_broadcast_goes_round(after, later, bytes, outcome);
        if let Ok(DeliveryView::Done) = outcome {
            assert(after.registry.contains_key(pending.pub_key));
            assert(took(
                node_for(after, pending.pub_key),
                node_for(later, pending.pub_key),
                Lane::Broadcast,
                bytes,
                None,
            ));
            assert(later.nodes[slot].broadcast_input.items =~= seq![bytes]);
        } else {
            assert(after.registry.contains_key(found.targets[stop]));
        }
    }
}

} // verus!
