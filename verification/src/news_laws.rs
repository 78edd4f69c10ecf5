//! What a node hears of the nodes that join its group.

use crate::group_laws::{
    events_of, first_left, group_happens, group_history, law_group_events_keep_validity,
    law_group_history_is_node_history, law_only_attachments_add_nodes, law_pending_stays_valid,
    seen_by, seen_of_attachment, states_of, GroupEvent,
};
use crate::model::{
    announced, announced_on, announced_up_to, lemma_enumerated, lemma_slots, AttachView,
    AttachmentView, GroupView, NodeView, PendingView,
};
use crate::node::Reading;
use crate::node_laws::{law_news_first_in_first_out, news_read, news_told, tells};
use crate::reliability::NetworkReliability;
use crate::types::{Lane, NetworkChange, PubKey};
use vstd::prelude::*;

verus! {

/// The attachment that is under way after some events, where there is one and attachments come
/// one at a time.
pub open spec fn under_way<R>(events: Seq<GroupEvent<R>>) -> Option<AttachView<R>>
    decreases events.len(),
{
    if events.len() == 0 {
        None
    } else {
        match events.last() {
            GroupEvent::Attach(_, _, Ok(AttachmentView::Waiting(rest))) => Some(rest),
            GroupEvent::ResumeAttach(_, Ok(AttachmentView::Waiting(rest))) => Some(rest),
            GroupEvent::Attach(_, _, _) => None,
            GroupEvent::ResumeAttach(_, _) => None,
            _ => under_way(events.drop_last()),
        }
    }
}

/// Whether attachments come one at a time, and none of them fails: one begins only when none is
/// under way, and the one that goes on is the one that is under way.
pub open spec fn in_turn<R>(events: Seq<GroupEvent<R>>) -> bool
    decreases events.len(),
{
    events.len() == 0 || {
        let earlier = events.drop_last();
        &&& in_turn(earlier)
        &&& match events.last() {
            GroupEvent::Attach(_, _, outcome) => outcome is Ok && under_way(earlier) is None,
            GroupEvent::ResumeAttach(pending, outcome) => outcome is Ok && under_way(earlier)
                == Some(pending),
            _ => true,
        }
    }
}

/// Whether an attachment that is under way has reached the node for a key.
pub open spec fn reached<R>(pending: AttachView<R>, key: PubKey) -> bool {
    pending.targets.take(first_left(pending.next, pending.standing)).contains(key)
}

/// The news of an attachment that is under way that the node for a key was told already.
pub open spec fn ahead<R>(pending: Option<AttachView<R>>, key: PubKey) -> Seq<NetworkChange> {
    match pending {
        Some(pending) => if reached(pending, key) {
            seq![pending.change()]
        } else {
            Seq::empty()
        },
        None => Seq::empty(),
    }
}

/// The news of the nodes that joined a group between two of its states, in order.
pub open spec fn joined<R>(first: GroupView<R>, last: GroupView<R>) -> Seq<NetworkChange> {
    Seq::new(
        (last.nodes.len() - first.nodes.len()) as nat,
        |i: int| NetworkChange::NodeConnected(last.nodes[first.nodes.len() + i].pub_key),
    )
}

/// What holds of an attachment that is under way as long as no other begins.
pub open spec fn undisturbed<R>(pending: AttachView<R>, group: GroupView<R>) -> bool {
    &&& pending.valid_in(group)
    &&& group.enumerated_by(pending.targets)
    &&& pending.standing matches Some(standing) ==> group.listed(standing.slot)
}

/// What a node that can be found hears of an attachment that moves on: the news, exactly when it
/// is reached for the first time.
proof fn lemma_hears<R: NetworkReliability>(
    before: GroupView<R>,
    after: GroupView<R>,
    pending: AttachView<R>,
    attachment: AttachmentView<R>,
    slot: int,
)
    requires
        before.leads_right(),
        before.enumerated_by(pending.targets),
        0 <= pending.next <= pending.targets.len(),
        pending.standing is None,
        announced_on(before, after, pending, Ok(attachment)),
        before.listed(slot),
    ensures
        ({
            let key = before.nodes[slot].pub_key;
            let event = seen_of_attachment(before, after, pending.pub_key, Ok(attachment), slot);
            match attachment {
                AttachmentView::Attached(place) => {
                    &&& tells(event) == if reached(pending, key) {
                        Seq::empty()
                    } else {
                        seq![pending.change()]
                    }
                    &&& after.nodes.len() == before.nodes.len() + 1
                    &&& after.nodes[before.nodes.len() as int].pub_key == pending.pub_key
                },
                AttachmentView::Waiting(rest) => {
                    &&& tells(event) == if reached(pending, key) || !reached(rest, key) {
                        Seq::empty()
                    } else {
                        seq![pending.change()]
                    }
                    &&& reached(pending, key) ==> reached(rest, key)
                    &&& rest.change() == pending.change()
                    &&& undisturbed(rest, after)
                    &&& after.nodes.len() == before.nodes.len()
                },
            }
        }),
{
    let key = before.nodes[slot].pub_key;
    let targets = pending.targets;
    let slots = before.slots(targets);
    lemma_enumerated(before, targets);
    lemma_slots(before, targets);
    let stop = choose|stop: int| #[trigger]
        announced_up_to(before, after, pending, stop, Ok(attachment));
    let done = slots.subrange(pending.next, stop);
    assert(before.registry.contains_key(key));
    assert(targets.contains(key));
    let place = targets.index_of(key);
    assert(slots[place] == slot);
    lemma_position(targets, pending.next, place);
    assert(done.contains(slot) <==> pending.next <= place < stop) by {
        if done.contains(slot) {
            let i = done.index_of(slot);
            assert(slots[pending.next + i] == slot);
        }
        if pending.next <= place < stop {
            assert(done[place - pending.next] == slot);
        }
    }
    assert(before.nodes[slot].told(pending.change(), None).changes.items.len()
        == before.nodes[slot].changes.items.len() + 1);
    match attachment {
        AttachmentView::Attached(_) => {},
        AttachmentView::Waiting(rest) => {
            lemma_position(targets, stop + 1, place);
            assert(slots[stop] == slot ==> place == stop);
            assert(after.registry == before.registry);
            assert(after.nodes[slots[stop]].pub_key == targets[stop]);
            assert(before.listed(slots[stop]));
        },
    }
}

/// A key stands in the beginning of a list exactly when its number is below the length of that
/// beginning.
proof fn lemma_position(targets: Seq<PubKey>, n: int, place: int)
    requires
        targets.no_duplicates(),
        0 <= n <= targets.len(),
        0 <= place < targets.len(),
    ensures
        targets.take(n).contains(targets[place]) <==> place < n,
{
    if targets.take(n).contains(targets[place]) {
        let i = targets.take(n).index_of(targets[place]);
        assert(targets[i] == targets[place]);
    }
    if place < n {
        assert(targets.take(n)[place] == targets[place]);
    }
}

/// One event of the group: what a node that can be found hears is what the event adds to the news
/// of those that joined and of the one that is about to.
proof fn lemma_event_is_heard<R: NetworkReliability>(
    first: GroupView<R>,
    before: GroupView<R>,
    after: GroupView<R>,
    events: Seq<GroupEvent<R>>,
    slot: int,
    reading: Reading,
)
    requires
        before.valid(),
        events.len() > 0,
        in_turn(events),
        group_happens(before, after, events.last(), reading),
        before.listed(slot),
        first.nodes.len() <= before.nodes.len(),
        under_way(events.drop_last()) matches Some(pending) ==> undisturbed(pending, before),
    ensures
        ({
            let key = before.nodes[slot].pub_key;
            &&& joined(first, before) + ahead(under_way(events.drop_last()), key) + tells(
                seen_by(before, after, events.last(), slot),
            ) == joined(first, after) + ahead(under_way(events), key)
            &&& under_way(events) matches Some(pending) ==> undisturbed(pending, after)
        }),
{
    let key = before.nodes[slot].pub_key;
    let event = events.last();
    let heard = tells(seen_by(before, after, event, slot));
    let then = ahead(under_way(events.drop_last()), key);
    let now = ahead(under_way(events), key);
    law_group_events_keep_validity(before, after, event, reading);
    match event {
        GroupEvent::Attach(pub_key, reliability, outcome) => {
            let targets = choose|targets: Seq<PubKey>| #[trigger]
                before.enumerated_by(targets) && announced(
                    before,
                    after,
                    AttachView::begun(pub_key, reliability, targets),
                    outcome,
                );
            let pending = AttachView::begun(pub_key, reliability, targets);
            lemma_hears(before, after, pending, outcome->Ok_0, slot);
            assert(targets.take(0) =~= Seq::<PubKey>::empty());
        },
        GroupEvent::ResumeAttach(pending, outcome) => {
            if let Some(standing) = pending.standing {
                let node = before.nodes[standing.slot];
                if node.changes.arrived.contains(standing.ticket) {
                    let start = before.with_node(
                        standing.slot,
                        node.settled_news(standing.ticket),
                    );
                    lemma_hears(start, after, pending.passed(), outcome->Ok_0, slot);
                    if slot != standing.slot {
                        assert(start.nodes[slot] == before.nodes[slot]);
                    } else {
                        lemma_position(pending.targets, pending.next + 1, pending.next);
                    }
                }
            } else {
                lemma_hears(before, after, pending, outcome->Ok_0, slot);
            }
        },
        _ => {
            law_only_attachments_add_nodes(before, after, event, reading);
            if let Some(pending) = under_way(events) {
                law_pending_stays_valid(
                    before,
                    after,
                    PendingView::begun(Lane::Direct, Seq::empty(), Seq::empty()),
                    pending,
                );
                if let Some(standing) = pending.standing {
                    assert(after.nodes[standing.slot].pub_key
                        == before.nodes[standing.slot].pub_key);
                }
            }
        },
    }
    assert forall|i: int| 0 <= i < joined(first, before).len() implies #[trigger] joined(
        first,
        after,
    )[i] == joined(first, before)[i] by {
        let place = first.nodes.len() + i;
        assert(after.nodes[place].pub_key == before.nodes[place].pub_key);
    }
    assert(joined(first, before) + then + heard =~= joined(first, after) + now);
}

/// A node that can be found is told of the nodes that join its group after it, in the order in
/// which they join, of each of them once, and of nothing else: whatever happens in a group in
/// which nodes join one at a time, what such a node was told is the news of those that joined,
/// followed by that of the one that is about to if it was told of it already.
pub proof fn law_node_is_told_of_joiners<R: NetworkReliability>(
    states: Seq<GroupView<R>>,
    events: Seq<GroupEvent<R>>,
    slot: int,
    reading: Reading,
)
    requires
        group_history(states, events, reading),
        states[0].valid(),
        in_turn(events),
        forall|i: int| 0 <= i < states.len() ==> (#[trigger] states[i]).listed(slot),
    ensures
        news_told(events_of(states, events, slot)) == joined(states[0], states.last()) + ahead(
            under_way(events),
            states[0].nodes[slot].pub_key,
        ),
        states.last().valid(),
        states.last().keeps_nodes_of(states[0]),
        under_way(events) matches Some(pending) ==> undisturbed(pending, states.last()),
    decreases events.len(),
{
    let heard = events_of(states, events, slot);
    let first = states[0];
    let last = states.last();
    let key = first.nodes[slot].pub_key;
    assert(first.listed(slot));
    if events.len() == 0 {
        assert(news_told(heard) =~= joined(first, last) + ahead(under_way(events), key));
    } else {
        let earlier_states = states.drop_last();
        let earlier = events.drop_last();
        let before = earlier_states.last();
        assert forall|i: int| 0 <= i < earlier.len() implies group_happens(
            earlier_states[i],
            earlier_states[i + 1],
            #[trigger] earlier[i],
            reading,
        ) by {
            assert(events[i] == earlier[i]);
        }
        assert forall|i: int| 0 <= i < earlier_states.len() implies (
        #[trigger] earlier_states[i]).listed(slot) by {
            assert(states[i].listed(slot));
        }
        law_node_is_told_of_joiners(earlier_states, earlier, slot, reading);
        assert(group_happens(
            states[events.len() - 1],
            states[events.len() as int],
            events[events.len() - 1],
            reading,
        ));
        assert(states[events.len() - 1].listed(slot));
        assert(before.nodes[slot].pub_key == key);
        lemma_event_is_heard(first, before, last, events, slot, reading);
        law_group_events_keep_validity(before, last, events.last(), reading);
        assert(heard.drop_last() =~= events_of(earlier_states, earlier, slot));
        assert(heard.last() == seen_by(before, last, events.last(), slot));
        assert forall|place: int| 0 <= place < first.nodes.len() implies (
        #[trigger] last.nodes[place]).pub_key == first.nodes[place].pub_key by {
            assert(before.nodes[place].pub_key == first.nodes[place].pub_key);
        }
    }
}

/// What is read from a node that can be found, followed by the news that is still to come, is the
/// news that was there at first, followed by that of the nodes that joined since, in order, and
/// by that of the one that is about to if the node was told of it already.
pub proof fn law_news_is_of_joiners<R: NetworkReliability>(
    states: Seq<GroupView<R>>,
    events: Seq<GroupEvent<R>>,
    slot: int,
    reading: Reading,
)
    requires
        group_history(states, events, reading),
        states[0].valid(),
        in_turn(events),
        forall|i: int| 0 <= i < states.len() ==> (#[trigger] states[i]).listed(slot),
    ensures
        news_read(events_of(states, events, slot)) + states.last().nodes[slot].changes.items
            == states[0].nodes[slot].changes.items + (joined(states[0], states.last()) + ahead(
            under_way(events),
            states[0].nodes[slot].pub_key,
        )),
{
    assert(states[0].listed(slot));
    law_node_is_told_of_joiners(states, events, slot, reading);
    law_group_history_is_node_history(states, events, slot, reading);
    law_news_first_in_first_out(
        states_of(states, slot),
        events_of(states, events, slot),
        reading,
    );
    assert(states_of(states, slot).last() == states.last().nodes[slot]);
}

/// Once all news of a node was read that was just attached when its history began, and no
/// attachment is under way, exactly the news of the nodes that joined after it was read, in the
/// order in which they joined.
pub proof fn law_all_joiners_are_read<R: NetworkReliability>(
    states: Seq<GroupView<R>>,
    events: Seq<GroupEvent<R>>,
    reliability: Option<R>,
    reading: Reading,
)
    requires
        group_history(states, events, reading),
        states[0].valid(),
        states[0].nodes.len() > 0,
        states[0].nodes.last() == NodeView::fresh(states[0].nodes.last().pub_key, reliability),
        in_turn(events),
        forall|i: int|
            0 <= i < states.len() ==> (#[trigger] states[i]).listed(states[0].nodes.len() - 1),
        under_way(events) is None,
        states.last().nodes[states[0].nodes.len() - 1].changes.items.len() == 0,
    ensures
        news_read(events_of(states, events, states[0].nodes.len() - 1)) == joined(
            states[0],
            states.last(),
        ),
{
    let slot = states[0].nodes.len() - 1;
    law_news_is_of_joiners(states, events, slot, reading);
    let read = news_read(events_of(states, events, slot));
    let news = joined(states[0], states.last());
    assert(read + states.last().nodes[slot].changes.items =~= read);
    assert(states[0].nodes[slot].changes.items + (news + ahead(
        under_way(events),
        states[0].nodes[slot].pub_key,
    )) =~= news);
}

} // verus!
