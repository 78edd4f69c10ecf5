//! The group of nodes and the handles to them.

use crate::channel::Intake;
use crate::codec::{encodable, encode, wire, EncodeError, MESSAGE_LIMIT};
use crate::group_laws::law_attachment_succeeds;
use crate::model::{
    announced, announced_on, announced_up_to, attaching, broadcast, directed, drained,
    drained_changes, lemma_slots, names_places, received, released, sent, sent_on, sent_up_to,
    stepped, AttachView, AttachmentView, DeliveryView, GroupView, NodeView, PendingView, Progress,
    Standing,
};
use crate::node::{
    decoded_by, decodings, receipt, receipts, tidings, wire_reading, MemoryNetworkInner,
};
use crate::registry::{dashmap_get, dashmap_insert, dashmap_iter, dashmap_new, entries};
use crate::reliability::NetworkReliability;
use crate::types::{Lane, NetworkChange, NetworkError, PubKey};
use dashmap::DashMap;
use rand::Rng;
use vstd::prelude::*;

verus! {

/// Calls `rand::Rng::gen` on `rand::thread_rng`: any number may come.
#[verifier::external_body]
fn rand_u64() -> u64 {
    rand::thread_rng().gen()
}

impl PubKey {
    /// A key with the given nonce and a random share.
    pub fn random(nonce: u64) -> (key: PubKey)
        ensures
            key.nonce == nonce,
    {
        PubKey { nonce, share: rand_u64() }
    }
}

/// The state that a group of nodes shares.
///
/// It owns the state of every node, and keeps track of which node a key leads to.
#[derive(Debug)]
pub struct MasterMap<R> {
    /// The place of the node that a key leads to.
    map: DashMap<(u64, u64), usize>,
    /// Every node that was ever attached, in the order of their attachment.
    nodes: Vec<MemoryNetworkInner<R>>,
    /// The number that tells this group from others.
    id: u64,
}

impl<R> View for MasterMap<R> {
    type V = GroupView<R>;

    closed spec fn view(&self) -> GroupView<R> {
        GroupView {
            registry: Map::new(
                |key: PubKey| entries(self.map).contains_key((key.nonce, key.share)),
                |key: PubKey| entries(self.map)[(key.nonce, key.share)] as int,
            ),
            nodes: self.nodes@.map_values(|node: MemoryNetworkInner<R>| node@),
            id: self.id,
        }
    }
}

impl<R> MasterMap<R> {
    /// Each node is sound.
    pub closed spec fn sound(&self) -> bool {
        forall|slot: int| 0 <= slot < self.nodes@.len() ==> (#[trigger] self.nodes@[slot]).wf()
    }

    /// What holds of every group.
    pub open spec fn wf(&self) -> bool {
        self.sound() && self@.valid()
    }

    /// A group without nodes, under a random number.
    pub fn new() -> (group: MasterMap<R>)
        ensures
            group.wf(),
            group@ == GroupView::<R>::empty(group@.id),
    {
        MasterMap::with_id(rand_u64())
    }

    /// A group without nodes, under the given number.
    pub fn with_id(id: u64) -> (group: MasterMap<R>)
        ensures
            group.wf(),
            group@ == GroupView::<R>::empty(id),
    {
        let group = MasterMap { map: dashmap_new(), nodes: Vec::new(), id };
        proof {
            assert(group@ =~= GroupView::<R>::empty(id));
        }
        group
    }

    /// The number that tells this group from others.
    pub fn id(&self) -> (id: u64)
        ensures
            id == self@.id,
    {
        self.id
    }

    /// The keys that lead to a node, in an order that is not known.
    fn keys(&self) -> (keys: Vec<PubKey>)
        ensures
            self@.enumerated_by(keys@),
            self@.knows(keys@),
    {
        let list = dashmap_iter(&self.map);
        let mut keys: Vec<PubKey> = Vec::new();
        let mut i: usize = 0;
        while i < list.len()
            invariant
                i <= list.len(),
                keys@.len() == i,
                forall|j: int|
                    0 <= j < i ==> #[trigger] keys@[j] == (PubKey {
                        nonce: list@[j].0.0,
                        share: list@[j].0.1,
                    }),
            decreases list.len() - i,
        {
            let (nonce, share) = list[i].0;
            keys.push(PubKey { nonce, share });
            i = i + 1;
        }
        proof {
            let registry = self@.registry;
            assert forall|j: int| 0 <= j < keys@.len() implies registry.contains_key(
                #[trigger] keys@[j],
            ) by {
                assert(entries(self.map).contains_key(list@[j].0));
            }
            assert forall|key: PubKey| keys@.contains(key) <==> #[trigger] registry.contains_key(
                key,
            ) by {
                let pair = (key.nonce, key.share);
                if registry.contains_key(key) {
                    assert(entries(self.map).contains_key(pair));
                    let j = list@.index_of((pair, entries(self.map)[pair]));
                    assert(list@[j].0 == pair);
                    assert(keys@[j] == key);
                }
            }
            assert forall|a: int, b: int| 0 <= a < b < keys@.len() implies keys@[a] != keys@[b] by {
                assert(list@[a].0 != list@[b].0);
            }
        }
        keys
    }

    /// The place of the node that a key leads to.
    fn find(&self, key: PubKey) -> (slot: Option<usize>)
        requires
            self.wf(),
        ensures
            match slot {
                Some(slot) => self@.registry.contains_key(key) && self@.registry[key] == slot,
                None => !self@.registry.contains_key(key),
            },
    {
        dashmap_get(&self.map, (key.nonce, key.share))
    }

    /// Gives bytes to the node at a place.
    fn give(&mut self, slot: usize, lane: Lane, bytes: Vec<u8>) -> (res: Intake<Vec<u8>>)
        requires
            old(self).wf(),
            slot < old(self)@.nodes.len(),
        ensures
            final(self).wf(),
            ({
                let node = old(self)@.nodes[slot as int];
                match res {
                    Intake::Accepted => node.accepts(lane) && final(self)@ == old(self)@.with_node(
                        slot as int,
                        node.given(lane, bytes@, None),
                    ),
                    Intake::Queued(ticket) => {
                        &&& node.is_open(lane) && !node.accepts(lane)
                        &&& !node.input(lane).in_use(ticket as int)
                        &&& final(self)@ == old(self)@.with_node(
                            slot as int,
                            node.given(lane, bytes@, Some(ticket as int)),
                        )
                    },
                    Intake::Closed(back) => !node.is_open(lane) && final(self)@ == old(self)@
                        && back == bytes,
                }
            }),
    {
        let ghost before = self@;
        let res = self.nodes[slot].input(lane, bytes);
        proof {
            assert(self@ =~= before.with_node(slot as int, self.nodes@[slot as int]@));
            assert(before.with_node(slot as int, before.nodes[slot as int]) =~= before);
        }
        res
    }

    /// Whether the bytes of a ticket got room at the node at a place.
    fn settle(&mut self, slot: usize, lane: Lane, ticket: usize) -> (arrived: bool)
        requires
            old(self).wf(),
            slot < old(self)@.nodes.len(),
        ensures
            final(self).wf(),
            ({
                let node = old(self)@.nodes[slot as int];
                &&& arrived == node.input(lane).arrived.contains(ticket as int)
                &&& final(self)@ == if arrived {
                    old(self)@.with_node(slot as int, node.settled(lane, ticket as int))
                } else {
                    old(self)@
                }
            }),
    {
        let ghost before = self@;
        let arrived = self.nodes[slot].settle(lane, ticket);
        proof {
            assert(self@ =~= before.with_node(slot as int, self.nodes@[slot as int]@));
            assert(before.with_node(slot as int, before.nodes[slot as int]) =~= before);
        }
        arrived
    }

    /// Tells the node at a place of a change.
    fn tell(&mut self, slot: usize, change: NetworkChange) -> (res: Intake<NetworkChange>)
        requires
            old(self).wf(),
            slot < old(self)@.nodes.len(),
        ensures
            final(self).wf(),
            ({
                let node = old(self)@.nodes[slot as int];
                match res {
                    Intake::Accepted => node.accepts_news() && final(self)@ == old(
                        self
                    )@.with_node(slot as int, node.told(change, None)),
                    Intake::Queued(ticket) => {
                        &&& node.news_open && !node.accepts_news()
                        &&& !node.changes.in_use(ticket as int)
                        &&& final(self)@ == old(self)@.with_node(
                            slot as int,
                            node.told(change, Some(ticket as int)),
                        )
                    },
                    Intake::Closed(back) => !node.news_open && final(self)@ == old(self)@ && back
                        == change,
                }
            }),
    {
        let ghost before = self@;
        let res = self.nodes[slot].network_changes_input(change);
        proof {
            assert(self@ =~= before.with_node(slot as int, self.nodes@[slot as int]@));
            assert(before.with_node(slot as int, before.nodes[slot as int]) =~= before);
        }
        res
    }

    /// Whether the news of a ticket got room at the node at a place.
    fn settle_news(&mut self, slot: usize, ticket: usize) -> (arrived: bool)
        requires
            old(self).wf(),
            slot < old(self)@.nodes.len(),
        ensures
            final(self).wf(),
            ({
                let node = old(self)@.nodes[slot as int];
                &&& arrived == node.changes.arrived.contains(ticket as int)
                &&& final(self)@ == if arrived {
                    old(self)@.with_node(slot as int, node.settled_news(ticket as int))
                } else {
                    old(self)@
                }
            }),
    {
        let ghost before = self@;
        let arrived = self.nodes[slot].settle_news(ticket);
        proof {
            assert(self@ =~= before.with_node(slot as int, self.nodes@[slot as int]@));
            assert(before.with_node(slot as int, before.nodes[slot as int]) =~= before);
        }
        arrived
    }

    /// Adds a node, which is found by its key.
    fn insert(&mut self, pub_key: PubKey, reliability_config: Option<R>) -> (slot: usize)
        requires
            old(self).wf(),
        ensures
            final(self).wf(),
            slot == old(self)@.nodes.len(),
            final(self)@ == old(self)@.with_new(pub_key, reliability_config),
    {
        let slot = self.nodes.len();
        self.nodes.push(MemoryNetworkInner::new(pub_key, reliability_config));
        let _ = dashmap_insert(&mut self.map, (pub_key.nonce, pub_key.share), slot);
        proof {
            assert(self@ =~= old(self)@.with_new(pub_key, reliability_config));
            let before = old(self)@;
            assert forall|key: PubKey| #[trigger] self@.registry.contains_key(key) implies 0
                <= self@.registry[key] < self@.nodes.len()
                && self@.nodes[self@.registry[key]].pub_key == key by {
                if key != pub_key {
                    assert(before.registry.contains_key(key));
                }
            }
            assert forall|s: int| 0 <= s < self@.nodes.len() implies (
            #[trigger] self@.nodes[s]).valid() by {
                if s < before.nodes.len() {
                    assert(before.nodes[s].valid());
                }
            }
        }
        slot
    }
}

/// A part of a list of places that is one longer has one more place in it.
proof fn lemma_one_more(slots: Seq<int>, from: int, to: int)
    requires
        0 <= from <= to < slots.len(),
        slots.no_duplicates(),
    ensures
        !slots.subrange(from, to).contains(slots[to]),
        forall|slot: int| #[trigger]
            slots.subrange(from, to + 1).contains(slot) <==> slots.subrange(from, to).contains(slot)
                || slot == slots[to],
{
    let part = slots.subrange(from, to);
    let more = slots.subrange(from, to + 1);
    assert(more =~= part.push(slots[to]));
    assert forall|slot: int| #[trigger] more.contains(slot) <==> part.contains(slot) || slot
        == slots[to] by {
        if part.contains(slot) {
            let i = part.index_of(slot);
            assert(more[i] == slot);
        }
        if slot == slots[to] {
            assert(more[to - from] == slot);
        }
    }
}

/// A send whose bytes stand in line at a node.
#[derive(Debug)]
pub struct PendingSend {
    /// The lane of the send.
    lane: Lane,
    /// The bytes that are sent.
    bytes: Vec<u8>,
    /// The keys of the nodes that the bytes go to, in order.
    targets: Vec<PubKey>,
    /// At how many of the nodes the bytes have room.
    next: usize,
    /// The place of the node that the bytes wait at, and their ticket there.
    standing: Option<(usize, usize)>,
}

/// The value of a place and a ticket that may be missing.
pub open spec fn standing_value(standing: Option<(usize, usize)>) -> Option<Standing> {
    match standing {
        Some((slot, ticket)) => Some(Standing { slot: slot as int, ticket: ticket as int }),
        None => None,
    }
}

impl View for PendingSend {
    type V = PendingView;

    closed spec fn view(&self) -> PendingView {
        PendingView {
            lane: self.lane,
            bytes: self.bytes@,
            targets: self.targets@,
            next: self.next as int,
            standing: standing_value(self.standing),
        }
    }
}

/// How far a send came.
#[derive(Debug)]
pub enum Delivery {
    /// The message has room at every node.
    Done,
    /// The message stands in line at a node; the send can go on later.
    Waiting(PendingSend),
}

/// The value of the outcome of a send.
pub open spec fn outcome(res: Result<Delivery, NetworkError>) -> Result<
    DeliveryView,
    NetworkError,
> {
    match res {
        Ok(Delivery::Done) => Ok(DeliveryView::Done),
        Ok(Delivery::Waiting(pending)) => Ok(DeliveryView::Waiting(pending@)),
        Err(error) => Err(error),
    }
}

impl PendingSend {
    /// Goes on with the send: once the bytes have room at the node that they wait at, gives them
    /// to one node after the other.
    pub fn resume<R>(self, group: &mut MasterMap<R>) -> (res: Result<Delivery, NetworkError>)
        requires
            old(group).wf(),
            self@.valid_in(old(group)@),
        ensures
            final(group).wf(),
            sent(old(group)@, final(group)@, self@, outcome(res)),
            final(group)@.keeps_nodes_of(old(group)@),
            res matches Ok(Delivery::Waiting(rest)) ==> rest@.valid_in(final(group)@),
    {
        match self.standing {
            Some((slot, ticket)) => {
                assert(self.next < self.targets.len());
                if !group.settle(slot, self.lane, ticket) {
                    return Ok(Delivery::Waiting(self));
                }
                let next: usize = self.next + 1;
                self.send_on(group, next)
            },
            None => {
                let next: usize = self.next;
                self.send_on(group, next)
            },
        }
    }

    /// Gives the bytes to one node after the other, from a place in the list on.
    fn send_on<R>(self, group: &mut MasterMap<R>, first: usize) -> (res: Result<
        Delivery,
        NetworkError,
    >)
        requires
            old(group).wf(),
            old(group)@.knows(self@.targets),
            first <= self@.targets.len(),
        ensures
            final(group).wf(),
            sent_on(
                old(group)@,
                final(group)@,
                (PendingView { next: first as int, standing: None, ..self@ }),
                outcome(res),
            ),
            final(group)@.keeps_nodes_of(old(group)@),
            res matches Ok(Delivery::Waiting(rest)) ==> rest@.valid_in(final(group)@),
    {
        let ghost before = group@;
        let ghost pending = PendingView { next: first as int, standing: None, ..self@ };
        let ghost slots = before.slots(pending.targets);
        let mut next: usize = first;
        proof {
            lemma_slots(before, pending.targets);
            assert(before.given(
                pending.lane,
                pending.bytes,
                slots.subrange(first as int, next as int),
            ) =~= before);
        }
        while next < self.targets.len()
            invariant
                group.wf(),
                before == old(group)@,
                pending == (PendingView { next: first as int, standing: None, ..self@ }),
                before.knows(pending.targets),
                slots == before.slots(pending.targets),
                names_places(slots, before),
                forall|i: int|
                    0 <= i < slots.len() ==> before.nodes[#[trigger] slots[i]].pub_key
                        == pending.targets[i],
                first <= next <= self.targets.len(),
                forall|i: int|
                    first <= i < next ==> before.nodes[#[trigger] slots[i]].accepts(pending.lane),
                group@ == before.given(
                    pending.lane,
                    pending.bytes,
                    slots.subrange(first as int, next as int),
                ),
            decreases self.targets.len() - next,
        {
            assert(before.registry.contains_key(pending.targets[next as int]));
            let slot = match group.find(self.targets[next]) {
                Some(slot) => slot,
                // A key that led to a node always leads to one.
                None => vstd::pervasive::unreached(),
            };
            proof {
                assert(slots[next as int] == slot);
                lemma_one_more(slots, first as int, next as int);
                assert(group@.nodes[slot as int] == before.nodes[slot as int]);
            }
            let copy = self.bytes.clone();
            proof {
                assert(copy@ =~= self.bytes@);
            }
            match group.give(slot, self.lane, copy) {
                Intake::Accepted => {
                    proof {
                        assert(group@ =~= before.given(
                            pending.lane,
                            pending.bytes,
                            slots.subrange(first as int, next + 1),
                        ));
                    }
                    next = next + 1;
                },
                Intake::Closed(_) => {
                    let res = Err(NetworkError::CouldNotDeliver);
                    proof {
                        assert(sent_up_to(before, group@, pending, next as int, outcome(res)));
                    }
                    return res;
                },
                Intake::Queued(ticket) => {
                    let rest = PendingSend {
                        lane: self.lane,
                        bytes: self.bytes,
                        targets: self.targets,
                        next,
                        standing: Some((slot, ticket)),
                    };
                    let res = Ok(Delivery::Waiting(rest));
                    proof {
                        assert(rest@ =~= (PendingView {
                            next: next as int,
                            standing: Some(
                                Standing { slot: slot as int, ticket: ticket as int },
                            ),
                            ..pending
                        }));
                        assert(sent_up_to(before, group@, pending, next as int, outcome(res)));
                    }
                    return res;
                },
            }
        }
        proof {
            assert(sent_up_to(before, group@, pending, next as int, outcome(Ok(Delivery::Done))));
        }
        Ok(Delivery::Done)
    }
}

/// The attachment of a node that waits until another node has room for the news.
#[derive(Debug)]
pub struct PendingAttach<R> {
    /// The key of the new node.
    pub_key: PubKey,
    /// The reliability model of the new node.
    reliability_config: Option<R>,
    /// The keys of the nodes that are told, in order.
    targets: Vec<PubKey>,
    /// At how many of the nodes the news has room.
    next: usize,
    /// The place of the node that the news waits at, and its ticket there.
    standing: Option<(usize, usize)>,
}

impl<R> View for PendingAttach<R> {
    type V = AttachView<R>;

    closed spec fn view(&self) -> AttachView<R> {
        AttachView {
            pub_key: self.pub_key,
            reliability: self.reliability_config,
            targets: self.targets@,
            next: self.next as int,
            standing: standing_value(self.standing),
        }
    }
}

/// How far the attachment of a node came.
#[derive(Debug)]
pub enum Attachment<R> {
    /// The node is attached.
    Attached(MemoryNetwork),
    /// The news stands in line at a node; the attachment can go on later.
    Waiting(PendingAttach<R>),
}

/// The value of the outcome of an attachment.
pub open spec fn attachment<R>(res: Result<Attachment<R>, NetworkError>) -> Result<
    AttachmentView<R>,
    NetworkError,
> {
    match res {
        Ok(Attachment::Attached(network)) => Ok(AttachmentView::Attached(network.slot())),
        Ok(Attachment::Waiting(pending)) => Ok(AttachmentView::Waiting(pending@)),
        Err(error) => Err(error),
    }
}

impl<R> PendingAttach<R> {
    /// Goes on with the attachment: once the news has room at the node that it waits at, tells
    /// one node after the other, and then adds the new node.
    pub fn resume(self, group: &mut MasterMap<R>) -> (res: Result<Attachment<R>, NetworkError>)
        requires
            old(group).wf(),
            self@.valid_in(old(group)@),
        ensures
            final(group).wf(),
            announced(old(group)@, final(group)@, self@, attachment(res)),
            final(group)@.keeps_nodes_of(old(group)@),
            match res {
                Ok(Attachment::Attached(network)) => network.key() == self@.pub_key
                    && network.lives_in(final(group)@),
                Ok(Attachment::Waiting(rest)) => rest@.valid_in(final(group)@),
                Err(_) => true,
            },
    {
        match self.standing {
            Some((slot, ticket)) => {
                assert(self.next < self.targets.len());
                if !group.settle_news(slot, ticket) {
                    return Ok(Attachment::Waiting(self));
                }
                let next: usize = self.next + 1;
                self.tell_on(group, next)
            },
            None => {
                let next: usize = self.next;
                self.tell_on(group, next)
            },
        }
    }

    /// Tells one node after the other, from a place in the list on, and then adds the new node.
    fn tell_on(self, group: &mut MasterMap<R>, first: usize) -> (res: Result<
        Attachment<R>,
        NetworkError,
    >)
        requires
            old(group).wf(),
            old(group)@.knows(self@.targets),
            first <= self@.targets.len(),
        ensures
            final(group).wf(),
            announced_on(
                old(group)@,
                final(group)@,
                (AttachView { next: first as int, standing: None, ..self@ }),
                attachment(res),
            ),
            final(group)@.keeps_nodes_of(old(group)@),
            match res {
                Ok(Attachment::Attached(network)) => network.key() == self@.pub_key
                    && network.lives_in(final(group)@),
                Ok(Attachment::Waiting(rest)) => rest@.valid_in(final(group)@),
                Err(_) => true,
            },
    {
        let ghost before = group@;
        let ghost pending = AttachView { next: first as int, standing: None, ..self@ };
        let change = NetworkChange::NodeConnected(self.pub_key);
        let ghost slots = before.slots(pending.targets);
        let mut next: usize = first;
        proof {
            lemma_slots(before, pending.targets);
            assert(before.told(change, slots.subrange(first as int, next as int)) =~= before);
        }
        while next < self.targets.len()
            invariant
                group.wf(),
                before == old(group)@,
                pending == (AttachView { next: first as int, standing: None, ..self@ }),
                change == pending.change(),
                before.knows(pending.targets),
                slots == before.slots(pending.targets),
                names_places(slots, before),
                forall|i: int|
                    0 <= i < slots.len() ==> before.nodes[#[trigger] slots[i]].pub_key
                        == pending.targets[i],
                first <= next <= self.targets.len(),
                forall|i: int|
                    first <= i < next ==> before.nodes[#[trigger] slots[i]].accepts_news(),
                group@ == before.told(change, slots.subrange(first as int, next as int)),
            decreases self.targets.len() - next,
        {
            assert(before.registry.contains_key(pending.targets[next as int]));
            let slot = match group.find(self.targets[next]) {
                Some(slot) => slot,
                // A key that led to a node always leads to one.
                None => vstd::pervasive::unreached(),
            };
            proof {
                assert(slots[next as int] == slot);
                lemma_one_more(slots, first as int, next as int);
                assert(group@.nodes[slot as int] == before.nodes[slot as int]);
            }
            match group.tell(slot, change) {
                Intake::Accepted => {
                    proof {
                        assert(group@ =~= before.told(
                            change,
                            slots.subrange(first as int, next + 1),
                        ));
                    }
                    next = next + 1;
                },
                Intake::Closed(_) => {
                    let res = Err(NetworkError::CouldNotDeliver);
                    proof {
                        assert(announced_up_to(
                            before,
                            group@,
                            pending,
                            next as int,
                            attachment(res),
                        ));
                    }
                    return res;
                },
                Intake::Queued(ticket) => {
                    let rest = PendingAttach {
                        pub_key: self.pub_key,
                        reliability_config: self.reliability_config,
                        targets: self.targets,
                        next,
                        standing: Some((slot, ticket)),
                    };
                    let res = Ok(Attachment::Waiting(rest));
                    proof {
                        assert(rest@ =~= (AttachView {
                            next: next as int,
                            standing: Some(
                                Standing { slot: slot as int, ticket: ticket as int },
                            ),
                            ..pending
                        }));
                        assert(announced_up_to(
                            before,
                            group@,
                            pending,
                            next as int,
                            attachment(res),
                        ));
                    }
                    return res;
                },
            }
        }
        let pub_key = self.pub_key;
        let slot = group.insert(pub_key, self.reliability_config);
        let res = Ok(Attachment::Attached(MemoryNetwork { pub_key, slot }));
        proof {
            assert(announced_up_to(before, group@, pending, next as int, attachment(res)));
        }
        res
    }
}

/// A handle to a node of a group.
///
/// Handles can be copied; all copies stand for the same node.
#[derive(Clone, Copy, Debug)]
pub struct MemoryNetwork {
    /// The public key of the node.
    pub_key: PubKey,
    /// The place of the node in its group.
    slot: usize,
}

impl MemoryNetwork {
    /// The key of the node.
    pub closed spec fn key(self) -> PubKey {
        self.pub_key
    }

    /// The place of the node in its group.
    pub closed spec fn slot(self) -> int {
        self.slot as int
    }

    /// Whether the node of this handle is in the group.
    pub open spec fn lives_in<R>(self, group: GroupView<R>) -> bool {
        0 <= self.slot() < group.nodes.len() && group.nodes[self.slot()].pub_key == self.key()
    }

    /// The node of this handle.
    pub open spec fn node<R>(self, group: GroupView<R>) -> NodeView<R> {
        group.nodes[self.slot()]
    }

    /// Attaches a new node to a group: tells every node that can be found about it, in an order
    /// that is not known, and then adds it. A key that was in use leads to the new node from then
    /// on. Where a node has no room for the news the attachment waits, and where a node was shut
    /// down it fails.
    pub fn attach<R>(
        pub_key: PubKey,
        group: &mut MasterMap<R>,
        reliability_config: Option<R>,
    ) -> (res: Result<Attachment<R>, NetworkError>)
        requires
            old(group).wf(),
        ensures
            final(group).wf(),
            attaching(old(group)@, final(group)@, pub_key, reliability_config, attachment(res)),
            final(group)@.keeps_nodes_of(old(group)@),
            match res {
                Ok(Attachment::Attached(network)) => network.key() == pub_key && network.lives_in(
                    final(group)@,
                ),
                Ok(Attachment::Waiting(rest)) => rest@.valid_in(final(group)@),
                Err(_) => true,
            },
    {
        let targets = group.keys();
        let pending = PendingAttach {
            pub_key,
            reliability_config,
            targets,
            next: 0,
            standing: None,
        };
        proof {
            assert(pending@ =~= AttachView::begun(pub_key, reliability_config, targets@));
        }
        pending.resume(group)
    }

    /// Attaches a new node to a group in which every node that can be found has room for the
    /// news, and tells them about it. A key that was in use leads to the new node from now on.
    ///
    /// [`MemoryNetwork::attach`] works in any group.
    pub fn new<R>(
        pub_key: PubKey,
        group: &mut MasterMap<R>,
        reliability_config: Option<R>,
    ) -> (network: MemoryNetwork)
        requires
            old(group).wf(),
            old(group)@.accepts_news(),
        ensures
            final(group).wf(),
            final(group)@ == old(group)@.attached(pub_key, reliability_config),
            final(group)@.keeps_nodes_of(old(group)@),
            network.key() == pub_key,
            network.slot() == old(group)@.nodes.len(),
            network.lives_in(final(group)@),
    {
        let res = MemoryNetwork::attach(pub_key, group, reliability_config);
        proof {
            law_attachment_succeeds(
                old(group)@,
                group@,
                pub_key,
                reliability_config,
                attachment(res),
            );
        }
        match res {
            Ok(Attachment::Attached(network)) => network,
            // Every node has room for the news.
            _ => vstd::pervasive::unreached(),
        }
    }

    /// Whether a group differs from what it was in the node of this handle only, and the handle
    /// still leads to it.
    pub open spec fn changes_only_its_node<R>(
        self,
        before: GroupView<R>,
        after: GroupView<R>,
    ) -> bool {
        after == before.with_node(self.slot(), self.node(after)) && self.lives_in(after)
    }

    /// The key of the node.
    pub fn pub_key(&self) -> (pub_key: PubKey)
        ensures
            pub_key == self.key(),
    {
        self.pub_key
    }

    /// Whether the network can be used: always.
    pub fn ready(&self) -> (ready: bool)
        ensures
            ready,
    {
        true
    }

    /// The keys of the nodes that can be found, in an order that is not known.
    pub fn known_nodes<R>(&self, group: &MasterMap<R>) -> (keys: Vec<PubKey>)
        requires
            group.wf(),
        ensures
            keys@.no_duplicates(),
            forall|key: PubKey|
                keys@.contains(key) <==> #[trigger] group@.registry.contains_key(key),
    {
        group.keys()
    }

    /// Sends a message to every node that can be found, this one among them.
    pub fn broadcast_message<R>(&self, group: &mut MasterMap<R>, message: Vec<u8>) -> (res: Result<
        Delivery,
        NetworkError,
    >)
        requires
            old(group).wf(),
        ensures
            final(group).wf(),
            final(group)@.keeps_nodes_of(old(group)@),
            res matches Ok(Delivery::Waiting(rest)) ==> rest@.valid_in(final(group)@),
            if encodable(message@) {
                broadcast(old(group)@, final(group)@, wire(message@), outcome(res))
            } else {
                final(group)@ == old(group)@ && res == Err::<Delivery, _>(
                    NetworkError::FailedToSerialize,
                )
            },
    {
        self.broadcast_encoded(group, encode(&message))
    }

    /// Sends bytes to every node that can be found, this one among them, where a message was
    /// turned into bytes that are within the size limit.
    pub fn broadcast_encoded<R>(
        &self,
        group: &mut MasterMap<R>,
        encoded: Result<Vec<u8>, EncodeError>,
    ) -> (res: Result<Delivery, NetworkError>)
        requires
            old(group).wf(),
        ensures
            final(group).wf(),
            final(group)@.keeps_nodes_of(old(group)@),
            res matches Ok(Delivery::Waiting(rest)) ==> rest@.valid_in(final(group)@),
            if encoded is Ok && encoded->Ok_0@.len() <= MESSAGE_LIMIT {
                broadcast(old(group)@, final(group)@, encoded->Ok_0@, outcome(res))
            } else {
                final(group)@ == old(group)@ && res == Err::<Delivery, _>(
                    NetworkError::FailedToSerialize,
                )
            },
    {
        let bytes = match checked(encoded) {
            Ok(bytes) => bytes,
            Err(error) => return Err(error),
        };
        let targets = group.keys();
        let pending = PendingSend {
            lane: Lane::Broadcast,
            bytes,
            targets,
            next: 0,
            standing: None,
        };
        proof {
            assert(pending@ =~= PendingView::begun(Lane::Broadcast, bytes@, targets@));
        }
        pending.resume(group)
    }

    /// Sends a message to the node that a key leads to.
    pub fn message_node<R>(
        &self,
        group: &mut MasterMap<R>,
        message: Vec<u8>,
        recipient: PubKey,
    ) -> (res: Result<Delivery, NetworkError>)
        requires
            old(group).wf(),
        ensures
            final(group).wf(),
            final(group)@.keeps_nodes_of(old(group)@),
            res matches Ok(Delivery::Waiting(rest)) ==> rest@.valid_in(final(group)@),
            if encodable(message@) {
                directed(old(group)@, final(group)@, recipient, wire(message@), outcome(res))
            } else {
                final(group)@ == old(group)@ && res == Err::<Delivery, _>(
                    NetworkError::FailedToSerialize,
                )
            },
    {
        self.message_node_encoded(group, encode(&message), recipient)
    }

    /// Sends bytes to the node that a key leads to, where a message was turned into bytes that
    /// are within the size limit.
    pub fn message_node_encoded<R>(
        &self,
        group: &mut MasterMap<R>,
        encoded: Result<Vec<u8>, EncodeError>,
        recipient: PubKey,
    ) -> (res: Result<Delivery, NetworkError>)
        requires
            old(group).wf(),
        ensures
            final(group).wf(),
            final(group)@.keeps_nodes_of(old(group)@),
            res matches Ok(Delivery::Waiting(rest)) ==> rest@.valid_in(final(group)@),
            if encoded is Ok && encoded->Ok_0@.len() <= MESSAGE_LIMIT {
                directed(old(group)@, final(group)@, recipient, encoded->Ok_0@, outcome(res))
            } else {
                final(group)@ == old(group)@ && res == Err::<Delivery, _>(
                    NetworkError::FailedToSerialize,
                )
            },
    {
        let bytes = match checked(encoded) {
            Ok(bytes) => bytes,
            Err(error) => return Err(error),
        };
        match group.find(recipient) {
            Some(slot) => {
                let mut targets: Vec<PubKey> = Vec::new();
                targets.push(recipient);
                let pending = PendingSend {
                    lane: Lane::Direct,
                    bytes,
                    targets,
                    next: 0,
                    standing: None,
                };
                let ghost before = group@;
                let ghost value = PendingView::begun(Lane::Direct, bytes@, seq![recipient]);
                proof {
                    assert(pending@ =~= value);
                }
                let res = pending.resume(group);
                proof {
                    let stop = choose|stop: int| #[trigger]
                        sent_up_to(before, group@, value, stop, outcome(res));
                    let slots = before.slots(value.targets);
                    assert(slots[0] == slot);
                    if stop == 0 {
                        assert(before.given(
                            Lane::Direct,
                            value.bytes,
                            slots.subrange(0, 0),
                        ) =~= before);
                    } else {
                        let all = slots.subrange(0, 1);
                        assert(all[0] == slot);
                        assert(before.given(Lane::Direct, value.bytes, all) =~= before.with_node(
                            slot as int,
                            before.nodes[slot as int].given(Lane::Direct, value.bytes, None),
                        ));
                    }
                }
                res
            },
            None => Err(NetworkError::NoSuchNode),
        }
    }

    /// Takes every message for every node that waits, the oldest first. `None` says that there is
    /// nothing yet.
    pub fn broadcast_queue<R>(&self, group: &mut MasterMap<R>) -> (res: Result<
        Option<Vec<Vec<u8>>>,
        NetworkError,
    >)
        requires
            old(group).wf(),
            self.lives_in(old(group)@),
        ensures
            final(group).wf(),
            self.changes_only_its_node(old(group)@, final(group)@),
            drained(
                self.node(old(group)@),
                self.node(final(group)@),
                Lane::Broadcast,
                receipts(res),
            ),
    {
        let ghost before = group@;
        let res = group.nodes[self.slot].drain(Lane::Broadcast);
        proof {
            assert(group@ =~= before.with_node(self.slot(), self.node(group@)));
        }
        res
    }

    /// Takes the oldest message for every node. `None` says that there is nothing yet.
    pub fn next_broadcast<R>(&self, group: &mut MasterMap<R>) -> (res: Result<
        Option<Vec<u8>>,
        NetworkError,
    >)
        requires
            old(group).wf(),
            self.lives_in(old(group)@),
        ensures
            final(group).wf(),
            self.changes_only_its_node(old(group)@, final(group)@),
            received(
                self.node(old(group)@),
                self.node(final(group)@),
                Lane::Broadcast,
                receipt(res),
            ),
    {
        let ghost before = group@;
        let res = group.nodes[self.slot].receive(Lane::Broadcast);
        proof {
            assert(group@ =~= before.with_node(self.slot(), self.node(group@)));
        }
        res
    }

    /// Takes every message for this node that waits, the oldest first. `None` says that there is
    /// nothing yet.
    pub fn direct_queue<R>(&self, group: &mut MasterMap<R>) -> (res: Result<
        Option<Vec<Vec<u8>>>,
        NetworkError,
    >)
        requires
            old(group).wf(),
            self.lives_in(old(group)@),
        ensures
            final(group).wf(),
            self.changes_only_its_node(old(group)@, final(group)@),
            drained(
                self.node(old(group)@),
                self.node(final(group)@),
                Lane::Direct,
                receipts(res),
            ),
    {
        let ghost before = group@;
        let res = group.nodes[self.slot].drain(Lane::Direct);
        proof {
            assert(group@ =~= before.with_node(self.slot(), self.node(group@)));
        }
        res
    }

    /// Takes the oldest message for this node. `None` says that there is nothing yet.
    pub fn next_direct<R>(&self, group: &mut MasterMap<R>) -> (res: Result<
        Option<Vec<u8>>,
        NetworkError,
    >)
        requires
            old(group).wf(),
            self.lives_in(old(group)@),
        ensures
            final(group).wf(),
            self.changes_only_its_node(old(group)@, final(group)@),
            received(self.node(old(group)@), self.node(final(group)@), Lane::Direct, receipt(res)),
    {
        let ghost before = group@;
        let res = group.nodes[self.slot].receive(Lane::Direct);
        proof {
            assert(group@ =~= before.with_node(self.slot(), self.node(group@)));
        }
        res
    }

    /// Takes all news that waits, the oldest first. `None` says that there is none yet.
    pub fn network_changes<R>(&self, group: &mut MasterMap<R>) -> (res: Result<
        Option<Vec<NetworkChange>>,
        NetworkError,
    >)
        requires
            old(group).wf(),
            self.lives_in(old(group)@),
        ensures
            final(group).wf(),
            self.changes_only_its_node(old(group)@, final(group)@),
            drained_changes(self.node(old(group)@), self.node(final(group)@), tidings(res)),
    {
        let ghost before = group@;
        let res = group.nodes[self.slot].drain_changes();
        proof {
            assert(group@ =~= before.with_node(self.slot(), self.node(group@)));
        }
        res
    }

    /// Shuts the node down: nothing more is sent to it. What was sent before, by senders that
    /// stand in line among others, is still worked on and can be received.
    ///
    /// The inputs are closed in turn: that for every node, that for this node, that for news. The
    /// next one is closed only when no sender stands in line at the one before. `false` says that
    /// senders hold the shut down up, and that it is to be tried again later.
    pub fn shut_down<R>(&self, group: &mut MasterMap<R>) -> (done: bool)
        requires
            old(group).wf(),
            self.lives_in(old(group)@),
        ensures
            final(group).wf(),
            self.lives_in(final(group)@),
            final(group)@ == old(group)@.with_node(self.slot(), self.node(old(group)@).shut()),
            done == self.node(final(group)@).is_shut(),
    {
        let ghost before = group@;
        let done = group.nodes[self.slot].shut_down();
        proof {
            assert(group@ =~= before.with_node(self.slot(), self.node(before).shut()));
        }
        done
    }

    /// Puts a message that was set aside under a ticket into its queue, once its time has come.
    /// `None` says that nothing is set aside under the ticket.
    pub fn release<R>(&self, group: &mut MasterMap<R>, ticket: usize) -> (res: Option<
        Progress,
    >)
        requires
            old(group).wf(),
            self.lives_in(old(group)@),
        ensures
            final(group).wf(),
            self.changes_only_its_node(old(group)@, final(group)@),
            released(self.node(old(group)@), self.node(final(group)@), ticket as int, res),
    {
        let ghost before = group@;
        let res = group.nodes[self.slot].release(ticket);
        proof {
            assert(group@ =~= before.with_node(self.slot(), self.node(group@)));
        }
        res
    }

    /// One step of the background work of the node. The lane that is favoured is looked at first.
    pub fn step<R: NetworkReliability>(
        &self,
        group: &mut MasterMap<R>,
        favoured: Lane,
    ) -> (res: Progress)
        requires
            old(group).wf(),
            self.lives_in(old(group)@),
        ensures
            final(group).wf(),
            self.changes_only_its_node(old(group)@, final(group)@),
            stepped(
                self.node(old(group)@),
                self.node(final(group)@),
                favoured,
                decoded_by(wire_reading()),
                res,
            ),
    {
        let ghost before = group@;
        let res = group.nodes[self.slot].step(favoured);
        proof {
            assert(group@ =~= before.with_node(self.slot(), self.node(group@)));
        }
        res
    }

    /// One step of the background work of the node, with a decoder of the caller's.
    pub fn step_with<R: NetworkReliability, F: Fn(&Vec<u8>) -> Option<Vec<u8>>>(
        &self,
        group: &mut MasterMap<R>,
        favoured: Lane,
        decoder: &F,
    ) -> (res: Progress)
        requires
            old(group).wf(),
            self.lives_in(old(group)@),
            forall|bytes: &Vec<u8>| #[trigger] call_requires(*decoder, (bytes,)),
        ensures
            final(group).wf(),
            self.changes_only_its_node(old(group)@, final(group)@),
            stepped(
                self.node(old(group)@),
                self.node(final(group)@),
                favoured,
                decodings(*decoder),
                res,
            ),
    {
        let ghost before = group@;
        let res = group.nodes[self.slot].step_with(favoured, decoder);
        proof {
            assert(group@ =~= before.with_node(self.slot(), self.node(group@)));
        }
        res
    }
}

/// The bytes that a message was turned into, if there are any and they are within the size
/// limit.
fn checked(encoded: Result<Vec<u8>, EncodeError>) -> (res: Result<Vec<u8>, NetworkError>)
    ensures
        match res {
            Ok(bytes) => encoded == Ok::<_, EncodeError>(bytes) && bytes@.len() <= MESSAGE_LIMIT,
            Err(error) => error == NetworkError::FailedToSerialize && (encoded is Err
                || encoded->Ok_0@.len() > MESSAGE_LIMIT),
        },
{
    match encoded {
        Ok(bytes) => {
            if bytes.len() as u64 > MESSAGE_LIMIT {
                Err(NetworkError::FailedToSerialize)
            } else {
                Ok(bytes)
            }
        },
        Err(_) => Err(NetworkError::FailedToSerialize),
    }
}

/// A handle leads to the node at its place, whichever node its key leads to. An operation on it
/// that changes its node only leaves the other nodes, the keys and the number of the group as
/// they were.
pub proof fn law_handle_leads_to_its_node<R>(
    network: MemoryNetwork,
    before: GroupView<R>,
    after: GroupView<R>,
)
    requires
        network.lives_in(before),
    ensures
        network.node(before) == before.nodes[network.slot()],
        before.nodes[network.slot()].pub_key == network.key(),
        network.changes_only_its_node(before, after) ==> {
            &&& after.registry == before.registry && after.id == before.id
            &&& after.nodes.len() == before.nodes.len()
            &&& after.nodes[network.slot()].pub_key == network.key()
            &&& forall|slot: int|
                0 <= slot < before.nodes.len() && slot != network.slot()
                    ==> #[trigger] after.nodes[slot] == before.nodes[slot]
        },
{
}

/// The outcome of a send or of an attachment is what the answer says: done, waiting with what is
/// left, or the error.
pub proof fn law_outcomes_are_what_answers_say<R>(
    send: PendingSend,
    attach: PendingAttach<R>,
    network: MemoryNetwork,
    error: NetworkError,
    slot: usize,
    ticket: usize,
)
    ensures
        outcome(Ok(Delivery::Done)) == Ok::<_, NetworkError>(DeliveryView::Done),
        outcome(Ok(Delivery::Waiting(send))) == Ok::<_, NetworkError>(DeliveryView::Waiting(send@)),
        outcome(Err(error)) == Err::<DeliveryView, _>(error),
        attachment::<R>(Ok(Attachment::Attached(network))) == Ok::<_, NetworkError>(
            AttachmentView::<R>::Attached(network.slot()),
        ),
        attachment(Ok(Attachment::Waiting(attach))) == Ok::<_, NetworkError>(
            AttachmentView::Waiting(attach@),
        ),
        attachment::<R>(Err(error)) == Err::<AttachmentView<R>, _>(error),
        standing_value(None) is None,
        standing_value(Some((slot, ticket))) == Some(
            Standing { slot: slot as int, ticket: ticket as int },
        ),
{
}

} // verus!
