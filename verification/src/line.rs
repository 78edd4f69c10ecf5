//! The mathematical model of a bounded queue and of those who wait to get into it.

use vstd::prelude::*;

verus! {

/// The number of items that a queue has room for.
pub const QUEUE_CAPACITY: usize = 128;

/// A first-in, first-out line. Its first [`QUEUE_CAPACITY`] items are in the queue; behind them
/// stand the items whose senders wait for room. Every receipt lets the sender through that has
/// waited longest.
#[verifier::ext_equal]
pub struct Line<M> {
    /// The items, the oldest first.
    pub items: Seq<M>,
    /// For each item that has no room, in order, the ticket by which its sender asks for it.
    pub senders: Seq<Option<int>>,
    /// The tickets of the items that got room and were not asked for since.
    pub arrived: Set<int>,
}

impl<M> Line<M> {
    /// A line in which nothing stands.
    pub open spec fn empty() -> Line<M> {
        Line { items: Seq::empty(), senders: Seq::empty(), arrived: Set::empty() }
    }

    /// Whether an item gets into the queue at once.
    pub open spec fn has_room(self) -> bool {
        self.items.len() < QUEUE_CAPACITY
    }

    /// Whether a ticket is held by a sender.
    pub open spec fn in_use(self, ticket: int) -> bool {
        self.senders.contains(Some(ticket)) || self.arrived.contains(ticket)
    }

    /// The line after an item has joined it; the ticket counts only where there is no room.
    pub open spec fn joined(self, item: M, ticket: Option<int>) -> Line<M> {
        Line {
            items: self.items.push(item),
            senders: if self.has_room() {
                self.senders
            } else {
                self.senders.push(ticket)
            },
            ..self
        }
    }

    /// The line after its oldest item was received.
    pub open spec fn advanced(self) -> Line<M> {
        Line {
            items: self.items.drop_first(),
            senders: if self.senders.len() > 0 {
                self.senders.drop_first()
            } else {
                self.senders
            },
            arrived: if self.senders.len() > 0 && self.senders[0] is Some {
                self.arrived.insert(self.senders[0]->0)
            } else {
                self.arrived
            },
        }
    }

    /// The line after all its items were received.
    pub open spec fn cleared(self) -> Line<M> {
        Line {
            items: Seq::empty(),
            senders: Seq::empty(),
            arrived: self.arrived.union(Set::new(|ticket: int| self.senders.contains(Some(ticket)))),
        }
    }

    /// The line after a sender was told that its item got room.
    pub open spec fn acknowledged(self, ticket: int) -> Line<M> {
        Line { arrived: self.arrived.remove(ticket), ..self }
    }

    /// What holds of every line: senders wait exactly for the items that have no room, and no
    /// two senders hold the same ticket.
    pub open spec fn valid(self) -> bool {
        &&& self.senders.len() == if self.has_room() {
            0
        } else {
            self.items.len() - QUEUE_CAPACITY
        }
        &&& forall|i: int, j: int|
            0 <= i < j < self.senders.len() && self.senders[i] is Some ==> #[trigger] self.senders[i]
                != #[trigger] self.senders[j]
        &&& forall|i: int|
            0 <= i < self.senders.len() ==> (#[trigger] self.senders[i] matches Some(ticket)
                ==> !self.arrived.contains(ticket))
    }

    /// The line after some of its oldest items were received.
    pub open spec fn advanced_by(self, n: nat) -> Line<M>
        decreases n,
    {
        if n == 0 {
            self
        } else {
            self.advanced_by((n - 1) as nat).advanced()
        }
    }
}

/// Receiving keeps a line valid, and so does an item that joins with a ticket that is not in
/// use, and a sender that is told.
pub proof fn law_line_stays_valid<M>(line: Line<M>, item: M, ticket: Option<int>, told: int)
    requires
        line.valid(),
        ticket matches Some(t) ==> !line.in_use(t),
    ensures
        line.joined(item, ticket).valid(),
        line.items.len() > 0 ==> line.advanced().valid(),
        line.cleared().valid(),
        line.acknowledged(told).valid(),
{
}

/// A ticket stays in use, whatever happens to its line, until its sender is told.
pub proof fn law_ticket_stays_in_use<M>(
    line: Line<M>,
    held: int,
    item: M,
    ticket: Option<int>,
    told: int,
)
    requires
        line.in_use(held),
    ensures
        line.joined(item, ticket).in_use(held),
        line.advanced().in_use(held),
        line.cleared().in_use(held),
        told != held ==> line.acknowledged(told).in_use(held),
{
    if line.senders.contains(Some(held)) {
        let i = line.senders.index_of(Some(held));
        assert(line.joined(item, ticket).senders[i] == Some(held));
        if i > 0 {
            assert(line.advanced().senders[i - 1] == Some(held));
        }
    }
}

/// To receive everything is to receive the oldest item and then everything else.
pub proof fn law_cleared_one_by_one<M>(line: Line<M>)
    requires
        line.items.len() > 0,
    ensures
        line.advanced().cleared() == line.cleared(),
{
    if line.senders.len() > 0 {
        let rest = line.senders.drop_first();
        assert forall|ticket: int| line.senders.contains(Some(ticket)) <==> line.senders[0] == Some(
            ticket,
        ) || rest.contains(Some(ticket)) by {
            if rest.contains(Some(ticket)) {
                let i = rest.index_of(Some(ticket));
                assert(line.senders[i + 1] == Some(ticket));
            }
            if line.senders.contains(Some(ticket)) {
                let i = line.senders.index_of(Some(ticket));
                if i > 0 {
                    assert(rest[i - 1] == Some(ticket));
                }
            }
        }
    }
    assert(line.advanced().cleared() =~= line.cleared());
}

/// A sender that waits is let through by as many receipts as there are senders up to it, and not
/// before: nobody overtakes it.
pub proof fn law_senders_are_let_through_in_order<M>(line: Line<M>, place: int, n: nat)
    requires
        line.valid(),
        0 <= place < line.senders.len(),
        line.senders[place] is Some,
        n <= line.items.len(),
    ensures
        line.advanced_by(n).arrived.contains(line.senders[place]->0) <==> n > place,
{
    lemma_advanced_by(line, n);
}

proof fn lemma_advanced_by<M>(line: Line<M>, n: nat)
    requires
        line.valid(),
        n <= line.items.len(),
    ensures
        line.advanced_by(n).valid(),
        line.advanced_by(n).items =~= line.items.skip(n as int),
        line.advanced_by(n).senders =~= if n <= line.senders.len() {
            line.senders.skip(n as int)
        } else {
            Seq::empty()
        },
        forall|ticket: int| #[trigger]
            line.advanced_by(n).arrived.contains(ticket) <==> line.arrived.contains(ticket) || exists|
                i: int,
            | 0 <= i < n && i < line.senders.len() && #[trigger] line.senders[i] == Some(ticket),
    decreases n,
{
    if n > 0 {
        lemma_advanced_by(line, (n - 1) as nat);
        let earlier = line.advanced_by((n - 1) as nat);
        law_line_stays_valid(earlier, earlier.items[0], None, 0);
    }
}

} // verus!
