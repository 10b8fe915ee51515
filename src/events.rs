//! The order in which synchronization messages are handled: each kind of
//! message has a priority, and a queue hands out the highest priority
//! first, in arrival order among equals.

use vstd::prelude::*;

verus! {

/// The kinds of message exchanged between peers.
#[derive(Clone, Copy, Debug, PartialEq, Eq)]
pub enum MessageKind {
    DiscoverPeers,
    PeerInfo,
    /// A quantum event: a state transfer, an entanglement or an
    /// interference resolution.
    QuantumEvent,
    QuantumAck,
    ProposeTransaction,
    TransactionVote,
    MetricsUpdate,
}

pub open spec fn priority_of(kind: MessageKind) -> u8 {
    match kind {
        MessageKind::QuantumEvent => 255,
        MessageKind::QuantumAck => 200,
        MessageKind::ProposeTransaction => 100,
        MessageKind::TransactionVote => 100,
        _ => 50,
    }
}

/// The priority of a message of kind `kind`.
pub fn get_priority(kind: MessageKind) -> (r: u8)
    ensures
        r == priority_of(kind),
{
    match kind {
        MessageKind::QuantumEvent => 255,
        MessageKind::QuantumAck => 200,
        MessageKind::ProposeTransaction => 100,
        MessageKind::TransactionVote => 100,
        _ => 50,
    }
}

/// The position of the first entry of highest priority.
pub open spec fn is_next<E>(q: Seq<(u8, E)>, i: int) -> bool {
    &&& 0 <= i < q.len()
    &&& forall|j: int| 0 <= j < q.len() ==> q[j].0 <= q[i].0
    &&& forall|j: int| 0 <= j < i ==> q[j].0 < q[i].0
}

/// Events `E` waiting to be handled, with their priorities.
pub struct EventQueue<E> {
    entries: Vec<(u8, E)>,
}

impl<E> EventQueue<E> {
    /// The waiting events with their priorities, in arrival order.
    pub closed spec fn pending(&self) -> Seq<(u8, E)> {
        self.entries@
    }

    /// An empty queue.
    pub fn new() -> (r: Self)
        ensures
            r.pending().len() == 0,
    {
        EventQueue { entries: Vec::new() }
    }

    /// Adds `event` with `priority` behind everything that arrived before.
    pub fn push(&mut self, priority: u8, event: E)
        ensures
            final(self).pending() == old(self).pending().push((priority, event)),
    {
        self.entries.push((priority, event));
    }

    /// The number of waiting events.
    pub fn len(&self) -> (r: usize)
        ensures
            r == self.pending().len(),
    {
        self.entries.len()
    }

    /// Takes out the event to handle next: the earliest of those with the
    /// highest priority.
    pub fn pop(&mut self) -> (r: Option<(u8, E)>)
        ensures
            old(self).pending().len() == 0 ==> r is None && final(self).pending() == old(
                self,
            ).pending(),
            old(self).pending().len() > 0 ==> exists|i: int|
                is_next(old(self).pending(), i) && r == Some(old(self).pending()[i])
                    && final(self).pending() == old(self).pending().remove(i),
    {
        let n = self.entries.len();
        if n == 0 {
            return None;
        }
        let ghost q = self.entries@;
        let mut best: usize = 0;
        let mut i: usize = 1;
        while i < n
            invariant
                q == self.entries@,
                n == q.len(),
                best < i <= n,
                forall|j: int| 0 <= j < i ==> q[j].0 <= q[best as int].0,
                forall|j: int| 0 <= j < best ==> q[j].0 < q[best as int].0,
            decreases n - i,
        {
            if self.entries[i].0 > self.entries[best].0 {
                best = i;
            }
            i = i + 1;
        }
        let e = self.entries.remove(best);
        assert(is_next(q, best as int));
        Some(e)
    }
}

/// What comes out of the queue has a priority no lower than anything left
/// in it, and nothing of the same priority that arrived earlier is left.
pub proof fn lemma_pop_respects_priority<E>(q: Seq<(u8, E)>, i: int)
    requires
        is_next(q, i),
    ensures
        forall|j: int| 0 <= j < q.remove(i).len() ==> q.remove(i)[j].0 <= q[i].0,
        forall|j: int| 0 <= j < i ==> q.remove(i)[j].0 < q[i].0,
{
    assert forall|j: int| 0 <= j < q.remove(i).len() implies q.remove(i)[j].0 <= q[i].0 by {
        if j < i {
            assert(q.remove(i)[j] == q[j]);
        } else {
            assert(q.remove(i)[j] == q[j + 1]);
        }
    }
    assert forall|j: int| 0 <= j < i implies q.remove(i)[j].0 < q[i].0 by {
        assert(q.remove(i)[j] == q[j]);
    }
}

} // verus!
