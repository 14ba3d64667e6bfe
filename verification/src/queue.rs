//! The queue of the events that the sweep has yet to visit.

use crate::event::{
    event_before, events_wf, first_index, ids_within, is_first_index, lemma_event_order_total,
    lemma_event_order_transitive, lemma_first_index, EventArena, SweepEvent,
};
use vstd::prelude::*;

verus! {

/// Whether `e` is pending and comes before every other pending event.
pub open spec fn is_first(ev: Seq<SweepEvent>, pending: Seq<usize>, e: usize) -> bool {
    &&& pending.contains(e)
    &&& forall|i: int|
        0 <= i < pending.len() && #[trigger] pending[i] != e ==> event_before(
            ev,
            e as int,
            pending[i] as int,
        )
}

/// The pending event that the sweep visits next.
pub open spec fn first_event(ev: Seq<SweepEvent>, pending: Seq<usize>) -> usize {
    choose|e: usize| is_first(ev, pending, e)
}

/// At most one pending event comes before all others.
pub proof fn lemma_first_event(ev: Seq<SweepEvent>, pending: Seq<usize>, e: usize)
    requires
        events_wf(ev),
        ids_within(pending, ev.len()),
        is_first(ev, pending, e),
    ensures
        first_event(ev, pending) == e,
{
    let c = first_event(ev, pending);
    assert(is_first(ev, pending, c));
    if c != e {
        let i = choose|i: int| 0 <= i < pending.len() && pending[i] == e;
        let j = choose|j: int| 0 <= j < pending.len() && pending[j] == c;
        assert(pending[i] != c && pending[j] != e);
        lemma_event_order_total(ev, e as int, c as int);
    }
}

proof fn lemma_prefix_has_first(ev: Seq<SweepEvent>, pending: Seq<usize>, k: nat) -> (e: usize)
    requires
        events_wf(ev),
        ids_within(pending, ev.len()),
        1 <= k <= pending.len(),
    ensures
        is_first(ev, pending.take(k as int), e),
    decreases k,
{
    let prefix = pending.take(k as int);
    let last = pending[k - 1];
    assert(prefix[k - 1] == last);
    if k == 1 {
        last
    } else {
        let shorter = pending.take(k - 1);
        let m = lemma_prefix_has_first(ev, pending, (k - 1) as nat);
        let w = choose|w: int| 0 <= w < shorter.len() && shorter[w] == m;
        assert(prefix[w] == m);
        assert(pending[w] == m && pending[k - 1] == last);
        lemma_event_order_total(ev, last as int, m as int);
        if event_before(ev, last as int, m as int) {
            assert forall|i: int| 0 <= i < prefix.len() && #[trigger] prefix[i] != last implies event_before(
                ev,
                last as int,
                prefix[i] as int,
            ) by {
                assert(prefix[i] == shorter[i]);
                assert(prefix[i] == pending[i]);
                if shorter[i] != m {
                    lemma_event_order_transitive(ev, last as int, m as int, shorter[i] as int);
                }
            }
            last
        } else {
            assert forall|i: int| 0 <= i < prefix.len() && #[trigger] prefix[i] != m implies event_before(
                ev,
                m as int,
                prefix[i] as int,
            ) by {
                if i < k - 1 {
                    assert(prefix[i] == shorter[i]);
                }
            }
            m
        }
    }
}

/// A queue that is not empty has a first event: `first_event` names it.
pub proof fn lemma_queue_has_first(ev: Seq<SweepEvent>, pending: Seq<usize>)
    requires
        events_wf(ev),
        ids_within(pending, ev.len()),
        pending.len() > 0,
    ensures
        is_first(ev, pending, first_event(ev, pending)),
{
    let e = lemma_prefix_has_first(ev, pending, pending.len());
    assert(pending.take(pending.len() as int) =~= pending);
}

/// The events that wait to be visited, in the order in which they were
/// queued. `pop` hands out the one that comes first in sweep order.
pub struct EventQueue {
    pending: Vec<usize>,
}

impl View for EventQueue {
    type V = Seq<usize>;

    closed spec fn view(&self) -> Seq<usize> {
        self.pending@
    }
}

impl EventQueue {
    pub fn new() -> (queue: EventQueue)
        ensures
            queue@ == Seq::<usize>::empty(),
    {
        EventQueue { pending: Vec::new() }
    }

    pub fn len(&self) -> (n: usize)
        ensures
            n == self@.len(),
    {
        self.pending.len()
    }

    pub fn is_empty(&self) -> (b: bool)
        ensures
            b == (self@.len() == 0),
    {
        self.pending.len() == 0
    }

    /// Whether every pending identifier names one of the first `n` events.
    pub fn all_within(&self, n: usize) -> (ok: bool)
        ensures
            ok == ids_within(self@, n as nat),
    {
        let mut i: usize = 0;
        while i < self.pending.len()
            invariant
                0 <= i <= self.pending@.len(),
                forall|k: int| 0 <= k < i ==> #[trigger] self.pending@[k] < n,
            decreases self.pending@.len() - i,
        {
            if self.pending[i] >= n {
                return false;
            }
            i = i + 1;
        }
        true
    }

    /// Queues the event with identifier `id`.
    pub fn push(&mut self, id: usize)
        ensures
            final(self)@ == old(self)@.push(id),
    {
        self.pending.push(id);
    }

    /// Takes out the pending event that comes first in sweep order.
    pub fn pop(&mut self, arena: &EventArena) -> (r: Option<usize>)
        requires
            events_wf(arena@),
            ids_within(old(self)@, arena@.len()),
        ensures
            old(self)@.len() == 0 ==> r is None && final(self)@ == old(self)@,
            old(self)@.len() > 0 ==> r == Some(first_event(arena@, old(self)@)),
            r is Some ==> is_first(arena@, old(self)@, r.unwrap()) && final(self)@ == old(
                self,
            )@.remove(first_index(old(self)@, r.unwrap())),
            r is Some ==> r.unwrap() < arena@.len() && is_first_index(
                old(self)@,
                r.unwrap(),
                first_index(old(self)@, r.unwrap()),
            ),
            ids_within(final(self)@, arena@.len()),
    {
        let n: usize = self.pending.len();
        if n == 0 {
            return None;
        }
        let mut best: usize = 0;
        let mut i: usize = 1;
        while i < n
            invariant
                events_wf(arena@),
                ids_within(self.pending@, arena@.len()),
                n == self.pending@.len(),
                0 <= best < i <= n,
                forall|j: int|
                    0 <= j < i && #[trigger] self.pending@[j] != self.pending@[best as int]
                        ==> event_before(
                        arena@,
                        self.pending@[best as int] as int,
                        self.pending@[j] as int,
                    ),
                forall|j: int| 0 <= j < best ==> #[trigger] self.pending@[j] != self.pending@[best as int],
            decreases n - i,
        {
            let ghost prior = self.pending@[best as int];
            let ghost next = self.pending@[i as int];
            if arena.precedes(self.pending[i], self.pending[best]) {
                proof {
                    lemma_event_order_total(arena@, next as int, prior as int);
                    assert forall|j: int|
                        0 <= j < i + 1 && #[trigger] self.pending@[j] != next implies event_before(
                        arena@,
                        next as int,
                        self.pending@[j] as int,
                    ) by {
                        if self.pending@[j] != prior {
                            lemma_event_order_transitive(
                                arena@,
                                next as int,
                                prior as int,
                                self.pending@[j] as int,
                            );
                        }
                    }
                    assert forall|j: int| 0 <= j < i implies #[trigger] self.pending@[j]
                        != next by {
                        if self.pending@[j] == next && self.pending@[j] != prior {
                            lemma_event_order_total(arena@, prior as int, next as int);
                        }
                    }
                }
                best = i;
            } else {
                proof {
                    lemma_event_order_total(arena@, next as int, prior as int);
                }
            }
            i = i + 1;
        }
        let e: usize = self.pending.remove(best);
        proof {
            assert(old(self)@[best as int] == e);
            assert(is_first(arena@, old(self)@, e));
            lemma_first_event(arena@, old(self)@, e);
            assert(is_first_index(old(self)@, e, best as int));
            lemma_first_index(old(self)@, e, best as int);
            assert forall|j: int| 0 <= j < self@.len() implies (#[trigger] self@[j]) < arena@.len() by {
                if j < best {
                    assert(self@[j] == old(self)@[j]);
                } else {
                    assert(self@[j] == old(self)@[j + 1]);
                }
            }
        }
        Some(e)
    }
}

} // verus!
