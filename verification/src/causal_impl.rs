//! A grow-only counter: the simplest operation-based CRDT.

use vstd::prelude::*;

verus! {

use crate::causal_core::CRDT;
use crate::causal_core::Event;
use crate::causal_core::ReplicaId;
use crate::causal_core::batch_crdt;
use crate::causal_core::batch_crdt_req;

/// The one command a counter accepts.
#[derive(Clone, Copy, PartialEq, Eq, Structural, Debug)]
pub enum CounterCommand {
    Increment,
}

/// A grow-only counter.  Each `Increment` becomes an event carrying the
/// amount 1; applying an event adds its amount.
pub struct Counter {
    value: u64,
}

impl CRDT for Counter {
    type State = u64;

    type Command = CounterCommand;

    type Operation = u64;

    type Model = u64;

    closed spec fn wf(&self) -> bool {
        true
    }

    closed spec fn model(&self) -> u64 {
        self.value
    }

    open spec fn op_wf(op: u64) -> bool {
        true
    }

    open spec fn op_matches(a: u64, b: u64) -> bool {
        a == b
    }

    open spec fn default_req(replica_id: Option<ReplicaId>) -> bool {
        true
    }

    open spec fn default_model(replica_id: Option<ReplicaId>) -> u64 {
        0
    }

    open spec fn query_ens(&self, result: u64) -> bool {
        result == self.model()
    }

    open spec fn prepare_req(&self, command: CounterCommand) -> bool {
        true
    }

    open spec fn prepare_ens(&self, command: CounterCommand, op: u64) -> bool {
        op == 1
    }

    open spec fn effect_req(m: u64, op: u64) -> bool {
        m + op <= u64::MAX
    }

    open spec fn effect_model(m: u64, version: Map<i64, u64>, op: u64) -> u64 {
        (m + op) as u64
    }

    proof fn op_matches_laws(a: u64, b: u64, c: u64) {
    }

    fn default(replica_id: Option<ReplicaId>) -> (r: Self) {
        Counter { value: 0 }
    }

    fn query(&self) -> (r: u64) {
        self.value
    }

    fn prepare(&self, command: &CounterCommand) -> (op: u64) {
        1
    }

    fn effect(&mut self, event: &Event<u64>) {
        self.value = self.value + event.data;
    }

    fn dup(&self) -> (r: Self) {
        Counter { value: self.value }
    }

    fn dup_op(op: &u64) -> (r: u64) {
        *op
    }
}

/// The amount carried by a batch of counter events.
pub open spec fn counter_sum(events: Seq<Event<u64>>) -> int
    decreases events.len(),
{
    if events.len() == 0 {
        0
    } else {
        counter_sum(events.drop_last()) + events.last().data
    }
}

/// Applying a batch of counter events adds exactly the batch's sum.
pub proof fn lemma_counter_batch_is_sum(m: u64, events: Seq<Event<u64>>)
    ensures
        batch_crdt::<Counter>(m, events) == m + counter_sum(events)
            || m + counter_sum(events) > u64::MAX,
    decreases events.len(),
{
    if events.len() > 0 {
        lemma_counter_batch_is_sum(m, events.drop_last());
    }
}

/// A batch that is permitted stepwise stays within the counter's range and
/// lands exactly on the starting value plus its sum.
pub proof fn lemma_counter_batch_exact(m: u64, events: Seq<Event<u64>>)
    requires
        batch_crdt_req::<Counter>(m, events),
    ensures
        m + counter_sum(events) <= u64::MAX,
        batch_crdt::<Counter>(m, events) == m + counter_sum(events),
    decreases events.len(),
{
    if events.len() > 0 {
        lemma_counter_batch_exact(m, events.drop_last());
    }
}

/// Convergence of the counter: two replicas that applied the same events,
/// in any order, read the same value.
pub proof fn lemma_counter_convergence(
    m: u64,
    events1: Seq<Event<u64>>,
    events2: Seq<Event<u64>>,
)
    requires
        events1.to_multiset() == events2.to_multiset(),
        batch_crdt_req::<Counter>(m, events1),
        batch_crdt_req::<Counter>(m, events2),
    ensures
        batch_crdt::<Counter>(m, events1) == batch_crdt::<Counter>(m, events2),
{
    lemma_counter_batch_exact(m, events1);
    lemma_counter_batch_exact(m, events2);
    lemma_counter_sum_permutation(events1, events2);
}

/// Removing one event takes exactly its amount out of the sum.
proof fn lemma_counter_sum_remove(events: Seq<Event<u64>>, i: int)
    requires
        0 <= i < events.len(),
    ensures
        counter_sum(events.remove(i)) == counter_sum(events) - events[i].data,
    decreases events.len(),
{
    if i == events.len() - 1 {
        assert(events.remove(i) =~= events.drop_last());
    } else {
        assert(events.remove(i).drop_last() =~= events.drop_last().remove(i));
        assert(events.remove(i).last() == events.last());
        lemma_counter_sum_remove(events.drop_last(), i);
    }
}

/// Batches with the same events, in any order, have the same sum.  This is
/// the convergence argument for the counter: two replicas that applied the
/// same set of events read the same value.
pub proof fn lemma_counter_sum_permutation(a: Seq<Event<u64>>, b: Seq<Event<u64>>)
    requires
        a.to_multiset() == b.to_multiset(),
    ensures
        counter_sum(a) == counter_sum(b),
    decreases a.len(),
{
    a.to_multiset_ensures();
    b.to_multiset_ensures();
    if a.len() == 0 {
        assert(b.to_multiset().len() == 0);
        assert(b.len() == 0);
    } else {
        let x = a.last();
        assert(a.to_multiset().contains(x));
        assert(b.to_multiset().contains(x));
        assert(b.contains(x));
        let i = choose|i: int| 0 <= i < b.len() && b[i] == x;
        assert(a.drop_last() =~= a.remove(a.len() - 1));
        vstd::seq_lib::to_multiset_remove(a, a.len() - 1);
        vstd::seq_lib::to_multiset_remove(b, i);
        assert(a.drop_last().to_multiset() == b.remove(i).to_multiset());
        lemma_counter_sum_permutation(a.drop_last(), b.remove(i));
        lemma_counter_sum_remove(b, i);
    }
}

} // verus!

