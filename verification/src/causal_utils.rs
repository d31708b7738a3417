//! An in-memory event store: an append-only event vector plus an optional
//! snapshot of the replica state.

use vstd::prelude::*;

verus! {

use crate::causal_core::CRDT;
use crate::causal_core::Event;
use crate::causal_core::EventStore;
use crate::causal_core::ReplicaState;
use crate::causal_core::SeqNr;
use crate::causal_core::dup_event;
use crate::causal_core::ev_matches;
use crate::causal_core::event_wf;
use crate::causal_core::events_from;
use crate::causal_core::events_match;
use crate::causal_core::events_wf;

/// The in-memory event store.
pub struct InMemory<C: CRDT> {
    pub last_snapshot: Option<ReplicaState<C>>,
    pub events: Vec<Event<C::Operation>>,
}

impl<C: CRDT> InMemory<C> {
    /// An empty store: no events, no snapshot.
    pub fn create() -> (r: InMemory<C>)
        ensures
            r.events_spec() == Seq::<Event<C::Operation>>::empty(),
            r.snapshot_spec() is None,
    {
        InMemory { last_snapshot: None, events: Vec::new() }
    }
}

impl<C: CRDT> EventStore<C> for InMemory<C> {
    closed spec fn events_spec(&self) -> Seq<Event<C::Operation>> {
        self.events@
    }

    closed spec fn snapshot_spec(&self) -> Option<ReplicaState<C>> {
        self.last_snapshot
    }

    fn save_snapshot(&mut self, state: &ReplicaState<C>) {
        let copy = state.dup_state();
        self.last_snapshot = Some(copy);
    }

    fn load_snapshot(&self) -> (r: Option<ReplicaState<C>>) {
        match &self.last_snapshot {
            Some(last_snapshot) => Some(last_snapshot.clone()),
            None => None,
        }
    }

    fn save_events(&mut self, events: Vec<Event<C::Operation>>) {
        let mut incoming = events;
        self.events.append(&mut incoming);
    }

    fn load_events(&self, start_seq_nr: SeqNr) -> (r: Vec<Event<C::Operation>>) {
        let n = self.events.len();
        let mut out: Vec<Event<C::Operation>> = Vec::new();
        let mut i: usize = 0;
        while i < n
            invariant
                n == self.events.len(),
                0 <= i <= n,
                events_match::<C>(
                    out@,
                    events_from::<C>(self.events@.take(i as int), start_seq_nr),
                ),
                events_wf::<C>(self.events@) ==> events_wf::<C>(out@),
            decreases n - i,
        {
            proof {
                assert(self.events@.take(i as int + 1).drop_last() =~= self.events@.take(
                    i as int,
                ));
                assert(self.events@.take(i as int + 1).last() == self.events@[i as int]);
            }
            let e = &self.events[i];
            let ghost pre_out = out@;
            if e.local_seq_nr >= start_seq_nr {
                let copy = dup_event::<C>(e);
                proof {
                    C::op_matches_laws(self.events@[i as int].data, copy.data, copy.data);
                }
                out.push(copy);
            }
            proof {
                let keep = events_from::<C>(self.events@.take(i as int), start_seq_nr);
                let keep2 = events_from::<C>(self.events@.take(i as int + 1), start_seq_nr);
                if self.events@[i as int].local_seq_nr >= start_seq_nr {
                    assert(keep2 == keep.push(self.events@[i as int]));
                    assert forall|idx: int|
                        0 <= idx < out@.len() implies ev_matches::<C>(
                        #[trigger] out@[idx],
                        keep2[idx],
                    ) by {
                        if idx < out@.len() - 1 {
                            assert(out@[idx] == pre_out[idx]);
                            assert(keep2[idx] == keep[idx]);
                        } else {
                            assert(keep2[idx] == self.events@[i as int]);
                        }
                    }
                    if events_wf::<C>(self.events@) {
                        assert(event_wf::<C>(self.events@[i as int]));
                    }
                } else {
                    assert(keep2 == keep);
                }
            }
            i = i + 1;
        }
        proof {
            assert(self.events@.take(n as int) =~= self.events@);
        }
        out
    }
}

} // verus!
