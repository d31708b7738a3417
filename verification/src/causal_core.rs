//! The replica state machine: events, the CRDT and event-store interfaces,
//! and the `process_*` transitions that drive replication.

use vstd::prelude::*;

verus! {

use crate::causal_time::VectorClock;
use crate::causal_time::ClockComparison;
use crate::causal_time::clock_at;
use crate::causal_time::compare_spec;
use crate::causal_time::vc_merge;
use crate::causal_time::max_u64;
use crate::causal_time::vc_le;

/// Identifier of a replica; totally ordered.  The value -1 is reserved as a
/// sentinel owner and never identifies a real replica.
pub type ReplicaId = i64;

/// Monotone, non-negative sequence number; 0 means "nothing yet".
pub type SeqNr = u64;

/// The logical time carried by replicas and events.
pub type VTime = VectorClock;

/// Per-peer high-water mark: for each known peer, the highest origin
/// sequence number applied locally.  A missing peer counts as zero.
pub struct ObservedMap {
    vector: VectorClock,
}

impl View for ObservedMap {
    type V = Map<i64, u64>;

    closed spec fn view(&self) -> Map<i64, u64> {
        self.vector@
    }
}

impl ObservedMap {
    /// Well-formed: canonical association list, no zero entries.
    pub closed spec fn wf(&self) -> bool {
        self.vector.wf()
    }

    /// The empty map.
    pub fn new() -> (r: ObservedMap)
        ensures
            r.wf(),
            r@ == Map::<i64, u64>::empty(),
            forall|k: i64| #![auto] clock_at(r@, k) == 0,
    {
        ObservedMap { vector: VectorClock::init() }
    }

    /// The sequence number recorded for `replica_id` (zero when absent).
    pub fn get(&self, replica_id: ReplicaId) -> (r: u64)
        ensures
            r == clock_at(self@, replica_id),
    {
        self.vector.get(replica_id)
    }

    /// Record `seq_nr` for `replica_id`.
    pub fn insert(&mut self, replica_id: ReplicaId, seq_nr: SeqNr)
        requires
            old(self).wf(),
            seq_nr >= 1,
        ensures
            final(self).wf(),
            final(self)@ == old(self)@.insert(replica_id, seq_nr),
    {
        self.vector.set_entry(replica_id, seq_nr);
    }

    /// A present identifier always maps to a non-zero sequence number.
    pub proof fn lemma_nonzero_dom(&self)
        requires
            self.wf(),
        ensures
            forall|k: i64| #![auto] self@.dom().contains(k) <==> clock_at(self@, k) >= 1,
    {
        self.vector.lemma_nonzero_dom();
    }
}

impl Clone for ObservedMap {
    /// An exact copy: the views coincide.
    fn clone(&self) -> (r: Self)
        ensures
            r@ == self@,
            self.wf() ==> r.wf(),
    {
        ObservedMap { vector: self.vector.clone() }
    }
}

/// An immutable record of one state transition.  `origin` and
/// `origin_seq_nr` identify the event globally; `local_seq_nr` is this
/// replica's position for it; `version` is the origin's clock at emission.
pub struct Event<OP> {
    pub origin: ReplicaId,
    pub origin_seq_nr: SeqNr,
    pub local_seq_nr: SeqNr,
    pub version: VTime,
    pub data: OP,
}

/// An operation-based CRDT.
///
/// Executable behaviour is pinned to a mathematical `Model` of the state:
/// `effect` must transform the model by `effect_model`, and `query` must
/// agree with the model through `query_ens`.
pub trait CRDT: Sized {
    /// What `query` returns.
    type State;

    /// What users ask for.
    type Command;

    /// What events carry.
    type Operation;

    /// The mathematical model of the CRDT state.
    type Model;

    /// Internal well-formedness of the executable state.
    spec fn wf(&self) -> bool;

    /// The model of the current state.
    spec fn model(&self) -> Self::Model;

    /// Well-formedness of an operation (clocks it carries, and the like).
    spec fn op_wf(op: Self::Operation) -> bool;

    /// Two operations carry the same information.
    spec fn op_matches(a: Self::Operation, b: Self::Operation) -> bool;

    /// When `default` may be called.
    spec fn default_req(replica_id: Option<ReplicaId>) -> bool;

    /// The model of the identity element.
    spec fn default_model(replica_id: Option<ReplicaId>) -> Self::Model;

    /// How a query result relates to the model.
    spec fn query_ens(&self, result: Self::State) -> bool;

    /// When `prepare` may be called.
    spec fn prepare_req(&self, command: Self::Command) -> bool;

    /// How a prepared operation relates to the state and the command.
    spec fn prepare_ens(&self, command: Self::Command, op: Self::Operation) -> bool;

    /// When an operation may be applied to a state with model `m`.
    spec fn effect_req(m: Self::Model, op: Self::Operation) -> bool;

    /// The model after applying an operation carried by an event with
    /// version view `version`.
    spec fn effect_model(m: Self::Model, version: Map<i64, u64>, op: Self::Operation)
        -> Self::Model;

    /// `op_matches` is an equivalence relation.
    proof fn op_matches_laws(a: Self::Operation, b: Self::Operation, c: Self::Operation)
        ensures
            Self::op_matches(a, a),
            Self::op_matches(a, b) ==> Self::op_matches(b, a),
            Self::op_matches(a, b) && Self::op_matches(b, c) ==> Self::op_matches(a, c),
    ;

    /// Creates the default/identity of the CRDT.
    fn default(replica_id: Option<ReplicaId>) -> (r: Self)
        requires
            Self::default_req(replica_id),
        ensures
            r.wf(),
            r.model() == Self::default_model(replica_id),
    ;

    /// Queries the state of the CRDT.
    fn query(&self) -> (r: Self::State)
        requires
            self.wf(),
        ensures
            self.query_ens(r),
    ;

    /// Turns a user command into the operation the event will carry.
    /// Reads the state and must not change it.
    fn prepare(&self, command: &Self::Command) -> (op: Self::Operation)
        requires
            self.wf(),
            self.prepare_req(*command),
        ensures
            self.prepare_ens(*command, op),
            Self::op_wf(op),
    ;

    /// Applies an arriving event to the state.
    fn effect(&mut self, event: &Event<Self::Operation>)
        requires
            old(self).wf(),
            Self::op_wf(event.data),
            event.version.wf(),
            Self::effect_req(old(self).model(), event.data),
        ensures
            final(self).wf(),
            final(self).model() == Self::effect_model(
                old(self).model(),
                event.version@,
                event.data,
            ),
    ;

    /// An exact copy of the state.
    fn dup(&self) -> (r: Self)
        ensures
            self.wf() ==> r.wf() && r.model() == self.model(),
    ;

    /// An exact copy of an operation.
    fn dup_op(op: &Self::Operation) -> (r: Self::Operation)
        ensures
            Self::op_matches(*op, r),
            Self::op_wf(*op) ==> Self::op_wf(r),
    ;
}

/// A well-formed event: numbered from one, with a well-formed clock and
/// payload.
pub open spec fn event_wf<C: CRDT>(e: Event<C::Operation>) -> bool {
    &&& e.version.wf()
    &&& e.origin_seq_nr >= 1
    &&& e.local_seq_nr >= 1
    &&& C::op_wf(e.data)
}

/// Two events carry the same information.
pub open spec fn ev_matches<C: CRDT>(a: Event<C::Operation>, b: Event<C::Operation>) -> bool {
    &&& a.origin == b.origin
    &&& a.origin_seq_nr == b.origin_seq_nr
    &&& a.local_seq_nr == b.local_seq_nr
    &&& a.version@ == b.version@
    &&& C::op_matches(a.data, b.data)
}

/// Two event sequences match elementwise.
pub open spec fn events_match<C: CRDT>(
    a: Seq<Event<C::Operation>>,
    b: Seq<Event<C::Operation>>,
) -> bool {
    a.len() == b.len() && forall|i: int|
        0 <= i < a.len() ==> ev_matches::<C>(#[trigger] a[i], b[i])
}

/// Every event in the sequence is well-formed.
pub open spec fn events_wf<C: CRDT>(s: Seq<Event<C::Operation>>) -> bool {
    forall|i: int| 0 <= i < s.len() ==> event_wf::<C>(#[trigger] s[i])
}

/// An exact copy of an event.
pub fn dup_event<C: CRDT>(event: &Event<C::Operation>) -> (r: Event<C::Operation>)
    ensures
        ev_matches::<C>(*event, r),
        event_wf::<C>(*event) ==> event_wf::<C>(r),
        r.version.wf() <== event.version.wf(),
{
    Event {
        origin: event.origin,
        origin_seq_nr: event.origin_seq_nr,
        local_seq_nr: event.local_seq_nr,
        version: event.version.clone(),
        data: C::dup_op(&event.data),
    }
}

/// The state a replica holds in memory.
pub struct ReplicaState<C: CRDT> {
    pub id: ReplicaId,
    pub seq_nr: SeqNr,
    pub version: VTime,
    pub observed: ObservedMap,
    pub crdt: C,
}

/// Two replica states carry the same information.
pub open spec fn state_matches<C: CRDT>(a: ReplicaState<C>, b: ReplicaState<C>) -> bool {
    &&& a.id == b.id
    &&& a.seq_nr == b.seq_nr
    &&& a.version@ == b.version@
    &&& a.observed@ == b.observed@
    &&& a.crdt.model() == b.crdt.model()
}

/// A sequence filtered by a predicate, keeping order.
pub open spec fn seq_filter_by<A>(s: Seq<A>, p: spec_fn(A) -> bool) -> Seq<A>
    decreases s.len(),
{
    if s.len() == 0 {
        Seq::empty()
    } else if p(s.last()) {
        seq_filter_by(s.drop_last(), p).push(s.last())
    } else {
        seq_filter_by(s.drop_last(), p)
    }
}

/// An abstract, append-only event log with an optional snapshot.
pub trait EventStore<C: CRDT>: Sized {
    /// The events stored, in append order.
    spec fn events_spec(&self) -> Seq<Event<C::Operation>>;

    /// The snapshot stored, if any.
    spec fn snapshot_spec(&self) -> Option<ReplicaState<C>>;

    /// Stores a copy of `state` as the snapshot.
    fn save_snapshot(&mut self, state: &ReplicaState<C>)
        requires
            state.wf(),
        ensures
            final(self).events_spec() == old(self).events_spec(),
            match final(self).snapshot_spec() {
                Some(s) => s.wf() && state_matches::<C>(s, *state),
                None => false,
            },
    ;

    /// Returns a copy of the stored snapshot, if any.
    fn load_snapshot(&self) -> (r: Option<ReplicaState<C>>)
        ensures
            match (r, self.snapshot_spec()) {
                (Some(a), Some(b)) => b.wf() ==> a.wf() && state_matches::<C>(a, b),
                (None, None) => true,
                _ => false,
            },
    ;

    /// Appends `events`, preserving order.
    fn save_events(&mut self, events: Vec<Event<C::Operation>>)
        ensures
            final(self).events_spec() == old(self).events_spec() + events@,
            final(self).snapshot_spec() == old(self).snapshot_spec(),
    ;

    /// Returns copies of the events whose local sequence number is at least
    /// `start_seq_nr`, in stored order.
    fn load_events(&self, start_seq_nr: SeqNr) -> (r: Vec<Event<C::Operation>>)
        ensures
            events_match::<C>(
                r@,
                seq_filter_by(self.events_spec(), |e: Event<C::Operation>| e.local_seq_nr
                    >= start_seq_nr),
            ),
            events_wf::<C>(self.events_spec()) ==> events_wf::<C>(r@),
    ;
}

impl<C: CRDT> ReplicaState<C> {
    /// Well-formed: all clocks canonical and the CRDT internally sound.
    pub open spec fn wf(&self) -> bool {
        self.version.wf() && self.observed.wf() && self.crdt.wf()
    }

    /// Does `event` still have to be applied here?  Kept when either the
    /// origin's sequence number is ahead of what we observed of that
    /// origin, or the event's clock is not dominated by ours.
    pub open spec fn unseen_spec(self, event: Event<C::Operation>) -> bool {
        ||| (self.observed@.dom().contains(event.origin) && event.origin_seq_nr > clock_at(
            self.observed@,
            event.origin,
        ))
        ||| compare_spec(event.version@, self.version@) == ClockComparison::Greater
        ||| compare_spec(event.version@, self.version@) == ClockComparison::Concurrent
    }

    /// Packs the given fields into a state.
    pub fn new(
        id: ReplicaId,
        seq_nr: SeqNr,
        version: VTime,
        observed: ObservedMap,
        crdt: C,
    ) -> (r: ReplicaState<C>)
        ensures
            r.id == id,
            r.seq_nr == seq_nr,
            r.version == version,
            r.observed == observed,
            r.crdt == crdt,
    {
        ReplicaState { id, seq_nr, version, observed, crdt }
    }

    /// A fresh replica: nothing produced, nothing observed.
    pub fn create(id: ReplicaId, crdt: C) -> (r: ReplicaState<C>)
        ensures
            r.id == id,
            r.seq_nr == 0,
            r.version@ == Map::<i64, u64>::empty(),
            r.observed@ == Map::<i64, u64>::empty(),
            r.crdt == crdt,
            r.version.wf(),
            r.observed.wf(),
    {
        ReplicaState::new(id, 0, VectorClock::init(), ObservedMap::new(), crdt)
    }

    /// Decides whether `event` still has to be applied here.
    pub fn unseen(&self, event: &Event<C::Operation>) -> (r: bool)
        requires
            self.wf(),
            event.version.wf(),
        ensures
            r == self.unseen_spec(*event),
    {
        let observed_seq_nr = self.observed.get(event.origin);
        proof {
            self.observed.lemma_nonzero_dom();
        }
        if observed_seq_nr >= 1 && event.origin_seq_nr > observed_seq_nr {
            true
        } else {
            let comparison = self.version_comparison(event);
            comparison == ClockComparison::Greater || comparison == ClockComparison::Concurrent
        }
    }

    /// How the event's clock compares against ours.
    fn version_comparison(&self, event: &Event<C::Operation>) -> (r: ClockComparison)
        requires
            self.wf(),
            event.version.wf(),
        ensures
            r == compare_spec(event.version@, self.version@),
    {
        event.version.compare(&self.version)
    }

    /// Replays one stored event during state recovery: merge its clock,
    /// advance the observed mark of its origin, apply its operation, and
    /// move the local sequence number up to its position.
    pub fn process_event(&mut self, event: &Event<C::Operation>) -> (r: ReplicaState<C>)
        requires
            old(self).wf(),
            event_wf::<C>(*event),
            C::effect_req(old(self).crdt.model(), event.data),
        ensures
            final(self).wf(),
            state_matches::<C>(r, *final(self)),
            r.wf(),
            final(self).id == old(self).id,
            final(self).seq_nr == max_u64(old(self).seq_nr, event.local_seq_nr),
            final(self).version@ == vc_merge(old(self).version@, event.version@),
            final(self).observed@ == old(self).observed@.insert(
                event.origin,
                max_u64(clock_at(old(self).observed@, event.origin), event.origin_seq_nr),
            ),
            final(self).crdt.model() == C::effect_model(
                old(self).crdt.model(),
                event.version@,
                event.data,
            ),
            // The observed mark now covers the event's origin position.
            clock_at(final(self).observed@, event.origin) >= event.origin_seq_nr,
            // Our clock now dominates the event's.
            vc_le(event.version@, final(self).version@),
            // The local sequence number never decreases.
            final(self).seq_nr >= old(self).seq_nr,
    {
        self.version.merge(self.id, &event.version);
        let observed_seq_nr = self.observed.get(event.origin);
        let advanced = if observed_seq_nr >= event.origin_seq_nr {
            observed_seq_nr
        } else {
            event.origin_seq_nr
        };
        self.observed.insert(event.origin, advanced);
        self.crdt.effect(event);
        if event.local_seq_nr > self.seq_nr {
            self.seq_nr = event.local_seq_nr;
        }
        self.dup_state()
    }

    /// The payload of a `Replicate` request to `replica_id`: our own
    /// identifier, the next sequence number we want from that peer, and a
    /// copy of our clock.
    pub fn process_sync(&mut self, replica_id: ReplicaId) -> (r: (ReplicaId, SeqNr, VTime))
        requires
            old(self).wf(),
            clock_at(old(self).observed@, replica_id) < u64::MAX,
        ensures
            *final(self) == *old(self),
            r.0 == old(self).id,
            r.1 == clock_at(old(self).observed@, replica_id) + 1,
            r.2@ == old(self).version@,
            r.2.wf(),
    {
        let next = self.observed.get(replica_id);
        (self.id, next + 1, self.version.clone())
    }

    /// The current value of the CRDT.
    pub fn process_query(&self) -> (r: C::State)
        requires
            self.wf(),
        ensures
            self.crdt.query_ens(r),
    {
        self.crdt.query()
    }


    /// Executes a local command: bump the sequence number and our own clock
    /// entry, prepare the operation, apply it, and append the new event to
    /// the store.
    pub fn process_command<S: EventStore<C>>(
        &mut self,
        command: &C::Command,
        event_store: &mut S,
    ) -> (r: ReplicaState<C>)
        requires
            old(self).wf(),
            old(self).seq_nr < u64::MAX,
            clock_at(old(self).version@, old(self).id) < u64::MAX,
            old(self).crdt.prepare_req(*command),
            forall|op: C::Operation|
                old(self).crdt.prepare_ens(*command, op) ==> C::effect_req(
                    old(self).crdt.model(),
                    op,
                ),
        ensures
            final(self).wf(),
            r.wf(),
            state_matches::<C>(r, *final(self)),
            final(self).id == old(self).id,
            final(self).seq_nr == old(self).seq_nr + 1,
            final(self).version@ == old(self).version@.insert(
                old(self).id,
                (clock_at(old(self).version@, old(self).id) + 1) as u64,
            ),
            final(self).observed@ == old(self).observed@,
            final(event_store).snapshot_spec() == old(event_store).snapshot_spec(),
            final(event_store).events_spec().len() == old(event_store).events_spec().len() + 1,
            final(event_store).events_spec().take(
                old(event_store).events_spec().len() as int,
            ) == old(event_store).events_spec(),
            ({
                let e = final(event_store).events_spec().last();
                &&& e.origin == old(self).id
                &&& e.origin_seq_nr == old(self).seq_nr + 1
                &&& e.local_seq_nr == old(self).seq_nr + 1
                &&& e.version@ == final(self).version@
                &&& old(self).crdt.prepare_ens(*command, e.data)
                &&& event_wf::<C>(e)
                &&& final(self).crdt.model() == C::effect_model(
                    old(self).crdt.model(),
                    e.version@,
                    e.data,
                )
                &&& vc_le(e.version@, final(self).version@)
            }),
            final(self).seq_nr >= old(self).seq_nr,
            log_contiguous::<C>(old(event_store).events_spec(), old(self).seq_nr)
                ==> log_contiguous::<C>(final(event_store).events_spec(), final(self).seq_nr),
    {
        let seq_nr = self.seq_nr + 1;
        self.version.increment(self.id);
        let data = self.crdt.prepare(command);
        let event = Event {
            origin: self.id,
            origin_seq_nr: seq_nr,
            local_seq_nr: seq_nr,
            version: self.version.clone(),
            data,
        };
        self.crdt.effect(&event);
        self.seq_nr = seq_nr;
        let mut batch: Vec<Event<C::Operation>> = Vec::new();
        batch.push(event);
        event_store.save_events(batch);
        proof {
            assert(event_store.events_spec().take(
                old(event_store).events_spec().len() as int,
            ) =~= old(event_store).events_spec());
        }
        self.dup_state()
    }

    /// Answers a `Replicate` request: scan the log from `seq_nr` on, report
    /// the highest local position scanned, and ship the events whose clock
    /// the requester does not dominate.
    pub fn process_replay<S: EventStore<C>>(
        &mut self,
        seq_nr: SeqNr,
        version: VTime,
        event_store: &S,
    ) -> (r: (ReplicaId, SeqNr, Vec<Event<C::Operation>>))
        requires
            old(self).wf(),
            version.wf(),
            events_wf::<C>(event_store.events_spec()),
        ensures
            *final(self) == *old(self),
            r.0 == old(self).id,
            r.1 == batch_max_local::<C>(
                0,
                events_from::<C>(event_store.events_spec(), seq_nr),
            ),
            events_match::<C>(
                r.2@,
                replay_keep::<C>(events_from::<C>(event_store.events_spec(), seq_nr), version@),
            ),
            events_wf::<C>(r.2@),
    {
        let loaded = event_store.load_events(seq_nr);
        let ghost from_spec = events_from::<C>(event_store.events_spec(), seq_nr);
        let mut last_seq_nr: u64 = 0;
        let mut out: Vec<Event<C::Operation>> = Vec::new();
        let n = loaded.len();
        let mut i: usize = 0;
        while i < n
            invariant
                n == loaded.len(),
                0 <= i <= n,
                self.wf(),
                version.wf(),
                events_wf::<C>(loaded@),
                last_seq_nr == batch_max_local::<C>(0, loaded@.take(i as int)),
                events_match::<C>(out@, replay_keep::<C>(loaded@.take(i as int), version@)),
                events_wf::<C>(out@),
            decreases n - i,
        {
            proof {
                assert(loaded@.take(i as int + 1).drop_last() =~= loaded@.take(i as int));
                assert(loaded@.take(i as int + 1).last() == loaded@[i as int]);
                assert(event_wf::<C>(loaded@[i as int]));
            }
            let e = &loaded[i];
            if e.local_seq_nr > last_seq_nr {
                last_seq_nr = e.local_seq_nr;
            }
            let comparison = e.version.compare(&version);
            let ghost pre_out = out@;
            if comparison == ClockComparison::Greater || comparison
                == ClockComparison::Concurrent {
                let copy = dup_event::<C>(e);
                proof {
                    C::op_matches_laws(loaded@[i as int].data, copy.data, copy.data);
                }
                out.push(copy);
            }
            proof {
                let keep = replay_keep::<C>(loaded@.take(i as int), version@);
                let keep2 = replay_keep::<C>(loaded@.take(i as int + 1), version@);
                if comparison == ClockComparison::Greater || comparison
                    == ClockComparison::Concurrent {
                    assert(keep2 == keep.push(loaded@[i as int]));
                    assert forall|idx: int|
                        0 <= idx < out@.len() implies ev_matches::<C>(
                        #[trigger] out@[idx],
                        keep2[idx],
                    ) by {
                        if idx < out@.len() - 1 {
                            assert(out@[idx] == pre_out[idx]);
                            assert(keep2[idx] == keep[idx]);
                        } else {
                            assert(keep2[idx] == loaded@[i as int]);
                        }
                    }
                } else {
                    assert(keep2 == keep);
                }
            }
            i = i + 1;
        }
        proof {
            assert(loaded@.take(n as int) =~= loaded@);
            lemma_batch_max_matches::<C>(0, loaded@, from_spec);
            lemma_replay_keep_matches::<C>(loaded@, from_spec, version@);
            lemma_events_match_trans::<C>(
                out@,
                replay_keep::<C>(loaded@, version@),
                replay_keep::<C>(from_spec, version@),
            );
        }
        (self.id, last_seq_nr, out)
    }

    /// Applies a `Replicated` answer from `sender`: drop what we have seen,
    /// and for each remaining event advance the local sequence number, merge
    /// the clock, raise the observed mark of the sender, apply the
    /// operation, and append a renumbered copy to the store.  Returns the
    /// new state when at least one event was applied.
    pub fn process_replicated<S: EventStore<C>>(
        &mut self,
        sender: ReplicaId,
        last_seq_nr: SeqNr,
        events: Vec<Event<C::Operation>>,
        event_store: &mut S,
    ) -> (r: Option<ReplicaState<C>>)
        requires
            old(self).wf(),
            events_wf::<C>(events@),
            old(self).seq_nr + events@.len() <= u64::MAX,
            batch_crdt_req::<C>(
                old(self).crdt.model(),
                unseen_events::<C>(*old(self), events@),
            ),
        ensures
            ({
                let kept = unseen_events::<C>(*old(self), events@);
                &&& final(self).wf()
                &&& final(self).id == old(self).id
                &&& final(self).seq_nr == old(self).seq_nr + kept.len()
                &&& final(self).version@ == batch_version::<C>(old(self).version@, kept)
                &&& final(self).crdt.model() == batch_crdt::<C>(old(self).crdt.model(), kept)
                &&& final(self).observed@ == (if kept.len() == 0 {
                    old(self).observed@
                } else {
                    old(self).observed@.insert(
                        sender,
                        batch_max_local::<C>(clock_at(old(self).observed@, sender), kept),
                    )
                })
                &&& final(event_store).snapshot_spec() == old(event_store).snapshot_spec()
                &&& final(event_store).events_spec().len() == old(
                    event_store,
                ).events_spec().len() + kept.len()
                &&& final(event_store).events_spec().take(
                    old(event_store).events_spec().len() as int,
                ) == old(event_store).events_spec()
                &&& renumbered::<C>(
                    kept,
                    old(self).seq_nr,
                    final(event_store).events_spec().skip(
                        old(event_store).events_spec().len() as int,
                    ),
                )
                &&& (r is Some <==> kept.len() > 0)
                &&& (match r {
                    Some(s) => s.wf() && state_matches::<C>(s, *final(self)),
                    None => *final(self) == *old(self),
                })
                &&& final(self).seq_nr >= old(self).seq_nr
                &&& forall|i: int|
                    0 <= i < kept.len() ==> vc_le(
                        (#[trigger] kept[i]).version@,
                        final(self).version@,
                    )
                &&& forall|i: int|
                    0 <= i < kept.len() && (#[trigger] kept[i]).origin == sender
                        && kept[i].origin_seq_nr <= kept[i].local_seq_nr ==> clock_at(
                        final(self).observed@,
                        sender,
                    ) >= kept[i].origin_seq_nr
                &&& (log_contiguous::<C>(old(event_store).events_spec(), old(self).seq_nr)
                    ==> log_contiguous::<C>(
                    final(event_store).events_spec(),
                    final(self).seq_nr,
                ))
            }),
    {
        let ghost s0 = *old(self);
        let ghost orig = events@;
        proof {
            lemma_filter_len(orig, |e: Event<C::Operation>| s0.unseen_spec(e));
        }
        let mut incoming = events;
        let mut kept: Vec<Event<C::Operation>> = Vec::new();
        while incoming.len() > 0
            invariant
                *self == s0,
                s0 == *old(self),
                self.wf(),
                events_wf::<C>(orig),
                incoming@ == orig.skip(orig.len() - incoming@.len()),
                incoming@.len() <= orig.len(),
                kept@ == unseen_events::<C>(s0, orig.take(orig.len() - incoming@.len())),
                events_wf::<C>(kept@),
            decreases incoming@.len(),
        {
            let ghost consumed = orig.len() - incoming@.len();
            proof {
                assert(orig.take(consumed + 1).drop_last() =~= orig.take(consumed));
                assert(orig.take(consumed + 1).last() == orig[consumed]);
                assert(incoming@[0] == orig[consumed]);
                assert(event_wf::<C>(orig[consumed]));
            }
            let e = incoming.remove(0);
            let keep = self.unseen(&e);
            if keep {
                kept.push(e);
            }
            proof {
                assert(incoming@ =~= orig.skip(orig.len() - incoming@.len()));
            }
        }
        proof {
            assert(orig.take(orig.len() as int) =~= orig);
        }
        let ghost kept_spec = unseen_events::<C>(s0, orig);
        proof {
            lemma_filter_len(orig, |e: Event<C::Operation>| s0.unseen_spec(e));
        }
        let mut remote_seq_nr = self.observed.get(sender);
        let mut new_events: Vec<Event<C::Operation>> = Vec::new();
        let kn = kept.len();
        let mut j: usize = 0;
        while j < kn
            invariant
                kn == kept.len(),
                0 <= j <= kn,
                kept@ == kept_spec,
                kept_spec == unseen_events::<C>(s0, orig),
                s0 == *old(self),
                s0.wf(),
                s0.seq_nr + kn <= u64::MAX,
                events_wf::<C>(kept@),
                batch_crdt_req::<C>(s0.crdt.model(), kept_spec),
                self.wf(),
                self.id == s0.id,
                self.seq_nr == s0.seq_nr + j,
                self.version@ == batch_version::<C>(s0.version@, kept@.take(j as int)),
                self.crdt.model() == batch_crdt::<C>(s0.crdt.model(), kept@.take(j as int)),
                remote_seq_nr == batch_max_local::<C>(
                    clock_at(s0.observed@, sender),
                    kept@.take(j as int),
                ),
                self.observed@ == (if j == 0 {
                    s0.observed@
                } else {
                    s0.observed@.insert(sender, remote_seq_nr)
                }),
                j == 0 ==> *self == s0,
                renumbered::<C>(kept@.take(j as int), s0.seq_nr, new_events@),
                events_wf::<C>(new_events@),
            decreases kn - j,
        {
            proof {
                assert(kept@.take(j as int + 1).drop_last() =~= kept@.take(j as int));
                assert(kept@.take(j as int + 1).last() == kept@[j as int]);
                assert(event_wf::<C>(kept@[j as int]));
                lemma_batch_req_prefix::<C>(s0.crdt.model(), kept_spec, j as int);
            }
            let seq_nr = self.seq_nr + 1;
            let e = &kept[j];
            self.version.merge(self.id, &e.version);
            if e.local_seq_nr > remote_seq_nr {
                remote_seq_nr = e.local_seq_nr;
            }
            self.observed.insert(sender, remote_seq_nr);
            self.crdt.effect(e);
            self.seq_nr = seq_nr;
            let renum = Event {
                origin: e.origin,
                origin_seq_nr: e.origin_seq_nr,
                local_seq_nr: seq_nr,
                version: e.version.clone(),
                data: C::dup_op(&e.data),
            };
            new_events.push(renum);
            proof {
                assert(new_events@.drop_last() =~= new_events@.take(
                    new_events@.len() - 1,
                ));
                assert(renumbered::<C>(kept@.take(j as int + 1), s0.seq_nr, new_events@));
            }
            j = j + 1;
        }
        proof {
            assert(kept@.take(kn as int) =~= kept@);
        }
        let applied = kept.len() > 0;
        let ghost appended = new_events@;
        event_store.save_events(new_events);
        proof {
            assert(event_store.events_spec().take(
                old(event_store).events_spec().len() as int,
            ) =~= old(event_store).events_spec());
            assert(event_store.events_spec().skip(
                old(event_store).events_spec().len() as int,
            ) =~= appended);
            lemma_batch_version_dominates::<C>(s0.version@, kept_spec);
            lemma_batch_max_ge::<C>(clock_at(s0.observed@, sender), kept_spec);
            if log_contiguous::<C>(old(event_store).events_spec(), s0.seq_nr) {
                assert forall|i: int|
                    0 <= i < event_store.events_spec().len() implies (
                #[trigger] event_store.events_spec()[i]).local_seq_nr == i + 1 by {
                    if i < s0.seq_nr {
                        assert(event_store.events_spec()[i] == old(
                            event_store,
                        ).events_spec()[i]);
                    } else {
                        assert(event_store.events_spec()[i] == appended[i - s0.seq_nr]);
                    }
                }
            }
        }
        if applied {
            Some(self.dup_state())
        } else {
            proof {
                assert(*self == s0);
            }
            None
        }
    }

    /// An exact copy of this state.
    pub fn dup_state(&self) -> (r: ReplicaState<C>)
        requires
            self.wf(),
        ensures
            r.wf(),
            state_matches::<C>(r, *self),
    {
        ReplicaState {
            id: self.id,
            seq_nr: self.seq_nr,
            version: self.version.clone(),
            observed: self.observed.clone(),
            crdt: self.crdt.dup(),
        }
    }
}

impl<C: CRDT> Clone for ReplicaState<C> {
    /// An exact copy when the state is well-formed; fields are copied
    /// through the CRDT's own duplication.
    fn clone(&self) -> (r: Self)
        ensures
            self.wf() ==> r.wf() && state_matches::<C>(r, *self),
    {
        ReplicaState {
            id: self.id,
            seq_nr: self.seq_nr,
            version: self.version.clone(),
            observed: self.observed.clone(),
            crdt: self.crdt.dup(),
        }
    }
}

/// The events whose local sequence number is at least `start`.
pub open spec fn events_from<C: CRDT>(
    events: Seq<Event<C::Operation>>,
    start: SeqNr,
) -> Seq<Event<C::Operation>> {
    seq_filter_by(events, |e: Event<C::Operation>| e.local_seq_nr >= start)
}

/// The events whose clock is `Greater` than or `Concurrent` with `version`.
pub open spec fn replay_keep<C: CRDT>(
    events: Seq<Event<C::Operation>>,
    version: Map<i64, u64>,
) -> Seq<Event<C::Operation>> {
    seq_filter_by(
        events,
        |e: Event<C::Operation>|
            compare_spec(e.version@, version) == ClockComparison::Greater || compare_spec(
                e.version@,
                version,
            ) == ClockComparison::Concurrent,
    )
}

/// The events of a batch that the state `s` has not seen yet.
pub open spec fn unseen_events<C: CRDT>(
    s: ReplicaState<C>,
    events: Seq<Event<C::Operation>>,
) -> Seq<Event<C::Operation>> {
    seq_filter_by(events, |e: Event<C::Operation>| s.unseen_spec(e))
}

/// The clock view after merging the versions of a batch of events, in order.
pub open spec fn batch_version<C: CRDT>(
    v: Map<i64, u64>,
    events: Seq<Event<C::Operation>>,
) -> Map<i64, u64>
    decreases events.len(),
{
    if events.len() == 0 {
        v
    } else {
        vc_merge(batch_version::<C>(v, events.drop_last()), events.last().version@)
    }
}

/// The CRDT model after applying a batch of events, in order.
pub open spec fn batch_crdt<C: CRDT>(m: C::Model, events: Seq<Event<C::Operation>>) -> C::Model
    decreases events.len(),
{
    if events.len() == 0 {
        m
    } else {
        C::effect_model(
            batch_crdt::<C>(m, events.drop_last()),
            events.last().version@,
            events.last().data,
        )
    }
}

/// Every step of applying the batch is permitted.
pub open spec fn batch_crdt_req<C: CRDT>(m: C::Model, events: Seq<Event<C::Operation>>) -> bool
    decreases events.len(),
{
    if events.len() == 0 {
        true
    } else {
        batch_crdt_req::<C>(m, events.drop_last()) && C::effect_req(
            batch_crdt::<C>(m, events.drop_last()),
            events.last().data,
        )
    }
}

/// The largest local sequence number in the batch, at least `r0`.
pub open spec fn batch_max_local<C: CRDT>(r0: u64, events: Seq<Event<C::Operation>>) -> u64
    decreases events.len(),
{
    if events.len() == 0 {
        r0
    } else {
        max_u64(batch_max_local::<C>(r0, events.drop_last()), events.last().local_seq_nr)
    }
}

/// An append-only log is contiguous when position `i` holds local sequence
/// number `i + 1` and the log reaches exactly `seq_nr`.
pub open spec fn log_contiguous<C: CRDT>(events: Seq<Event<C::Operation>>, seq_nr: SeqNr) -> bool {
    events.len() == seq_nr && forall|i: int|
        0 <= i < events.len() ==> (#[trigger] events[i]).local_seq_nr == i + 1
}

/// The appended copies of `kept`, renumbered consecutively above `base`.
pub open spec fn renumbered<C: CRDT>(
    kept: Seq<Event<C::Operation>>,
    base: SeqNr,
    appended: Seq<Event<C::Operation>>,
) -> bool {
    appended.len() == kept.len() && forall|i: int|
        0 <= i < kept.len() ==> {
            &&& (#[trigger] appended[i]).origin == kept[i].origin
            &&& appended[i].origin_seq_nr == kept[i].origin_seq_nr
            &&& appended[i].local_seq_nr == base + 1 + i
            &&& appended[i].version@ == kept[i].version@
            &&& C::op_matches(kept[i].data, appended[i].data)
        }
}

/// A filtered sequence is never longer than its source.
pub proof fn lemma_filter_len<A>(s: Seq<A>, p: spec_fn(A) -> bool)
    ensures
        seq_filter_by(s, p).len() <= s.len(),
    decreases s.len(),
{
    if s.len() > 0 {
        lemma_filter_len(s.drop_last(), p);
    }
}

/// Matching batches agree on their largest local sequence number.
proof fn lemma_batch_max_matches<C: CRDT>(
    r0: u64,
    a: Seq<Event<C::Operation>>,
    b: Seq<Event<C::Operation>>,
)
    requires
        events_match::<C>(a, b),
    ensures
        batch_max_local::<C>(r0, a) == batch_max_local::<C>(r0, b),
    decreases a.len(),
{
    if a.len() > 0 {
        assert(events_match::<C>(a.drop_last(), b.drop_last()));
        lemma_batch_max_matches::<C>(r0, a.drop_last(), b.drop_last());
        assert(a.last().local_seq_nr == b.last().local_seq_nr);
    }
}

/// Matching batches keep matching events under the replay filter.
proof fn lemma_replay_keep_matches<C: CRDT>(
    a: Seq<Event<C::Operation>>,
    b: Seq<Event<C::Operation>>,
    version: Map<i64, u64>,
)
    requires
        events_match::<C>(a, b),
    ensures
        events_match::<C>(replay_keep::<C>(a, version), replay_keep::<C>(b, version)),
    decreases a.len(),
{
    if a.len() > 0 {
        assert(events_match::<C>(a.drop_last(), b.drop_last()));
        lemma_replay_keep_matches::<C>(a.drop_last(), b.drop_last(), version);
        assert(a.last().version@ == b.last().version@);
    }
}

/// `events_match` is transitive.
proof fn lemma_events_match_trans<C: CRDT>(
    a: Seq<Event<C::Operation>>,
    b: Seq<Event<C::Operation>>,
    c: Seq<Event<C::Operation>>,
)
    requires
        events_match::<C>(a, b),
        events_match::<C>(b, c),
    ensures
        events_match::<C>(a, c),
{
    assert forall|i: int| 0 <= i < a.len() implies ev_matches::<C>(#[trigger] a[i], c[i]) by {
        assert(ev_matches::<C>(a[i], b[i]));
        assert(ev_matches::<C>(b[i], c[i]));
        C::op_matches_laws(a[i].data, b[i].data, c[i].data);
    }
}

/// A permitted batch is permitted stepwise on every prefix.
proof fn lemma_batch_req_prefix<C: CRDT>(m: C::Model, s: Seq<Event<C::Operation>>, j: int)
    requires
        batch_crdt_req::<C>(m, s),
        0 <= j < s.len(),
    ensures
        C::effect_req(batch_crdt::<C>(m, s.take(j)), s[j].data),
        batch_crdt_req::<C>(m, s.take(j)),
    decreases s.len(),
{
    if j == s.len() - 1 {
        assert(s.drop_last() =~= s.take(j));
    } else {
        assert(s.drop_last().take(j) =~= s.take(j));
        assert(s.drop_last()[j] == s[j]);
        lemma_batch_req_prefix::<C>(m, s.drop_last(), j);
    }
}

/// Every event of the batch, and the starting clock, are dominated by the
/// merged clock.
pub proof fn lemma_batch_version_dominates<C: CRDT>(
    v: Map<i64, u64>,
    events: Seq<Event<C::Operation>>,
)
    ensures
        vc_le(v, batch_version::<C>(v, events)),
        forall|i: int|
            0 <= i < events.len() ==> vc_le(
                (#[trigger] events[i]).version@,
                batch_version::<C>(v, events),
            ),
    decreases events.len(),
{
    if events.len() == 0 {
    } else {
        lemma_batch_version_dominates::<C>(v, events.drop_last());
        let prev = batch_version::<C>(v, events.drop_last());
        let full = batch_version::<C>(v, events);
        crate::causal_time::lemma_vc_merge_le(prev, events.last().version@);
        crate::causal_time::lemma_vc_le_trans(v, prev, full);
        assert forall|i: int| 0 <= i < events.len() implies vc_le(
            (#[trigger] events[i]).version@,
            full,
        ) by {
            if i < events.len() - 1 {
                assert(events.drop_last()[i] == events[i]);
                crate::causal_time::lemma_vc_le_trans(events[i].version@, prev, full);
            } else {
                assert(events[i] == events.last());
            }
        }
    }
}

/// The running maximum is above the start and above every member.
pub proof fn lemma_batch_max_ge<C: CRDT>(r0: u64, events: Seq<Event<C::Operation>>)
    ensures
        batch_max_local::<C>(r0, events) >= r0,
        forall|i: int|
            0 <= i < events.len() ==> batch_max_local::<C>(r0, events) >= (#[trigger] events[i])
                .local_seq_nr,
    decreases events.len(),
{
    if events.len() > 0 {
        lemma_batch_max_ge::<C>(r0, events.drop_last());
        assert forall|i: int|
            0 <= i < events.len() implies batch_max_local::<C>(r0, events) >= (
            #[trigger] events[i]).local_seq_nr by {
            if i < events.len() - 1 {
                assert(events.drop_last()[i] == events[i]);
            } else {
                assert(events[i] == events.last());
            }
        }
    }
}

/// A filter that keeps everything returns the whole sequence.
proof fn lemma_filter_all<A>(s: Seq<A>, p: spec_fn(A) -> bool)
    requires
        forall|i: int| 0 <= i < s.len() ==> p(#[trigger] s[i]),
    ensures
        seq_filter_by(s, p) =~= s,
    decreases s.len(),
{
    if s.len() > 0 {
        assert(forall|i: int|
            0 <= i < s.drop_last().len() ==> (#[trigger] s.drop_last()[i]) == s[i]);
        lemma_filter_all(s.drop_last(), p);
        assert(seq_filter_by(s, p) =~= s.drop_last().push(s.last()));
        assert(s.drop_last().push(s.last()) =~= s);
    }
}

/// A filter that keeps nothing returns the empty sequence.
proof fn lemma_filter_none<A>(s: Seq<A>, p: spec_fn(A) -> bool)
    requires
        forall|i: int| 0 <= i < s.len() ==> !p(#[trigger] s[i]),
    ensures
        seq_filter_by(s, p) =~= Seq::<A>::empty(),
    decreases s.len(),
{
    if s.len() > 0 {
        assert(forall|i: int|
            0 <= i < s.drop_last().len() ==> (#[trigger] s.drop_last()[i]) == s[i]);
        lemma_filter_none(s.drop_last(), p);
    }
}

/// Replay is idempotent: a batch of fresh events from `sender`, applied
/// once, is wholly suppressed by the unseen filter when it is delivered
/// again.  `s1` stands for the state after the first delivery, as the
/// contract of `process_replicated` describes it: a second call with the
/// same events then keeps nothing, so it changes neither the state nor the
/// log.
pub proof fn lemma_replicated_idempotent<C: CRDT>(
    s0: ReplicaState<C>,
    s1: ReplicaState<C>,
    sender: ReplicaId,
    events: Seq<Event<C::Operation>>,
)
    requires
        forall|i: int|
            0 <= i < events.len() ==> {
                &&& (#[trigger] events[i]).origin == sender
                &&& events[i].origin_seq_nr <= events[i].local_seq_nr
                &&& s0.unseen_spec(events[i])
            },
        s1.version@ == batch_version::<C>(s0.version@, unseen_events::<C>(s0, events)),
        s1.observed@ == (if unseen_events::<C>(s0, events).len() == 0 {
            s0.observed@
        } else {
            s0.observed@.insert(
                sender,
                batch_max_local::<C>(
                    clock_at(s0.observed@, sender),
                    unseen_events::<C>(s0, events),
                ),
            )
        }),
    ensures
        unseen_events::<C>(s0, events) =~= events,
        unseen_events::<C>(s1, events) =~= Seq::<Event<C::Operation>>::empty(),
{
    lemma_filter_all(events, |e: Event<C::Operation>| s0.unseen_spec(e));
    let kept = unseen_events::<C>(s0, events);
    assert(kept =~= events);
    lemma_batch_version_dominates::<C>(s0.version@, kept);
    lemma_batch_max_ge::<C>(clock_at(s0.observed@, sender), kept);
    assert forall|i: int| 0 <= i < events.len() implies !s1.unseen_spec(
        #[trigger] events[i],
    ) by {
        let e = events[i];
        assert(kept[i] == e);
        // Our clock now dominates the event's, so it compares Less or Equal.
        assert(vc_le(e.version@, s1.version@));
        crate::causal_time::lemma_le_not_ahead(e.version@, s1.version@);
        // The observed mark of the sender covers the event's origin position.
        if events.len() > 0 {
            assert(clock_at(s1.observed@, e.origin) >= e.local_seq_nr);
        }
    }
    lemma_filter_none(events, |e: Event<C::Operation>| s1.unseen_spec(e));
}

} // verus!
