//! OR-Set: an observed-remove set with add-wins semantics.
//!
//! The state is a set of (value, version) pairs, one per applied add.  A
//! remove collects the versions it observes for the value; its effect
//! withdraws exactly those pairs, so an add concurrent with the remove
//! survives: its version was not observed.

use vstd::prelude::*;

verus! {

use vstd::std_specs::cmp::PartialEqSpec;

use crate::causal_core::CRDT;
use crate::causal_core::Event;
use crate::causal_core::ReplicaId;
use crate::causal_time::VectorClock;

/// A user command: put a value in, or take it out.
pub enum SetCommand<T> {
    Add(T),
    Remove(T),
}

/// The operation an event carries: a value added (its version is the
/// event's), or the set of observed versions to withdraw.
pub enum SetOperation<T> {
    Added(T),
    Removed(Vec<VectorClock>),
}

/// The pairs (value, version) an OR-Set holds.
pub struct BinarySet<T>(pub Vec<(T, VectorClock)>);

/// The observed-remove set.
pub struct ORSet<T> {
    elements: BinarySet<T>,
}

/// The mathematical content of a pair list: the set of (value, clock view)
/// pairs, duplicates collapsed.
pub open spec fn binset_model<T>(s: Seq<(T, VectorClock)>) -> Set<(T, Map<i64, u64>)> {
    Set::new(
        |p: (T, Map<i64, u64>)|
            exists|i: int|
                0 <= i < s.len() && (#[trigger] s[i]).0 == p.0 && s[i].1@ == p.1,
    )
}

/// The set of clock views a version list holds.
pub open spec fn clock_views(s: Seq<VectorClock>) -> Set<Map<i64, u64>> {
    Set::new(|c: Map<i64, u64>| exists|i: int| 0 <= i < s.len() && (#[trigger] s[i])@ == c)
}

/// Every clock in the pair list is well-formed.
pub open spec fn pairs_wf<T>(s: Seq<(T, VectorClock)>) -> bool {
    forall|i: int| 0 <= i < s.len() ==> (#[trigger] s[i]).1.wf()
}

/// Every clock in the version list is well-formed.
pub open spec fn versions_wf(s: Seq<VectorClock>) -> bool {
    forall|i: int| 0 <= i < s.len() ==> (#[trigger] s[i]).wf()
}

/// The model with every pair withdrawn whose version is in `cv`.
pub open spec fn model_without<T>(
    m: Set<(T, Map<i64, u64>)>,
    cv: Set<Map<i64, u64>>,
) -> Set<(T, Map<i64, u64>)> {
    Set::new(|p: (T, Map<i64, u64>)| m.contains(p) && !cv.contains(p.1))
}

impl<T: Copy + PartialEqSpec> ORSet<T> {
    /// Does `clock` read equal to some member of `versions`?
    fn version_observed(versions: &Vec<VectorClock>, clock: &VectorClock) -> (r: bool)
        requires
            versions_wf(versions@),
            clock.wf(),
        ensures
            r == clock_views(versions@).contains(clock@),
    {
        let n = versions.len();
        let mut i: usize = 0;
        while i < n
            invariant
                n == versions.len(),
                versions_wf(versions@),
                clock.wf(),
                0 <= i <= n,
                forall|j: int| 0 <= j < i ==> (#[trigger] versions@[j])@ != clock@,
            decreases n - i,
        {
            if versions[i].equals(clock) {
                return true;
            }
            i = i + 1;
        }
        false
    }
}

impl<T: Copy + PartialEqSpec> CRDT for ORSet<T> {
    type State = BinarySet<T>;

    type Command = SetCommand<T>;

    type Operation = SetOperation<T>;

    type Model = Set<(T, Map<i64, u64>)>;

    closed spec fn wf(&self) -> bool {
        pairs_wf(self.elements.0@)
    }

    closed spec fn model(&self) -> Set<(T, Map<i64, u64>)> {
        binset_model(self.elements.0@)
    }

    open spec fn op_wf(op: SetOperation<T>) -> bool {
        match op {
            SetOperation::Added(_) => true,
            SetOperation::Removed(versions) => versions_wf(versions@),
        }
    }

    open spec fn op_matches(a: SetOperation<T>, b: SetOperation<T>) -> bool {
        match (a, b) {
            (SetOperation::Added(x), SetOperation::Added(y)) => x == y,
            (SetOperation::Removed(u), SetOperation::Removed(w)) => u@.len() == w@.len()
                && forall|i: int| 0 <= i < u@.len() ==> (#[trigger] u@[i])@ == w@[i]@,
            _ => false,
        }
    }

    open spec fn default_req(replica_id: Option<ReplicaId>) -> bool {
        true
    }

    open spec fn default_model(replica_id: Option<ReplicaId>) -> Set<(T, Map<i64, u64>)> {
        Set::empty()
    }

    open spec fn query_ens(&self, result: BinarySet<T>) -> bool {
        binset_model(result.0@) == self.model() && pairs_wf(result.0@)
    }

    open spec fn prepare_req(&self, command: SetCommand<T>) -> bool {
        match command {
            SetCommand::Add(_) => true,
            SetCommand::Remove(_) => T::obeys_eq_spec() && forall|x: T, y: T|
                #[trigger] x.eq_spec(&y) <==> x == y,
        }
    }

    open spec fn prepare_ens(&self, command: SetCommand<T>, op: SetOperation<T>) -> bool {
        match command {
            SetCommand::Add(value) => op == SetOperation::<T>::Added(value),
            SetCommand::Remove(value) => match op {
                SetOperation::Removed(versions) => {
                    &&& versions_wf(versions@)
                    &&& clock_views(versions@) == Set::new(
                        |c: Map<i64, u64>| self.model().contains((value, c)),
                    )
                },
                _ => false,
            },
        }
    }

    open spec fn effect_req(m: Set<(T, Map<i64, u64>)>, op: SetOperation<T>) -> bool {
        true
    }

    open spec fn effect_model(
        m: Set<(T, Map<i64, u64>)>,
        version: Map<i64, u64>,
        op: SetOperation<T>,
    ) -> Set<(T, Map<i64, u64>)> {
        match op {
            SetOperation::Added(value) => m.insert((value, version)),
            SetOperation::Removed(versions) => model_without(m, clock_views(versions@)),
        }
    }

    proof fn op_matches_laws(a: SetOperation<T>, b: SetOperation<T>, c: SetOperation<T>) {
    }

    fn default(replica_id: Option<ReplicaId>) -> (r: Self) {
        let r = ORSet { elements: BinarySet(Vec::new()) };
        proof {
            assert(binset_model(r.elements.0@) =~= Set::<(T, Map<i64, u64>)>::empty());
        }
        r
    }

    fn query(&self) -> (r: BinarySet<T>) {
        let n = self.elements.0.len();
        let mut out: Vec<(T, VectorClock)> = Vec::new();
        let mut i: usize = 0;
        while i < n
            invariant
                n == self.elements.0.len(),
                pairs_wf(self.elements.0@),
                0 <= i <= n,
                out@.len() == i,
                pairs_wf(out@),
                forall|j: int|
                    0 <= j < i ==> (#[trigger] out@[j]).0 == self.elements.0@[j].0
                        && out@[j].1@ == self.elements.0@[j].1@,
            decreases n - i,
        {
            let e = &self.elements.0[i];
            out.push((e.0, e.1.clone()));
            i = i + 1;
        }
        let r = BinarySet(out);
        proof {
            assert forall|p: (T, Map<i64, u64>)|
                binset_model(r.0@).contains(p) == binset_model(
                self.elements.0@,
            ).contains(p) by {
                if binset_model(r.0@).contains(p) {
                    let j = choose|j: int|
                        0 <= j < r.0@.len() && (#[trigger] r.0@[j]).0 == p.0 && r.0@[j].1@
                            == p.1;
                    assert(self.elements.0@[j].0 == p.0 && self.elements.0@[j].1@ == p.1);
                }
                if binset_model(self.elements.0@).contains(p) {
                    let j = choose|j: int|
                        0 <= j < self.elements.0@.len() && (#[trigger] self.elements.0@[j]).0
                            == p.0 && self.elements.0@[j].1@ == p.1;
                    assert(r.0@[j].0 == p.0 && r.0@[j].1@ == p.1);
                }
            }
            assert(binset_model(r.0@) =~= binset_model(self.elements.0@));
        }
        r
    }

    fn prepare(&self, command: &SetCommand<T>) -> (op: SetOperation<T>) {
        match command {
            SetCommand::Add(value) => SetOperation::Added(*value),
            SetCommand::Remove(value_to_remove) => {
                let n = self.elements.0.len();
                let mut versions: Vec<VectorClock> = Vec::new();
                let mut i: usize = 0;
                while i < n
                    invariant
                        n == self.elements.0.len(),
                        pairs_wf(self.elements.0@),
                        T::obeys_eq_spec(),
                        forall|x: T, y: T| #[trigger] x.eq_spec(&y) <==> x == y,
                        0 <= i <= n,
                        versions_wf(versions@),
                        forall|c: Map<i64, u64>|
                            clock_views(versions@).contains(c) <==> exists|j: int|
                                0 <= j < i && (#[trigger] self.elements.0@[j]).0
                                    == *value_to_remove && self.elements.0@[j].1@ == c,
                    decreases n - i,
                {
                    let e = &self.elements.0[i];
                    let ghost pre = versions@;
                    if e.0 == *value_to_remove {
                        versions.push(e.1.clone());
                    }
                    proof {
                        assert forall|c: Map<i64, u64>|
                            clock_views(versions@).contains(c) <==> exists|j: int|
                                0 <= j < i + 1 && (#[trigger] self.elements.0@[j]).0
                                    == *value_to_remove && self.elements.0@[j].1@ == c by {
                            if clock_views(versions@).contains(c) {
                                let k = choose|k: int|
                                    0 <= k < versions@.len() && (#[trigger] versions@[k])@
                                        == c;
                                if k < pre.len() {
                                    assert(clock_views(pre).contains(c));
                                } else {
                                    assert(self.elements.0@[i as int].0 == *value_to_remove
                                        && self.elements.0@[i as int].1@ == c);
                                }
                            }
                            if exists|j: int|
                                0 <= j < i + 1 && (#[trigger] self.elements.0@[j]).0
                                    == *value_to_remove && self.elements.0@[j].1@ == c {
                                let j = choose|j: int|
                                    0 <= j < i + 1 && (#[trigger] self.elements.0@[j]).0
                                        == *value_to_remove && self.elements.0@[j].1@ == c;
                                if j < i {
                                    assert(clock_views(pre).contains(c));
                                    let k = choose|k: int|
                                        0 <= k < pre.len() && (#[trigger] pre[k])@ == c;
                                    assert(versions@[k]@ == c);
                                } else {
                                    assert(versions@[versions@.len() - 1]@ == c);
                                }
                            }
                        }
                    }
                    i = i + 1;
                }
                proof {
                    assert(clock_views(versions@) =~= Set::new(
                        |c: Map<i64, u64>|
                            binset_model(self.elements.0@).contains((*value_to_remove, c)),
                    ));
                }
                SetOperation::Removed(versions)
            },
        }
    }

    fn effect(&mut self, event: &Event<SetOperation<T>>) {
        match &event.data {
            SetOperation::Added(value) => {
                let ghost pre = self.elements.0@;
                self.elements.0.push((*value, event.version.clone()));
                proof {
                    assert forall|p: (T, Map<i64, u64>)|
                        binset_model(self.elements.0@).contains(p) == binset_model(
                        pre,
                    ).insert((*value, event.version@)).contains(p) by {
                        if binset_model(self.elements.0@).contains(p) {
                            let j = choose|j: int|
                                0 <= j < self.elements.0@.len() && (
                                #[trigger] self.elements.0@[j]).0 == p.0
                                    && self.elements.0@[j].1@ == p.1;
                            if j < pre.len() {
                                assert(pre[j].0 == p.0 && pre[j].1@ == p.1);
                            }
                        }
                        if binset_model(pre).contains(p) {
                            let j = choose|j: int|
                                0 <= j < pre.len() && (#[trigger] pre[j]).0 == p.0
                                    && pre[j].1@ == p.1;
                            assert(self.elements.0@[j].0 == p.0 && self.elements.0@[j].1@
                                == p.1);
                        }
                        if p == (*value, event.version@) {
                            assert(self.elements.0@[pre.len() as int].0 == p.0
                                && self.elements.0@[pre.len() as int].1@ == p.1);
                        }
                    }
                    assert(binset_model(self.elements.0@) =~= binset_model(pre).insert((
                        *value,
                        event.version@,
                    )));
                }
            },
            SetOperation::Removed(versions) => {
                let ghost pre = self.elements.0@;
                let ghost cv = clock_views(versions@);
                let n = self.elements.0.len();
                let mut out: Vec<(T, VectorClock)> = Vec::new();
                let mut i: usize = 0;
                while i < n
                    invariant
                        n == self.elements.0.len(),
                        pre == self.elements.0@,
                        pairs_wf(pre),
                        versions_wf(versions@),
                        cv == clock_views(versions@),
                        0 <= i <= n,
                        pairs_wf(out@),
                        forall|p: (T, Map<i64, u64>)|
                            binset_model(out@).contains(p) <==> exists|j: int|
                                0 <= j < i && (#[trigger] pre[j]).0 == p.0 && pre[j].1@
                                    == p.1 && !cv.contains(pre[j].1@),
                    decreases n - i,
                {
                    let e = &self.elements.0[i];
                    let ghost pre_out = out@;
                    let observed = Self::version_observed(versions, &e.1);
                    if !observed {
                        out.push((e.0, e.1.clone()));
                    }
                    proof {
                        assert forall|p: (T, Map<i64, u64>)|
                            binset_model(out@).contains(p) <==> exists|j: int|
                                0 <= j < i + 1 && (#[trigger] pre[j]).0 == p.0 && pre[j].1@
                                    == p.1 && !cv.contains(pre[j].1@) by {
                            if binset_model(out@).contains(p) {
                                let k = choose|k: int|
                                    0 <= k < out@.len() && (#[trigger] out@[k]).0 == p.0
                                        && out@[k].1@ == p.1;
                                if k < pre_out.len() {
                                    assert(binset_model(pre_out).contains(p)) by {
                                        assert(pre_out[k].0 == p.0 && pre_out[k].1@ == p.1);
                                    }
                                } else {
                                    assert(pre[i as int].0 == p.0 && pre[i as int].1@ == p.1
                                        && !cv.contains(pre[i as int].1@));
                                }
                            }
                            if exists|j: int|
                                0 <= j < i + 1 && (#[trigger] pre[j]).0 == p.0 && pre[j].1@
                                    == p.1 && !cv.contains(pre[j].1@) {
                                let j = choose|j: int|
                                    0 <= j < i + 1 && (#[trigger] pre[j]).0 == p.0
                                        && pre[j].1@ == p.1 && !cv.contains(pre[j].1@);
                                if j < i {
                                    assert(binset_model(pre_out).contains(p));
                                    let k = choose|k: int|
                                        0 <= k < pre_out.len() && (#[trigger] pre_out[k]).0
                                            == p.0 && pre_out[k].1@ == p.1;
                                    assert(out@[k].0 == p.0 && out@[k].1@ == p.1);
                                } else {
                                    assert(out@[out@.len() - 1].0 == p.0 && out@[out@.len()
                                        - 1].1@ == p.1);
                                }
                            }
                        }
                    }
                    i = i + 1;
                }
                self.elements = BinarySet(out);
                proof {
                    assert forall|p: (T, Map<i64, u64>)|
                        binset_model(self.elements.0@).contains(p) == model_without(
                        binset_model(pre),
                        cv,
                    ).contains(p) by {
                        if model_without(binset_model(pre), cv).contains(p) {
                            let j = choose|j: int|
                                0 <= j < pre.len() && (#[trigger] pre[j]).0 == p.0
                                    && pre[j].1@ == p.1;
                        }
                    }
                    assert(binset_model(self.elements.0@) =~= model_without(
                        binset_model(pre),
                        cv,
                    ));
                }
            },
        }
    }

    fn dup(&self) -> (r: Self) {
        let n = self.elements.0.len();
        let mut out: Vec<(T, VectorClock)> = Vec::new();
        let mut i: usize = 0;
        while i < n
            invariant
                n == self.elements.0.len(),
                0 <= i <= n,
                out@.len() == i,
                forall|j: int|
                    0 <= j < i ==> (#[trigger] out@[j]).0 == self.elements.0@[j].0
                        && out@[j].1@ == self.elements.0@[j].1@,
                forall|j: int|
                    0 <= j < i ==> ((#[trigger] self.elements.0@[j]).1.wf() ==> out@[j].1.wf()),
            decreases n - i,
        {
            let e = &self.elements.0[i];
            out.push((e.0, e.1.clone()));
            i = i + 1;
        }
        let r = ORSet { elements: BinarySet(out) };
        proof {
            assert forall|p: (T, Map<i64, u64>)|
                binset_model(r.elements.0@).contains(p) == binset_model(
                self.elements.0@,
            ).contains(p) by {
                if binset_model(r.elements.0@).contains(p) {
                    let j = choose|j: int|
                        0 <= j < r.elements.0@.len() && (#[trigger] r.elements.0@[j]).0 == p.0
                            && r.elements.0@[j].1@ == p.1;
                    assert(self.elements.0@[j].0 == p.0 && self.elements.0@[j].1@ == p.1);
                }
                if binset_model(self.elements.0@).contains(p) {
                    let j = choose|j: int|
                        0 <= j < self.elements.0@.len() && (#[trigger] self.elements.0@[j]).0
                            == p.0 && self.elements.0@[j].1@ == p.1;
                    assert(r.elements.0@[j].0 == p.0 && r.elements.0@[j].1@ == p.1);
                }
            }
            assert(binset_model(r.elements.0@) =~= binset_model(self.elements.0@));
        }
        r
    }

    fn dup_op(op: &SetOperation<T>) -> (r: SetOperation<T>) {
        match op {
            SetOperation::Added(value) => SetOperation::Added(*value),
            SetOperation::Removed(versions) => {
                let n = versions.len();
                let mut out: Vec<VectorClock> = Vec::new();
                let mut i: usize = 0;
                while i < n
                    invariant
                        n == versions.len(),
                        0 <= i <= n,
                        out@.len() == i,
                        forall|j: int| 0 <= j < i ==> (#[trigger] out@[j])@ == versions@[j]@,
                        forall|j: int|
                            0 <= j < i ==> ((#[trigger] versions@[j]).wf() ==> out@[j].wf()),
                    decreases n - i,
                {
                    out.push(versions[i].clone());
                    i = i + 1;
                }
                SetOperation::Removed(out)
            },
        }
    }
}

/// Two OR-Set effects applied in either order reach the same model, as long
/// as an add's version is not among the versions a remove withdraws (which
/// causal delivery guarantees: a remove only collects versions it has
/// observed, and an unobserved concurrent add keeps its pair).
pub proof fn lemma_or_set_effects_commute<T: Copy + PartialEqSpec>(
    m: Set<(T, Map<i64, u64>)>,
    v1: Map<i64, u64>,
    o1: SetOperation<T>,
    v2: Map<i64, u64>,
    o2: SetOperation<T>,
)
    requires
        (o1 matches SetOperation::Added(_) && o2 matches SetOperation::Removed(w) ==> !clock_views(
            w@,
        ).contains(v1)),
        (o2 matches SetOperation::Added(_) && o1 matches SetOperation::Removed(w) ==> !clock_views(
            w@,
        ).contains(v2)),
    ensures
        ORSet::<T>::effect_model(ORSet::<T>::effect_model(m, v1, o1), v2, o2)
            == ORSet::<T>::effect_model(ORSet::<T>::effect_model(m, v2, o2), v1, o1),
{
    let left = ORSet::<T>::effect_model(ORSet::<T>::effect_model(m, v1, o1), v2, o2);
    let right = ORSet::<T>::effect_model(ORSet::<T>::effect_model(m, v2, o2), v1, o1);
    match (o1, o2) {
        (SetOperation::Added(a), SetOperation::Added(b)) => {
            assert(left =~= right);
        },
        (SetOperation::Added(a), SetOperation::Removed(w)) => {
            assert(left =~= right);
        },
        (SetOperation::Removed(w), SetOperation::Added(b)) => {
            assert(left =~= right);
        },
        (SetOperation::Removed(u), SetOperation::Removed(w)) => {
            assert(left =~= right);
        },
    }
}

} // verus!
