//! RGA (Replicated Growable Array): an insert-after-predecessor sequence
//! CRDT with tombstone deletion.
//!
//! Every element carries a pointer `(seq_nr, replica_id)`, globally unique
//! and totally ordered.  Inserts after the same predecessor are placed in
//! strictly descending pointer order, so every replica produces the same
//! physical list.

use vstd::prelude::*;

verus! {

use crate::causal_console::InputReceiver;
use crate::causal_core::CRDT;
use crate::causal_core::Event;
use crate::causal_core::ReplicaId;
use crate::causal_core::SeqNr;

/// An element pointer: an issue number and the issuing replica.
#[derive(Clone, Copy, PartialEq, Eq, Structural, Debug)]
pub struct RGAPtr {
    pub seq_nr: SeqNr,
    pub replica_id: ReplicaId,
}

/// The pointer of the sentinel that heads every list.
pub open spec fn sentinel() -> RGAPtr {
    RGAPtr { seq_nr: 0u64, replica_id: -1i64 }
}

/// Lexicographic order on pointers: by issue number, then by replica.
pub open spec fn rga_lt(a: RGAPtr, b: RGAPtr) -> bool {
    a.seq_nr < b.seq_nr || (a.seq_nr == b.seq_nr && a.replica_id < b.replica_id)
}

impl RGAPtr {
    /// The base pointer of `replica_id`, issuing from zero.
    pub fn new(replica_id: ReplicaId) -> (r: RGAPtr)
        ensures
            r == (RGAPtr { seq_nr: 0, replica_id }),
    {
        RGAPtr { seq_nr: 0, replica_id }
    }

    /// The next pointer this sequencer issues.
    pub fn next_seq_nr(&self) -> (r: RGAPtr)
        requires
            self.seq_nr < u64::MAX,
        ensures
            r == (RGAPtr { seq_nr: (self.seq_nr + 1) as u64, replica_id: self.replica_id }),
    {
        RGAPtr { seq_nr: self.seq_nr + 1, replica_id: self.replica_id }
    }

    /// Raise the issue number to cover a pointer seen from a peer.
    pub fn update_highest_observed_seq_nr(&mut self, other_ptr: &RGAPtr)
        ensures
            final(self).replica_id == old(self).replica_id,
            final(self).seq_nr == (if other_ptr.seq_nr > old(self).seq_nr {
                other_ptr.seq_nr
            } else {
                old(self).seq_nr
            }),
    {
        if other_ptr.seq_nr > self.seq_nr {
            self.seq_nr = other_ptr.seq_nr;
        }
    }
}

/// A user command: insert a value at a visible index, or remove the value
/// at a visible index.
pub enum RGACommand<T> {
    Insert(usize, T),
    Remove(usize),
}

/// The operation an event carries: a value placed after a predecessor
/// pointer at a fresh pointer, or a pointer tombstoned.
#[derive(Clone, Copy)]
pub enum RGAOperation<T: Copy> {
    Inserted(RGAPtr, RGAPtr, T),
    Removed(RGAPtr),
}

/// The array: a sequencer issuing fresh pointers, and the physical element
/// list headed by a sentinel.  Tombstoned elements keep their slot with no
/// value.
pub struct RGA<T: Copy> {
    sequencer: RGAPtr,
    elements: Vec<(RGAPtr, Option<T>)>,
}

/// Well-formed element list: headed by the shared sentinel, real elements
/// issued from one on, all pointers distinct.
pub open spec fn rga_elements_wf<T>(s: Seq<(RGAPtr, Option<T>)>) -> bool {
    &&& s.len() >= 1
    &&& s[0].0 == sentinel()
    &&& s[0].1 is None
    &&& forall|i: int| 1 <= i < s.len() ==> (#[trigger] s[i]).0.seq_nr >= 1
    &&& forall|i: int, j: int| 0 <= i < j < s.len() ==> s[i].0 != s[j].0
}

/// The first index carrying exactly `p`; the length if none.
pub open spec fn rga_index_of<T>(s: Seq<(RGAPtr, Option<T>)>, p: RGAPtr) -> int
    decreases s.len(),
{
    if s.len() == 0 {
        0
    } else if s[0].0 == p {
        0
    } else {
        1 + rga_index_of(s.drop_first(), p)
    }
}

/// Advance `start` past the elements whose pointer is above `p`, keeping
/// descending pointer order among siblings.
pub open spec fn rga_shift<T>(s: Seq<(RGAPtr, Option<T>)>, start: int, p: RGAPtr) -> int
    decreases s.len() - start,
    when 0 <= start <= s.len()
{
    if 0 <= start < s.len() && rga_lt(p, s[start].0) {
        rga_shift(s, start + 1, p)
    } else {
        start
    }
}

/// The number of visible (non-tombstoned) entries from `offset` on.
pub open spec fn count_some_from<T>(s: Seq<(RGAPtr, Option<T>)>, offset: int) -> int
    decreases s.len() - offset,
    when 0 <= offset <= s.len()
{
    if 0 <= offset < s.len() {
        (if s[offset].1 is Some {
            1int
        } else {
            0int
        }) + count_some_from(s, offset + 1)
    } else {
        0
    }
}

/// The number of visible entries.
pub open spec fn count_visible<T>(s: Seq<(RGAPtr, Option<T>)>) -> int {
    count_some_from(s, 0)
}

/// The physical index reached after consuming `remaining` visible entries
/// from `offset` and skipping tombstones.
pub open spec fn phys_of<T>(s: Seq<(RGAPtr, Option<T>)>, offset: int, remaining: int) -> int
    decreases s.len() - offset,
    when 0 <= offset <= s.len()
{
    if 0 <= offset < s.len() && (remaining > 0 || s[offset].1 is None) {
        phys_of(
            s,
            offset + 1,
            remaining - (if s[offset].1 is Some {
                1int
            } else {
                0int
            }),
        )
    } else {
        offset
    }
}

/// The values of the visible entries, in physical order.
pub open spec fn visible_of<T>(s: Seq<(RGAPtr, Option<T>)>) -> Seq<T>
    decreases s.len(),
{
    if s.len() == 0 {
        Seq::<T>::empty()
    } else {
        visible_of(s.drop_last()) + (match s.last().1 {
            Some(v) => Seq::<T>::empty().push(v),
            None => Seq::<T>::empty(),
        })
    }
}

proof fn lemma_rga_index_of_from_scan<T>(s: Seq<(RGAPtr, Option<T>)>, p: RGAPtr, i: int)
    requires
        0 <= i < s.len(),
        forall|j: int| 0 <= j < i ==> (#[trigger] s[j]).0 != p,
        s[i].0 == p,
    ensures
        rga_index_of(s, p) == i,
    decreases s.len(),
{
    if i > 0 {
        assert(forall|j: int|
            0 <= j < s.drop_first().len() ==> (#[trigger] s.drop_first()[j]) == s[j + 1]);
        lemma_rga_index_of_from_scan(s.drop_first(), p, i - 1);
    }
}

impl<T: Copy> RGA<T> {
    /// The physical index for visible index `index`: consume `index`
    /// visible entries past the sentinel, then skip tombstones.
    fn index_with_tombstones(&self, index: usize) -> (r: usize)
        requires
            self.elements@.len() >= 1,
        ensures
            r == phys_of(self.elements@, 1, index as int),
            1 <= r <= self.elements@.len(),
            (index as int) < count_some_from(self.elements@, 1) ==> r
                < self.elements@.len() && self.elements@[r as int].1 is Some,
    {
        let ghost s = self.elements@;
        let n = self.elements.len();
        let mut offset: usize = 1;
        let mut remaining: usize = index;
        while offset < n && (remaining > 0 || self.elements[offset].1.is_none())
            invariant
                n == self.elements.len(),
                s == self.elements@,
                1 <= offset <= n,
                remaining <= index,
                phys_of(s, 1, index as int) == phys_of(s, offset as int, remaining as int),
                count_some_from(s, offset as int) == count_some_from(s, 1) - (index
                    - remaining),
            decreases n - offset,
        {
            if self.elements[offset].1.is_some() {
                remaining = remaining - 1;
            }
            offset = offset + 1;
        }
        proof {
            if (index as int) < count_some_from(s, 1) {
                if offset == n {
                    assert(count_some_from(s, n as int) == 0);
                    assert(index - remaining <= index);
                    assert(false);
                }
            }
        }
        offset
    }

    /// The position of the element carrying exactly `p`.
    fn find_ptr_index(&self, p: &RGAPtr) -> (r: usize)
        requires
            exists|i: int|
                0 <= i < self.elements@.len() && (#[trigger] self.elements@[i]).0 == *p,
        ensures
            r == rga_index_of(self.elements@, *p),
            r < self.elements@.len(),
            self.elements@[r as int].0 == *p,
    {
        let n = self.elements.len();
        let mut i: usize = 0;
        while i < n
            invariant
                n == self.elements.len(),
                exists|k: int|
                    0 <= k < self.elements@.len() && (#[trigger] self.elements@[k]).0 == *p,
                0 <= i <= n,
                forall|j: int| 0 <= j < i ==> (#[trigger] self.elements@[j]).0 != *p,
            decreases n - i,
        {
            let e = &self.elements[i];
            if e.0.seq_nr == p.seq_nr && e.0.replica_id == p.replica_id {
                proof {
                    lemma_rga_index_of_from_scan(self.elements@, *p, i as int);
                }
                return i;
            }
            i = i + 1;
        }
        proof {
            let k = choose|k: int|
                0 <= k < self.elements@.len() && (#[trigger] self.elements@[k]).0 == *p;
            assert(false);
        }
        0
    }
}

impl<T: Copy> CRDT for RGA<T> {
    type State = Vec<T>;

    type Command = RGACommand<T>;

    type Operation = RGAOperation<T>;

    type Model = (RGAPtr, Seq<(RGAPtr, Option<T>)>);

    closed spec fn wf(&self) -> bool {
        rga_elements_wf(self.elements@)
    }

    closed spec fn model(&self) -> (RGAPtr, Seq<(RGAPtr, Option<T>)>) {
        (self.sequencer, self.elements@)
    }

    open spec fn op_wf(op: RGAOperation<T>) -> bool {
        true
    }

    open spec fn op_matches(a: RGAOperation<T>, b: RGAOperation<T>) -> bool {
        a == b
    }

    open spec fn default_req(replica_id: Option<ReplicaId>) -> bool {
        replica_id is Some
    }

    open spec fn default_model(replica_id: Option<ReplicaId>) -> (
        RGAPtr,
        Seq<(RGAPtr, Option<T>)>,
    ) {
        let id = match replica_id {
            Some(id) => id,
            None => -1i64,
        };
        (
            RGAPtr { seq_nr: 0u64, replica_id: id },
            Seq::<(RGAPtr, Option<T>)>::empty().push((sentinel(), Option::<T>::None)),
        )
    }

    open spec fn query_ens(&self, result: Vec<T>) -> bool {
        result@ == visible_of(self.model().1)
    }

    open spec fn prepare_req(&self, command: RGACommand<T>) -> bool {
        match command {
            RGACommand::Insert(_, _) => self.model().0.seq_nr < u64::MAX,
            RGACommand::Remove(index) => (index as int) < count_some_from(self.model().1, 1),
        }
    }

    open spec fn prepare_ens(&self, command: RGACommand<T>, op: RGAOperation<T>) -> bool {
        match command {
            RGACommand::Insert(index, value) => {
                let s = self.model().1;
                let phys = phys_of(s, 1, index as int);
                op == RGAOperation::Inserted(
                    s[phys - 1].0,
                    RGAPtr {
                        seq_nr: (self.model().0.seq_nr + 1) as u64,
                        replica_id: self.model().0.replica_id,
                    },
                    value,
                )
            },
            RGACommand::Remove(index) => {
                let s = self.model().1;
                let phys = phys_of(s, 1, index as int);
                op == RGAOperation::<T>::Removed(s[phys].0) && s[phys].1 is Some
            },
        }
    }

    open spec fn effect_req(m: (RGAPtr, Seq<(RGAPtr, Option<T>)>), op: RGAOperation<T>) -> bool {
        match op {
            RGAOperation::Inserted(prev, at, _) => {
                &&& exists|i: int| 0 <= i < m.1.len() && (#[trigger] m.1[i]).0 == prev
                &&& !exists|i: int| 0 <= i < m.1.len() && (#[trigger] m.1[i]).0 == at
                &&& at.seq_nr >= 1
            },
            RGAOperation::Removed(at) => exists|i: int|
                0 <= i < m.1.len() && (#[trigger] m.1[i]).0 == at,
        }
    }

    open spec fn effect_model(
        m: (RGAPtr, Seq<(RGAPtr, Option<T>)>),
        version: Map<i64, u64>,
        op: RGAOperation<T>,
    ) -> (RGAPtr, Seq<(RGAPtr, Option<T>)>) {
        match op {
            RGAOperation::Inserted(prev, at, v) => {
                let ins = rga_shift(m.1, rga_index_of(m.1, prev) + 1, at);
                (
                    RGAPtr {
                        seq_nr: (if at.seq_nr > m.0.seq_nr {
                            at.seq_nr
                        } else {
                            m.0.seq_nr
                        }),
                        replica_id: m.0.replica_id,
                    },
                    m.1.insert(ins, (at, Option::Some(v))),
                )
            },
            RGAOperation::Removed(at) => (
                m.0,
                m.1.update(rga_index_of(m.1, at), (at, Option::None)),
            ),
        }
    }

    proof fn op_matches_laws(a: RGAOperation<T>, b: RGAOperation<T>, c: RGAOperation<T>) {
    }

    fn default(replica_id: Option<ReplicaId>) -> (r: Self) {
        let id = match replica_id {
            Some(id) => id,
            None => {
                proof {
                    assert(false);
                }
                -1
            },
        };
        let mut elements: Vec<(RGAPtr, Option<T>)> = Vec::new();
        elements.push((RGAPtr { seq_nr: 0, replica_id: -1 }, Option::None));
        let r = RGA { sequencer: RGAPtr { seq_nr: 0, replica_id: id }, elements };
        proof {
            assert(r.elements@ =~= Seq::<(RGAPtr, Option<T>)>::empty().push((
                sentinel(),
                Option::<T>::None,
            )));
        }
        r
    }

    fn query(&self) -> (r: Vec<T>) {
        let ghost s = self.elements@;
        let n = self.elements.len();
        let mut out: Vec<T> = Vec::new();
        let mut i: usize = 0;
        while i < n
            invariant
                n == self.elements.len(),
                s == self.elements@,
                0 <= i <= n,
                out@ == visible_of(s.take(i as int)),
            decreases n - i,
        {
            proof {
                assert(s.take(i as int + 1).drop_last() =~= s.take(i as int));
                assert(s.take(i as int + 1).last() == s[i as int]);
            }
            match &self.elements[i].1 {
                Some(v) => {
                    out.push(*v);
                },
                None => {},
            }
            i = i + 1;
        }
        proof {
            assert(s.take(n as int) =~= s);
        }
        out
    }

    fn prepare(&self, command: &RGACommand<T>) -> (op: RGAOperation<T>) {
        match command {
            RGACommand::Insert(index, value) => {
                let phys = self.index_with_tombstones(*index);
                let prev_ptr = self.elements[phys - 1].0;
                let at_ptr = self.sequencer.next_seq_nr();
                RGAOperation::Inserted(prev_ptr, at_ptr, *value)
            },
            RGACommand::Remove(index) => {
                let phys = self.index_with_tombstones(*index);
                let at_ptr = self.elements[phys].0;
                RGAOperation::Removed(at_ptr)
            },
        }
    }

    fn effect(&mut self, event: &Event<RGAOperation<T>>) {
        match &event.data {
            RGAOperation::Inserted(prev_ptr, at_ptr, value) => {
                let ghost s = self.elements@;
                let predecessor_index = self.find_ptr_index(prev_ptr);
                let n = self.elements.len();
                let mut offset = predecessor_index + 1;
                while offset < n && (at_ptr.seq_nr < self.elements[offset].0.seq_nr || (
                at_ptr.seq_nr == self.elements[offset].0.seq_nr && at_ptr.replica_id
                    < self.elements[offset].0.replica_id))
                    invariant
                        n == self.elements.len(),
                        s == self.elements@,
                        predecessor_index < n,
                        predecessor_index + 1 <= offset <= n,
                        rga_shift(s, predecessor_index + 1, *at_ptr) == rga_shift(
                            s,
                            offset as int,
                            *at_ptr,
                        ),
                    decreases n - offset,
                {
                    offset = offset + 1;
                }
                self.sequencer.update_highest_observed_seq_nr(at_ptr);
                self.elements.insert(offset, (*at_ptr, Option::Some(*value)));
                proof {
                    assert(self.elements@ =~= s.insert(offset as int, (
                        *at_ptr,
                        Option::Some(*value),
                    )));
                    assert(rga_elements_wf(self.elements@)) by {
                        assert(self.elements@[0] == s[0]);
                        assert forall|i: int|
                            1 <= i < self.elements@.len() implies (
                        #[trigger] self.elements@[i]).0.seq_nr >= 1 by {
                            if i < offset {
                                assert(self.elements@[i] == s[i]);
                            } else if i > offset {
                                assert(self.elements@[i] == s[i - 1]);
                            }
                        }
                        assert forall|i: int, j: int|
                            0 <= i < j < self.elements@.len() implies self.elements@[i].0
                            != self.elements@[j].0 by {
                            let a = if i < offset {
                                s[i]
                            } else if i == offset {
                                (*at_ptr, Option::Some(*value))
                            } else {
                                s[i - 1]
                            };
                            assert(self.elements@[i] == a);
                            let b = if j < offset {
                                s[j]
                            } else if j == offset {
                                (*at_ptr, Option::Some(*value))
                            } else {
                                s[j - 1]
                            };
                            assert(self.elements@[j] == b);
                        }
                    }
                }
            },
            RGAOperation::Removed(at_ptr) => {
                let ghost s = self.elements@;
                let index = self.find_ptr_index(at_ptr);
                self.elements.set(index, (*at_ptr, Option::None));
                proof {
                    assert(self.elements@ =~= s.update(index as int, (
                        *at_ptr,
                        Option::None,
                    )));
                    assert(rga_elements_wf(self.elements@)) by {
                        assert(forall|i: int|
                            0 <= i < self.elements@.len() ==> (#[trigger] self.elements@[i]).0
                                == s[i].0);
                        assert(self.elements@[0].0 == sentinel());
                        if index > 0 {
                            assert(self.elements@[0] == s[0]);
                        }
                    }
                }
            },
        }
    }

    fn dup(&self) -> (r: Self) {
        let n = self.elements.len();
        let mut out: Vec<(RGAPtr, Option<T>)> = Vec::new();
        let mut i: usize = 0;
        while i < n
            invariant
                n == self.elements.len(),
                0 <= i <= n,
                out@ =~= self.elements@.take(i as int),
            decreases n - i,
        {
            out.push(self.elements[i]);
            i = i + 1;
        }
        let r = RGA { sequencer: self.sequencer, elements: out };
        proof {
            assert(r.elements@ =~= self.elements@);
        }
        r
    }

    fn dup_op(op: &RGAOperation<T>) -> (r: RGAOperation<T>) {
        *op
    }
}

/// Where `rga_index_of` points when the pointer is present.
proof fn lemma_rga_index_props<T>(s: Seq<(RGAPtr, Option<T>)>, p: RGAPtr)
    requires
        exists|i: int| 0 <= i < s.len() && (#[trigger] s[i]).0 == p,
    ensures
        0 <= rga_index_of(s, p) < s.len(),
        s[rga_index_of(s, p)].0 == p,
    decreases s.len(),
{
    if s.len() > 0 && s[0].0 != p {
        assert(forall|j: int|
            0 <= j < s.drop_first().len() ==> (#[trigger] s.drop_first()[j]) == s[j + 1]);
        let i = choose|i: int| 0 <= i < s.len() && (#[trigger] s[i]).0 == p;
        assert(s.drop_first()[i - 1].0 == p);
        lemma_rga_index_props(s.drop_first(), p);
    }
}

/// Two RGA removes of distinct pointers tombstone the same two slots in
/// either order.  (Removes never move elements, so their order cannot
/// matter; concurrent inserts are where RGA's convergence argument lives,
/// and that argument is not formalised here.)
pub proof fn lemma_rga_removes_commute<T: Copy>(
    m: (RGAPtr, Seq<(RGAPtr, Option<T>)>),
    v1: Map<i64, u64>,
    p1: RGAPtr,
    v2: Map<i64, u64>,
    p2: RGAPtr,
)
    requires
        p1 != p2,
        forall|i: int, j: int| 0 <= i < j < m.1.len() ==> m.1[i].0 != m.1[j].0,
        RGA::<T>::effect_req(m, RGAOperation::<T>::Removed(p1)),
        RGA::<T>::effect_req(m, RGAOperation::<T>::Removed(p2)),
    ensures
        RGA::<T>::effect_req(
            RGA::<T>::effect_model(m, v1, RGAOperation::<T>::Removed(p1)),
            RGAOperation::<T>::Removed(p2),
        ),
        RGA::<T>::effect_model(
            RGA::<T>::effect_model(m, v1, RGAOperation::<T>::Removed(p1)),
            v2,
            RGAOperation::<T>::Removed(p2),
        ).1 =~= RGA::<T>::effect_model(
            RGA::<T>::effect_model(m, v2, RGAOperation::<T>::Removed(p2)),
            v1,
            RGAOperation::<T>::Removed(p1),
        ).1,
{
    let s = m.1;
    lemma_rga_index_props(s, p1);
    lemma_rga_index_props(s, p2);
    let i1 = rga_index_of(s, p1);
    let i2 = rga_index_of(s, p2);
    let s1 = s.update(i1, (p1, Option::<T>::None));
    let s2 = s.update(i2, (p2, Option::<T>::None));
    assert(forall|k: int| 0 <= k < s1.len() ==> (#[trigger] s1[k]).0 == s[k].0);
    assert(forall|k: int| 0 <= k < s2.len() ==> (#[trigger] s2[k]).0 == s[k].0);
    assert(s1[i2].0 == p2);
    assert(s2[i1].0 == p1);
    lemma_rga_index_same_ptrs(s, s1, p2);
    lemma_rga_index_same_ptrs(s, s2, p1);
    assert(RGA::<T>::effect_model(m, v1, RGAOperation::<T>::Removed(p1)) == (m.0, s1));
    assert(RGA::<T>::effect_model(m, v2, RGAOperation::<T>::Removed(p2)) == (m.0, s2));
    assert(RGA::<T>::effect_req((m.0, s1), RGAOperation::<T>::Removed(p2))) by {
        let mi = (m.0, s1);
        assert(mi.1 == s1);
        assert(0 <= i2 < mi.1.len() && mi.1[i2].0 == p2);
    }
    assert(s1.update(i2, (p2, Option::<T>::None)) =~= s2.update(i1, (p1, Option::<T>::None)));
}

/// Two lists with the same pointers slot a pointer at the same index.
proof fn lemma_rga_index_same_ptrs<T>(
    s: Seq<(RGAPtr, Option<T>)>,
    s2: Seq<(RGAPtr, Option<T>)>,
    p: RGAPtr,
)
    requires
        s.len() == s2.len(),
        forall|k: int| 0 <= k < s.len() ==> (#[trigger] s[k]).0 == s2[k].0,
    ensures
        rga_index_of(s, p) == rga_index_of(s2, p),
    decreases s.len(),
{
    if s.len() > 0 && s[0].0 != p {
        assert(forall|j: int|
            0 <= j < s.drop_first().len() ==> (#[trigger] s.drop_first()[j]) == s[j + 1]);
        assert(forall|j: int|
            0 <= j < s2.drop_first().len() ==> (#[trigger] s2.drop_first()[j]) == s2[j + 1]);
        lemma_rga_index_same_ptrs(s.drop_first(), s2.drop_first(), p);
    }
}

/// Records terminal edits as RGA commands.
pub struct RGAReceiver {
    pub commands: Vec<RGACommand<char>>,
}

impl RGAReceiver {
    /// A receiver with no commands yet.
    pub fn new() -> (r: RGAReceiver)
        ensures
            r.commands@ =~= Seq::<RGACommand<char>>::empty(),
    {
        RGAReceiver { commands: Vec::new() }
    }
}

impl InputReceiver for RGAReceiver {
    open spec fn insert_ens(pre: Self, post: Self, position: usize, character: char) -> bool {
        post.commands@ == pre.commands@.push(RGACommand::Insert(position, character))
    }

    open spec fn remove_ens(pre: Self, post: Self, position: usize) -> bool {
        post.commands@ == pre.commands@.push(RGACommand::Remove(position))
    }

    fn insert_at(&mut self, position: usize, character: char) {
        self.commands.push(RGACommand::Insert(position, character));
    }

    fn remove_at(&mut self, position: usize) {
        self.commands.push(RGACommand::Remove(position));
    }
}

} // verus!
