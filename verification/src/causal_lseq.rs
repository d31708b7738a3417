//! LSeq: an ordered-sequence CRDT with densely allocatable identifiers.
//!
//! Each element carries a pointer: a byte sequence ordered lexicographically
//! (a strict prefix sorts first) with the owning replica as final tiebreak.
//! A fresh pointer is generated strictly between two neighbours, so
//! concurrent inserts land deterministically on every replica.

use vstd::prelude::*;

verus! {

use crate::causal_core::CRDT;
use crate::causal_core::Event;
use crate::causal_core::ReplicaId;
use crate::causal_console::InputReceiver;

/// Strict lexicographic order on byte sequences; a strict prefix sorts
/// before every extension of it.
pub open spec fn seq_lt(a: Seq<u8>, b: Seq<u8>) -> bool
    decreases b.len(),
{
    if b.len() == 0 {
        false
    } else if a.len() == 0 {
        true
    } else if a[0] < b[0] {
        true
    } else if a[0] > b[0] {
        false
    } else {
        seq_lt(a.drop_first(), b.drop_first())
    }
}

/// `b` extends `a` with zero bytes only.  Between such neighbours no fresh
/// sequence strictly fits; stored pointers never end in a zero byte, so the
/// case does not arise between generated pointers.
pub open spec fn zero_extension(a: Seq<u8>, b: Seq<u8>) -> bool {
    &&& b.len() > a.len()
    &&& forall|i: int| 0 <= i < a.len() ==> a[i] == #[trigger] b[i]
    &&& forall|i: int| a.len() <= i < b.len() ==> #[trigger] b[i] == 0
}

/// The byte at `i`, or `d` past the end.
pub open spec fn ext_at(s: Seq<u8>, i: int, d: u8) -> u8 {
    if 0 <= i < s.len() {
        s[i]
    } else {
        d
    }
}

/// The suffix of `s` from `i`, empty past the end.
pub open spec fn suffix(s: Seq<u8>, i: int) -> Seq<u8> {
    if 0 <= i <= s.len() {
        s.skip(i)
    } else {
        Seq::empty()
    }
}

proof fn lemma_suffix_step(s: Seq<u8>, i: int)
    requires
        0 <= i,
    ensures
        suffix(s, i).len() == (if i <= s.len() {
            s.len() - i
        } else {
            0
        }),
        i < s.len() ==> suffix(s, i)[0] == s[i],
        suffix(s, i + 1) =~= (if suffix(s, i).len() > 0 {
            suffix(s, i).drop_first()
        } else {
            Seq::<u8>::empty()
        }),
{
}

/// No sequence sorts strictly before itself.
pub proof fn lemma_seq_lt_irrefl(a: Seq<u8>)
    ensures
        !seq_lt(a, a),
    decreases a.len(),
{
    if a.len() > 0 {
        lemma_seq_lt_irrefl(a.drop_first());
    }
}

/// Strict order is irreflexive and total: of two distinct sequences one is
/// smaller.
pub proof fn lemma_seq_lt_trichotomy(a: Seq<u8>, b: Seq<u8>)
    ensures
        seq_lt(a, b) || seq_lt(b, a) || a =~= b,
        !(seq_lt(a, b) && seq_lt(b, a)),
        !seq_lt(a, a),
        !seq_lt(b, b),
    decreases a.len() + b.len(),
{
    lemma_seq_lt_irrefl(a);
    lemma_seq_lt_irrefl(b);
    if a.len() > 0 && b.len() > 0 && a[0] == b[0] {
        lemma_seq_lt_trichotomy(a.drop_first(), b.drop_first());
        if a.drop_first() =~= b.drop_first() {
            assert forall|i: int| 0 <= i < a.len() implies a[i] == b[i] by {
                if i > 0 {
                    assert(a.drop_first()[i - 1] == b.drop_first()[i - 1]);
                }
            }
            assert(a =~= b);
        }
    } else {
        if a.len() == 0 && b.len() == 0 {
            assert(a =~= b);
        }
    }
}

/// Strict order is transitive.
pub proof fn lemma_seq_lt_trans(a: Seq<u8>, b: Seq<u8>, c: Seq<u8>)
    requires
        seq_lt(a, b),
        seq_lt(b, c),
    ensures
        seq_lt(a, c),
    decreases a.len() + b.len() + c.len(),
{
    if a.len() > 0 && c.len() > 0 && a[0] == c[0] {
        assert(b.len() > 0);
        lemma_seq_lt_trans(a.drop_first(), b.drop_first(), c.drop_first());
    }
}

/// An element pointer: a generated byte sequence plus the owning replica.
pub struct LSeqPtr {
    pub sequence: Vec<u8>,
    pub replica_id: ReplicaId,
}

/// The mathematical content of a pointer.
pub open spec fn ptr_view(p: LSeqPtr) -> (Seq<u8>, i64) {
    (p.sequence@, p.replica_id)
}

/// Strict order on pointer views: lexicographic on the sequence, owner as
/// final tiebreak.
pub open spec fn view_lt(a: (Seq<u8>, i64), b: (Seq<u8>, i64)) -> bool {
    seq_lt(a.0, b.0) || (a.0 == b.0 && a.1 < b.1)
}

/// Non-strict order on pointer views.
pub open spec fn view_le(a: (Seq<u8>, i64), b: (Seq<u8>, i64)) -> bool {
    view_lt(a, b) || a == b
}

/// Copies a byte vector exactly.
fn dup_bytes(v: &Vec<u8>) -> (r: Vec<u8>)
    ensures
        r@ == v@,
{
    let n = v.len();
    let mut out: Vec<u8> = Vec::new();
    let mut i: usize = 0;
    while i < n
        invariant
            n == v.len(),
            0 <= i <= n,
            out@ =~= v@.take(i as int),
        decreases n - i,
    {
        out.push(v[i]);
        i = i + 1;
    }
    proof {
        assert(out@ =~= v@);
    }
    out
}

/// The generated tail for the suffixes of `low` and `high` from `i` on:
/// strictly above the `low` suffix, and strictly below the `high` suffix
/// whenever something fits between them.
fn generate_from(low: &Vec<u8>, high: &Vec<u8>, i: usize) -> (r: Vec<u8>)
    requires
        i <= low@.len() + high@.len(),
    ensures
        seq_lt(suffix(low@, i as int), r@),
        (seq_lt(suffix(low@, i as int), suffix(high@, i as int)) && !zero_extension(
            suffix(low@, i as int),
            suffix(high@, i as int),
        )) ==> seq_lt(r@, suffix(high@, i as int)),
    decreases low@.len() + high@.len() - i,
{
    let ghost ls = suffix(low@, i as int);
    let ghost hs = suffix(high@, i as int);
    proof {
        lemma_suffix_step(low@, i as int);
        lemma_suffix_step(high@, i as int);
    }
    let min = if i >= low.len() {
        0
    } else {
        low[i]
    };
    let max_bound = if i >= high.len() {
        255
    } else {
        high[i]
    };
    proof {
        assert(min == ext_at(low@, i as int, 0));
        assert(max_bound == ext_at(high@, i as int, 255));
    }
    if (min as u16) + 1 < (max_bound as u16) {
        let mut r: Vec<u8> = Vec::new();
        r.push(min + 1);
        proof {
            assert(r@ =~= Seq::<u8>::empty().push((min + 1) as u8));
            assert(r@.len() == 1);
            assert(r@[0] == min + 1);
            if ls.len() > 0 {
                assert(ls[0] == min);
                assert(seq_lt(ls, r@));
            } else {
                assert(seq_lt(ls, r@));
            }
            if seq_lt(ls, hs) && !zero_extension(ls, hs) {
                assert(hs.len() > 0);
                assert(hs[0] == max_bound);
                assert(seq_lt(r@, hs));
            }
        }
        r
    } else {
        let mut rest = generate_from(low, high, i + 1);
        let ghost rest_view = rest@;
        rest.insert(0, min);
        proof {
            lemma_suffix_step(low@, i as int + 1);
            lemma_suffix_step(high@, i as int + 1);
            let ls2 = suffix(low@, i as int + 1);
            let hs2 = suffix(high@, i as int + 1);
            assert(rest@ =~= Seq::<u8>::empty().push(min).add(rest_view));
            assert(rest@[0] == min);
            assert(rest@.drop_first() =~= rest_view);
            // The low suffix stays strictly below: equal head, then induction.
            if ls.len() > 0 {
                assert(ls[0] == min);
                assert(ls.drop_first() =~= ls2);
                assert(seq_lt(ls, rest@));
            } else {
                assert(seq_lt(ls, rest@));
            }
            if seq_lt(ls, hs) && !zero_extension(ls, hs) {
                assert(hs.len() > 0);
                assert(hs[0] == max_bound);
                // This position was blocked: the heads are adjacent or equal.
                assert((min as int) + 1 >= max_bound as int);
                if ls.len() > 0 {
                    if ls[0] < hs[0] {
                        // Adjacent heads: the copied head is already smaller.
                        assert(rest@[0] < hs[0]);
                        assert(seq_lt(rest@, hs));
                    } else {
                        assert(ls[0] == hs[0]);
                        assert(ls.drop_first() =~= ls2);
                        assert(hs.drop_first() =~= hs2);
                        assert(seq_lt(ls2, hs2));
                        assert(!zero_extension(ls2, hs2)) by {
                            if zero_extension(ls2, hs2) {
                                assert forall|j: int|
                                    0 <= j < ls.len() implies ls[j] == hs[j] by {
                                    if j > 0 {
                                        assert(ls2[j - 1] == hs2[j - 1]);
                                    }
                                }
                                assert forall|j: int|
                                    ls.len() <= j < hs.len() implies hs[j] == 0 by {
                                    assert(hs2[j - 1] == 0);
                                }
                                assert(zero_extension(ls, hs));
                            }
                        }
                        assert(seq_lt(rest_view, hs2));
                        assert(seq_lt(rest@, hs));
                    }
                } else {
                    // The low suffix is exhausted: its bytes read as zero.
                    assert(min == 0);
                    assert(hs[0] <= 1);
                    if hs[0] == 1 {
                        assert(rest@[0] < hs[0]);
                        assert(seq_lt(rest@, hs));
                    } else {
                        assert(hs[0] == 0);
                        assert(ls2 =~= Seq::<u8>::empty());
                        assert(hs.drop_first() =~= hs2);
                        assert(seq_lt(ls2, hs2)) by {
                            if hs2.len() == 0 {
                                assert(hs.len() == 1);
                                assert(zero_extension(ls, hs));
                            }
                        }
                        assert(!zero_extension(ls2, hs2)) by {
                            if zero_extension(ls2, hs2) {
                                assert forall|j: int|
                                    ls.len() <= j < hs.len() implies hs[j] == 0 by {
                                    if j > 0 {
                                        assert(hs2[j - 1] == 0);
                                    }
                                }
                                assert(zero_extension(ls, hs));
                            }
                        }
                        assert(seq_lt(rest_view, hs2));
                        assert(seq_lt(rest@, hs));
                    }
                }
            }
        }
        rest
    }
}

impl LSeqPtr {
    /// A pointer with an empty sequence, owned by `replica_id`.
    pub fn new(replica_id: ReplicaId) -> (r: LSeqPtr)
        ensures
            r.sequence@ == Seq::<u8>::empty(),
            r.replica_id == replica_id,
    {
        let sequence: Vec<u8> = Vec::new();
        proof {
            assert(sequence@ =~= Seq::<u8>::empty());
        }
        LSeqPtr { sequence, replica_id }
    }

    /// A fresh pointer strictly between `low` and `high`, owned by
    /// `replica_id`.
    pub fn from(replica_id: ReplicaId, low: &Vec<u8>, high: &Vec<u8>) -> (r: LSeqPtr)
        ensures
            r.replica_id == replica_id,
            seq_lt(low@, r.sequence@),
            (seq_lt(low@, high@) && !zero_extension(low@, high@)) ==> seq_lt(
                r.sequence@,
                high@,
            ),
    {
        let sequence = LSeqPtr::generate_seq(low, high);
        LSeqPtr { sequence, replica_id }
    }

    /// A byte sequence strictly between `low` and `high` (`high` permitting).
    pub fn generate_seq(low: &Vec<u8>, high: &Vec<u8>) -> (r: Vec<u8>)
        ensures
            seq_lt(low@, r@),
            (seq_lt(low@, high@) && !zero_extension(low@, high@)) ==> seq_lt(r@, high@),
    {
        proof {
            assert(suffix(low@, 0) =~= low@);
            assert(suffix(high@, 0) =~= high@);
        }
        generate_from(low, high, 0)
    }
}

impl Clone for LSeqPtr {
    /// An exact copy: the views coincide.
    fn clone(&self) -> (r: Self)
        ensures
            ptr_view(r) == ptr_view(*self),
    {
        LSeqPtr { sequence: dup_bytes(&self.sequence), replica_id: self.replica_id }
    }
}

impl PartialEq for LSeqPtr {
    fn eq(&self, other: &Self) -> (r: bool) {
        if self.replica_id != other.replica_id {
            return false;
        }
        if self.sequence.len() != other.sequence.len() {
            return false;
        }
        let n = self.sequence.len();
        let mut i: usize = 0;
        while i < n
            invariant
                n == self.sequence.len(),
                n == other.sequence.len(),
                0 <= i <= n,
                forall|j: int| 0 <= j < i ==> self.sequence@[j] == other.sequence@[j],
            decreases n - i,
        {
            if self.sequence[i] != other.sequence[i] {
                return false;
            }
            i = i + 1;
        }
        proof {
            assert(self.sequence@ =~= other.sequence@);
        }
        true
    }
}

impl vstd::std_specs::cmp::PartialEqSpecImpl for LSeqPtr {
    open spec fn obeys_eq_spec() -> bool {
        true
    }

    open spec fn eq_spec(&self, other: &LSeqPtr) -> bool {
        ptr_view(*self) == ptr_view(*other)
    }
}

impl PartialOrd for LSeqPtr {
    fn partial_cmp(&self, other: &Self) -> (r: Option<core::cmp::Ordering>) {
        let a = &self.sequence;
        let b = &other.sequence;
        let n = if a.len() <= b.len() {
            a.len()
        } else {
            b.len()
        };
        let mut i: usize = 0;
        while i < n
            invariant
                n <= a.len(),
                n <= b.len(),
                n == (if a.len() <= b.len() {
                    a.len()
                } else {
                    b.len()
                }),
                a@ == self.sequence@,
                b@ == other.sequence@,
                0 <= i <= n,
                forall|j: int| 0 <= j < i ==> a@[j] == b@[j],
            decreases n - i,
        {
            if a[i] < b[i] {
                proof {
                    lemma_lt_common(a@, b@, i as int);
                    assert(seq_lt(self.sequence@, other.sequence@));
                    assert(view_lt(ptr_view(*self), ptr_view(*other)));
                }
                return Some(core::cmp::Ordering::Less);
            }
            if a[i] > b[i] {
                proof {
                    lemma_lt_common(b@, a@, i as int);
                    lemma_seq_lt_trichotomy(a@, b@);
                    assert(seq_lt(other.sequence@, self.sequence@));
                    assert(!view_lt(ptr_view(*self), ptr_view(*other)));
                    assert(ptr_view(*self) != ptr_view(*other));
                }
                return Some(core::cmp::Ordering::Greater);
            }
            i = i + 1;
        }
        if a.len() < b.len() {
            proof {
                lemma_lt_prefix(a@, b@);
                assert(view_lt(ptr_view(*self), ptr_view(*other)));
            }
            return Some(core::cmp::Ordering::Less);
        }
        if a.len() > b.len() {
            proof {
                lemma_lt_prefix(b@, a@);
                lemma_seq_lt_trichotomy(a@, b@);
                assert(!view_lt(ptr_view(*self), ptr_view(*other)));
                assert(ptr_view(*self) != ptr_view(*other));
            }
            return Some(core::cmp::Ordering::Greater);
        }
        proof {
            assert(a@ =~= b@);
            lemma_seq_lt_trichotomy(a@, b@);
        }
        if self.replica_id < other.replica_id {
            Some(core::cmp::Ordering::Less)
        } else if self.replica_id > other.replica_id {
            Some(core::cmp::Ordering::Greater)
        } else {
            Some(core::cmp::Ordering::Equal)
        }
    }
}

impl vstd::std_specs::cmp::PartialOrdSpecImpl for LSeqPtr {
    open spec fn obeys_partial_cmp_spec() -> bool {
        true
    }

    open spec fn partial_cmp_spec(&self, other: &LSeqPtr) -> Option<core::cmp::Ordering> {
        if view_lt(ptr_view(*self), ptr_view(*other)) {
            Some(core::cmp::Ordering::Less)
        } else if ptr_view(*self) == ptr_view(*other) {
            Some(core::cmp::Ordering::Equal)
        } else {
            Some(core::cmp::Ordering::Greater)
        }
    }
}

/// A shared prefix followed by a smaller byte puts `a` strictly first.
proof fn lemma_lt_common(a: Seq<u8>, b: Seq<u8>, i: int)
    requires
        0 <= i < a.len(),
        i < b.len(),
        forall|j: int| 0 <= j < i ==> a[j] == b[j],
        a[i] < b[i],
    ensures
        seq_lt(a, b),
    decreases i,
{
    if i > 0 {
        lemma_lt_common(a.drop_first(), b.drop_first(), i - 1);
    }
}

/// A strict prefix sorts first.
proof fn lemma_lt_prefix(a: Seq<u8>, b: Seq<u8>)
    requires
        a.len() < b.len(),
        forall|j: int| 0 <= j < a.len() ==> a[j] == b[j],
    ensures
        seq_lt(a, b),
    decreases a.len(),
{
    if a.len() > 0 {
        lemma_lt_prefix(a.drop_first(), b.drop_first());
    }
}

/// A user command against the sequence: insert a value at a visible index
/// (naming the inserting replica), or remove the value at an index.
pub enum LSeqCommand<T> {
    Insert(usize, ReplicaId, T),
    Remove(usize),
}

/// The operation an event carries: a value placed at a fresh pointer, or a
/// pointer withdrawn.
pub enum LSeqOperation<T> {
    Inserted(LSeqPtr, T),
    Removed(LSeqPtr),
}

/// The ordered sequence: elements sorted strictly by pointer.
pub struct LSeq<T> {
    elements: Vec<(LSeqPtr, T)>,
}

/// The mathematical content of the element list.
pub open spec fn lseq_model<T>(s: Seq<(LSeqPtr, T)>) -> Seq<((Seq<u8>, i64), T)> {
    s.map_values(|e: (LSeqPtr, T)| (ptr_view(e.0), e.1))
}

/// Pointers strictly increase along the model.
pub open spec fn model_sorted<T>(m: Seq<((Seq<u8>, i64), T)>) -> bool {
    forall|i: int, j: int| 0 <= i < j < m.len() ==> view_lt(m[i].0, m[j].0)
}

/// Does some element carry this pointer?
pub open spec fn model_has_ptr<T>(m: Seq<((Seq<u8>, i64), T)>, pv: (Seq<u8>, i64)) -> bool {
    exists|i: int| 0 <= i < m.len() && (#[trigger] m[i]).0 == pv
}

/// The first index whose pointer is at or above `pv`; the length if none.
pub open spec fn insert_index<T>(m: Seq<((Seq<u8>, i64), T)>, pv: (Seq<u8>, i64)) -> int
    decreases m.len(),
{
    if m.len() == 0 {
        0
    } else if view_le(pv, m[0].0) {
        0
    } else {
        1 + insert_index(m.drop_first(), pv)
    }
}

/// The first index carrying exactly `pv`; the length if none.
pub open spec fn index_of_ptr<T>(m: Seq<((Seq<u8>, i64), T)>, pv: (Seq<u8>, i64)) -> int
    decreases m.len(),
{
    if m.len() == 0 {
        0
    } else if m[0].0 == pv {
        0
    } else {
        1 + index_of_ptr(m.drop_first(), pv)
    }
}

/// What the insert position satisfies: everything before is strictly below
/// the pointer, and the element at it (if any) is at or above it.
proof fn lemma_insert_index_props<T>(m: Seq<((Seq<u8>, i64), T)>, pv: (Seq<u8>, i64))
    ensures
        0 <= insert_index(m, pv) <= m.len(),
        forall|j: int| 0 <= j < insert_index(m, pv) ==> !view_le(pv, (#[trigger] m[j]).0),
        insert_index(m, pv) < m.len() ==> view_le(pv, m[insert_index(m, pv)].0),
    decreases m.len(),
{
    if m.len() > 0 && !view_le(pv, m[0].0) {
        lemma_insert_index_props(m.drop_first(), pv);
        let k = insert_index(m, pv);
        assert forall|j: int| 0 <= j < k implies !view_le(pv, (#[trigger] m[j]).0) by {
            if j > 0 {
                assert(m.drop_first()[j - 1] == m[j]);
            }
        }
        if k < m.len() {
            assert(m.drop_first()[k - 1] == m[k]);
        }
    }
}

proof fn lemma_insert_index_from_scan<T>(m: Seq<((Seq<u8>, i64), T)>, pv: (Seq<u8>, i64), i: int)
    requires
        0 <= i <= m.len(),
        forall|j: int| 0 <= j < i ==> !view_le(pv, (#[trigger] m[j]).0),
        i < m.len() ==> view_le(pv, m[i].0),
    ensures
        insert_index(m, pv) == i,
    decreases m.len(),
{
    if m.len() > 0 && i > 0 {
        assert(forall|j: int|
            0 <= j < m.drop_first().len() ==> (#[trigger] m.drop_first()[j]) == m[j + 1]);
        lemma_insert_index_from_scan(m.drop_first(), pv, i - 1);
    }
}

proof fn lemma_index_of_from_scan<T>(m: Seq<((Seq<u8>, i64), T)>, pv: (Seq<u8>, i64), i: int)
    requires
        0 <= i < m.len(),
        forall|j: int| 0 <= j < i ==> (#[trigger] m[j]).0 != pv,
        m[i].0 == pv,
    ensures
        index_of_ptr(m, pv) == i,
    decreases m.len(),
{
    if i > 0 {
        assert(forall|j: int|
            0 <= j < m.drop_first().len() ==> (#[trigger] m.drop_first()[j]) == m[j + 1]);
        lemma_index_of_from_scan(m.drop_first(), pv, i - 1);
    }
}


impl<T: Copy> LSeq<T> {
    /// The scan position for a fresh pointer: the first element at or above
    /// it.
    fn find_insert_index(&self, p: &LSeqPtr) -> (r: usize)
        ensures
            r == insert_index(lseq_model(self.elements@), ptr_view(*p)),
            r <= self.elements@.len(),
    {
        let n = self.elements.len();
        let mut i: usize = 0;
        while i < n
            invariant
                n == self.elements.len(),
                0 <= i <= n,
                forall|j: int|
                    0 <= j < i ==> !view_le(
                        ptr_view(*p),
                        (#[trigger] lseq_model(self.elements@)[j]).0,
                    ),
            decreases n - i,
        {
            proof {
                assert(lseq_model(self.elements@)[i as int] == (
                    ptr_view(self.elements@[i as int].0),
                    self.elements@[i as int].1,
                ));
            }
            if p.le(&self.elements[i].0) {
                proof {
                    lemma_insert_index_from_scan(
                        lseq_model(self.elements@),
                        ptr_view(*p),
                        i as int,
                    );
                }
                return i;
            }
            i = i + 1;
        }
        proof {
            lemma_insert_index_from_scan(lseq_model(self.elements@), ptr_view(*p), n as int);
        }
        n
    }

    /// The position of the element carrying exactly this pointer.
    fn find_ptr_index(&self, p: &LSeqPtr) -> (r: usize)
        requires
            model_has_ptr(lseq_model(self.elements@), ptr_view(*p)),
        ensures
            r == index_of_ptr(lseq_model(self.elements@), ptr_view(*p)),
            r < self.elements@.len(),
    {
        let n = self.elements.len();
        let mut i: usize = 0;
        while i < n
            invariant
                n == self.elements.len(),
                model_has_ptr(lseq_model(self.elements@), ptr_view(*p)),
                0 <= i <= n,
                forall|j: int|
                    0 <= j < i ==> (#[trigger] lseq_model(self.elements@)[j]).0 != ptr_view(
                        *p,
                    ),
            decreases n - i,
        {
            proof {
                assert(lseq_model(self.elements@)[i as int] == (
                    ptr_view(self.elements@[i as int].0),
                    self.elements@[i as int].1,
                ));
            }
            if p.eq(&self.elements[i].0) {
                proof {
                    lemma_index_of_from_scan(
                        lseq_model(self.elements@),
                        ptr_view(*p),
                        i as int,
                    );
                }
                return i;
            }
            i = i + 1;
        }
        proof {
            let m = lseq_model(self.elements@);
            let w = choose|j: int| 0 <= j < m.len() && (#[trigger] m[j]).0 == ptr_view(*p);
            assert(false);
        }
        0
    }
}

impl<T: Copy> CRDT for LSeq<T> {
    type State = Vec<T>;

    type Command = LSeqCommand<T>;

    type Operation = LSeqOperation<T>;

    type Model = Seq<((Seq<u8>, i64), T)>;

    closed spec fn wf(&self) -> bool {
        model_sorted(lseq_model(self.elements@))
    }

    closed spec fn model(&self) -> Seq<((Seq<u8>, i64), T)> {
        lseq_model(self.elements@)
    }

    open spec fn op_wf(op: LSeqOperation<T>) -> bool {
        true
    }

    open spec fn op_matches(a: LSeqOperation<T>, b: LSeqOperation<T>) -> bool {
        match (a, b) {
            (LSeqOperation::Inserted(p1, v1), LSeqOperation::Inserted(p2, v2)) => ptr_view(p1)
                == ptr_view(p2) && v1 == v2,
            (LSeqOperation::Removed(p1), LSeqOperation::Removed(p2)) => ptr_view(p1)
                == ptr_view(p2),
            _ => false,
        }
    }

    open spec fn default_req(replica_id: Option<ReplicaId>) -> bool {
        true
    }

    open spec fn default_model(replica_id: Option<ReplicaId>) -> Seq<((Seq<u8>, i64), T)> {
        Seq::empty()
    }

    open spec fn query_ens(&self, result: Vec<T>) -> bool {
        &&& result@.len() == self.model().len()
        &&& forall|i: int|
            0 <= i < result@.len() ==> result@[i] == (#[trigger] self.model()[i]).1
    }

    open spec fn prepare_req(&self, command: LSeqCommand<T>) -> bool {
        match command {
            LSeqCommand::Insert(index, _, _) => index <= self.model().len(),
            LSeqCommand::Remove(index) => index < self.model().len(),
        }
    }

    open spec fn prepare_ens(&self, command: LSeqCommand<T>, op: LSeqOperation<T>) -> bool {
        match command {
            LSeqCommand::Insert(index, owner, value) => match op {
                LSeqOperation::Inserted(p, v) => {
                    let left = if index == 0 {
                        Seq::<u8>::empty()
                    } else {
                        self.model()[index - 1].0.0
                    };
                    let right = if index >= self.model().len() {
                        Seq::<u8>::empty()
                    } else {
                        self.model()[index as int].0.0
                    };
                    &&& v == value
                    &&& p.replica_id == owner
                    &&& seq_lt(left, p.sequence@)
                    &&& (index < self.model().len() && seq_lt(left, right)
                        && !zero_extension(left, right)) ==> seq_lt(p.sequence@, right)
                },
                _ => false,
            },
            LSeqCommand::Remove(index) => match op {
                LSeqOperation::Removed(p) => index < self.model().len() && ptr_view(p)
                    == self.model()[index as int].0,
                _ => false,
            },
        }
    }

    open spec fn effect_req(m: Seq<((Seq<u8>, i64), T)>, op: LSeqOperation<T>) -> bool {
        match op {
            LSeqOperation::Inserted(p, _) => !model_has_ptr(m, ptr_view(p)),
            LSeqOperation::Removed(p) => model_has_ptr(m, ptr_view(p)),
        }
    }

    open spec fn effect_model(
        m: Seq<((Seq<u8>, i64), T)>,
        version: Map<i64, u64>,
        op: LSeqOperation<T>,
    ) -> Seq<((Seq<u8>, i64), T)> {
        match op {
            LSeqOperation::Inserted(p, v) => m.insert(
                insert_index(m, ptr_view(p)),
                (ptr_view(p), v),
            ),
            LSeqOperation::Removed(p) => m.remove(index_of_ptr(m, ptr_view(p))),
        }
    }

    proof fn op_matches_laws(a: LSeqOperation<T>, b: LSeqOperation<T>, c: LSeqOperation<T>) {
    }

    fn default(replica_id: Option<ReplicaId>) -> (r: Self) {
        let r = LSeq { elements: Vec::new() };
        proof {
            assert(lseq_model(r.elements@) =~= Seq::<((Seq<u8>, i64), T)>::empty());
        }
        r
    }

    fn query(&self) -> (r: Vec<T>) {
        let n = self.elements.len();
        let mut out: Vec<T> = Vec::new();
        let mut i: usize = 0;
        while i < n
            invariant
                n == self.elements.len(),
                0 <= i <= n,
                out@.len() == i,
                forall|j: int|
                    0 <= j < i ==> out@[j] == (#[trigger] lseq_model(self.elements@)[j]).1,
            decreases n - i,
        {
            out.push(self.elements[i].1);
            i = i + 1;
        }
        out
    }

    fn prepare(&self, command: &LSeqCommand<T>) -> (op: LSeqOperation<T>) {
        match command {
            LSeqCommand::Insert(index, replica_id, value) => {
                let index = *index;
                let empty_sequence: Vec<u8> = Vec::new();
                proof {
                    assert(empty_sequence@ =~= Seq::<u8>::empty());
                    if index > 0 {
                        assert(lseq_model(self.elements@)[index - 1] == (
                            ptr_view(self.elements@[index - 1].0),
                            self.elements@[index - 1].1,
                        ));
                    }
                    if index < self.elements@.len() {
                        assert(lseq_model(self.elements@)[index as int] == (
                            ptr_view(self.elements@[index as int].0),
                            self.elements@[index as int].1,
                        ));
                    }
                }
                let left: &Vec<u8> = if index == 0 {
                    &empty_sequence
                } else {
                    &self.elements[index - 1].0.sequence
                };
                let right: &Vec<u8> = if index >= self.elements.len() {
                    &empty_sequence
                } else {
                    &self.elements[index].0.sequence
                };
                let p = LSeqPtr::from(*replica_id, left, right);
                LSeqOperation::Inserted(p, *value)
            },
            LSeqCommand::Remove(index) => {
                proof {
                    assert(lseq_model(self.elements@)[*index as int] == (
                        ptr_view(self.elements@[*index as int].0),
                        self.elements@[*index as int].1,
                    ));
                }
                LSeqOperation::Removed(self.elements[*index].0.clone())
            },
        }
    }

    fn effect(&mut self, event: &Event<LSeqOperation<T>>) {
        match &event.data {
            LSeqOperation::Inserted(ins_ptr, value) => {
                let ghost m = lseq_model(self.elements@);
                let ghost pv = ptr_view(*ins_ptr);
                let i = self.find_insert_index(ins_ptr);
                let stored = (
                    LSeqPtr {
                        sequence: dup_bytes(&ins_ptr.sequence),
                        replica_id: ins_ptr.replica_id,
                    },
                    *value,
                );
                self.elements.insert(i, stored);
                proof {
                    let m2 = lseq_model(self.elements@);
                    assert forall|j: int| 0 <= j < m2.len() implies m2[j] == m.insert(
                        i as int,
                        (pv, *value),
                    )[j] by {
                        assert(m2[j] == (
                            ptr_view(self.elements@[j].0),
                            self.elements@[j].1,
                        ));
                        if j < i {
                            assert(self.elements@[j] == old(self).elements@[j]);
                            assert(m[j] == (
                                ptr_view(old(self).elements@[j].0),
                                old(self).elements@[j].1,
                            ));
                        } else if j > i {
                            assert(self.elements@[j] == old(self).elements@[j - 1]);
                            assert(m[j - 1] == (
                                ptr_view(old(self).elements@[j - 1].0),
                                old(self).elements@[j - 1].1,
                            ));
                        }
                    }
                    assert(m2 =~= m.insert(i as int, (pv, *value)));
                    lemma_insert_index_props(m, pv);
                    lemma_sorted_after_insert(m, pv, *value, i as int);
                }
            },
            LSeqOperation::Removed(rem_ptr) => {
                let ghost m = lseq_model(self.elements@);
                let ghost pv = ptr_view(*rem_ptr);
                let i = self.find_ptr_index(rem_ptr);
                self.elements.remove(i);
                proof {
                    let m2 = lseq_model(self.elements@);
                    assert forall|j: int| 0 <= j < m2.len() implies m2[j] == m.remove(
                        i as int,
                    )[j] by {
                        assert(m2[j] == (
                            ptr_view(self.elements@[j].0),
                            self.elements@[j].1,
                        ));
                        if j < i {
                            assert(self.elements@[j] == old(self).elements@[j]);
                            assert(m[j] == (
                                ptr_view(old(self).elements@[j].0),
                                old(self).elements@[j].1,
                            ));
                        } else {
                            assert(self.elements@[j] == old(self).elements@[j + 1]);
                            assert(m[j + 1] == (
                                ptr_view(old(self).elements@[j + 1].0),
                                old(self).elements@[j + 1].1,
                            ));
                        }
                    }
                    assert(m2 =~= m.remove(i as int));
                }
            },
        }
    }

    fn dup(&self) -> (r: Self) {
        let n = self.elements.len();
        let mut out: Vec<(LSeqPtr, T)> = Vec::new();
        let mut i: usize = 0;
        while i < n
            invariant
                n == self.elements.len(),
                0 <= i <= n,
                out@.len() == i,
                forall|j: int|
                    0 <= j < i ==> ptr_view((#[trigger] out@[j]).0) == ptr_view(
                        self.elements@[j].0,
                    ) && out@[j].1 == self.elements@[j].1,
            decreases n - i,
        {
            let e = &self.elements[i];
            out.push((e.0.clone(), e.1));
            i = i + 1;
        }
        let r = LSeq { elements: out };
        proof {
            assert forall|j: int|
                0 <= j < out@.len() implies lseq_model(out@)[j] == lseq_model(
                self.elements@,
            )[j] by {
                assert(lseq_model(out@)[j] == (ptr_view(out@[j].0), out@[j].1));
                assert(lseq_model(self.elements@)[j] == (
                    ptr_view(self.elements@[j].0),
                    self.elements@[j].1,
                ));
            }
            assert(lseq_model(r.elements@) =~= lseq_model(self.elements@));
        }
        r
    }

    fn dup_op(op: &LSeqOperation<T>) -> (r: LSeqOperation<T>) {
        match op {
            LSeqOperation::Inserted(p, v) => LSeqOperation::Inserted(p.clone(), *v),
            LSeqOperation::Removed(p) => LSeqOperation::Removed(p.clone()),
        }
    }
}

/// Inserting a fresh pointer at its scan position keeps the model sorted.
proof fn lemma_sorted_after_insert<T>(
    m: Seq<((Seq<u8>, i64), T)>,
    pv: (Seq<u8>, i64),
    value: T,
    i: int,
)
    requires
        model_sorted(m),
        !model_has_ptr(m, pv),
        0 <= i <= m.len(),
        forall|j: int| 0 <= j < i ==> !view_le(pv, (#[trigger] m[j]).0),
        i < m.len() ==> view_le(pv, m[i].0),
    ensures
        model_sorted(m.insert(i, (pv, value))),
{
    let m2 = m.insert(i, (pv, value));
    assert forall|a: int, b: int| 0 <= a < b < m2.len() implies view_lt(m2[a].0, m2[b].0) by {
        let ea = if a < i {
            m[a]
        } else if a == i {
            (pv, value)
        } else {
            m[a - 1]
        };
        let eb = if b < i {
            m[b]
        } else if b == i {
            (pv, value)
        } else {
            m[b - 1]
        };
        assert(m2[a] == ea);
        assert(m2[b] == eb);
        if a == i {
            // pv is at or below m[b-1].0 and differs from it.
            let q = m[b - 1].0;
            assert(view_le(pv, m[i].0));
            if b - 1 > i {
                assert(view_lt(m[i].0, q));
            }
            assert(q != pv);
            lemma_view_le_lt(pv, m[i].0, q);
        } else if b == i {
            assert(!view_le(pv, m[a].0));
            lemma_view_not_le(pv, m[a].0);
        } else if a < i && b > i {
            assert(view_lt(m[a].0, m[b - 1].0));
        }
    }
}

/// From `pv <= q0 <= q` (all distinct from `pv`) conclude `pv < q`.
proof fn lemma_view_le_lt(pv: (Seq<u8>, i64), q0: (Seq<u8>, i64), q: (Seq<u8>, i64))
    requires
        view_le(pv, q0),
        q0 == q || view_lt(q0, q),
        q != pv,
    ensures
        view_lt(pv, q),
{
    lemma_seq_lt_trichotomy(pv.0, q0.0);
    lemma_seq_lt_trichotomy(q0.0, q.0);
    lemma_seq_lt_trichotomy(pv.0, q.0);
    if seq_lt(pv.0, q0.0) && seq_lt(q0.0, q.0) {
        lemma_seq_lt_trans(pv.0, q0.0, q.0);
    }
}

/// Not being at-or-below means being strictly above.
proof fn lemma_view_not_le(pv: (Seq<u8>, i64), q: (Seq<u8>, i64))
    requires
        !view_le(pv, q),
    ensures
        view_lt(q, pv),
{
    lemma_seq_lt_trichotomy(pv.0, q.0);
    if pv.0 =~= q.0 {
        assert(pv.0 == q.0);
    }
}

/// Records terminal edits as LSeq commands for one replica.
pub struct LSeqReceiver {
    pub replica_id: ReplicaId,
    pub commands: Vec<LSeqCommand<char>>,
}

impl LSeqReceiver {
    /// A receiver for `replica_id` with no commands yet.
    pub fn new(replica_id: ReplicaId) -> (r: LSeqReceiver)
        ensures
            r.replica_id == replica_id,
            r.commands@ =~= Seq::<LSeqCommand<char>>::empty(),
    {
        LSeqReceiver { replica_id, commands: Vec::new() }
    }
}

impl InputReceiver for LSeqReceiver {
    open spec fn insert_ens(pre: Self, post: Self, position: usize, character: char) -> bool {
        &&& post.replica_id == pre.replica_id
        &&& post.commands@ == pre.commands@.push(
            LSeqCommand::Insert(position, pre.replica_id, character),
        )
    }

    open spec fn remove_ens(pre: Self, post: Self, position: usize) -> bool {
        &&& post.replica_id == pre.replica_id
        &&& post.commands@ == pre.commands@.push(LSeqCommand::Remove(position))
    }

    fn insert_at(&mut self, position: usize, character: char) {
        self.commands.push(LSeqCommand::Insert(position, self.replica_id, character));
    }

    fn remove_at(&mut self, position: usize) {
        self.commands.push(LSeqCommand::Remove(position));
    }
}

/// The set of (pointer view, value) pairs a model holds.
pub open spec fn model_set<T>(m: Seq<((Seq<u8>, i64), T)>) -> Set<((Seq<u8>, i64), T)> {
    Set::new(
        |e: ((Seq<u8>, i64), T)| exists|i: int| 0 <= i < m.len() && (#[trigger] m[i]) == e,
    )
}

/// Two pointer views cannot each sort strictly before the other.
proof fn lemma_view_lt_asym(a: (Seq<u8>, i64), b: (Seq<u8>, i64))
    ensures
        !(view_lt(a, b) && view_lt(b, a)),
{
    lemma_seq_lt_trichotomy(a.0, b.0);
}

/// Where `index_of_ptr` points when the pointer is present.
proof fn lemma_index_of_props<T>(m: Seq<((Seq<u8>, i64), T)>, pv: (Seq<u8>, i64))
    requires
        model_has_ptr(m, pv),
    ensures
        0 <= index_of_ptr(m, pv) < m.len(),
        m[index_of_ptr(m, pv)].0 == pv,
    decreases m.len(),
{
    if m.len() > 0 && m[0].0 != pv {
        assert(forall|j: int|
            0 <= j < m.drop_first().len() ==> (#[trigger] m.drop_first()[j]) == m[j + 1]);
        let i = choose|i: int| 0 <= i < m.len() && (#[trigger] m[i]).0 == pv;
        assert(m.drop_first()[i - 1].0 == pv);
        lemma_index_of_props(m.drop_first(), pv);
    }
}

/// A sorted model is determined by the set of pairs it holds.  This is the
/// convergence argument for LSeq: two replicas that applied the same
/// inserts and removes hold the same ordered sequence.
pub proof fn lemma_lseq_sorted_unique<T>(
    m1: Seq<((Seq<u8>, i64), T)>,
    m2: Seq<((Seq<u8>, i64), T)>,
)
    requires
        model_sorted(m1),
        model_sorted(m2),
        model_set(m1) == model_set(m2),
    ensures
        m1 =~= m2,
    decreases m1.len(),
{
    if m1.len() == 0 {
        if m2.len() > 0 {
            assert(model_set(m2).contains(m2[0]));
            assert(model_set(m1).contains(m2[0]));
            assert(false);
        }
        assert(m1 =~= m2);
    } else if m2.len() == 0 {
        assert(model_set(m1).contains(m1[0]));
        assert(model_set(m2).contains(m1[0]));
        assert(false);
    } else {
        assert(model_set(m1).contains(m1[0]));
        assert(model_set(m2).contains(m1[0]));
        let j = choose|j: int| 0 <= j < m2.len() && (#[trigger] m2[j]) == m1[0];
        assert(model_set(m2).contains(m2[0]));
        assert(model_set(m1).contains(m2[0]));
        let i = choose|i: int| 0 <= i < m1.len() && (#[trigger] m1[i]) == m2[0];
        if i > 0 && j > 0 {
            assert(view_lt(m1[0].0, m1[i].0));
            assert(view_lt(m2[0].0, m2[j].0));
            lemma_view_lt_asym(m1[0].0, m2[0].0);
        }
        assert(m1[0] == m2[0]);
        let t1 = m1.drop_first();
        let t2 = m2.drop_first();
        assert(forall|k: int| 0 <= k < t1.len() ==> (#[trigger] t1[k]) == m1[k + 1]);
        assert(forall|k: int| 0 <= k < t2.len() ==> (#[trigger] t2[k]) == m2[k + 1]);
        assert(model_sorted(t1));
        assert(model_sorted(t2));
        assert forall|e: ((Seq<u8>, i64), T)|
            model_set(t1).contains(e) == model_set(t2).contains(e) by {
            if model_set(t1).contains(e) {
                let k = choose|k: int| 0 <= k < t1.len() && (#[trigger] t1[k]) == e;
                assert(m1[k + 1] == e);
                assert(model_set(m1).contains(e));
                assert(model_set(m2).contains(e));
                let l = choose|l: int| 0 <= l < m2.len() && (#[trigger] m2[l]) == e;
                if l == 0 {
                    // The head would repeat inside m1, against strict order.
                    assert(m1[k + 1] == m1[0]);
                    assert(view_lt(m1[0].0, m1[k + 1].0));
                    lemma_seq_lt_trichotomy(m1[0].0.0, m1[0].0.0);
                }
                assert(t2[l - 1] == e);
            }
            if model_set(t2).contains(e) {
                let k = choose|k: int| 0 <= k < t2.len() && (#[trigger] t2[k]) == e;
                assert(m2[k + 1] == e);
                assert(model_set(m2).contains(e));
                assert(model_set(m1).contains(e));
                let l = choose|l: int| 0 <= l < m1.len() && (#[trigger] m1[l]) == e;
                if l == 0 {
                    assert(m2[k + 1] == m2[0]);
                    assert(view_lt(m2[0].0, m2[k + 1].0));
                    lemma_seq_lt_trichotomy(m2[0].0.0, m2[0].0.0);
                }
                assert(t1[l - 1] == e);
            }
        }
        assert(model_set(t1) =~= model_set(t2));
        lemma_lseq_sorted_unique(t1, t2);
        assert forall|k: int| 0 <= k < m1.len() implies m1[k] == m2[k] by {
            if k > 0 {
                assert(t1[k - 1] == t2[k - 1]);
            }
        }
        assert(m1 =~= m2);
    }
}

/// The pointer an operation speaks of.
pub open spec fn op_ptr<T>(op: LSeqOperation<T>) -> (Seq<u8>, i64) {
    match op {
        LSeqOperation::Inserted(p, _) => ptr_view(p),
        LSeqOperation::Removed(p) => ptr_view(p),
    }
}

/// Inserting a pair at its scan position adds exactly that pair to the set.
proof fn lemma_model_set_insert<T>(m: Seq<((Seq<u8>, i64), T)>, i: int, e: ((Seq<u8>, i64), T))
    requires
        0 <= i <= m.len(),
    ensures
        model_set(m.insert(i, e)) =~= model_set(m).insert(e),
        forall|pv: (Seq<u8>, i64)|
            #![auto]
            model_has_ptr(m.insert(i, e), pv) == (model_has_ptr(m, pv) || e.0 == pv),
{
    let m2 = m.insert(i, e);
    assert forall|x: ((Seq<u8>, i64), T)|
        model_set(m2).contains(x) == (model_set(m).contains(x) || x == e) by {
        if model_set(m2).contains(x) {
            let k = choose|k: int| 0 <= k < m2.len() && (#[trigger] m2[k]) == x;
            if k < i {
                assert(m[k] == x);
            } else if k > i {
                assert(m[k - 1] == x);
            }
        }
        if model_set(m).contains(x) {
            let k = choose|k: int| 0 <= k < m.len() && (#[trigger] m[k]) == x;
            if k < i {
                assert(m2[k] == x);
            } else {
                assert(m2[k + 1] == x);
            }
        }
        if x == e {
            assert(m2[i] == x);
        }
    }
    assert forall|pv: (Seq<u8>, i64)|
        #![auto]
        model_has_ptr(m2, pv) == (model_has_ptr(m, pv) || e.0 == pv) by {
        if model_has_ptr(m2, pv) {
            let k = choose|k: int| 0 <= k < m2.len() && (#[trigger] m2[k]).0 == pv;
            if k < i {
                assert(m[k].0 == pv);
            } else if k > i {
                assert(m[k - 1].0 == pv);
            }
        }
        if model_has_ptr(m, pv) {
            let k = choose|k: int| 0 <= k < m.len() && (#[trigger] m[k]).0 == pv;
            if k < i {
                assert(m2[k].0 == pv);
            } else {
                assert(m2[k + 1].0 == pv);
            }
        }
        if e.0 == pv {
            assert(m2[i].0 == pv);
        }
    }
}

/// Removing the element that carries a pointer takes exactly its pair out
/// of the set (pointers are unique in a sorted model).
proof fn lemma_model_set_remove<T>(m: Seq<((Seq<u8>, i64), T)>, i: int)
    requires
        model_sorted(m),
        0 <= i < m.len(),
    ensures
        model_set(m.remove(i)) =~= model_set(m).remove(m[i]),
        forall|pv: (Seq<u8>, i64)|
            #![auto]
            model_has_ptr(m.remove(i), pv) == (model_has_ptr(m, pv) && m[i].0 != pv),
{
    let m2 = m.remove(i);
    assert forall|x: ((Seq<u8>, i64), T)|
        model_set(m2).contains(x) == (model_set(m).contains(x) && x != m[i]) by {
        if model_set(m2).contains(x) {
            let k = choose|k: int| 0 <= k < m2.len() && (#[trigger] m2[k]) == x;
            if k < i {
                assert(m[k] == x);
                if x == m[i] {
                    assert(view_lt(m[k].0, m[i].0));
                    lemma_seq_lt_trichotomy(m[i].0.0, m[i].0.0);
                }
            } else {
                assert(m[k + 1] == x);
                if x == m[i] {
                    assert(view_lt(m[i].0, m[k + 1].0));
                    lemma_seq_lt_trichotomy(m[i].0.0, m[i].0.0);
                }
            }
        }
        if model_set(m).contains(x) && x != m[i] {
            let k = choose|k: int| 0 <= k < m.len() && (#[trigger] m[k]) == x;
            if k < i {
                assert(m2[k] == x);
            } else if k > i {
                assert(m2[k - 1] == x);
            }
        }
    }
    assert forall|pv: (Seq<u8>, i64)|
        #![auto]
        model_has_ptr(m2, pv) == (model_has_ptr(m, pv) && m[i].0 != pv) by {
        if model_has_ptr(m2, pv) {
            let k = choose|k: int| 0 <= k < m2.len() && (#[trigger] m2[k]).0 == pv;
            if k < i {
                assert(m[k].0 == pv);
                if m[i].0 == pv {
                    assert(view_lt(m[k].0, m[i].0));
                    lemma_seq_lt_trichotomy(pv.0, pv.0);
                }
            } else {
                assert(m[k + 1].0 == pv);
                if m[i].0 == pv {
                    assert(view_lt(m[i].0, m[k + 1].0));
                    lemma_seq_lt_trichotomy(pv.0, pv.0);
                }
            }
        }
        if model_has_ptr(m, pv) && m[i].0 != pv {
            let k = choose|k: int| 0 <= k < m.len() && (#[trigger] m[k]).0 == pv;
            if k < i {
                assert(m2[k].0 == pv);
            } else {
                assert(m2[k - 1].0 == pv);
            }
        }
    }
}

/// Removing any element keeps the model sorted.
proof fn lemma_sorted_after_remove<T>(m: Seq<((Seq<u8>, i64), T)>, i: int)
    requires
        model_sorted(m),
        0 <= i < m.len(),
    ensures
        model_sorted(m.remove(i)),
{
    let m2 = m.remove(i);
    assert forall|a: int, b: int| 0 <= a < b < m2.len() implies view_lt(m2[a].0, m2[b].0) by {
        let a0 = if a < i {
            a
        } else {
            a + 1
        };
        let b0 = if b < i {
            b
        } else {
            b + 1
        };
        assert(m2[a] == m[a0]);
        assert(m2[b] == m[b0]);
    }
}

/// One effect applied to a sorted model keeps it sorted, keeps every other
/// pointer, and changes the pair set in the stated way.
proof fn lemma_lseq_effect_shape<T: Copy>(
    m: Seq<((Seq<u8>, i64), T)>,
    version: Map<i64, u64>,
    op: LSeqOperation<T>,
)
    requires
        model_sorted(m),
        LSeq::<T>::effect_req(m, op),
    ensures
        model_sorted(LSeq::<T>::effect_model(m, version, op)),
        forall|pv: (Seq<u8>, i64)|
            #![auto]
            pv != op_ptr(op) ==> model_has_ptr(LSeq::<T>::effect_model(m, version, op), pv)
                == model_has_ptr(m, pv),
        model_set(LSeq::<T>::effect_model(m, version, op)) == (match op {
            LSeqOperation::Inserted(p, v) => model_set(m).insert((ptr_view(p), v)),
            LSeqOperation::Removed(p) => model_set(m).remove(
                (ptr_view(p), m[index_of_ptr(m, ptr_view(p))].1),
            ),
        }),
{
    match op {
        LSeqOperation::Inserted(p, v) => {
            let pv = ptr_view(p);
            let i = insert_index(m, pv);
            lemma_insert_index_props(m, pv);
            lemma_sorted_after_insert(m, pv, v, i);
            lemma_model_set_insert(m, i, (pv, v));
        },
        LSeqOperation::Removed(p) => {
            let pv = ptr_view(p);
            lemma_index_of_props(m, pv);
            let i = index_of_ptr(m, pv);
            lemma_sorted_after_remove(m, i);
            lemma_model_set_remove(m, i);
        },
    }
}

/// Two LSeq effects on distinct pointers, each permitted on the starting
/// model, reach the same model in either order.
pub proof fn lemma_lseq_effects_commute<T: Copy>(
    m: Seq<((Seq<u8>, i64), T)>,
    v1: Map<i64, u64>,
    o1: LSeqOperation<T>,
    v2: Map<i64, u64>,
    o2: LSeqOperation<T>,
)
    requires
        model_sorted(m),
        op_ptr(o1) != op_ptr(o2),
        LSeq::<T>::effect_req(m, o1),
        LSeq::<T>::effect_req(m, o2),
    ensures
        LSeq::<T>::effect_req(LSeq::<T>::effect_model(m, v1, o1), o2),
        LSeq::<T>::effect_req(LSeq::<T>::effect_model(m, v2, o2), o1),
        LSeq::<T>::effect_model(LSeq::<T>::effect_model(m, v1, o1), v2, o2) =~= LSeq::<
            T,
        >::effect_model(LSeq::<T>::effect_model(m, v2, o2), v1, o1),
{
    lemma_lseq_effect_shape(m, v1, o1);
    lemma_lseq_effect_shape(m, v2, o2);
    let m1 = LSeq::<T>::effect_model(m, v1, o1);
    let m2 = LSeq::<T>::effect_model(m, v2, o2);
    assert(LSeq::<T>::effect_req(m1, o2));
    assert(LSeq::<T>::effect_req(m2, o1));
    lemma_lseq_effect_shape(m1, v2, o2);
    lemma_lseq_effect_shape(m2, v1, o1);
    let left = LSeq::<T>::effect_model(m1, v2, o2);
    let right = LSeq::<T>::effect_model(m2, v1, o1);
    match (o1, o2) {
        (LSeqOperation::Removed(p1), _) => {
            lemma_index_of_props(m, ptr_view(p1));
            lemma_index_of_props(m2, ptr_view(p1));
            assert(model_set(m2).contains((
                ptr_view(p1),
                m2[index_of_ptr(m2, ptr_view(p1))].1,
            ))) by {
                let i = index_of_ptr(m2, ptr_view(p1));
                assert(m2[i] == m2[i]);
            }
        },
        _ => {},
    }
    match (o1, o2) {
        (_, LSeqOperation::Removed(p2)) => {
            lemma_index_of_props(m, ptr_view(p2));
            lemma_index_of_props(m1, ptr_view(p2));
        },
        _ => {},
    }
    assert(model_set(left) =~= model_set(right)) by {
        match (o1, o2) {
            (LSeqOperation::Inserted(p1, val1), LSeqOperation::Inserted(p2, val2)) => {},
            (LSeqOperation::Inserted(p1, val1), LSeqOperation::Removed(p2)) => {
                lemma_removed_same_pair(m, m1, p2);
            },
            (LSeqOperation::Removed(p1), LSeqOperation::Inserted(p2, val2)) => {
                lemma_removed_same_pair(m, m2, p1);
            },
            (LSeqOperation::Removed(p1), LSeqOperation::Removed(p2)) => {
                lemma_removed_same_pair(m, m2, p1);
                lemma_removed_same_pair(m, m1, p2);
            },
        }
    }
    lemma_lseq_sorted_unique(left, right);
}

/// A pointer present in both models, which agree on the pairs that carry
/// it, is removed as the same pair.
proof fn lemma_removed_same_pair<T: Copy>(
    m: Seq<((Seq<u8>, i64), T)>,
    mi: Seq<((Seq<u8>, i64), T)>,
    p: LSeqPtr,
)
    requires
        model_has_ptr(m, ptr_view(p)),
        model_has_ptr(mi, ptr_view(p)),
        forall|x: ((Seq<u8>, i64), T)|
            #![auto]
            x.0 == ptr_view(p) ==> model_set(m).contains(x) == model_set(mi).contains(x),
        model_sorted(m),
        model_sorted(mi),
    ensures
        m[index_of_ptr(m, ptr_view(p))].1 == mi[index_of_ptr(mi, ptr_view(p))].1,
{
    let pv = ptr_view(p);
    lemma_index_of_props(m, pv);
    lemma_index_of_props(mi, pv);
    let i = index_of_ptr(m, pv);
    let j = index_of_ptr(mi, pv);
    assert(model_set(m).contains(m[i]));
    assert(model_set(mi).contains(m[i]));
    let k = choose|k: int| 0 <= k < mi.len() && (#[trigger] mi[k]) == m[i];
    if k != j {
        if k < j {
            assert(view_lt(mi[k].0, mi[j].0));
        } else {
            assert(view_lt(mi[j].0, mi[k].0));
        }
        lemma_seq_lt_trichotomy(pv.0, pv.0);
    }
}

} // verus!
