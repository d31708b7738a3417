//! Vector clocks: per-replica logical time.
//!
//! A clock maps replica identifiers to counters; a missing identifier counts
//! as zero.  The operations are `increment`, `merge` (pointwise maximum) and
//! `compare`, which classifies two clocks as `Equal`, `Less`, `Greater` or
//! `Concurrent`.

use vstd::prelude::*;

verus! {

/// Outcome of comparing two vector clocks.
#[derive(Clone, Copy, PartialEq, Eq, Structural, Debug)]
pub enum ClockComparison {
    Equal,
    Less,
    Greater,
    Concurrent,
}

/// A vector clock, stored as an association list sorted strictly by key.
/// Only identifiers with a non-zero counter are stored, so two clocks that
/// agree pointwise have identical entry sequences.
pub struct VectorClock {
    entries: Vec<(i64, u64)>,
}

/// Does `s` hold an entry for key `id`?
pub open spec fn seq_has_key(s: Seq<(i64, u64)>, id: i64) -> bool
    decreases s.len(),
{
    if s.len() == 0 {
        false
    } else if s[0].0 == id {
        true
    } else {
        seq_has_key(s.drop_first(), id)
    }
}

/// The value of the first entry for key `id`, or 0 when there is none.
pub open spec fn seq_val(s: Seq<(i64, u64)>, id: i64) -> u64
    decreases s.len(),
{
    if s.len() == 0 {
        0
    } else if s[0].0 == id {
        s[0].1
    } else {
        seq_val(s.drop_first(), id)
    }
}

/// Keys strictly increase along the sequence.
pub open spec fn entries_sorted(s: Seq<(i64, u64)>) -> bool {
    forall|i: int, j: int| 0 <= i < j < s.len() ==> s[i].0 < s[j].0
}

/// Every stored counter is at least one.
pub open spec fn entries_positive(s: Seq<(i64, u64)>) -> bool {
    forall|i: int| 0 <= i < s.len() ==> (#[trigger] s[i]).1 >= 1
}

/// The counter of `id` in the map view of a clock: 0 when absent.
pub open spec fn clock_at(m: Map<i64, u64>, id: i64) -> u64 {
    if m.dom().contains(id) {
        m[id]
    } else {
        0
    }
}

/// Pointwise `<=` on clock views.
pub open spec fn vc_le(m1: Map<i64, u64>, m2: Map<i64, u64>) -> bool {
    forall|k: i64| #![auto] clock_at(m1, k) <= clock_at(m2, k)
}

/// The pointwise maximum of two clock views.
pub open spec fn vc_merge(m1: Map<i64, u64>, m2: Map<i64, u64>) -> Map<i64, u64> {
    Map::new(
        |k: i64| m1.dom().contains(k) || m2.dom().contains(k),
        |k: i64| max_u64(clock_at(m1, k), clock_at(m2, k)),
    )
}

/// The larger of two counters.
pub open spec fn max_u64(a: u64, b: u64) -> u64 {
    if a >= b {
        a
    } else {
        b
    }
}

/// The mathematical meaning of `compare`.
pub open spec fn compare_spec(m1: Map<i64, u64>, m2: Map<i64, u64>) -> ClockComparison {
    if vc_le(m1, m2) && vc_le(m2, m1) {
        ClockComparison::Equal
    } else if vc_le(m1, m2) {
        ClockComparison::Less
    } else if vc_le(m2, m1) {
        ClockComparison::Greater
    } else {
        ClockComparison::Concurrent
    }
}

impl View for VectorClock {
    type V = Map<i64, u64>;

    closed spec fn view(&self) -> Map<i64, u64> {
        Map::new(
            |k: i64| seq_has_key(self.entries@, k),
            |k: i64| seq_val(self.entries@, k),
        )
    }
}

proof fn lemma_seq_val_push(s: Seq<(i64, u64)>, p: (i64, u64), id: i64)
    ensures
        seq_has_key(s.push(p), id) == (seq_has_key(s, id) || p.0 == id),
        seq_val(s.push(p), id) == (if seq_has_key(s, id) {
            seq_val(s, id)
        } else if p.0 == id {
            p.1
        } else {
            0u64
        }),
    decreases s.len(),
{
    if s.len() == 0 {
        assert(s.push(p)[0] == p);
        assert(s.push(p).drop_first() =~= Seq::<(i64, u64)>::empty());
        assert(!seq_has_key(Seq::<(i64, u64)>::empty(), id));
        assert(seq_val(Seq::<(i64, u64)>::empty(), id) == 0);
        assert(seq_has_key(s.push(p), id) == (p.0 == id));
    } else {
        assert(s.push(p)[0] == s[0]);
        assert(s.push(p).drop_first() =~= s.drop_first().push(p));
        lemma_seq_val_push(s.drop_first(), p, id);
    }
}

proof fn lemma_has_key_exists(s: Seq<(i64, u64)>, id: i64)
    ensures
        seq_has_key(s, id) <==> exists|i: int| 0 <= i < s.len() && (#[trigger] s[i]).0 == id,
    decreases s.len(),
{
    if s.len() > 0 {
        lemma_has_key_exists(s.drop_first(), id);
        if s[0].0 != id {
            if exists|i: int| 0 <= i < s.len() && (#[trigger] s[i]).0 == id {
                let i = choose|i: int| 0 <= i < s.len() && (#[trigger] s[i]).0 == id;
                assert(s.drop_first()[i - 1].0 == id);
            }
            if seq_has_key(s.drop_first(), id) {
                let i = choose|i: int|
                    0 <= i < s.drop_first().len() && (#[trigger] s.drop_first()[i]).0 == id;
                assert(s[i + 1].0 == id);
            }
        }
    }
}

proof fn lemma_seq_val_absent(s: Seq<(i64, u64)>, id: i64)
    ensures
        !seq_has_key(s, id) ==> seq_val(s, id) == 0,
    decreases s.len(),
{
    if s.len() > 0 {
        lemma_seq_val_absent(s.drop_first(), id);
    }
}

proof fn lemma_seq_val_at_index(s: Seq<(i64, u64)>, i: int)
    requires
        0 <= i < s.len(),
        forall|j: int| 0 <= j < i ==> (#[trigger] s[j]).0 != s[i].0,
    ensures
        seq_has_key(s, s[i].0),
        seq_val(s, s[i].0) == s[i].1,
    decreases s.len(),
{
    if i > 0 {
        assert(forall|j: int|
            0 <= j < i - 1 ==> (#[trigger] s.drop_first()[j]).0 == s[j + 1].0);
        lemma_seq_val_at_index(s.drop_first(), i - 1);
    }
}

/// On a sequence with positive counters, a key is present exactly when its
/// looked-up value is non-zero.
proof fn lemma_positive_has_key(s: Seq<(i64, u64)>, id: i64)
    requires
        entries_positive(s),
    ensures
        seq_has_key(s, id) <==> seq_val(s, id) >= 1,
    decreases s.len(),
{
    if s.len() > 0 {
        assert(entries_positive(s.drop_first())) by {
            assert(forall|i: int|
                0 <= i < s.drop_first().len() ==> (#[trigger] s.drop_first()[i]) == s[i + 1]);
        }
        lemma_positive_has_key(s.drop_first(), id);
        if s[0].0 == id {
            assert(s[0].1 >= 1);
        }
    }
}

/// Two sorted, positive entry sequences that agree on every lookup are equal.
proof fn lemma_canonical_entries(s1: Seq<(i64, u64)>, s2: Seq<(i64, u64)>)
    requires
        entries_sorted(s1),
        entries_positive(s1),
        entries_sorted(s2),
        entries_positive(s2),
        forall|k: i64| #![auto] seq_val(s1, k) == seq_val(s2, k),
        forall|k: i64| #![auto] seq_has_key(s1, k) <==> seq_has_key(s2, k),
    ensures
        s1 =~= s2,
    decreases s1.len(),
{
    if s1.len() == 0 {
        if s2.len() > 0 {
            lemma_seq_val_at_index(s2, 0);
            assert(seq_has_key(s2, s2[0].0));
        }
        assert(s1 =~= s2);
    } else {
        lemma_seq_val_at_index(s1, 0);
        assert(seq_has_key(s2, s1[0].0));
        lemma_has_key_exists(s2, s1[0].0);
        let j = choose|j: int| 0 <= j < s2.len() && (#[trigger] s2[j]).0 == s1[0].0;
        lemma_seq_val_at_index(s2, 0);
        assert(seq_has_key(s1, s2[0].0));
        lemma_has_key_exists(s1, s2[0].0);
        let i = choose|i: int| 0 <= i < s1.len() && (#[trigger] s1[i]).0 == s2[0].0;
        // Minimality of the heads forces the head keys to coincide.
        assert(s1[0].0 <= s1[i].0);
        assert(s2[0].0 <= s2[j].0);
        assert(s1[0].0 == s2[0].0);
        lemma_seq_val_at_index(s2, j);
        assert(j == 0) by {
            if j > 0 {
                assert(s2[0].0 < s2[j].0);
            }
        }
        assert(s1[0] == s2[0]);
        let t1 = s1.drop_first();
        let t2 = s2.drop_first();
        assert(forall|i: int| 0 <= i < t1.len() ==> (#[trigger] t1[i]) == s1[i + 1]);
        assert(forall|i: int| 0 <= i < t2.len() ==> (#[trigger] t2[i]) == s2[i + 1]);
        assert(forall|k: i64| #![auto] seq_val(t1, k) == seq_val(t2, k) && (seq_has_key(t1, k)
            <==> seq_has_key(t2, k))) by {
            assert forall|k: i64| #![auto]
                seq_val(t1, k) == seq_val(t2, k) && (seq_has_key(t1, k) <==> seq_has_key(
                    t2,
                    k,
                )) by {
                if k == s1[0].0 {
                    assert(!seq_has_key(t1, k)) by {
                        lemma_has_key_exists(t1, k);
                        if seq_has_key(t1, k) {
                            let i = choose|i: int|
                                0 <= i < t1.len() && (#[trigger] t1[i]).0 == k;
                            assert(s1[0].0 < s1[i + 1].0);
                        }
                    }
                    assert(!seq_has_key(t2, k)) by {
                        lemma_has_key_exists(t2, k);
                        if seq_has_key(t2, k) {
                            let i = choose|i: int|
                                0 <= i < t2.len() && (#[trigger] t2[i]).0 == k;
                            assert(s2[0].0 < s2[i + 1].0);
                        }
                    }
                    lemma_seq_val_absent(t1, k);
                    lemma_seq_val_absent(t2, k);
                } else {
                    assert(seq_val(s1, k) == seq_val(t1, k));
                    assert(seq_val(s2, k) == seq_val(t2, k));
                    assert(seq_has_key(s1, k) == seq_has_key(t1, k));
                    assert(seq_has_key(s2, k) == seq_has_key(t2, k));
                }
            }
        }
        lemma_canonical_entries(t1, t2);
        assert forall|i: int| 0 <= i < s1.len() implies s1[i] == s2[i] by {
            if i > 0 {
                assert(t1[i - 1] == t2[i - 1]);
            }
        }
        assert(s1 =~= s2);
    }
}

impl VectorClock {
    /// Well-formed: entries sorted strictly by key, all counters non-zero.
    pub closed spec fn wf(&self) -> bool {
        entries_sorted(self.entries@) && entries_positive(self.entries@)
    }

    proof fn lemma_view_is_seq_val(&self)
        ensures
            forall|k: i64| #![auto] clock_at(self@, k) == seq_val(self.entries@, k),
            forall|k: i64| #![auto] self@.dom().contains(k) <==> seq_has_key(self.entries@, k),
    {
        assert forall|k: i64| #![auto] clock_at(self@, k) == seq_val(self.entries@, k) by {
            if !seq_has_key(self.entries@, k) {
                lemma_seq_val_absent(self.entries@, k);
            }
        }
    }

    /// The clock with every counter zero.
    pub fn init() -> (r: VectorClock)
        ensures
            r.wf(),
            r@ == Map::<i64, u64>::empty(),
            forall|k: i64| #![auto] clock_at(r@, k) == 0,
    {
        let r = VectorClock { entries: Vec::new() };
        proof {
            assert(r@ =~= Map::<i64, u64>::empty());
            r.lemma_view_is_seq_val();
        }
        r
    }

    /// The counter recorded for `replica_id` (zero when absent).
    pub fn get(&self, replica_id: i64) -> (r: u64)
        ensures
            r == clock_at(self@, replica_id),
    {
        proof {
            self.lemma_view_is_seq_val();
        }
        let n = self.entries.len();
        let mut i: usize = 0;
        while i < n
            invariant
                n == self.entries.len(),
                0 <= i <= n,
                forall|j: int| 0 <= j < i ==> (#[trigger] self.entries@[j]).0 != replica_id,
            decreases n - i,
        {
            if self.entries[i].0 == replica_id {
                proof {
                    lemma_seq_val_at_index(self.entries@, i as int);
                }
                return self.entries[i].1;
            }
            i = i + 1;
        }
        proof {
            lemma_has_key_exists(self.entries@, replica_id);
            lemma_seq_val_absent(self.entries@, replica_id);
        }
        0
    }

    /// Record exactly `value` for `replica_id`, leaving every other counter
    /// unchanged.
    pub(crate) fn set_entry(&mut self, replica_id: i64, value: u64)
        requires
            old(self).wf(),
            value >= 1,
        ensures
            final(self).wf(),
            final(self)@ == old(self)@.insert(replica_id, value),
    {
        proof {
            old(self).lemma_view_is_seq_val();
        }
        let ghost s = self.entries@;
        let n = self.entries.len();
        let mut pos: usize = 0;
        while pos < n && self.entries[pos].0 < replica_id
            invariant
                n == self.entries.len(),
                self.entries@ == s,
                0 <= pos <= n,
                forall|j: int| 0 <= j < pos ==> (#[trigger] s[j]).0 < replica_id,
            decreases n - pos,
        {
            pos = pos + 1;
        }
        if pos < n && self.entries[pos].0 == replica_id {
            proof {
                lemma_seq_val_at_index(s, pos as int);
            }
            self.entries.set(pos, (replica_id, value));
            proof {
                lemma_seq_val_update_all(s, pos as int, (replica_id, value));
                self.lemma_view_is_seq_val();
                assert(entries_sorted(self.entries@)) by {
                    assert(forall|i: int|
                        0 <= i < s.len() && i != pos ==> self.entries@[i] == s[i]);
                }
                assert forall|k: i64| #![auto]
                    self@.dom().contains(k) == old(self)@.insert(
                        replica_id,
                        value,
                    ).dom().contains(k) by {}
                assert(self@ =~= old(self)@.insert(replica_id, value));
            }
        } else {
            proof {
                lemma_has_key_exists(s, replica_id);
                assert(!seq_has_key(s, replica_id)) by {
                    if seq_has_key(s, replica_id) {
                        let i = choose|i: int| 0 <= i < s.len() && (#[trigger] s[i]).0
                            == replica_id;
                        assert(i >= pos);
                        if pos < s.len() {
                            assert(s[pos as int].0 > replica_id || s[pos as int].0
                                == replica_id);
                        }
                        assert(pos <= i < s.len());
                        if i > pos {
                            assert(s[pos as int].0 < s[i].0);
                        }
                    }
                }
                lemma_seq_val_absent(s, replica_id);
            }
            self.entries.insert(pos, (replica_id, value));
            proof {
                lemma_seq_val_insert_all(s, pos as int, (replica_id, value));
                self.lemma_view_is_seq_val();
                assert(entries_sorted(self.entries@)) by {
                    assert(forall|i: int| 0 <= i < pos ==> self.entries@[i] == s[i]);
                    assert(self.entries@[pos as int] == (replica_id, value));
                    assert(forall|i: int|
                        pos < i < self.entries@.len() ==> self.entries@[i] == s[i - 1]);
                    assert(forall|i: int|
                        pos <= i < s.len() ==> (#[trigger] s[i]).0 > replica_id) by {
                        if pos < s.len() {
                            assert(forall|i: int|
                                pos < i < s.len() ==> s[pos as int].0 < (#[trigger] s[i]).0);
                        }
                    }
                }
                assert(self@ =~= old(self)@.insert(replica_id, value));
            }
        }
    }

    /// Advance this replica's own counter by one.
    pub fn increment(&mut self, replica_id: i64)
        requires
            old(self).wf(),
            clock_at(old(self)@, replica_id) < u64::MAX,
        ensures
            final(self).wf(),
            final(self)@ == old(self)@.insert(
                replica_id,
                (clock_at(old(self)@, replica_id) + 1) as u64,
            ),
    {
        let current = self.get(replica_id);
        self.set_entry(replica_id, current + 1);
    }

    /// Fold `other_vector` into this clock by pointwise maximum.  The first
    /// argument names the merging replica; the merge itself does not use it.
    pub fn merge(&mut self, replica_id: i64, other_vector: &VectorClock)
        requires
            old(self).wf(),
            other_vector.wf(),
        ensures
            final(self).wf(),
            final(self)@ == vc_merge(old(self)@, other_vector@),
            forall|k: i64| #![auto]
                clock_at(final(self)@, k) == max_u64(
                    clock_at(old(self)@, k),
                    clock_at(other_vector@, k),
                ),
    {
        proof {
            old(self).lemma_view_is_seq_val();
            other_vector.lemma_view_is_seq_val();
        }
        let ghost s2 = other_vector.entries@;
        let n = other_vector.entries.len();
        let mut j: usize = 0;
        while j < n
            invariant
                n == other_vector.entries.len(),
                s2 == other_vector.entries@,
                other_vector.wf(),
                0 <= j <= n,
                self.wf(),
                forall|k: i64| #![auto]
                    clock_at(self@, k) == max_u64(
                        clock_at(old(self)@, k),
                        seq_val(s2.take(j as int), k),
                    ),
            decreases n - j,
        {
            let k = other_vector.entries[j].0;
            let w = other_vector.entries[j].1;
            let current = self.get(k);
            let ghost pre = self@;
            proof {
                lemma_seq_val_at_index(s2, j as int);
                lemma_push_all(s2.take(j as int), s2[j as int]);
                assert(s2.take(j as int + 1) =~= s2.take(j as int).push(s2[j as int]));
                assert(!seq_has_key(s2.take(j as int), k)) by {
                    lemma_has_key_exists(s2.take(j as int), k);
                    if seq_has_key(s2.take(j as int), k) {
                        let i = choose|i: int|
                            0 <= i < s2.take(j as int).len() && (#[trigger] s2.take(
                                j as int,
                            )[i]).0 == k;
                        assert(s2[i].0 < s2[j as int].0);
                    }
                }
                lemma_seq_val_absent(s2.take(j as int), k);
                assert(seq_val(s2.take(j as int + 1), k) == w);
            }
            if w > current {
                self.set_entry(k, w);
            }
            proof {
                assert forall|kk: i64| #![auto]
                    clock_at(self@, kk) == max_u64(
                        clock_at(old(self)@, kk),
                        seq_val(s2.take(j as int + 1), kk),
                    ) by {
                    if kk != k {
                        lemma_seq_val_absent(s2.take(j as int), kk);
                        lemma_seq_val_absent(s2.take(j as int + 1), kk);
                        assert(seq_val(s2.take(j as int + 1), kk) == seq_val(
                            s2.take(j as int),
                            kk,
                        ));
                        assert(clock_at(self@, kk) == clock_at(pre, kk));
                    } else {
                        if w > current {
                            assert(clock_at(self@, kk) == w);
                        } else {
                            assert(clock_at(self@, kk) == clock_at(pre, kk));
                        }
                    }
                }
            }
            j = j + 1;
        }
        proof {
            assert(s2.take(n as int) =~= s2);
            self.lemma_view_is_seq_val();
            other_vector.lemma_view_is_seq_val();
            assert forall|k: i64| #![auto]
                clock_at(self@, k) == max_u64(
                    clock_at(old(self)@, k),
                    clock_at(other_vector@, k),
                ) by {
                assert(seq_val(s2, k) == clock_at(other_vector@, k));
            }
            lemma_positive_has_key_view(self);
            lemma_positive_has_key_view(&*old(self));
            lemma_positive_has_key_view(other_vector);
            assert forall|k: i64| #![auto]
                clock_at(self@, k) == clock_at(vc_merge(old(self)@, other_vector@), k) by {
                if old(self)@.dom().contains(k) || other_vector@.dom().contains(k) {
                    assert(vc_merge(old(self)@, other_vector@).dom().contains(k));
                    assert(vc_merge(old(self)@, other_vector@)[k] == max_u64(
                        clock_at(old(self)@, k),
                        clock_at(other_vector@, k),
                    ));
                } else {
                    assert(clock_at(old(self)@, k) == 0);
                    assert(clock_at(other_vector@, k) == 0);
                }
            }
            assert forall|k: i64| #![auto]
                self@.dom().contains(k) == vc_merge(old(self)@, other_vector@).dom().contains(
                    k,
                ) by {
                if self@.dom().contains(k) {
                    assert(clock_at(self@, k) >= 1);
                }
                if vc_merge(old(self)@, other_vector@).dom().contains(k) {
                    assert(clock_at(old(self)@, k) >= 1 || clock_at(other_vector@, k) >= 1);
                    assert(clock_at(self@, k) >= 1);
                }
            }
            assert(self@ =~= vc_merge(old(self)@, other_vector@));
        }
    }

    /// Classify this clock against `other_vector`.
    pub fn compare(&self, other_vector: &VectorClock) -> (r: ClockComparison)
        requires
            self.wf(),
            other_vector.wf(),
        ensures
            r == compare_spec(self@, other_vector@),
    {
        proof {
            self.lemma_view_is_seq_val();
            other_vector.lemma_view_is_seq_val();
        }
        let ghost s1 = self.entries@;
        let ghost s2 = other_vector.entries@;
        let mut lt = false;
        let mut gt = false;
        let n1 = self.entries.len();
        let mut i: usize = 0;
        while i < n1
            invariant
                n1 == self.entries.len(),
                s1 == self.entries@,
                s2 == other_vector.entries@,
                self.wf(),
                other_vector.wf(),
                0 <= i <= n1,
                lt <==> exists|k: i64| #![auto]
                    seq_has_key(s1.take(i as int), k) && clock_at(self@, k) < clock_at(
                        other_vector@,
                        k,
                    ),
                gt <==> exists|k: i64| #![auto]
                    seq_has_key(s1.take(i as int), k) && clock_at(self@, k) > clock_at(
                        other_vector@,
                        k,
                    ),
            decreases n1 - i,
        {
            let k = self.entries[i].0;
            let v = self.entries[i].1;
            let w = other_vector.get(k);
            let ghost old_lt = lt;
            let ghost old_gt = gt;
            if v < w {
                lt = true;
            }
            if v > w {
                gt = true;
            }
            proof {
                self.lemma_view_is_seq_val();
                other_vector.lemma_view_is_seq_val();
                lemma_seq_val_at_index(s1, i as int);
                lemma_push_all(s1.take(i as int), s1[i as int]);
                assert(s1.take(i as int + 1) =~= s1.take(i as int).push(s1[i as int]));
                assert(clock_at(self@, k) == v);
                assert(clock_at(other_vector@, k) == w);
                assert(seq_has_key(s1.take(i as int).push(s1[i as int]), k));
                assert(seq_has_key(s1.take(i as int + 1), k));
                assert forall|kk: i64| #![auto]
                    seq_has_key(s1.take(i as int), kk) implies seq_has_key(
                    s1.take(i as int + 1),
                    kk,
                ) by {
                    assert(seq_has_key(s1.take(i as int).push(s1[i as int]), kk));
                }
                if lt {
                    if old_lt {
                        let kk = choose|kk: i64|
                            #![auto]
                            seq_has_key(s1.take(i as int), kk) && clock_at(self@, kk)
                                < clock_at(other_vector@, kk);
                        assert(seq_has_key(s1.take(i as int + 1), kk));
                    } else {
                        assert(v < w);
                    }
                }
                if gt {
                    if old_gt {
                        let kk = choose|kk: i64|
                            #![auto]
                            seq_has_key(s1.take(i as int), kk) && clock_at(self@, kk)
                                > clock_at(other_vector@, kk);
                        assert(seq_has_key(s1.take(i as int + 1), kk));
                    } else {
                        assert(v > w);
                    }
                }
                assert forall|kk: i64| #![auto]
                    seq_has_key(s1.take(i as int + 1), kk) && clock_at(self@, kk) < clock_at(
                        other_vector@,
                        kk,
                    ) implies lt by {
                    assert(seq_has_key(s1.take(i as int).push(s1[i as int]), kk));
                    if !seq_has_key(s1.take(i as int), kk) {
                        assert(kk == k);
                    }
                }
                assert forall|kk: i64| #![auto]
                    seq_has_key(s1.take(i as int + 1), kk) && clock_at(self@, kk) > clock_at(
                        other_vector@,
                        kk,
                    ) implies gt by {
                    assert(seq_has_key(s1.take(i as int).push(s1[i as int]), kk));
                    if !seq_has_key(s1.take(i as int), kk) {
                        assert(kk == k);
                    }
                }
            }
            i = i + 1;
        }
        proof {
            assert(s1.take(n1 as int) =~= s1);
        }
        let n2 = other_vector.entries.len();
        let mut j: usize = 0;
        while j < n2
            invariant
                n2 == other_vector.entries.len(),
                s1 == self.entries@,
                s2 == other_vector.entries@,
                self.wf(),
                other_vector.wf(),
                0 <= j <= n2,
                lt <==> exists|k: i64| #![auto]
                    (seq_has_key(s1, k) || seq_has_key(s2.take(j as int), k)) && clock_at(
                        self@,
                        k,
                    ) < clock_at(other_vector@, k),
                gt <==> exists|k: i64| #![auto]
                    (seq_has_key(s1, k) || seq_has_key(s2.take(j as int), k)) && clock_at(
                        self@,
                        k,
                    ) > clock_at(other_vector@, k),
            decreases n2 - j,
        {
            let k = other_vector.entries[j].0;
            let w = other_vector.entries[j].1;
            let v = self.get(k);
            let ghost old_lt = lt;
            let ghost old_gt = gt;
            if v < w {
                lt = true;
            }
            if v > w {
                gt = true;
            }
            proof {
                self.lemma_view_is_seq_val();
                other_vector.lemma_view_is_seq_val();
                lemma_seq_val_at_index(s2, j as int);
                lemma_push_all(s2.take(j as int), s2[j as int]);
                assert(s2.take(j as int + 1) =~= s2.take(j as int).push(s2[j as int]));
                assert(clock_at(self@, k) == v);
                assert(clock_at(other_vector@, k) == w);
                assert(seq_has_key(s2.take(j as int).push(s2[j as int]), k));
                assert(seq_has_key(s2.take(j as int + 1), k));
                assert forall|kk: i64| #![auto]
                    seq_has_key(s2.take(j as int), kk) implies seq_has_key(
                    s2.take(j as int + 1),
                    kk,
                ) by {
                    assert(seq_has_key(s2.take(j as int).push(s2[j as int]), kk));
                }
                if lt {
                    if old_lt {
                        let kk = choose|kk: i64|
                            #![auto]
                            (seq_has_key(s1, kk) || seq_has_key(s2.take(j as int), kk))
                                && clock_at(self@, kk) < clock_at(other_vector@, kk);
                        assert(seq_has_key(s1, kk) || seq_has_key(s2.take(j as int + 1), kk));
                    } else {
                        assert(v < w);
                    }
                }
                if gt {
                    if old_gt {
                        let kk = choose|kk: i64|
                            #![auto]
                            (seq_has_key(s1, kk) || seq_has_key(s2.take(j as int), kk))
                                && clock_at(self@, kk) > clock_at(other_vector@, kk);
                        assert(seq_has_key(s1, kk) || seq_has_key(s2.take(j as int + 1), kk));
                    } else {
                        assert(v > w);
                    }
                }
                assert forall|kk: i64| #![auto]
                    (seq_has_key(s1, kk) || seq_has_key(s2.take(j as int + 1), kk)) && clock_at(
                        self@,
                        kk,
                    ) < clock_at(other_vector@, kk) implies lt by {
                    assert(seq_has_key(s2.take(j as int + 1), kk) ==> seq_has_key(
                        s2.take(j as int).push(s2[j as int]),
                        kk,
                    ));
                    if !seq_has_key(s1, kk) && !seq_has_key(s2.take(j as int), kk) {
                        assert(kk == k);
                    }
                }
                assert forall|kk: i64| #![auto]
                    (seq_has_key(s1, kk) || seq_has_key(s2.take(j as int + 1), kk)) && clock_at(
                        self@,
                        kk,
                    ) > clock_at(other_vector@, kk) implies gt by {
                    assert(seq_has_key(s2.take(j as int + 1), kk) ==> seq_has_key(
                        s2.take(j as int).push(s2[j as int]),
                        kk,
                    ));
                    if !seq_has_key(s1, kk) && !seq_has_key(s2.take(j as int), kk) {
                        assert(kk == k);
                    }
                }
            }
            j = j + 1;
        }
        proof {
            assert(s2.take(n2 as int) =~= s2);
            lemma_positive_has_key_view(self);
            lemma_positive_has_key_view(other_vector);
            assert forall|k: i64| #![auto]
                (clock_at(self@, k) != clock_at(other_vector@, k)) implies (seq_has_key(s1, k)
                || seq_has_key(s2, k)) by {
                if clock_at(self@, k) >= 1 {
                    assert(seq_has_key(s1, k));
                } else {
                    assert(clock_at(other_vector@, k) >= 1);
                    assert(seq_has_key(s2, k));
                }
            }
            assert(lt <==> !vc_le(other_vector@, self@)) by {
                if lt {
                    assert(!vc_le(other_vector@, self@));
                }
                if !vc_le(other_vector@, self@) {
                    let k = choose|k: i64| !(#[trigger] clock_at(other_vector@, k) <= clock_at(
                        self@,
                        k,
                    ));
                    assert(clock_at(self@, k) < clock_at(other_vector@, k));
                    assert(seq_has_key(s1, k) || seq_has_key(s2, k));
                }
            }
            assert(gt <==> !vc_le(self@, other_vector@)) by {
                if gt {
                    assert(!vc_le(self@, other_vector@));
                }
                if !vc_le(self@, other_vector@) {
                    let k = choose|k: i64| !(#[trigger] clock_at(self@, k) <= clock_at(
                        other_vector@,
                        k,
                    ));
                    assert(clock_at(self@, k) > clock_at(other_vector@, k));
                    assert(seq_has_key(s1, k) || seq_has_key(s2, k));
                }
            }
        }
        if !lt && !gt {
            ClockComparison::Equal
        } else if lt && !gt {
            ClockComparison::Less
        } else if gt && !lt {
            ClockComparison::Greater
        } else {
            ClockComparison::Concurrent
        }
    }

    /// Pointwise equality of two clocks.
    pub fn equals(&self, other_vector: &VectorClock) -> (r: bool)
        requires
            self.wf(),
            other_vector.wf(),
        ensures
            r <==> self@ == other_vector@,
    {
        let c = self.compare(other_vector);
        proof {
            if vc_le(self@, other_vector@) && vc_le(other_vector@, self@) {
                lemma_canonical_views(self, other_vector);
            }
        }
        match c {
            ClockComparison::Equal => true,
            _ => false,
        }
    }
}

impl VectorClock {
    /// In a well-formed clock an identifier is in the view's domain exactly
    /// when its counter is non-zero.
    pub proof fn lemma_nonzero_dom(&self)
        requires
            self.wf(),
        ensures
            forall|k: i64| #![auto] self@.dom().contains(k) <==> clock_at(self@, k) >= 1,
    {
        lemma_positive_has_key_view(self);
    }
}

impl Clone for VectorClock {
    /// An exact copy: the views coincide.
    fn clone(&self) -> (r: Self)
        ensures
            r@ == self@,
            self.wf() ==> r.wf(),
    {
        let n = self.entries.len();
        let mut out: Vec<(i64, u64)> = Vec::new();
        let mut i: usize = 0;
        while i < n
            invariant
                n == self.entries.len(),
                0 <= i <= n,
                out@ =~= self.entries@.take(i as int),
            decreases n - i,
        {
            out.push(self.entries[i]);
            i = i + 1;
        }
        proof {
            assert(out@ =~= self.entries@);
        }
        let r = VectorClock { entries: out };
        proof {
            assert(r@ =~= self@);
        }
        r
    }
}

proof fn lemma_push_all(s: Seq<(i64, u64)>, p: (i64, u64))
    ensures
        forall|k: i64| #![trigger seq_has_key(s.push(p), k)]
            seq_has_key(s.push(p), k) == (seq_has_key(s, k) || p.0 == k),
        forall|k: i64| #![trigger seq_val(s.push(p), k)]
            seq_val(s.push(p), k) == (if seq_has_key(s, k) {
                seq_val(s, k)
            } else if p.0 == k {
                p.1
            } else {
                0u64
            }),
{
    assert forall|k: i64| #![trigger seq_has_key(s.push(p), k)]
        seq_has_key(s.push(p), k) == (seq_has_key(s, k) || p.0 == k) by {
        lemma_seq_val_push(s, p, k);
    }
    assert forall|k: i64| #![trigger seq_val(s.push(p), k)]
        seq_val(s.push(p), k) == (if seq_has_key(s, k) {
            seq_val(s, k)
        } else if p.0 == k {
            p.1
        } else {
            0u64
        }) by {
        lemma_seq_val_push(s, p, k);
    }
}

proof fn lemma_seq_val_update(s: Seq<(i64, u64)>, i: int, p: (i64, u64), k: i64)
    requires
        0 <= i < s.len(),
        s[i].0 == p.0,
        entries_sorted(s),
    ensures
        seq_has_key(s.update(i, p), k) == seq_has_key(s, k),
        seq_val(s.update(i, p), k) == (if k == p.0 {
            p.1
        } else {
            seq_val(s, k)
        }),
    decreases s.len(),
{
    let t = s.update(i, p);
    assert(t.len() == s.len());
    if i == 0 {
        assert(t[0] == p);
        assert(t.drop_first() =~= s.drop_first());
        if k != p.0 {
        } else {
        }
    } else {
        assert(t[0] == s[0]);
        assert(t.drop_first() =~= s.drop_first().update(i - 1, p));
        assert(forall|a: int|
            0 <= a < s.drop_first().len() ==> (#[trigger] s.drop_first()[a]) == s[a + 1]);
        assert(entries_sorted(s.drop_first()));
        lemma_seq_val_update(s.drop_first(), i - 1, p, k);
        assert(s[0].0 < s[i].0);
    }
}

proof fn lemma_seq_val_update_all(s: Seq<(i64, u64)>, i: int, p: (i64, u64))
    requires
        0 <= i < s.len(),
        s[i].0 == p.0,
        entries_sorted(s),
    ensures
        forall|k: i64| #![trigger seq_has_key(s.update(i, p), k)]
            seq_has_key(s.update(i, p), k) == seq_has_key(s, k),
        forall|k: i64| #![trigger seq_val(s.update(i, p), k)]
            seq_val(s.update(i, p), k) == (if k == p.0 {
                p.1
            } else {
                seq_val(s, k)
            }),
{
    assert forall|k: i64| #![trigger seq_has_key(s.update(i, p), k)]
        seq_has_key(s.update(i, p), k) == seq_has_key(s, k) by {
        lemma_seq_val_update(s, i, p, k);
    }
    assert forall|k: i64| #![trigger seq_val(s.update(i, p), k)]
        seq_val(s.update(i, p), k) == (if k == p.0 {
            p.1
        } else {
            seq_val(s, k)
        }) by {
        lemma_seq_val_update(s, i, p, k);
    }
}

proof fn lemma_seq_val_insert(s: Seq<(i64, u64)>, i: int, p: (i64, u64), k: i64)
    requires
        0 <= i <= s.len(),
        !seq_has_key(s, p.0),
    ensures
        seq_has_key(s.insert(i, p), k) == (seq_has_key(s, k) || p.0 == k),
        seq_val(s.insert(i, p), k) == (if k == p.0 {
            p.1
        } else {
            seq_val(s, k)
        }),
    decreases s.len(), i,
{
    let t = s.insert(i, p);
    if i == 0 {
        assert(t[0] == p);
        assert(t.drop_first() =~= s);
        if k == p.0 {
            lemma_seq_val_absent(s, k);
        }
    } else {
        assert(t[0] == s[0]);
        assert(t.drop_first() =~= s.drop_first().insert(i - 1, p));
        lemma_seq_val_insert(s.drop_first(), i - 1, p, k);
        assert(s[0].0 != p.0);
    }
}

proof fn lemma_seq_val_insert_all(s: Seq<(i64, u64)>, i: int, p: (i64, u64))
    requires
        0 <= i <= s.len(),
        !seq_has_key(s, p.0),
    ensures
        forall|k: i64| #![trigger seq_has_key(s.insert(i, p), k)]
            seq_has_key(s.insert(i, p), k) == (seq_has_key(s, k) || p.0 == k),
        forall|k: i64| #![trigger seq_val(s.insert(i, p), k)]
            seq_val(s.insert(i, p), k) == (if k == p.0 {
                p.1
            } else {
                seq_val(s, k)
            }),
{
    assert forall|k: i64| #![trigger seq_has_key(s.insert(i, p), k)]
        seq_has_key(s.insert(i, p), k) == (seq_has_key(s, k) || p.0 == k) by {
        lemma_seq_val_insert(s, i, p, k);
    }
    assert forall|k: i64| #![trigger seq_val(s.insert(i, p), k)]
        seq_val(s.insert(i, p), k) == (if k == p.0 {
            p.1
        } else {
            seq_val(s, k)
        }) by {
        lemma_seq_val_insert(s, i, p, k);
    }
}

/// In the map view of a well-formed clock, an identifier is in the domain
/// exactly when its counter is non-zero.
proof fn lemma_positive_has_key_view(c: &VectorClock)
    requires
        c.wf(),
    ensures
        forall|k: i64| #![auto] c@.dom().contains(k) <==> clock_at(c@, k) >= 1,
{
    c.lemma_view_is_seq_val();
    assert forall|k: i64| #![auto] c@.dom().contains(k) <==> clock_at(c@, k) >= 1 by {
        lemma_positive_has_key(c.entries@, k);
    }
}

/// Well-formed clocks that agree pointwise have equal map views.
proof fn lemma_canonical_views(a: &VectorClock, b: &VectorClock)
    requires
        a.wf(),
        b.wf(),
        forall|k: i64| #![auto] clock_at(a@, k) == clock_at(b@, k),
    ensures
        a@ == b@,
{
    lemma_positive_has_key_view(a);
    lemma_positive_has_key_view(b);
    assert(a@ =~= b@);
}

/// The merged clock reads as the pointwise maximum.
pub proof fn lemma_vc_merge_at(m1: Map<i64, u64>, m2: Map<i64, u64>)
    ensures
        forall|k: i64| #![auto]
            clock_at(vc_merge(m1, m2), k) == max_u64(clock_at(m1, k), clock_at(m2, k)),
{
    assert forall|k: i64| #![auto]
        clock_at(vc_merge(m1, m2), k) == max_u64(clock_at(m1, k), clock_at(m2, k)) by {
        if m1.dom().contains(k) || m2.dom().contains(k) {
            assert(vc_merge(m1, m2).dom().contains(k));
            assert(vc_merge(m1, m2)[k] == max_u64(clock_at(m1, k), clock_at(m2, k)));
        } else {
            assert(!vc_merge(m1, m2).dom().contains(k));
        }
    }
}

/// Both arguments are dominated by their merge.
pub proof fn lemma_vc_merge_le(m1: Map<i64, u64>, m2: Map<i64, u64>)
    ensures
        vc_le(m1, vc_merge(m1, m2)),
        vc_le(m2, vc_merge(m1, m2)),
{
    lemma_vc_merge_at(m1, m2);
}

/// Pointwise domination is transitive.
pub proof fn lemma_vc_le_trans(m1: Map<i64, u64>, m2: Map<i64, u64>, m3: Map<i64, u64>)
    requires
        vc_le(m1, m2),
        vc_le(m2, m3),
    ensures
        vc_le(m1, m3),
{
    assert forall|k: i64| #![auto] clock_at(m1, k) <= clock_at(m3, k) by {
        assert(clock_at(m1, k) <= clock_at(m2, k));
        assert(clock_at(m2, k) <= clock_at(m3, k));
    }
}

/// A dominated clock compares `Less` or `Equal`, never `Greater` or
/// `Concurrent`.
pub proof fn lemma_le_not_ahead(m1: Map<i64, u64>, m2: Map<i64, u64>)
    requires
        vc_le(m1, m2),
    ensures
        compare_spec(m1, m2) == ClockComparison::Less || compare_spec(m1, m2)
            == ClockComparison::Equal,
{
}

/// A clock compares `Equal` to itself.
pub proof fn lemma_compare_reflexive(m: Map<i64, u64>)
    ensures
        compare_spec(m, m) == ClockComparison::Equal,
{
}

/// One clock is `Less` than a second exactly when the second is `Greater`
/// than the first.
pub proof fn lemma_compare_antisymmetric(m1: Map<i64, u64>, m2: Map<i64, u64>)
    ensures
        (compare_spec(m1, m2) == ClockComparison::Less) <==> (compare_spec(m2, m1)
            == ClockComparison::Greater),
{
}

/// Concurrency is symmetric.
pub proof fn lemma_concurrent_symmetric(m1: Map<i64, u64>, m2: Map<i64, u64>)
    ensures
        (compare_spec(m1, m2) == ClockComparison::Concurrent) <==> (compare_spec(m2, m1)
            == ClockComparison::Concurrent),
{
}

} // verus!
