//! The ordered byte-oriented key-value engine: durable storage is out of
//! scope, but the ordering and cursor semantics that the range-scan
//! protocol relies on are implemented and proved here.
//!
//! The engine keeps its entries sorted by strict lexicographic byte order
//! of their keys and exposes exactly the collaborator interface the store
//! needs: `put`, `get`, `delete`, and a cursor that can seek to the first
//! key at or after a given key and advance in ascending order (a cursor
//! position is an index; `valid` is `pos < num_entries`).

use vstd::prelude::*;

use crate::timekey::bytes_eq;
use crate::timekey::lemma_lex_irrefl;
use crate::timekey::lemma_lex_total;
use crate::timekey::lemma_lex_trans;
use crate::timekey::lex_less;
use crate::timekey::lex_lt;

verus! {

/// The map held by an entry sequence; a later entry under the same key
/// wins, though well-formed engines never hold duplicate keys.
pub open spec fn seq_to_map(m: Seq<(Seq<u8>, Seq<u8>)>) -> Map<Seq<u8>, Seq<u8>>
    decreases m.len(),
{
    if m.len() == 0 {
        Map::empty()
    } else {
        seq_to_map(m.drop_last()).insert(m.last().0, m.last().1)
    }
}

/// A key is in the map of `m` exactly when some entry of `m` holds it.
pub proof fn lemma_map_contains(m: Seq<(Seq<u8>, Seq<u8>)>, k: Seq<u8>)
    ensures
        seq_to_map(m).contains_key(k) <==> exists|i: int| 0 <= i < m.len() && m[i].0 == k,
    decreases m.len(),
{
    if m.len() > 0 {
        lemma_map_contains(m.drop_last(), k);
        if seq_to_map(m).contains_key(k) {
            if m.last().0 != k {
                let i = choose|i: int| 0 <= i < m.drop_last().len() && m.drop_last()[i].0 == k;
                assert(m[i].0 == k);
            }
        }
        if exists|i: int| 0 <= i < m.len() && m[i].0 == k {
            let i = choose|i: int| 0 <= i < m.len() && m[i].0 == k;
            if i < m.len() - 1 {
                assert(m.drop_last()[i].0 == k);
            }
        }
    }
}

/// The value under `k` is the value of the entry holding `k`, provided no
/// later entry holds it too.
pub proof fn lemma_map_value(m: Seq<(Seq<u8>, Seq<u8>)>, i: int, k: Seq<u8>)
    requires
        0 <= i < m.len(),
        m[i].0 == k,
        forall|j: int| i < j < m.len() ==> m[j].0 != k,
    ensures
        seq_to_map(m).contains_key(k),
        seq_to_map(m)[k] == m[i].1,
    decreases m.len(),
{
    if i == m.len() - 1 {
    } else {
        assert(m.drop_last()[i].0 == k);
        lemma_map_value(m.drop_last(), i, k);
        assert(m.last().0 != k);
    }
}

/// Replacing the value of the one entry holding `k` inserts into the map.
proof fn lemma_map_update(m: Seq<(Seq<u8>, Seq<u8>)>, i: int, k: Seq<u8>, v: Seq<u8>)
    requires
        0 <= i < m.len(),
        m[i].0 == k,
        forall|j: int| 0 <= j < m.len() && j != i ==> m[j].0 != k,
    ensures
        seq_to_map(m.update(i, (k, v))) == seq_to_map(m).insert(k, v),
    decreases m.len(),
{
    let mu = m.update(i, (k, v));
    if i == m.len() - 1 {
        assert(mu.drop_last() =~= m.drop_last());
        assert(mu.last() == (k, v));
        assert(seq_to_map(mu) == seq_to_map(m.drop_last()).insert(k, v));
        assert(seq_to_map(m.drop_last()).insert(k, m[i].1).insert(k, v)
            =~= seq_to_map(m.drop_last()).insert(k, v));
    } else {
        assert(mu.drop_last() =~= m.drop_last().update(i, (k, v)));
        assert(mu.last() == m.last());
        assert(m.drop_last()[i].0 == k);
        lemma_map_update(m.drop_last(), i, k, v);
        assert(m.last().0 != k);
        assert(seq_to_map(m.drop_last()).insert(k, v).insert(m.last().0, m.last().1)
            =~= seq_to_map(m.drop_last()).insert(m.last().0, m.last().1).insert(k, v));
    }
}

/// Inserting an entry under a fresh key inserts into the map.
proof fn lemma_map_insert_at(m: Seq<(Seq<u8>, Seq<u8>)>, i: int, k: Seq<u8>, v: Seq<u8>)
    requires
        0 <= i <= m.len(),
        forall|j: int| 0 <= j < m.len() ==> m[j].0 != k,
    ensures
        seq_to_map(m.insert(i, (k, v))) == seq_to_map(m).insert(k, v),
    decreases m.len(),
{
    let mi = m.insert(i, (k, v));
    if i == m.len() {
        assert(mi.drop_last() =~= m);
        assert(mi.last() == (k, v));
    } else {
        assert(mi.drop_last() =~= m.drop_last().insert(i, (k, v)));
        assert(mi.last() == m.last());
        lemma_map_insert_at(m.drop_last(), i, k, v);
        assert(m.last().0 != k);
        assert(seq_to_map(m.drop_last()).insert(k, v).insert(m.last().0, m.last().1)
            =~= seq_to_map(m.drop_last()).insert(m.last().0, m.last().1).insert(k, v));
    }
}

/// Removing the one entry holding `k` removes `k` from the map.
proof fn lemma_map_remove_at(m: Seq<(Seq<u8>, Seq<u8>)>, i: int, k: Seq<u8>)
    requires
        0 <= i < m.len(),
        m[i].0 == k,
        forall|j: int| 0 <= j < m.len() && j != i ==> m[j].0 != k,
    ensures
        seq_to_map(m.remove(i)) == seq_to_map(m).remove(k),
    decreases m.len(),
{
    let mr = m.remove(i);
    if i == m.len() - 1 {
        assert(mr =~= m.drop_last());
        lemma_map_contains(m.drop_last(), k);
        assert(seq_to_map(m.drop_last())
            =~= seq_to_map(m.drop_last()).insert(k, m[i].1).remove(k));
    } else {
        assert(mr.drop_last() =~= m.drop_last().remove(i));
        assert(mr.last() == m.last());
        assert(m.drop_last()[i].0 == k);
        lemma_map_remove_at(m.drop_last(), i, k);
        assert(m.last().0 != k);
        assert(seq_to_map(m.drop_last()).remove(k).insert(m.last().0, m.last().1)
            =~= seq_to_map(m.drop_last()).insert(m.last().0, m.last().1).remove(k));
    }
}

/// Where a write lands: the entries with the one under `k` replaced, or
/// with `(k, v)` inserted at its sorted position.
pub open spec fn sorted_insert(
    m: Seq<(Seq<u8>, Seq<u8>)>,
    k: Seq<u8>,
    v: Seq<u8>,
) -> Seq<(Seq<u8>, Seq<u8>)>
    decreases m.len(),
{
    if m.len() == 0 {
        seq![(k, v)]
    } else if lex_lt(m[0].0, k) {
        seq![m[0]] + sorted_insert(m.drop_first(), k, v)
    } else if m[0].0 == k {
        seq![(k, v)] + m.drop_first()
    } else {
        seq![(k, v)] + m
    }
}

/// What a delete leaves: the entries with the first one under `k` taken
/// out.
pub open spec fn sorted_remove(m: Seq<(Seq<u8>, Seq<u8>)>, k: Seq<u8>) -> Seq<(Seq<u8>, Seq<u8>)>
    decreases m.len(),
{
    if m.len() == 0 {
        m
    } else if m[0].0 == k {
        m.drop_first()
    } else {
        seq![m[0]] + sorted_remove(m.drop_first(), k)
    }
}

/// `sorted_insert` in terms of the seek position of `k`.
proof fn lemma_sorted_insert_at(m: Seq<(Seq<u8>, Seq<u8>)>, k: Seq<u8>, v: Seq<u8>, p: int)
    requires
        0 <= p <= m.len(),
        forall|j: int| 0 <= j < p ==> lex_lt(m[j].0, k),
        p < m.len() ==> !lex_lt(m[p as int].0, k),
    ensures
        sorted_insert(m, k, v) == if p < m.len() && m[p].0 == k {
            m.update(p, (k, v))
        } else {
            m.take(p) + seq![(k, v)] + m.skip(p)
        },
    decreases m.len(),
{
    if m.len() == 0 {
        assert(m.take(0) + seq![(k, v)] + m.skip(0) =~= seq![(k, v)]);
    } else if lex_lt(m[0].0, k) {
        assert(p >= 1);
        let d = m.drop_first();
        assert forall|j: int| 0 <= j < p - 1 implies lex_lt(d[j].0, k) by {
            assert(d[j] == m[j + 1]);
        }
        if p - 1 < d.len() {
            assert(d[p - 1] == m[p]);
        }
        lemma_sorted_insert_at(d, k, v, p - 1);
        if p < m.len() && m[p].0 == k {
            assert(seq![m[0]] + d.update(p - 1, (k, v)) =~= m.update(p, (k, v)));
        } else {
            assert(seq![m[0]] + (d.take(p - 1) + seq![(k, v)] + d.skip(p - 1)) =~= m.take(p)
                + seq![(k, v)] + m.skip(p));
        }
    } else {
        assert(p == 0);
        if m[0].0 == k {
            assert(seq![(k, v)] + m.drop_first() =~= m.update(0, (k, v)));
        } else {
            assert(seq![(k, v)] + m =~= m.take(0) + seq![(k, v)] + m.skip(0));
        }
    }
}

/// `sorted_remove` in terms of the position of the entry under `k`.
proof fn lemma_sorted_remove_at(m: Seq<(Seq<u8>, Seq<u8>)>, k: Seq<u8>, i: int)
    requires
        0 <= i < m.len(),
        m[i].0 == k,
        forall|j: int| 0 <= j < i ==> m[j].0 != k,
    ensures
        sorted_remove(m, k) == m.remove(i),
    decreases m.len(),
{
    if i == 0 {
        assert(m.drop_first() =~= m.remove(0));
    } else {
        let d = m.drop_first();
        assert forall|j: int| 0 <= j < i - 1 implies d[j].0 != k by {
            assert(d[j] == m[j + 1]);
        }
        assert(d[i - 1] == m[i]);
        lemma_sorted_remove_at(d, k, i - 1);
        assert(seq![m[0]] + d.remove(i - 1) =~= m.remove(i));
    }
}

/// Deleting a key that no entry holds leaves the entries as they are.
proof fn lemma_sorted_remove_absent(m: Seq<(Seq<u8>, Seq<u8>)>, k: Seq<u8>)
    requires
        forall|j: int| 0 <= j < m.len() ==> m[j].0 != k,
    ensures
        sorted_remove(m, k) == m,
    decreases m.len(),
{
    if m.len() > 0 {
        let d = m.drop_first();
        assert forall|j: int| 0 <= j < d.len() implies d[j].0 != k by {
            assert(d[j] == m[j + 1]);
        }
        lemma_sorted_remove_absent(d, k);
        assert(seq![m[0]] + d =~= m);
    }
}

/// The ordered engine.
pub struct KvEngine {
    entries: Vec<(Vec<u8>, Vec<u8>)>,
}

impl KvEngine {
    /// The entries in ascending key order.
    pub closed spec fn model(self) -> Seq<(Seq<u8>, Seq<u8>)> {
        self.entries@.map(|i: int, e: (Vec<u8>, Vec<u8>)| (e.0@, e.1@))
    }

    /// The entries as a map from key to value.
    pub open spec fn as_map(self) -> Map<Seq<u8>, Seq<u8>> {
        seq_to_map(self.model())
    }

    /// Well-formed: the keys ascend strictly in lexicographic order.
    pub open spec fn wf(self) -> bool {
        forall|i: int, j: int|
            0 <= i < j < self.model().len() ==> lex_lt(self.model()[i].0, self.model()[j].0)
    }

    /// In a well-formed engine all keys are distinct.
    pub proof fn lemma_keys_distinct(self)
        requires
            self.wf(),
        ensures
            forall|i: int, j: int|
                0 <= i < self.model().len() && 0 <= j < self.model().len() && i != j
                    ==> self.model()[i].0 != self.model()[j].0,
    {
        assert forall|i: int, j: int|
            0 <= i < self.model().len() && 0 <= j < self.model().len() && i != j
            implies self.model()[i].0 != self.model()[j].0 by {
            if i < j {
                lemma_lex_irrefl(self.model()[i].0);
            } else {
                lemma_lex_irrefl(self.model()[i].0);
            }
        }
    }

    /// A fresh, empty engine.
    pub fn new() -> (e: KvEngine)
        ensures
            e.wf(),
            e.model() == Seq::<(Seq<u8>, Seq<u8>)>::empty(),
            e.as_map() == Map::<Seq<u8>, Seq<u8>>::empty(),
    {
        let e = KvEngine { entries: Vec::new() };
        proof {
            assert(e.model() =~= Seq::<(Seq<u8>, Seq<u8>)>::empty());
        }
        e
    }

    /// How many entries the engine holds.
    pub fn num_entries(&self) -> (n: usize)
        ensures
            n == self.model().len(),
    {
        self.entries.len()
    }

    /// The key of the cursor position `i`.
    pub fn entry_key(&self, i: usize) -> (k: &Vec<u8>)
        requires
            i < self.model().len(),
        ensures
            k@ == self.model()[i as int].0,
    {
        &self.entries[i].0
    }

    /// The value of the cursor position `i`.
    pub fn entry_val(&self, i: usize) -> (v: &Vec<u8>)
        requires
            i < self.model().len(),
        ensures
            v@ == self.model()[i as int].1,
    {
        &self.entries[i].1
    }

    /// Seek: the position of the first key at or after `k` in ascending
    /// order, or one past the end when every key is smaller.
    pub fn seek(&self, k: &Vec<u8>) -> (pos: usize)
        ensures
            pos <= self.model().len(),
            forall|j: int| 0 <= j < pos ==> lex_lt(self.model()[j].0, k@),
            pos < self.model().len() ==> !lex_lt(self.model()[pos as int].0, k@),
    {
        let mut i: usize = 0;
        #[verifier::loop_isolation(false)]
        loop
            invariant
                i <= self.model().len(),
                forall|j: int| 0 <= j < i ==> lex_lt(self.model()[j].0, k@),
            decreases self.model().len() - i,
        {
            if i >= self.entries.len() {
                return i;
            }
            let e = &self.entries[i];
            if !lex_less(&e.0, k) {
                return i;
            }
            i += 1;
        }
    }

    /// Point lookup.
    pub fn get(&self, k: &Vec<u8>) -> (r: Option<&Vec<u8>>)
        requires
            self.wf(),
        ensures
            match r {
                Some(v) => self.as_map().contains_key(k@) && self.as_map()[k@] == v@,
                None => !self.as_map().contains_key(k@),
            },
    {
        let mut i: usize = 0;
        #[verifier::loop_isolation(false)]
        loop
            invariant
                i <= self.model().len(),
                forall|j: int| 0 <= j < i ==> self.model()[j].0 != k@,
            decreases self.model().len() - i,
        {
            if i >= self.entries.len() {
                proof {
                    lemma_map_contains(self.model(), k@);
                }
                return None;
            }
            let e = &self.entries[i];
            if bytes_eq(&e.0, k) {
                proof {
                    assert(self.model()[i as int].0 == k@);
                    self.lemma_keys_distinct();
                    lemma_map_value(self.model(), i as int, k@);
                }
                return Some(&e.1);
            }
            i += 1;
        }
    }

    /// Insert or overwrite: afterwards exactly `v` is stored under `k`,
    /// and no other key is touched.
    pub fn put(&mut self, k: Vec<u8>, v: Vec<u8>)
        requires
            old(self).wf(),
        ensures
            final(self).wf(),
            final(self).model() == sorted_insert(old(self).model(), k@, v@),
            final(self).as_map() == old(self).as_map().insert(k@, v@),
            forall|i: int|
                0 <= i < final(self).model().len() ==> final(self).model()[i] == (k@, v@)
                    || old(self).model().contains(final(self).model()[i]),
    {
        let ghost m0 = self.model();
        let ghost kv = (k@, v@);
        let pos = self.seek(&k);
        proof {
            self.lemma_keys_distinct();
        }
        if pos < self.entries.len() {
            let e = &self.entries[pos];
            if bytes_eq(&e.0, &k) {
                proof {
                    assert(m0[pos as int].0 == kv.0);
                }
                self.entries[pos] = (k, v);
                proof {
                    assert(self.model() =~= m0.update(pos as int, kv));
                    lemma_sorted_insert_at(m0, kv.0, kv.1, pos as int);
                    lemma_map_update(m0, pos as int, kv.0, kv.1);
                    assert forall|i: int| 0 <= i < self.model().len()
                        implies self.model()[i] == kv || m0.contains(self.model()[i]) by {
                        if i != pos {
                            assert(self.model()[i] == m0[i]);
                        }
                    }
                }
                return;
            }
        }
        proof {
            assert(pos < m0.len() ==> m0[pos as int].0 != kv.0);
            assert(pos < m0.len() ==> lex_lt(kv.0, m0[pos as int].0)) by {
                if pos < m0.len() {
                    lemma_lex_total(kv.0, m0[pos as int].0);
                }
            }
            assert forall|j: int| 0 <= j < m0.len() implies m0[j].0 != kv.0 by {
                if m0[j].0 == kv.0 {
                    if j < pos {
                        assert(lex_lt(m0[j].0, kv.0));
                        lemma_lex_irrefl(kv.0);
                    } else if j > pos {
                        assert(lex_lt(m0[pos as int].0, m0[j].0));
                        lemma_lex_irrefl(m0[pos as int].0);
                        lemma_lex_trans(kv.0, m0[pos as int].0, kv.0);
                    }
                }
            }
        }
        self.entries.insert(pos, (k, v));
        proof {
            assert(self.model() =~= m0.insert(pos as int, kv));
            lemma_sorted_insert_at(m0, kv.0, kv.1, pos as int);
            assert(m0.insert(pos as int, kv) =~= m0.take(pos as int) + seq![kv] + m0.skip(
                pos as int));
            lemma_map_insert_at(m0, pos as int, kv.0, kv.1);
            let mn = self.model();
            assert forall|i: int, j: int| 0 <= i < j < mn.len()
                implies lex_lt(mn[i].0, mn[j].0) by {
                if j == pos {
                    assert(mn[i] == m0[i]);
                } else if i == pos {
                    assert(mn[j] == m0[j - 1]);
                    if j - 1 > pos {
                        lemma_lex_trans(kv.0, m0[pos as int].0, m0[j - 1].0);
                    }
                } else if i < pos && j > pos {
                    assert(mn[i] == m0[i] && mn[j] == m0[j - 1]);
                } else if j < pos {
                    assert(mn[i] == m0[i] && mn[j] == m0[j]);
                } else {
                    assert(mn[i] == m0[i - 1] && mn[j] == m0[j - 1]);
                }
            }
            assert forall|i: int| 0 <= i < self.model().len()
                implies self.model()[i] == kv || m0.contains(self.model()[i]) by {
                if i < pos {
                    assert(self.model()[i] == m0[i]);
                } else if i > pos {
                    assert(self.model()[i] == m0[i - 1]);
                }
            }
        }
    }

    /// Remove the entry under `k` if there is one; removing a missing key
    /// changes nothing.
    pub fn delete(&mut self, k: &Vec<u8>)
        requires
            old(self).wf(),
        ensures
            final(self).wf(),
            final(self).model() == sorted_remove(old(self).model(), k@),
            final(self).as_map() == old(self).as_map().remove(k@),
            forall|i: int|
                0 <= i < final(self).model().len()
                    ==> old(self).model().contains(final(self).model()[i]),
    {
        let ghost m0 = self.model();
        let mut i: usize = 0;
        #[verifier::loop_isolation(false)]
        loop
            invariant
                self == old(self),
                i <= m0.len(),
                forall|j: int| 0 <= j < i ==> m0[j].0 != k@,
            decreases m0.len() - i,
        {
            if i >= self.entries.len() {
                proof {
                    lemma_map_contains(m0, k@);
                    lemma_sorted_remove_absent(m0, k@);
                    assert(self.as_map() =~= self.as_map().remove(k@));
                }
                return;
            }
            let e = &self.entries[i];
            if bytes_eq(&e.0, k) {
                proof {
                    assert(m0[i as int].0 == k@);
                    self.lemma_keys_distinct();
                }
                self.entries.remove(i);
                proof {
                    assert(self.model() =~= m0.remove(i as int));
                    lemma_sorted_remove_at(m0, k@, i as int);
                    lemma_map_remove_at(m0, i as int, k@);
                    assert forall|p: int, q: int| 0 <= p < q < self.model().len()
                        implies lex_lt(self.model()[p].0, self.model()[q].0) by {
                        let p0: int = if p < i { p } else { p + 1 };
                        let q0: int = if q < i { q } else { q + 1 };
                        assert(self.model()[p] == m0[p0]);
                        assert(self.model()[q] == m0[q0]);
                    }
                }
                return;
            }
            i += 1;
        }
    }

    /// Drop every entry.
    pub fn clear(&mut self)
        ensures
            final(self).wf(),
            final(self).model() == Seq::<(Seq<u8>, Seq<u8>)>::empty(),
            final(self).as_map() == Map::<Seq<u8>, Seq<u8>>::empty(),
    {
        self.entries = Vec::new();
        proof {
            assert(self.model() =~= Seq::<(Seq<u8>, Seq<u8>)>::empty());
        }
    }
}

} // verus!
