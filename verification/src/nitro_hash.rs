//! An exact counter map with geometric-skip insert sampling: a countdown
//! decides how many arrivals to ignore; each admitted arrival increments the
//! key's counter, and queries scale the stored count by the unbiasing factor.
use vstd::prelude::*;

use crate::entries::entries_distinct;
use crate::entries::entries_has;
use crate::entries::entries_stored;
use crate::entries::lemma_sat_mul_monotone;
use crate::entries::sat_mul_exec;
use crate::entries::sat_add_u32;
use crate::entries::sat_mul_u32;
use crate::entries::stored_scaled;
use crate::sampling::GeoSampler;

verus! {

/// A counter map whose inserts are subsampled by geometric skips and whose
/// queries are scaled back up by the unbiasing factor.
pub struct NitroHash {
    pub counters: Vec<(Vec<u8>, u32)>,
    pub sampler: GeoSampler,
    pub factor: u32,
    pub item_skip: u64,
}

impl NitroHash {
    /// The stored counter for `key`, or none.
    pub open spec fn spec_stored(self, key: Seq<u8>) -> Option<u32> {
        entries_stored(self.counters@, key)
    }

    /// What a query of `key` returns: the stored counter scaled by the
    /// unbiasing factor, or zero when nothing is stored.
    pub open spec fn spec_get(self, key: Seq<u8>) -> u32 {
        stored_scaled(self.counters@, key, self.factor)
    }

    /// The map is well formed: keys are distinct and the factor positive.
    pub open spec fn wf(self) -> bool {
        &&& entries_distinct(self.counters@)
        &&& self.factor >= 1
    }

    /// An empty map.  `factor` is the unbiasing scale, the rounded
    /// reciprocal of the sampling probability that `sampler` draws with.
    pub fn new(factor: u32, sampler: GeoSampler) -> (r: Self)
        requires
            factor >= 1,
        ensures
            r.wf(),
            r.factor == factor,
            r.counters@.len() == 0,
            r.item_skip == 0,
    {
        NitroHash { counters: Vec::new(), sampler, factor, item_skip: 0 }
    }

    /// One arrival of `id`.  While the countdown is positive the arrival is
    /// ignored; otherwise the stored counter grows by one (a fresh key is
    /// stored with count one) and a new countdown is drawn.  Queries of any
    /// key never decrease.
    #[verifier::loop_isolation(false)]
    pub fn insert(&mut self, id: &[u8])
        requires
            old(self).wf(),
        ensures
            final(self).wf(),
            final(self).factor == old(self).factor,
            old(self).item_skip > 0 ==> {
                &&& final(self).counters@ == old(self).counters@
                &&& final(self).item_skip == old(self).item_skip - 1
            },
            old(self).item_skip == 0 ==> final(self).spec_stored(id@) == (match old(
                self,
            ).spec_stored(id@) {
                Some(v) => Some(sat_add_u32(v, 1)),
                None => Some(1u32),
            }),
            forall|k: Seq<u8>|
                k != id@ ==> final(self).spec_stored(k) == old(self).spec_stored(k),
            forall|k: Seq<u8>| #[trigger]
                final(self).spec_get(k) >= old(self).spec_get(k),
    {
        if self.item_skip > 0 {
            self.item_skip = self.item_skip - 1;
            return ;
        }
        let ghost s0 = self.counters@;
        match crate::entries::find_entry(&self.counters, id) {
            Some(i) => {
                let c = self.counters[i].1;
                let newc = match c.checked_add(1) {
                    Some(v) => v,
                    None => u32::MAX,
                };
                let keep = self.counters[i].0.clone();
                self.counters.set(i, (keep, newc));
                self.item_skip = self.sampler.draw();
                proof {
                    let s1 = self.counters@;
                    assert(s1[i as int].0@ == id@);
                    assert(forall|j: int| 0 <= j < s1.len() && j != i ==> s1[j] == s0[j]);
                    self.lemma_update_effect(s0, i as int, id@, newc);
                }
            },
            None => {
                let keyv: Vec<u8> = vstd::slice::slice_to_vec(id);
                self.counters.push((keyv, 1));
                self.item_skip = self.sampler.draw();
                proof {
                    let s1 = self.counters@;
                    assert(s1[s0.len() as int].0@ == id@);
                    assert(forall|j: int| 0 <= j < s0.len() ==> s1[j] == s0[j]);
                    self.lemma_push_effect(s0, id@);
                }
            },
        }
    }

    /// After updating entry `i` (which holds `key`) to `newc`, the stored
    /// view changes only at `key`, and no scaled query shrinks.
    proof fn lemma_update_effect(&self, s0: Seq<(Vec<u8>, u32)>, i: int, key: Seq<u8>, newc: u32)
        requires
            entries_distinct(s0),
            self.factor >= 1,
            0 <= i < s0.len(),
            s0[i].0@ == key,
            self.counters@.len() == s0.len(),
            self.counters@[i].0@ == key,
            self.counters@[i].1 == newc,
            newc >= s0[i].1,
            forall|j: int| 0 <= j < s0.len() && j != i ==> self.counters@[j] == s0[j],
        ensures
            entries_distinct(self.counters@),
            entries_stored(self.counters@, key) == Some(newc),
            entries_stored(s0, key) == Some(s0[i].1),
            forall|k: Seq<u8>| k != key ==> entries_stored(self.counters@, k) == entries_stored(s0, k),
            forall|k: Seq<u8>| #[trigger] stored_scaled(self.counters@, k, self.factor)
                >= stored_scaled(s0, k, self.factor),
    {
        let s1 = self.counters@;
        assert(forall|j: int| 0 <= j < s1.len() ==> s1[j].0@ == s0[j].0@);
        assert forall|k: Seq<u8>| k != key implies entries_stored(s1, k) == entries_stored(
            s0,
            k,
        ) by {
            if entries_has(s1, k) {
                let a = choose|a: int| 0 <= a < s1.len() && s1[a].0@ == k;
                assert(s0[a].0@ == k);
                assert(entries_has(s0, k));
                let b = choose|b: int| 0 <= b < s0.len() && s0[b].0@ == k;
                assert(a == b);
                assert(a != i);
            } else {
                if entries_has(s0, k) {
                    let b = choose|b: int| 0 <= b < s0.len() && s0[b].0@ == k;
                    assert(s1[b].0@ == k);
                }
            }
        }
        assert(entries_stored(s1, key) == Some(newc)) by {
            let a = choose|a: int| 0 <= a < s1.len() && s1[a].0@ == key;
            assert(s0[a].0@ == key);
            assert(a == i);
        }
        assert(entries_stored(s0, key) == Some(s0[i].1)) by {
            let b = choose|b: int| 0 <= b < s0.len() && s0[b].0@ == key;
            assert(b == i);
        }
        assert forall|k: Seq<u8>| #[trigger] stored_scaled(s1, k, self.factor) >= stored_scaled(
            s0,
            k,
            self.factor,
        ) by {
            if k == key {
                lemma_sat_mul_monotone(s0[i].1, newc, self.factor);
            }
        }
    }

    /// After appending a fresh entry `(key, 1)`, the stored view changes
    /// only at `key`, and no scaled query shrinks.
    proof fn lemma_push_effect(&self, s0: Seq<(Vec<u8>, u32)>, key: Seq<u8>)
        requires
            entries_distinct(s0),
            self.factor >= 1,
            !entries_has(s0, key),
            self.counters@.len() == s0.len() + 1,
            self.counters@[s0.len() as int].0@ == key,
            self.counters@[s0.len() as int].1 == 1,
            forall|j: int| 0 <= j < s0.len() ==> self.counters@[j] == s0[j],
        ensures
            entries_distinct(self.counters@),
            entries_stored(self.counters@, key) == Some(1u32),
            forall|k: Seq<u8>| k != key ==> entries_stored(self.counters@, k) == entries_stored(s0, k),
            forall|k: Seq<u8>| #[trigger] stored_scaled(self.counters@, k, self.factor)
                >= stored_scaled(s0, k, self.factor),
    {
        let s1 = self.counters@;
        let n = s0.len() as int;
        assert(forall|j: int| 0 <= j < n ==> s1[j].0@ == s0[j].0@);
        assert(entries_distinct(s1)) by {
            assert(forall|j: int| 0 <= j < n ==> s1[j].0@ != key);
        }
        assert(entries_stored(s1, key) == Some(1u32)) by {
            assert(s1[n].0@ == key);
            let a = choose|a: int| 0 <= a < s1.len() && s1[a].0@ == key;
            assert(a == n);
        }
        assert forall|k: Seq<u8>| k != key implies entries_stored(s1, k) == entries_stored(
            s0,
            k,
        ) by {
            if entries_has(s1, k) {
                let a = choose|a: int| 0 <= a < s1.len() && s1[a].0@ == k;
                assert(a != n);
                assert(s0[a].0@ == k);
                let b = choose|b: int| 0 <= b < s0.len() && s0[b].0@ == k;
                assert(a == b);
            } else {
                if entries_has(s0, k) {
                    let b = choose|b: int| 0 <= b < s0.len() && s0[b].0@ == k;
                    assert(s1[b].0@ == k);
                }
            }
        }
        assert forall|k: Seq<u8>| #[trigger] stored_scaled(s1, k, self.factor) >= stored_scaled(
            s0,
            k,
            self.factor,
        ) by {
            if k != key {
                assert(entries_stored(s1, k) == entries_stored(s0, k));
            }
        }
    }

    /// The scaled estimate for `id`: the stored counter times the unbiasing
    /// factor, or zero when the key is absent.
    #[verifier::loop_isolation(false)]
    pub fn get(&self, id: &[u8]) -> (r: u32)
        requires
            self.wf(),
        ensures
            r == self.spec_get(id@),
    {
        match crate::entries::find_entry(&self.counters, id) {
            Some(i) => {
                proof {
                    let a = choose|a: int|
                        0 <= a < self.counters@.len() && self.counters@[a].0@ == id@;
                    assert(a == i);
                }
                sat_mul_exec(self.counters[i].1, self.factor)
            },
            None => 0,
        }
    }

    /// The number of distinct keys currently stored.
    pub fn len(&self) -> (r: usize)
        ensures
            r == self.counters@.len(),
    {
        self.counters.len()
    }

    /// The number of entries the map accounts memory for; equal to the
    /// number of stored keys, since storage grows one entry per admitted
    /// fresh key.
    pub fn capacity(&self) -> (r: usize)
        ensures
            r == self.counters@.len(),
    {
        self.counters.len()
    }
}

} // verus!
