//! The Space-Saving top-k counter of Metwally, Agrawal and El Abbadi, with
//! the optional randomized admission policy (RAP), over a scanned entry
//! list: at most `capacity` keys are stored; an arrival of a stored key
//! increments its counter; a fresh key is admitted outright while room
//! remains, and otherwise replaces a minimum-counter entry with counter
//! `min + 1` (under RAP only with probability `1 / (min + 1)`).
use vstd::prelude::*;

use crate::entries::clip_u32;
use crate::entries::count_of;
use crate::entries::entries_distinct;
use crate::entries::entries_has;
use crate::entries::entries_stored;
use crate::entries::find_entry;
use crate::entries::find_min_index;
use crate::entries::lemma_min_ge;
use crate::entries::lemma_min_le_all;
use crate::entries::lemma_min_times_len_le_sum;
use crate::entries::lemma_sum_push;
use crate::entries::lemma_sum_remove;
use crate::entries::lemma_sum_update;
use crate::entries::min_val;
use crate::entries::sat_add_u32;
use crate::entries::sum_vals;
use crate::sampling::gen_below;

verus! {

/// A Space-Saving sketch over a scanned entry list.  The ghost fields
/// record the exact arrival counts and the total number of arrivals, so
/// that the classic overestimation guarantee can be stated and maintained.
pub struct SpaceSaving {
    pub counters: Vec<(Vec<u8>, u32)>,
    pub capacity: usize,
    pub num: usize,
    pub rap: bool,
    pub rng: rand::rngs::StdRng,
    pub truth: Ghost<Map<Seq<u8>, int>>,
    pub total: Ghost<int>,
}

impl SpaceSaving {
    /// The counter stored for `key`, or none.
    pub open spec fn spec_stored(self, key: Seq<u8>) -> Option<u32> {
        entries_stored(self.counters@, key)
    }

    /// What a query of `key` returns: its stored counter, or the minimum
    /// stored counter when the key is absent (the conservative estimate).
    pub open spec fn spec_get(self, key: Seq<u8>) -> int {
        match self.spec_stored(key) {
            Some(v) => v as int,
            None => min_val(self.counters@),
        }
    }

    /// The bound that the exact count of every unstored key obeys: zero
    /// while room remains (nothing was ever evicted), the minimum stored
    /// counter once the sketch is full.
    pub open spec fn spec_floor(self) -> int {
        if self.counters@.len() < self.capacity {
            0
        } else {
            min_val(self.counters@)
        }
    }

    /// The classic overestimation guarantee, maintained while RAP is off:
    /// every stored counter dominates its key's exact count, and the exact
    /// count of every unstored key is below the floor.  Counts are read
    /// through the `u32` cap, which only matters past four billion
    /// arrivals of one key.
    pub open spec fn overestimates(self) -> bool {
        &&& forall|i: int|
            0 <= i < self.counters@.len() ==> clip_u32(
                count_of(self.truth@, self.counters@[i].0@),
            ) <= (#[trigger] self.counters@[i].1)
        &&& forall|k: Seq<u8>|
            !entries_has(self.counters@, k) ==> clip_u32(#[trigger] count_of(self.truth@, k))
                <= self.spec_floor()
    }

    /// Structural soundness: distinct keys, at most `capacity` of them,
    /// positive counters, a consistent ghost record of arrivals, and the
    /// overestimation guarantee whenever RAP is off.
    pub open spec fn wf(self) -> bool {
        &&& entries_distinct(self.counters@)
        &&& self.num == self.counters@.len()
        &&& self.counters@.len() <= self.capacity
        &&& self.capacity >= 1
        &&& forall|i: int| 0 <= i < self.counters@.len() ==> (#[trigger] self.counters@[i].1) >= 1
        &&& self.total@ >= 0
        &&& forall|k: Seq<u8>| 0 <= #[trigger] count_of(self.truth@, k) <= self.total@
        &&& sum_vals(self.counters@) <= self.total@
        &&& (!self.rap ==> self.overestimates())
    }

    /// An empty sketch holding at most `capacity` keys.  `capacity` is the
    /// rounded reciprocal of the target error; `rng` drives RAP admission.
    pub fn new(capacity: usize, rap: bool, rng: rand::rngs::StdRng) -> (r: Self)
        requires
            capacity >= 1,
        ensures
            r.wf(),
            r.capacity == capacity,
            r.rap == rap,
            r.counters@.len() == 0,
            r.total@ == 0,
            forall|k: Seq<u8>| #[trigger] count_of(r.truth@, k) == 0,
    {
        SpaceSaving {
            counters: Vec::new(),
            capacity,
            num: 0,
            rap,
            rng,
            truth: Ghost(Map::empty()),
            total: Ghost(0),
        }
    }

    /// One arrival of `id`.  A stored key's counter grows by one; a fresh
    /// key is admitted with counter one while room remains, and otherwise
    /// replaces a minimum entry with counter `min + 1` (under RAP only
    /// when a `1 / (min + 1)` coin succeeds).  Stored counters and, once
    /// the sketch is full, the minimum counter never decrease.
    pub fn insert(&mut self, id: &[u8])
        requires
            old(self).wf(),
        ensures
            final(self).wf(),
            final(self).rap == old(self).rap,
            final(self).capacity == old(self).capacity,
            final(self).total@ == old(self).total@ + 1,
            final(self).truth@ == old(self).truth@.insert(
                id@,
                count_of(old(self).truth@, id@) + 1,
            ),
            entries_has(old(self).counters@, id@) ==> {
                &&& final(self).counters@.len() == old(self).counters@.len()
                &&& final(self).spec_stored(id@) == (match old(self).spec_stored(id@) {
                    Some(v) => Some(sat_add_u32(v, 1)),
                    None => None::<u32>,
                })
                &&& forall|k: Seq<u8>|
                    k != id@ ==> final(self).spec_stored(k) == old(self).spec_stored(k)
            },
            (!entries_has(old(self).counters@, id@) && old(self).counters@.len() < old(self).capacity) ==> {
                &&& final(self).counters@.len() == old(self).counters@.len() + 1
                &&& final(self).spec_stored(id@) == Some(1u32)
                &&& forall|k: Seq<u8>|
                    k != id@ ==> final(self).spec_stored(k) == old(self).spec_stored(k)
            },
            (!entries_has(old(self).counters@, id@) && old(self).counters@.len() == old(self).capacity) ==> {
                ||| final(self).counters@ == old(self).counters@
                ||| {
                    &&& final(self).counters@.len() == old(self).counters@.len()
                    &&& final(self).spec_stored(id@) == Some(
                        sat_add_u32(min_val(old(self).counters@) as u32, 1),
                    )
                    &&& forall|k: Seq<u8>|
                        k != id@ && entries_has(final(self).counters@, k) ==> final(self).spec_stored(k) == old(self).spec_stored(k)
                }
            },
            (!entries_has(old(self).counters@, id@) && old(self).counters@.len() == old(self).capacity && !old(self).rap) ==> final(self).counters@ != old(self).counters@,
            forall|k: Seq<u8>|
                entries_has(old(self).counters@, k) && entries_has(final(self).counters@, k)
                    ==> final(self).spec_stored(k).unwrap() >= old(self).spec_stored(k).unwrap(),
            old(self).counters@.len() == old(self).capacity ==> min_val(final(self).counters@)
                >= min_val(old(self).counters@),
    {
        let ghost t0 = self.truth@;
        let ghost s0 = self.counters@;
        proof {
            assert(count_of(t0, id@) <= self.total@);
        }
        self.truth = Ghost(t0.insert(id@, count_of(t0, id@) + 1));
        self.total = Ghost(self.total@ + 1);
        proof {
            assert(forall|k: Seq<u8>|
                k != id@ ==> #[trigger] count_of(self.truth@, k) == count_of(t0, k));
            assert(count_of(self.truth@, id@) == count_of(t0, id@) + 1);
        }
        match find_entry(&self.counters, id) {
            Some(i) => {
                let c = self.counters[i].1;
                let newc = match c.checked_add(1) {
                    Some(v) => v,
                    None => u32::MAX,
                };
                let keep = self.counters[i].0.clone();
                self.counters.set(i, (keep, newc));
                proof {
                    self.lemma_after_increment(s0, t0, i as int, id@, newc);
                }
            },
            None => {
                if self.num < self.capacity {
                    let keyv: Vec<u8> = vstd::slice::slice_to_vec(id);
                    self.counters.push((keyv, 1));
                    self.num = self.num + 1;
                    proof {
                        self.lemma_after_admit(s0, t0, id@);
                    }
                } else {
                    let mi = find_min_index(&self.counters);
                    let m = self.counters[mi].1;
                    let added = match m.checked_add(1) {
                        Some(v) => v,
                        None => u32::MAX,
                    };
                    let accepted = if self.rap {
                        gen_below(&mut self.rng, added as u64) == 0
                    } else {
                        true
                    };
                    if accepted {
                        self.counters.remove(mi);
                        let keyv: Vec<u8> = vstd::slice::slice_to_vec(id);
                        self.counters.push((keyv, added));
                        proof {
                            self.lemma_after_replace(s0, t0, mi as int, id@, added);
                        }
                    } else {
                        proof {
                            self.lemma_after_decline(s0, t0, id@);
                        }
                    }
                }
            },
        }
    }

    /// After a stored key's counter was bumped from its old value to
    /// `newc`, well-formedness and the monotonicity facts hold.
    proof fn lemma_after_increment(
        &self,
        s0: Seq<(Vec<u8>, u32)>,
        t0: Map<Seq<u8>, int>,
        i: int,
        key: Seq<u8>,
        newc: u32,
    )
        requires
            entries_distinct(s0),
            0 <= i < s0.len(),
            s0[i].0@ == key,
            s0.len() <= self.capacity,
            self.capacity >= 1,
            self.num == s0.len(),
            forall|j: int| 0 <= j < s0.len() ==> (#[trigger] s0[j].1) >= 1,
            newc == sat_add_u32(s0[i].1, 1),
            self.counters@.len() == s0.len(),
            self.counters@[i].0@ == key,
            self.counters@[i].1 == newc,
            forall|j: int| 0 <= j < s0.len() && j != i ==> self.counters@[j] == s0[j],
            self.truth@ == t0.insert(key, count_of(t0, key) + 1),
            self.total@ >= 1,
            forall|k: Seq<u8>| 0 <= #[trigger] count_of(t0, k) <= self.total@ - 1,
            sum_vals(s0) <= self.total@ - 1,
            !self.rap ==> {
                &&& forall|j: int|
                    0 <= j < s0.len() ==> clip_u32(count_of(t0, s0[j].0@)) <= (#[trigger] s0[j].1)
                &&& forall|k: Seq<u8>|
                    !entries_has(s0, k) ==> clip_u32(#[trigger] count_of(t0, k)) <= (if s0.len()
                        < self.capacity {
                        0
                    } else {
                        min_val(s0)
                    })
            },
        ensures
            self.wf(),
            self.counters@.len() == s0.len(),
            entries_stored(self.counters@, key) == Some(newc),
            entries_stored(s0, key) == Some(s0[i].1),
            forall|k: Seq<u8>|
                k != key ==> entries_stored(self.counters@, k) == entries_stored(s0, k),
            forall|k: Seq<u8>|
                entries_has(s0, k) && entries_has(self.counters@, k) ==> entries_stored(
                    self.counters@,
                    k,
                ).unwrap() >= entries_stored(s0, k).unwrap(),
            min_val(self.counters@) >= min_val(s0),
    {
        let s1 = self.counters@;
        assert(forall|j: int| 0 <= j < s1.len() ==> s1[j].0@ == s0[j].0@);
        assert(forall|j: int| 0 <= j < s1.len() && j != i ==> s1[j] == s0[j]);
        assert(s1[i].1 == newc && newc >= s0[i].1);
        assert(entries_distinct(s1));
        assert forall|k: Seq<u8>| 0 <= #[trigger] count_of(self.truth@, k) <= self.total@ by {
            if k == key {
                assert(count_of(self.truth@, key) == count_of(t0, key) + 1);
            } else {
                assert(count_of(self.truth@, k) == count_of(t0, k));
            }
        }

        assert forall|k: Seq<u8>| k != key implies entries_stored(s1, k) == entries_stored(
            s0,
            k,
        ) by {
            if entries_has(s1, k) {
                let a = choose|a: int| 0 <= a < s1.len() && s1[a].0@ == k;
                assert(s0[a].0@ == k);
                let b = choose|b: int| 0 <= b < s0.len() && s0[b].0@ == k;
                assert(a == b && a != i);
            } else {
                if entries_has(s0, k) {
                    let b = choose|b: int| 0 <= b < s0.len() && s0[b].0@ == k;
                    assert(s1[b].0@ == k);
                }
            }
        }
        assert(entries_stored(s1, key) == Some(newc)) by {
            assert(s1[i].0@ == key);
            let a = choose|a: int| 0 <= a < s1.len() && s1[a].0@ == key;
            assert(a == i);
        }
        assert(entries_stored(s0, key) == Some(s0[i].1)) by {
            let b = choose|b: int| 0 <= b < s0.len() && s0[b].0@ == key;
            assert(b == i);
        }
        assert(s1 =~= s0.update(i, (s1[i].0, newc)));
        lemma_sum_update(s0, i, (s1[i].0, newc));
        assert(sum_vals(s1) <= sum_vals(s0) + 1);
        assert(min_val(s1) >= min_val(s0)) by {
            assert forall|j: int| 0 <= j < s1.len() implies min_val(s0) <= (#[trigger] s1[j].1) by {
                lemma_min_le_all(s0, j);
            }
            lemma_min_ge(s1, min_val(s0));
        }
        if !self.rap {
            assert forall|j: int|
                0 <= j < s1.len() implies clip_u32(count_of(self.truth@, s1[j].0@))
                <= (#[trigger] s1[j].1) by {
                if j == i {
                    assert(count_of(self.truth@, key) == count_of(t0, key) + 1);
                } else {
                    assert(s1[j].0@ != key);
                    assert(count_of(self.truth@, s1[j].0@) == count_of(t0, s1[j].0@));
                }
            }
            assert forall|k: Seq<u8>| !entries_has(s1, k) implies clip_u32(
                #[trigger] count_of(self.truth@, k),
            ) <= self.spec_floor() by {
                assert(!entries_has(s0, k)) by {
                    if entries_has(s0, k) {
                        let b = choose|b: int| 0 <= b < s0.len() && s0[b].0@ == k;
                        assert(s1[b].0@ == k);
                    }
                }
                assert(k != key);
                assert(count_of(self.truth@, k) == count_of(t0, k));
            }
        }
        assert forall|k: Seq<u8>|
            entries_has(s0, k) && entries_has(s1, k) implies entries_stored(s1, k).unwrap()
            >= entries_stored(s0, k).unwrap() by {
            if k == key {
            } else {
            }
        }
    }

    /// After a fresh key was admitted with counter one while room
    /// remained, well-formedness and the monotonicity facts hold.
    proof fn lemma_after_admit(&self, s0: Seq<(Vec<u8>, u32)>, t0: Map<Seq<u8>, int>, key: Seq<u8>)
        requires
            entries_distinct(s0),
            !entries_has(s0, key),
            s0.len() < self.capacity,
            self.capacity >= 1,
            self.num == s0.len() + 1,
            forall|j: int| 0 <= j < s0.len() ==> (#[trigger] s0[j].1) >= 1,
            self.counters@.len() == s0.len() + 1,
            self.counters@[s0.len() as int].0@ == key,
            self.counters@[s0.len() as int].1 == 1,
            forall|j: int| 0 <= j < s0.len() ==> self.counters@[j] == s0[j],
            self.truth@ == t0.insert(key, count_of(t0, key) + 1),
            self.total@ >= 1,
            forall|k: Seq<u8>| 0 <= #[trigger] count_of(t0, k) <= self.total@ - 1,
            sum_vals(s0) <= self.total@ - 1,
            !self.rap ==> {
                &&& forall|j: int|
                    0 <= j < s0.len() ==> clip_u32(count_of(t0, s0[j].0@)) <= (#[trigger] s0[j].1)
                &&& forall|k: Seq<u8>| !entries_has(s0, k) ==> clip_u32(#[trigger] count_of(t0, k)) <= 0
            },
        ensures
            self.wf(),
            entries_stored(self.counters@, key) == Some(1u32),
            forall|k: Seq<u8>|
                k != key ==> entries_stored(self.counters@, k) == entries_stored(s0, k),
            forall|k: Seq<u8>|
                entries_has(s0, k) && entries_has(self.counters@, k) ==> entries_stored(
                    self.counters@,
                    k,
                ).unwrap() >= entries_stored(s0, k).unwrap(),
    {
        let s1 = self.counters@;
        let n = s0.len() as int;
        assert(s1 =~= s0.push((s1[n].0, 1u32)));
        assert forall|k: Seq<u8>| 0 <= #[trigger] count_of(self.truth@, k) <= self.total@ by {
            if k == key {
                assert(count_of(self.truth@, key) == count_of(t0, key) + 1);
            } else {
                assert(count_of(self.truth@, k) == count_of(t0, k));
            }
        }

        assert(forall|j: int| 0 <= j < n ==> s1[j].0@ == s0[j].0@);
        assert(entries_distinct(s1)) by {
            assert(forall|j: int| 0 <= j < n ==> s1[j].0@ != key);
        }
        assert(entries_stored(s1, key) == Some(1u32)) by {
            assert(s1[n].0@ == key);
            let a = choose|a: int| 0 <= a < s1.len() && s1[a].0@ == key;
            assert(a == n);
        }
        assert forall|k: Seq<u8>| k != key implies entries_stored(s1, k) == entries_stored(
            s0,
            k,
        ) by {
            if entries_has(s1, k) {
                let a = choose|a: int| 0 <= a < s1.len() && s1[a].0@ == k;
                assert(a != n);
                assert(s0[a].0@ == k);
                let b = choose|b: int| 0 <= b < s0.len() && s0[b].0@ == k;
                assert(a == b);
            } else {
                if entries_has(s0, k) {
                    let b = choose|b: int| 0 <= b < s0.len() && s0[b].0@ == k;
                    assert(s1[b].0@ == k);
                }
            }
        }
        lemma_sum_push(s0, (s1[n].0, 1u32));
        assert(sum_vals(s1) == sum_vals(s0) + 1);
        if !self.rap {
            assert forall|j: int|
                0 <= j < s1.len() implies clip_u32(count_of(self.truth@, s1[j].0@))
                <= (#[trigger] s1[j].1) by {
                if j == n {
                    assert(clip_u32(count_of(t0, key)) <= 0);
                    assert(count_of(t0, key) == 0);
                    assert(count_of(self.truth@, key) == 1);
                } else {
                    assert(s1[j].0@ != key);
                    assert(count_of(self.truth@, s1[j].0@) == count_of(t0, s1[j].0@));
                }
            }
            assert forall|k: Seq<u8>| !entries_has(s1, k) implies clip_u32(
                #[trigger] count_of(self.truth@, k),
            ) <= self.spec_floor() by {
                assert(!entries_has(s0, k)) by {
                    if entries_has(s0, k) {
                        let b = choose|b: int| 0 <= b < s0.len() && s0[b].0@ == k;
                        assert(s1[b].0@ == k);
                    }
                }
                assert(k != key);
                assert(count_of(self.truth@, k) == count_of(t0, k));
                assert(clip_u32(count_of(t0, k)) <= 0);
                if self.counters@.len() == self.capacity {
                    assert forall|j: int|
                        0 <= j < s1.len() implies 1 <= (#[trigger] s1[j].1) by {}
                    lemma_min_ge(s1, 1);
                }
            }
        }
    }

    /// After a minimum entry was replaced by the fresh key with counter
    /// `min + 1`, well-formedness and the monotonicity facts hold.
    proof fn lemma_after_replace(
        &self,
        s0: Seq<(Vec<u8>, u32)>,
        t0: Map<Seq<u8>, int>,
        mi: int,
        key: Seq<u8>,
        added: u32,
    )
        requires
            entries_distinct(s0),
            !entries_has(s0, key),
            s0.len() == self.capacity,
            self.capacity >= 1,
            self.num == s0.len(),
            forall|j: int| 0 <= j < s0.len() ==> (#[trigger] s0[j].1) >= 1,
            0 <= mi < s0.len(),
            s0[mi].1 == min_val(s0),
            added == sat_add_u32(s0[mi].1, 1),
            self.counters@.len() == s0.len(),
            self.counters@[s0.len() - 1].0@ == key,
            self.counters@[s0.len() - 1].1 == added,
            self.counters@ == s0.remove(mi).push(
                (self.counters@[s0.len() - 1].0, added),
            ),
            self.truth@ == t0.insert(key, count_of(t0, key) + 1),
            self.total@ >= 1,
            forall|k: Seq<u8>| 0 <= #[trigger] count_of(t0, k) <= self.total@ - 1,
            sum_vals(s0) <= self.total@ - 1,
            !self.rap ==> {
                &&& forall|j: int|
                    0 <= j < s0.len() ==> clip_u32(count_of(t0, s0[j].0@)) <= (#[trigger] s0[j].1)
                &&& forall|k: Seq<u8>|
                    !entries_has(s0, k) ==> clip_u32(#[trigger] count_of(t0, k)) <= min_val(s0)
            },
        ensures
            self.wf(),
            self.counters@.len() == s0.len(),
            entries_stored(self.counters@, key) == Some(added),
            forall|k: Seq<u8>|
                k != key && entries_has(self.counters@, k) ==> entries_stored(self.counters@, k)
                    == entries_stored(s0, k),
            forall|k: Seq<u8>|
                entries_has(s0, k) && entries_has(self.counters@, k) ==> entries_stored(
                    self.counters@,
                    k,
                ).unwrap() >= entries_stored(s0, k).unwrap(),
            min_val(self.counters@) >= min_val(s0),
    {
        let s1 = self.counters@;
        assert forall|k: Seq<u8>| 0 <= #[trigger] count_of(self.truth@, k) <= self.total@ by {
            if k == key {
                assert(count_of(self.truth@, key) == count_of(t0, key) + 1);
            } else {
                assert(count_of(self.truth@, k) == count_of(t0, k));
            }
        }
        let sr = s0.remove(mi);
        let n = s0.len() as int;
        let m = min_val(s0);
        assert(sr.len() == n - 1);
        assert(forall|j: int| 0 <= j < mi ==> sr[j] == s0[j]);
        assert(forall|j: int| mi <= j < n - 1 ==> sr[j] == s0[j + 1]);
        assert(forall|j: int| 0 <= j < n - 1 ==> s1[j] == sr[j]);
        assert(s1[n - 1].0@ == key && s1[n - 1].1 == added);
        // every surviving entry descends from an old entry other than mi
        assert(entries_distinct(s1)) by {
            assert(forall|j: int| 0 <= j < n - 1 ==> sr[j].0@ != key);
            assert forall|a: int, b: int| 0 <= a < b < n - 1 implies sr[a].0@ != sr[b].0@ by {
                if a < mi && b < mi {
                } else if a < mi {
                    assert(sr[b] == s0[b + 1]);
                } else {
                    assert(sr[a] == s0[a + 1] && sr[b] == s0[b + 1]);
                }
            }
        }
        assert(entries_stored(s1, key) == Some(added)) by {
            let a = choose|a: int| 0 <= a < s1.len() && s1[a].0@ == key;
            assert(a == n - 1);
        }
        assert forall|k: Seq<u8>|
            k != key && entries_has(s1, k) implies entries_stored(s1, k) == entries_stored(
            s0,
            k,
        ) by {
            let a = choose|a: int| 0 <= a < s1.len() && s1[a].0@ == k;
            assert(a < n - 1);
            let oi = if a < mi {
                a
            } else {
                a + 1
            };
            assert(s0[oi] == s1[a]);
            assert(entries_has(s0, k));
            let b = choose|b: int| 0 <= b < s0.len() && s0[b].0@ == k;
            assert(b == oi);
            assert(entries_stored(s1, k) == Some(s1[a].1));
            assert(entries_stored(s0, k) == Some(s0[oi].1));
        }
        // sums
        lemma_sum_remove(s0, mi);
        lemma_sum_push(sr, (s1[n - 1].0, added));
        assert(sum_vals(s1) == sum_vals(s0) - m + added);
        assert(added <= m + 1);
        // minimum rises
        assert(min_val(s1) >= m) by {
            assert forall|j: int| 0 <= j < s1.len() implies m <= (#[trigger] s1[j].1) by {
                if j < n - 1 {
                    let oi = if j < mi {
                        j
                    } else {
                        j + 1
                    };
                    assert(s1[j] == s0[oi]);
                    lemma_min_le_all(s0, oi);
                }
            }
            lemma_min_ge(s1, m);
        }
        if !self.rap {
            assert forall|j: int|
                0 <= j < s1.len() implies clip_u32(count_of(self.truth@, s1[j].0@))
                <= (#[trigger] s1[j].1) by {
                if j == n - 1 {
                    assert(clip_u32(count_of(t0, key)) <= m);
                    assert(count_of(self.truth@, key) == count_of(t0, key) + 1);
                    if count_of(t0, key) >= u32::MAX {
                        assert(clip_u32(count_of(t0, key)) == u32::MAX);
                        assert(m >= u32::MAX);
                        assert(m <= s0[mi].1 && s0[mi].1 <= u32::MAX);
                        assert(added == u32::MAX);
                    } else {
                        assert(count_of(t0, key) <= m);
                    }
                } else {
                    let oi = if j < mi {
                        j
                    } else {
                        j + 1
                    };
                    assert(s1[j] == s0[oi]);
                    assert(s1[j].0@ != key);
                    assert(count_of(self.truth@, s1[j].0@) == count_of(t0, s1[j].0@));
                }
            }
            assert forall|k: Seq<u8>| !entries_has(s1, k) implies clip_u32(
                #[trigger] count_of(self.truth@, k),
            ) <= self.spec_floor() by {
                assert(k != key);
                assert(count_of(self.truth@, k) == count_of(t0, k));
                if entries_has(s0, k) {
                    // k can only be the evicted minimum entry's key
                    let b = choose|b: int| 0 <= b < s0.len() && s0[b].0@ == k;
                    assert(b == mi) by {
                        if b != mi {
                            let a = if b < mi {
                                b
                            } else {
                                b - 1
                            };
                            assert(s1[a] == s0[b]);
                        }
                    }
                    assert(clip_u32(count_of(t0, k)) <= s0[mi].1);
                } else {
                    assert(clip_u32(count_of(t0, k)) <= m);
                }
            }
        }
        assert forall|k: Seq<u8>|
            entries_has(s0, k) && entries_has(s1, k) implies entries_stored(s1, k).unwrap()
            >= entries_stored(s0, k).unwrap() by {
            if k == key {
            } else {
                assert(entries_stored(s1, k) == entries_stored(s0, k));
            }
        }
    }

    /// After a RAP coin declined the replacement, only the ghost record
    /// changed, and well-formedness holds.
    proof fn lemma_after_decline(&self, s0: Seq<(Vec<u8>, u32)>, t0: Map<Seq<u8>, int>, key: Seq<u8>)
        requires
            self.rap,
            entries_distinct(s0),
            s0.len() <= self.capacity,
            self.capacity >= 1,
            self.num == s0.len(),
            forall|j: int| 0 <= j < s0.len() ==> (#[trigger] s0[j].1) >= 1,
            self.counters@ == s0,
            self.truth@ == t0.insert(key, count_of(t0, key) + 1),
            self.total@ >= 1,
            forall|k: Seq<u8>| 0 <= #[trigger] count_of(t0, k) <= self.total@ - 1,
            sum_vals(s0) <= self.total@ - 1,
        ensures
            self.wf(),
    {
        assert(forall|k: Seq<u8>|
            k != key ==> #[trigger] count_of(self.truth@, k) == count_of(t0, k));
        assert(count_of(self.truth@, key) == count_of(t0, key) + 1);
    }

    /// The estimate for `id`: its stored counter, or the minimum stored
    /// counter when the key is absent.  At least one key must be stored.
    pub fn get(&self, id: &[u8]) -> (r: u32)
        requires
            self.wf(),
            self.counters@.len() > 0,
        ensures
            r == self.spec_get(id@),
    {
        match find_entry(&self.counters, id) {
            Some(i) => {
                proof {
                    let a = choose|a: int|
                        0 <= a < self.counters@.len() && self.counters@[a].0@ == id@;
                    assert(a == i);
                }
                self.counters[i].1
            },
            None => {
                let mi = find_min_index(&self.counters);
                self.counters[mi].1
            },
        }
    }

    /// The largest number of keys the sketch will hold.
    pub fn capacity(&self) -> (r: usize)
        ensures
            r == self.capacity,
    {
        self.capacity
    }

    /// The number of keys currently stored.
    pub fn len(&self) -> (r: usize)
        requires
            self.wf(),
        ensures
            r == self.counters@.len(),
    {
        self.num
    }
}

/// The Space-Saving guarantee, with RAP off and the sketch full: the exact
/// count of every key not currently stored is at most the minimum stored
/// counter, and that minimum times the capacity is at most the number of
/// arrivals — so with capacity the rounded reciprocal of the target error
/// `e`, the minimum is at most `e` times the arrivals.  Stated for runs
/// short enough that no counter has saturated.
pub proof fn lemma_space_saving_guarantee(s: &SpaceSaving, k: Seq<u8>)
    requires
        s.wf(),
        !s.rap,
        s.counters@.len() == s.capacity,
        !entries_has(s.counters@, k),
        s.total@ <= u32::MAX,
    ensures
        count_of(s.truth@, k) <= min_val(s.counters@),
        min_val(s.counters@) * s.capacity <= s.total@,
{
    assert(count_of(s.truth@, k) <= u32::MAX);
    assert(clip_u32(count_of(s.truth@, k)) == count_of(s.truth@, k));
    lemma_min_times_len_le_sum(s.counters@);
}

} // verus!
