//! The Space-Saving top-k counter over an outside double-ended priority
//! queue keyed by flow bytes with the counter as priority.  The queue is
//! reached only through trusted wrappers whose contracts speak of the
//! queue's contents as a map from key to counter.
use vstd::prelude::*;

use crate::entries::clip_u32;
use crate::entries::count_of;
use crate::entries::sat_add_u32;
use crate::sampling::gen_below;
use std::collections::hash_map::RandomState;

verus! {

#[verifier::external_type_specification]
#[verifier::external_body]
#[verifier::reject_recursive_types(I)]
#[verifier::reject_recursive_types(P)]
#[verifier::reject_recursive_types(H)]
pub struct ExDoublePriorityQueue<I, P, H>(priority_queue::DoublePriorityQueue<I, P, H>);

/// The concrete queue the sketch stores: flow bytes as items, counters as
/// priorities.
pub type FlowQueue = priority_queue::DoublePriorityQueue<Vec<u8>, u32, RandomState>;

/// What the queue holds: its items and their priorities, as a map from the
/// item's bytes to the stored counter.
pub uninterp spec fn pq_contents(q: FlowQueue) -> Map<Seq<u8>, u32>;

/// Relies on DoublePriorityQueue::with_capacity: a fresh queue is empty.
#[verifier::external_body]
fn pq_with_capacity(capacity: usize) -> (r: FlowQueue)
    ensures
        pq_contents(r).dom() == Set::<Seq<u8>>::empty(),
{
    priority_queue::DoublePriorityQueue::with_capacity(capacity)
}

/// Relies on DoublePriorityQueue::get_priority: the priority stored for the
/// item, or none when the item is absent.
#[verifier::external_body]
fn pq_get_priority(q: &FlowQueue, id: &Vec<u8>) -> (r: Option<u32>)
    ensures
        r == (if pq_contents(*q).dom().contains(id@) {
            Some(pq_contents(*q)[id@])
        } else {
            None::<u32>
        }),
{
    q.get_priority(id).copied()
}

/// Relies on DoublePriorityQueue::change_priority: a present item's
/// priority is replaced and the old one returned; an absent item is left
/// alone.
#[verifier::external_body]
fn pq_change_priority(q: &mut FlowQueue, id: &Vec<u8>, p: u32) -> (r: Option<u32>)
    ensures
        pq_contents(*old(q)).dom().contains(id@) ==> {
            &&& pq_contents(*final(q)) == pq_contents(*old(q)).insert(id@, p)
            &&& r == Some(pq_contents(*old(q))[id@])
        },
        !pq_contents(*old(q)).dom().contains(id@) ==> {
            &&& pq_contents(*final(q)) == pq_contents(*old(q))
            &&& r == None::<u32>
        },
{
    q.change_priority(id, p)
}

/// Relies on DoublePriorityQueue::push: the item is stored with the given
/// priority (replacing any previous priority), and any previous priority is
/// returned.
#[verifier::external_body]
fn pq_push(q: &mut FlowQueue, id: Vec<u8>, p: u32) -> (r: Option<u32>)
    ensures
        pq_contents(*final(q)) == pq_contents(*old(q)).insert(id@, p),
        r == (if pq_contents(*old(q)).dom().contains(id@) {
            Some(pq_contents(*old(q))[id@])
        } else {
            None::<u32>
        }),
{
    q.push(id, p)
}

/// Relies on DoublePriorityQueue::peek_min: none on an empty queue;
/// otherwise some stored pair whose priority no stored priority undercuts.
/// Ties leave open which item is reported.
#[verifier::external_body]
fn pq_peek_min(q: &FlowQueue) -> (r: Option<(Vec<u8>, u32)>)
    ensures
        match r {
            None => pq_contents(*q).dom() == Set::<Seq<u8>>::empty(),
            Some((k, v)) => {
                &&& pq_contents(*q).dom().contains(k@)
                &&& pq_contents(*q)[k@] == v
                &&& forall|k2: Seq<u8>|
                    pq_contents(*q).dom().contains(k2) ==> v <= pq_contents(*q)[k2]
            },
        },
{
    q.peek_min().map(|(k, v)| (k.clone(), *v))
}

/// Relies on DoublePriorityQueue::pop_min: none on an empty queue;
/// otherwise a minimum-priority pair is removed and returned.  Ties leave
/// open which item leaves.
#[verifier::external_body]
fn pq_pop_min(q: &mut FlowQueue) -> (r: Option<(Vec<u8>, u32)>)
    ensures
        match r {
            None => {
                &&& pq_contents(*old(q)).dom() == Set::<Seq<u8>>::empty()
                &&& pq_contents(*final(q)) == pq_contents(*old(q))
            },
            Some((k, v)) => {
                &&& pq_contents(*old(q)).dom().contains(k@)
                &&& pq_contents(*old(q))[k@] == v
                &&& forall|k2: Seq<u8>|
                    pq_contents(*old(q)).dom().contains(k2) ==> v <= pq_contents(*old(q))[k2]
                &&& pq_contents(*final(q)) == pq_contents(*old(q)).remove(k@)
            },
        },
{
    q.pop_min()
}

/// Every stored counter is at least `b`.
pub open spec fn pq_lower_bound(m: Map<Seq<u8>, u32>, b: int) -> bool {
    forall|k: Seq<u8>| m.dom().contains(k) ==> b <= (#[trigger] m[k])
}

/// A Space-Saving sketch over the outside priority queue.  The ghost
/// fields record the exact arrival counts and the total number of
/// arrivals, so that the overestimation guarantee can be stated and
/// maintained.
pub struct SpaceSaving {
    pub counters: FlowQueue,
    pub capacity: usize,
    pub num: usize,
    pub rap: bool,
    pub rng: rand::rngs::StdRng,
    pub truth: Ghost<Map<Seq<u8>, int>>,
    pub total: Ghost<int>,
}

impl SpaceSaving {
    /// The queue's contents: stored keys and their counters.
    pub open spec fn contents(self) -> Map<Seq<u8>, u32> {
        pq_contents(self.counters)
    }

    /// The classic overestimation guarantee, maintained while RAP is off:
    /// every stored counter dominates its key's exact count, and the
    /// exact count of an unstored key is zero while room remains, and
    /// otherwise at most every stored counter (hence at most the
    /// minimum).  Counts are read through the `u32` cap, which only
    /// matters past four billion arrivals of one key.
    pub open spec fn overestimates(self) -> bool {
        &&& forall|k: Seq<u8>|
            self.contents().dom().contains(k) ==> clip_u32(#[trigger] count_of(self.truth@, k))
                <= self.contents()[k]
        &&& forall|k: Seq<u8>|
            !self.contents().dom().contains(k) && self.contents().dom().len() < self.capacity
                ==> clip_u32(#[trigger] count_of(self.truth@, k)) <= 0
        &&& forall|k: Seq<u8>, k2: Seq<u8>|
            #![trigger count_of(self.truth@, k), self.contents()[k2]]
            !self.contents().dom().contains(k) && self.contents().dom().contains(k2) ==> clip_u32(
                count_of(self.truth@, k),
            ) <= self.contents()[k2]
    }

    /// Structural soundness: the tracked size matches the queue, at most
    /// `capacity` keys are stored, counters are positive, the ghost record
    /// of arrivals is consistent, and the overestimation guarantee holds
    /// whenever RAP is off.
    pub open spec fn wf(self) -> bool {
        &&& self.contents().dom().finite()
        &&& self.num == self.contents().dom().len()
        &&& self.num <= self.capacity
        &&& self.capacity >= 1
        &&& pq_lower_bound(self.contents(), 1)
        &&& self.total@ >= 0
        &&& forall|k: Seq<u8>| 0 <= #[trigger] count_of(self.truth@, k) <= self.total@
        &&& (!self.rap ==> self.overestimates())
    }

    /// An empty sketch holding at most `capacity` keys.  `capacity` is the
    /// rounded reciprocal of the target error; `rng` drives RAP admission.
    pub fn new(capacity: usize, rap: bool, rng: rand::rngs::StdRng) -> (r: Self)
        requires
            capacity >= 1,
        ensures
            r.wf(),
            r.capacity == capacity,
            r.rap == rap,
            r.contents().dom() == Set::<Seq<u8>>::empty(),
            r.total@ == 0,
            forall|k: Seq<u8>| #[trigger] count_of(r.truth@, k) == 0,
    {
        let counters = pq_with_capacity(capacity);
        proof {
            assert(pq_contents(counters).dom() =~= Set::<Seq<u8>>::empty());
        }
        SpaceSaving {
            counters,
            capacity,
            num: 0,
            rap,
            rng,
            truth: Ghost(Map::empty()),
            total: Ghost(0),
        }
    }

    /// One arrival of `id`.  A stored key's counter grows by one; a fresh
    /// key is admitted with counter one while room remains, and otherwise
    /// replaces a minimum entry with counter `min + 1` (under RAP only
    /// when a `1 / (min + 1)` coin succeeds).  Stored counters never
    /// decrease, and once the sketch is full every lower bound on the
    /// stored counters is kept.
    pub fn insert(&mut self, id: &[u8])
        requires
            old(self).wf(),
        ensures
            final(self).wf(),
            final(self).rap == old(self).rap,
            final(self).capacity == old(self).capacity,
            final(self).total@ == old(self).total@ + 1,
            final(self).truth@ == old(self).truth@.insert(
                id@,
                count_of(old(self).truth@, id@) + 1,
            ),
            old(self).contents().dom().contains(id@) ==> final(self).contents()
                == old(self).contents().insert(
                id@,
                sat_add_u32(old(self).contents()[id@], 1),
            ),
            (!old(self).contents().dom().contains(id@) && old(self).num < old(self).capacity)
                ==> final(self).contents() == old(self).contents().insert(id@, 1u32),
            forall|k: Seq<u8>|
                old(self).contents().dom().contains(k) && final(self).contents().dom().contains(k)
                    ==> old(self).contents()[k] <= (#[trigger] final(self).contents()[k]),
            old(self).num == old(self).capacity ==> forall|b: int|
                pq_lower_bound(old(self).contents(), b) ==> pq_lower_bound(
                    final(self).contents(),
                    b,
                ),
    {
        let ghost t0 = self.truth@;
        let ghost m0 = pq_contents(self.counters);
        proof {
            assert(count_of(t0, id@) <= self.total@);
        }
        self.truth = Ghost(t0.insert(id@, count_of(t0, id@) + 1));
        self.total = Ghost(self.total@ + 1);
        proof {
            assert(forall|k: Seq<u8>|
                k != id@ ==> #[trigger] count_of(self.truth@, k) == count_of(t0, k));
            assert(count_of(self.truth@, id@) == count_of(t0, id@) + 1);
            assert(forall|k: Seq<u8>| 0 <= #[trigger] count_of(self.truth@, k) <= self.total@);
        }
        let idv: Vec<u8> = vstd::slice::slice_to_vec(id);
        match pq_get_priority(&self.counters, &idv) {
            Some(counter) => {
                let newc = match counter.checked_add(1) {
                    Some(v) => v,
                    None => u32::MAX,
                };
                pq_change_priority(&mut self.counters, &idv, newc);
                proof {
                    let m1 = pq_contents(self.counters);
                    assert(m1 == m0.insert(id@, newc));
                    assert(m1.dom() =~= m0.dom());
                }
            },
            None => {
                if self.num < self.capacity {
                    pq_push(&mut self.counters, idv, 1);
                    self.num = self.num + 1;
                    proof {
                        let m1 = pq_contents(self.counters);
                        assert(m1 == m0.insert(id@, 1u32));
                        assert(m1.dom() =~= m0.dom().insert(id@));
                        vstd::set::axiom_set_insert_len(m0.dom(), id@);
                    }
                } else {
                    let peeked = pq_peek_min(&self.counters);
                    proof {
                        if self.num > 0 {
                            assert(m0.dom().len() > 0);
                            assert(m0.dom() != Set::<Seq<u8>>::empty()) by {
                                if m0.dom() == Set::<Seq<u8>>::empty() {
                                    assert(m0.dom().len() == 0);
                                }
                            }
                        }
                    }
                    let (_mk, mv) = match peeked {
                        Some(p) => p,
                        None => {
                            proof {
                                assert(false);
                            }
                            (Vec::new(), 0u32)
                        },
                    };
                    let added = match mv.checked_add(1) {
                        Some(v) => v,
                        None => u32::MAX,
                    };
                    let accepted = if self.rap {
                        gen_below(&mut self.rng, added as u64) == 0
                    } else {
                        true
                    };
                    if accepted {
                        let popped = pq_pop_min(&mut self.counters);
                        let ghost m1 = pq_contents(self.counters);
                        proof {
                            assert(popped is Some);
                        }
                        let (victim, vval) = match popped {
                            Some(p) => p,
                            None => {
                                proof {
                                    assert(false);
                                }
                                (Vec::new(), 0u32)
                            },
                        };
                        proof {
                            assert(vval <= mv && mv <= vval);
                            assert(m1 == m0.remove(victim@));
                            assert(m1.dom() =~= m0.dom().remove(victim@));
                            vstd::set::axiom_set_remove_len(m0.dom(), victim@);
                            vstd::set::axiom_set_remove_finite(m0.dom(), victim@);
                        }
                        pq_push(&mut self.counters, idv, added);
                        proof {
                            let m2 = pq_contents(self.counters);
                            assert(m2 == m1.insert(id@, added));
                            assert(!m1.dom().contains(id@));
                            assert(m2.dom() =~= m1.dom().insert(id@));
                            vstd::set::axiom_set_insert_len(m1.dom(), id@);
                            self.lemma_after_replace(m0, t0, id@, victim@, mv, added);
                        }
                    } else {
                        proof {
                            assert(self.rap);
                        }
                    }
                }
            },
        }
    }

    /// After a minimum entry `victim` (counter `mv`) left and `key`
    /// entered with counter `added`, the guarantee clauses of `wf` hold.
    proof fn lemma_after_replace(
        &self,
        m0: Map<Seq<u8>, u32>,
        t0: Map<Seq<u8>, int>,
        key: Seq<u8>,
        victim: Seq<u8>,
        mv: u32,
        added: u32,
    )
        requires
            m0.dom().finite(),
            m0.dom().contains(victim),
            m0[victim] == mv,
            !m0.dom().contains(key),
            pq_lower_bound(m0, 1),
            pq_lower_bound(m0, mv as int),
            added == sat_add_u32(mv, 1),
            self.contents() == m0.remove(victim).insert(key, added),
            self.contents().dom().len() == self.capacity,
            self.truth@ == t0.insert(key, count_of(t0, key) + 1),
            !self.rap ==> {
                &&& forall|k: Seq<u8>|
                    m0.dom().contains(k) ==> clip_u32(#[trigger] count_of(t0, k)) <= m0[k]
                &&& forall|k: Seq<u8>, k2: Seq<u8>|
                    #![trigger count_of(t0, k), m0[k2]]
                    !m0.dom().contains(k) && m0.dom().contains(k2) ==> clip_u32(count_of(t0, k))
                        <= m0[k2]
            },
        ensures
            pq_lower_bound(self.contents(), 1),
            forall|b: int|
                pq_lower_bound(m0, b) ==> pq_lower_bound(self.contents(), b),
            !self.rap ==> self.overestimates(),
    {
        let m2 = self.contents();
        assert forall|b: int| pq_lower_bound(m0, b) implies pq_lower_bound(m2, b) by {
            assert forall|k: Seq<u8>| m2.dom().contains(k) implies b <= (#[trigger] m2[k]) by {
                if k == key {
                    assert(b <= m0[victim]);
                } else {
                    assert(m0.dom().contains(k));
                }
            }
        }
        assert(pq_lower_bound(m2, 1)) by {
            assert forall|k: Seq<u8>| m2.dom().contains(k) implies 1 <= (#[trigger] m2[k]) by {
                if k == key {
                } else {
                    assert(m0.dom().contains(k));
                }
            }
        }
        if !self.rap {
            assert forall|k: Seq<u8>|
                m2.dom().contains(k) implies clip_u32(#[trigger] count_of(self.truth@, k))
                <= m2[k] by {
                if k == key {
                    assert(clip_u32(count_of(t0, key)) <= mv);
                    assert(count_of(self.truth@, key) == count_of(t0, key) + 1);
                } else {
                    assert(m0.dom().contains(k));
                    assert(count_of(self.truth@, k) == count_of(t0, k));
                }
            }
            assert forall|k: Seq<u8>, k2: Seq<u8>|
                #![trigger count_of(self.truth@, k), m2[k2]]
                !m2.dom().contains(k) && m2.dom().contains(k2) implies clip_u32(
                count_of(self.truth@, k),
            ) <= m2[k2] by {
                assert(k != key);
                assert(count_of(self.truth@, k) == count_of(t0, k));
                if k == victim {
                    assert(clip_u32(count_of(t0, victim)) <= m0[victim]);
                    if k2 == key {
                    } else {
                        assert(m0.dom().contains(k2));
                        assert(mv <= m0[k2]);
                    }
                } else {
                    assert(!m0.dom().contains(k));
                    if k2 == key {
                        assert(clip_u32(count_of(t0, k)) <= m0[victim]);
                    } else {
                        assert(m0.dom().contains(k2));
                    }
                }
            }
            assert forall|k: Seq<u8>|
                !m2.dom().contains(k) && m2.dom().len() < self.capacity implies clip_u32(
                #[trigger] count_of(self.truth@, k),
            ) <= 0 by {
                assert(m2.dom().len() == self.capacity);
            }
        }
    }

    /// The estimate for `id`: its stored counter, or the smallest stored
    /// counter when the key is absent.  At least one key must be stored.
    pub fn get(&self, id: &[u8]) -> (r: u32)
        requires
            self.wf(),
            self.num > 0,
        ensures
            self.contents().dom().contains(id@) ==> r == self.contents()[id@],
            !self.contents().dom().contains(id@) ==> {
                &&& exists|k: Seq<u8>|
                    #[trigger] self.contents().dom().contains(k) && self.contents()[k] == r
                &&& pq_lower_bound(self.contents(), r as int)
            },
    {
        let idv: Vec<u8> = vstd::slice::slice_to_vec(id);
        match pq_get_priority(&self.counters, &idv) {
            Some(v) => v,
            None => {
                proof {
                    assert(self.contents().dom().len() > 0);
                    if self.contents().dom() == Set::<Seq<u8>>::empty() {
                        assert(self.contents().dom().len() == 0);
                    }
                }
                match pq_peek_min(&self.counters) {
                    Some((_k, v)) => v,
                    None => {
                        proof {
                            assert(false);
                        }
                        0
                    },
                }
            },
        }
    }

    /// The largest number of keys the sketch will hold.
    pub fn capacity(&self) -> (r: usize)
        ensures
            r == self.capacity,
    {
        self.capacity
    }
}

} // verus!
