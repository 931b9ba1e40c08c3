//! A geometric-skip wrapper over the counting cuckoo filter: a countdown
//! decides how many arrivals to ignore; each admitted arrival goes into the
//! filter, and queries scale the filter's count by the unbiasing factor.
use vstd::prelude::*;

use crate::cuckoo::CuckooCountingFilter;
use crate::cuckoo::CuckooError;
use crate::cuckoo::DEFAULT_CAPACITY;
use crate::entries::sat_mul_exec;
use crate::entries::sat_mul_u32;
use crate::sampling::GeoSampler;

verus! {

/// The sampled counting cuckoo filter.
pub struct NitroCuckoo {
    pub counters: CuckooCountingFilter,
    pub sampler: GeoSampler,
    pub factor: u32,
    pub item_skip: u64,
}

impl NitroCuckoo {
    /// Structural soundness: a well-formed filter and a positive factor.
    pub open spec fn wf(self) -> bool {
        &&& self.counters.wf()
        &&& self.factor >= 1
    }

    /// What a query returns: the filter's stored count scaled by the
    /// unbiasing factor.
    pub open spec fn spec_get(self, key: Seq<u8>) -> u32 {
        sat_mul_u32(self.counters.spec_get(key), self.factor)
    }

    /// A sampled filter with the default capacity.  `factor` is the
    /// rounded reciprocal of the sampling probability that `sampler`
    /// draws with.
    pub fn new(factor: u32, sampler: GeoSampler) -> (r: Self)
        requires
            factor >= 1,
        ensures
            r.wf(),
            r.factor == factor,
            r.item_skip == 0,
            r.counters.len == 0,
            forall|key: Seq<u8>| #[trigger] r.spec_get(key) == 0,
    {
        Self::with_capacity(DEFAULT_CAPACITY, factor, sampler)
    }

    /// A sampled filter over about `capacity` slots.
    pub fn with_capacity(capacity: usize, factor: u32, sampler: GeoSampler) -> (r: Self)
        requires
            capacity <= usize::MAX / 2 + 1,
            factor >= 1,
        ensures
            r.wf(),
            r.factor == factor,
            r.item_skip == 0,
            r.counters.len == 0,
            forall|key: Seq<u8>| #[trigger] r.spec_get(key) == 0,
    {
        let counters = CuckooCountingFilter::with_capacity(capacity);
        let r = NitroCuckoo { counters, sampler, factor, item_skip: 0 };
        proof {
            assert forall|key: Seq<u8>| #[trigger] r.spec_get(key) == 0 by {
                assert(r.counters.spec_get(key) == 0);
            }
        }
        r
    }

    /// One arrival of `id`.  While the countdown is positive the arrival
    /// is ignored; otherwise it goes into the filter and a new countdown
    /// is drawn.
    pub fn add(&mut self, id: &[u8]) -> (r: Result<(), CuckooError>)
        requires
            old(self).wf(),
        ensures
            final(self).wf(),
            final(self).factor == old(self).factor,
            final(self).counters.capacity == old(self).counters.capacity,
            old(self).item_skip > 0 ==> {
                &&& r is Ok
                &&& final(self).counters == old(self).counters
                &&& final(self).item_skip == old(self).item_skip - 1
            },
            (old(self).item_skip == 0 && crate::cuckoo::slot_of(
                old(self).counters.fps@,
                old(self).counters.spec_b1(id@),
                old(self).counters.spec_fp(id@),
            ) >= 0) ==> {
                &&& r is Ok
                &&& final(self).counters.spec_get(id@) == crate::entries::sat_add_u32(
                    old(self).counters.spec_get(id@),
                    1,
                )
            },
            (old(self).item_skip == 0 && r is Ok) ==> final(self).counters.spec_contains(id@),
            final(self).counters.len <= old(self).counters.len + 1,
    {
        if self.item_skip > 0 {
            self.item_skip = self.item_skip - 1;
            Ok(())
        } else {
            self.item_skip = self.sampler.draw();
            self.counters.add(id)
        }
    }

    /// The scaled estimate for `id`: the filter's count times the
    /// unbiasing factor.
    pub fn get(&self, id: &[u8]) -> (r: u32)
        requires
            self.wf(),
        ensures
            r == self.spec_get(id@),
    {
        sat_mul_exec(self.counters.get(id), self.factor)
    }

    /// The filter's bucket count.
    pub fn capacity(&self) -> (r: usize)
        ensures
            r == self.counters.capacity,
    {
        self.counters.capacity()
    }

    /// The number of occupied slots (distinct stored fingerprints).
    pub fn len(&self) -> (r: usize)
        ensures
            r == self.counters.len,
    {
        self.counters.len()
    }
}

} // verus!
