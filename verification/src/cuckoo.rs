//! A counting cuckoo filter: buckets of four (fingerprint, counter) slots,
//! cuckoo-hashed by a primary index from the key's hash and an alternate
//! index derived by XOR with the fingerprint's hash (the partial-key
//! property: either index recovers the other).  A zero fingerprint marks an
//! empty slot; fingerprints are forced odd so they are never zero.
use vstd::prelude::*;

use crate::entries::sat_add_u32;
use crate::hashing::is_pow2;
use crate::hashing::xxh64;
use crate::hashing::xxh64_bytes;
use crate::sampling::gen_below;
use crate::sampling::rng_from_entropy;

verus! {

/// Slots per bucket.
pub const BUCKET_SIZE: usize = 4;

/// Bytes per fingerprint.
pub const FINGERPRINT_SIZE: usize = 1;

/// How many displacements an insertion may try before giving up.
pub const MAX_REBUCKET: u32 = 500;

/// The default requested capacity, one under a megaslot.
pub const DEFAULT_CAPACITY: usize = 1048575;

/// Insertion failure: rebucketing ran out of tries, and the last displaced
/// element was dropped.
#[derive(Clone, Copy, PartialEq, Eq, Structural, Debug)]
pub enum CuckooError {
    NotEnoughSpace,
}

/// The fingerprint of a hash: its low byte with the lowest bit forced on,
/// so it is never the empty-slot marker.
pub open spec fn fp_of(h: u64) -> u8 {
    ((h & 0xff) | 1) as u8
}

/// The primary bucket of a hash: its high bits modulo the bucket count.
pub open spec fn bucket1_of(h: u64, cap: u64) -> u64 {
    (h >> 32) % cap
}

/// The alternate bucket: the other index XORed with the fingerprint's own
/// hash, masked to the bucket count.
pub open spec fn alt_of(fp: u8, i: u64, mask: u64) -> u64 {
    (i ^ xxh64(seq![fp])) & mask
}

/// The first slot of bucket `b` holding fingerprint `fp`, or -1.
pub open spec fn slot_of(fps: Seq<u8>, b: int, fp: u8) -> int {
    if fps[4 * b] == fp {
        0
    } else if fps[4 * b + 1] == fp {
        1
    } else if fps[4 * b + 2] == fp {
        2
    } else if fps[4 * b + 3] == fp {
        3
    } else {
        -1
    }
}

/// How many slots hold a nonzero fingerprint.
pub open spec fn count_occupied(fps: Seq<u8>) -> int
    decreases fps.len(),
{
    if fps.len() == 0 {
        0
    } else {
        count_occupied(fps.drop_last()) + (if fps.last() != 0 {
            1int
        } else {
            0int
        })
    }
}

/// Overwriting one slot changes the occupied count by the difference of
/// the old and new slot states.
pub proof fn lemma_count_update(fps: Seq<u8>, j: int, x: u8)
    requires
        0 <= j < fps.len(),
    ensures
        count_occupied(fps.update(j, x)) == count_occupied(fps) - (if fps[j] != 0 {
            1int
        } else {
            0int
        }) + (if x != 0 {
            1int
        } else {
            0int
        }),
    decreases fps.len(),
{
    if j == fps.len() - 1 {
        assert(fps.update(j, x).drop_last() =~= fps.drop_last());
        assert(fps.update(j, x).last() == x);
    } else {
        assert(fps.update(j, x).drop_last() =~= fps.drop_last().update(j, x));
        assert(fps.update(j, x).last() == fps.last());
        lemma_count_update(fps.drop_last(), j, x);
    }
}

/// The occupied count is at least zero.
pub proof fn lemma_count_nonneg(fps: Seq<u8>)
    ensures
        0 <= count_occupied(fps),
    decreases fps.len(),
{
    if fps.len() > 0 {
        lemma_count_nonneg(fps.drop_last());
    }
}

/// Masking keeps a value that the mask already covers.
pub proof fn lemma_mask_keeps_small(i: u64, cap: u64)
    requires
        is_pow2(cap as nat),
        i < cap,
    ensures
        i & (cap - 1) as u64 == i,
{
    let e = crate::hashing::lemma_pow2_exponent(cap as nat);
    assert(e < 64) by {
        if e >= 64 {
            vstd::arithmetic::power2::lemma2_to64();
            vstd::arithmetic::power2::lemma_pow2_unfold(64);
            if e > 64 {
                vstd::arithmetic::power2::lemma_pow2_strictly_increases(64, e as nat);
            }
            assert(vstd::arithmetic::power2::pow2(e) >= vstd::arithmetic::power2::pow2(64));
        }
    }
    vstd::bits::lemma_u64_low_bits_mask_is_mod(i, e as nat);
    assert(vstd::bits::low_bits_mask(e as nat) == (cap - 1) as u64);
    vstd::arithmetic::div_mod::lemma_small_mod(i as nat, cap as nat);
}

/// The alternate-index map is an involution: applying it twice from either
/// of a pair's indices returns to the other, for any fingerprint, over a
/// power-of-two bucket count.
pub proof fn lemma_alt_involution(fp: u8, i: u64, cap: u64)
    requires
        is_pow2(cap as nat),
        i < cap,
    ensures
        alt_of(fp, alt_of(fp, i, (cap - 1) as u64), (cap - 1) as u64) == i,
{
    let m = (cap - 1) as u64;
    let f = xxh64(seq![fp]);
    lemma_mask_keeps_small(i, cap);
    assert((((i ^ f) & m) ^ f) & m == i & m) by (bit_vector);
}

/// A fingerprint is never the empty-slot marker.
pub proof fn lemma_fp_nonzero(h: u64)
    ensures
        fp_of(h) != 0,
{
    assert(((h & 0xff) | 1) as u8 != 0) by (bit_vector);
}


/// What a query over raw state returns: the counter beside the first
/// matching slot, primary bucket then alternate, or zero.
pub open spec fn cuckoo_get(fps: Seq<u8>, vals: Seq<u32>, fp: u8, b1: int, b2: int) -> u32 {
    if slot_of(fps, b1, fp) >= 0 {
        vals[4 * b1 + slot_of(fps, b1, fp)]
    } else if slot_of(fps, b2, fp) >= 0 {
        vals[4 * b2 + slot_of(fps, b2, fp)]
    } else {
        0
    }
}


/// A bucket's wire form: its four fingerprint bytes, then its four
/// counters, each as four little-endian bytes.
pub open spec fn bucket_bytes(fps: Seq<u8>, vals: Seq<u32>, b: int) -> Seq<u8> {
    seq![fps[4 * b], fps[4 * b + 1], fps[4 * b + 2], fps[4 * b + 3]]
        + vstd::bytes::spec_u32_to_le_bytes(vals[4 * b]) + vstd::bytes::spec_u32_to_le_bytes(
        vals[4 * b + 1],
    ) + vstd::bytes::spec_u32_to_le_bytes(vals[4 * b + 2]) + vstd::bytes::spec_u32_to_le_bytes(
        vals[4 * b + 3],
    )
}

/// The filter's wire form: the buckets' wire forms concatenated in order.
pub open spec fn export_bytes(fps: Seq<u8>, vals: Seq<u32>, nb: int) -> Seq<u8>
    decreases nb,
{
    if nb <= 0 {
        Seq::empty()
    } else {
        export_bytes(fps, vals, nb - 1) + bucket_bytes(fps, vals, nb - 1)
    }
}

/// The fingerprints a wire form holds, in slot order.
pub open spec fn imported_fps(v: Seq<u8>, nb: int) -> Seq<u8> {
    Seq::new((4 * nb) as nat, |i: int| v[20 * (i / 4) + (i % 4)])
}

/// The counters a wire form holds, in slot order.
pub open spec fn imported_vals(v: Seq<u8>, nb: int) -> Seq<u32> {
    Seq::new(
        (4 * nb) as nat,
        |i: int|
            vstd::bytes::spec_u32_from_le_bytes(
                v.subrange(20 * (i / 4) + 4 + 4 * (i % 4), 20 * (i / 4) + 8 + 4 * (i % 4)),
            ),
    )
}

/// The wire form of `nb` buckets is 20 bytes per bucket, and byte
/// `20 b + j` comes from bucket `b`.
pub proof fn lemma_export_bytes_index(fps: Seq<u8>, vals: Seq<u32>, nb: int, b: int, j: int)
    requires
        0 <= b < nb,
        0 <= j < 20,
    ensures
        export_bytes(fps, vals, nb).len() == 20 * nb,
        export_bytes(fps, vals, nb)[20 * b + j] == bucket_bytes(fps, vals, b)[j],
    decreases nb,
{
    lemma_export_bytes_len(fps, vals, nb);
    vstd::bytes::lemma_auto_spec_u32_to_from_le_bytes();
    if b < nb - 1 {
        lemma_export_bytes_index(fps, vals, nb - 1, b, j);
    } else {
        lemma_export_bytes_len(fps, vals, nb - 1);
    }
}

/// The wire form of `nb` buckets is 20 bytes per bucket.
pub proof fn lemma_export_bytes_len(fps: Seq<u8>, vals: Seq<u32>, nb: int)
    requires
        nb >= 0,
    ensures
        export_bytes(fps, vals, nb).len() == 20 * nb,
    decreases nb,
{
    vstd::bytes::lemma_auto_spec_u32_to_from_le_bytes();
    if nb > 0 {
        lemma_export_bytes_len(fps, vals, nb - 1);
    }
}

/// Round trip: reading a filter's wire form back yields exactly the
/// fingerprints and counters it was written from, so a reimported filter
/// answers every query as the exporting filter did.
pub proof fn lemma_export_import_round_trip(fps: Seq<u8>, vals: Seq<u32>, nb: int)
    requires
        nb >= 0,
        fps.len() == 4 * nb,
        vals.len() == 4 * nb,
    ensures
        imported_fps(export_bytes(fps, vals, nb), nb) == fps,
        imported_vals(export_bytes(fps, vals, nb), nb) == vals,
{
    let v = export_bytes(fps, vals, nb);
    lemma_export_bytes_len(fps, vals, nb);
    vstd::bytes::lemma_auto_spec_u32_to_from_le_bytes();
    assert forall|i: int| 0 <= i < 4 * nb implies imported_fps(v, nb)[i] == fps[i] by {
        let b = i / 4;
        let t = i % 4;
        vstd::arithmetic::div_mod::lemma_fundamental_div_mod(i, 4);
        lemma_export_bytes_index(fps, vals, nb, b, t);
        assert(bucket_bytes(fps, vals, b)[t] == fps[4 * b + t]);
    }
    assert(imported_fps(v, nb) =~= fps);
    assert forall|i: int| 0 <= i < 4 * nb implies imported_vals(v, nb)[i] == vals[i] by {
        let b = i / 4;
        let t = i % 4;
        vstd::arithmetic::div_mod::lemma_fundamental_div_mod(i, 4);
        let lo = 20 * b + 4 + 4 * t;
        let sub = v.subrange(lo, lo + 4);
        assert forall|u: int| 0 <= u < 4 implies sub[u] == vstd::bytes::spec_u32_to_le_bytes(
            vals[i],
        )[u] by {
            lemma_export_bytes_index(fps, vals, nb, b, 4 + 4 * t + u);
            assert(bucket_bytes(fps, vals, b)[4 + 4 * t + u]
                == vstd::bytes::spec_u32_to_le_bytes(vals[4 * b + t])[u]);
        }
        assert(sub =~= vstd::bytes::spec_u32_to_le_bytes(vals[i]));
        assert(vstd::bytes::spec_u32_from_le_bytes(sub) == vals[i]);
    }
    assert(imported_vals(v, nb) =~= vals);
}


/// The first `s` counters of bucket `b`, in little-endian wire form.
pub open spec fn le_prefix(vals: Seq<u32>, b: int, s: int) -> Seq<u8>
    decreases s,
{
    if s <= 0 {
        Seq::empty()
    } else {
        le_prefix(vals, b, s - 1) + vstd::bytes::spec_u32_to_le_bytes(vals[4 * b + (s - 1)])
    }
}

/// A filter's storable form: every bucket's slots as one flat byte
/// buffer, with the occupied-slot count and the bucket count.
pub struct ExportedCuckooCountingFilter {
    pub values: Vec<u8>,
    pub length: usize,
    pub capacity: usize,
}

/// The counting cuckoo filter: `capacity` buckets of four slots, stored as
/// flat fingerprint and counter arrays (bucket `b` owns slots `4b..4b+4`).
pub struct CuckooCountingFilter {
    pub fps: Vec<u8>,
    pub vals: Vec<u32>,
    pub capacity: usize,
    pub len: usize,
    pub rng: rand::rngs::StdRng,
}

impl CuckooCountingFilter {
    /// The bucket-index mask (the capacity is a power of two).
    pub open spec fn spec_mask(self) -> u64 {
        (self.capacity - 1) as u64
    }

    /// The fingerprint a key stores.
    pub open spec fn spec_fp(self, key: Seq<u8>) -> u8 {
        fp_of(xxh64(key))
    }

    /// A key's primary bucket.
    pub open spec fn spec_b1(self, key: Seq<u8>) -> int {
        bucket1_of(xxh64(key), self.capacity as u64) as int
    }

    /// A key's alternate bucket.
    pub open spec fn spec_b2(self, key: Seq<u8>) -> int {
        alt_of(self.spec_fp(key), self.spec_b1(key) as u64, self.spec_mask()) as int
    }

    /// Whether either of the key's buckets holds its fingerprint.
    pub open spec fn spec_contains(self, key: Seq<u8>) -> bool {
        slot_of(self.fps@, self.spec_b1(key), self.spec_fp(key)) >= 0 || slot_of(
            self.fps@,
            self.spec_b2(key),
            self.spec_fp(key),
        ) >= 0
    }

    /// What a query returns: the counter beside the first matching
    /// fingerprint slot, scanning the primary bucket then the alternate,
    /// or zero.
    pub open spec fn spec_get(self, key: Seq<u8>) -> u32 {
        let fp = self.spec_fp(key);
        let b1 = self.spec_b1(key);
        let b2 = self.spec_b2(key);
        if slot_of(self.fps@, b1, fp) >= 0 {
            self.vals@[4 * b1 + slot_of(self.fps@, b1, fp)]
        } else if slot_of(self.fps@, b2, fp) >= 0 {
            self.vals@[4 * b2 + slot_of(self.fps@, b2, fp)]
        } else {
            0
        }
    }

    /// Structural soundness: a power-of-two bucket count, matching flat
    /// arrays, the bucket invariant that a slot's fingerprint is zero
    /// exactly when its counter is zero, and a length that counts the
    /// occupied slots.
    pub open spec fn wf(self) -> bool {
        &&& self.capacity >= 1
        &&& is_pow2(self.capacity as nat)
        &&& self.capacity <= usize::MAX / 4
        &&& self.fps@.len() == 4 * self.capacity
        &&& self.vals@.len() == 4 * self.capacity
        &&& forall|j: int|
            0 <= j < self.fps@.len() ==> ((#[trigger] self.fps@[j]) == 0 <==> self.vals@[j] == 0)
        &&& self.len == count_occupied(self.fps@)
    }

    /// A filter with the default capacity.
    pub fn new() -> (r: Self)
        ensures
            r.wf(),
            r.len == 0,
            forall|key: Seq<u8>| !(#[trigger] r.spec_contains(key)),
            forall|key: Seq<u8>| #[trigger] r.spec_get(key) == 0,
    {
        Self::with_capacity(DEFAULT_CAPACITY)
    }

    /// A filter able to hold about `cap` fingerprints: the requested
    /// capacity is rounded up to a power of two and divided into
    /// four-slot buckets (at least one).
    pub fn with_capacity(cap: usize) -> (r: Self)
        requires
            cap <= usize::MAX / 2 + 1,
        ensures
            r.wf(),
            r.len == 0,
            forall|key: Seq<u8>| !(#[trigger] r.spec_contains(key)),
            forall|key: Seq<u8>| #[trigger] r.spec_get(key) == 0,
    {
        let rounded = crate::hashing::next_pow2(cap);
        let buckets = if rounded / BUCKET_SIZE >= 1 {
            rounded / BUCKET_SIZE
        } else {
            1
        };
        proof {
            crate::hashing::lemma_pow2_quarter(rounded as nat);
        }
        let mut fps: Vec<u8> = Vec::new();
        let mut vals: Vec<u32> = Vec::new();
        let n = 4 * buckets;
        let mut j: usize = 0;
        while j < n
            invariant
                j <= n,
                fps@.len() == j,
                vals@.len() == j,
                forall|t: int| 0 <= t < j ==> (#[trigger] fps@[t]) == 0,
                forall|t: int| 0 <= t < j ==> (#[trigger] vals@[t]) == 0,
            decreases n - j,
        {
            fps.push(0);
            vals.push(0);
            j = j + 1;
        }
        let r = CuckooCountingFilter { fps, vals, capacity: buckets, len: 0, rng: rng_from_entropy() };
        proof {
            r.lemma_all_zero_empty();
        }
        r
    }

    /// In an all-zero filter nothing is found: every count is zero, no key
    /// is contained, and no slot is occupied.
    proof fn lemma_all_zero_empty(&self)
        requires
            self.capacity >= 1,
            is_pow2(self.capacity as nat),
            self.fps@.len() == 4 * self.capacity,
            self.vals@.len() == 4 * self.capacity,
            forall|t: int| 0 <= t < self.fps@.len() ==> (#[trigger] self.fps@[t]) == 0,
        ensures
            count_occupied(self.fps@) == 0,
            forall|key: Seq<u8>| !(#[trigger] self.spec_contains(key)),
            forall|key: Seq<u8>| #[trigger] self.spec_get(key) == 0,
    {
        assert(count_occupied(self.fps@) == 0) by {
            self.lemma_zero_prefix_count(self.fps@);
        }
        assert forall|key: Seq<u8>| !(#[trigger] self.spec_contains(key)) by {
            lemma_fp_nonzero(xxh64(key));
            assert(0 <= self.spec_b1(key) < self.capacity) by {
                assert(bucket1_of(xxh64(key), self.capacity as u64) < self.capacity as u64);
            }
            assert(0 <= self.spec_b2(key) < self.capacity) by {
                self.lemma_alt_in_range(self.spec_fp(key), self.spec_b1(key) as u64);
            }
        }
        assert forall|key: Seq<u8>| #[trigger] self.spec_get(key) == 0 by {
            assert(!self.spec_contains(key));
        }
    }

    /// An all-zero byte sequence has no occupied slots.
    proof fn lemma_zero_prefix_count(&self, s: Seq<u8>)
        requires
            forall|t: int| 0 <= t < s.len() ==> (#[trigger] s[t]) == 0,
        ensures
            count_occupied(s) == 0,
        decreases s.len(),
    {
        if s.len() > 0 {
            self.lemma_zero_prefix_count(s.drop_last());
        }
    }

    /// The alternate index stays below the bucket count.
    proof fn lemma_alt_in_range(&self, fp: u8, i: u64)
        requires
            self.capacity >= 1,
            is_pow2(self.capacity as nat),
        ensures
            alt_of(fp, i, self.spec_mask()) < self.capacity,
    {
        let m = self.spec_mask();
        let f = xxh64(seq![fp]);
        assert((i ^ f) & m <= m) by (bit_vector);
    }

    /// The fingerprint, primary and alternate bucket of a key.
    fn fai(&self, key: &[u8]) -> (r: (u8, usize, usize))
        requires
            self.wf(),
        ensures
            r.0 == self.spec_fp(key@),
            r.1 == self.spec_b1(key@),
            r.2 == self.spec_b2(key@),
            r.0 != 0,
            r.1 < self.capacity,
            r.2 < self.capacity,
    {
        let h = xxh64_bytes(key);
        let fp = ((h & 0xff) | 1) as u8;
        let cap64 = self.capacity as u64;
        let i1 = ((h >> 32) % cap64) as usize;
        proof {
            lemma_fp_nonzero(h);
        }
        let i2 = self.alt_index(fp, i1);
        (fp, i1, i2)
    }

    /// The other bucket of a (fingerprint, index) pair.
    fn alt_index(&self, fp: u8, i: usize) -> (r: usize)
        requires
            self.wf(),
        ensures
            r == alt_of(fp, i as u64, self.spec_mask()),
            r < self.capacity,
    {
        let mut fpv: Vec<u8> = Vec::new();
        fpv.push(fp);
        proof {
            assert(fpv@ =~= seq![fp]);
        }
        let fh = xxh64_bytes(fpv.as_slice());
        let m = (self.capacity - 1) as u64;
        let iu = i as u64;
        let r = ((iu ^ fh) & m) as usize;
        proof {
            assert((iu ^ fh) & m <= m) by (bit_vector);
        }
        r
    }

    /// The first slot of bucket `b` holding `fp`, if any.
    fn find_slot(&self, b: usize, fp: u8) -> (r: Option<usize>)
        requires
            self.wf(),
            b < self.capacity,
        ensures
            match r {
                Some(s) => s < 4 && slot_of(self.fps@, b as int, fp) == s,
                None => slot_of(self.fps@, b as int, fp) == -1,
            },
    {
        let base = 4 * b;
        if self.fps[base] == fp {
            Some(0)
        } else if self.fps[base + 1] == fp {
            Some(1)
        } else if self.fps[base + 2] == fp {
            Some(2)
        } else if self.fps[base + 3] == fp {
            Some(3)
        } else {
            None
        }
    }

    /// Whether the filter holds the key's fingerprint in either of its
    /// buckets.
    pub fn contains(&self, key: &[u8]) -> (r: bool)
        requires
            self.wf(),
        ensures
            r == self.spec_contains(key@),
    {
        let (fp, i1, i2) = self.fai(key);
        match self.find_slot(i1, fp) {
            Some(_) => true,
            None => match self.find_slot(i2, fp) {
                Some(_) => true,
                None => false,
            },
        }
    }

    /// The stored count for the key: the counter beside its fingerprint in
    /// the primary bucket, else in the alternate bucket, else zero.
    pub fn get(&self, key: &[u8]) -> (r: u32)
        requires
            self.wf(),
        ensures
            r == self.spec_get(key@),
    {
        let (fp, i1, i2) = self.fai(key);
        match self.find_slot(i1, fp) {
            Some(s) => self.vals[4 * i1 + s],
            None => match self.find_slot(i2, fp) {
                Some(s) => self.vals[4 * i2 + s],
                None => 0,
            },
        }
    }

    /// The number of occupied slots.
    pub fn len(&self) -> (r: usize)
        ensures
            r == self.len,
    {
        self.len
    }

    /// The number of buckets.
    pub fn capacity(&self) -> (r: usize)
        ensures
            r == self.capacity,
    {
        self.capacity
    }

    /// Whether no slot is occupied.
    pub fn is_empty(&self) -> (r: bool)
        ensures
            r == (self.len == 0),
    {
        self.len == 0
    }

    /// The bytes of slot storage the design parameters call for: one
    /// fingerprint byte and one four-byte counter per slot.
    pub fn memory_usage(&self) -> (r: usize)
        requires
            self.wf(),
        ensures
            r as int == (if 20 * self.capacity <= usize::MAX {
                20 * self.capacity
            } else {
                usize::MAX as int
            }),
    {
        match self.capacity.checked_mul(4 * (FINGERPRINT_SIZE + BUCKET_SIZE)) {
            Some(t) => t,
            None => usize::MAX,
        }
    }

    /// Slots counted never exceed the slot count.
    proof fn lemma_count_le_len(&self, fps: Seq<u8>)
        ensures
            count_occupied(fps) <= fps.len(),
        decreases fps.len(),
    {
        if fps.len() > 0 {
            self.lemma_count_le_len(fps.drop_last());
        }
    }

    /// Try to store `(fp, val)` in bucket `i`: a slot already holding the
    /// fingerprint absorbs the value; otherwise an empty slot takes the
    /// pair; a full bucket without a match refuses.
    fn put(&mut self, fp: u8, val: u32, i: usize) -> (r: bool)
        requires
            old(self).wf(),
            fp != 0,
            val >= 1,
            i < old(self).capacity,
        ensures
            final(self).wf(),
            final(self).capacity == old(self).capacity,
            final(self).rng == old(self).rng,
            slot_of(old(self).fps@, i as int, fp) >= 0 ==> {
                &&& r == true
                &&& final(self).fps@ == old(self).fps@
                &&& final(self).vals@ == old(self).vals@.update(
                    4 * i + slot_of(old(self).fps@, i as int, fp),
                    sat_add_u32(
                        old(self).vals@[4 * i + slot_of(old(self).fps@, i as int, fp)],
                        val,
                    ),
                )
                &&& final(self).len == old(self).len
            },
            (slot_of(old(self).fps@, i as int, fp) < 0 && slot_of(old(self).fps@, i as int, 0)
                >= 0) ==> {
                &&& r == true
                &&& final(self).fps@ == old(self).fps@.update(
                    4 * i + slot_of(old(self).fps@, i as int, 0),
                    fp,
                )
                &&& final(self).vals@ == old(self).vals@.update(
                    4 * i + slot_of(old(self).fps@, i as int, 0),
                    val,
                )
                &&& final(self).len == old(self).len + 1
            },
            (slot_of(old(self).fps@, i as int, fp) < 0 && slot_of(old(self).fps@, i as int, 0)
                < 0) ==> {
                &&& r == false
                &&& final(self).fps@ == old(self).fps@
                &&& final(self).vals@ == old(self).vals@
                &&& final(self).len == old(self).len
            },
    {
        match self.find_slot(i, fp) {
            Some(s) => {
                let idx = 4 * i + s;
                let cur = self.vals[idx];
                let newv = crate::entries::sat_add_exec(cur, val);
                self.vals[idx] = newv;
                proof {
                    assert(self.vals@ =~= old(self).vals@.update(idx as int, newv));
                }
                true
            },
            None => {
                match self.find_slot(i, 0) {
                    Some(e) => {
                        let idx = 4 * i + e;
                        proof {
                            lemma_count_update(self.fps@, idx as int, fp);
                            self.lemma_count_le_len(self.fps@.update(idx as int, fp));
                        }
                        self.fps[idx] = fp;
                        self.vals[idx] = val;
                        self.len = self.len + 1;
                        proof {
                            assert(self.fps@ =~= old(self).fps@.update(idx as int, fp));
                            assert(self.vals@ =~= old(self).vals@.update(idx as int, val));
                        }
                        true
                    },
                    None => false,
                }
            },
        }
    }


    /// A contained key's estimate is positive: the matching slot's counter
    /// is nonzero by the bucket invariant.
    proof fn lemma_contains_get_pos(&self, key: Seq<u8>)
        requires
            self.wf(),
            self.spec_contains(key),
        ensures
            self.spec_get(key) >= 1,
    {
        let fp = self.spec_fp(key);
        let b1 = self.spec_b1(key);
        let b2 = self.spec_b2(key);
        lemma_fp_nonzero(xxh64(key));
        assert(0 <= b1 < self.capacity) by {
            assert(bucket1_of(xxh64(key), self.capacity as u64) < self.capacity as u64);
        }
        assert(0 <= b2 < self.capacity) by {
            self.lemma_alt_in_range(fp, b1 as u64);
        }
        if slot_of(self.fps@, b1, fp) >= 0 {
            let t = slot_of(self.fps@, b1, fp);
            assert(self.fps@[4 * b1 + t] == fp);
            assert(self.vals@[4 * b1 + t] != 0);
        } else {
            let t = slot_of(self.fps@, b2, fp);
            assert(self.fps@[4 * b2 + t] == fp);
            assert(self.vals@[4 * b2 + t] != 0);
        }
    }

    /// After a displacement swap wrote `fpc` over slot `slot` of bucket
    /// `i` (which held `ofp`), the key is either still reachable in one of
    /// its buckets, or its fingerprint is exactly the evicted one and the
    /// eviction came from one of its buckets.
    proof fn lemma_swap_keeps_reachable(
        &self,
        fps_a: Seq<u8>,
        key: Seq<u8>,
        i: usize,
        slot: usize,
        fpc: u8,
        ofp: u8,
    )
        requires
            self.capacity >= 1,
            is_pow2(self.capacity as nat),
            self.fps@.len() == 4 * self.capacity,
            fps_a.len() == 4 * self.capacity,
            slot < 4,
            i < self.capacity,
            ofp == fps_a[4 * i + slot],
            self.fps@ == fps_a.update(4 * i + slot, fpc),
            (slot_of(fps_a, self.spec_b1(key), self.spec_fp(key)) >= 0 || slot_of(
                fps_a,
                self.spec_b2(key),
                self.spec_fp(key),
            ) >= 0) || (fpc == self.spec_fp(key) && (i == self.spec_b1(key) || i == self.spec_b2(
                key,
            ))),
        ensures
            self.spec_contains(key) || (ofp == self.spec_fp(key) && (i == self.spec_b1(key) || i
                == self.spec_b2(key))),
    {
        let fp = self.spec_fp(key);
        let b1 = self.spec_b1(key);
        let b2 = self.spec_b2(key);
        let idx = 4 * i + slot;
        assert(0 <= b1 < self.capacity) by {
            assert(bucket1_of(xxh64(key), self.capacity as u64) < self.capacity as u64);
        }
        assert(0 <= b2 < self.capacity) by {
            self.lemma_alt_in_range(fp, b1 as u64);
        }
        if fpc == fp && (i == b1 || i == b2) {
            assert(self.fps@[4 * (i as int) + slot] == fp);
            assert(slot_of(self.fps@, i as int, fp) >= 0);
        } else if !self.spec_contains(key) {
            if slot_of(fps_a, b1, fp) >= 0 {
                let t = slot_of(fps_a, b1, fp);
                assert(fps_a[4 * b1 + t] == fp);
                assert(self.fps@[4 * b1 + t] != fp) by {
                    if self.fps@[4 * b1 + t] == fp {
                        assert(slot_of(self.fps@, b1, fp) >= 0);
                    }
                }
                assert(4 * b1 + t == idx);
                assert(b1 == i && t == slot) by (nonlinear_arith)
                    requires
                        4 * b1 + t == 4 * (i as int) + slot,
                        0 <= t < 4,
                        0 <= slot < 4,
                ;
                assert(ofp == fp);
            } else {
                let t = slot_of(fps_a, b2, fp);
                assert(fps_a[4 * b2 + t] == fp);
                assert(self.fps@[4 * b2 + t] != fp) by {
                    if self.fps@[4 * b2 + t] == fp {
                        assert(slot_of(self.fps@, b2, fp) >= 0);
                    }
                }
                assert(4 * b2 + t == idx);
                assert(b2 == i && t == slot) by (nonlinear_arith)
                    requires
                        4 * b2 + t == 4 * (i as int) + slot,
                        0 <= t < 4,
                        0 <= slot < 4,
                ;
                assert(ofp == fp);
            }
        }
    }


    /// After `put(ofp, _, inext)` ran against state `fps_b`, the key is
    /// still reachable if it was, and becomes reachable when the stored
    /// fingerprint was the key's own and the target one of its buckets;
    /// otherwise the key's fingerprint is still the one in flight.
    proof fn lemma_after_put_reachable(
        &self,
        fps_b: Seq<u8>,
        key: Seq<u8>,
        fp: u8,
        ofp: u8,
        inext: usize,
        was_reachable: bool,
    )
        requires
            self.capacity >= 1,
            is_pow2(self.capacity as nat),
            self.fps@.len() == 4 * self.capacity,
            fps_b.len() == 4 * self.capacity,
            inext < self.capacity,
            fp == self.spec_fp(key),
            ofp != 0,
            was_reachable == (slot_of(fps_b, self.spec_b1(key), fp) >= 0 || slot_of(
                fps_b,
                self.spec_b2(key),
                fp,
            ) >= 0),
            was_reachable || (ofp == fp && (inext == self.spec_b1(key) || inext == self.spec_b2(
                key,
            ))),
            // what put did to the fingerprints: a match or a full bucket
            // leaves them alone; an empty slot takes `ofp`
            (slot_of(fps_b, inext as int, ofp) >= 0) ==> self.fps@ == fps_b,
            (slot_of(fps_b, inext as int, ofp) < 0 && slot_of(fps_b, inext as int, 0) >= 0)
                ==> self.fps@ == fps_b.update(4 * inext + slot_of(fps_b, inext as int, 0), ofp),
            (slot_of(fps_b, inext as int, ofp) < 0 && slot_of(fps_b, inext as int, 0) < 0)
                ==> self.fps@ == fps_b,
        ensures
            self.spec_contains(key) || (!was_reachable && ofp == fp && slot_of(
                self.fps@,
                inext as int,
                ofp,
            ) < 0 && slot_of(self.fps@, inext as int, 0) < 0),
    {
        let b1 = self.spec_b1(key);
        let b2 = self.spec_b2(key);
        lemma_fp_nonzero(xxh64(key));
        assert(0 <= b1 < self.capacity) by {
            assert(bucket1_of(xxh64(key), self.capacity as u64) < self.capacity as u64);
        }
        assert(0 <= b2 < self.capacity) by {
            self.lemma_alt_in_range(fp, b1 as u64);
        }
        if was_reachable {
            if self.fps@ == fps_b {
            } else {
                let e = slot_of(fps_b, inext as int, 0);
                assert(fps_b[4 * inext + e] == 0);
                if slot_of(fps_b, b1, fp) >= 0 {
                    let t = slot_of(fps_b, b1, fp);
                    assert(fps_b[4 * b1 + t] == fp);
                    assert(self.fps@[4 * b1 + t] == fp) by {
                        if 4 * b1 + t == 4 * (inext as int) + e {
                            assert(fps_b[4 * b1 + t] == 0);
                        }
                    }
                    assert(slot_of(self.fps@, b1, fp) >= 0);
                } else {
                    let t = slot_of(fps_b, b2, fp);
                    assert(fps_b[4 * b2 + t] == fp);
                    assert(self.fps@[4 * b2 + t] == fp) by {
                        if 4 * b2 + t == 4 * (inext as int) + e {
                            assert(fps_b[4 * b2 + t] == 0);
                        }
                    }
                    assert(slot_of(self.fps@, b2, fp) >= 0);
                }
            }
        } else {
            // the in-flight fingerprint is the key's own and the target is
            // one of its buckets: success plants it there
            if slot_of(fps_b, inext as int, ofp) >= 0 {
                assert(slot_of(self.fps@, inext as int, fp) >= 0);
            } else if slot_of(fps_b, inext as int, 0) >= 0 {
                let e = slot_of(fps_b, inext as int, 0);
                assert(self.fps@[4 * inext + e] == ofp);
                assert(slot_of(self.fps@, inext as int, fp) >= 0);
            } else {
                assert(self.fps@ == fps_b);
            }
        }
    }

    /// One arrival of `key`.  The pair `(fingerprint, 1)` goes to the
    /// primary bucket, else the alternate; if both are full the filter
    /// rebuckets: random victims are displaced to their alternate buckets
    /// until a slot opens or the budget runs out, in which case the last
    /// displaced element is dropped and the filter reports that it ran out
    /// of space (an earlier element may then have been displaced out).
    #[verifier::loop_isolation(false)]
    pub fn add(&mut self, key: &[u8]) -> (r: Result<(), CuckooError>)
        requires
            old(self).wf(),
        ensures
            final(self).wf(),
            final(self).capacity == old(self).capacity,
            final(self).len <= old(self).len + 1,
            r is Err ==> final(self).len == old(self).len,
            r is Ok ==> final(self).spec_contains(key@),
            r is Ok ==> final(self).spec_get(key@) >= 1,
            slot_of(old(self).fps@, old(self).spec_b1(key@), old(self).spec_fp(key@)) >= 0 ==> {
                &&& r is Ok
                &&& final(self).fps@ == old(self).fps@
                &&& final(self).spec_get(key@) == sat_add_u32(old(self).spec_get(key@), 1)
            },
            (slot_of(old(self).fps@, old(self).spec_b1(key@), old(self).spec_fp(key@)) < 0
                && slot_of(old(self).fps@, old(self).spec_b1(key@), 0) >= 0) ==> {
                &&& r is Ok
                &&& final(self).spec_get(key@) == 1
                &&& final(self).spec_contains(key@)
            },
            (slot_of(old(self).fps@, old(self).spec_b1(key@), old(self).spec_fp(key@)) < 0
                && slot_of(old(self).fps@, old(self).spec_b1(key@), 0) < 0 && slot_of(
                old(self).fps@,
                old(self).spec_b2(key@),
                old(self).spec_fp(key@),
            ) >= 0) ==> {
                &&& r is Ok
                &&& final(self).spec_get(key@) == sat_add_u32(old(self).spec_get(key@), 1)
            },
            (slot_of(old(self).fps@, old(self).spec_b1(key@), old(self).spec_fp(key@)) < 0
                && slot_of(old(self).fps@, old(self).spec_b1(key@), 0) < 0 && slot_of(
                old(self).fps@,
                old(self).spec_b2(key@),
                old(self).spec_fp(key@),
            ) < 0 && slot_of(old(self).fps@, old(self).spec_b2(key@), 0) >= 0) ==> {
                &&& r is Ok
                &&& final(self).spec_get(key@) == 1
                &&& final(self).spec_contains(key@)
            },
    {
        let (fp, i1, i2) = self.fai(key);
        let ghost fps0 = self.fps@;
        let ghost vals0 = self.vals@;
        if self.put(fp, 1, i1) {
            proof {
                self.lemma_get_after_b1(fps0, vals0, key@, fp, i1);
                assert(self.spec_contains(key@)) by {
                    if slot_of(fps0, i1 as int, fp) >= 0 {
                        assert(slot_of(self.fps@, i1 as int, fp) >= 0);
                    }
                }
                self.lemma_contains_get_pos(key@);
            }
            return Ok(());
        }
        if self.put(fp, 1, i2) {
            proof {
                self.lemma_get_after_b2(fps0, vals0, key@, fp, i1, i2);
                assert(self.spec_contains(key@)) by {
                    if slot_of(fps0, i2 as int, fp) >= 0 {
                        assert(slot_of(self.fps@, i2 as int, fp) >= 0);
                    }
                }
                self.lemma_contains_get_pos(key@);
            }
            return Ok(());
        }
        let mut i = if gen_below(&mut self.rng, 2) == 0 {
            i1
        } else {
            i2
        };
        proof {
            assert(!self.spec_contains(key@));
        }
        let mut fpc = fp;
        let mut valc: u32 = 1;
        let mut tries: u32 = 0;
        while tries < MAX_REBUCKET
            invariant
                self.wf(),
                self.capacity == old(self).capacity,
                self.len == old(self).len,
                fpc != 0,
                valc >= 1,
                i < self.capacity,
                forall|t: int| 0 <= t < 4 ==> (#[trigger] self.fps@[4 * i + t]) != 0,
                fp == self.spec_fp(key@),
                i1 == self.spec_b1(key@),
                i2 == self.spec_b2(key@),
                self.spec_contains(key@) || (fpc == fp && (i == i1 || i == i2)),
            decreases MAX_REBUCKET - tries,
        {
            let slot = gen_below(&mut self.rng, 4) as usize;
            let idx = 4 * i + slot;
            let ofp = self.fps[idx];
            let oval = self.vals[idx];
            proof {
                lemma_count_update(self.fps@, idx as int, fpc);
            }
            let ghost fps_a = self.fps@;
            self.fps[idx] = fpc;
            self.vals[idx] = valc;
            proof {
                assert(self.fps@ =~= fps_a.update(idx as int, fpc));
                self.lemma_swap_keeps_reachable(fps_a, key@, i, slot, fpc, ofp);
            }
            let inext = self.alt_index(ofp, i);
            proof {
                if ofp == fp && (i == i1 || i == i2) {
                    // the evicted fingerprint is the key's own: its new
                    // bucket is the other one of the key's pair
                    if i == i2 {
                        lemma_alt_involution(fp, i1 as u64, self.capacity as u64);
                    }
                    assert(inext == i1 || inext == i2);
                }
            }
            let ghost fps_b = self.fps@;
            let ghost was_reachable = self.spec_contains(key@);
            if self.put(ofp, oval, inext) {
                proof {
                    self.lemma_after_put_reachable(fps_b, key@, fp, ofp, inext, was_reachable);
                    self.lemma_contains_get_pos(key@);
                }
                return Ok(());
            }
            proof {
                self.lemma_after_put_reachable(fps_b, key@, fp, ofp, inext, was_reachable);
            }
            fpc = ofp;
            valc = oval;
            i = inext;
            tries = tries + 1;
        }
        Err(CuckooError::NotEnoughSpace)
    }

    /// After storing into the primary bucket, the key's estimate is the
    /// old one grown by one (on a match) or one (in a fresh slot).
    proof fn lemma_get_after_b1(
        &self,
        fps0: Seq<u8>,
        vals0: Seq<u32>,
        key: Seq<u8>,
        fp: u8,
        i1: usize,
    )
        requires
            self.wf(),
            self.capacity >= 1,
            fp == self.spec_fp(key),
            i1 == self.spec_b1(key),
            i1 < self.capacity,
            fps0.len() == 4 * self.capacity,
            vals0.len() == 4 * self.capacity,
            slot_of(fps0, i1 as int, fp) >= 0 ==> {
                &&& self.fps@ == fps0
                &&& self.vals@ == vals0.update(
                    4 * i1 + slot_of(fps0, i1 as int, fp),
                    sat_add_u32(vals0[4 * i1 + slot_of(fps0, i1 as int, fp)], 1),
                )
            },
            (slot_of(fps0, i1 as int, fp) < 0 && slot_of(fps0, i1 as int, 0) >= 0) ==> {
                &&& self.fps@ == fps0.update(4 * i1 + slot_of(fps0, i1 as int, 0), fp)
                &&& self.vals@ == vals0.update(4 * i1 + slot_of(fps0, i1 as int, 0), 1)
            },
            slot_of(fps0, i1 as int, fp) >= 0 || slot_of(fps0, i1 as int, 0) >= 0,
        ensures
            slot_of(fps0, i1 as int, fp) >= 0 ==> self.spec_get(key) == sat_add_u32(
                cuckoo_get(fps0, vals0, fp, i1 as int, self.spec_b2(key)),
                1,
            ),
            slot_of(fps0, i1 as int, fp) < 0 ==> (self.spec_get(key) == 1 && self.spec_contains(
                key,
            )),
    {
    }

    /// After storing into the alternate bucket (the primary was full and
    /// matchless), the key's estimate is the old one grown by one (on a
    /// match) or one (in a fresh slot).
    proof fn lemma_get_after_b2(
        &self,
        fps0: Seq<u8>,
        vals0: Seq<u32>,
        key: Seq<u8>,
        fp: u8,
        i1: usize,
        i2: usize,
    )
        requires
            self.wf(),
            fp == self.spec_fp(key),
            i1 == self.spec_b1(key),
            i2 == self.spec_b2(key),
            i1 < self.capacity,
            i2 < self.capacity,
            fps0.len() == 4 * self.capacity,
            vals0.len() == 4 * self.capacity,
            slot_of(fps0, i1 as int, fp) < 0,
            slot_of(fps0, i1 as int, 0) < 0,
            slot_of(fps0, i2 as int, fp) >= 0 ==> {
                &&& self.fps@ == fps0
                &&& self.vals@ == vals0.update(
                    4 * i2 + slot_of(fps0, i2 as int, fp),
                    sat_add_u32(vals0[4 * i2 + slot_of(fps0, i2 as int, fp)], 1),
                )
            },
            (slot_of(fps0, i2 as int, fp) < 0 && slot_of(fps0, i2 as int, 0) >= 0) ==> {
                &&& self.fps@ == fps0.update(4 * i2 + slot_of(fps0, i2 as int, 0), fp)
                &&& self.vals@ == vals0.update(4 * i2 + slot_of(fps0, i2 as int, 0), 1)
            },
            slot_of(fps0, i2 as int, fp) >= 0 || slot_of(fps0, i2 as int, 0) >= 0,
        ensures
            slot_of(fps0, i2 as int, fp) >= 0 ==> self.spec_get(key) == sat_add_u32(
                cuckoo_get(fps0, vals0, fp, i1 as int, i2 as int),
                1,
            ),
            slot_of(fps0, i2 as int, fp) < 0 ==> (self.spec_get(key) == 1 && self.spec_contains(
                key,
            )),
    {
    }

    /// Add the key only if its fingerprint is not yet present; reports
    /// whether it was added.
    pub fn test_and_add(&mut self, key: &[u8]) -> (r: Result<bool, CuckooError>)
        requires
            old(self).wf(),
        ensures
            final(self).wf(),
            final(self).capacity == old(self).capacity,
            old(self).spec_contains(key@) ==> (r == Ok::<bool, CuckooError>(false) && *final(self)
                == *old(self)),
    {
        if self.contains(key) {
            Ok(false)
        } else {
            match self.add(key) {
                Ok(()) => Ok(true),
                Err(e) => Err(e),
            }
        }
    }

    /// Remove the key's fingerprint from whichever of its buckets holds
    /// it, zeroing the slot; reports whether it was present.
    pub fn delete(&mut self, key: &[u8]) -> (r: bool)
        requires
            old(self).wf(),
        ensures
            final(self).wf(),
            final(self).capacity == old(self).capacity,
            r == old(self).spec_contains(key@),
            !r ==> *final(self) == *old(self),
            r ==> final(self).len == old(self).len - 1,
    {
        let (fp, i1, i2) = self.fai(key);
        match self.find_slot(i1, fp) {
            Some(s) => {
                let idx = 4 * i1 + s;
                proof {
                    lemma_count_update(self.fps@, idx as int, 0);
                    self.lemma_count_pos(self.fps@, idx as int);
                }
                self.fps[idx] = 0;
                self.vals[idx] = 0;
                self.len = self.len - 1;
                proof {
                    assert(self.fps@ =~= old(self).fps@.update(idx as int, 0));
                }
                true
            },
            None => {
                match self.find_slot(i2, fp) {
                    Some(s) => {
                        let idx = 4 * i2 + s;
                        proof {
                            lemma_count_update(self.fps@, idx as int, 0);
                            self.lemma_count_pos(self.fps@, idx as int);
                        }
                        self.fps[idx] = 0;
                        self.vals[idx] = 0;
                        self.len = self.len - 1;
                        proof {
                            assert(self.fps@ =~= old(self).fps@.update(idx as int, 0));
                        }
                        true
                    },
                    None => false,
                }
            },
        }
    }

    /// A nonzero slot makes the occupied count positive.
    proof fn lemma_count_pos(&self, fps: Seq<u8>, j: int)
        requires
            0 <= j < fps.len(),
            fps[j] != 0,
        ensures
            count_occupied(fps) >= 1,
        decreases fps.len(),
    {
        if j < fps.len() - 1 {
            self.lemma_count_pos(fps.drop_last(), j);
            lemma_count_nonneg(fps.drop_last());
        } else {
            lemma_count_nonneg(fps.drop_last());
        }
    }

    /// Empty every bucket and reset the length.
    #[verifier::loop_isolation(false)]
    pub fn clear(&mut self)
        requires
            old(self).wf(),
        ensures
            final(self).wf(),
            final(self).capacity == old(self).capacity,
            final(self).len == 0,
            forall|key: Seq<u8>| !(#[trigger] final(self).spec_contains(key)),
            forall|key: Seq<u8>| #[trigger] final(self).spec_get(key) == 0,
    {
        let n = self.fps.len();
        let mut j: usize = 0;
        while j < n
            invariant
                j <= n,
                n == 4 * self.capacity,
                self.capacity == old(self).capacity,
                self.rng == old(self).rng,
                self.len == old(self).len,
                self.fps@.len() == n,
                self.vals@.len() == n,
                forall|t: int| 0 <= t < j ==> (#[trigger] self.fps@[t]) == 0,
                forall|t: int| 0 <= t < j ==> (#[trigger] self.vals@[t]) == 0,
            decreases n - j,
        {
            self.fps[j] = 0;
            self.vals[j] = 0;
            j = j + 1;
        }
        self.len = 0;
        proof {
            self.lemma_all_zero_empty();
        }
    }

    /// The fingerprint bytes of every slot, bucket by bucket.
    #[verifier::loop_isolation(false)]
    pub fn values(&self) -> (r: Vec<u8>)
        requires
            self.wf(),
        ensures
            r@ == self.fps@,
    {
        let n = self.fps.len();
        let mut r: Vec<u8> = Vec::new();
        let mut j: usize = 0;
        while j < n
            invariant
                j <= n,
                r@ == self.fps@.take(j as int),
            decreases n - j,
        {
            r.push(self.fps[j]);
            proof {
                assert(r@ =~= self.fps@.take(j + 1));
            }
            j = j + 1;
        }
        proof {
            assert(self.fps@.take(n as int) =~= self.fps@);
        }
        r
    }

    /// Write the filter's buckets out as one flat byte buffer (four
    /// fingerprint bytes, then four little-endian counters per bucket),
    /// with the occupied-slot count and bucket count alongside.
    #[verifier::loop_isolation(false)]
    pub fn export(&self) -> (e: ExportedCuckooCountingFilter)
        requires
            self.wf(),
        ensures
            e.values@ == export_bytes(self.fps@, self.vals@, self.capacity as int),
            e.length == self.len,
            e.capacity == self.capacity,
    {
        let mut values: Vec<u8> = Vec::new();
        let nb = self.capacity;
        let mut b: usize = 0;
        proof {
            vstd::bytes::lemma_auto_spec_u32_to_from_le_bytes();
        }
        while b < nb
            invariant
                b <= nb,
                values@ == export_bytes(self.fps@, self.vals@, b as int),
            decreases nb - b,
        {
            let base = 4 * b;
            let ghost before = values@;
            values.push(self.fps[base]);
            values.push(self.fps[base + 1]);
            values.push(self.fps[base + 2]);
            values.push(self.fps[base + 3]);
            let mut s: usize = 0;
            while s < 4
                invariant
                    s <= 4,
                    base == 4 * b,
                    b < nb,
                    values@ == before + seq![
                        self.fps@[4 * b],
                        self.fps@[4 * b + 1],
                        self.fps@[4 * b + 2],
                        self.fps@[4 * b + 3],
                    ] + le_prefix(self.vals@, b as int, s as int),
                decreases 4 - s,
            {
                let mut bytes = vstd::bytes::u32_to_le_bytes(self.vals[base + s]);
                values.append(&mut bytes);
                proof {
                    assert(le_prefix(self.vals@, b as int, (s + 1) as int) =~= le_prefix(
                        self.vals@,
                        b as int,
                        s as int,
                    ) + vstd::bytes::spec_u32_to_le_bytes(self.vals@[4 * b + s]));
                    assert(values@ =~= before + seq![
                        self.fps@[4 * b],
                        self.fps@[4 * b + 1],
                        self.fps@[4 * b + 2],
                        self.fps@[4 * b + 3],
                    ] + le_prefix(self.vals@, b as int, (s + 1) as int));
                }
                s = s + 1;
            }
            proof {
                let vv = self.vals@;
                let bi = b as int;
                assert(le_prefix(vv, bi, 0) =~= Seq::empty());
                assert(le_prefix(vv, bi, 1) == le_prefix(vv, bi, 0)
                    + vstd::bytes::spec_u32_to_le_bytes(vv[4 * bi]));
                assert(le_prefix(vv, bi, 2) == le_prefix(vv, bi, 1)
                    + vstd::bytes::spec_u32_to_le_bytes(vv[4 * bi + 1]));
                assert(le_prefix(vv, bi, 3) == le_prefix(vv, bi, 2)
                    + vstd::bytes::spec_u32_to_le_bytes(vv[4 * bi + 2]));
                assert(le_prefix(vv, bi, 4) == le_prefix(vv, bi, 3)
                    + vstd::bytes::spec_u32_to_le_bytes(vv[4 * bi + 3]));
                assert(le_prefix(self.vals@, b as int, 4) =~= vstd::bytes::spec_u32_to_le_bytes(
                    self.vals@[4 * b],
                ) + vstd::bytes::spec_u32_to_le_bytes(self.vals@[4 * b + 1])
                    + vstd::bytes::spec_u32_to_le_bytes(self.vals@[4 * b + 2])
                    + vstd::bytes::spec_u32_to_le_bytes(self.vals@[4 * b + 3]));
                assert(values@ =~= export_bytes(self.fps@, self.vals@, (b + 1) as int));
            }
            b = b + 1;
        }
        ExportedCuckooCountingFilter { values, length: self.len, capacity: self.capacity }
    }

    /// Rebuild a filter from its storable form.  The buffer must be the
    /// wire form of `capacity` buckets whose slots respect the bucket
    /// invariant, and the length must count the occupied slots — as every
    /// buffer written by `export` does.
    #[verifier::loop_isolation(false)]
    pub fn import(e: &ExportedCuckooCountingFilter) -> (r: Self)
        requires
            e.capacity >= 1,
            is_pow2(e.capacity as nat),
            e.capacity <= usize::MAX / 20,
            e.values@.len() == 20 * e.capacity,
            forall|i: int|
                0 <= i < 4 * e.capacity ==> ((#[trigger] imported_fps(e.values@, e.capacity as int)[i])
                    == 0 <==> imported_vals(e.values@, e.capacity as int)[i] == 0),
            e.length == count_occupied(imported_fps(e.values@, e.capacity as int)),
        ensures
            r.wf(),
            r.fps@ == imported_fps(e.values@, e.capacity as int),
            r.vals@ == imported_vals(e.values@, e.capacity as int),
            r.capacity == e.capacity,
            r.len == e.length,
    {
        let nb = e.capacity;
        let mut fps: Vec<u8> = Vec::new();
        let mut vals: Vec<u32> = Vec::new();
        let n = 4 * nb;
        let mut i: usize = 0;
        while i < n
            invariant
                i <= n,
                n == 4 * nb,
                fps@.len() == i,
                vals@.len() == i,
                forall|t: int|
                    0 <= t < i ==> (#[trigger] fps@[t]) == imported_fps(e.values@, nb as int)[t],
                forall|t: int|
                    0 <= t < i ==> (#[trigger] vals@[t]) == imported_vals(e.values@, nb as int)[t],
            decreases n - i,
        {
            let b = i / 4;
            let t = i % 4;
            let lo = 20 * b + 4 + 4 * t;
            let chunk = vstd::slice::slice_subrange(e.values.as_slice(), lo, lo + 4);
            let v = vstd::bytes::u32_from_le_bytes(chunk);
            fps.push(e.values[20 * b + t]);
            vals.push(v);
            proof {
                vstd::arithmetic::div_mod::lemma_fundamental_div_mod(i as int, 4);
            }
            i = i + 1;
        }
        let r = CuckooCountingFilter {
            fps,
            vals,
            capacity: nb,
            len: e.length,
            rng: rng_from_entropy(),
        };
        proof {
            assert(r.fps@ =~= imported_fps(e.values@, nb as int));
            assert(r.vals@ =~= imported_vals(e.values@, nb as int));
        }
        r
    }

}

} // verus!
