//! A Count-Min sketch with geometric-skip (NitroSketch) sampling: a
//! `depth x width` matrix of counters, one hash-derived cell per row for
//! each key, queried as the minimum over the rows times the unbiasing
//! factor.  In sampled mode a skip schedule walks the flattened sequence of
//! cell updates and applies only the sampled ones.
use vstd::prelude::*;

use crate::entries::clip_u32;
use crate::entries::count_of;
use crate::entries::sat_add_u32;
use crate::entries::sat_mul_exec;
use crate::entries::sat_mul_u32;
use crate::hashing::SENTINEL;
use crate::hashing::is_pow2;
use crate::hashing::row_hash;
use crate::hashing::sentinels;
use crate::hashing::xxh64_bytes;
use crate::sampling::GeoSampler;

verus! {

/// The column that row `k` uses for `key`: the row's hash masked down to
/// the table width.
pub open spec fn cell_off(key: Seq<u8>, k: nat, mask: u64) -> int {
    (row_hash(key, k) & mask) as int
}

/// The counter that row `k` holds for `key`.
pub open spec fn cms_cell(cs: Seq<Vec<u32>>, key: Seq<u8>, mask: u64, k: int) -> int {
    cs[k]@[cell_off(key, k as nat, mask)] as int
}

/// The smallest counter among rows `0 .. kn` for `key` (`kn >= 1`).
pub open spec fn min_cells(cs: Seq<Vec<u32>>, key: Seq<u8>, mask: u64, kn: int) -> int
    decreases kn,
{
    if kn <= 1 {
        cms_cell(cs, key, mask, 0)
    } else {
        let m = min_cells(cs, key, mask, kn - 1);
        let c = cms_cell(cs, key, mask, kn - 1);
        if c < m {
            c
        } else {
            m
        }
    }
}

/// A row's column for any key is within a table of width `mask + 1`.
pub proof fn lemma_off_in_range(key: Seq<u8>, k: nat, mask: u64)
    ensures
        0 <= cell_off(key, k, mask) <= mask,
{
    let h = row_hash(key, k);
    assert(h & mask <= mask) by (bit_vector);
}

/// The minimum over rows is no larger than any single row's counter.
pub proof fn lemma_min_cells_le_row(cs: Seq<Vec<u32>>, key: Seq<u8>, mask: u64, kn: int, j: int)
    requires
        1 <= kn,
        0 <= j < kn,
    ensures
        min_cells(cs, key, mask, kn) <= cms_cell(cs, key, mask, j),
    decreases kn,
{
    if kn > 1 && j < kn - 1 {
        lemma_min_cells_le_row(cs, key, mask, kn - 1, j);
    }
}

/// A lower bound on every row's counter bounds the minimum.
pub proof fn lemma_min_cells_ge(cs: Seq<Vec<u32>>, key: Seq<u8>, mask: u64, kn: int, b: int)
    requires
        1 <= kn,
        forall|j: int| 0 <= j < kn ==> b <= #[trigger] cms_cell(cs, key, mask, j),
    ensures
        b <= min_cells(cs, key, mask, kn),
    decreases kn,
{
    if kn > 1 {
        lemma_min_cells_ge(cs, key, mask, kn - 1, b);
    }
}

/// Growing counters pointwise can only grow the minimum over rows.
pub proof fn lemma_min_cells_mono(
    cs1: Seq<Vec<u32>>,
    cs2: Seq<Vec<u32>>,
    key: Seq<u8>,
    mask: u64,
    kn: int,
)
    requires
        1 <= kn,
        cs1.len() >= kn,
        cs2.len() >= kn,
        forall|r: int| 0 <= r < kn ==> (#[trigger] cs2[r])@.len() == cs1[r]@.len(),
        forall|r: int| 0 <= r < kn ==> cs1[r]@.len() > mask,
        forall|r: int, c: int|
            0 <= r < kn && 0 <= c < cs1[r]@.len() ==> (#[trigger] cs1[r]@[c]) <= cs2[r]@[c],
    ensures
        min_cells(cs1, key, mask, kn) <= min_cells(cs2, key, mask, kn),
{
    assert forall|j: int| 0 <= j < kn implies min_cells(cs1, key, mask, kn) <= #[trigger] cms_cell(
        cs2,
        key,
        mask,
        j,
    ) by {
        lemma_off_in_range(key, j as nat, mask);
        lemma_min_cells_le_row(cs1, key, mask, kn, j);
        assert(cs1[j]@[cell_off(key, j as nat, mask)] <= cs2[j]@[cell_off(key, j as nat, mask)]);
    }
    lemma_min_cells_ge(cs2, key, mask, kn, min_cells(cs1, key, mask, kn));
}


/// The one-sided error bound over raw state: every key's capped exact
/// count is dominated by its minimum row counter.
pub open spec fn cms_overest(t: Map<Seq<u8>, int>, cs: Seq<Vec<u32>>, mask: u64, kn: int) -> bool {
    forall|key: Seq<u8>|
        clip_u32(#[trigger] count_of(t, key)) <= min_cells(cs, key, mask, kn)
}

/// Every cell is a `u32`, so the minimum over rows is one too.
pub proof fn lemma_cells_bounds(cs: Seq<Vec<u32>>, key: Seq<u8>, mask: u64, kn: int, width: int)
    requires
        1 <= kn,
        cs.len() >= kn,
        mask == width - 1,
        forall|r: int| 0 <= r < kn ==> (#[trigger] cs[r])@.len() == width,
    ensures
        0 <= min_cells(cs, key, mask, kn) <= u32::MAX,
{
    assert forall|j: int| 0 <= j < kn implies 0 <= #[trigger] cms_cell(cs, key, mask, j) by {
        lemma_off_in_range(key, j as nat, mask);
    }
    lemma_min_cells_ge(cs, key, mask, kn, 0);
    lemma_off_in_range(key, 0, mask);
    lemma_min_cells_le_row(cs, key, mask, kn, 0);
}

/// The Count-Min sketch with optional geometric-skip sampling.  The ghost
/// field records every key's exact pushed total, so that the one-sided
/// error of the unsampled sketch can be stated and maintained.
pub struct NitroCMS {
    pub counters: Vec<Vec<u32>>,
    pub width: usize,
    pub mask: u64,
    pub k_num: usize,
    pub factor: u32,
    pub conservative: bool,
    pub sampler: Option<GeoSampler>,
    pub curr_counter: u64,
    pub next_counter: u64,
    pub last_index: usize,
    pub truth: Ghost<Map<Seq<u8>, int>>,
}

impl NitroCMS {
    /// The smallest counter among this sketch's rows for `key`.
    pub open spec fn spec_min(self, key: Seq<u8>) -> int {
        min_cells(self.counters@, key, self.mask, self.k_num as int)
    }

    /// What a query returns: the minimum over the rows, scaled by the
    /// unbiasing factor.
    pub open spec fn spec_get(self, key: Seq<u8>) -> u32 {
        sat_mul_u32(self.spec_min(key) as u32, self.factor)
    }

    /// The one-sided error of the unsampled sketch: every key's minimum
    /// row counter dominates its exact pushed total (read through the
    /// `u32` cap).
    pub open spec fn overestimates(self) -> bool {
        cms_overest(self.truth@, self.counters@, self.mask, self.k_num as int)
    }

    /// Structural soundness: a `k_num x width` table with a power-of-two
    /// width and matching mask, a positive factor (one when unsampled), a
    /// consistent skip schedule, and the one-sided error bound whenever
    /// sampling is off.
    pub open spec fn wf(self) -> bool {
        &&& 1 <= self.k_num <= 0xffff_ffff
        &&& self.counters@.len() == self.k_num
        &&& self.width >= 2
        &&& is_pow2(self.width as nat)
        &&& self.mask == self.width - 1
        &&& forall|i: int| 0 <= i < self.k_num ==> (#[trigger] self.counters@[i])@.len() == self.width
        &&& self.factor >= 1
        &&& (self.sampler is None ==> self.factor == 1)
        &&& self.next_counter >= self.curr_counter
        &&& self.last_index < self.k_num
        &&& self.curr_counter % (self.k_num as u64) == 0
        &&& forall|k: Seq<u8>| 0 <= #[trigger] count_of(self.truth@, k)
        &&& (self.sampler is None ==> self.overestimates())
    }

    /// An empty sketch of `depth` rows and `width` columns.  `width` is
    /// the tolerance-derived power of two, `depth` the confidence-derived
    /// row count, `factor` the rounded reciprocal of the sampling
    /// probability (one when `sampler` is absent, which turns sampling
    /// off), and `conservative` selects the min-then-max update that
    /// tightens overestimates.
    pub fn new(
        width: usize,
        depth: usize,
        factor: u32,
        conservative: bool,
        sampler: Option<GeoSampler>,
    ) -> (r: Self)
        requires
            width >= 2,
            is_pow2(width as nat),
            1 <= depth <= 0xffff_ffff,
            factor >= 1,
            sampler is None ==> factor == 1,
        ensures
            r.wf(),
            r.width == width,
            r.k_num == depth,
            r.factor == factor,
            r.conservative == conservative,
            r.sampler is None <==> sampler is None,
            forall|key: Seq<u8>| #[trigger] count_of(r.truth@, key) == 0,
            forall|key: Seq<u8>| #[trigger] r.spec_get(key) == 0,
    {
        let mut counters: Vec<Vec<u32>> = Vec::new();
        let mut i: usize = 0;
        while i < depth
            invariant
                i <= depth,
                counters@.len() == i,
                forall|r: int| 0 <= r < i ==> (#[trigger] counters@[r])@.len() == width,
                forall|r: int, c: int|
                    0 <= r < i && 0 <= c < width ==> (#[trigger] counters@[r]@[c]) == 0,
            decreases depth - i,
        {
            let mut row: Vec<u32> = Vec::new();
            let mut j: usize = 0;
            while j < width
                invariant
                    j <= width,
                    row@.len() == j,
                    forall|c: int| 0 <= c < j ==> (#[trigger] row@[c]) == 0,
                decreases width - j,
            {
                row.push(0);
                j = j + 1;
            }
            counters.push(row);
            i = i + 1;
        }
        let mut sampler = sampler;
        let next0: u64 = match &mut sampler {
            Some(s) => s.draw(),
            None => 0,
        };
        let r = NitroCMS {
            counters,
            width,
            mask: (width - 1) as u64,
            k_num: depth,
            factor,
            conservative,
            sampler,
            curr_counter: 0,
            next_counter: next0,
            last_index: 0,
            truth: Ghost(Map::empty()),
        };
        proof {
            assert forall|key: Seq<u8>| clip_u32(#[trigger] count_of(r.truth@, key)) <= min_cells(
                r.counters@,
                key,
                r.mask,
                r.k_num as int,
            ) by {
                assert forall|j: int|
                    0 <= j < r.k_num as int implies 0 <= #[trigger] cms_cell(
                    r.counters@,
                    key,
                    r.mask,
                    j,
                ) by {
                    lemma_off_in_range(key, j as nat, r.mask);
                }
                lemma_min_cells_ge(r.counters@, key, r.mask, r.k_num as int, 0);
            }
            assert forall|key: Seq<u8>| #[trigger] r.spec_get(key) == 0 by {
                assert forall|j: int|
                    0 <= j < r.k_num as int implies 0 <= #[trigger] cms_cell(
                    r.counters@,
                    key,
                    r.mask,
                    j,
                ) by {
                    lemma_off_in_range(key, j as nat, r.mask);
                }
                lemma_min_cells_ge(r.counters@, key, r.mask, r.k_num as int, 0);
                lemma_off_in_range(key, 0, r.mask);
                lemma_min_cells_le_row(r.counters@, key, r.mask, r.k_num as int, 0);
                assert(cms_cell(r.counters@, key, r.mask, 0) == 0);
                assert(r.spec_min(key) == 0);
            }
        }
        r
    }

    /// The hash-derived column that row `index` uses for `key`, computed
    /// by feeding the key's bytes and then `index` sentinel bytes into a
    /// fresh hash stream — bit-identical to the `index`-th offset of the
    /// full-depth stream.
    #[verifier::loop_isolation(false)]
    pub fn single_offset(&self, key: &[u8], index: usize) -> (r: usize)
        requires
            self.mask == self.width - 1,
            self.width >= 1,
        ensures
            r == cell_off(key@, index as nat, self.mask),
            r < self.width,
    {
        let mut buf: Vec<u8> = vstd::slice::slice_to_vec(key);
        let mut k: usize = 0;
        proof {
            assert(buf@ =~= key@ + sentinels(0));
        }
        while k < index
            invariant
                k <= index,
                buf@ == key@ + sentinels(k as nat),
            decreases index - k,
        {
            buf.push(SENTINEL);
            proof {
                assert(buf@ =~= key@ + sentinels((k + 1) as nat));
            }
            k = k + 1;
        }
        let h = xxh64_bytes(buf.as_slice());
        let m = self.mask;
        let off = (h & m) as usize;
        proof {
            lemma_off_in_range(key@, index as nat, self.mask);
            assert((h & m) <= m) by (bit_vector);
        }
        off
    }

    /// All `k_num` hash-derived columns for `key`, row by row, from one
    /// restartable hash stream.
    #[verifier::loop_isolation(false)]
    pub fn offsets(&self, key: &[u8]) -> (r: Vec<usize>)
        requires
            self.wf(),
        ensures
            r@.len() == self.k_num,
            forall|j: int| 0 <= j < self.k_num ==> (#[trigger] r@[j]) == cell_off(
                key@,
                j as nat,
                self.mask,
            ) && r@[j] < self.width,
    {
        let mut buf: Vec<u8> = vstd::slice::slice_to_vec(key);
        let mut r: Vec<usize> = Vec::new();
        let mut k: usize = 0;
        proof {
            assert(buf@ =~= key@ + sentinels(0));
        }
        while k < self.k_num
            invariant
                k <= self.k_num,
                buf@ == key@ + sentinels(k as nat),
                r@.len() == k,
                forall|j: int| 0 <= j < k ==> (#[trigger] r@[j]) == cell_off(
                    key@,
                    j as nat,
                    self.mask,
                ) && r@[j] < self.width,
            decreases self.k_num - k,
        {
            let h = xxh64_bytes(buf.as_slice());
            let m = self.mask;
            let off = (h & m) as usize;
            proof {
                lemma_off_in_range(key@, k as nat, self.mask);
                assert((h & m) <= m) by (bit_vector);
            }
            r.push(off);
            buf.push(SENTINEL);
            proof {
                assert(buf@ =~= key@ + sentinels((k + 1) as nat));
            }
            k = k + 1;
        }
        r
    }
    /// One visit of `key` with weight `value`, with sampling off: every
    /// row's cell for the key grows.  In plain mode each cell takes the
    /// value; in conservative mode the cells are raised to the old minimum
    /// plus the value, which tightens overestimates.  No other cell
    /// changes, and no query of any key shrinks.
    #[verifier::loop_isolation(false)]
    fn full_push(&mut self, key: &[u8], value: u32)
        requires
            old(self).wf(),
        ensures
            final(self).wf(),
            final(self).width == old(self).width,
            final(self).mask == old(self).mask,
            final(self).k_num == old(self).k_num,
            final(self).factor == old(self).factor,
            final(self).conservative == old(self).conservative,
            final(self).sampler == old(self).sampler,
            final(self).curr_counter == old(self).curr_counter,
            final(self).next_counter == old(self).next_counter,
            final(self).last_index == old(self).last_index,
            final(self).truth@ == old(self).truth@.insert(
                key@,
                count_of(old(self).truth@, key@) + value,
            ),
            forall|r: int, c: int|
                0 <= r < old(self).k_num && 0 <= c < old(self).width && c != cell_off(
                    key@,
                    r as nat,
                    old(self).mask,
                ) ==> final(self).counters@[r]@[c] == old(self).counters@[r]@[c],
            !old(self).conservative ==> forall|r: int|
                0 <= r < old(self).k_num ==> #[trigger] cms_cell(
                    final(self).counters@,
                    key@,
                    old(self).mask,
                    r,
                ) == sat_add_u32(
                    cms_cell(old(self).counters@, key@, old(self).mask, r) as u32,
                    value,
                ),
            old(self).conservative ==> forall|r: int|
                0 <= r < old(self).k_num ==> #[trigger] cms_cell(
                    final(self).counters@,
                    key@,
                    old(self).mask,
                    r,
                ) == (if cms_cell(old(self).counters@, key@, old(self).mask, r) >= sat_add_u32(
                    old(self).spec_min(key@) as u32,
                    value,
                ) {
                    cms_cell(old(self).counters@, key@, old(self).mask, r)
                } else {
                    sat_add_u32(old(self).spec_min(key@) as u32, value) as int
                }),
            forall|key2: Seq<u8>| #[trigger] final(self).spec_min(key2) >= old(self).spec_min(key2),
            forall|key2: Seq<u8>| #[trigger] final(self).spec_get(key2) >= old(self).spec_get(key2),
    {
        let ghost cs0 = self.counters@;
        let ghost t0 = self.truth@;
        let offs = self.offsets(key);
        let kn = self.k_num;
        let low2: u32 = if self.conservative {
            let m0 = self.min_counter(key, &offs);
            crate::entries::sat_add_exec(m0, value)
        } else {
            0
        };
        let ghost low2g = low2;
        let mut k: usize = 0;
        while k < kn
            invariant
                k <= kn,
                self.width == old(self).width,
                self.mask == old(self).mask,
                self.k_num == old(self).k_num,
                self.factor == old(self).factor,
                self.conservative == old(self).conservative,
                self.sampler == old(self).sampler,
                self.truth@ == t0,
                self.curr_counter == old(self).curr_counter,
                self.next_counter == old(self).next_counter,
                self.last_index == old(self).last_index,
                self.counters@.len() == kn,
                forall|r: int| 0 <= r < kn ==> (#[trigger] self.counters@[r])@.len() == self.width,
                forall|r: int| k <= r < kn ==> self.counters@[r] == cs0[r],
                forall|r: int, c: int|
                    0 <= r < k && 0 <= c < self.width && c != cell_off(key@, r as nat, self.mask)
                        ==> self.counters@[r]@[c] == cs0[r]@[c],
                !self.conservative ==> forall|r: int|
                    0 <= r < k ==> #[trigger] cms_cell(self.counters@, key@, self.mask, r)
                        == sat_add_u32(cms_cell(cs0, key@, self.mask, r) as u32, value),
                self.conservative ==> forall|r: int|
                    0 <= r < k ==> #[trigger] cms_cell(self.counters@, key@, self.mask, r) == (
                    if cms_cell(cs0, key@, self.mask, r) >= low2g {
                        cms_cell(cs0, key@, self.mask, r)
                    } else {
                        low2g as int
                    }),
            decreases kn - k,
        {
            let off = offs[k];
            let ghost cs_prev = self.counters@;
            proof {
                lemma_off_in_range(key@, k as nat, self.mask);
            }
            let cur = self.counters[k][off];
            let newv: u32 = if self.conservative {
                if cur >= low2 {
                    cur
                } else {
                    low2
                }
            } else {
                crate::entries::sat_add_exec(cur, value)
            };
            self.counters[k][off] = newv;
            proof {
                assert(self.counters@[k as int]@ =~= cs0[k as int]@.update(off as int, newv));
                assert(cms_cell(self.counters@, key@, self.mask, k as int) == newv);
                assert forall|r: int| 0 <= r < k implies #[trigger] cms_cell(
                    self.counters@,
                    key@,
                    self.mask,
                    r,
                ) == cms_cell(cs_prev, key@, self.mask, r) by {
                    assert(self.counters@[r] == cs_prev[r]);
                }
            }
            k = k + 1;
        }
        self.truth = Ghost(t0.insert(key@, count_of(t0, key@) + value));
        proof {
            self.lemma_full_push_after(cs0, t0, key@, value, low2g);
            assert forall|key2: Seq<u8>| #[trigger] self.spec_get(key2) >= sat_mul_u32(
                min_cells(cs0, key2, self.mask, self.k_num as int) as u32,
                self.factor,
            ) by {
                lemma_cells_bounds(cs0, key2, self.mask, self.k_num as int, self.width as int);
                lemma_cells_bounds(
                    self.counters@,
                    key2,
                    self.mask,
                    self.k_num as int,
                    self.width as int,
                );
                crate::entries::lemma_sat_mul_monotone(
                    min_cells(cs0, key2, self.mask, self.k_num as int) as u32,
                    min_cells(self.counters@, key2, self.mask, self.k_num as int) as u32,
                    self.factor,
                );
            }
        }
    }

    /// The smallest counter among the rows for `key`, over precomputed
    /// offsets.
    #[verifier::loop_isolation(false)]
    fn min_counter(&self, key: &[u8], offs: &Vec<usize>) -> (r: u32)
        requires
            self.wf(),
            offs@.len() == self.k_num,
            forall|j: int| 0 <= j < self.k_num ==> (#[trigger] offs@[j]) == cell_off(
                key@,
                j as nat,
                self.mask,
            ) && offs@[j] < self.width,
        ensures
            r as int == self.spec_min(key@),
    {
        let mut minv: u32 = self.counters[0][offs[0]];
        let mut k: usize = 1;
        while k < self.k_num
            invariant
                1 <= k <= self.k_num,
                minv as int == min_cells(self.counters@, key@, self.mask, k as int),
            decreases self.k_num - k,
        {
            let c = self.counters[k][offs[k]];
            if c < minv {
                minv = c;
            }
            k = k + 1;
        }
        minv
    }

    /// After an unsampled visit of `key` that grew every one of the key's
    /// cells to dominate the grown count, the one-sided error bound still
    /// holds and no key's minimum shrank.
    proof fn lemma_full_push_after(
        &self,
        cs0: Seq<Vec<u32>>,
        t0: Map<Seq<u8>, int>,
        key: Seq<u8>,
        value: u32,
        low2: u32,
    )
        requires
            1 <= self.k_num,
            cs0.len() == self.k_num,
            self.counters@.len() == self.k_num,
            self.width >= 2,
            self.mask == self.width - 1,
            forall|r: int| 0 <= r < self.k_num ==> (#[trigger] cs0[r])@.len() == self.width,
            forall|r: int| 0 <= r < self.k_num ==> (#[trigger] self.counters@[r])@.len()
                == self.width,
            self.truth@ == t0.insert(key, count_of(t0, key) + value),
            forall|k2: Seq<u8>| 0 <= #[trigger] count_of(t0, k2),
            self.conservative ==> low2 == sat_add_u32(
                min_cells(cs0, key, self.mask, self.k_num as int) as u32,
                value,
            ),
            forall|r: int, c: int|
                0 <= r < self.k_num && 0 <= c < self.width && c != cell_off(key, r as nat, self.mask)
                    ==> self.counters@[r]@[c] == cs0[r]@[c],
            !self.conservative ==> forall|r: int|
                0 <= r < self.k_num ==> #[trigger] cms_cell(self.counters@, key, self.mask, r)
                    == sat_add_u32(cms_cell(cs0, key, self.mask, r) as u32, value),
            self.conservative ==> forall|r: int|
                0 <= r < self.k_num ==> #[trigger] cms_cell(self.counters@, key, self.mask, r) == (
                if cms_cell(cs0, key, self.mask, r) >= low2 {
                    cms_cell(cs0, key, self.mask, r)
                } else {
                    low2 as int
                }),
            self.sampler is None ==> cms_overest(t0, cs0, self.mask, self.k_num as int),
        ensures
            forall|k2: Seq<u8>| 0 <= #[trigger] count_of(self.truth@, k2),
            self.sampler is None ==> self.overestimates(),
            forall|key2: Seq<u8>| #[trigger] min_cells(self.counters@, key2, self.mask, self.k_num as int)
                >= min_cells(cs0, key2, self.mask, self.k_num as int),
    {
        let cs1 = self.counters@;
        let kn = self.k_num as int;
        let mask = self.mask;
        let tc = count_of(t0, key);
        assert forall|r: int, c: int|
            0 <= r < kn && 0 <= c < cs0[r]@.len() implies (#[trigger] cs0[r]@[c])
            <= cs1[r]@[c] by {
            if c == cell_off(key, r as nat, mask) {
                assert(cms_cell(cs1, key, mask, r) >= cms_cell(cs0, key, mask, r));
            }
        }
        assert forall|key2: Seq<u8>| #[trigger] min_cells(cs1, key2, mask, kn) >= min_cells(
            cs0,
            key2,
            mask,
            kn,
        ) by {
            lemma_min_cells_mono(cs0, cs1, key2, mask, kn);
        }
        assert forall|k2: Seq<u8>| 0 <= #[trigger] count_of(self.truth@, k2) by {
            if k2 == key {
                assert(count_of(self.truth@, key) == tc + value);
            } else {
                assert(count_of(self.truth@, k2) == count_of(t0, k2));
            }
        }
        if self.sampler is None {
            assert forall|k2: Seq<u8>| clip_u32(#[trigger] count_of(self.truth@, k2)) <= min_cells(
                cs1,
                k2,
                mask,
                kn,
            ) by {
                if k2 == key {
                    assert(count_of(self.truth@, key) == tc + value);
                    assert(clip_u32(tc) <= min_cells(cs0, key, mask, kn));
                    assert forall|r: int| 0 <= r < kn implies clip_u32(tc + value)
                        <= #[trigger] cms_cell(cs1, key, mask, r) by {
                        lemma_min_cells_le_row(cs0, key, mask, kn, r);
                        lemma_off_in_range(key, r as nat, mask);
                        let c0 = cms_cell(cs0, key, mask, r);
                        if self.conservative {
                            let m0 = min_cells(cs0, key, mask, kn);
                            lemma_cells_bounds(cs0, key, mask, kn, self.width as int);
                            crate::entries::lemma_sat_add_dominates(m0 as u32, tc, value);
                            assert(cms_cell(cs1, key, mask, r) >= low2 as int);
                        } else {
                            crate::entries::lemma_sat_add_dominates(c0 as u32, tc, value);
                        }
                    }
                    lemma_min_cells_ge(cs1, key, mask, kn, clip_u32(tc + value));
                } else {
                    assert(count_of(self.truth@, k2) == count_of(t0, k2));
                    assert(clip_u32(count_of(t0, k2)) <= min_cells(cs0, k2, mask, kn));
                }
            }
        }
    }

    /// One visit of `key` with weight `value`, with sampling on.  The
    /// schedule walks the flattened sequence of cell updates, `k_num` cells
    /// per visit; a geometric draw of `k` before each sampled cell means
    /// the next `k` cells are skipped and the one after is applied.  This
    /// call applies whichever sampled cells fall inside its own span of
    /// the schedule.  Cells only grow, only in the key's columns, so no
    /// query of any key shrinks.
    fn sampled_push(&mut self, key: &[u8], value: u32)
        requires
            old(self).wf(),
            old(self).sampler is Some,
        ensures
            final(self).wf(),
            final(self).width == old(self).width,
            final(self).mask == old(self).mask,
            final(self).k_num == old(self).k_num,
            final(self).factor == old(self).factor,
            final(self).conservative == old(self).conservative,
            final(self).sampler is Some,
            final(self).truth@ == old(self).truth@.insert(
                key@,
                count_of(old(self).truth@, key@) + value,
            ),
            forall|r: int, c: int|
                0 <= r < old(self).k_num && 0 <= c < old(self).width && c != cell_off(
                    key@,
                    r as nat,
                    old(self).mask,
                ) ==> final(self).counters@[r]@[c] == old(self).counters@[r]@[c],
            forall|r: int, c: int|
                0 <= r < old(self).k_num && 0 <= c < old(self).width ==> old(
                    self,
                ).counters@[r]@[c] <= final(self).counters@[r]@[c],
            forall|key2: Seq<u8>| #[trigger] final(self).spec_get(key2) >= old(self).spec_get(key2),
    {
        let ghost cs0 = self.counters@;
        let ghost t0 = self.truth@;
        self.truth = Ghost(t0.insert(key@, count_of(t0, key@) + value));
        proof {
            assert forall|k2: Seq<u8>| 0 <= #[trigger] count_of(self.truth@, k2) by {
                if k2 == key@ {
                    assert(count_of(self.truth@, key@) == count_of(t0, key@) + value);
                } else {
                    assert(count_of(self.truth@, k2) == count_of(t0, k2));
                }
            }
        }
        let ghost gw = self.width;
        let ghost gmask = self.mask;
        let ghost gkn = self.k_num;
        let ghost gf = self.factor;
        let ghost gcons = self.conservative;
        let ghost gcurr = self.curr_counter;
        let kn64 = self.k_num as u64;
        loop
            invariant
                self.width == gw,
                self.mask == gmask,
                self.k_num == gkn,
                kn64 == self.k_num as u64,
                self.factor == gf,
                self.conservative == gcons,
                self.sampler is Some,
                self.truth@ == t0.insert(key@, count_of(t0, key@) + value),
                1 <= self.k_num <= 0xffff_ffff,
                self.mask == self.width - 1,
                self.width >= 2,
                cs0.len() == self.k_num,
                forall|r: int| 0 <= r < self.k_num ==> (#[trigger] cs0[r])@.len() == self.width,
                self.counters@.len() == self.k_num,
                forall|r: int| 0 <= r < self.k_num ==> (#[trigger] self.counters@[r])@.len()
                    == self.width,
                forall|r: int, c: int|
                    0 <= r < self.k_num && 0 <= c < self.width && c != cell_off(
                        key@,
                        r as nat,
                        self.mask,
                    ) ==> self.counters@[r]@[c] == cs0[r]@[c],
                forall|r: int, c: int|
                    0 <= r < self.k_num && 0 <= c < self.width ==> cs0[r]@[c]
                        <= self.counters@[r]@[c],
                self.last_index < self.k_num,
                self.curr_counter == gcurr,
                self.curr_counter <= self.next_counter,
            ensures
                self.width == gw,
                self.mask == gmask,
                self.k_num == gkn,
                self.factor == gf,
                self.conservative == gcons,
                self.sampler is Some,
                self.truth@ == t0.insert(key@, count_of(t0, key@) + value),
                self.counters@.len() == self.k_num,
                forall|r: int| 0 <= r < self.k_num ==> (#[trigger] self.counters@[r])@.len()
                    == self.width,
                forall|r: int, c: int|
                    0 <= r < self.k_num && 0 <= c < self.width && c != cell_off(
                        key@,
                        r as nat,
                        self.mask,
                    ) ==> self.counters@[r]@[c] == cs0[r]@[c],
                forall|r: int, c: int|
                    0 <= r < self.k_num && 0 <= c < self.width ==> cs0[r]@[c]
                        <= self.counters@[r]@[c],
                self.last_index < self.k_num,
                self.curr_counter == gcurr,
                self.next_counter as int >= gcurr + kn64 || self.next_counter == u64::MAX,
            decreases (if self.next_counter - self.curr_counter < kn64 {
                (kn64 - (self.next_counter - self.curr_counter)) as int
            } else {
                0int
            }),
        {
            if self.next_counter - self.curr_counter >= kn64 {
                break ;
            }
            let row = (self.next_counter - self.curr_counter) as usize;
            self.last_index = row;
            let off = self.single_offset(key, row);
            let ghost cs_prev = self.counters@;
            let cur = self.counters[row][off];
            let newv = crate::entries::sat_add_exec(cur, value);
            self.counters[row][off] = newv;
            proof {
                assert(self.counters@[row as int]@ =~= cs_prev[row as int]@.update(
                    off as int,
                    newv,
                ));
                lemma_off_in_range(key@, row as nat, self.mask);
            }
            let skip = match &mut self.sampler {
                Some(s) => s.draw(),
                None => 0,
            };
            let step = skip.saturating_add(1);
            match self.next_counter.checked_add(step) {
                Some(nx) => {
                    self.next_counter = nx;
                },
                None => {
                    self.next_counter = u64::MAX;
                    break ;
                },
            }
        }
        // this call's span of the schedule is done: move to the next one
        match self.curr_counter.checked_add(kn64) {
            Some(c2) => {
                proof {
                    vstd::arithmetic::div_mod::lemma_mod_add_multiples_vanish(
                        self.curr_counter as int,
                        kn64 as int,
                    );
                    assert(((self.curr_counter + kn64) as int) % (kn64 as int) == (
                    self.curr_counter as int) % (kn64 as int));
                }
                self.curr_counter = c2;
            },
            None => {
                // the position clock is pinned at its ceiling; the sketch
                // stays sound, it just stops advancing the schedule
            },
        }
        proof {
            assert forall|k2: Seq<u8>| 0 <= #[trigger] count_of(self.truth@, k2) by {
                if k2 == key@ {
                    assert(count_of(self.truth@, key@) == count_of(t0, key@) + value);
                } else {
                    assert(count_of(self.truth@, k2) == count_of(t0, k2));
                }
            }
            assert forall|key2: Seq<u8>| #[trigger] self.spec_get(key2) >= sat_mul_u32(
                min_cells(cs0, key2, self.mask, self.k_num as int) as u32,
                self.factor,
            ) by {
                lemma_min_cells_mono(cs0, self.counters@, key2, self.mask, self.k_num as int);
                lemma_cells_bounds(cs0, key2, self.mask, self.k_num as int, self.width as int);
                lemma_cells_bounds(
                    self.counters@,
                    key2,
                    self.mask,
                    self.k_num as int,
                    self.width as int,
                );
                crate::entries::lemma_sat_mul_monotone(
                    min_cells(cs0, key2, self.mask, self.k_num as int) as u32,
                    min_cells(self.counters@, key2, self.mask, self.k_num as int) as u32,
                    self.factor,
                );
            }
        }
    }

    /// One logical visit of `key` with weight `value`: sampled when the
    /// sketch carries a sampler, full otherwise.  The exact pushed total
    /// of the key grows by `value`; queries of any key never shrink; with
    /// sampling off, each of the key's cells grows as the update rule
    /// says and the sketch keeps overestimating every key's exact total.
    pub fn push(&mut self, key: &[u8], value: u32)
        requires
            old(self).wf(),
        ensures
            final(self).wf(),
            final(self).width == old(self).width,
            final(self).mask == old(self).mask,
            final(self).k_num == old(self).k_num,
            final(self).factor == old(self).factor,
            final(self).conservative == old(self).conservative,
            final(self).sampler is Some <==> old(self).sampler is Some,
            final(self).truth@ == old(self).truth@.insert(
                key@,
                count_of(old(self).truth@, key@) + value,
            ),
            forall|key2: Seq<u8>| #[trigger] final(self).spec_get(key2) >= old(self).spec_get(key2),
            (old(self).sampler is None && !old(self).conservative) ==> forall|r: int|
                0 <= r < old(self).k_num ==> #[trigger] cms_cell(
                    final(self).counters@,
                    key@,
                    old(self).mask,
                    r,
                ) == sat_add_u32(
                    cms_cell(old(self).counters@, key@, old(self).mask, r) as u32,
                    value,
                ),
            (old(self).sampler is None && old(self).conservative) ==> forall|r: int|
                0 <= r < old(self).k_num ==> #[trigger] cms_cell(
                    final(self).counters@,
                    key@,
                    old(self).mask,
                    r,
                ) == (if cms_cell(old(self).counters@, key@, old(self).mask, r) >= sat_add_u32(
                    old(self).spec_min(key@) as u32,
                    value,
                ) {
                    cms_cell(old(self).counters@, key@, old(self).mask, r)
                } else {
                    sat_add_u32(old(self).spec_min(key@) as u32, value) as int
                }),
    {
        if self.sampler.is_some() {
            self.sampled_push(key, value);
        } else {
            self.full_push(key, value);
        }
    }

    /// The estimate for `key`: the smallest counter among the key's cells,
    /// scaled by the unbiasing factor.  With sampling off the estimate
    /// dominates the key's exact pushed total (one-sided error).
    pub fn get(&self, key: &[u8]) -> (r: u32)
        requires
            self.wf(),
        ensures
            r == self.spec_get(key@),
            self.sampler is None ==> r >= clip_u32(count_of(self.truth@, key@)),
    {
        let offs = self.offsets(key);
        let minv = self.min_counter(key, &offs);
        let r = sat_mul_exec(minv, self.factor);
        proof {
            lemma_cells_bounds(self.counters@, key@, self.mask, self.k_num as int, self.width as int);
            crate::entries::lemma_sat_mul_ge(minv, self.factor);
        }
        r
    }

    /// Raise each of the key's cells to at least `value`, merging an
    /// aggregated count into the sketch.  No other cell changes, and no
    /// query of any key shrinks.
    #[verifier::loop_isolation(false)]
    pub fn union_assign(&mut self, key: &[u8], value: u32)
        requires
            old(self).wf(),
        ensures
            final(self).wf(),
            final(self).width == old(self).width,
            final(self).mask == old(self).mask,
            final(self).k_num == old(self).k_num,
            final(self).factor == old(self).factor,
            final(self).conservative == old(self).conservative,
            final(self).sampler is Some <==> old(self).sampler is Some,
            final(self).truth@ == old(self).truth@,
            forall|r: int|
                0 <= r < old(self).k_num ==> #[trigger] cms_cell(
                    final(self).counters@,
                    key@,
                    old(self).mask,
                    r,
                ) == (if cms_cell(old(self).counters@, key@, old(self).mask, r) >= value {
                    cms_cell(old(self).counters@, key@, old(self).mask, r)
                } else {
                    value as int
                }),
            forall|r: int, c: int|
                0 <= r < old(self).k_num && 0 <= c < old(self).width && c != cell_off(
                    key@,
                    r as nat,
                    old(self).mask,
                ) ==> final(self).counters@[r]@[c] == old(self).counters@[r]@[c],
            forall|key2: Seq<u8>| #[trigger] final(self).spec_get(key2) >= old(self).spec_get(key2),
    {
        let ghost cs0 = self.counters@;
        let offs = self.offsets(key);
        let kn = self.k_num;
        let mut k: usize = 0;
        while k < kn
            invariant
                k <= kn,
                self.width == old(self).width,
                self.mask == old(self).mask,
                self.k_num == old(self).k_num,
                self.factor == old(self).factor,
                self.conservative == old(self).conservative,
                self.sampler == old(self).sampler,
                self.truth@ == old(self).truth@,
                self.curr_counter == old(self).curr_counter,
                self.next_counter == old(self).next_counter,
                self.last_index == old(self).last_index,
                self.counters@.len() == kn,
                forall|r: int| 0 <= r < kn ==> (#[trigger] self.counters@[r])@.len() == self.width,
                forall|r: int| k <= r < kn ==> self.counters@[r] == cs0[r],
                forall|r: int, c: int|
                    0 <= r < k && 0 <= c < self.width && c != cell_off(key@, r as nat, self.mask)
                        ==> self.counters@[r]@[c] == cs0[r]@[c],
                forall|r: int|
                    0 <= r < k ==> #[trigger] cms_cell(self.counters@, key@, self.mask, r) == (
                    if cms_cell(cs0, key@, self.mask, r) >= value {
                        cms_cell(cs0, key@, self.mask, r)
                    } else {
                        value as int
                    }),
            decreases kn - k,
        {
            let off = offs[k];
            let ghost cs_prev = self.counters@;
            proof {
                lemma_off_in_range(key@, k as nat, self.mask);
            }
            let cur = self.counters[k][off];
            let newv: u32 = if cur >= value {
                cur
            } else {
                value
            };
            self.counters[k][off] = newv;
            proof {
                assert(self.counters@[k as int]@ =~= cs_prev[k as int]@.update(off as int, newv));
                assert(cms_cell(self.counters@, key@, self.mask, k as int) == newv);
                assert forall|r: int| 0 <= r < k implies #[trigger] cms_cell(
                    self.counters@,
                    key@,
                    self.mask,
                    r,
                ) == cms_cell(cs_prev, key@, self.mask, r) by {
                    assert(self.counters@[r] == cs_prev[r]);
                }
            }
            k = k + 1;
        }
        proof {
            let cs1 = self.counters@;
            let kn2 = self.k_num as int;
            assert forall|r: int, c: int|
                0 <= r < kn2 && 0 <= c < cs0[r]@.len() implies (#[trigger] cs0[r]@[c])
                <= cs1[r]@[c] by {
                if c == cell_off(key@, r as nat, self.mask) {
                    assert(cms_cell(cs1, key@, self.mask, r) >= cms_cell(cs0, key@, self.mask, r));
                }
            }
            assert forall|key2: Seq<u8>| #[trigger] self.spec_get(key2) >= sat_mul_u32(
                min_cells(cs0, key2, self.mask, kn2) as u32,
                self.factor,
            ) by {
                lemma_min_cells_mono(cs0, cs1, key2, self.mask, kn2);
                lemma_cells_bounds(cs0, key2, self.mask, kn2, self.width as int);
                lemma_cells_bounds(cs1, key2, self.mask, kn2, self.width as int);
                crate::entries::lemma_sat_mul_monotone(
                    min_cells(cs0, key2, self.mask, kn2) as u32,
                    min_cells(cs1, key2, self.mask, kn2) as u32,
                    self.factor,
                );
            }
            if self.sampler is None {
                assert forall|k2: Seq<u8>| clip_u32(#[trigger] count_of(self.truth@, k2))
                    <= min_cells(cs1, k2, self.mask, kn2) by {
                    assert(clip_u32(count_of(self.truth@, k2)) <= min_cells(
                        cs0,
                        k2,
                        self.mask,
                        kn2,
                    ));
                    lemma_min_cells_mono(cs0, cs1, k2, self.mask, kn2);
                }
            }
        }
    }

    /// Forget everything: zero every counter and the record of pushes, as
    /// if the sketch were new.  The sizing, factor and skip schedule stay.
    #[verifier::loop_isolation(false)]
    pub fn clear(&mut self)
        requires
            old(self).wf(),
        ensures
            final(self).wf(),
            final(self).width == old(self).width,
            final(self).mask == old(self).mask,
            final(self).k_num == old(self).k_num,
            final(self).factor == old(self).factor,
            final(self).conservative == old(self).conservative,
            final(self).sampler is Some <==> old(self).sampler is Some,
            forall|key: Seq<u8>| #[trigger] count_of(final(self).truth@, key) == 0,
            forall|key: Seq<u8>| #[trigger] final(self).spec_get(key) == 0,
    {
        let kn = self.k_num;
        let w = self.width;
        let mut k: usize = 0;
        while k < kn
            invariant
                k <= kn,
                self.width == old(self).width,
                self.mask == old(self).mask,
                self.k_num == old(self).k_num,
                w == self.width,
                kn == self.k_num,
                self.factor == old(self).factor,
                self.conservative == old(self).conservative,
                self.sampler == old(self).sampler,
                self.curr_counter == old(self).curr_counter,
                self.next_counter == old(self).next_counter,
                self.last_index == old(self).last_index,
                self.truth@ == old(self).truth@,
                self.counters@.len() == kn,
                forall|r: int| 0 <= r < kn ==> (#[trigger] self.counters@[r])@.len() == w,
                forall|r: int, c: int|
                    0 <= r < k && 0 <= c < w ==> (#[trigger] self.counters@[r]@[c]) == 0,
            decreases kn - k,
        {
            let mut row: Vec<u32> = Vec::new();
            let mut j: usize = 0;
            while j < w
                invariant
                    j <= w,
                    row@.len() == j,
                    forall|c: int| 0 <= c < j ==> (#[trigger] row@[c]) == 0,
                decreases w - j,
            {
                row.push(0);
                j = j + 1;
            }
            self.counters.set(k, row);
            k = k + 1;
        }
        self.truth = Ghost(Map::empty());
        proof {
            assert forall|key: Seq<u8>| #[trigger] count_of(self.truth@, key) == 0 by {}
            assert forall|key: Seq<u8>| clip_u32(#[trigger] count_of(self.truth@, key))
                <= min_cells(self.counters@, key, self.mask, self.k_num as int) by {
                lemma_cells_bounds(
                    self.counters@,
                    key,
                    self.mask,
                    self.k_num as int,
                    self.width as int,
                );
            }
            assert forall|key: Seq<u8>| #[trigger] self.spec_get(key) == 0 by {
                lemma_off_in_range(key, 0, self.mask);
                lemma_min_cells_le_row(self.counters@, key, self.mask, self.k_num as int, 0);
                lemma_cells_bounds(
                    self.counters@,
                    key,
                    self.mask,
                    self.k_num as int,
                    self.width as int,
                );
                assert(self.spec_min(key) == 0);
            }
        }
    }

    /// The bytes of counter storage the sketch's design parameters call
    /// for: rows times columns times the counter size, capped at the
    /// address-space limit.
    pub fn estimate_memory_size(&self) -> (r: usize)
        requires
            self.wf(),
        ensures
            r as int == (if self.k_num * self.width * 4 <= usize::MAX {
                self.k_num * self.width * 4
            } else {
                usize::MAX as int
            }),
    {
        match self.k_num.checked_mul(self.width) {
            Some(cells) => match cells.checked_mul(4) {
                Some(b) => b,
                None => usize::MAX,
            },
            None => {
                proof {
                    assert(self.k_num * self.width * 4 > usize::MAX) by (nonlinear_arith)
                        requires
                            self.k_num * self.width > usize::MAX,
                    ;
                }
                usize::MAX
            },
        }
    }

}

} // verus!
