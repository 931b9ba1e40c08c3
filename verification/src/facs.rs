//! The fast combined sketch: a short-horizon exact window over a
//! long-horizon unsampled Count-Min sketch.  Arrivals are counted exactly
//! in the window; when the window fills, its counts are pushed into the
//! permanent sketch and the window clears.  A query adds the window's
//! exact count to the permanent estimate, so recent traffic is exact and
//! the whole estimate never undercounts.
use vstd::prelude::*;

use crate::FlowId;
use crate::entries::clip_u32;
use crate::entries::count_of;
use crate::entries::sat_add_u32;
use crate::entries::sat_mul_u32;
use crate::nitro_cms::NitroCMS;
use crate::nitro_cms::cms_cell;
use crate::nitro_cms::lemma_cells_bounds;
use crate::nitro_cms::lemma_min_cells_ge;
use crate::nitro_cms::lemma_min_cells_le_row;
use crate::nitro_cms::lemma_off_in_range;
use crate::nitro_cms::min_cells;

verus! {

/// The window a new sketch rolls up at.
pub const DEFAULT_WINDOW: u32 = 10000;

/// Whether some window entry holds `id`.
pub open spec fn window_has(s: Seq<(FlowId, u32)>, id: FlowId) -> bool {
    exists|i: int| 0 <= i < s.len() && s[i].0 == id
}

/// The window count stored for `id` (zero when absent).  Meaningful when
/// the window's keys are distinct.
pub open spec fn window_count(s: Seq<(FlowId, u32)>, id: FlowId) -> int {
    if window_has(s, id) {
        let i = choose|i: int| 0 <= i < s.len() && s[i].0 == id;
        s[i].1 as int
    } else {
        0
    }
}

/// No two window entries hold the same flow.
pub open spec fn window_distinct(s: Seq<(FlowId, u32)>) -> bool {
    forall|i: int, j: int| 0 <= i < j < s.len() ==> s[i].0 != s[j].0
}

/// The sum of the window's counts.
pub open spec fn window_sum(s: Seq<(FlowId, u32)>) -> int
    decreases s.len(),
{
    if s.len() == 0 {
        0
    } else {
        window_sum(s.drop_last()) + s.last().1
    }
}

/// Equal flow bytes mean equal flows: the eight octets determine both
/// addresses.
pub proof fn lemma_flow_bytes_injective(a: FlowId, b: FlowId)
    requires
        a.spec_bytes() == b.spec_bytes(),
    ensures
        a == b,
{
    let x = a.src;
    let y = b.src;
    assert(x == y) by (bit_vector)
        requires
            (x >> 24) as u8 == (y >> 24) as u8,
            ((x >> 16) & 0xff) as u8 == ((y >> 16) & 0xff) as u8,
            ((x >> 8) & 0xff) as u8 == ((y >> 8) & 0xff) as u8,
            (x & 0xff) as u8 == (y & 0xff) as u8,
    ;
    let z = a.dst;
    let w = b.dst;
    assert(z == w) by (bit_vector)
        requires
            (z >> 24) as u8 == (w >> 24) as u8,
            ((z >> 16) & 0xff) as u8 == ((w >> 16) & 0xff) as u8,
            ((z >> 8) & 0xff) as u8 == ((w >> 8) & 0xff) as u8,
            (z & 0xff) as u8 == (w & 0xff) as u8,
    ;
}

/// The windowed composite sketch.
pub struct FACS {
    pub window_sketch: Vec<(FlowId, u32)>,
    pub permanent_sketch: NitroCMS,
    pub next_item: u32,
    pub window_size: u32,
}

impl FACS {
    /// A flow's exact arrival total: its current window count plus what
    /// the permanent sketch's ghost record holds for its bytes.
    pub open spec fn spec_true_count(self, id: FlowId) -> int {
        window_count(self.window_sketch@, id) + count_of(
            self.permanent_sketch.truth@,
            id.spec_bytes(),
        )
    }

    /// What a query returns: the window's exact count plus the permanent
    /// estimate.
    pub open spec fn spec_get(self, id: FlowId) -> u32 {
        sat_add_u32(
            window_count(self.window_sketch@, id) as u32,
            self.permanent_sketch.spec_get(id.spec_bytes()),
        )
    }

    /// Structural soundness: distinct window keys whose counts sum to the
    /// window's fill, a fill below the window size, and a well-formed,
    /// unsampled permanent sketch.
    pub open spec fn wf(self) -> bool {
        &&& window_distinct(self.window_sketch@)
        &&& forall|i: int|
            0 <= i < self.window_sketch@.len() ==> 1 <= (#[trigger] self.window_sketch@[i].1)
        &&& window_sum(self.window_sketch@) == self.next_item
        &&& self.next_item < self.window_size
        &&& 1 <= self.window_size
        &&& self.permanent_sketch.wf()
        &&& self.permanent_sketch.sampler is None
    }

    /// A fresh sketch: an empty window of the default size over an
    /// unsampled conservative Count-Min sketch sized for a one-percent
    /// tolerance and confidence.
    pub fn new() -> (r: Self)
        ensures
            r.wf(),
            r.window_size == DEFAULT_WINDOW,
            forall|id: FlowId| #[trigger] r.spec_true_count(id) == 0,
            forall|id: FlowId| #[trigger] r.spec_get(id) == 0,
    {
        proof {
            assert(crate::hashing::is_pow2(1nat));
            assert(crate::hashing::is_pow2(2nat));
            assert(crate::hashing::is_pow2(4nat));
            assert(crate::hashing::is_pow2(8nat));
            assert(crate::hashing::is_pow2(16nat));
            assert(crate::hashing::is_pow2(32nat));
            assert(crate::hashing::is_pow2(64nat));
            assert(crate::hashing::is_pow2(128nat));
            assert(crate::hashing::is_pow2(256nat));
        }
        let permanent_sketch = NitroCMS::new(256, 1, 1, true, None);
        let r = FACS {
            window_sketch: Vec::new(),
            permanent_sketch,
            next_item: 0,
            window_size: DEFAULT_WINDOW,
        };
        r
    }

    /// One arrival of `id`: its window count grows by one, and when the
    /// window fills, every window count is pushed into the permanent
    /// sketch and the window clears.  Either way, each flow's combined
    /// exact total grows by one exactly for the arriving flow.
    #[verifier::loop_isolation(false)]
    pub fn insert(&mut self, id: FlowId)
        requires
            old(self).wf(),
        ensures
            final(self).wf(),
            final(self).window_size == old(self).window_size,
            forall|id2: FlowId| #[trigger] final(self).spec_true_count(id2) == old(
                self,
            ).spec_true_count(id2) + (if id2 == id {
                1int
            } else {
                0int
            }),
            forall|id2: FlowId| #[trigger] final(self).spec_get(id2) >= old(self).spec_get(id2),
    {
        let ghost p0 = self.permanent_sketch;
        let ghost w0 = self.window_sketch@;
        let n = self.window_sketch.len();
        let mut i: usize = 0;
        let mut found: bool = false;
        while i < n && !found
            invariant
                i <= n,
                n == self.window_sketch@.len(),
                self.window_sketch@ == w0,
                !found ==> forall|j: int| 0 <= j < i ==> w0[j].0 != id,
                found ==> i < n && w0[i as int].0 == id,
            decreases n - i + (if found {
                0int
            } else {
                1int
            }),
        {
            if self.window_sketch[i].0 == id {
                found = true;
            } else {
                i = i + 1;
            }
        }
        if found {
            let c = self.window_sketch[i].1;
            let k = self.window_sketch[i].0;
            proof {
                lemma_window_sum_ge_entry(w0, i as int);
            }
            self.window_sketch.set(i, (k, c + 1));
            proof {
                self.lemma_window_bump(w0, i as int, id);
            }
        } else {
            self.window_sketch.push((id, 1));
            proof {
                self.lemma_window_push(w0, id);
            }
        }
        self.next_item = self.next_item + 1;
        if self.next_item == self.window_size {
            let ghost w1 = self.window_sketch@;
            let m = self.window_sketch.len();
            let mut j: usize = 0;
            proof {
                assert forall|id2: FlowId|
                    #![trigger id2.spec_bytes()]
                    self.permanent_sketch.spec_min(id2.spec_bytes()) >= clip_u32(
                        p0.spec_min(id2.spec_bytes()) + (if window_has(w1.take(0), id2) {
                            window_count(w1, id2)
                        } else {
                            0int
                        }),
                    ) by {
                    lemma_cells_bounds(
                        p0.counters@,
                        id2.spec_bytes(),
                        p0.mask,
                        p0.k_num as int,
                        p0.width as int,
                    );
                }
            }
            while j < m
                invariant
                    j <= m,
                    m == self.window_sketch@.len(),
                    self.window_sketch@ == w1,
                    window_distinct(w1),
                    forall|t: int| 0 <= t < w1.len() ==> 1 <= (#[trigger] w1[t].1),
                    self.window_size == old(self).window_size,
                    self.next_item == old(self).next_item + 1,
                    p0 == old(self).permanent_sketch,
                    p0.wf(),
                    p0.sampler is None,
                    self.permanent_sketch.wf(),
                    self.permanent_sketch.sampler is None,
                    self.permanent_sketch.width == p0.width,
                    self.permanent_sketch.mask == p0.mask,
                    self.permanent_sketch.k_num == p0.k_num,
                    self.permanent_sketch.factor == p0.factor,
                    self.permanent_sketch.conservative == p0.conservative,
                    forall|id2: FlowId| #[trigger] count_of(
                        self.permanent_sketch.truth@,
                        id2.spec_bytes(),
                    ) == count_of(old(self).permanent_sketch.truth@, id2.spec_bytes()) + (
                    if window_has(w1.take(j as int), id2) {
                        window_count(w1, id2)
                    } else {
                        0int
                    }),
                    forall|id2: FlowId|
                        #![trigger id2.spec_bytes()]
                        self.permanent_sketch.spec_min(id2.spec_bytes()) >= clip_u32(
                            p0.spec_min(id2.spec_bytes()) + (if window_has(w1.take(j as int), id2) {
                                window_count(w1, id2)
                            } else {
                                0int
                            }),
                        ),
                decreases m - j,
            {
                let key = self.window_sketch[j].0;
                let val = self.window_sketch[j].1;
                let kb = key.to_bytes();
                let ghost t_before = self.permanent_sketch.truth@;
                let ghost pb = self.permanent_sketch;
                self.permanent_sketch.push(kb.as_slice(), val);
                proof {
                    self.lemma_rollup_step(w1, j as int, t_before, old(self).permanent_sketch.truth@);
                    self.lemma_rollup_min_step(p0, pb, w1, j as int);
                }
                j = j + 1;
            }
            proof {
                assert(w1.take(m as int) =~= w1);
            }
            self.window_sketch = Vec::new();
            self.next_item = 0;
            proof {
                assert forall|id2: FlowId| #[trigger] self.spec_true_count(id2) == old(
                    self,
                ).spec_true_count(id2) + (if id2 == id {
                    1int
                } else {
                    0int
                }) by {
                    if window_has(w1, id2) {
                    } else {
                        assert(window_count(w1, id2) == 0);
                    }
                }
                assert forall|id2: FlowId| #[trigger] self.spec_get(id2) >= old(self).spec_get(
                    id2,
                ) by {
                    let b2 = id2.spec_bytes();
                    let pmin0 = p0.spec_min(b2);
                    let pmin1 = self.permanent_sketch.spec_min(b2);
                    lemma_cells_bounds(p0.counters@, b2, p0.mask, p0.k_num as int, p0.width as int);
                    lemma_cells_bounds(
                        self.permanent_sketch.counters@,
                        b2,
                        p0.mask,
                        p0.k_num as int,
                        p0.width as int,
                    );
                    let wc0 = window_count(w0, id2);
                    let wc1 = window_count(w1, id2);
                    assert(!window_has(self.window_sketch@, id2));
                    if window_has(w1, id2) {
                        assert(pmin1 >= clip_u32(pmin0 + wc1));
                        assert(wc1 >= wc0) by {
                            if window_has(w0, id2) {
                                let a = choose|a: int| 0 <= a < w0.len() && w0[a].0 == id2;
                                assert(0 <= wc0 <= u32::MAX);
                            }
                        }
                    } else {
                        assert(pmin1 >= clip_u32(pmin0 + 0));
                        assert(!window_has(w0, id2)) by {
                            if window_has(w0, id2) {
                                let a = choose|a: int|
                                    0 <= a < w0.len() && (#[trigger] w0[a]).0 == id2;
                                assert(w1[a].0 == id2);
                            }
                        }
                        assert(wc0 == 0 && wc1 == 0);
                    }
                }
            }
        } else {
            proof {
                assert forall|id2: FlowId| #[trigger] self.spec_get(id2) >= old(self).spec_get(
                    id2,
                ) by {
                    let wc0 = window_count(w0, id2);
                    let wc1 = window_count(self.window_sketch@, id2);
                    assert(wc1 >= wc0) by {
                        if window_has(w0, id2) {
                            let a = choose|a: int| 0 <= a < w0.len() && w0[a].0 == id2;
                            assert(0 <= wc0 <= u32::MAX);
                        }
                    }
                }
            }
        }
    }

    /// One rollup step for the estimates: pushing window entry `j` into
    /// the permanent sketch raises that flow's minimum cell by the pushed
    /// count (under the `u32` cap) and no flow's minimum shrinks.
    proof fn lemma_rollup_min_step(&self, p0: NitroCMS, pb: NitroCMS, w1: Seq<(FlowId, u32)>, j: int)
        requires
            window_distinct(w1),
            0 <= j < w1.len(),
            p0.wf(),
            p0.sampler is None,
            pb.wf(),
            pb.sampler is None,
            pb.width == p0.width,
            pb.mask == p0.mask,
            pb.k_num == p0.k_num,
            pb.factor == p0.factor,
            pb.conservative == p0.conservative,
            self.permanent_sketch.wf(),
            self.permanent_sketch.width == pb.width,
            self.permanent_sketch.mask == pb.mask,
            self.permanent_sketch.k_num == pb.k_num,
            self.permanent_sketch.factor == pb.factor,
            self.permanent_sketch.conservative == pb.conservative,
            forall|key2: Seq<u8>| #[trigger] self.permanent_sketch.spec_get(key2)
                >= pb.spec_get(key2),
            !pb.conservative ==> forall|r: int|
                0 <= r < pb.k_num ==> #[trigger] cms_cell(
                    self.permanent_sketch.counters@,
                    w1[j].0.spec_bytes(),
                    pb.mask,
                    r,
                ) == sat_add_u32(
                    cms_cell(pb.counters@, w1[j].0.spec_bytes(), pb.mask, r) as u32,
                    w1[j].1,
                ),
            pb.conservative ==> forall|r: int|
                0 <= r < pb.k_num ==> #[trigger] cms_cell(
                    self.permanent_sketch.counters@,
                    w1[j].0.spec_bytes(),
                    pb.mask,
                    r,
                ) == (if cms_cell(pb.counters@, w1[j].0.spec_bytes(), pb.mask, r) >= sat_add_u32(
                    pb.spec_min(w1[j].0.spec_bytes()) as u32,
                    w1[j].1,
                ) {
                    cms_cell(pb.counters@, w1[j].0.spec_bytes(), pb.mask, r)
                } else {
                    sat_add_u32(pb.spec_min(w1[j].0.spec_bytes()) as u32, w1[j].1) as int
                }),
            forall|id2: FlowId|
                #![trigger id2.spec_bytes()]
                pb.spec_min(id2.spec_bytes()) >= clip_u32(
                    p0.spec_min(id2.spec_bytes()) + (if window_has(w1.take(j), id2) {
                        window_count(w1, id2)
                    } else {
                        0int
                    }),
                ),
        ensures
            forall|id2: FlowId|
                #![trigger id2.spec_bytes()]
                self.permanent_sketch.spec_min(id2.spec_bytes()) >= clip_u32(
                    p0.spec_min(id2.spec_bytes()) + (if window_has(w1.take(j + 1), id2) {
                        window_count(w1, id2)
                    } else {
                        0int
                    }),
                ),
    {
        let pa = self.permanent_sketch;
        let key = w1[j].0;
        let kb = key.spec_bytes();
        let val = w1[j].1;
        let mask = pb.mask;
        let kn = pb.k_num as int;
        let width = pb.width as int;
        // no flow's minimum shrinks: the scaled estimates are the minima
        // themselves, since the factor is one
        assert forall|key2: Seq<u8>| #[trigger] min_cells(pa.counters@, key2, mask, kn)
            >= min_cells(pb.counters@, key2, mask, kn) by {
            lemma_cells_bounds(pa.counters@, key2, mask, kn, width);
            lemma_cells_bounds(pb.counters@, key2, mask, kn, width);
            assert(pa.spec_get(key2) >= pb.spec_get(key2));
            assert(pa.spec_get(key2) == sat_mul_u32(min_cells(pa.counters@, key2, mask, kn) as u32, 1));
            assert(pb.spec_get(key2) == sat_mul_u32(min_cells(pb.counters@, key2, mask, kn) as u32, 1));
        }
        // the pushed flow's cells all reach its old minimum plus the count
        let target = sat_add_u32(pb.spec_min(kb) as u32, val);
        lemma_cells_bounds(pb.counters@, kb, mask, kn, width);
        assert forall|r: int| 0 <= r < kn implies #[trigger] cms_cell(pa.counters@, kb, mask, r)
            >= target as int by {
            lemma_min_cells_le_row(pb.counters@, kb, mask, kn, r);
            lemma_off_in_range(kb, r as nat, mask);
            if pb.conservative {
            } else {
                assert(cms_cell(pa.counters@, kb, mask, r) == sat_add_u32(
                    cms_cell(pb.counters@, kb, mask, r) as u32,
                    val,
                ));
            }
        }
        lemma_min_cells_ge(pa.counters@, kb, mask, kn, target as int);
        assert forall|id2: FlowId|
            #![trigger id2.spec_bytes()]
            pa.spec_min(id2.spec_bytes()) >= clip_u32(
                p0.spec_min(id2.spec_bytes()) + (if window_has(w1.take(j + 1), id2) {
                    window_count(w1, id2)
                } else {
                    0int
                }),
            ) by {
            let b2 = id2.spec_bytes();
            assert(w1.take(j + 1)[j] == w1[j]);
            if b2 == kb {
                lemma_flow_bytes_injective(id2, key);
                assert(id2 == key);
                assert(!window_has(w1.take(j), key)) by {
                    if window_has(w1.take(j), key) {
                        let a = choose|a: int|
                            0 <= a < w1.take(j).len() && (#[trigger] w1.take(j)[a]).0 == key;
                        assert(w1[a].0 == key && a < j);
                    }
                }
                assert(pb.spec_min(kb) >= clip_u32(p0.spec_min(kb) + 0));
                lemma_cells_bounds(p0.counters@, kb, mask, kn, width);
                crate::entries::lemma_sat_add_dominates(
                    pb.spec_min(kb) as u32,
                    p0.spec_min(kb),
                    val,
                );
                assert(window_has(w1.take(j + 1), key)) by {
                    assert(0 <= j < w1.take(j + 1).len() && w1.take(j + 1)[j].0 == key);
                }
                assert(window_count(w1, key) == val) by {
                    let a = choose|a: int| 0 <= a < w1.len() && w1[a].0 == key;
                    assert(a == j);
                }
            } else {
                assert(window_has(w1.take(j + 1), id2) == window_has(w1.take(j), id2)) by {
                    if window_has(w1.take(j + 1), id2) {
                        let a = choose|a: int|
                            0 <= a < w1.take(j + 1).len() && (#[trigger] w1.take(j + 1)[a]).0
                                == id2;
                        if a == j {
                            assert(w1[j].0 == id2);
                            assert(b2 == kb);
                        } else {
                            assert(w1.take(j)[a] == w1.take(j + 1)[a]);
                            assert(window_has(w1.take(j), id2));
                        }
                    }
                    if window_has(w1.take(j), id2) {
                        let a = choose|a: int|
                            0 <= a < w1.take(j).len() && (#[trigger] w1.take(j)[a]).0 == id2;
                        assert(w1.take(j + 1)[a] == w1.take(j)[a]);
                        assert(window_has(w1.take(j + 1), id2));
                    }
                }
            }
        }
    }

    /// Growing window entry `i` by one moves exactly that flow's count up.
    proof fn lemma_window_bump(&self, w0: Seq<(FlowId, u32)>, i: int, id: FlowId)
        requires
            window_distinct(w0),
            forall|t: int| 0 <= t < w0.len() ==> 1 <= (#[trigger] w0[t].1),
            0 <= i < w0.len(),
            w0[i].0 == id,
            w0[i].1 < u32::MAX,
            self.window_sketch@ == w0.update(i, (id, (w0[i].1 + 1) as u32)),
        ensures
            window_distinct(self.window_sketch@),
            forall|t: int|
                0 <= t < self.window_sketch@.len() ==> 1 <= (#[trigger] self.window_sketch@[t].1),
            window_sum(self.window_sketch@) == window_sum(w0) + 1,
            window_count(self.window_sketch@, id) == window_count(w0, id) + 1,
            forall|id2: FlowId|
                id2 != id ==> window_count(self.window_sketch@, id2) == window_count(w0, id2),
    {
        let w1 = self.window_sketch@;
        assert(forall|t: int| 0 <= t < w1.len() ==> w1[t].0 == w0[t].0);
        lemma_window_sum_update(w0, i, (id, (w0[i].1 + 1) as u32));
        assert(window_count(w1, id) == w1[i].1) by {
            let a = choose|a: int| 0 <= a < w1.len() && w1[a].0 == id;
            assert(a == i);
        }
        assert(window_count(w0, id) == w0[i].1) by {
            let a = choose|a: int| 0 <= a < w0.len() && w0[a].0 == id;
            assert(a == i);
        }
        assert forall|id2: FlowId| id2 != id implies window_count(w1, id2) == window_count(
            w0,
            id2,
        ) by {
            if window_has(w1, id2) {
                let a = choose|a: int| 0 <= a < w1.len() && w1[a].0 == id2;
                assert(a != i);
                assert(w0[a].0 == id2);
                let b = choose|b: int| 0 <= b < w0.len() && w0[b].0 == id2;
                assert(a == b);
            } else {
                if window_has(w0, id2) {
                    let b = choose|b: int| 0 <= b < w0.len() && w0[b].0 == id2;
                    assert(w1[b].0 == id2);
                }
            }
        }
    }

    /// Appending a fresh `(id, 1)` entry moves exactly that flow's count
    /// up from zero.
    proof fn lemma_window_push(&self, w0: Seq<(FlowId, u32)>, id: FlowId)
        requires
            window_distinct(w0),
            forall|t: int| 0 <= t < w0.len() ==> 1 <= (#[trigger] w0[t].1),
            !window_has(w0, id),
            self.window_sketch@ == w0.push((id, 1u32)),
        ensures
            window_distinct(self.window_sketch@),
            forall|t: int|
                0 <= t < self.window_sketch@.len() ==> 1 <= (#[trigger] self.window_sketch@[t].1),
            window_sum(self.window_sketch@) == window_sum(w0) + 1,
            window_count(self.window_sketch@, id) == 1,
            window_count(w0, id) == 0,
            forall|id2: FlowId|
                id2 != id ==> window_count(self.window_sketch@, id2) == window_count(w0, id2),
    {
        let w1 = self.window_sketch@;
        let n = w0.len() as int;
        assert(w1.drop_last() =~= w0);
        assert(window_distinct(w1)) by {
            assert(forall|t: int| 0 <= t < n ==> w1[t] == w0[t]);
            assert(forall|t: int| 0 <= t < n ==> w1[t].0 != id);
        }
        assert(window_count(w1, id) == 1) by {
            assert(w1[n].0 == id);
            let a = choose|a: int| 0 <= a < w1.len() && w1[a].0 == id;
            assert(a == n);
        }
        assert forall|id2: FlowId| id2 != id implies window_count(w1, id2) == window_count(
            w0,
            id2,
        ) by {
            if window_has(w1, id2) {
                let a = choose|a: int| 0 <= a < w1.len() && w1[a].0 == id2;
                assert(a != n);
                assert(w0[a].0 == id2);
                let b = choose|b: int| 0 <= b < w0.len() && w0[b].0 == id2;
                assert(a == b);
            } else {
                if window_has(w0, id2) {
                    let b = choose|b: int| 0 <= b < w0.len() && w0[b].0 == id2;
                    assert(w1[b].0 == id2);
                }
            }
        }
    }

    /// One rollup step: pushing window entry `j` into the permanent
    /// sketch moves exactly that flow's window count into the permanent
    /// record.
    proof fn lemma_rollup_step(
        &self,
        w1: Seq<(FlowId, u32)>,
        j: int,
        t_before: Map<Seq<u8>, int>,
        t_orig: Map<Seq<u8>, int>,
    )
        requires
            window_distinct(w1),
            0 <= j < w1.len(),
            self.permanent_sketch.truth@ == t_before.insert(
                w1[j].0.spec_bytes(),
                count_of(t_before, w1[j].0.spec_bytes()) + w1[j].1,
            ),
            forall|id2: FlowId| #[trigger] count_of(t_before, id2.spec_bytes()) == count_of(
                t_orig,
                id2.spec_bytes(),
            ) + (if window_has(w1.take(j), id2) {
                window_count(w1, id2)
            } else {
                0int
            }),
        ensures
            forall|id2: FlowId| #[trigger] count_of(self.permanent_sketch.truth@, id2.spec_bytes())
                == count_of(t_orig, id2.spec_bytes()) + (if window_has(w1.take(j + 1), id2) {
                window_count(w1, id2)
            } else {
                0int
            }),
    {
        let key = w1[j].0;
        let t_after = self.permanent_sketch.truth@;
        assert(w1.take(j + 1).drop_last() =~= w1.take(j));
        assert(w1.take(j + 1).last() == w1[j]);
        assert forall|id2: FlowId| #[trigger] count_of(t_after, id2.spec_bytes()) == count_of(
            t_orig,
            id2.spec_bytes(),
        ) + (if window_has(w1.take(j + 1), id2) {
            window_count(w1, id2)
        } else {
            0int
        }) by {
            if id2.spec_bytes() == key.spec_bytes() {
                lemma_flow_bytes_injective(id2, key);
                assert(id2 == key);
                assert(!window_has(w1.take(j), key)) by {
                    if window_has(w1.take(j), key) {
                        let a = choose|a: int|
                            0 <= a < w1.take(j).len() && (#[trigger] w1.take(j)[a]).0 == key;
                        assert(w1[a].0 == key && a < j);
                    }
                }
                assert(window_has(w1.take(j + 1), key)) by {
                    assert(w1.take(j + 1)[j] == w1[j]);
                    assert(0 <= j < w1.take(j + 1).len() && w1.take(j + 1)[j].0 == key);
                }
                assert(window_count(w1, key) == w1[j].1) by {
                    let a = choose|a: int| 0 <= a < w1.len() && w1[a].0 == key;
                    assert(a == j);
                }
                assert(count_of(t_after, key.spec_bytes()) == count_of(t_before, key.spec_bytes())
                    + w1[j].1);
            } else {
                assert(count_of(t_after, id2.spec_bytes()) == count_of(t_before, id2.spec_bytes()));
                assert(window_has(w1.take(j + 1), id2) == window_has(w1.take(j), id2)) by {
                    if window_has(w1.take(j + 1), id2) {
                        let a = choose|a: int|
                            0 <= a < w1.take(j + 1).len() && (#[trigger] w1.take(j + 1)[a]).0
                                == id2;
                        if a == j {
                            assert(w1[j].0 == id2);
                            assert(id2.spec_bytes() == key.spec_bytes());
                        } else {
                            assert(w1.take(j)[a] == w1.take(j + 1)[a]);
                            assert(window_has(w1.take(j), id2));
                        }
                    }
                    if window_has(w1.take(j), id2) {
                        let a = choose|a: int|
                            0 <= a < w1.take(j).len() && (#[trigger] w1.take(j)[a]).0 == id2;
                        assert(w1.take(j + 1)[a] == w1.take(j)[a]);
                        assert(window_has(w1.take(j + 1), id2));
                    }
                }
            }
        }
    }

    /// The estimate for `id`: its exact window count plus the permanent
    /// estimate.  The combined estimate never undercounts the flow's
    /// exact arrival total.
    pub fn get(&self, id: FlowId) -> (r: u32)
        requires
            self.wf(),
        ensures
            r == self.spec_get(id),
            r >= clip_u32(self.spec_true_count(id)),
    {
        let ghost w = self.window_sketch@;
        let n = self.window_sketch.len();
        let mut i: usize = 0;
        let mut wc: u32 = 0;
        let mut seen: bool = false;
        while i < n && !seen
            invariant
                i <= n,
                n == w.len(),
                self.window_sketch@ == w,
                self.wf(),
                !seen ==> wc == 0 && forall|j: int| 0 <= j < i ==> w[j].0 != id,
                seen ==> i < n && w[i as int].0 == id && wc == w[i as int].1,
            decreases n - i + (if seen {
                0int
            } else {
                1int
            }),
        {
            if self.window_sketch[i].0 == id {
                wc = self.window_sketch[i].1;
                seen = true;
            } else {
                i = i + 1;
            }
        }
        proof {
            if seen {
                let a = choose|a: int| 0 <= a < w.len() && w[a].0 == id;
                assert(a == i);
            } else {
                assert(!window_has(w, id));
            }
        }
        let kb = id.to_bytes();
        let pg = self.permanent_sketch.get(kb.as_slice());
        let r = crate::entries::sat_add_exec(wc, pg);
        proof {
            let tw = window_count(w, id);
            let tp = count_of(self.permanent_sketch.truth@, id.spec_bytes());
            assert(pg >= clip_u32(tp));
            assert(tw == wc);
            assert(tp >= 0);
            assert(r >= clip_u32(tw + tp));
        }
        r
    }

    /// The number of distinct flows in the current window.
    pub fn len(&self) -> (r: usize)
        ensures
            r == self.window_sketch@.len(),
    {
        self.window_sketch.len()
    }

    /// The number of window entries accounted for; equal to the number of
    /// stored flows, since the window grows one entry per fresh flow.
    pub fn capacity(&self) -> (r: usize)
        ensures
            r == self.window_sketch@.len(),
    {
        self.window_sketch.len()
    }

    /// The permanent sketch's byte estimate.
    pub fn estimate_permanent_memory_size(&self) -> (r: usize)
        requires
            self.wf(),
        ensures
            r as int == (if self.permanent_sketch.k_num * self.permanent_sketch.width * 4
                <= usize::MAX {
                self.permanent_sketch.k_num * self.permanent_sketch.width * 4
            } else {
                usize::MAX as int
            }),
    {
        self.permanent_sketch.estimate_memory_size()
    }
}

/// The sum of window counts dominates each single count.
pub proof fn lemma_window_sum_ge_entry(s: Seq<(FlowId, u32)>, i: int)
    requires
        0 <= i < s.len(),
    ensures
        s[i].1 <= window_sum(s),
    decreases s.len(),
{
    if i < s.len() - 1 {
        lemma_window_sum_ge_entry(s.drop_last(), i);
    } else {
        lemma_window_sum_nonneg(s.drop_last());
    }
}

/// Window sums are never negative.
pub proof fn lemma_window_sum_nonneg(s: Seq<(FlowId, u32)>)
    ensures
        0 <= window_sum(s),
    decreases s.len(),
{
    if s.len() > 0 {
        lemma_window_sum_nonneg(s.drop_last());
    }
}

/// Overwriting window entry `i` shifts the sum by the difference of
/// counts.
pub proof fn lemma_window_sum_update(s: Seq<(FlowId, u32)>, i: int, e: (FlowId, u32))
    requires
        0 <= i < s.len(),
    ensures
        window_sum(s.update(i, e)) == window_sum(s) - s[i].1 + e.1,
    decreases s.len(),
{
    if i == s.len() - 1 {
        assert(s.update(i, e).drop_last() =~= s.drop_last());
        assert(s.update(i, e).last() == e);
    } else {
        assert(s.update(i, e).drop_last() =~= s.drop_last().update(i, e));
        assert(s.update(i, e).last() == s.last());
        lemma_window_sum_update(s.drop_last(), i, e);
    }
}

} // verus!
