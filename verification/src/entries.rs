//! Shared modelling of association-list counter storage: saturating
//! arithmetic on counters, lookup of a key's entry, and distinctness of the
//! stored keys.
use vstd::prelude::*;

verus! {

/// `a + b` capped at the largest `u32`.
pub open spec fn sat_add_u32(a: u32, b: u32) -> u32 {
    if a + b > u32::MAX {
        u32::MAX
    } else {
        (a + b) as u32
    }
}

/// `a * b` capped at the largest `u32`.
pub open spec fn sat_mul_u32(a: u32, b: u32) -> u32 {
    if a * b > u32::MAX {
        u32::MAX
    } else {
        (a * b) as u32
    }
}

/// Executable saturating multiplication, matching `sat_mul_u32`.
pub fn sat_mul_exec(a: u32, b: u32) -> (r: u32)
    ensures
        r == sat_mul_u32(a, b),
{
    match a.checked_mul(b) {
        Some(c) => c,
        None => u32::MAX,
    }
}

/// Saturating multiplication is monotone in its first argument.
pub proof fn lemma_sat_mul_monotone(a: u32, b: u32, f: u32)
    requires
        a <= b,
    ensures
        sat_mul_u32(a, f) <= sat_mul_u32(b, f),
{
    assert(a * f <= b * f) by (nonlinear_arith)
        requires
            a <= b,
            0 <= f,
    ;
}

/// Executable saturating addition, matching `sat_add_u32`.
pub fn sat_add_exec(a: u32, b: u32) -> (r: u32)
    ensures
        r == sat_add_u32(a, b),
{
    match a.checked_add(b) {
        Some(c) => c,
        None => u32::MAX,
    }
}

/// Scaling by a factor of at least one never shrinks a counter.
pub proof fn lemma_sat_mul_ge(a: u32, f: u32)
    requires
        f >= 1,
    ensures
        sat_mul_u32(a, f) >= a,
{
    assert(a * f >= a * 1) by (nonlinear_arith)
        requires
            f >= 1,
            a >= 0,
    ;
}

/// A counter dominating a capped count keeps dominating it after both grow
/// by the same amount, the counter saturating and the count capped.
pub proof fn lemma_sat_add_dominates(c0: u32, t: int, v: u32)
    requires
        clip_u32(t) <= c0,
        t >= 0,
    ensures
        clip_u32(t + v) <= sat_add_u32(c0, v),
{
}

/// Whether some entry of `s` holds `key`.
pub open spec fn entries_has(s: Seq<(Vec<u8>, u32)>, key: Seq<u8>) -> bool {
    exists|i: int| 0 <= i < s.len() && s[i].0@ == key
}

/// The counter stored for `key`, if any.  Meaningful when the keys of `s`
/// are distinct.
pub open spec fn entries_stored(s: Seq<(Vec<u8>, u32)>, key: Seq<u8>) -> Option<u32> {
    if entries_has(s, key) {
        let i = choose|i: int| 0 <= i < s.len() && s[i].0@ == key;
        Some(s[i].1)
    } else {
        None
    }
}

/// The index of the first entry holding `id`, if any.
#[verifier::loop_isolation(false)]
pub fn find_entry(entries: &Vec<(Vec<u8>, u32)>, id: &[u8]) -> (r: Option<usize>)
    ensures
        match r {
            Some(i) => {
                &&& i < entries@.len()
                &&& entries@[i as int].0@ == id@
                &&& forall|j: int| 0 <= j < i ==> entries@[j].0@ != id@
            },
            None => !entries_has(entries@, id@),
        },
{
    let n = entries.len();
    let mut i: usize = 0;
    while i < n
        invariant
            i <= n,
            forall|j: int| 0 <= j < i ==> entries@[j].0@ != id@,
        decreases n - i,
    {
        if crate::bytes_eq(entries[i].0.as_slice(), id) {
            return Some(i);
        }
        i = i + 1;
    }
    None
}

/// No two entries of `s` hold the same key.
pub open spec fn entries_distinct(s: Seq<(Vec<u8>, u32)>) -> bool {
    forall|i: int, j: int| 0 <= i < j < s.len() ==> s[i].0@ != s[j].0@
}

/// The scaled query value over raw entries: stored counter times factor, or
/// zero.
pub open spec fn stored_scaled(s: Seq<(Vec<u8>, u32)>, key: Seq<u8>, factor: u32) -> u32 {
    match entries_stored(s, key) {
        Some(v) => sat_mul_u32(v, factor),
        None => 0,
    }
}


/// The exact arrival count that a ghost truth map records for `k` (zero for
/// keys never seen).
pub open spec fn count_of(m: Map<Seq<u8>, int>, k: Seq<u8>) -> int {
    if m.dom().contains(k) {
        m[k]
    } else {
        0
    }
}

/// `x` capped at the largest `u32`, as a mathematical integer.
pub open spec fn clip_u32(x: int) -> int {
    if x > u32::MAX {
        u32::MAX as int
    } else {
        x
    }
}

/// The sum of all stored counters.
pub open spec fn sum_vals(s: Seq<(Vec<u8>, u32)>) -> int
    decreases s.len(),
{
    if s.len() == 0 {
        0
    } else {
        sum_vals(s.drop_last()) + s.last().1
    }
}

/// The smallest stored counter (zero for an empty list).
pub open spec fn min_val(s: Seq<(Vec<u8>, u32)>) -> int
    decreases s.len(),
{
    if s.len() == 0 {
        0
    } else if s.len() == 1 {
        s[0].1 as int
    } else {
        let m = min_val(s.drop_last());
        if s.last().1 < m {
            s.last().1 as int
        } else {
            m
        }
    }
}

/// Appending an entry adds its counter to the sum.
pub proof fn lemma_sum_push(s: Seq<(Vec<u8>, u32)>, e: (Vec<u8>, u32))
    ensures
        sum_vals(s.push(e)) == sum_vals(s) + e.1,
{
    assert(s.push(e).drop_last() =~= s);
}

/// Overwriting entry `i` shifts the sum by the difference of counters.
pub proof fn lemma_sum_update(s: Seq<(Vec<u8>, u32)>, i: int, e: (Vec<u8>, u32))
    requires
        0 <= i < s.len(),
    ensures
        sum_vals(s.update(i, e)) == sum_vals(s) - s[i].1 + e.1,
    decreases s.len(),
{
    if i == s.len() - 1 {
        assert(s.update(i, e).drop_last() =~= s.drop_last());
        assert(s.update(i, e).last() == e);
    } else {
        assert(s.update(i, e).drop_last() =~= s.drop_last().update(i, e));
        assert(s.update(i, e).last() == s.last());
        lemma_sum_update(s.drop_last(), i, e);
    }
}

/// Removing entry `i` subtracts its counter from the sum.
pub proof fn lemma_sum_remove(s: Seq<(Vec<u8>, u32)>, i: int)
    requires
        0 <= i < s.len(),
    ensures
        sum_vals(s.remove(i)) == sum_vals(s) - s[i].1,
    decreases s.len(),
{
    if i == s.len() - 1 {
        assert(s.remove(i) =~= s.drop_last());
    } else {
        assert(s.remove(i).drop_last() =~= s.drop_last().remove(i));
        assert(s.remove(i).last() == s.last());
        lemma_sum_remove(s.drop_last(), i);
    }
}

/// The minimum is no larger than any stored counter.
pub proof fn lemma_min_le_all(s: Seq<(Vec<u8>, u32)>, i: int)
    requires
        0 <= i < s.len(),
    ensures
        min_val(s) <= s[i].1,
    decreases s.len(),
{
    if s.len() > 1 && i < s.len() - 1 {
        lemma_min_le_all(s.drop_last(), i);
    }
}

/// A lower bound on every counter bounds the minimum.
pub proof fn lemma_min_ge(s: Seq<(Vec<u8>, u32)>, b: int)
    requires
        s.len() > 0,
        forall|i: int| 0 <= i < s.len() ==> b <= (#[trigger] s[i].1),
    ensures
        b <= min_val(s),
    decreases s.len(),
{
    if s.len() > 1 {
        lemma_min_ge(s.drop_last(), b);
    }
}

/// The minimum times the number of entries is at most the sum of counters.
pub proof fn lemma_min_times_len_le_sum(s: Seq<(Vec<u8>, u32)>)
    ensures
        min_val(s) * s.len() <= sum_vals(s),
    decreases s.len(),
{
    if s.len() == 0 {
    } else if s.len() == 1 {
        assert(s.drop_last().len() == 0);
        assert(sum_vals(s.drop_last()) == 0);
        assert(sum_vals(s) == s.last().1);
        assert(s.last() == s[0]);
        assert(min_val(s) * s.len() == s[0].1) by (nonlinear_arith)
            requires
                s.len() == 1,
                min_val(s) == s[0].1,
        ;
    } else {
        let d = s.drop_last();
        lemma_min_times_len_le_sum(d);
        let m = min_val(s);
        let md = min_val(d);
        let n = s.len() as int;
        let dn = d.len() as int;
        assert(m <= md);
        assert(m * dn <= md * dn) by (nonlinear_arith)
            requires
                m <= md,
                dn >= 0,
        ;
        assert(md * dn <= sum_vals(d));
        assert(m <= s.last().1);
        assert(m * n == m * dn + m) by (nonlinear_arith)
            requires
                n == dn + 1,
        ;
        assert(sum_vals(s) == sum_vals(d) + s.last().1);
        assert(m * n <= sum_vals(s));
    }
}

/// The index of an entry holding the smallest counter.
#[verifier::loop_isolation(false)]
pub fn find_min_index(entries: &Vec<(Vec<u8>, u32)>) -> (r: usize)
    requires
        entries@.len() > 0,
    ensures
        r < entries@.len(),
        entries@[r as int].1 == min_val(entries@),
{
    let n = entries.len();
    let mut best: usize = 0;
    let mut i: usize = 1;
    proof {
        assert(entries@.take(1) =~= seq![entries@[0]]);
    }
    while i < n
        invariant
            1 <= i <= n,
            best < i,
            entries@[best as int].1 == min_val(entries@.take(i as int)),
        decreases n - i,
    {
        proof {
            assert(entries@.take(i + 1).drop_last() =~= entries@.take(i as int));
            assert(entries@.take(i + 1).last() == entries@[i as int]);
        }
        if entries[i].1 < entries[best].1 {
            best = i;
        }
        i = i + 1;
    }
    proof {
        assert(entries@.take(n as int) =~= entries@);
    }
    best
}

} // verus!
