//! Influence keys: order statistics and halving.
//!
//! A message's influence is a number (never NaN); it is carried as its
//! *influence key*, an unsigned integer made from its IEEE-754
//! double-precision bit pattern `b`: `2^63 + b` for a number whose sign bit is
//! clear, and `2^64 - b` for one whose sign bit is set. Both zeros get the key
//! `2^63`. The order of keys is the order of the numbers, and equal keys stand
//! for equal numbers, so comparisons are made on keys. Halving a number is
//! `half_key` on its key.

use vstd::prelude::*;

verus! {

/// The number of keys in `s` below `v`.
pub open spec fn count_below(s: Seq<u64>, v: u64) -> nat
    decreases s.len(),
{
    if s.len() == 0 {
        0
    } else {
        count_below(s.drop_last(), v) + if s.last() < v {
            1nat
        } else {
            0nat
        }
    }
}

/// The number of keys in `s` at most `v`.
pub open spec fn count_at_most(s: Seq<u64>, v: u64) -> nat
    decreases s.len(),
{
    if s.len() == 0 {
        0
    } else {
        count_at_most(s.drop_last(), v) + if s.last() <= v {
            1nat
        } else {
            0nat
        }
    }
}

/// `v` is the key at position `k` of `s` sorted in ascending order.
pub open spec fn is_kth_smallest(s: Seq<u64>, k: int, v: u64) -> bool {
    &&& s.contains(v)
    &&& count_below(s, v) <= k
    &&& k < count_at_most(s, v)
}

/// Keys in ascending order.
pub open spec fn is_sorted(s: Seq<u64>) -> bool {
    forall|i: int, j: int| 0 <= i <= j < s.len() ==> s[i] <= s[j]
}

/// The key of the number zero.
pub open spec fn zero_key() -> u64 {
    0x8000_0000_0000_0000
}

/// The bit pattern of half the non-negative number whose bit pattern is `m`,
/// rounded to nearest, ties to even, as IEEE-754 multiplication by 0.5 does.
/// Patterns from 2^53 on have a normal half (the exponent drops by one);
/// below that the half is subnormal and the pattern counts units of the
/// smallest subnormal. The pattern of infinity (and any above it) is left as
/// it is.
pub open spec fn half_magnitude(m: u64) -> u64 {
    if m >= 0x7ff0_0000_0000_0000 {
        m
    } else if m >= 0x0020_0000_0000_0000 {
        (m - 0x0010_0000_0000_0000) as u64
    } else if m % 2 == 1 && (m / 2) % 2 == 1 {
        (m / 2 + 1) as u64
    } else {
        (m / 2) as u64
    }
}

/// The key of half the number whose key is `k`. Halving a negative number
/// halves its magnitude and keeps its sign.
pub open spec fn half_key(k: u64) -> u64 {
    if k >= zero_key() {
        (zero_key() + half_magnitude((k - zero_key()) as u64)) as u64
    } else {
        (zero_key() - half_magnitude((zero_key() - k) as u64)) as u64
    }
}

fn half_magnitude_of(m: u64) -> (res: u64)
    ensures
        res == half_magnitude(m),
{
    if m >= 0x7ff0_0000_0000_0000 {
        m
    } else if m >= 0x0020_0000_0000_0000 {
        m - 0x0010_0000_0000_0000
    } else if m % 2 == 1 && (m / 2) % 2 == 1 {
        m / 2 + 1
    } else {
        m / 2
    }
}

/// The key of half the number whose key is `key`.
pub fn half_influence_key(key: u64) -> (res: u64)
    ensures
        res == half_key(key),
{
    let zero: u64 = 0x8000_0000_0000_0000;
    if key >= zero {
        let h = half_magnitude_of(key - zero);
        assert(h <= key - zero);
        zero + h
    } else {
        let h = half_magnitude_of(zero - key);
        assert(h <= zero - key);
        zero - h
    }
}

/// Halving keeps the order of numbers, and moves a number towards zero
/// without passing it: a non-negative number does not grow, a negative one
/// does not shrink.
pub proof fn law_half_key_monotone(a: u64, b: u64)
    requires
        a <= b,
    ensures
        half_key(a) <= half_key(b),
        a >= zero_key() ==> zero_key() <= half_key(a) <= a,
        a <= zero_key() ==> a <= half_key(a) <= zero_key(),
{
}

// ── Lemmas on counts ─────────────────────────────────────────────────

proof fn lemma_counts_append(a: Seq<u64>, b: Seq<u64>, v: u64)
    ensures
        count_below(a + b, v) == count_below(a, v) + count_below(b, v),
        count_at_most(a + b, v) == count_at_most(a, v) + count_at_most(b, v),
    decreases b.len(),
{
    if b.len() == 0 {
        assert(a + b =~= a);
    } else {
        lemma_counts_append(a, b.drop_last(), v);
        assert((a + b).drop_last() =~= a + b.drop_last());
    }
}

proof fn lemma_counts_bound(s: Seq<u64>, v: u64)
    ensures
        count_below(s, v) <= count_at_most(s, v) <= s.len(),
    decreases s.len(),
{
    if s.len() > 0 {
        lemma_counts_bound(s.drop_last(), v);
    }
}

proof fn lemma_counts_all_below(s: Seq<u64>, v: u64)
    requires
        forall|i: int| 0 <= i < s.len() ==> s[i] <= v,
    ensures
        count_at_most(s, v) == s.len(),
    decreases s.len(),
{
    if s.len() > 0 {
        lemma_counts_all_below(s.drop_last(), v);
    }
}

proof fn lemma_counts_none_below(s: Seq<u64>, v: u64)
    requires
        forall|i: int| 0 <= i < s.len() ==> v <= s[i],
    ensures
        count_below(s, v) == 0,
    decreases s.len(),
{
    if s.len() > 0 {
        lemma_counts_none_below(s.drop_last(), v);
    }
}

proof fn lemma_count_contains(s: Seq<u64>, v: u64)
    requires
        count_below(s, v) < count_at_most(s, v),
    ensures
        s.contains(v),
    decreases s.len(),
{
    lemma_counts_bound(s.drop_last(), v);
    if s.last() == v {
        assert(s[s.len() - 1] == v);
    } else {
        lemma_count_contains(s.drop_last(), v);
        let i = choose|i: int| 0 <= i < s.drop_last().len() && s.drop_last()[i] == v;
        assert(s[i] == v);
    }
}

proof fn lemma_counts_monotone(s: Seq<u64>, v: u64, w: u64)
    requires
        v < w,
    ensures
        count_at_most(s, v) <= count_below(s, w),
    decreases s.len(),
{
    if s.len() > 0 {
        lemma_counts_monotone(s.drop_last(), v, w);
    }
}

/// The key at a position of a sorted sequence of keys is unique: a position
/// determines the key there.
pub proof fn lemma_kth_smallest_unique(s: Seq<u64>, k: int, v: u64, w: u64)
    requires
        is_kth_smallest(s, k, v),
        is_kth_smallest(s, k, w),
    ensures
        v == w,
{
    if v < w {
        lemma_counts_monotone(s, v, w);
    } else if w < v {
        lemma_counts_monotone(s, w, v);
    }
}

/// In a sorted sequence, the key at position `k` is the `k`-th smallest.
proof fn lemma_sorted_kth(t: Seq<u64>, k: int)
    requires
        is_sorted(t),
        0 <= k < t.len(),
    ensures
        is_kth_smallest(t, k, t[k]),
{
    let v = t[k];
    let lo = t.take(k);
    let mid = t.subrange(k, k + 1);
    let hi = t.skip(k + 1);
    assert(t =~= lo + mid + hi);
    lemma_counts_append(lo + mid, hi, v);
    lemma_counts_append(lo, mid, v);
    lemma_counts_bound(lo, v);
    lemma_counts_bound(hi, v);
    lemma_counts_all_below(lo, v);
    lemma_counts_none_below(hi, v);
    assert(mid.drop_last() =~= Seq::<u64>::empty());
    assert(mid.last() == v);
    assert(count_below(mid.drop_last(), v) == 0);
    assert(count_at_most(mid.drop_last(), v) == 0);
    assert(count_below(mid, v) == 0);
    assert(count_at_most(mid, v) == 1);
    assert(t[k] == v);
    assert(t.contains(v));
}

// ── Sorting and selection ────────────────────────────────────────────

/// The keys in ascending order.
pub fn sorted_keys(keys: &Vec<u64>) -> (res: Vec<u64>)
    ensures
        is_sorted(res@),
        res@.len() == keys@.len(),
        forall|v: u64| #[trigger] count_below(res@, v) == count_below(keys@, v),
        forall|v: u64| #[trigger] count_at_most(res@, v) == count_at_most(keys@, v),
{
    let mut res: Vec<u64> = Vec::new();
    let mut i: usize = 0;
    while i < keys.len()
        invariant
            i <= keys.len(),
            is_sorted(res@),
            res@.len() == i,
            forall|v: u64| #[trigger] count_below(res@, v) == count_below(keys@.take(i as int), v),
            forall|v: u64|
                #[trigger] count_at_most(res@, v) == count_at_most(keys@.take(i as int), v),
        decreases keys.len() - i,
    {
        let x = keys[i];
        let mut p: usize = 0;
        while p < res.len() && res[p] <= x
            invariant
                p <= res.len(),
                forall|j: int| 0 <= j < p ==> res@[j] <= x,
            decreases res.len() - p,
        {
            p = p + 1;
        }
        let ghost old_res = res@;
        res.insert(p, x);
        proof {
            assert(res@ =~= old_res.take(p as int) + seq![x] + old_res.skip(p as int));
            assert(old_res =~= old_res.take(p as int) + old_res.skip(p as int));
            assert(keys@.take(i + 1) =~= keys@.take(i as int) + seq![x]);
            assert forall|v: u64|
                #[trigger] count_below(res@, v) == count_below(keys@.take(i + 1), v)
                    && count_at_most(res@, v) == count_at_most(keys@.take(i + 1), v) by {
                lemma_counts_append(old_res.take(p as int) + seq![x], old_res.skip(p as int), v);
                lemma_counts_append(old_res.take(p as int), seq![x], v);
                lemma_counts_append(old_res.take(p as int), old_res.skip(p as int), v);
                lemma_counts_append(keys@.take(i as int), seq![x], v);
                assert(seq![x].drop_last() =~= Seq::<u64>::empty());
                assert(count_below(old_res, v) == count_below(keys@.take(i as int), v));
                assert(count_at_most(old_res, v) == count_at_most(keys@.take(i as int), v));
            }
            assert forall|v: u64|
                #[trigger] count_at_most(res@, v) == count_at_most(keys@.take(i + 1), v) by {
                assert(count_below(res@, v) == count_below(keys@.take(i + 1), v));
            }
            assert forall|a: int, b: int| 0 <= a <= b < res@.len() implies res@[a] <= res@[b] by {
                if p < res@.len() - 1 && old_res[p as int] > x {
                }
            }
        }
        i = i + 1;
    }
    assert(keys@.take(keys.len() as int) =~= keys@);
    res
}

/// The key at position `k` of `keys` sorted in ascending order.
pub fn kth_smallest(keys: &Vec<u64>, k: usize) -> (res: u64)
    requires
        k < keys@.len(),
    ensures
        is_kth_smallest(keys@, k as int, res),
{
    let sorted = sorted_keys(keys);
    let v = sorted[k];
    proof {
        lemma_sorted_kth(sorted@, k as int);
        lemma_count_contains(keys@, v);
    }
    v
}

} // verus!
