//! The mathematical model of the bitonic sorting network.
//!
//! A stage of height `h` splits the sequence into aligned blocks of `h`
//! elements and pairs each element of the lower half of a block with one of
//! the upper half: mirrored about the centre for a flip, at distance `h / 2`
//! for a disperse. Every pair is compare-exchanged, so the lower element ends
//! with the minimum and the upper one with the maximum. Pairs are disjoint,
//! so a stage is described position by position; lane `g` of a stage handles
//! the pair `(pair_lo(g, h), pair_hi(g, h, flip))`.
use vstd::prelude::*;
use vstd::arithmetic::div_mod::lemma_fundamental_div_mod_converse;
use vstd::arithmetic::div_mod::lemma_fundamental_div_mod;
use crate::pow2::{is_pow2, lemma_pow2_half};

verus! {

/// `s` in non-decreasing order.
pub open spec fn sorted(s: Seq<u32>) -> bool {
    forall|i: int, j: int| 0 <= i < j < s.len() ==> s[i] <= s[j]
}

pub open spec fn min_u32(a: u32, b: u32) -> u32 {
    if a <= b { a } else { b }
}

pub open spec fn max_u32(a: u32, b: u32) -> u32 {
    if a <= b { b } else { a }
}

/// Compare-exchange of positions `a` and `b`: swap when `s[a] > s[b]`.
pub open spec fn compare_exchange(s: Seq<u32>, a: int, b: int) -> Seq<u32> {
    if s[a] > s[b] {
        s.update(a, s[b]).update(b, s[a])
    } else {
        s
    }
}

/// Whether position `i` lies in the lower half of its block of height `h`.
pub open spec fn is_lower(i: int, h: int) -> bool {
    i % h < h / 2
}

/// The position that `i` is compared with by a flip (`flip`) or a disperse
/// of height `h`.
pub open spec fn partner(i: int, h: int, flip: bool) -> int {
    if flip {
        (i - i % h) + h - 1 - i % h
    } else if is_lower(i, h) {
        i + h / 2
    } else {
        i - h / 2
    }
}

/// The lane that handles position `i`.
pub open spec fn lane_of(i: int, h: int, flip: bool) -> int {
    let r = i % h;
    (i / h) * (h / 2) + if r < h / 2 {
        r
    } else if flip {
        h - 1 - r
    } else {
        r - h / 2
    }
}

/// The lower position of the pair of lane `g`.
pub open spec fn pair_lo(g: int, h: int) -> int {
    (g / (h / 2)) * h + g % (h / 2)
}

/// The upper position of the pair of lane `g`.
pub open spec fn pair_hi(g: int, h: int, flip: bool) -> int {
    if flip {
        (g / (h / 2)) * h + h - 1 - g % (h / 2)
    } else {
        pair_lo(g, h) + h / 2
    }
}

/// The sequence after one stage of height `h` (a flip when `flip`, else a
/// disperse).
pub open spec fn stage(s: Seq<u32>, h: int, flip: bool) -> Seq<u32> {
    Seq::new(
        s.len(),
        |i: int|
            if is_lower(i, h) {
                min_u32(s[i], s[partner(i, h, flip)])
            } else {
                max_u32(s[i], s[partner(i, h, flip)])
            },
    )
}

/// The sequence after the lanes below `g` of a stage have run.
pub open spec fn stage_partial(s: Seq<u32>, h: int, flip: bool, g: int) -> Seq<u32> {
    Seq::new(
        s.len(),
        |i: int|
            if lane_of(i, h, flip) < g {
                stage(s, h, flip)[i]
            } else {
                s[i]
            },
    )
}

/// Disperse stages of heights `k`, `k / 2`, ..., 2, in that order.
pub open spec fn disperse_down(s: Seq<u32>, k: int) -> Seq<u32>
    decreases k,
{
    if k < 2 {
        s
    } else {
        disperse_down(stage(s, k, false), k / 2)
    }
}

/// One merge phase of height `h`: a flip of height `h`, then disperses from
/// `h / 2` down to 2.
pub open spec fn merge_phase(s: Seq<u32>, h: int) -> Seq<u32> {
    disperse_down(stage(s, h, true), h / 2)
}

/// The bitonic network of span `h`: merge phases of heights 2, 4, ..., `h`.
/// It sorts each aligned block of `h` elements.
pub open spec fn network(s: Seq<u32>, h: int) -> Seq<u32>
    decreases h,
{
    if h < 2 {
        s
    } else {
        merge_phase(network(s, h / 2), h / 2 * 2)
    }
}

/// Where lane `g` of a stage of height `h` acts, for a sequence of `n`
/// elements: two distinct positions of one block, the lower one in the lower
/// half, each the other's partner, both handled by lane `g`.
pub proof fn lemma_lane_pair(g: int, h: int, n: int, flip: bool)
    requires
        is_pow2(h),
        2 <= h,
        n % h == 0,
        0 <= g,
        2 * g < n,
    ensures
        0 <= pair_lo(g, h) < pair_hi(g, h, flip) < n,
        is_lower(pair_lo(g, h), h),
        !is_lower(pair_hi(g, h, flip), h),
        partner(pair_lo(g, h), h, flip) == pair_hi(g, h, flip),
        partner(pair_hi(g, h, flip), h, flip) == pair_lo(g, h),
        lane_of(pair_lo(g, h), h, flip) == g,
        lane_of(pair_hi(g, h, flip), h, flip) == g,
        (g / (h / 2)) * h + h <= n,
{
    lemma_pow2_half(h);
    let hh = h / 2;
    let blk = g / hh;
    let j = g % hh;
    lemma_fundamental_div_mod(g, hh);
    lemma_fundamental_div_mod(n, h);
    let nb = n / h;
    assert(blk < nb) by (nonlinear_arith)
        requires
            g == hh * blk + j,
            0 <= j,
            2 * g < n,
            n == h * nb,
            h == 2 * hh,
            hh > 0,
    ;
    assert(blk * h + h <= n) by (nonlinear_arith)
        requires
            blk < nb,
            n == h * nb,
            h > 0,
    ;
    assert(0 <= blk * h) by (nonlinear_arith)
        requires
            0 <= blk,
            h > 0,
    ;
    let lo = pair_lo(g, h);
    let hi = pair_hi(g, h, flip);
    lemma_fundamental_div_mod_converse(lo, h, blk, j);
    if flip {
        lemma_fundamental_div_mod_converse(hi, h, blk, h - 1 - j);
    } else {
        lemma_fundamental_div_mod_converse(hi, h, blk, j + hh);
    }
    assert(blk * hh + j == g) by (nonlinear_arith)
        requires
            g == hh * blk + j,
    ;
}

/// A position is one of the two of the lane that handles it.
pub proof fn lemma_lane_of(i: int, h: int, flip: bool)
    requires
        is_pow2(h),
        2 <= h,
        0 <= i,
    ensures
        lane_of(i, h, flip) >= 0,
        i == pair_lo(lane_of(i, h, flip), h) || i == pair_hi(lane_of(i, h, flip), h, flip),
        is_lower(i, h) ==> i == pair_lo(lane_of(i, h, flip), h),
        !is_lower(i, h) ==> i == pair_hi(lane_of(i, h, flip), h, flip),
{
    lemma_pow2_half(h);
    let hh = h / 2;
    let r = i % h;
    let blk = i / h;
    lemma_fundamental_div_mod(i, h);
    let j = if r < hh {
        r
    } else if flip {
        h - 1 - r
    } else {
        r - hh
    };
    let g = lane_of(i, h, flip);
    assert(g == blk * hh + j);
    assert(0 <= blk * hh) by (nonlinear_arith)
        requires
            0 <= blk,
            hh > 0,
    ;
    lemma_fundamental_div_mod_converse(g, hh, blk, j);
    assert(i == blk * h + r) by (nonlinear_arith)
        requires
            i == h * blk + r,
    ;
}

/// Lanes of a stage on `n` elements number `n / 2`.
pub proof fn lemma_lane_bound(i: int, h: int, n: int, flip: bool)
    requires
        is_pow2(h),
        2 <= h,
        n % h == 0,
        0 <= i < n,
    ensures
        2 * lane_of(i, h, flip) < n,
        lane_of(i, h, flip) < n / 2,
{
    lemma_pow2_half(h);
    let hh = h / 2;
    let r = i % h;
    let blk = i / h;
    lemma_fundamental_div_mod(i, h);
    lemma_fundamental_div_mod(n, h);
    let nb = n / h;
    assert(blk < nb) by (nonlinear_arith)
        requires
            i == h * blk + r,
            0 <= r,
            i < n,
            n == h * nb,
            h > 0,
    ;
    let j = lane_of(i, h, flip) - blk * hh;
    assert(2 * (blk * hh + j) < n) by (nonlinear_arith)
        requires
            blk < nb,
            n == h * nb,
            h == 2 * hh,
            0 <= j < hh,
    ;
    assert(n == 2 * (hh * nb)) by (nonlinear_arith)
        requires
            n == h * nb,
            h == 2 * hh,
    ;
    lemma_fundamental_div_mod_converse(n, 2, hh * nb, 0);
}

/// Running lane `g` takes a stage from `g` lanes done to `g + 1` lanes done.
pub proof fn lemma_stage_step(s: Seq<u32>, h: int, flip: bool, g: int)
    requires
        is_pow2(h),
        2 <= h,
        s.len() as int % h == 0,
        0 <= g,
        2 * g < s.len(),
    ensures
        0 <= pair_lo(g, h) < pair_hi(g, h, flip) < s.len(),
        (g / (h / 2)) * h + h <= s.len(),
        compare_exchange(stage_partial(s, h, flip, g), pair_lo(g, h), pair_hi(g, h, flip))
            == stage_partial(s, h, flip, g + 1),
{
    lemma_lane_pair(g, h, s.len() as int, flip);
    let a = pair_lo(g, h);
    let b = pair_hi(g, h, flip);
    let p = stage_partial(s, h, flip, g);
    let c = compare_exchange(p, a, b);
    let q = stage_partial(s, h, flip, g + 1);
    assert forall|i: int| 0 <= i < s.len() implies c[i] == q[i] by {
        lemma_lane_of(i, h, flip);
    }
    assert(c =~= q);
}

/// No lane done leaves the sequence as it was; all `n / 2` done give the stage.
pub proof fn lemma_stage_ends(s: Seq<u32>, h: int, flip: bool)
    requires
        is_pow2(h),
        2 <= h,
        s.len() as int % h == 0,
    ensures
        stage_partial(s, h, flip, 0) == s,
        stage_partial(s, h, flip, s.len() as int / 2) == stage(s, h, flip),
{
    assert forall|i: int| 0 <= i < s.len() implies lane_of(i, h, flip) >= 0
        && lane_of(i, h, flip) < s.len() as int / 2 by {
        lemma_lane_of(i, h, flip);
        lemma_lane_bound(i, h, s.len() as int, flip);
    }
    assert(stage_partial(s, h, flip, 0) =~= s);
    assert(stage_partial(s, h, flip, s.len() as int / 2) =~= stage(s, h, flip));
}

/// Disperses keep the length.
pub proof fn lemma_disperse_down_len(s: Seq<u32>, k: int)
    ensures
        disperse_down(s, k).len() == s.len(),
    decreases k,
{
    if k >= 2 {
        lemma_disperse_down_len(stage(s, k, false), k / 2);
    }
}

/// The network keeps the length.
pub proof fn lemma_network_len(s: Seq<u32>, h: int)
    ensures
        network(s, h).len() == s.len(),
    decreases h,
{
    if h >= 2 {
        lemma_network_len(s, h / 2);
        lemma_disperse_down_len(stage(network(s, h / 2), h / 2 * 2, true), h / 2 * 2 / 2);
    }
}

/// A compare-exchange keeps the elements, as a multiset.
pub proof fn lemma_compare_exchange_permutes(s: Seq<u32>, a: int, b: int)
    requires
        0 <= a < s.len(),
        0 <= b < s.len(),
        a != b,
    ensures
        compare_exchange(s, a, b).to_multiset() == s.to_multiset(),
{
    broadcast use vstd::seq_lib::to_multiset_update, vstd::seq_lib::to_multiset_contains,
        vstd::multiset::group_multiset_axioms, vstd::multiset::group_multiset_properties;

    if s[a] > s[b] {
        let m = s.to_multiset();
        let s1 = s.update(a, s[b]);
        assert(s1[b] == s[b]);
        assert(s.contains(s[a]));
        assert(m.count(s[a]) > 0);
        let m1 = m.insert(s[b]).remove(s[a]);
        assert(s1.to_multiset() == m1);
        let m2 = m1.insert(s[a]).remove(s[b]);
        assert(s1.update(b, s[a]).to_multiset() == m2);
        assert forall|x: u32| m2.count(x) == m.count(x) by {}
        assert(m2 =~= m);
    }
}

proof fn lemma_stage_partial_permutes(s: Seq<u32>, h: int, flip: bool, g: int)
    requires
        is_pow2(h),
        2 <= h,
        s.len() as int % h == 0,
        0 <= g <= s.len() as int / 2,
    ensures
        stage_partial(s, h, flip, g).to_multiset() == s.to_multiset(),
    decreases g,
{
    if g == 0 {
        lemma_stage_ends(s, h, flip);
    } else {
        lemma_stage_partial_permutes(s, h, flip, g - 1);
        lemma_stage_step(s, h, flip, g - 1);
        lemma_compare_exchange_permutes(
            stage_partial(s, h, flip, g - 1),
            pair_lo(g - 1, h),
            pair_hi(g - 1, h, flip),
        );
    }
}

/// A stage keeps the elements, as a multiset.
pub proof fn lemma_stage_permutes(s: Seq<u32>, h: int, flip: bool)
    requires
        is_pow2(h),
        2 <= h,
        s.len() as int % h == 0,
    ensures
        stage(s, h, flip).to_multiset() == s.to_multiset(),
{
    lemma_stage_ends(s, h, flip);
    lemma_stage_partial_permutes(s, h, flip, s.len() as int / 2);
}

proof fn lemma_divides_half(n: int, h: int)
    requires
        is_pow2(h),
        2 <= h,
        n % h == 0,
    ensures
        n % (h / 2) == 0,
{
    lemma_pow2_half(h);
    vstd::arithmetic::div_mod::lemma_fundamental_div_mod(n, h);
    assert(n == (2 * (n / h)) * (h / 2)) by (nonlinear_arith)
        requires
            n == h * (n / h) + 0,
            h == 2 * (h / 2),
    ;
    lemma_fundamental_div_mod_converse(n, h / 2, 2 * (n / h), 0);
}

proof fn lemma_disperse_down_permutes(s: Seq<u32>, k: int)
    requires
        is_pow2(k),
        s.len() as int % k == 0,
    ensures
        disperse_down(s, k).to_multiset() == s.to_multiset(),
    decreases k,
{
    if k >= 2 {
        lemma_stage_permutes(s, k, false);
        lemma_divides_half(s.len() as int, k);
        lemma_pow2_half(k);
        lemma_disperse_down_permutes(stage(s, k, false), k / 2);
    }
}

/// The network keeps the elements, as a multiset.
pub proof fn lemma_network_permutes(s: Seq<u32>, h: int)
    requires
        is_pow2(h),
        s.len() as int % h == 0,
    ensures
        network(s, h).to_multiset() == s.to_multiset(),
    decreases h,
{
    if h >= 2 {
        lemma_pow2_half(h);
        lemma_divides_half(s.len() as int, h);
        lemma_network_permutes(s, h / 2);
        let t = network(s, h / 2);
        lemma_network_len(s, h / 2);
        lemma_stage_permutes(t, h, true);
        lemma_disperse_down_permutes(stage(t, h, true), h / 2);
    }
}

} // verus!
