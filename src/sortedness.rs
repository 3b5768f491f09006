//! Why the network sorts: the zero-one argument.
//!
//! Fix a threshold `v` and look only at which elements lie above it. A stage
//! commutes with that view (the minimum is above `v` when both are, the
//! maximum when either is), and a sequence is sorted when, for every `v`, no
//! element above `v` comes before one that is not. Within a block, the view
//! is described by an interval: the elements are `f` inside `[p, q)` and
//! `!f` outside it.
use vstd::prelude::*;
use vstd::arithmetic::div_mod::{
    lemma_fundamental_div_mod, lemma_fundamental_div_mod_converse, lemma_div_denominator,
};
use crate::pow2::{is_pow2, lemma_pow2_half, lemma_pow2_divides, lemma_pow2_quotient};
use crate::network::{sorted, stage, partner, disperse_down, network, lemma_network_len};

verus! {

/// Block content `x` of length `k` is `f` on `[p, q)` and `!f` elsewhere.
pub open spec fn interval_form(x: spec_fn(int) -> bool, k: int, p: int, q: int, f: bool) -> bool {
    &&& 0 <= p <= q <= k
    &&& forall|r: int| 0 <= r < k ==> #[trigger] x(r) == if p <= r && r < q {
        f
    } else {
        !f
    }
}

/// Block content of the zero-one bitonic shape: one interval of one value.
pub open spec fn bitonic01(x: spec_fn(int) -> bool, k: int) -> bool {
    exists|p: int, q: int, f: bool| interval_form(x, k, p, q, f)
}

/// Block content in which no `true` comes before a `false`.
pub open spec fn ordered01(x: spec_fn(int) -> bool, k: int) -> bool {
    forall|r1: int, r2: int| 0 <= r1 < r2 < k && #[trigger] x(r1) ==> #[trigger] x(r2)
}

/// Ordered content is `false` up to some point and `true` from there on.
proof fn lemma_ordered_threshold(x: spec_fn(int) -> bool, k: int) -> (a: int)
    requires
        0 <= k,
        ordered01(x, k),
    ensures
        interval_form(x, k, 0, a, false),
    decreases k,
{
    if k == 0 {
        0
    } else {
        let a0 = lemma_ordered_threshold(x, k - 1);
        if a0 < k - 1 {
            assert(x(a0));
            assert(x(k - 1));
            a0
        } else if x(k - 1) {
            k - 1
        } else {
            k
        }
    }
}

/// A compare-exchange of each `r` with `r + k / 2` on bitonic content gives
/// two bitonic halves, and either the lower half is all `false` or the upper
/// half is all `true`.
proof fn lemma_half_cleaner(
    x: spec_fn(int) -> bool,
    lo: spec_fn(int) -> bool,
    up: spec_fn(int) -> bool,
    hk: int,
)
    requires
        1 <= hk,
        bitonic01(x, 2 * hk),
        forall|r: int| 0 <= r < hk ==> #[trigger] lo(r) == (x(r) && x(r + hk)),
        forall|r: int| 0 <= r < hk ==> #[trigger] up(r) == (x(r) || x(r + hk)),
    ensures
        bitonic01(lo, hk),
        bitonic01(up, hk),
        (forall|r: int| 0 <= r < hk ==> !#[trigger] lo(r)) || (forall|r: int|
            0 <= r < hk ==> #[trigger] up(r)),
{
    let k = 2 * hk;
    let (p, q, f) = choose|p: int, q: int, f: bool| #[trigger] interval_form(x, k, p, q, f);
    assert forall|r: int| #![trigger lo(r)] #![trigger up(r)] 0 <= r < hk implies lo(r) == ((if p <= r && r < q {
        f
    } else {
        !f
    }) && (if p <= r + hk && r + hk < q {
        f
    } else {
        !f
    })) && up(r) == ((if p <= r && r < q {
        f
    } else {
        !f
    }) || (if p <= r + hk && r + hk < q {
        f
    } else {
        !f
    })) by {
        assert(x(r) == if p <= r && r < q {
            f
        } else {
            !f
        });
        assert(x(r + hk) == if p <= r + hk && r + hk < q {
            f
        } else {
            !f
        });
    }
    if f {
        if q <= hk {
            assert(interval_form(lo, hk, 0, 0, true));
            assert(interval_form(up, hk, p, q, true));
        } else if p >= hk {
            assert(interval_form(lo, hk, 0, 0, true));
            assert(interval_form(up, hk, p - hk, q - hk, true));
        } else if q - hk >= p {
            assert(interval_form(lo, hk, p, q - hk, true));
            assert(interval_form(up, hk, 0, hk, true));
        } else {
            assert(interval_form(lo, hk, 0, 0, true));
            assert(interval_form(up, hk, q - hk, p, false));
        }
    } else {
        if q <= hk {
            assert(interval_form(lo, hk, p, q, false));
            assert(interval_form(up, hk, 0, hk, true));
        } else if p >= hk {
            assert(interval_form(lo, hk, p - hk, q - hk, false));
            assert(interval_form(up, hk, 0, hk, true));
        } else if q - hk <= p {
            assert(interval_form(lo, hk, q - hk, p, true));
            assert(interval_form(up, hk, 0, hk, true));
        } else {
            assert(interval_form(lo, hk, 0, 0, true));
            assert(interval_form(up, hk, p, q - hk, false));
        }
    }
}

/// A flip of two ordered halves gives two bitonic halves, and either the
/// lower half is all `false` or the upper half is all `true`.
proof fn lemma_flip_halves(
    x: spec_fn(int) -> bool,
    y: spec_fn(int) -> bool,
    lo: spec_fn(int) -> bool,
    up: spec_fn(int) -> bool,
    hk: int,
)
    requires
        1 <= hk,
        ordered01(x, hk),
        ordered01(y, hk),
        forall|r: int| 0 <= r < hk ==> #[trigger] lo(r) == (x(r) && y(hk - 1 - r)),
        forall|r: int| 0 <= r < hk ==> #[trigger] up(r) == (x(hk - 1 - r) || y(r)),
    ensures
        bitonic01(lo, hk),
        bitonic01(up, hk),
        (forall|r: int| 0 <= r < hk ==> !#[trigger] lo(r)) || (forall|r: int|
            0 <= r < hk ==> #[trigger] up(r)),
{
    let a = lemma_ordered_threshold(x, hk);
    let b = lemma_ordered_threshold(y, hk);
    assert forall|r: int| #![trigger lo(r)] #![trigger up(r)] 0 <= r < hk implies lo(r) == (r >= a && hk - 1 - r >= b) && up(r) == (
    hk - 1 - r >= a || r >= b) by {
        assert(x(r) == (r >= a));
        assert(y(hk - 1 - r) == (hk - 1 - r >= b));
        assert(x(hk - 1 - r) == (hk - 1 - r >= a));
        assert(y(r) == (r >= b));
    }
    if a < hk - b {
        assert(interval_form(lo, hk, a, hk - b, true));
        assert(interval_form(up, hk, 0, hk, true));
    } else {
        assert(interval_form(lo, hk, 0, 0, true));
        if hk - a <= b {
            assert(interval_form(up, hk, hk - a, b, false));
        } else {
            assert(interval_form(up, hk, 0, hk, true));
        }
    }
}

/// Which elements of block `c` of size `k` of `t` lie above `v`.
pub open spec fn block_view(t: Seq<u32>, v: u32, c: int, k: int) -> spec_fn(int) -> bool {
    |r: int| t[c * k + r] > v
}

/// Every block of size `k` is bitonic with respect to `v`.
pub open spec fn blocks_bitonic(t: Seq<u32>, v: u32, k: int) -> bool {
    forall|c: int| 0 <= c < t.len() as int / k ==> bitonic01(#[trigger] block_view(t, v, c, k), k)
}

/// Within each block of size `hgt`, an element above `v` is followed only by
/// elements above `v` in later sub-blocks of size `k`.
pub open spec fn ordered_across(t: Seq<u32>, v: u32, hgt: int, k: int) -> bool {
    forall|i: int, j: int|
        0 <= i < j < t.len() && i / hgt == j / hgt && i / k < j / k && #[trigger] t[i] > v
            ==> #[trigger] t[j] > v
}

/// Within each block of size `hgt`, an element above `v` is followed only by
/// elements above `v`.
pub open spec fn blocks_ordered(t: Seq<u32>, v: u32, hgt: int) -> bool {
    forall|i: int, j: int|
        0 <= i < j < t.len() && i / hgt == j / hgt && #[trigger] t[i] > v ==> #[trigger] t[j] > v
}

/// Position `r` of block `c` of size `k`.
proof fn lemma_block_pos(c: int, k: int, r: int)
    requires
        0 <= c,
        0 <= r < k,
    ensures
        (c * k + r) / k == c,
        (c * k + r) % k == r,
        0 <= c * k,
{
    lemma_fundamental_div_mod_converse(c * k + r, k, c, r);
    assert(0 <= c * k) by (nonlinear_arith)
        requires
            0 <= c,
            0 <= r < k,
    ;
}

/// Block `c` of size `2 * hk` is blocks `2 * c` and `2 * c + 1` of size `hk`.
proof fn lemma_half_blocks(c: int, hk: int, n: int)
    requires
        0 <= c,
        1 <= hk,
        0 <= n,
        n % (2 * hk) == 0,
    ensures
        (2 * c) * hk == c * (2 * hk),
        (2 * c + 1) * hk == c * (2 * hk) + hk,
        n / hk == 2 * (n / (2 * hk)),
        c < n / (2 * hk) ==> c * (2 * hk) + 2 * hk <= n,
{
    assert((2 * c) * hk == c * (2 * hk)) by (nonlinear_arith);
    assert((2 * c + 1) * hk == c * (2 * hk) + hk) by (nonlinear_arith);
    lemma_fundamental_div_mod(n, 2 * hk);
    let m = n / (2 * hk);
    assert(n == (2 * m) * hk) by (nonlinear_arith)
        requires
            n == (2 * hk) * m + 0,
    ;
    lemma_fundamental_div_mod_converse(n, hk, 2 * m, 0);
    if c < m {
        assert(c * (2 * hk) + 2 * hk <= n) by (nonlinear_arith)
            requires
                c < m,
                n == (2 * hk) * m,
                1 <= hk,
        ;
    }
}

/// Positions in order stay in order when both are divided by `k`.
proof fn lemma_div_mono(i: int, j: int, k: int)
    requires
        0 <= i <= j,
        0 < k,
    ensures
        i / k <= j / k,
{
    vstd::arithmetic::div_mod::lemma_div_is_ordered(i, j, k);
}

/// A disperse of height `k` takes bitonic blocks of size `k`, ordered across
/// blocks of `hgt`, to bitonic blocks of size `k / 2`, ordered the same way.
proof fn lemma_disperse_level(t: Seq<u32>, v: u32, hgt: int, k: int)
    requires
        is_pow2(k),
        is_pow2(hgt),
        2 <= k <= hgt,
        t.len() as int % hgt == 0,
        blocks_bitonic(t, v, k),
        ordered_across(t, v, hgt, k),
    ensures
        blocks_bitonic(stage(t, k, false), v, k / 2),
        ordered_across(stage(t, k, false), v, hgt, k / 2),
{
    let n = t.len() as int;
    let t2 = stage(t, k, false);
    lemma_pow2_half(k);
    let hk = k / 2;
    lemma_pow2_quotient(k, hgt);
    let m = hgt / k;
    lemma_fundamental_div_mod(n, hgt);
    assert(n % k == 0) by {
        let a = n / hgt;
        assert(n == (a * m) * k) by (nonlinear_arith)
            requires
                n == hgt * a + 0,
                hgt == k * m,
        ;
        lemma_fundamental_div_mod_converse(n, k, a * m, 0);
    }
    lemma_fundamental_div_mod(n, k);
    assert((n / k - 1) * k + (k - 1) == n - 1) by (nonlinear_arith)
        requires
            n == k * (n / k) + 0,
    ;
    // Each block of size k splits into two halves with the half-cleaner facts.
    assert forall|c: int| 0 <= c < n / k implies bitonic01(#[trigger] block_view(t2, v, 2 * c, hk), hk)
        && bitonic01(block_view(t2, v, 2 * c + 1, hk), hk) && ((forall|r: int|
        0 <= r < hk ==> !#[trigger] block_view(t2, v, 2 * c, hk)(r)) || (forall|r: int|
        0 <= r < hk ==> #[trigger] block_view(t2, v, 2 * c + 1, hk)(r))) by {
        lemma_half_blocks(c, hk, n);
        let x = block_view(t, v, c, k);
        let lo = block_view(t2, v, 2 * c, hk);
        let up = block_view(t2, v, 2 * c + 1, hk);
        assert forall|r: int| 0 <= r < hk implies #[trigger] lo(r) == (x(r) && x(r + hk)) by {
            lemma_block_pos(c, k, r);
            lemma_block_pos(c, k, r + hk);
        }
        assert forall|r: int| 0 <= r < hk implies #[trigger] up(r) == (x(r) || x(r + hk)) by {
            lemma_block_pos(c, k, r);
            lemma_block_pos(c, k, r + hk);
        }
        lemma_half_cleaner(x, lo, up, hk);
    }
    assert forall|c2: int| 0 <= c2 < t2.len() as int / hk implies bitonic01(
        #[trigger] block_view(t2, v, c2, hk),
        hk,
    ) by {
        lemma_half_blocks(0, hk, n);
        let c = c2 / 2;
        assert(block_view(t2, v, 2 * c, hk) == block_view(t2, v, c2, hk) || block_view(
            t2,
            v,
            2 * c + 1,
            hk,
        ) == block_view(t2, v, c2, hk));
    }
    assert forall|i: int, j: int|
        0 <= i < j < t2.len() && i / hgt == j / hgt && i / hk < j / hk && #[trigger] t2[i]
            > v implies #[trigger] t2[j] > v by {
        lemma_div_denominator(i, hk, 2);
        lemma_div_denominator(j, hk, 2);
        lemma_div_mono(i, j, k);
        let ci = i / k;
        let cj = j / k;
        lemma_fundamental_div_mod(i, k);
        lemma_fundamental_div_mod(j, k);
        let ri = i % k;
        let rj = j % k;
        assert(i == ci * k + ri && j == cj * k + rj) by (nonlinear_arith)
            requires
                i == k * ci + ri,
                j == k * cj + rj,
        ;
        lemma_half_blocks(ci, hk, n);
        lemma_half_blocks(cj, hk, n);
        lemma_half_blocks(0, hk, n);
        assert(ci < n / k) by {
            lemma_div_mono(i, n - 1, k);
            lemma_fundamental_div_mod_converse(n - 1, k, n / k - 1, k - 1);
        }
        assert(cj < n / k) by {
            lemma_div_mono(j, n - 1, k);
            lemma_fundamental_div_mod_converse(n - 1, k, n / k - 1, k - 1);
        }
        if ci == cj {
            lemma_fundamental_div_mod(i, hk);
            lemma_fundamental_div_mod(j, hk);
            let a = i / hk;
            let b = j / hk;
            assert(a == 2 * ci && b == 2 * ci + 1);
            assert(ri == i % hk && rj == j % hk + hk) by (nonlinear_arith)
                requires
                    i == hk * a + i % hk,
                    j == hk * b + j % hk,
                    a == 2 * ci,
                    b == 2 * ci + 1,
                    k == 2 * hk,
                    i == ci * k + ri,
                    j == ci * k + rj,
            ;
            assert(ri < hk <= rj);
            assert(block_view(t2, v, 2 * ci, hk)(ri) == (t2[i] > v));
            assert(block_view(t2, v, 2 * ci + 1, hk)(rj - hk) == (t2[j] > v));
        } else {
            lemma_block_pos(ci, k, ri);
            lemma_block_pos(cj, k, rj);
            let pi = partner(i, k, false);
            let pj = partner(j, k, false);
            let ri2 = if ri < hk {
                ri + hk
            } else {
                ri - hk
            };
            let rj2 = if rj < hk {
                rj + hk
            } else {
                rj - hk
            };
            lemma_block_pos(ci, k, ri2);
            lemma_block_pos(cj, k, rj2);
            assert(pi == ci * k + ri2);
            assert(pj == cj * k + rj2);
            lemma_div_denominator(i, k, m);
            lemma_div_denominator(j, k, m);
            lemma_div_denominator(pi, k, m);
            lemma_div_denominator(pj, k, m);
            assert(ci * k + k <= cj * k) by (nonlinear_arith)
                requires
                    ci < cj,
                    0 < k,
            ;
            if t[i] > v {
                assert(t[j] > v);
                assert(t[pj] > v);
            } else {
                assert(t[pi] > v);
                assert(t[j] > v);
                assert(t[pj] > v);
            }
        }
    }
}

/// A flip of height `hgt` takes ordered blocks of size `hgt / 2` to bitonic
/// blocks of that size, ordered across blocks of `hgt`.
proof fn lemma_flip_level(t: Seq<u32>, v: u32, hgt: int)
    requires
        is_pow2(hgt),
        2 <= hgt,
        t.len() as int % hgt == 0,
        blocks_ordered(t, v, hgt / 2),
    ensures
        blocks_bitonic(stage(t, hgt, true), v, hgt / 2),
        ordered_across(stage(t, hgt, true), v, hgt, hgt / 2),
{
    let n = t.len() as int;
    let t1 = stage(t, hgt, true);
    lemma_pow2_half(hgt);
    let hh = hgt / 2;
    lemma_fundamental_div_mod(n, hgt);
    assert((n / hgt - 1) * hgt + (hgt - 1) == n - 1) by (nonlinear_arith)
        requires
            n == hgt * (n / hgt) + 0,
    ;
    assert forall|c: int| 0 <= c < n / hgt implies bitonic01(
        #[trigger] block_view(t1, v, 2 * c, hh),
        hh,
    ) && bitonic01(block_view(t1, v, 2 * c + 1, hh), hh) && ((forall|r: int|
        0 <= r < hh ==> !#[trigger] block_view(t1, v, 2 * c, hh)(r)) || (forall|r: int|
        0 <= r < hh ==> #[trigger] block_view(t1, v, 2 * c + 1, hh)(r))) by {
        lemma_half_blocks(c, hh, n);
        let x = block_view(t, v, 2 * c, hh);
        let y = block_view(t, v, 2 * c + 1, hh);
        let lo = block_view(t1, v, 2 * c, hh);
        let up = block_view(t1, v, 2 * c + 1, hh);
        assert forall|r1: int, r2: int| 0 <= r1 < r2 < hh && #[trigger] x(r1) implies #[trigger] x(
            r2,
        ) by {
            lemma_block_pos(2 * c, hh, r1);
            lemma_block_pos(2 * c, hh, r2);
            assert(t[(2 * c) * hh + r1] > v);
        }
        assert forall|r1: int, r2: int| 0 <= r1 < r2 < hh && #[trigger] y(r1) implies #[trigger] y(
            r2,
        ) by {
            lemma_block_pos(2 * c + 1, hh, r1);
            lemma_block_pos(2 * c + 1, hh, r2);
            assert(t[(2 * c + 1) * hh + r1] > v);
        }
        assert forall|r: int| 0 <= r < hh implies #[trigger] lo(r) == (x(r) && y(hh - 1 - r)) by {
            lemma_block_pos(c, hgt, r);
        }
        assert forall|r: int| 0 <= r < hh implies #[trigger] up(r) == (x(hh - 1 - r) || y(r)) by {
            lemma_block_pos(c, hgt, r + hh);
        }
        lemma_flip_halves(x, y, lo, up, hh);
    }
    assert forall|c2: int| 0 <= c2 < t1.len() as int / hh implies bitonic01(
        #[trigger] block_view(t1, v, c2, hh),
        hh,
    ) by {
        lemma_half_blocks(0, hh, n);
        let c = c2 / 2;
        assert(block_view(t1, v, 2 * c, hh) == block_view(t1, v, c2, hh) || block_view(
            t1,
            v,
            2 * c + 1,
            hh,
        ) == block_view(t1, v, c2, hh));
    }
    assert forall|i: int, j: int|
        0 <= i < j < t1.len() && i / hgt == j / hgt && i / hh < j / hh && #[trigger] t1[i]
            > v implies #[trigger] t1[j] > v by {
        lemma_div_denominator(i, hh, 2);
        lemma_div_denominator(j, hh, 2);
        let c = i / hgt;
        lemma_fundamental_div_mod(i, hh);
        lemma_fundamental_div_mod(j, hh);
        let a = i / hh;
        let b = j / hh;
        assert(a == 2 * c && b == 2 * c + 1);
        assert(c < n / hgt) by {
            lemma_div_mono(i, n - 1, hgt);
            lemma_fundamental_div_mod_converse(n - 1, hgt, n / hgt - 1, hgt - 1);
        }
        assert(block_view(t1, v, 2 * c, hh)(i % hh) == (t1[i] > v)) by {
            assert(i == (2 * c) * hh + i % hh) by (nonlinear_arith)
                requires
                    i == hh * a + i % hh,
                    a == 2 * c,
            ;
        }
        assert(block_view(t1, v, 2 * c + 1, hh)(j % hh) == (t1[j] > v)) by {
            assert(j == (2 * c + 1) * hh + j % hh) by (nonlinear_arith)
                requires
                    j == hh * b + j % hh,
                    b == 2 * c + 1,
            ;
        }
    }
}

/// Disperses from height `k` down to 2 order every block of `hgt`, given
/// bitonic blocks of size `k` ordered across blocks of `hgt`.
proof fn lemma_disperse_chain(t: Seq<u32>, v: u32, hgt: int, k: int)
    requires
        is_pow2(k),
        is_pow2(hgt),
        1 <= k <= hgt,
        t.len() as int % hgt == 0,
        blocks_bitonic(t, v, k),
        ordered_across(t, v, hgt, k),
    ensures
        blocks_ordered(disperse_down(t, k), v, hgt),
    decreases k,
{
    if k >= 2 {
        lemma_disperse_level(t, v, hgt, k);
        lemma_pow2_half(k);
        lemma_disperse_chain(stage(t, k, false), v, hgt, k / 2);
    } else {
        assert forall|i: int, j: int|
            0 <= i < j < t.len() && i / hgt == j / hgt && #[trigger] t[i] > v implies #[trigger] t[j]
            > v by {
            assert(i / 1 == i && j / 1 == j);
        }
    }
}

/// The network of span `h` orders every block of `h` with respect to `v`.
proof fn lemma_network_ordered(s: Seq<u32>, v: u32, h: int)
    requires
        is_pow2(h),
        s.len() as int % h == 0,
    ensures
        blocks_ordered(network(s, h), v, h),
    decreases h,
{
    if h >= 2 {
        lemma_pow2_half(h);
        let hh = h / 2;
        lemma_pow2_divides(hh, h);
        let n = s.len() as int;
        assert(n % hh == 0) by {
            lemma_fundamental_div_mod(n, h);
            assert(n == (2 * (n / h)) * hh) by (nonlinear_arith)
                requires
                    n == h * (n / h) + 0,
                    h == 2 * hh,
            ;
            lemma_fundamental_div_mod_converse(n, hh, 2 * (n / h), 0);
        }
        lemma_network_ordered(s, v, hh);
        let t0 = network(s, hh);
        lemma_network_len(s, hh);
        lemma_flip_level(t0, v, h);
        lemma_disperse_chain(stage(t0, h, true), v, h, hh);
    } else {
        assert forall|i: int, j: int|
            0 <= i < j < network(s, h).len() && i / h == j / h && #[trigger] network(s, h)[i]
                > v implies #[trigger] network(s, h)[j] > v by {
            assert(i / 1 == i && j / 1 == j);
        }
    }
}

/// Sortedness: the bitonic network whose span is the whole sequence, a power
/// of two in length, sorts it.
pub proof fn lemma_network_sorts(s: Seq<u32>)
    requires
        is_pow2(s.len() as int),
    ensures
        sorted(network(s, s.len() as int)),
{
    let n = s.len() as int;
    let t = network(s, n);
    lemma_network_len(s, n);
    vstd::arithmetic::div_mod::lemma_mod_self_0(n);
    assert forall|i: int, j: int| 0 <= i < j < t.len() implies t[i] <= t[j] by {
        lemma_network_ordered(s, t[j], n);
        vstd::arithmetic::div_mod::lemma_small_div_converse(i, n);
        vstd::arithmetic::div_mod::lemma_small_div_converse(j, n);
        assert(i / n == 0 && j / n == 0) by {
            vstd::arithmetic::div_mod::lemma_basic_div(i, n);
            vstd::arithmetic::div_mod::lemma_basic_div(j, n);
        }
    }
}

/// The network of span `h` sorts every aligned block of `h` elements.
pub proof fn lemma_network_sorts_blocks(s: Seq<u32>, h: int)
    requires
        is_pow2(h),
        s.len() as int % h == 0,
    ensures
        forall|i: int, j: int|
            0 <= i < j < s.len() && i / h == j / h ==> #[trigger] network(s, h)[i] <= #[trigger] network(
                s,
                h,
            )[j],
{
    let t = network(s, h);
    lemma_network_len(s, h);
    assert forall|i: int, j: int| 0 <= i < j < s.len() && i / h == j / h implies #[trigger] t[i]
        <= #[trigger] t[j] by {
        lemma_network_ordered(s, t[j], h);
    }
}

} // verus!
