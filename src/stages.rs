//! The stages of the network as run by execution groups of `workgroup_size_x`
//! lanes each, in the local (windowed) and global (whole-sequence) variants.
//! Groups run one after the other, and each stage completes before it returns.
use vstd::prelude::*;
use vstd::arithmetic::div_mod::lemma_fundamental_div_mod_converse;
use vstd::arithmetic::div_mod::lemma_fundamental_div_mod;
use crate::pow2::{is_pow2, lemma_pow2_half};
use crate::network::{
    compare_exchange, stage, stage_partial, pair_lo, pair_hi, lemma_stage_step,
    lemma_stage_ends,
};

verus! {

/// Lane `g` of a global stage, written as the index arithmetic of the stage
/// functions.
proof fn lemma_global_formula(g: int, h: int)
    requires
        is_pow2(h),
        2 <= h,
        0 <= g,
    ensures
        (2 * g / h) * h + g % (h / 2) == pair_lo(g, h),
        (2 * g / h) * h + h - g % (h / 2) - 1 == pair_hi(g, h, true),
        (2 * g / h) * h <= 2 * g,
        (2 * g / h) * h == (g / (h / 2)) * h,
{
    lemma_pow2_half(h);
    let hh = h / 2;
    lemma_fundamental_div_mod(g, hh);
    let blk = g / hh;
    let j = g % hh;
    assert(2 * g == blk * h + 2 * j) by (nonlinear_arith)
        requires
            g == hh * blk + j,
            h == 2 * hh,
    ;
    lemma_fundamental_div_mod_converse(2 * g, h, blk, 2 * j);
}

/// Lane `local_thread_id` of group `workgroup_id` of a local stage, written as
/// the windowed index arithmetic, acts where lane
/// `workgroup_id * lanes + local_thread_id` of the global stage acts, when
/// the height divides the group's window.
proof fn lemma_local_formula(wg: int, t: int, h: int, lanes: int)
    requires
        is_pow2(h),
        (2 * lanes) % h == 0,
        2 <= h <= 2 * lanes,
        0 <= wg,
        0 <= t < lanes,
    ensures
        h * ((lanes * wg * 2) / h) + ((2 * t) / h) * h + t % (h / 2) == pair_lo(wg * lanes + t, h),
        h * ((lanes * wg * 2) / h) + ((2 * t) / h) * h + h - t % (h / 2) - 1
            == pair_hi(wg * lanes + t, h, true),
        h * ((lanes * wg * 2) / h) == lanes * wg * 2,
        ((2 * t) / h) * h <= 2 * t,
{
    lemma_pow2_half(h);
    let hh = h / 2;
    lemma_fundamental_div_mod(2 * lanes, h);
    let m = (2 * lanes) / h;
    lemma_fundamental_div_mod(t, hh);
    let tb = t / hh;
    let tj = t % hh;
    let g = wg * lanes + t;
    assert(g == (wg * m + tb) * hh + tj) by (nonlinear_arith)
        requires
            g == wg * lanes + t,
            2 * lanes == h * m,
            h == 2 * hh,
            t == hh * tb + tj,
    ;
    assert(0 <= wg * m + tb) by (nonlinear_arith)
        requires
            0 <= wg,
            0 <= m,
            0 <= tb,
    ;
    lemma_fundamental_div_mod_converse(g, hh, wg * m + tb, tj);
    assert(lanes * wg * 2 == (m * wg) * h) by (nonlinear_arith)
        requires
            2 * lanes == h * m,
    ;
    lemma_fundamental_div_mod_converse(lanes * wg * 2, h, m * wg, 0);
    assert(2 * t == tb * h + 2 * tj) by (nonlinear_arith)
        requires
            t == hh * tb + tj,
            h == 2 * hh,
    ;
    lemma_fundamental_div_mod_converse(2 * t, h, tb, 2 * tj);
    assert(h * (m * wg) + tb * h == (wg * m + tb) * h) by (nonlinear_arith);
}

/// A sequence whose length is a positive multiple of `m` holds at least `m`
/// elements, and splits into `n / m` parts of `m`.
proof fn lemma_multiple(n: int, m: int)
    requires
        0 < m,
        0 < n,
        n % m == 0,
    ensures
        m <= n,
        (n / m) * m == n,
{
    lemma_fundamental_div_mod(n, m);
    assert((n / m) * m == m * (n / m)) by (nonlinear_arith);
    assert(m <= n) by (nonlinear_arith)
        requires
            n == m * (n / m),
            0 < n,
            0 < m,
    ;
}

/// Compare-exchange inside one execution group's window.
pub fn local_compare_and_swap(vec: &mut Vec<u32>, a: usize, b: usize)
    requires
        a < old(vec).len(),
        b < old(vec).len(),
        a != b,
    ensures
        final(vec)@ == compare_exchange(old(vec)@, a as int, b as int),
{
    if vec[a] > vec[b] {
        let x = vec[a];
        let y = vec[b];
        vec.set(a, y);
        vec.set(b, x);
    }
    proof {
        assert(vec@ =~= compare_exchange(old(vec)@, a as int, b as int));
    }
}

/// Compare-exchange across the whole sequence; it behaves as the local one
/// and differs only in what memory it would address on a device.
pub fn global_compare_and_swap(vec: &mut Vec<u32>, a: usize, b: usize)
    requires
        a < old(vec).len(),
        b < old(vec).len(),
        a != b,
    ensures
        final(vec)@ == compare_exchange(old(vec)@, a as int, b as int),
{
    if vec[a] > vec[b] {
        let x = vec[a];
        let y = vec[b];
        vec.set(a, y);
        vec.set(b, x);
    }
    proof {
        assert(vec@ =~= compare_exchange(old(vec)@, a as int, b as int));
    }
}

/// Flip of height `h` with the lanes numbered over the whole sequence.
pub fn big_flip(vec: &mut Vec<u32>, h: usize, workgroup_size_x: usize)
    requires
        is_pow2(h as int),
        2 <= h <= old(vec).len(),
        old(vec).len() % h == 0,
        0 < workgroup_size_x,
        old(vec).len() as int % (2 * workgroup_size_x) == 0,
    ensures
        final(vec)@ == stage(old(vec)@, h as int, true),
{
    let ghost s0 = vec@;
    let n = vec.len();
    proof {
        lemma_stage_ends(s0, h as int, true);
        lemma_multiple(n as int, 2 * workgroup_size_x);
        lemma_pow2_half(h as int);
    }
    let workgroup_count = n / (workgroup_size_x * 2);
    let half_h = h / 2;
    let mut workgroup_id: usize = 0;
    while workgroup_id < workgroup_count
        invariant
            vec.len() == n,
            n == s0.len(),
            is_pow2(h as int),
            2 <= h <= n,
            n % h == 0,
            half_h == h / 2,
            0 < workgroup_size_x,
            workgroup_count * (2 * workgroup_size_x) == n as int,
            workgroup_id <= workgroup_count,
            vec@ == stage_partial(s0, h as int, true, workgroup_id * workgroup_size_x),
        decreases workgroup_count - workgroup_id,
    {
        let mut local_thread_id: usize = 0;
        while local_thread_id < workgroup_size_x
            invariant
                vec.len() == n,
                n == s0.len(),
                is_pow2(h as int),
                2 <= h <= n,
                n % h == 0,
                half_h == h / 2,
                0 < workgroup_size_x,
                workgroup_count * (2 * workgroup_size_x) == n as int,
                workgroup_id < workgroup_count,
                local_thread_id <= workgroup_size_x,
                vec@ == stage_partial(
                    s0,
                    h as int,
                    true,
                    workgroup_id * workgroup_size_x + local_thread_id,
                ),
            decreases workgroup_size_x - local_thread_id,
        {
            proof {
                assert(2 * (workgroup_id * workgroup_size_x + local_thread_id) < n) by (nonlinear_arith)
                    requires
                        workgroup_count * (2 * workgroup_size_x) == n as int,
                        workgroup_id < workgroup_count,
                        local_thread_id < workgroup_size_x,
                ;
            }
            let global_thread_id = workgroup_id * workgroup_size_x + local_thread_id;
            proof {
                lemma_global_formula(global_thread_id as int, h as int);
                lemma_stage_step(s0, h as int, true, global_thread_id as int);
            }
            let q = ((2 * global_thread_id) / h) * h;
            global_compare_and_swap(
                vec,
                q + (global_thread_id % half_h),
                q + h - (global_thread_id % half_h) - 1,
            );
            local_thread_id += 1;
        }
        proof {
            assert((workgroup_id + 1) * workgroup_size_x == workgroup_id * workgroup_size_x
                + workgroup_size_x) by (nonlinear_arith);
        }
        workgroup_id += 1;
    }
    proof {
        assert(workgroup_count * workgroup_size_x == n as int / 2) by (nonlinear_arith)
            requires
                workgroup_count * (2 * workgroup_size_x) == n as int,
        ;
    }
}

/// When the height divides a group's window of `2 * lanes` elements, it
/// divides every length that the windows divide.
proof fn lemma_window_divides(n: int, h: int, lanes: int)
    requires
        is_pow2(h),
        (2 * lanes) % h == 0,
        h <= 2 * lanes,
        n % (2 * lanes) == 0,
    ensures
        n % h == 0,
{
    lemma_fundamental_div_mod(2 * lanes, h);
    let m = (2 * lanes) / h;
    lemma_fundamental_div_mod(n, 2 * lanes);
    let k = n / (2 * lanes);
    assert(n == (k * m) * h) by (nonlinear_arith)
        requires
            n == (2 * lanes) * k,
            2 * lanes == h * m,
    ;
    lemma_fundamental_div_mod_converse(n, h, k * m, 0);
}

/// Flip of height `h` within each group's window of `2 * workgroup_size_x`
/// elements; the height must divide the window.
pub fn local_flip(vec: &mut Vec<u32>, h: usize, workgroup_size_x: usize)
    requires
        is_pow2(h as int),
        (2 * workgroup_size_x) as int % h as int == 0,
        2 <= h <= 2 * workgroup_size_x,
        0 < old(vec).len(),
        old(vec).len() as int % (2 * workgroup_size_x) == 0,
    ensures
        final(vec)@ == stage(old(vec)@, h as int, true),
{
    let ghost s0 = vec@;
    let n = vec.len();
    proof {
        lemma_multiple(n as int, 2 * workgroup_size_x);
        lemma_window_divides(n as int, h as int, workgroup_size_x as int);
        lemma_stage_ends(s0, h as int, true);
        lemma_pow2_half(h as int);
    }
    let workgroup_count = n / (workgroup_size_x * 2);
    let half_h = h / 2;
    let mut workgroup_id: usize = 0;
    while workgroup_id < workgroup_count
        invariant
            vec.len() == n,
            n == s0.len(),
            is_pow2(h as int),
            (2 * workgroup_size_x) as int % h as int == 0,
            2 <= h <= 2 * workgroup_size_x,
            n % h == 0,
            half_h == h / 2,
            workgroup_count * (2 * workgroup_size_x) == n as int,
            workgroup_id <= workgroup_count,
            vec@ == stage_partial(s0, h as int, true, workgroup_id * workgroup_size_x),
        decreases workgroup_count - workgroup_id,
    {
        proof {
            assert(workgroup_size_x * workgroup_id * 2 < n) by (nonlinear_arith)
                requires
                    workgroup_count * (2 * workgroup_size_x) == n as int,
                    workgroup_id < workgroup_count,
                    0 < workgroup_size_x,
            ;
            lemma_fundamental_div_mod(workgroup_size_x * workgroup_id * 2, h as int);
        }
        let h_offset = h * ((workgroup_size_x * workgroup_id * 2) / h);
        let mut local_thread_id: usize = 0;
        while local_thread_id < workgroup_size_x
            invariant
                vec.len() == n,
                n == s0.len(),
                is_pow2(h as int),
                (2 * workgroup_size_x) as int % h as int == 0,
                2 <= h <= 2 * workgroup_size_x,
                n % h == 0,
                half_h == h / 2,
                workgroup_count * (2 * workgroup_size_x) == n as int,
                workgroup_id < workgroup_count,
                h_offset as int == h * ((workgroup_size_x * workgroup_id * 2) / h as int),
                local_thread_id <= workgroup_size_x,
                vec@ == stage_partial(
                    s0,
                    h as int,
                    true,
                    workgroup_id * workgroup_size_x + local_thread_id,
                ),
            decreases workgroup_size_x - local_thread_id,
        {
            proof {
                assert(2 * (workgroup_id * workgroup_size_x + local_thread_id) < n) by (nonlinear_arith)
                    requires
                        workgroup_count * (2 * workgroup_size_x) == n as int,
                        workgroup_id < workgroup_count,
                        local_thread_id < workgroup_size_x,
                ;
                let g = workgroup_id as int * workgroup_size_x as int + local_thread_id as int;
                lemma_local_formula(
                    workgroup_id as int,
                    local_thread_id as int,
                    h as int,
                    workgroup_size_x as int,
                );
                lemma_global_formula(g, h as int);
                lemma_stage_step(s0, h as int, true, g);
            }
            let q = h_offset + ((2 * local_thread_id) / h) * h;
            local_compare_and_swap(
                vec,
                q + local_thread_id % half_h,
                q + h - (local_thread_id % half_h) - 1,
            );
            local_thread_id += 1;
        }
        proof {
            assert((workgroup_id + 1) * workgroup_size_x == workgroup_id * workgroup_size_x
                + workgroup_size_x) by (nonlinear_arith);
        }
        workgroup_id += 1;
    }
    proof {
        assert(workgroup_count * workgroup_size_x == n as int / 2) by (nonlinear_arith)
            requires
                workgroup_count * (2 * workgroup_size_x) == n as int,
        ;
    }
}

/// Disperse of height `h` with the lanes numbered over the whole sequence.
pub fn big_disperse(vec: &mut Vec<u32>, h: usize, workgroup_size_x: usize)
    requires
        is_pow2(h as int),
        2 <= h <= old(vec).len(),
        old(vec).len() % h == 0,
        0 < workgroup_size_x,
        old(vec).len() as int % (2 * workgroup_size_x) == 0,
    ensures
        final(vec)@ == stage(old(vec)@, h as int, false),
{
    let ghost s0 = vec@;
    let n = vec.len();
    proof {
        lemma_stage_ends(s0, h as int, false);
        lemma_multiple(n as int, 2 * workgroup_size_x);
        lemma_pow2_half(h as int);
    }
    let workgroup_count = n / (workgroup_size_x * 2);
    let half_h = h / 2;
    let mut workgroup_id: usize = 0;
    while workgroup_id < workgroup_count
        invariant
            vec.len() == n,
            n == s0.len(),
            is_pow2(h as int),
            2 <= h <= n,
            n % h == 0,
            half_h == h / 2,
            0 < workgroup_size_x,
            workgroup_count * (2 * workgroup_size_x) == n as int,
            workgroup_id <= workgroup_count,
            vec@ == stage_partial(s0, h as int, false, workgroup_id * workgroup_size_x),
        decreases workgroup_count - workgroup_id,
    {
        let mut local_thread_id: usize = 0;
        while local_thread_id < workgroup_size_x
            invariant
                vec.len() == n,
                n == s0.len(),
                is_pow2(h as int),
                2 <= h <= n,
                n % h == 0,
                half_h == h / 2,
                0 < workgroup_size_x,
                workgroup_count * (2 * workgroup_size_x) == n as int,
                workgroup_id < workgroup_count,
                local_thread_id <= workgroup_size_x,
                vec@ == stage_partial(
                    s0,
                    h as int,
                    false,
                    workgroup_id * workgroup_size_x + local_thread_id,
                ),
            decreases workgroup_size_x - local_thread_id,
        {
            proof {
                assert(2 * (workgroup_id * workgroup_size_x + local_thread_id) < n) by (nonlinear_arith)
                    requires
                        workgroup_count * (2 * workgroup_size_x) == n as int,
                        workgroup_id < workgroup_count,
                        local_thread_id < workgroup_size_x,
                ;
            }
            let global_thread_id = workgroup_id * workgroup_size_x + local_thread_id;
            proof {
                lemma_global_formula(global_thread_id as int, h as int);
                lemma_stage_step(s0, h as int, false, global_thread_id as int);
            }
            let q = ((2 * global_thread_id) / h) * h;
            let x = q + (global_thread_id % half_h);
            global_compare_and_swap(vec, x, x + half_h);
            local_thread_id += 1;
        }
        proof {
            assert((workgroup_id + 1) * workgroup_size_x == workgroup_id * workgroup_size_x
                + workgroup_size_x) by (nonlinear_arith);
        }
        workgroup_id += 1;
    }
    proof {
        assert(workgroup_count * workgroup_size_x == n as int / 2) by (nonlinear_arith)
            requires
                workgroup_count * (2 * workgroup_size_x) == n as int,
        ;
    }
}

/// Disperse of height `h` within each group's window of
/// `2 * workgroup_size_x` elements; the height must divide the window.
pub fn local_disperse(vec: &mut Vec<u32>, h: usize, workgroup_size_x: usize)
    requires
        is_pow2(h as int),
        (2 * workgroup_size_x) as int % h as int == 0,
        2 <= h <= 2 * workgroup_size_x,
        0 < old(vec).len(),
        old(vec).len() as int % (2 * workgroup_size_x) == 0,
    ensures
        final(vec)@ == stage(old(vec)@, h as int, false),
{
    let ghost s0 = vec@;
    let n = vec.len();
    proof {
        lemma_multiple(n as int, 2 * workgroup_size_x);
        lemma_window_divides(n as int, h as int, workgroup_size_x as int);
        lemma_stage_ends(s0, h as int, false);
        lemma_pow2_half(h as int);
    }
    let workgroup_count = n / (workgroup_size_x * 2);
    let half_h = h / 2;
    let mut workgroup_id: usize = 0;
    while workgroup_id < workgroup_count
        invariant
            vec.len() == n,
            n == s0.len(),
            is_pow2(h as int),
            (2 * workgroup_size_x) as int % h as int == 0,
            2 <= h <= 2 * workgroup_size_x,
            n % h == 0,
            half_h == h / 2,
            workgroup_count * (2 * workgroup_size_x) == n as int,
            workgroup_id <= workgroup_count,
            vec@ == stage_partial(s0, h as int, false, workgroup_id * workgroup_size_x),
        decreases workgroup_count - workgroup_id,
    {
        proof {
            assert(workgroup_size_x * workgroup_id * 2 < n) by (nonlinear_arith)
                requires
                    workgroup_count * (2 * workgroup_size_x) == n as int,
                    workgroup_id < workgroup_count,
                    0 < workgroup_size_x,
            ;
            lemma_fundamental_div_mod(workgroup_size_x * workgroup_id * 2, h as int);
        }
        let h_offset = h * ((workgroup_size_x * workgroup_id * 2) / h);
        let mut local_thread_id: usize = 0;
        while local_thread_id < workgroup_size_x
            invariant
                vec.len() == n,
                n == s0.len(),
                is_pow2(h as int),
                (2 * workgroup_size_x) as int % h as int == 0,
                2 <= h <= 2 * workgroup_size_x,
                n % h == 0,
                half_h == h / 2,
                workgroup_count * (2 * workgroup_size_x) == n as int,
                workgroup_id < workgroup_count,
                h_offset as int == h * ((workgroup_size_x * workgroup_id * 2) / h as int),
                local_thread_id <= workgroup_size_x,
                vec@ == stage_partial(
                    s0,
                    h as int,
                    false,
                    workgroup_id * workgroup_size_x + local_thread_id,
                ),
            decreases workgroup_size_x - local_thread_id,
        {
            proof {
                assert(2 * (workgroup_id * workgroup_size_x + local_thread_id) < n) by (nonlinear_arith)
                    requires
                        workgroup_count * (2 * workgroup_size_x) == n as int,
                        workgroup_id < workgroup_count,
                        local_thread_id < workgroup_size_x,
                ;
                let g = workgroup_id as int * workgroup_size_x as int + local_thread_id as int;
                lemma_local_formula(
                    workgroup_id as int,
                    local_thread_id as int,
                    h as int,
                    workgroup_size_x as int,
                );
                lemma_global_formula(g, h as int);
                lemma_stage_step(s0, h as int, false, g);
            }
            let q = h_offset + ((2 * local_thread_id) / h) * h;
            let x = q + local_thread_id % half_h;
            local_compare_and_swap(vec, x, x + half_h);
            local_thread_id += 1;
        }
        proof {
            assert((workgroup_id + 1) * workgroup_size_x == workgroup_id * workgroup_size_x
                + workgroup_size_x) by (nonlinear_arith);
        }
        workgroup_id += 1;
    }
    proof {
        assert(workgroup_count * workgroup_size_x == n as int / 2) by (nonlinear_arith)
            requires
                workgroup_count * (2 * workgroup_size_x) == n as int,
        ;
    }
}

} // verus!
