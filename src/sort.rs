//! The whole sort: each group's window sorted with local stages, then merge
//! phases of growing height that use global stages only where a pair can
//! cross windows.
use vstd::prelude::*;
use crate::pow2::{
    is_pow2, lemma_pow2_half, lemma_pow2_double, lemma_pow2_divides, lemma_pow2_divides_multiple,
};
use crate::sortedness::{lemma_network_sorts, lemma_network_sorts_blocks};
use crate::network::{
    sorted, stage, disperse_down, merge_phase, network, lemma_network_len, lemma_network_permutes,
};
use crate::stages::{local_flip, local_disperse, big_flip, big_disperse};
use crate::plan::group_lanes;

verus! {

/// Runs the network of span `h` with local stages only, so that every block
/// of `h` elements ends sorted. `h` must divide a group's window of
/// `2 * workgroup_size_x` elements, and the windows must tile the sequence.
pub fn local_bitonic_merge_sort(vec: &mut Vec<u32>, h: usize, workgroup_size_x: usize)
    requires
        is_pow2(h as int),
        2 <= h <= 2 * workgroup_size_x,
        (2 * workgroup_size_x) as int % h as int == 0,
        0 < old(vec).len(),
        old(vec).len() as int % (2 * workgroup_size_x) == 0,
    ensures
        final(vec)@ == network(old(vec)@, h as int),
        forall|i: int, j: int|
            0 <= i < j < old(vec).len() && i / (h as int) == j / (h as int) ==> #[trigger] final(vec)@[i]
                <= #[trigger] final(vec)@[j],
        final(vec)@.to_multiset() == old(vec)@.to_multiset(),
{
    let ghost s0 = vec@;
    let n = vec.len();
    let mut hh: usize = 2;
    assert(network(s0, 1) == s0);
    assert(is_pow2(1));
    assert(is_pow2(2));
    loop
        invariant_except_break
            vec.len() == n,
            0 < n,
            n as int % (2 * workgroup_size_x) == 0,
            is_pow2(h as int),
            2 <= h <= 2 * workgroup_size_x,
            (2 * workgroup_size_x) as int % h as int == 0,
            is_pow2(hh as int),
            2 <= hh <= h,
            vec@ == network(s0, hh as int / 2),
        ensures
            vec@ == network(s0, h as int),
        decreases h - hh,
    {
        proof {
            lemma_pow2_half(hh as int);
            assert(network(s0, hh as int) == merge_phase(network(s0, hh as int / 2), hh as int));
            lemma_pow2_divides_multiple(2 * workgroup_size_x, h as int, hh as int);
        }
        let ghost flipped = stage(vec@, hh as int, true);
        local_flip(vec, hh, workgroup_size_x);
        let mut hhh = hh / 2;
        while hhh > 1
            invariant
                vec.len() == n,
                0 < n,
                n as int % (2 * workgroup_size_x) == 0,
                is_pow2(h as int),
                (2 * workgroup_size_x) as int % h as int == 0,
                is_pow2(hhh as int),
                1 <= hhh <= h,
                h <= 2 * workgroup_size_x,
                disperse_down(vec@, hhh as int) == disperse_down(flipped, hh as int / 2),
            decreases hhh,
        {
            proof {
                lemma_pow2_half(hhh as int);
                lemma_pow2_divides_multiple(2 * workgroup_size_x, h as int, hhh as int);
            }
            local_disperse(vec, hhh, workgroup_size_x);
            hhh /= 2;
        }
        if hh >= h {
            break;
        }
        proof {
            lemma_pow2_divides(hh as int, h as int);
            lemma_pow2_double(hh as int);
            assert((2 * hh) as int / 2 == hh as int);
        }
        hh *= 2;
    }
    proof {
        lemma_window_tiles(n as int, h as int, workgroup_size_x as int);
        lemma_network_sorts_blocks(s0, h as int);
        lemma_network_permutes(s0, h as int);
    }
}

proof fn lemma_window_tiles(n: int, h: int, lanes: int)
    requires
        0 < h <= 2 * lanes,
        (2 * lanes) % h == 0,
        n % (2 * lanes) == 0,
    ensures
        n % h == 0,
{
    vstd::arithmetic::div_mod::lemma_fundamental_div_mod(2 * lanes, h);
    vstd::arithmetic::div_mod::lemma_fundamental_div_mod(n, 2 * lanes);
    let m = (2 * lanes) / h;
    let k = n / (2 * lanes);
    assert(n == (k * m) * h) by (nonlinear_arith)
        requires
            n == (2 * lanes) * k + 0,
            2 * lanes == h * m + 0,
    ;
    vstd::arithmetic::div_mod::lemma_fundamental_div_mod_converse(n, h, k * m, 0);
}

/// Sorts a sequence whose length is a power of two, with groups of at most
/// `workgroup_size_x` lanes: the network of span `vec.len()`. The groups run
/// with the largest power of two of lanes that is at most `workgroup_size_x`
/// and at most half the length, so that the windows tile the sequence and no
/// padding is needed.
pub fn global_bitonic_merge_sort(vec: &mut Vec<u32>, workgroup_size_x: usize)
    requires
        is_pow2(old(vec).len() as int),
        1 <= workgroup_size_x,
    ensures
        final(vec)@ == network(old(vec)@, old(vec).len() as int),
        sorted(final(vec)@),
        final(vec)@.to_multiset() == old(vec)@.to_multiset(),
{
    let ghost s0 = vec@;
    let n = vec.len();
    proof {
        lemma_network_sorts(s0);
        lemma_network_permutes(s0, n as int);
    }
    if n < 2 {
        assert(network(s0, 1) == s0);
        return;
    }
    let lanes = group_lanes(n, workgroup_size_x);
    let mut h = lanes * 2;
    proof {
        lemma_pow2_double(lanes as int);
        lemma_pow2_divides(h as int, n as int);
        vstd::arithmetic::div_mod::lemma_mod_self_0(h as int);
    }
    local_bitonic_merge_sort(vec, h, lanes);
    proof {
        lemma_network_len(s0, h as int);
    }
    while h < n
        invariant
            vec.len() == n,
            n == s0.len(),
            is_pow2(n as int),
            is_pow2(lanes as int),
            is_pow2(h as int),
            2 * lanes <= h <= n,
            n as int % (2 * lanes) == 0,
            vec@ == network(s0, h as int),
        decreases n - h,
    {
        proof {
            lemma_pow2_divides(h as int, n as int);
            lemma_pow2_double(h as int);
            lemma_pow2_divides(2 * h, n as int);
            assert((2 * h) as int / 2 == h as int);
            assert(network(s0, 2 * h) == merge_phase(network(s0, h as int), 2 * h));
        }
        h *= 2;
        let ghost flipped = stage(vec@, h as int, true);
        big_flip(vec, h, lanes);
        let mut hh = h / 2;
        while hh > 1
            invariant
                vec.len() == n,
                is_pow2(n as int),
                n as int % (2 * lanes) == 0,
                is_pow2(lanes as int),
                0 < lanes,
                2 * lanes <= n,
                is_pow2(hh as int),
                1 <= hh <= n,
                disperse_down(vec@, hh as int) == disperse_down(flipped, h as int / 2),
            decreases hh,
        {
            proof {
                lemma_pow2_half(hh as int);
                lemma_pow2_divides(hh as int, n as int);
                lemma_pow2_double(lanes as int);
                if hh <= lanes * 2 {
                    lemma_pow2_divides(hh as int, 2 * lanes);
                }
            }
            if hh <= lanes * 2 {
                local_disperse(vec, hh, lanes);
            } else {
                big_disperse(vec, hh, lanes);
            }
            hh /= 2;
        }
    }
}

} // verus!
