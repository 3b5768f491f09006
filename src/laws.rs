//! What holds of the plans as a whole.
use vstd::prelude::*;
use crate::sortedness::lemma_network_sorts;
use crate::pow2::{is_pow2, lemma_pow2_half, lemma_pow2_double, lemma_pow2_divides};
use crate::network::{
    sorted, compare_exchange, stage, disperse_down, merge_phase, network, pair_lo, pair_hi,
    lane_of, lemma_lane_pair, lemma_lane_of, lemma_lane_bound, lemma_network_permutes,
};
use crate::plan::{
    Stage, StageKind, stage_effect, run_plan_spec, stage_fits, disperse_stages, big_disperse_stages,
    merge_stages, hierarchical_plan, flat_plan, lanes_for, lemma_floor_pow2,
};

verus! {

/// Running two plans one after the other is running their concatenation.
pub proof fn lemma_run_concat(s: Seq<u32>, a: Seq<Stage>, b: Seq<Stage>)
    ensures
        run_plan_spec(s, a + b) == run_plan_spec(run_plan_spec(s, a), b),
    decreases b.len(),
{
    if b.len() == 0 {
        assert(a + b =~= a);
    } else {
        lemma_run_concat(s, a, b.drop_last());
        assert((a + b).drop_last() =~= a + b.drop_last());
    }
}

proof fn lemma_run_single(s: Seq<u32>, st: Stage)
    ensures
        run_plan_spec(s, seq![st]) == stage_effect(s, st),
{
    assert(seq![st].drop_last() =~= Seq::<Stage>::empty());
    assert(seq![st].last() == st);
    assert(run_plan_spec(s, Seq::<Stage>::empty()) == s);
}

proof fn lemma_run_disperse_stages(s: Seq<u32>, k: int, lanes: int)
    requires
        k <= usize::MAX,
    ensures
        run_plan_spec(s, disperse_stages(k, lanes)) == disperse_down(s, k),
        run_plan_spec(s, big_disperse_stages(k, lanes)) == disperse_down(s, k),
    decreases k,
{
    if k >= 2 {
        let st = Stage {
            kind: if k <= 2 * lanes {
                StageKind::LocalDisperse
            } else {
                StageKind::BigDisperse
            },
            height: k as usize,
            group_lanes: lanes as usize,
        };
        let bst = Stage {
            kind: StageKind::BigDisperse,
            height: k as usize,
            group_lanes: lanes as usize,
        };
        lemma_run_concat(s, seq![st], disperse_stages(k / 2, lanes));
        lemma_run_concat(s, seq![bst], big_disperse_stages(k / 2, lanes));
        lemma_run_single(s, st);
        lemma_run_single(s, bst);
        assert(k as usize as int == k);
        lemma_run_disperse_stages(stage(s, k, false), k / 2, lanes);
    } else {
        assert(run_plan_spec(s, Seq::<Stage>::empty()) == s);
    }
}

proof fn lemma_run_phase(s: Seq<u32>, h: int, lanes: int, disperses: Seq<Stage>)
    requires
        2 <= h <= usize::MAX,
        run_plan_spec(stage(s, h, true), disperses) == disperse_down(stage(s, h, true), h / 2),
    ensures
        run_plan_spec(
            s,
            seq![Stage { kind: StageKind::BigFlip, height: h as usize, group_lanes: lanes as usize }]
                + disperses,
        ) == merge_phase(s, h),
{
    let st = Stage { kind: StageKind::BigFlip, height: h as usize, group_lanes: lanes as usize };
    lemma_run_concat(s, seq![st], disperses);
    lemma_run_single(s, st);
    assert(h as usize as int == h);
}

proof fn lemma_run_merge_stages(s: Seq<u32>, h: int, lanes: int)
    requires
        is_pow2(h),
        h <= usize::MAX,
        is_pow2(lanes),
        2 * lanes <= h,
    ensures
        run_plan_spec(network(s, 2 * lanes), merge_stages(h, lanes)) == network(s, h),
    decreases h,
{
    if h <= 2 * lanes {
        assert(run_plan_spec(network(s, 2 * lanes), Seq::<Stage>::empty()) == network(s, 2 * lanes));
    } else {
        lemma_pow2_half(h);
        lemma_pow2_double(lanes);
        lemma_pow2_divides(2 * lanes, h);
        lemma_run_merge_stages(s, h / 2, lanes);
        let st = Stage { kind: StageKind::BigFlip, height: h as usize, group_lanes: lanes as usize };
        let prev = network(s, h / 2);
        lemma_run_concat(
            network(s, 2 * lanes),
            merge_stages(h / 2, lanes),
            seq![st] + disperse_stages(h / 2, lanes),
        );
        assert(merge_stages(h / 2, lanes) + seq![st] + disperse_stages(h / 2, lanes)
            =~= merge_stages(h / 2, lanes) + (seq![st] + disperse_stages(h / 2, lanes)));
        lemma_run_disperse_stages(stage(prev, h, true), h / 2, lanes);
        lemma_run_phase(prev, h, lanes, disperse_stages(h / 2, lanes));
    }
}

/// The hierarchical plan runs the bitonic network of span `n`.
pub proof fn lemma_hierarchical_plan(s: Seq<u32>, n: int, lanes: int)
    requires
        is_pow2(n),
        n <= usize::MAX,
        is_pow2(lanes),
        2 * lanes <= n,
    ensures
        run_plan_spec(s, hierarchical_plan(n, lanes)) == network(s, n),
{
    let st = Stage {
        kind: StageKind::LocalBitonicMergeSort,
        height: (2 * lanes) as usize,
        group_lanes: lanes as usize,
    };
    lemma_run_concat(s, seq![st], merge_stages(n, lanes));
    lemma_run_single(s, st);
    lemma_run_merge_stages(s, n, lanes);
}

/// The flat plan runs the bitonic network of span `h`.
pub proof fn lemma_flat_plan(s: Seq<u32>, h: int, lanes: int)
    requires
        is_pow2(h),
        h <= usize::MAX,
    ensures
        run_plan_spec(s, flat_plan(h, lanes)) == network(s, h),
    decreases h,
{
    if h < 2 {
        assert(run_plan_spec(s, Seq::<Stage>::empty()) == s);
    } else {
        lemma_pow2_half(h);
        lemma_flat_plan(s, h / 2, lanes);
        let st = Stage { kind: StageKind::BigFlip, height: h as usize, group_lanes: lanes as usize };
        let prev = network(s, h / 2);
        lemma_run_concat(s, flat_plan(h / 2, lanes), seq![st] + big_disperse_stages(h / 2, lanes));
        assert(flat_plan(h / 2, lanes) + seq![st] + big_disperse_stages(h / 2, lanes)
            =~= flat_plan(h / 2, lanes) + (seq![st] + big_disperse_stages(h / 2, lanes)));
        lemma_run_disperse_stages(stage(prev, h, true), h / 2, lanes);
        lemma_run_phase(prev, h, lanes, big_disperse_stages(h / 2, lanes));
    }
}

/// The lanes chosen for a valid length and capacity are a power of two whose
/// window fits in the sequence.
pub proof fn lemma_lanes_for(n: int, group_capacity: int)
    requires
        2 <= n,
        1 <= group_capacity,
    ensures
        is_pow2(lanes_for(n, group_capacity)),
        1 <= lanes_for(n, group_capacity),
        2 * lanes_for(n, group_capacity) <= n,
{
    let m = if n / 2 < group_capacity {
        n / 2
    } else {
        group_capacity
    };
    lemma_floor_pow2(m);
}

/// Plan equivalence: for a sequence of `n` elements, `n` a power of two, the
/// hierarchical plan and the flat plan leave the same sequence, and so do the
/// hierarchical plans made for any two group capacities.
pub proof fn lemma_plans_agree(s: Seq<u32>, group_capacity: int, other_capacity: int)
    requires
        is_pow2(s.len() as int),
        2 <= s.len() <= usize::MAX,
        1 <= group_capacity,
        1 <= other_capacity,
    ensures
        run_plan_spec(s, hierarchical_plan(s.len() as int, lanes_for(s.len() as int, group_capacity)))
            == run_plan_spec(s, flat_plan(s.len() as int, lanes_for(s.len() as int, group_capacity))),
        run_plan_spec(s, hierarchical_plan(s.len() as int, lanes_for(s.len() as int, group_capacity)))
            == run_plan_spec(
            s,
            hierarchical_plan(s.len() as int, lanes_for(s.len() as int, other_capacity)),
        ),
{
    let n = s.len() as int;
    lemma_lanes_for(n, group_capacity);
    lemma_lanes_for(n, other_capacity);
    lemma_hierarchical_plan(s, n, lanes_for(n, group_capacity));
    lemma_hierarchical_plan(s, n, lanes_for(n, other_capacity));
    lemma_flat_plan(s, n, lanes_for(n, group_capacity));
}

/// On a sorted sequence, the compare-exchange of lane `g` of a stage finds
/// its pair in order and swaps nothing.
pub proof fn lemma_sorted_no_swap(s: Seq<u32>, h: int, flip: bool, g: int)
    requires
        sorted(s),
        is_pow2(h),
        2 <= h,
        s.len() as int % h == 0,
        0 <= g,
        2 * g < s.len(),
    ensures
        s[pair_lo(g, h)] <= s[pair_hi(g, h, flip)],
        compare_exchange(s, pair_lo(g, h), pair_hi(g, h, flip)) == s,
{
    lemma_lane_pair(g, h, s.len() as int, flip);
}

/// A stage leaves a sorted sequence unchanged.
pub proof fn lemma_sorted_stage(s: Seq<u32>, h: int, flip: bool)
    requires
        sorted(s),
        is_pow2(h),
        2 <= h,
        s.len() as int % h == 0,
    ensures
        stage(s, h, flip) == s,
{
    assert forall|i: int| 0 <= i < s.len() implies stage(s, h, flip)[i] == s[i] by {
        lemma_lane_of(i, h, flip);
        lemma_lane_bound(i, h, s.len() as int, flip);
        lemma_lane_pair(lane_of(i, h, flip), h, s.len() as int, flip);
    }
    assert(stage(s, h, flip) =~= s);
}

proof fn lemma_divides_trans(n: int, h: int, k: int)
    requires
        is_pow2(h),
        is_pow2(k),
        k <= h,
        n % h == 0,
    ensures
        n % k == 0,
{
    lemma_pow2_divides(k, h);
    vstd::arithmetic::div_mod::lemma_fundamental_div_mod(n, h);
    vstd::arithmetic::div_mod::lemma_fundamental_div_mod(h, k);
    let a = n / h;
    let b = h / k;
    assert(n == (a * b) * k) by (nonlinear_arith)
        requires
            n == h * a,
            h == k * b,
    ;
    vstd::arithmetic::div_mod::lemma_fundamental_div_mod_converse(n, k, a * b, 0);
}

proof fn lemma_sorted_disperse_down(s: Seq<u32>, k: int)
    requires
        sorted(s),
        is_pow2(k),
        s.len() as int % k == 0,
    ensures
        disperse_down(s, k) == s,
    decreases k,
{
    if k >= 2 {
        lemma_sorted_stage(s, k, false);
        lemma_pow2_half(k);
        lemma_divides_trans(s.len() as int, k, k / 2);
        lemma_sorted_disperse_down(s, k / 2);
    }
}

/// The network leaves a sorted sequence unchanged.
pub proof fn lemma_sorted_network(s: Seq<u32>, h: int)
    requires
        sorted(s),
        is_pow2(h),
        s.len() as int % h == 0,
    ensures
        network(s, h) == s,
    decreases h,
{
    if h >= 2 {
        lemma_pow2_half(h);
        lemma_divides_trans(s.len() as int, h, h / 2);
        lemma_sorted_network(s, h / 2);
        lemma_sorted_stage(s, h, true);
        lemma_sorted_disperse_down(s, h / 2);
    }
}

/// Idempotence: every prefix of a plan of stages that fit the sequence leaves
/// a sorted sequence unchanged, so each stage of the plan meets the sorted
/// sequence itself, where no compare-exchange swaps (`lemma_sorted_no_swap`).
pub proof fn lemma_sorted_fixed_by_plan(s: Seq<u32>, plan: Seq<Stage>)
    requires
        sorted(s),
        forall|i: int| 0 <= i < plan.len() ==> stage_fits(#[trigger] plan[i], s.len() as int),
    ensures
        forall|i: int| 0 <= i <= plan.len() ==> run_plan_spec(s, #[trigger] plan.subrange(0, i)) == s,
    decreases plan.len(),
{
    if plan.len() > 0 {
        let prev = plan.drop_last();
        lemma_sorted_fixed_by_plan(s, prev);
        assert forall|i: int| 0 <= i <= plan.len() implies run_plan_spec(
            s,
            #[trigger] plan.subrange(0, i),
        ) == s by {
            if i < plan.len() {
                assert(plan.subrange(0, i) =~= prev.subrange(0, i));
            } else {
                assert(plan.subrange(0, i) =~= plan);
                assert(prev.subrange(0, prev.len() as int) =~= prev);
                let st = plan.last();
                assert(stage_fits(plan[plan.len() - 1], s.len() as int));
                let n = s.len() as int;
                lemma_pow2_divides(st.height as int, n);
                lemma_sorted_stage(s, st.height as int, true);
                lemma_sorted_stage(s, st.height as int, false);
                lemma_sorted_network(s, st.height as int);
            }
        }
    } else {
        assert forall|i: int| 0 <= i <= plan.len() implies run_plan_spec(
            s,
            #[trigger] plan.subrange(0, i),
        ) == s by {
            assert(plan.subrange(0, i) =~= Seq::<Stage>::empty());
        }
    }
}

/// Sortedness: for a sequence whose length is a power of two, the plan made
/// for any group capacity leaves it in non-decreasing order, with the same
/// elements.
pub proof fn lemma_plan_sorts(s: Seq<u32>, group_capacity: int)
    requires
        is_pow2(s.len() as int),
        2 <= s.len() <= usize::MAX,
        1 <= group_capacity,
    ensures
        sorted(run_plan_spec(s, hierarchical_plan(s.len() as int, lanes_for(s.len() as int, group_capacity)))),
        run_plan_spec(s, hierarchical_plan(s.len() as int, lanes_for(s.len() as int, group_capacity))).to_multiset()
            == s.to_multiset(),
{
    let n = s.len() as int;
    lemma_lanes_for(n, group_capacity);
    lemma_hierarchical_plan(s, n, lanes_for(n, group_capacity));
    lemma_network_sorts(s);
    vstd::arithmetic::div_mod::lemma_mod_self_0(n);
    lemma_network_permutes(s, n);
}

} // verus!
