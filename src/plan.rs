//! Stage plans: the ordered list of stages that sorts a sequence, and the
//! interpreter that applies one stage.
use vstd::prelude::*;
use crate::pow2::{is_pow2, lemma_pow2_half, lemma_pow2_double, lemma_pow2_divides};
use crate::network::{
    stage, network, lemma_network_len, lemma_network_permutes, lemma_stage_permutes,
};
use crate::stages::{local_disperse, big_flip, big_disperse};
use crate::sort::local_bitonic_merge_sort;

verus! {

/// The four kinds of stage.
#[derive(Clone, Copy, Debug, PartialEq, Eq, Structural)]
pub enum StageKind {
    /// The whole network up to the stage's height, within each group's window.
    LocalBitonicMergeSort,
    /// A flip whose pairs may cross windows.
    BigFlip,
    /// A disperse within each group's window.
    LocalDisperse,
    /// A disperse whose pairs may cross windows.
    BigDisperse,
}

/// One stage of a plan: its kind, its height, and the number of lanes of
/// each execution group (a group's window holds twice as many elements).
#[derive(Clone, Copy, Debug, PartialEq, Eq, Structural)]
pub struct Stage {
    pub kind: StageKind,
    pub height: usize,
    pub group_lanes: usize,
}

/// Why no plan was made.
#[derive(Clone, Copy, Debug, PartialEq, Eq, Structural)]
pub enum PlanError {
    /// Fewer than two elements.
    LengthTooSmall,
    /// The length is not a power of two.
    LengthNotPowerOfTwo,
    /// A group may hold no lane.
    ZeroGroupCapacity,
}

/// The largest power of two not above `m` (1 when `m < 2`).
pub open spec fn floor_pow2(m: int) -> int
    decreases m,
{
    if m < 2 {
        1
    } else {
        2 * floor_pow2(m / 2)
    }
}

/// The lanes of each group for `n` elements: the largest power of two that is
/// at most `n / 2` and at most the capacity, so that windows tile the sequence.
pub open spec fn lanes_for(n: int, group_capacity: int) -> int {
    floor_pow2(if n / 2 < group_capacity {
        n / 2
    } else {
        group_capacity
    })
}

/// What a stage does to a sequence.
pub open spec fn stage_effect(s: Seq<u32>, st: Stage) -> Seq<u32> {
    match st.kind {
        StageKind::LocalBitonicMergeSort => network(s, st.height as int),
        StageKind::BigFlip => stage(s, st.height as int, true),
        StageKind::LocalDisperse => stage(s, st.height as int, false),
        StageKind::BigDisperse => stage(s, st.height as int, false),
    }
}

/// The stages of `plan` applied in order.
pub open spec fn run_plan_spec(s: Seq<u32>, plan: Seq<Stage>) -> Seq<u32>
    decreases plan.len(),
{
    if plan.len() == 0 {
        s
    } else {
        stage_effect(run_plan_spec(s, plan.drop_last()), plan.last())
    }
}

/// A stage that can run on `n` elements: heights and lanes are powers of two,
/// the height and the window fit in the sequence, and a local stage's height
/// fits in the window.
pub open spec fn stage_fits(st: Stage, n: int) -> bool {
    &&& is_pow2(n)
    &&& is_pow2(st.height as int)
    &&& 2 <= st.height <= n
    &&& is_pow2(st.group_lanes as int)
    &&& 2 * st.group_lanes <= n
    &&& (st.kind == StageKind::LocalBitonicMergeSort || st.kind == StageKind::LocalDisperse)
        ==> st.height <= 2 * st.group_lanes
}

/// Disperses from `k` down to 2, local where the height fits in a window.
pub open spec fn disperse_stages(k: int, lanes: int) -> Seq<Stage>
    decreases k,
{
    if k < 2 {
        Seq::empty()
    } else {
        seq![
            Stage {
                kind: if k <= 2 * lanes {
                    StageKind::LocalDisperse
                } else {
                    StageKind::BigDisperse
                },
                height: k as usize,
                group_lanes: lanes as usize,
            },
        ] + disperse_stages(k / 2, lanes)
    }
}

/// The merge phases above the window: heights `4 * lanes`, ..., `h`.
pub open spec fn merge_stages(h: int, lanes: int) -> Seq<Stage>
    decreases h,
{
    if h <= 2 * lanes || h < 2 {
        Seq::empty()
    } else {
        merge_stages(h / 2, lanes) + seq![
            Stage { kind: StageKind::BigFlip, height: h as usize, group_lanes: lanes as usize },
        ] + disperse_stages(h / 2, lanes)
    }
}

/// The hierarchical plan for `n` elements: the windows sorted locally, then
/// the merge phases above the window.
pub open spec fn hierarchical_plan(n: int, lanes: int) -> Seq<Stage> {
    seq![
        Stage {
            kind: StageKind::LocalBitonicMergeSort,
            height: (2 * lanes) as usize,
            group_lanes: lanes as usize,
        },
    ] + merge_stages(n, lanes)
}

/// Disperses from `k` down to 2, all global.
pub open spec fn big_disperse_stages(k: int, lanes: int) -> Seq<Stage>
    decreases k,
{
    if k < 2 {
        Seq::empty()
    } else {
        seq![Stage { kind: StageKind::BigDisperse, height: k as usize, group_lanes: lanes as usize }]
            + big_disperse_stages(k / 2, lanes)
    }
}

/// The flat plan: merge phases of heights 2, 4, ..., `h`, every stage global.
pub open spec fn flat_plan(h: int, lanes: int) -> Seq<Stage>
    decreases h,
{
    if h < 2 {
        Seq::empty()
    } else {
        flat_plan(h / 2, lanes) + seq![
            Stage { kind: StageKind::BigFlip, height: h as usize, group_lanes: lanes as usize },
        ] + big_disperse_stages(h / 2, lanes)
    }
}

/// The largest power of two not above `m` is a power of two, within a factor
/// of two of `m`.
pub proof fn lemma_floor_pow2(m: int)
    requires
        1 <= m,
    ensures
        is_pow2(floor_pow2(m)),
        floor_pow2(m) <= m < 2 * floor_pow2(m),
    decreases m,
{
    if m >= 2 {
        lemma_floor_pow2(m / 2);
        lemma_pow2_double(floor_pow2(m / 2));
    } else {
        assert(is_pow2(1));
    }
}

/// The lanes of each group for `n` elements and the given capacity: the
/// capacity rounded down to a power of two, and to at most `n / 2`, which
/// takes the place of padding the sequence to a whole number of windows.
pub fn group_lanes(n: usize, group_capacity: usize) -> (l: usize)
    requires
        2 <= n,
        1 <= group_capacity,
    ensures
        l == lanes_for(n as int, group_capacity as int),
        is_pow2(l as int),
        1 <= l,
        l <= n / 2,
        l <= group_capacity,
{
    let m = if n / 2 < group_capacity {
        n / 2
    } else {
        group_capacity
    };
    let mut p: usize = 1;
    let mut r: usize = m;
    proof {
        lemma_floor_pow2(m as int);
    }
    while r >= 2
        invariant
            1 <= r,
            1 <= p,
            p * r <= m,
            p * floor_pow2(r as int) == floor_pow2(m as int),
        decreases r,
    {
        proof {
            assert(p * 2 <= m) by (nonlinear_arith)
                requires
                    p * r <= m,
                    r >= 2,
                    p >= 1,
            ;
            assert(p * 2 * (r / 2) <= m) by (nonlinear_arith)
                requires
                    p * r <= m,
                    r >= 2,
                    p >= 1,
            ;
            assert(p * floor_pow2(r as int) == (p * 2) * floor_pow2(r as int / 2)) by (nonlinear_arith)
                requires
                    floor_pow2(r as int) == 2 * floor_pow2(r as int / 2),
            ;
        }
        p = p * 2;
        r = r / 2;
    }
    p
}

/// Applies one stage to the sequence in place.
pub fn run_stage(seq: &mut Vec<u32>, st: Stage)
    requires
        stage_fits(st, old(seq).len() as int),
    ensures
        final(seq)@ == stage_effect(old(seq)@, st),
        final(seq)@.to_multiset() == old(seq)@.to_multiset(),
{
    let n = seq.len();
    proof {
        lemma_pow2_divides(st.height as int, n as int);
        lemma_stage_effect_permutes(seq@, st);
        lemma_pow2_double(st.group_lanes as int);
        lemma_pow2_divides(2 * st.group_lanes, n as int);
    }
    match st.kind {
        StageKind::LocalBitonicMergeSort => {
            proof {
                lemma_pow2_divides(st.height as int, 2 * st.group_lanes);
            }
            local_bitonic_merge_sort(seq, st.height, st.group_lanes);
        },
        StageKind::BigFlip => {
            big_flip(seq, st.height, st.group_lanes);
        },
        StageKind::LocalDisperse => {
            proof {
                lemma_pow2_divides(st.height as int, 2 * st.group_lanes);
            }
            local_disperse(seq, st.height, st.group_lanes);
        },
        StageKind::BigDisperse => {
            big_disperse(seq, st.height, st.group_lanes);
        },
    }
}

proof fn lemma_stage_effect_permutes(s: Seq<u32>, st: Stage)
    requires
        stage_fits(st, s.len() as int),
    ensures
        stage_effect(s, st).to_multiset() == s.to_multiset(),
{
    lemma_pow2_divides(st.height as int, s.len() as int);
    lemma_stage_permutes(s, st.height as int, true);
    lemma_stage_permutes(s, st.height as int, false);
    lemma_network_permutes(s, st.height as int);
}

proof fn lemma_stage_effect_len(s: Seq<u32>, st: Stage)
    ensures
        stage_effect(s, st).len() == s.len(),
{
    lemma_network_len(s, st.height as int);
}

/// Applies the stages of `plan` in order, each one completed before the next.
pub fn run_plan(seq: &mut Vec<u32>, plan: &Vec<Stage>)
    requires
        forall|i: int| 0 <= i < plan.len() ==> stage_fits(#[trigger] plan@[i], old(seq).len() as int),
    ensures
        final(seq)@ == run_plan_spec(old(seq)@, plan@),
        final(seq)@.to_multiset() == old(seq)@.to_multiset(),
{
    let ghost s0 = seq@;
    let n = seq.len();
    let mut i: usize = 0;
    assert(plan@.subrange(0, 0) =~= Seq::<Stage>::empty());
    while i < plan.len()
        invariant
            seq.len() == n,
            n == s0.len(),
            i <= plan.len(),
            forall|j: int| 0 <= j < plan.len() ==> stage_fits(#[trigger] plan@[j], n as int),
            seq@ == run_plan_spec(s0, plan@.subrange(0, i as int)),
            seq@.to_multiset() == s0.to_multiset(),
        decreases plan.len() - i,
    {
        proof {
            lemma_stage_effect_len(seq@, plan@[i as int]);
            assert(plan@.subrange(0, i + 1).drop_last() =~= plan@.subrange(0, i as int));
        }
        run_stage(seq, plan[i]);
        i += 1;
    }
    assert(plan@.subrange(0, plan.len() as int) =~= plan@);
}

/// Whether `n` is a power of two.
pub fn is_power_of_two(n: usize) -> (r: bool)
    ensures
        r == is_pow2(n as int),
{
    if n == 0 {
        return false;
    }
    let mut p: usize = 1;
    assert(is_pow2(1));
    while p < n
        invariant
            1 <= p <= n,
            is_pow2(p as int),
        decreases n - p,
    {
        if p > n / 2 {
            proof {
                if is_pow2(n as int) {
                    lemma_pow2_divides(p as int, n as int);
                }
            }
            return false;
        }
        proof {
            lemma_pow2_double(p as int);
        }
        p = p * 2;
    }
    true
}

/// The plan that sorts `n` elements with groups of at most `group_capacity`
/// lanes. Fails when `n < 2`, when `n` is not a power of two, or when the
/// capacity is zero, in that order of precedence.
///
/// The groups run with `lanes_for(n, group_capacity)` lanes: the capacity
/// rounded down to a power of two, and to at most `n / 2`. Every window of
/// twice that many elements then tiles the sequence exactly, so a capacity
/// whose windows would not divide `n` (3 lanes for 16 elements, say) needs no
/// padding with sentinel keys: the plan uses fewer lanes per group instead,
/// and sorts the same.
pub fn plan_sort(n: usize, group_capacity: usize) -> (r: Result<Vec<Stage>, PlanError>)
    ensures
        r == Err::<Vec<Stage>, PlanError>(PlanError::LengthTooSmall) <==> n < 2,
        r == Err::<Vec<Stage>, PlanError>(PlanError::LengthNotPowerOfTwo) <==> 2 <= n && !is_pow2(
            n as int,
        ),
        r == Err::<Vec<Stage>, PlanError>(PlanError::ZeroGroupCapacity) <==> 2 <= n && is_pow2(
            n as int,
        ) && group_capacity == 0,
        r matches Ok(plan) ==> {
            &&& plan@ == hierarchical_plan(n as int, lanes_for(n as int, group_capacity as int))
            &&& forall|i: int| 0 <= i < plan.len() ==> stage_fits(#[trigger] plan@[i], n as int)
        },
{
    if n < 2 {
        return Err(PlanError::LengthTooSmall);
    }
    if !is_power_of_two(n) {
        return Err(PlanError::LengthNotPowerOfTwo);
    }
    if group_capacity == 0 {
        return Err(PlanError::ZeroGroupCapacity);
    }
    let lanes = group_lanes(n, group_capacity);
    let ghost l = lanes as int;
    let first = Stage {
        kind: StageKind::LocalBitonicMergeSort,
        height: lanes * 2,
        group_lanes: lanes,
    };
    let mut plan: Vec<Stage> = Vec::new();
    plan.push(first);
    let mut h = lanes * 2;
    proof {
        lemma_pow2_double(l);
        lemma_pow2_divides(2 * l, n as int);
        assert(merge_stages(h as int, l) =~= Seq::<Stage>::empty());
        assert(plan@ =~= hierarchical_plan(h as int, l));
    }
    while h < n
        invariant
            is_pow2(n as int),
            is_pow2(l),
            lanes == l,
            1 <= l,
            is_pow2(h as int),
            2 * l <= h <= n,
            plan@ == seq![first] + merge_stages(h as int, l),
            first == (Stage {
                kind: StageKind::LocalBitonicMergeSort,
                height: (2 * l) as usize,
                group_lanes: l as usize,
            }),
            forall|i: int| 0 <= i < plan.len() ==> stage_fits(#[trigger] plan@[i], n as int),
        decreases n - h,
    {
        proof {
            lemma_pow2_divides(h as int, n as int);
            lemma_pow2_double(h as int);
            assert((2 * h) as int / 2 == h as int);
        }
        let ghost base = plan@;
        h = h * 2;
        let flip = Stage { kind: StageKind::BigFlip, height: h, group_lanes: lanes };
        plan.push(flip);
        let mut hh = h / 2;
        proof {
            assert(plan@ + disperse_stages(hh as int, l) =~= base + seq![flip] + disperse_stages(
                h as int / 2,
                l,
            ));
        }
        while hh > 1
            invariant
                is_pow2(n as int),
                is_pow2(l),
                lanes == l,
                1 <= l,
                2 * l <= n,
                is_pow2(hh as int),
                1 <= hh <= n,
                plan@ + disperse_stages(hh as int, l) == base + seq![flip] + disperse_stages(
                    h as int / 2,
                    l,
                ),
                forall|i: int| 0 <= i < plan.len() ==> stage_fits(#[trigger] plan@[i], n as int),
            decreases hh,
        {
            let kind = if hh <= lanes * 2 {
                StageKind::LocalDisperse
            } else {
                StageKind::BigDisperse
            };
            let st = Stage { kind, height: hh, group_lanes: lanes };
            proof {
                lemma_pow2_half(hh as int);
                assert(disperse_stages(hh as int, l) == seq![st] + disperse_stages(hh as int / 2, l));
                assert(plan@.push(st) + disperse_stages(hh as int / 2, l) =~= plan@ + (seq![st]
                    + disperse_stages(hh as int / 2, l)));
            }
            plan.push(st);
            hh = hh / 2;
        }
        proof {
            assert(disperse_stages(hh as int, l) =~= Seq::<Stage>::empty());
            assert(plan@ =~= plan@ + disperse_stages(hh as int, l));
            assert(merge_stages(h as int, l) == merge_stages(h as int / 2, l) + seq![flip]
                + disperse_stages(h as int / 2, l));
            assert(plan@ =~= seq![first] + merge_stages(h as int, l));
        }
    }
    Ok(plan)
}

/// The flat plan for `n` elements: every merge phase from height 2 with
/// global stages only, each run by groups of `lanes_for(n, group_capacity)`
/// lanes. It fails on the same inputs as `plan_sort`.
pub fn plan_flat(n: usize, group_capacity: usize) -> (r: Result<Vec<Stage>, PlanError>)
    ensures
        r == Err::<Vec<Stage>, PlanError>(PlanError::LengthTooSmall) <==> n < 2,
        r == Err::<Vec<Stage>, PlanError>(PlanError::LengthNotPowerOfTwo) <==> 2 <= n && !is_pow2(
            n as int,
        ),
        r == Err::<Vec<Stage>, PlanError>(PlanError::ZeroGroupCapacity) <==> 2 <= n && is_pow2(
            n as int,
        ) && group_capacity == 0,
        r matches Ok(plan) ==> {
            &&& plan@ == flat_plan(n as int, lanes_for(n as int, group_capacity as int))
            &&& forall|i: int| 0 <= i < plan.len() ==> stage_fits(#[trigger] plan@[i], n as int)
        },
{
    if n < 2 {
        return Err(PlanError::LengthTooSmall);
    }
    if !is_power_of_two(n) {
        return Err(PlanError::LengthNotPowerOfTwo);
    }
    if group_capacity == 0 {
        return Err(PlanError::ZeroGroupCapacity);
    }
    let lanes = group_lanes(n, group_capacity);
    let ghost l = lanes as int;
    let mut plan: Vec<Stage> = Vec::new();
    let mut h: usize = 1;
    proof {
        assert(is_pow2(1));
        assert(flat_plan(1, l) =~= Seq::<Stage>::empty());
        assert(plan@ =~= flat_plan(1, l));
    }
    while h < n
        invariant
            is_pow2(n as int),
            is_pow2(l),
            lanes == l,
            1 <= l,
            2 * l <= n,
            is_pow2(h as int),
            1 <= h <= n,
            plan@ == flat_plan(h as int, l),
            forall|i: int| 0 <= i < plan.len() ==> stage_fits(#[trigger] plan@[i], n as int),
        decreases n - h,
    {
        proof {
            lemma_pow2_divides(h as int, n as int);
            lemma_pow2_double(h as int);
            assert((2 * h) as int / 2 == h as int);
        }
        let ghost base = plan@;
        h = h * 2;
        let flip = Stage { kind: StageKind::BigFlip, height: h, group_lanes: lanes };
        plan.push(flip);
        let mut hh = h / 2;
        proof {
            assert(plan@ + big_disperse_stages(hh as int, l) =~= base + seq![flip]
                + big_disperse_stages(h as int / 2, l));
        }
        while hh > 1
            invariant
                is_pow2(n as int),
                is_pow2(l),
                lanes == l,
                2 * l <= n,
                is_pow2(hh as int),
                1 <= hh <= n,
                plan@ + big_disperse_stages(hh as int, l) == base + seq![flip] + big_disperse_stages(
                    h as int / 2,
                    l,
                ),
                forall|i: int| 0 <= i < plan.len() ==> stage_fits(#[trigger] plan@[i], n as int),
            decreases hh,
        {
            let st = Stage { kind: StageKind::BigDisperse, height: hh, group_lanes: lanes };
            proof {
                lemma_pow2_half(hh as int);
                assert(big_disperse_stages(hh as int, l) == seq![st] + big_disperse_stages(
                    hh as int / 2,
                    l,
                ));
                assert(plan@.push(st) + big_disperse_stages(hh as int / 2, l) =~= plan@ + (seq![st]
                    + big_disperse_stages(hh as int / 2, l)));
            }
            plan.push(st);
            hh = hh / 2;
        }
        proof {
            assert(big_disperse_stages(hh as int, l) =~= Seq::<Stage>::empty());
            assert(plan@ =~= plan@ + big_disperse_stages(hh as int, l));
            assert(flat_plan(h as int, l) == flat_plan(h as int / 2, l) + seq![flip]
                + big_disperse_stages(h as int / 2, l));
        }
    }
    Ok(plan)
}

} // verus!
