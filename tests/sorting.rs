use bitonic_sorting::arguments::{Arguments, ArgumentsError};
use bitonic_sorting::parameters::InitParametersUniformBufferContent;
use bitonic_sorting::plan::{
    group_lanes, is_power_of_two, plan_flat, plan_sort, run_plan, run_stage, PlanError, Stage,
    StageKind,
};
use bitonic_sorting::sort::{global_bitonic_merge_sort, local_bitonic_merge_sort};
use bitonic_sorting::stages::{
    big_disperse, big_flip, global_compare_and_swap, local_compare_and_swap, local_disperse,
    local_flip,
};

fn sorted_by_plan(keys: &[u32], group_capacity: usize) -> Vec<u32> {
    let mut v = keys.to_vec();
    let plan = plan_sort(v.len(), group_capacity).unwrap();
    run_plan(&mut v, &plan);
    v
}

fn sorted_by_flat_plan(keys: &[u32], group_capacity: usize) -> Vec<u32> {
    let mut v = keys.to_vec();
    let plan = plan_flat(v.len(), group_capacity).unwrap();
    run_plan(&mut v, &plan);
    v
}

fn pseudo_random_keys(n: usize, seed: u64) -> Vec<u32> {
    let mut state = seed;
    let mut v = Vec::new();
    for _ in 0..n {
        state = state.wrapping_mul(6364136223846793005).wrapping_add(1442695040888963407);
        v.push((state >> 33) as u32 % 50);
    }
    v
}

fn permutation_keys(n: usize, seed: u64) -> Vec<u32> {
    let mut v: Vec<u32> = (0..n as u32).collect();
    let mut state = seed;
    for i in (1..n).rev() {
        state = state.wrapping_mul(6364136223846793005).wrapping_add(1442695040888963407);
        let j = ((state >> 33) as usize) % (i + 1);
        v.swap(i, j);
    }
    v
}

#[test]
fn eight_keys_capacity_four() {
    let keys = [5u32, 3, 7, 1, 6, 0, 2, 4];
    assert_eq!(sorted_by_plan(&keys, 4), vec![0, 1, 2, 3, 4, 5, 6, 7]);
    let mut v = keys.to_vec();
    global_bitonic_merge_sort(&mut v, group_lanes(8, 4));
    assert_eq!(v, vec![0, 1, 2, 3, 4, 5, 6, 7]);
}

#[test]
fn sixteen_keys_capacity_four_uses_global_stage() {
    let keys = [5u32, 3, 7, 1, 6, 0, 2, 4, 13, 11, 15, 9, 14, 8, 10, 12];
    let plan = plan_sort(16, 4).unwrap();
    assert!(plan.iter().any(|st| st.kind == StageKind::BigFlip));
    let mut expected = keys.to_vec();
    expected.sort();
    assert_eq!(sorted_by_plan(&keys, 4), expected);
    let mut v = keys.to_vec();
    global_bitonic_merge_sort(&mut v, group_lanes(16, 4));
    assert_eq!(v, expected);
}

#[test]
fn plans_sort_permutations_for_every_capacity() {
    for &n in &[4usize, 8, 16, 32, 64, 128] {
        for seed in 0..5u64 {
            let keys = permutation_keys(n, seed);
            let expected: Vec<u32> = (0..n as u32).collect();
            for c in 1..=n {
                assert_eq!(sorted_by_plan(&keys, c), expected, "n={} c={}", n, c);
            }
        }
    }
}

#[test]
fn hierarchical_and_flat_plans_agree() {
    for &n in &[2usize, 4, 8, 16, 32, 64] {
        for seed in 0..4u64 {
            let keys = pseudo_random_keys(n, seed);
            let mut expected = keys.clone();
            expected.sort();
            for c in 1..=n {
                let a = sorted_by_plan(&keys, c);
                assert_eq!(a, sorted_by_flat_plan(&keys, c));
                assert_eq!(a, expected);
            }
        }
    }
}

#[test]
fn sorted_input_is_left_unchanged() {
    let keys: Vec<u32> = vec![0, 1, 1, 2, 5, 5, 5, 9];
    for c in 1..=8 {
        let plan = plan_sort(8, c).unwrap();
        let mut v = keys.clone();
        for st in &plan {
            run_stage(&mut v, *st);
            assert_eq!(v, keys);
        }
    }
}

#[test]
fn plan_for_sixteen_with_four_lanes() {
    let plan = plan_sort(16, 4).unwrap();
    let st = |kind, height| Stage { kind, height, group_lanes: 4 };
    assert_eq!(
        plan,
        vec![
            st(StageKind::LocalBitonicMergeSort, 8),
            st(StageKind::BigFlip, 16),
            st(StageKind::LocalDisperse, 8),
            st(StageKind::LocalDisperse, 4),
            st(StageKind::LocalDisperse, 2),
        ]
    );
    let plan = plan_sort(16, 2).unwrap();
    let st = |kind, height| Stage { kind, height, group_lanes: 2 };
    assert_eq!(
        plan,
        vec![
            st(StageKind::LocalBitonicMergeSort, 4),
            st(StageKind::BigFlip, 8),
            st(StageKind::LocalDisperse, 4),
            st(StageKind::LocalDisperse, 2),
            st(StageKind::BigFlip, 16),
            st(StageKind::BigDisperse, 8),
            st(StageKind::LocalDisperse, 4),
            st(StageKind::LocalDisperse, 2),
        ]
    );
}

#[test]
fn flat_plan_for_four() {
    let plan = plan_flat(4, 8).unwrap();
    let st = |kind, height| Stage { kind, height, group_lanes: 2 };
    assert_eq!(
        plan,
        vec![
            st(StageKind::BigFlip, 2),
            st(StageKind::BigFlip, 4),
            st(StageKind::BigDisperse, 2),
        ]
    );
}

#[test]
fn plan_errors() {
    assert_eq!(plan_sort(0, 4), Err(PlanError::LengthTooSmall));
    assert_eq!(plan_sort(1, 4), Err(PlanError::LengthTooSmall));
    assert_eq!(plan_sort(6, 4), Err(PlanError::LengthNotPowerOfTwo));
    assert_eq!(plan_sort(7, 4), Err(PlanError::LengthNotPowerOfTwo));
    assert_eq!(plan_sort(8, 0), Err(PlanError::ZeroGroupCapacity));
    assert_eq!(plan_flat(12, 4), Err(PlanError::LengthNotPowerOfTwo));
    assert!(plan_sort(2, 1).is_ok());
}

#[test]
fn lanes_are_a_power_of_two_within_capacity() {
    assert_eq!(group_lanes(16, 3), 2);
    assert_eq!(group_lanes(16, 4), 4);
    assert_eq!(group_lanes(16, 100), 8);
    assert_eq!(group_lanes(2, 1), 1);
    assert_eq!(group_lanes(64, 7), 4);
}

#[test]
fn power_of_two_check() {
    assert!(!is_power_of_two(0));
    assert!(is_power_of_two(1));
    assert!(is_power_of_two(2));
    assert!(!is_power_of_two(6));
    assert!(is_power_of_two(1 << 40));
    assert!(!is_power_of_two(usize::MAX));
}

#[test]
fn compare_and_swap_orders_a_pair() {
    let mut v = vec![4u32, 1, 3];
    global_compare_and_swap(&mut v, 0, 2);
    assert_eq!(v, vec![3, 1, 4]);
    local_compare_and_swap(&mut v, 1, 2);
    assert_eq!(v, vec![3, 1, 4]);
    local_compare_and_swap(&mut v, 2, 1);
    assert_eq!(v, vec![3, 4, 1]);
}

#[test]
fn single_stages() {
    let mut v = vec![4u32, 3, 2, 1];
    big_flip(&mut v, 4, 1);
    assert_eq!(v, vec![1, 2, 3, 4]);
    let mut v = vec![4u32, 3, 2, 1];
    local_flip(&mut v, 4, 2);
    assert_eq!(v, vec![1, 2, 3, 4]);
    let mut v = vec![3u32, 4, 1, 2];
    big_disperse(&mut v, 4, 1);
    assert_eq!(v, vec![1, 2, 3, 4]);
    let mut v = vec![3u32, 4, 1, 2];
    local_disperse(&mut v, 4, 2);
    assert_eq!(v, vec![1, 2, 3, 4]);
    let mut v = vec![2u32, 1, 9, 8, 4, 3, 7, 6];
    local_flip(&mut v, 2, 2);
    assert_eq!(v, vec![1, 2, 8, 9, 3, 4, 6, 7]);
    let mut v = vec![2u32, 1, 9, 8, 4, 3, 7, 6];
    run_stage(&mut v, Stage { kind: StageKind::BigFlip, height: 8, group_lanes: 2 });
    assert_eq!(v, vec![2, 1, 3, 4, 8, 9, 7, 6]);
}

#[test]
fn local_stages_with_three_lanes() {
    let mut v = vec![2u32, 1, 4, 3, 6, 5, 8, 7, 10, 9, 12, 11];
    local_flip(&mut v, 2, 3);
    assert_eq!(v, vec![1, 2, 3, 4, 5, 6, 7, 8, 9, 10, 11, 12]);
    let mut v = vec![9u32, 1, 4, 3, 6, 5];
    local_disperse(&mut v, 2, 3);
    assert_eq!(v, vec![1, 9, 3, 4, 5, 6]);
    let sorted_keys = vec![1u32, 1, 2, 3, 5, 8];
    let mut v = sorted_keys.clone();
    local_flip(&mut v, 2, 3);
    local_disperse(&mut v, 2, 3);
    assert_eq!(v, sorted_keys);
    let mut v = vec![4u32, 3, 2, 1, 8, 7, 6, 5, 12, 11, 10, 9];
    local_bitonic_merge_sort(&mut v, 4, 6);
    assert_eq!(v, vec![1, 2, 3, 4, 5, 6, 7, 8, 9, 10, 11, 12]);
}

#[test]
fn global_sort_with_group_size_that_does_not_tile() {
    let keys = [5u32, 3, 7, 1, 6, 0, 2, 4, 13, 11, 15, 9, 14, 8, 10, 12];
    for size in [3usize, 5, 6, 7, 100] {
        let mut v = keys.to_vec();
        global_bitonic_merge_sort(&mut v, size);
        assert_eq!(v, (0..16u32).collect::<Vec<u32>>());
    }
    let mut one = vec![7u32];
    global_bitonic_merge_sort(&mut one, 3);
    assert_eq!(one, vec![7]);
}

#[test]
fn local_sort_sorts_each_window() {
    let mut v = vec![5u32, 3, 7, 1, 6, 0, 2, 4];
    local_bitonic_merge_sort(&mut v, 4, 2);
    assert_eq!(v, vec![1, 3, 5, 7, 0, 2, 4, 6]);
}

#[test]
fn arguments_validation() {
    assert_eq!(
        Arguments::parse_and_validate(16, 16),
        Ok(Arguments { number: 16, max_workgroup_size: 16 })
    );
    assert_eq!(Arguments::parse_and_validate(2, 16), Err(ArgumentsError::NumberTooSmall));
    assert_eq!(Arguments::parse_and_validate(12, 16), Err(ArgumentsError::NumberNotPowerOfTwo));
    assert_eq!(Arguments::parse_and_validate(16, 0), Err(ArgumentsError::ZeroWorkgroupSize));
    assert_eq!(Arguments::parse_and_validate(16, 16).unwrap().workgroup_size_x(), 8);
    assert_eq!(Arguments::parse_and_validate(64, 6).unwrap().workgroup_size_x(), 4);
}

#[test]
fn init_parameters_default_seed() {
    let p = InitParametersUniformBufferContent::default();
    assert_eq!(p.seed, 0);
}
