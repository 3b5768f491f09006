use bitonic_sorting::bucket::{bucketize, BucketError};

fn check_grouping(ids: &[u32], num_buckets: usize) {
    let (order, offset) = bucketize(&ids.to_vec(), num_buckets).unwrap();
    let n = ids.len();
    assert_eq!(offset.len(), num_buckets + 1);
    assert_eq!(offset[0], 0);
    assert_eq!(offset[num_buckets], n);
    let mut seen = vec![false; n];
    for &i in &order {
        assert!(i < n);
        assert!(!seen[i]);
        seen[i] = true;
    }
    for b in 0..num_buckets {
        assert!(offset[b] <= offset[b + 1]);
        for k in offset[b]..offset[b + 1] {
            assert_eq!(ids[order[k]] as usize, b);
        }
        for k in offset[b] + 1..offset[b + 1] {
            assert!(order[k - 1] > order[k]);
        }
    }
}

#[test]
fn five_elements_three_buckets() {
    let (order, offset) = bucketize(&vec![2u32, 0, 1, 0, 2], 3).unwrap();
    assert_eq!(offset, vec![0, 2, 3, 5]);
    // bucket 0 holds 3 then 1, bucket 1 holds 2, bucket 2 holds 4 then 0
    assert_eq!(order, vec![3, 1, 2, 4, 0]);
}

#[test]
fn grouping_and_permutation() {
    check_grouping(&[2, 0, 1, 0, 2], 3);
    check_grouping(&[0, 0, 0, 0], 1);
    check_grouping(&[3, 3, 1, 0, 7, 7, 7, 2, 5], 8);
    let mut state: u64 = 7;
    let mut ids = Vec::new();
    for _ in 0..200 {
        state = state.wrapping_mul(6364136223846793005).wrapping_add(1442695040888963407);
        ids.push(((state >> 33) % 13) as u32);
    }
    check_grouping(&ids, 13);
    check_grouping(&ids, 20);
}

#[test]
fn empty_input() {
    let (order, offset) = bucketize(&vec![], 4).unwrap();
    assert!(order.is_empty());
    assert_eq!(offset, vec![0, 0, 0, 0, 0]);
    let (order, offset) = bucketize(&vec![], 0).unwrap();
    assert!(order.is_empty());
    assert_eq!(offset, vec![0]);
}

#[test]
fn bucket_id_out_of_range() {
    assert_eq!(bucketize(&vec![0u32, 3, 1], 3), Err(BucketError::BucketIdOutOfRange));
    assert_eq!(bucketize(&vec![0u32], 0), Err(BucketError::BucketIdOutOfRange));
}

#[test]
fn empty_buckets_share_offsets() {
    let (order, offset) = bucketize(&vec![3u32, 0, 3], 5).unwrap();
    assert_eq!(offset, vec![0, 1, 1, 1, 3, 3]);
    assert_eq!(order, vec![1, 2, 0]);
}
