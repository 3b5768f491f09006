//! Counting sort of element indices by bucket id.
//!
//! Each bucket's range starts at the number of ids below it. The scatter walks
//! the elements in ascending order with a cursor that starts at the top of
//! each range and moves down, so within a bucket the indices come out in
//! descending order.
use vstd::prelude::*;

verus! {

/// Number of entries of `s` equal to `b`.
pub open spec fn count_eq(s: Seq<u32>, b: int) -> nat
    decreases s.len(),
{
    if s.len() == 0 {
        0
    } else {
        count_eq(s.drop_last(), b) + if s.last() == b {
            1nat
        } else {
            0nat
        }
    }
}

/// Number of entries of `s` below `b`: where the range of bucket `b` starts.
pub open spec fn count_below(s: Seq<u32>, b: int) -> nat
    decreases s.len(),
{
    if s.len() == 0 {
        0
    } else {
        count_below(s.drop_last(), b) + if s.last() < b {
            1nat
        } else {
            0nat
        }
    }
}

/// The slot of element `i` in the grouped order: the start of its bucket's
/// range, plus the number of later elements in the same bucket.
pub open spec fn slot(ids: Seq<u32>, i: int) -> int {
    (count_below(ids, ids[i] as int) + count_eq(ids.subrange(i + 1, ids.len() as int), ids[i] as int)) as int
}

/// Every id is below `num_buckets`.
pub open spec fn ids_in_range(ids: Seq<u32>, num_buckets: int) -> bool {
    forall|i: int| 0 <= i < ids.len() ==> ids[i] < num_buckets
}

/// `order` holds each of `0..n` exactly once.
pub open spec fn is_permutation(order: Seq<usize>, n: int) -> bool {
    &&& order.len() == n
    &&& forall|k: int| 0 <= k < n ==> order[k] < n
    &&& forall|k1: int, k2: int| 0 <= k1 < k2 < n ==> order[k1] != order[k2]
}

/// Why a bucketization was refused.
#[derive(Debug, Clone, Copy, PartialEq, Eq)]
pub enum BucketError {
    /// Some bucket id is not below the number of buckets.
    BucketIdOutOfRange,
}

proof fn lemma_count_concat(a: Seq<u32>, c: Seq<u32>, b: int)
    ensures
        count_eq(a + c, b) == count_eq(a, b) + count_eq(c, b),
        count_below(a + c, b) == count_below(a, b) + count_below(c, b),
    decreases c.len(),
{
    if c.len() == 0 {
        assert(a + c =~= a);
    } else {
        lemma_count_concat(a, c.drop_last(), b);
        assert((a + c).drop_last() =~= a + c.drop_last());
    }
}

proof fn lemma_count_bounds(s: Seq<u32>, b: int)
    ensures
        count_eq(s, b) <= s.len(),
        count_below(s, b) <= s.len(),
    decreases s.len(),
{
    if s.len() > 0 {
        lemma_count_bounds(s.drop_last(), b);
    }
}

/// The range of bucket `b` ends where that of `b + 1` starts.
proof fn lemma_count_below_next(s: Seq<u32>, b: int)
    ensures
        count_below(s, b + 1) == count_below(s, b) + count_eq(s, b),
    decreases s.len(),
{
    if s.len() > 0 {
        lemma_count_below_next(s.drop_last(), b);
    }
}

proof fn lemma_count_below_mono(s: Seq<u32>, b1: int, b2: int)
    requires
        b1 <= b2,
    ensures
        count_below(s, b1) <= count_below(s, b2),
    decreases s.len(),
{
    if s.len() > 0 {
        lemma_count_below_mono(s.drop_last(), b1, b2);
    }
}

proof fn lemma_count_below_all(s: Seq<u32>, nb: int)
    requires
        ids_in_range(s, nb),
    ensures
        count_below(s, nb) == s.len(),
    decreases s.len(),
{
    if s.len() > 0 {
        lemma_count_below_all(s.drop_last(), nb);
    }
}

/// Counting over a suffix: the first element, then the rest.
proof fn lemma_count_suffix(s: Seq<u32>, i: int, b: int)
    requires
        0 <= i < s.len(),
    ensures
        count_eq(s.subrange(i, s.len() as int), b) == count_eq(
            s.subrange(i + 1, s.len() as int),
            b,
        ) + if s[i] == b {
            1nat
        } else {
            0nat
        },
{
    let t = s.subrange(i + 1, s.len() as int);
    lemma_count_concat(seq![s[i]], t, b);
    assert(seq![s[i]] + t =~= s.subrange(i, s.len() as int));
    assert(seq![s[i]].drop_last() =~= Seq::<u32>::empty());
    assert(seq![s[i]].last() == s[i]);
    assert(count_eq(Seq::<u32>::empty(), b) == 0);
    assert(count_eq(seq![s[i]], b) == count_eq(Seq::<u32>::empty(), b) + if s[i] == b {
        1nat
    } else {
        0nat
    });
}

/// Counting over a prefix: the first `i` elements, then element `i`.
proof fn lemma_count_prefix(s: Seq<u32>, i: int, b: int)
    requires
        0 <= i < s.len(),
    ensures
        count_eq(s.subrange(0, i + 1), b) == count_eq(s.subrange(0, i), b) + if s[i] == b {
            1nat
        } else {
            0nat
        },
{
    assert(s.subrange(0, i + 1).drop_last() =~= s.subrange(0, i));
}

/// The elements of bucket `b` from position `i` on number at most those from
/// `j <= i` on, and fewer than all of bucket `b` when element `i - 1` is in it.
proof fn lemma_count_suffix_mono(s: Seq<u32>, j: int, i: int, b: int)
    requires
        0 <= j <= i <= s.len(),
    ensures
        count_eq(s.subrange(i, s.len() as int), b) <= count_eq(s.subrange(j, s.len() as int), b),
        j < i && s[j] == b ==> count_eq(s.subrange(i, s.len() as int), b) < count_eq(
            s.subrange(j, s.len() as int),
            b,
        ),
        count_eq(s.subrange(j, s.len() as int), b) <= count_eq(s, b),
{
    let n = s.len() as int;
    lemma_count_concat(s.subrange(j, i), s.subrange(i, n), b);
    assert(s.subrange(j, i) + s.subrange(i, n) =~= s.subrange(j, n));
    lemma_count_concat(s.subrange(0, j), s.subrange(j, n), b);
    assert(s.subrange(0, j) + s.subrange(j, n) =~= s);
    if j < i && s[j] == b {
        lemma_count_suffix(s.subrange(j, i), 0, b);
        assert(s.subrange(j, i).subrange(0, i - j) =~= s.subrange(j, i));
    }
}

/// Where element `i` goes: inside its bucket's range.
proof fn lemma_slot_in_bucket(ids: Seq<u32>, i: int)
    requires
        0 <= i < ids.len(),
    ensures
        count_below(ids, ids[i] as int) <= slot(ids, i) < count_below(ids, ids[i] + 1),
{
    lemma_count_suffix_mono(ids, i, i + 1, ids[i] as int);
    lemma_count_below_next(ids, ids[i] as int);
}

/// Groups the indices `0..ids.len()` by bucket id. On success, returns the
/// order, in which element `i` stands at `slot(ids, i)`, and the offsets:
/// `offset[b]` is where the range of bucket `b` starts, and
/// `offset[num_buckets] == ids.len()`. Fails exactly when some id is not below
/// `num_buckets`.
pub fn bucketize(ids: &Vec<u32>, num_buckets: usize) -> (r: Result<
    (Vec<usize>, Vec<usize>),
    BucketError,
>)
    ensures
        r is Err <==> !ids_in_range(ids@, num_buckets as int),
        r is Err ==> r->Err_0 == BucketError::BucketIdOutOfRange,
        r matches Ok((order, offset)) ==> {
            &&& order@.len() == ids@.len()
            &&& offset@.len() == num_buckets + 1
            &&& forall|b: int| 0 <= b <= num_buckets ==> offset@[b] == count_below(ids@, b)
            &&& forall|i: int| 0 <= i < ids@.len() ==> order@[slot(ids@, i)] == i
            &&& forall|b: int, k: int|
                #![trigger offset@[b], order@[k]]
                0 <= b < num_buckets && offset@[b] <= k < offset@[b + 1] ==> {
                    &&& order@[k] < ids@.len()
                    &&& ids@[order@[k] as int] == b
                    &&& slot(ids@, order@[k] as int) == k
                }
            &&& is_permutation(order@, ids@.len() as int)
            &&& offset@[0] == 0
            &&& offset@[num_buckets as int] == ids@.len()
            &&& forall|b: int| 0 <= b < num_buckets ==> #[trigger] offset@[b] <= offset@[b + 1]
            &&& forall|b: int, k1: int, k2: int|
                #![trigger offset@[b], order@[k1], order@[k2]]
                0 <= b < num_buckets && offset@[b] <= k1 < k2 < offset@[b + 1] ==> order@[k1]
                    > order@[k2]
        },
{
    let n = ids.len();
    let mut i: usize = 0;
    while i < n
        invariant
            n == ids.len(),
            i <= n,
            forall|j: int| 0 <= j < i ==> ids@[j] < num_buckets,
        decreases n - i,
    {
        if ids[i] as usize >= num_buckets {
            return Err(BucketError::BucketIdOutOfRange);
        }
        i += 1;
    }
    let ghost s = ids@;
    // Count the elements of each bucket.
    let mut table: Vec<usize> = vec![0; num_buckets];
    let mut i: usize = 0;
    while i < n
        invariant
            n == s.len(),
            s == ids@,
            ids_in_range(s, num_buckets as int),
            i <= n,
            table.len() == num_buckets,
            forall|b: int| 0 <= b < num_buckets ==> table@[b] == count_eq(s.subrange(0, i as int), b),
        decreases n - i,
    {
        let b = ids[i] as usize;
        proof {
            lemma_count_bounds(s.subrange(0, i as int), b as int);
            lemma_count_prefix(s, i as int, b as int);
            assert forall|c: int| 0 <= c < num_buckets implies table@[c] == count_eq(
                s.subrange(0, i as int),
                c,
            ) by {}
            assert forall|c: int| 0 <= c < num_buckets implies count_eq(s.subrange(0, i + 1), c)
                == count_eq(s.subrange(0, i as int), c) + if c == b {
                1nat
            } else {
                0nat
            } by {
                lemma_count_prefix(s, i as int, c);
            }
        }
        table.set(b, table[b] + 1);
        i += 1;
    }
    assert(s.subrange(0, n as int) =~= s);
    // Turn the counts into ends of ranges.
    let mut i: usize = 1;
    proof {
        lemma_count_below_next(s, 0);
        assert(count_below(s, 0) == 0) by {
            lemma_count_below_zero(s);
        }
    }
    while i < num_buckets
        invariant
            n == s.len(),
            1 <= i,
            i <= num_buckets || num_buckets == 0,
            table.len() == num_buckets,
            forall|b: int| 0 <= b < i && b < num_buckets ==> table@[b] == count_below(s, b + 1),
            forall|b: int| i <= b < num_buckets ==> table@[b] == count_eq(s, b),
        decreases num_buckets - i,
    {
        proof {
            lemma_count_below_next(s, i as int);
            lemma_count_bounds(s, i as int + 1);
        }
        table.set(i, table[i] + table[i - 1]);
        i += 1;
    }
    // Scatter: each element takes the top free slot of its bucket's range.
    let mut order: Vec<usize> = vec![0; n];
    let mut i: usize = 0;
    proof {
        assert forall|b: int| 0 <= b < num_buckets implies table@[b] == count_below(s, b)
            + count_eq(s.subrange(0, n as int), b) by {
            lemma_count_below_next(s, b);
        }
    }
    while i < n
        invariant
            n == s.len(),
            s == ids@,
            ids_in_range(s, num_buckets as int),
            i <= n,
            table.len() == num_buckets,
            order.len() == n,
            forall|b: int|
                0 <= b < num_buckets ==> table@[b] == count_below(s, b) + count_eq(
                    s.subrange(i as int, n as int),
                    b,
                ),
            forall|j: int|
                0 <= j < i ==> order@[slot(s, j)] == j && table@[s[j] as int] <= slot(s, j),
            forall|b: int, k: int|
                #![trigger table@[b], order@[k]]
                0 <= b < num_buckets && table@[b] <= k < count_below(s, b + 1) ==> {
                    &&& order@[k] < i
                    &&& s[order@[k] as int] == b
                    &&& slot(s, order@[k] as int) == k
                },
        decreases n - i,
    {
        let b = ids[i] as usize;
        proof {
            lemma_count_suffix(s, i as int, b as int);
            lemma_slot_in_bucket(s, i as int);
            lemma_count_bounds(s, b as int);
            lemma_count_below_mono(s, b + 1, num_buckets as int);
            lemma_count_below_all(s, num_buckets as int);
        }
        let target = table[b] - 1;
        let ghost old_table = table@;
        let ghost old_order = order@;
        table.set(b, target);
        order.set(target, i);
        proof {
            assert(target == slot(s, i as int));
            assert forall|c: int| 0 <= c < num_buckets implies table@[c] == count_below(s, c)
                + count_eq(s.subrange(i + 1, n as int), c) by {
                lemma_count_suffix(s, i as int, c);
            }
            assert forall|j: int| 0 <= j < i + 1 implies order@[slot(s, j)] == j && table@[s[j] as int]
                <= slot(s, j) by {
                if j < i {
                    assert(old_order[slot(s, j)] == j && old_table[s[j] as int] <= slot(s, j));
                    lemma_slot_in_bucket(s, j);
                    if s[j] < b {
                        lemma_count_below_mono(s, s[j] + 1, b as int);
                    } else if s[j] > b {
                        lemma_count_below_mono(s, b + 1, s[j] as int);
                    }
                    assert(slot(s, j) != target);
                    lemma_count_below_mono(s, s[j] + 1, num_buckets as int);
                }
            }
            assert forall|c: int, k: int|
                #![trigger table@[c], order@[k]]
                0 <= c < num_buckets && table@[c] <= k < count_below(s, c + 1) implies {
                &&& order@[k] < i + 1
                &&& s[order@[k] as int] == c
                &&& slot(s, order@[k] as int) == k
            } by {
                lemma_count_bounds(s.subrange(i + 1, n as int), c);
                if c < b {
                    lemma_count_below_mono(s, c + 1, b as int);
                } else if c > b {
                    lemma_count_below_mono(s, b + 1, c);
                }
                if k != target {
                    assert(old_table[c] <= k);
                    assert(old_order[k] == order@[k]);
                    assert(old_table[c] <= k < count_below(s, c + 1) ==> {
                        &&& old_order[k] < i
                        &&& s[old_order[k] as int] == c
                        &&& slot(s, old_order[k] as int) == k
                    });
                } else {
                    assert(c == b);
                }
            }
        }
        i += 1;
    }
    proof {
        lemma_count_below_all(s, num_buckets as int);
        assert forall|b: int| 0 <= b < num_buckets implies table@[b] == count_below(s, b) by {
            assert(s.subrange(n as int, n as int) =~= Seq::<u32>::empty());
        }
    }
    table.push(n);
    proof {
        lemma_count_below_zero(s);
        assert forall|b: int| 0 <= b < num_buckets implies #[trigger] table@[b] <= table@[b + 1] by {
            lemma_count_below_mono(s, b, b + 1);
        }
        assert forall|k1: int, k2: int| 0 <= k1 < k2 < n implies order@[k1] != order@[k2] by {
            lemma_count_below_cover(s, num_buckets as int, k1);
            lemma_count_below_cover(s, num_buckets as int, k2);
            let b1 = choose|b: int|
                0 <= b < num_buckets && #[trigger] count_below(s, b) <= k1 < count_below(s, b + 1);
            let b2 = choose|b: int|
                0 <= b < num_buckets && #[trigger] count_below(s, b) <= k2 < count_below(s, b + 1);
            assert(table@[b1] <= k1 < table@[b1 + 1]);
            assert(table@[b2] <= k2 < table@[b2 + 1]);
        }
        assert forall|k: int| 0 <= k < n implies order@[k] < n by {
            lemma_count_below_cover(s, num_buckets as int, k);
            let b = choose|b: int|
                0 <= b < num_buckets && #[trigger] count_below(s, b) <= k < count_below(s, b + 1);
            assert(table@[b] <= k < table@[b + 1]);
        }
        assert forall|b: int, k1: int, k2: int|
            #![trigger table@[b], order@[k1], order@[k2]]
            0 <= b < num_buckets && table@[b] <= k1 < k2 < table@[b + 1] implies order@[k1]
                > order@[k2] by {
            assert(s[order@[k1] as int] == b && slot(s, order@[k1] as int) == k1);
            assert(s[order@[k2] as int] == b && slot(s, order@[k2] as int) == k2);
            if order@[k1] <= order@[k2] {
                lemma_count_suffix_mono(s, order@[k1] + 1, order@[k2] + 1, b);
            }
        }
    }
    Ok((order, table))
}

/// Every position below the end of bucket `m - 1` lies in the range of some
/// bucket below `m`.
proof fn lemma_count_below_cover(s: Seq<u32>, m: int, k: int)
    requires
        0 <= m,
        0 <= k < count_below(s, m),
    ensures
        exists|b: int| 0 <= b < m && #[trigger] count_below(s, b) <= k < count_below(s, b + 1),
    decreases m,
{
    lemma_count_below_zero(s);
    if m > 0 {
        if k < count_below(s, m - 1) {
            lemma_count_below_cover(s, m - 1, k);
        } else {
            assert(count_below(s, m - 1) <= k < count_below(s, m - 1 + 1));
        }
    }
}

proof fn lemma_count_below_zero(s: Seq<u32>)
    ensures
        count_below(s, 0) == 0,
    decreases s.len(),
{
    if s.len() > 0 {
        lemma_count_below_zero(s.drop_last());
    }
}

} // verus!
