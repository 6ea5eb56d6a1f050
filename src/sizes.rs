//! Byte totals and counts over the measured sizes of version directories,
//! which come nested as groups, then artifacts, then versions.

use vstd::prelude::*;

verus! {

pub open spec fn sum_u64(s: Seq<u64>) -> nat
    decreases s.len(),
{
    if s.len() == 0 {
        0
    } else {
        sum_u64(s.drop_last()) + s.last() as nat
    }
}

/// The bytes of the versions of all artifacts of a group.
pub open spec fn sum2(s: Seq<Vec<u64>>) -> nat
    decreases s.len(),
{
    if s.len() == 0 {
        0
    } else {
        sum2(s.drop_last()) + sum_u64(s.last()@)
    }
}

/// The bytes of all versions of all groups.
pub open spec fn sum3(s: Seq<Vec<Vec<u64>>>) -> nat
    decreases s.len(),
{
    if s.len() == 0 {
        0
    } else {
        sum3(s.drop_last()) + sum2(s.last()@)
    }
}

/// The number of versions of all artifacts of a group.
pub open spec fn count2(s: Seq<Vec<u64>>) -> nat
    decreases s.len(),
{
    if s.len() == 0 {
        0
    } else {
        count2(s.drop_last()) + s.last()@.len()
    }
}

/// The number of versions of all groups.
pub open spec fn count3(s: Seq<Vec<Vec<u64>>>) -> nat
    decreases s.len(),
{
    if s.len() == 0 {
        0
    } else {
        count3(s.drop_last()) + count2(s.last()@)
    }
}

pub proof fn lemma_sum_u64(s: Seq<u64>, i: int)
    requires
        0 <= i <= s.len(),
    ensures
        sum_u64(s.take(i)) <= sum_u64(s),
        i < s.len() ==> sum_u64(s.take(i + 1)) == sum_u64(s.take(i)) + s[i],
    decreases s.len() - i,
{
    if i < s.len() {
        assert(s.take(i + 1).drop_last() =~= s.take(i));
        lemma_sum_u64(s, i + 1);
    } else {
        assert(s.take(i) =~= s);
    }
}

pub proof fn lemma_sum2(s: Seq<Vec<u64>>, i: int)
    requires
        0 <= i <= s.len(),
    ensures
        sum2(s.take(i)) <= sum2(s),
        count2(s.take(i)) <= count2(s),
        i < s.len() ==> sum2(s.take(i + 1)) == sum2(s.take(i)) + sum_u64(s[i]@),
        i < s.len() ==> count2(s.take(i + 1)) == count2(s.take(i)) + s[i]@.len(),
    decreases s.len() - i,
{
    if i < s.len() {
        assert(s.take(i + 1).drop_last() =~= s.take(i));
        lemma_sum2(s, i + 1);
    } else {
        assert(s.take(i) =~= s);
    }
}

pub proof fn lemma_sum3(s: Seq<Vec<Vec<u64>>>, i: int)
    requires
        0 <= i <= s.len(),
    ensures
        sum3(s.take(i)) <= sum3(s),
        count3(s.take(i)) <= count3(s),
        i < s.len() ==> sum3(s.take(i + 1)) == sum3(s.take(i)) + sum2(s[i]@),
        i < s.len() ==> count3(s.take(i + 1)) == count3(s.take(i)) + count2(s[i]@),
    decreases s.len() - i,
{
    if i < s.len() {
        assert(s.take(i + 1).drop_last() =~= s.take(i));
        lemma_sum3(s, i + 1);
    } else {
        assert(s.take(i) =~= s);
    }
}

/// The sum of `sizes`, where it fits in a `u64`.
pub fn sum_bytes(sizes: &Vec<u64>) -> (r: Option<u64>)
    ensures
        match r {
            Some(n) => n == sum_u64(sizes@),
            None => sum_u64(sizes@) > u64::MAX,
        },
{
    let mut total: u64 = 0;
    let mut i: usize = 0;
    while i < sizes.len()
        invariant
            i <= sizes.len(),
            total == sum_u64(sizes@.take(i as int)),
        decreases sizes.len() - i,
    {
        proof {
            lemma_sum_u64(sizes@, i as int);
        }
        if total > u64::MAX - sizes[i] {
            proof {
                lemma_sum_u64(sizes@, i + 1);
            }
            return None;
        }
        total = total + sizes[i];
        i = i + 1;
    }
    assert(sizes@.take(i as int) =~= sizes@);
    Some(total)
}

/// Index `i` comes before index `j` in the order of decreasing bytes, ties
/// kept in index order.
pub open spec fn heavier_first(bytes: Seq<u64>, i: int, j: int) -> bool {
    bytes[i] > bytes[j] || (bytes[i] == bytes[j] && i < j)
}

/// The indices of `bytes` ordered by decreasing bytes, equal ones in index
/// order: each index once.
pub fn order_by_bytes(bytes: &Vec<u64>) -> (r: Vec<usize>)
    ensures
        r.len() == bytes.len(),
        forall|i: int| 0 <= i < r.len() ==> (#[trigger] r@[i]) < bytes.len(),
        forall|i: int, j: int| 0 <= i < j < r.len() ==> heavier_first(bytes@, #[trigger] r@[i] as int, #[trigger] r@[j] as int),
        forall|i: int, j: int| 0 <= i < j < r.len() ==> #[trigger] r@[i] != #[trigger] r@[j],
{
    let mut r: Vec<usize> = Vec::new();
    let mut k: usize = 0;
    while k < bytes.len()
        invariant
            k <= bytes.len(),
            r.len() == k,
            forall|i: int| 0 <= i < r.len() ==> (#[trigger] r@[i]) < k,
            forall|i: int, j: int| 0 <= i < j < r.len() ==> heavier_first(bytes@, #[trigger] r@[i] as int, #[trigger] r@[j] as int),
        decreases bytes.len() - k,
    {
        let mut p: usize = 0;
        while p < r.len() && bytes[r[p]] >= bytes[k]
            invariant
                p <= r.len() == k,
                k < bytes.len(),
                forall|i: int| 0 <= i < r.len() ==> (#[trigger] r@[i]) < k,
                forall|i: int| 0 <= i < p ==> bytes@[#[trigger] r@[i] as int] >= bytes@[k as int],
            decreases r.len() - p,
        {
            p = p + 1;
        }
        let ghost pre = r@;
        r.insert(p, k);
        assert forall|i: int, j: int| 0 <= i < j < r.len() implies heavier_first(bytes@, #[trigger] r@[i] as int, #[trigger] r@[j] as int) by {
            if j < p {
                assert(r@[i] == pre[i] && r@[j] == pre[j]);
            } else if j == p {
                assert(r@[i] == pre[i]);
            } else if i < p {
                assert(r@[i] == pre[i] && r@[j] == pre[j - 1]);
                assert(heavier_first(bytes@, pre[i] as int, pre[p as int] as int));
            } else if i == p {
                assert(r@[j] == pre[j - 1]);
                assert(bytes@[pre[p as int] as int] < bytes@[k as int]);
                if j - 1 > p {
                    assert(heavier_first(bytes@, pre[p as int] as int, pre[j - 1] as int));
                }
            } else {
                assert(r@[i] == pre[i - 1] && r@[j] == pre[j - 1]);
            }
        }
        k = k + 1;
    }
    r
}

/// The sum of `sizes` (the bytes of one group), where it fits in a `u64`.
pub fn sum_group_bytes(sizes: &Vec<Vec<u64>>) -> (r: Option<u64>)
    ensures
        match r {
            Some(n) => n == sum2(sizes@),
            None => sum2(sizes@) > u64::MAX,
        },
{
    let mut total: u64 = 0;
    let mut j: usize = 0;
    while j < sizes.len()
        invariant
            j <= sizes.len(),
            total == sum2(sizes@.take(j as int)),
        decreases sizes.len() - j,
    {
        proof {
            lemma_sum2(sizes@, j as int);
            lemma_sum2(sizes@, j + 1);
        }
        match sum_bytes(&sizes[j]) {
            Some(n) => {
                if total > u64::MAX - n {
                    return None;
                }
                total = total + n;
            },
            None => {
                return None;
            },
        }
        j = j + 1;
    }
    assert(sizes@.take(j as int) =~= sizes@);
    Some(total)
}

} // verus!
