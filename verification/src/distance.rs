//! Total positional distance between two columns: the sum of the absolute
//! difference at each index.

use vstd::prelude::*;

verus! {

/// The absolute difference of two integers.
pub open spec fn abs_diff(a: int, b: int) -> int {
    if a >= b {
        a - b
    } else {
        b - a
    }
}

/// The sum of per-index absolute differences between two columns, pairing
/// the elements from the end. On equal-length columns this is
/// `abs_diff(l[0], r[0]) + ... + abs_diff(l[n-1], r[n-1])`.
pub open spec fn sum_abs_diff(l: Seq<u64>, r: Seq<u64>) -> int
    decreases l.len(),
{
    if l.len() == 0 || r.len() == 0 {
        0
    } else {
        sum_abs_diff(l.drop_last(), r.drop_last()) + abs_diff(l.last() as int, r.last() as int)
    }
}

/// The distance is a sum of non-negative terms, so it is itself non-negative.
pub proof fn lemma_sum_abs_diff_nonneg(l: Seq<u64>, r: Seq<u64>)
    ensures
        sum_abs_diff(l, r) >= 0,
    decreases l.len(),
{
    if l.len() != 0 && r.len() != 0 {
        lemma_sum_abs_diff_nonneg(l.drop_last(), r.drop_last());
    }
}

/// On equal-length columns, a prefix of the sum never exceeds the whole sum.
proof fn lemma_sum_abs_diff_prefix_le(l: Seq<u64>, r: Seq<u64>, i: int)
    requires
        l.len() == r.len(),
        0 <= i <= l.len(),
    ensures
        sum_abs_diff(l.take(i), r.take(i)) <= sum_abs_diff(l, r),
    decreases l.len() - i,
{
    if i < l.len() {
        assert(l.take(i + 1).drop_last() =~= l.take(i));
        assert(r.take(i + 1).drop_last() =~= r.take(i));
        lemma_sum_abs_diff_prefix_le(l, r, i + 1);
    } else {
        assert(l.take(i) =~= l);
        assert(r.take(i) =~= r);
    }
}

/// The distance does not depend on which column is called left and which
/// right: `sum_abs_diff(l, r)` equals `sum_abs_diff(r, l)`.
pub proof fn lemma_distance_symmetry(l: Seq<u64>, r: Seq<u64>)
    ensures
        sum_abs_diff(l, r) == sum_abs_diff(r, l),
    decreases l.len(),
{
    if l.len() != 0 && r.len() != 0 {
        lemma_distance_symmetry(l.drop_last(), r.drop_last());
    }
}

/// On equal-length columns the distance is zero exactly when the columns are
/// elementwise equal.
pub proof fn lemma_distance_zero(l: Seq<u64>, r: Seq<u64>)
    requires
        l.len() == r.len(),
    ensures
        sum_abs_diff(l, r) == 0 <==> l == r,
    decreases l.len(),
{
    if l.len() == 0 {
        assert(l =~= r);
    } else {
        lemma_distance_zero(l.drop_last(), r.drop_last());
        lemma_sum_abs_diff_nonneg(l.drop_last(), r.drop_last());
        if sum_abs_diff(l, r) == 0 {
            assert(l.drop_last() == r.drop_last());
            assert(l.last() == r.last());
            assert forall|i: int| 0 <= i < l.len() implies l[i] == r[i] by {
                if i < l.len() - 1 {
                    assert(l[i] == l.drop_last()[i]);
                    assert(r[i] == r.drop_last()[i]);
                } else {
                    assert(l[i] == l.last());
                    assert(r[i] == r.last());
                }
            }
            assert(l =~= r);
        }
        if l == r {
            assert(l.drop_last() =~= r.drop_last());
        }
    }
}

/// The right column with a constant added to every element.
pub open spec fn shift_seq(r: Seq<u64>, k: u64) -> Seq<u64> {
    r.map_values(|x: u64| (x + k) as u64)
}

/// Shifting every right element up by a constant `k` moves the distance by at
/// most `k` times the length, and by exactly that much when no pair crosses:
/// when every left element is at most its right partner, each per-index
/// difference grows by exactly `k`.
pub proof fn lemma_distance_shift(l: Seq<u64>, r: Seq<u64>, k: u64)
    requires
        l.len() == r.len(),
        forall|i: int| 0 <= i < r.len() ==> r[i] + k <= u64::MAX,
    ensures
        sum_abs_diff(l, shift_seq(r, k)) <= sum_abs_diff(l, r) + k * l.len(),
        sum_abs_diff(l, r) <= sum_abs_diff(l, shift_seq(r, k)) + k * l.len(),
        (forall|i: int| 0 <= i < l.len() ==> l[i] <= r[i]) ==> sum_abs_diff(l, shift_seq(r, k))
            == sum_abs_diff(l, r) + k * l.len(),
    decreases l.len(),
{
    if l.len() == 0 {
        assert(shift_seq(r, k) =~= Seq::<u64>::empty());
    } else {
        assert(shift_seq(r, k).drop_last() =~= shift_seq(r.drop_last(), k));
        assert(shift_seq(r, k).last() == (r.last() + k) as u64);
        lemma_distance_shift(l.drop_last(), r.drop_last(), k);
        assert(k * l.len() == k * (l.len() - 1) + k) by (nonlinear_arith);
        assert(forall|i: int| 0 <= i < l.len() - 1 ==> l.drop_last()[i] == l[i]
            && r.drop_last()[i] == r[i]);
    }
}

/// Computes the total positional distance between two columns of equal
/// length: the sum over every index of the absolute difference of the two
/// elements there. The subtraction is always taken larger-minus-smaller, so
/// no underflow can occur. The result is the pairwise distance of whatever
/// order the slices are in; the caller who wants the sorted pairing sorts
/// both slices first.
pub fn difference(left_list: &[u64], right_list: &[u64]) -> (result: u64)
    requires
        left_list@.len() == right_list@.len(),
        sum_abs_diff(left_list@, right_list@) <= u64::MAX,
    ensures
        result == sum_abs_diff(left_list@, right_list@),
{
    let n = left_list.len();
    let mut total: u64 = 0;
    let mut i: usize = 0;
    while i < n
        invariant
            left_list@.len() == right_list@.len(),
            n == left_list@.len(),
            0 <= i <= n,
            sum_abs_diff(left_list@, right_list@) <= u64::MAX,
            total == sum_abs_diff(left_list@.take(i as int), right_list@.take(i as int)),
        decreases n - i,
    {
        let a = left_list[i];
        let b = right_list[i];
        let d = if a > b {
            a - b
        } else {
            b - a
        };
        proof {
            assert(left_list@.take(i + 1).drop_last() =~= left_list@.take(i as int));
            assert(right_list@.take(i + 1).drop_last() =~= right_list@.take(i as int));
            lemma_sum_abs_diff_prefix_le(left_list@, right_list@, i + 1);
            lemma_sum_abs_diff_nonneg(left_list@.take(i as int), right_list@.take(i as int));
        }
        total = total + d;
        i = i + 1;
    }
    proof {
        assert(left_list@.take(n as int) =~= left_list@);
        assert(right_list@.take(n as int) =~= right_list@);
    }
    total
}

/// The same distance, guarded: answers the distance when the columns have
/// equal length and the sum fits in 64 bits, and nothing otherwise, so a
/// caller need not establish either bound beforehand.
pub fn difference_checked(left_list: &[u64], right_list: &[u64]) -> (result: Option<u64>)
    ensures
        match result {
            Some(d) => left_list@.len() == right_list@.len() && d == sum_abs_diff(
                left_list@,
                right_list@,
            ),
            None => left_list@.len() != right_list@.len() || sum_abs_diff(left_list@, right_list@)
                > u64::MAX,
        },
{
    if left_list.len() != right_list.len() {
        return None;
    }
    let n = left_list.len();
    let mut total: u64 = 0;
    let mut i: usize = 0;
    while i < n
        invariant
            left_list@.len() == right_list@.len(),
            n == left_list@.len(),
            0 <= i <= n,
            total == sum_abs_diff(left_list@.take(i as int), right_list@.take(i as int)),
        decreases n - i,
    {
        let a = left_list[i];
        let b = right_list[i];
        let d = if a > b {
            a - b
        } else {
            b - a
        };
        proof {
            assert(left_list@.take(i + 1).drop_last() =~= left_list@.take(i as int));
            assert(right_list@.take(i + 1).drop_last() =~= right_list@.take(i as int));
        }
        total = match total.checked_add(d) {
            Some(t) => t,
            None => {
                proof {
                    lemma_sum_abs_diff_prefix_le(left_list@, right_list@, i + 1);
                }
                return None;
            },
        };
        i = i + 1;
    }
    proof {
        assert(left_list@.take(n as int) =~= left_list@);
        assert(right_list@.take(n as int) =~= right_list@);
    }
    Some(total)
}

} // verus!
