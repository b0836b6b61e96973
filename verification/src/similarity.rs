//! Weighted co-occurrence score of two columns: the sum over every left
//! element of the element times its multiplicity in the right column, which
//! is the same as summing `v * count_left(v) * count_right(v)` over the
//! distinct values `v` of the left column.

use vstd::prelude::*;
use vstd::arithmetic::mul::lemma_mul_is_distributive_add;

verus! {

/// The multiplicity of `v` in the column `s`.
pub open spec fn count_val(s: Seq<u64>, v: u64) -> int
    decreases s.len(),
{
    if s.len() == 0 {
        0
    } else {
        count_val(s.drop_last(), v) + if s.last() == v {
            1int
        } else {
            0int
        }
    }
}

/// The similarity score of two columns: every occurrence of a value in the
/// left column contributes the value times its multiplicity in the right
/// column.
pub open spec fn sim_of(l: Seq<u64>, r: Seq<u64>) -> int
    decreases l.len(),
{
    if l.len() == 0 {
        0
    } else {
        sim_of(l.drop_last(), r) + l.last() * count_val(r, l.last())
    }
}

/// A multiplicity is never negative.
pub proof fn lemma_count_val_nonneg(s: Seq<u64>, v: u64)
    ensures
        count_val(s, v) >= 0,
    decreases s.len(),
{
    if s.len() != 0 {
        lemma_count_val_nonneg(s.drop_last(), v);
    }
}

/// A value has multiplicity zero exactly when the column does not contain it.
pub proof fn lemma_count_val_zero(s: Seq<u64>, v: u64)
    ensures
        count_val(s, v) == 0 <==> !s.contains(v),
    decreases s.len(),
{
    if s.len() != 0 {
        lemma_count_val_zero(s.drop_last(), v);
        lemma_count_val_nonneg(s.drop_last(), v);
        if s.last() != v && !s.drop_last().contains(v) {
            assert forall|i: int| 0 <= i < s.len() implies s[i] != v by {
                if i < s.len() - 1 {
                    assert(s[i] == s.drop_last()[i]);
                }
            }
        }
        if s.drop_last().contains(v) {
            let i = choose|i: int| 0 <= i < s.drop_last().len() && s.drop_last()[i] == v;
            assert(s[i] == v);
        }
    }
}

/// The score is a sum of non-negative terms, so it is itself non-negative.
pub proof fn lemma_sim_of_nonneg(l: Seq<u64>, r: Seq<u64>)
    ensures
        sim_of(l, r) >= 0,
    decreases l.len(),
{
    if l.len() != 0 {
        lemma_sim_of_nonneg(l.drop_last(), r);
        lemma_count_val_nonneg(r, l.last());
        assert(l.last() * count_val(r, l.last()) >= 0) by (nonlinear_arith)
            requires
                count_val(r, l.last()) >= 0,
        ;
    }
}

/// A prefix of the left column never scores more than the whole left column.
proof fn lemma_sim_of_prefix_le(l: Seq<u64>, r: Seq<u64>, i: int)
    requires
        0 <= i <= l.len(),
    ensures
        sim_of(l.take(i), r) <= sim_of(l, r),
    decreases l.len() - i,
{
    if i < l.len() {
        assert(l.take(i + 1).drop_last() =~= l.take(i));
        assert(l.take(i + 1).last() == l[i]);
        lemma_count_val_nonneg(r, l[i]);
        assert(l[i] * count_val(r, l[i]) >= 0) by (nonlinear_arith)
            requires
                count_val(r, l[i]) >= 0,
        ;
        lemma_sim_of_prefix_le(l, r, i + 1);
    } else {
        assert(l.take(i) =~= l);
    }
}

/// Appending an element to the second column raises the score by that
/// element's weight: the element times its multiplicity in the first column.
proof fn lemma_sim_of_push(r: Seq<u64>, s: Seq<u64>, x: u64)
    ensures
        sim_of(r, s.push(x)) == sim_of(r, s) + x * count_val(r, x),
    decreases r.len(),
{
    if r.len() == 0 {
    } else {
        let r0 = r.drop_last();
        let y = r.last();
        lemma_sim_of_push(r0, s, x);
        assert(s.push(x).drop_last() =~= s);
        assert(count_val(s.push(x), y) == count_val(s, y) + if x == y {
            1int
        } else {
            0int
        });
        lemma_mul_is_distributive_add(y as int, count_val(s, y), if x == y {
            1int
        } else {
            0int
        });
        lemma_mul_is_distributive_add(x as int, count_val(r0, x), if y == x {
            1int
        } else {
            0int
        });
    }
}

/// Against an empty column every multiplicity is zero, so the score is zero.
proof fn lemma_sim_of_empty_right(r: Seq<u64>, s: Seq<u64>)
    requires
        s.len() == 0,
    ensures
        sim_of(r, s) == 0,
    decreases r.len(),
{
    if r.len() != 0 {
        lemma_sim_of_empty_right(r.drop_last(), s);
    }
}

/// The similarity score does not depend on which column is called left and
/// which right.
pub proof fn lemma_similarity_symmetry(l: Seq<u64>, r: Seq<u64>)
    ensures
        sim_of(l, r) == sim_of(r, l),
    decreases l.len(),
{
    if l.len() == 0 {
        lemma_sim_of_empty_right(r, l);
    } else {
        let l0 = l.drop_last();
        let x = l.last();
        lemma_similarity_symmetry(l0, r);
        lemma_sim_of_push(r, l0, x);
        assert(l0.push(x) =~= l);
    }
}

/// When the two columns share no value, the score is zero.
pub proof fn lemma_similarity_disjoint(l: Seq<u64>, r: Seq<u64>)
    requires
        forall|v: u64| l.contains(v) ==> !r.contains(v),
    ensures
        sim_of(l, r) == 0,
    decreases l.len(),
{
    if l.len() != 0 {
        let l0 = l.drop_last();
        let x = l.last();
        assert forall|v: u64| l0.contains(v) implies !r.contains(v) by {
            let i = choose|i: int| 0 <= i < l0.len() && l0[i] == v;
            assert(l[i] == v);
            assert(l.contains(v));
        }
        lemma_similarity_disjoint(l0, r);
        assert(l[l.len() - 1] == x);
        assert(l.contains(x));
        lemma_count_val_zero(r, x);
    }
}

/// Counts how many elements of `list` equal `x`.
fn count_occurrences(list: &[u64], x: u64) -> (count: u64)
    ensures
        count == count_val(list@, x),
{
    let n = list.len();
    let mut count: u64 = 0;
    let mut i: usize = 0;
    while i < n
        invariant
            n == list@.len(),
            0 <= i <= n,
            count == count_val(list@.take(i as int), x),
            count <= i,
        decreases n - i,
    {
        proof {
            assert(list@.take(i + 1).drop_last() =~= list@.take(i as int));
            assert(list@.take(i + 1).last() == list@[i as int]);
        }
        if list[i] == x {
            count = count + 1;
        }
        i = i + 1;
    }
    proof {
        assert(list@.take(n as int) =~= list@);
    }
    count
}

/// Computes the similarity score of the two columns: the sum over the
/// distinct left values `v` of `v` times its left multiplicity times its
/// right multiplicity, accumulated here one left occurrence at a time. The
/// order of either slice does not affect the result.
pub fn similarity_score(left_list: &[u64], right_list: &[u64]) -> (score: u64)
    requires
        sim_of(left_list@, right_list@) <= u64::MAX,
    ensures
        score == sim_of(left_list@, right_list@),
{
    let n = left_list.len();
    let mut score: u64 = 0;
    let mut i: usize = 0;
    while i < n
        invariant
            n == left_list@.len(),
            0 <= i <= n,
            sim_of(left_list@, right_list@) <= u64::MAX,
            score == sim_of(left_list@.take(i as int), right_list@),
        decreases n - i,
    {
        let v = left_list[i];
        let c = count_occurrences(right_list, v);
        proof {
            assert(left_list@.take(i + 1).drop_last() =~= left_list@.take(i as int));
            assert(left_list@.take(i + 1).last() == v);
            lemma_sim_of_prefix_le(left_list@, right_list@, i + 1);
            lemma_sim_of_nonneg(left_list@.take(i as int), right_list@);
            lemma_count_val_nonneg(right_list@, v);
        }
        let term = v * c;
        score = score + term;
        i = i + 1;
    }
    proof {
        assert(left_list@.take(n as int) =~= left_list@);
    }
    score
}

/// The same score, guarded: answers the score when the sum fits in 64 bits,
/// and nothing otherwise, so a caller need not establish the bound
/// beforehand.
pub fn similarity_score_checked(left_list: &[u64], right_list: &[u64]) -> (result: Option<u64>)
    ensures
        match result {
            Some(s) => s == sim_of(left_list@, right_list@),
            None => sim_of(left_list@, right_list@) > u64::MAX,
        },
{
    let n = left_list.len();
    let mut score: u64 = 0;
    let mut i: usize = 0;
    while i < n
        invariant
            n == left_list@.len(),
            0 <= i <= n,
            score == sim_of(left_list@.take(i as int), right_list@),
        decreases n - i,
    {
        let v = left_list[i];
        let c = count_occurrences(right_list, v);
        proof {
            assert(left_list@.take(i + 1).drop_last() =~= left_list@.take(i as int));
            assert(left_list@.take(i + 1).last() == v);
            lemma_count_val_nonneg(right_list@, v);
        }
        let term = match v.checked_mul(c) {
            Some(t) => t,
            None => {
                proof {
                    lemma_sim_of_prefix_le(left_list@, right_list@, i + 1);
                    lemma_sim_of_nonneg(left_list@.take(i as int), right_list@);
                }
                return None;
            },
        };
        score = match score.checked_add(term) {
            Some(s) => s,
            None => {
                proof {
                    lemma_sim_of_prefix_le(left_list@, right_list@, i + 1);
                }
                return None;
            },
        };
        i = i + 1;
    }
    proof {
        assert(left_list@.take(n as int) =~= left_list@);
    }
    Some(score)
}

} // verus!
