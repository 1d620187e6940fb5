//! Random draws and weighted categorical selection, shared by the random
//! permutation generator and the distribution sampling engine.

use rand::Rng;
use vstd::prelude::*;

verus! {

/// Relies on rand's `Rng::gen_range` on `rand::thread_rng()`, over the range
/// `0..n`: it returns a value drawn from `[0, n)` and panics only when the
/// range is empty, which the precondition excludes.
#[verifier::external_body]
pub(crate) fn random_below(n: usize) -> (r: usize)
    requires
        n >= 1,
    ensures
        r < n,
{
    rand::thread_rng().gen_range(0..n)
}

/// The sum of a sequence of weights.
pub open spec fn seq_sum(s: Seq<usize>) -> int
    decreases s.len(),
{
    if s.len() == 0 {
        0
    } else {
        seq_sum(s.drop_last()) + s.last()
    }
}

/// The weights left eligible by a mask: a masked position weighs nothing.
pub open spec fn masked_weights(row: Seq<usize>, mask: Seq<bool>) -> Seq<usize> {
    Seq::new(row.len(), |i: int| if mask[i] { 0usize } else { row[i] })
}

pub proof fn lemma_seq_sum_nonneg(s: Seq<usize>)
    ensures
        seq_sum(s) >= 0,
    decreases s.len(),
{
    if s.len() > 0 {
        lemma_seq_sum_nonneg(s.drop_last());
    }
}

/// Extending a prefix by one element adds that element to the prefix sum.
pub proof fn lemma_seq_sum_take_succ(s: Seq<usize>, k: int)
    requires
        0 <= k < s.len(),
    ensures
        seq_sum(s.take(k + 1)) == seq_sum(s.take(k)) + s[k],
{
    assert(s.take(k + 1).drop_last() =~= s.take(k));
    assert(s.take(k + 1).last() == s[k]);
}

/// A prefix sum never exceeds the full sum.
pub proof fn lemma_seq_sum_take_le(s: Seq<usize>, k: int)
    requires
        0 <= k <= s.len(),
    ensures
        seq_sum(s.take(k)) <= seq_sum(s),
    decreases s.len() - k,
{
    if k == s.len() {
        assert(s.take(k) =~= s);
    } else {
        lemma_seq_sum_take_succ(s, k);
        lemma_seq_sum_take_le(s, k + 1);
    }
}

/// Any single element is bounded by the sum of its sequence.
pub proof fn lemma_seq_sum_elem_le(s: Seq<usize>, i: int)
    requires
        0 <= i < s.len(),
    ensures
        s[i] <= seq_sum(s),
    decreases s.len(),
{
    if i == s.len() - 1 {
        lemma_seq_sum_nonneg(s.drop_last());
    } else {
        lemma_seq_sum_elem_le(s.drop_last(), i);
        assert(s.drop_last()[i] == s[i]);
    }
}

/// Sums respect a pointwise bound.
pub proof fn lemma_seq_sum_le_pointwise(a: Seq<usize>, b: Seq<usize>)
    requires
        a.len() == b.len(),
        forall|i: int| 0 <= i < a.len() ==> a[i] <= b[i],
    ensures
        seq_sum(a) <= seq_sum(b),
    decreases a.len(),
{
    if a.len() > 0 {
        lemma_seq_sum_le_pointwise(a.drop_last(), b.drop_last());
    }
}

/// How many entries of a mask are set.
pub open spec fn count_true(m: Seq<bool>) -> nat
    decreases m.len(),
{
    if m.len() == 0 {
        0
    } else {
        count_true(m.drop_last()) + (if m.last() {
            1nat
        } else {
            0nat
        })
    }
}

pub proof fn lemma_count_true_le(m: Seq<bool>)
    ensures
        count_true(m) <= m.len(),
    decreases m.len(),
{
    if m.len() > 0 {
        lemma_count_true_le(m.drop_last());
    }
}

pub proof fn lemma_count_true_all_false(m: Seq<bool>)
    requires
        forall|i: int| 0 <= i < m.len() ==> !m[i],
    ensures
        count_true(m) == 0,
    decreases m.len(),
{
    if m.len() > 0 {
        lemma_count_true_all_false(m.drop_last());
    }
}

/// Setting an unset entry raises the count by one.
pub proof fn lemma_count_true_set(m: Seq<bool>, i: int)
    requires
        0 <= i < m.len(),
        !m[i],
    ensures
        count_true(m.update(i, true)) == count_true(m) + 1,
    decreases m.len(),
{
    if i == m.len() - 1 {
        assert(m.update(i, true).drop_last() =~= m.drop_last());
    } else {
        assert(m.update(i, true).drop_last() =~= m.drop_last().update(i, true));
        assert(m.update(i, true).last() == m.last());
        lemma_count_true_set(m.drop_last(), i);
    }
}

/// A mask that is not full leaves some entry unset.
pub proof fn lemma_count_true_lt_exists(m: Seq<bool>)
    requires
        count_true(m) < m.len(),
    ensures
        exists|i: int| 0 <= i < m.len() && !m[i],
    decreases m.len(),
{
    if m.len() > 0 {
        if !m.last() {
            assert(!m[m.len() - 1]);
        } else {
            lemma_count_true_lt_exists(m.drop_last());
            let i = choose|i: int| 0 <= i < m.drop_last().len() && !m.drop_last()[i];
            assert(!m[i]);
        }
    }
}

/// Draws one index by weighted random choice over the eligible entries of
/// `row`: the chance of an index is its weight out of the eligible total.
/// The chosen index is always eligible and always carries a positive weight.
pub(crate) fn weighted_pick(row: &Vec<usize>, mask: &Vec<bool>) -> (idx: usize)
    requires
        row@.len() == mask@.len(),
        seq_sum(row@) <= usize::MAX,
        seq_sum(masked_weights(row@, mask@)) >= 1,
    ensures
        idx < row@.len(),
        !mask@[idx as int],
        row@[idx as int] >= 1,
{
    let ghost w = masked_weights(row@, mask@);
    proof {
        lemma_seq_sum_le_pointwise(w, row@);
    }
    let n = row.len();
    let mut total: usize = 0;
    for k in 0..n
        invariant
            n == row@.len(),
            row@.len() == mask@.len(),
            seq_sum(row@) <= usize::MAX,
            w == masked_weights(row@, mask@),
            total == seq_sum(w.take(k as int)),
    {
        proof {
            lemma_seq_sum_take_succ(w, k as int);
            lemma_seq_sum_take_le(w, k as int + 1);
            lemma_seq_sum_le_pointwise(w, row@);
        }
        if !mask[k] {
            total = total + row[k];
        }
    }
    proof {
        assert(w.take(n as int) =~= w);
    }
    let r = random_below(total);
    assert(row@.len() >= 1);
    let mut idx: usize = 0;
    let mut acc: usize = if mask[0] { 0 } else { row[0] };
    proof {
        assert(w.take(0) =~= Seq::<usize>::empty());
        assert(seq_sum(Seq::<usize>::empty()) == 0);
        lemma_seq_sum_take_succ(w, 0);
    }
    while acc <= r
        invariant
            idx < n,
            n == row@.len(),
            row@.len() == mask@.len(),
            w == masked_weights(row@, mask@),
            r < seq_sum(w),
            seq_sum(w) <= usize::MAX,
            acc == seq_sum(w.take(idx as int + 1)),
            seq_sum(w.take(idx as int)) <= r,
        decreases n - idx,
    {
        proof {
            if idx + 1 == n {
                assert(w.take(idx as int + 1) =~= w);
            }
            lemma_seq_sum_take_succ(w, idx as int + 1);
            lemma_seq_sum_take_le(w, idx as int + 2);
        }
        idx = idx + 1;
        let add = if mask[idx] { 0 } else { row[idx] };
        acc = acc + add;
    }
    proof {
        lemma_seq_sum_take_succ(w, idx as int);
        assert(w[idx as int] >= 1);
    }
    idx
}

} // verus!
