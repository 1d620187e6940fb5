//! Permutation representations and estimation-of-distribution primitives:
//! bijective codecs between permutations and inversion / repeated-insertion
//! vectors, positional distribution learning and sampling, and classic
//! permutation-problem evaluators.

pub mod errors;
pub mod permutation;
pub mod sampling;
pub mod inversion;
pub mod rim;
pub mod vj;
pub mod parse;
pub mod problems;

use vstd::prelude::*;

verus! {

use crate::sampling::seq_sum;
use crate::errors::Error;

/// Enum for the probability distribution types that `learn` produces and
/// `sample` draws from: a positions-by-values matrix of counts, and a flag
/// recording whether the one-time add-one smoothing has been applied.
#[derive(Debug, PartialEq)]
pub enum Distribution {
    /// Probability distribution for permutation populations.
    PermuDistribution(Vec<Vec<usize>>, bool),
    /// Probability distribution for inversion vector populations.
    InversionDistribution(Vec<Vec<usize>>, bool),
    /// Probability distribution for RIM vector populations.
    RimDistribution(Vec<Vec<usize>>, bool),
}

/// Contains the methods a `Population` should have: learning a positional
/// count distribution from the current members, and refilling the members
/// with samples drawn from such a distribution.
pub trait Population: Sized {
    /// When a distribution can be learned from this population.
    spec fn learn_pre(&self) -> bool;

    /// What the learned distribution holds: exact per-position value
    /// counts over the members, in the matching variant, not yet softened.
    spec fn learned(&self, d: Distribution) -> bool;

    /// When this population can be filled with samples from `d`.
    spec fn sample_pre(&self, d: Distribution) -> bool;

    /// How sampling relates the population and distribution before the
    /// call to those after it, on success and on each error.
    spec fn sample_post(
        pre: Self,
        d0: Distribution,
        post: Self,
        d1: Distribution,
        r: Result<(), Error>,
    ) -> bool;

    /// Returns a `Distribution` learned from the current population.
    fn learn(&self) -> (d: Distribution)
        requires
            self.learn_pre(),
        ensures
            self.learned(d),
    ;

    /// Fills the current population with samples drawn from the given
    /// `Distribution`, applying the one-time add-one smoothing first when
    /// the distribution has not been softened yet.
    fn sample(&mut self, distr: &mut Distribution) -> (r: Result<(), Error>)
        requires
            old(self).sample_pre(*old(distr)),
        ensures
            Self::sample_post(*old(self), *old(distr), *final(self), *final(distr), r),
    ;
}

/// The rows of a count matrix as plain sequences.
pub open spec fn rows_of(m: Vec<Vec<usize>>) -> Seq<Seq<usize>> {
    m@.map_values(|x: Vec<usize>| x@)
}

/// The count matrix held by a distribution, whichever its variant.
pub open spec fn matrix_of(d: Distribution) -> Seq<Seq<usize>> {
    match d {
        Distribution::PermuDistribution(m, _) => rows_of(m),
        Distribution::InversionDistribution(m, _) => rows_of(m),
        Distribution::RimDistribution(m, _) => rows_of(m),
    }
}

/// The soften flag held by a distribution, whichever its variant.
pub open spec fn soften_of(d: Distribution) -> bool {
    match d {
        Distribution::PermuDistribution(_, s) => s,
        Distribution::InversionDistribution(_, s) => s,
        Distribution::RimDistribution(_, s) => s,
    }
}

/// A matrix of `rows` rows, each `cols` wide.
pub open spec fn matrix_shape(m: Seq<Seq<usize>>, rows: int, cols: int) -> bool {
    m.len() == rows && forall|i: int| 0 <= i < m.len() ==> (#[trigger] m[i].len()) == cols
}

/// How many members of `pop` hold the value `v` at position `j`.
pub open spec fn col_count(pop: Seq<Seq<usize>>, j: int, v: usize) -> nat
    decreases pop.len(),
{
    if pop.len() == 0 {
        0
    } else {
        col_count(pop.drop_last(), j, v) + (if 0 <= j < pop.last().len() && pop.last()[j] == v {
            1nat
        } else {
            0nat
        })
    }
}

pub proof fn lemma_col_count_le(pop: Seq<Seq<usize>>, j: int, v: usize)
    ensures
        col_count(pop, j, v) <= pop.len(),
    decreases pop.len(),
{
    if pop.len() > 0 {
        lemma_col_count_le(pop.drop_last(), j, v);
    }
}

/// `m` is the frequency-count matrix learned from `pop`: entry `(j, v)`
/// counts the members holding value `v` at position `j`.
pub open spec fn learned_matrix(
    m: Seq<Seq<usize>>,
    pop: Seq<Seq<usize>>,
    positions: nat,
    width: nat,
) -> bool {
    &&& matrix_shape(m, positions as int, width as int)
    &&& forall|j: int, v: usize|
        0 <= j < positions && v < width ==> #[trigger] m[j][v as int] == col_count(pop, j, v)
}

/// Raising one cell by one raises the sum by one.
proof fn lemma_seq_sum_update_incr(s: Seq<usize>, i: int)
    requires
        0 <= i < s.len(),
        s[i] < usize::MAX,
    ensures
        seq_sum(s.update(i, (s[i] + 1) as usize)) == seq_sum(s) + 1,
    decreases s.len(),
{
    let u = s.update(i, (s[i] + 1) as usize);
    if i == s.len() - 1 {
        assert(u.drop_last() =~= s.drop_last());
    } else {
        assert(u.drop_last() =~= s.drop_last().update(i, (s[i] + 1) as usize));
        assert(u.last() == s.last());
        lemma_seq_sum_update_incr(s.drop_last(), i);
    }
}

proof fn lemma_seq_sum_all_zero(s: Seq<usize>)
    requires
        forall|i: int| 0 <= i < s.len() ==> s[i] == 0usize,
    ensures
        seq_sum(s) == 0,
    decreases s.len(),
{
    if s.len() > 0 {
        lemma_seq_sum_all_zero(s.drop_last());
    }
}

/// The per-value counts of one position, over the whole value axis.
pub open spec fn counts_row(pop: Seq<Seq<usize>>, j: int, width: nat) -> Seq<usize> {
    Seq::new(width, |v: int| col_count(pop, j, v as usize) as usize)
}

proof fn lemma_counts_row_sum(pop: Seq<Seq<usize>>, j: int, width: nat)
    requires
        pop.len() <= usize::MAX,
        width <= usize::MAX,
        forall|k: int| 0 <= k < pop.len() ==> 0 <= j < (#[trigger] pop[k]).len(),
        forall|k: int| 0 <= k < pop.len() ==> (#[trigger] pop[k][j]) < width,
    ensures
        seq_sum(counts_row(pop, j, width)) == pop.len(),
    decreases pop.len(),
{
    if pop.len() == 0 {
        assert forall|v: int| 0 <= v < width implies counts_row(pop, j, width)[v] == 0usize by {}
        lemma_seq_sum_all_zero(counts_row(pop, j, width));
    } else {
        let rest = pop.drop_last();
        let e = pop.last()[j];
        lemma_counts_row_sum(rest, j, width);
        lemma_col_count_le(rest, j, e);
        assert(counts_row(pop, j, width) =~= counts_row(rest, j, width).update(
            e as int, (counts_row(rest, j, width)[e as int] + 1) as usize)) by {
            assert forall|v: int| 0 <= v < width implies counts_row(pop, j, width)[v]
                == counts_row(rest, j, width).update(
                e as int, (counts_row(rest, j, width)[e as int] + 1) as usize)[v] by {
                assert(pop.last() == pop[pop.len() - 1]);
                assert(0 <= j < pop.last().len());
                assert((v as usize) as int == v);
                assert(col_count(pop, j, v as usize) == col_count(rest, j, v as usize) + (
                if pop.last()[j] == v as usize {
                    1nat
                } else {
                    0nat
                }));
                lemma_col_count_le(rest, j, v as usize);
            }
        }
        lemma_seq_sum_update_incr(counts_row(rest, j, width), e as int);
    }
}

/// Law: before smoothing, each row of a matrix learned from a population
/// sums to the population's size, since every member contributes exactly
/// one count to each position.
pub proof fn lemma_learned_row_sums(
    m: Seq<Seq<usize>>,
    pop: Seq<Seq<usize>>,
    positions: nat,
    width: nat,
    j: int,
)
    requires
        learned_matrix(m, pop, positions, width),
        pop.len() <= usize::MAX,
        width <= usize::MAX,
        0 <= j < positions,
        forall|k: int| 0 <= k < pop.len() ==> 0 <= j < (#[trigger] pop[k]).len(),
        forall|k: int| 0 <= k < pop.len() ==> (#[trigger] pop[k][j]) < width,
    ensures
        seq_sum(m[j]) == pop.len(),
{
    lemma_counts_row_sum(pop, j, width);
    assert(m[j] =~= counts_row(pop, j, width)) by {
        assert forall|v: int| 0 <= v < width implies m[j][v] == counts_row(pop, j, width)[v] by {
            assert((v as usize) as int == v);
            assert(m[j][(v as usize) as int] == col_count(pop, j, v as usize));
        }
    }
}

/// A count raised by one (a plain one-step increment in every intended use;
/// the cast only makes the function total).
pub open spec fn add1(x: usize) -> usize {
    (x + 1) as usize
}

/// Add-one smoothing for a permutation matrix: every cell is raised.
pub open spec fn smooth_permu(m: Seq<Seq<usize>>) -> Seq<Seq<usize>> {
    Seq::new(m.len(), |j: int| Seq::new(m[j].len(), |c: int| add1(m[j][c])))
}

/// Add-one smoothing for an inversion matrix: only the admissible cells
/// are raised, those with `c + j <= m.len()`, since position `j` of an
/// inversion vector never holds a larger value.
pub open spec fn smooth_inversion(m: Seq<Seq<usize>>) -> Seq<Seq<usize>> {
    Seq::new(m.len(), |j: int| Seq::new(m[j].len(), |c: int|
        if c + j < m.len() + 1 {
            add1(m[j][c])
        } else {
            m[j][c]
        }))
}

/// Add-one smoothing for a RIM matrix: only the admissible cells are
/// raised, those with `c <= j + 1`, since the element `j + 1` can only be
/// inserted at an index up to `j + 1`.
pub open spec fn smooth_rim(m: Seq<Seq<usize>>) -> Seq<Seq<usize>> {
    Seq::new(m.len(), |j: int| Seq::new(m[j].len(), |c: int|
        if c < j + 2 {
            add1(m[j][c])
        } else {
            m[j][c]
        }))
}

/// A vector of `length` zeros.
pub(crate) fn zeros_vec(length: usize) -> (v: Vec<usize>)
    ensures
        v@.len() == length,
        forall|i: int| 0 <= i < length ==> v@[i] == 0usize,
{
    let mut v: Vec<usize> = Vec::new();
    for i in 0..length
        invariant
            v@.len() == i,
            forall|k: int| 0 <= k < i ==> v@[k] == 0usize,
    {
        v.push(0);
    }
    v
}

/// The elementwise one-raised image of a row has the row's sum plus its
/// length as sum.
pub proof fn lemma_seq_sum_add1(row: Seq<usize>)
    requires
        forall|c: int| 0 <= c < row.len() ==> row[c] < usize::MAX,
    ensures
        seq_sum(Seq::new(row.len(), |c: int| add1(row[c]))) == seq_sum(row) + row.len(),
    decreases row.len(),
{
    if row.len() > 0 {
        let f = Seq::new(row.len(), |c: int| add1(row[c]));
        let g = Seq::new(row.drop_last().len(), |c: int| add1(row.drop_last()[c]));
        assert(f.drop_last() =~= g);
        lemma_seq_sum_add1(row.drop_last());
    }
}

/// A vector of `length` `false` flags.
pub(crate) fn false_vec(length: usize) -> (v: Vec<bool>)
    ensures
        v@.len() == length,
        forall|i: int| 0 <= i < length ==> !v@[i],
{
    let mut v: Vec<bool> = Vec::new();
    for i in 0..length
        invariant
            v@.len() == i,
            forall|k: int| 0 <= k < i ==> !v@[k],
    {
        v.push(false);
    }
    v
}

/// A row-for-row copy of a count matrix.
pub(crate) fn copy_matrix(m: &Vec<Vec<usize>>) -> (r: Vec<Vec<usize>>)
    ensures
        rows_of(r) == rows_of(*m),
        r@.len() == m@.len(),
{
    let mut out: Vec<Vec<usize>> = Vec::new();
    let n = m.len();
    for j in 0..n
        invariant
            n == m@.len(),
            out@.len() == j,
            forall|t: int| 0 <= t < j ==> (#[trigger] out@[t]@) == m@[t]@,
    {
        out.push(copy_vec(&m[j]));
    }
    proof {
        assert(rows_of(out) =~= rows_of(*m));
    }
    out
}

/// Raises every cell of the matrix by one.
pub(crate) fn smooth_permu_exec(m: &Vec<Vec<usize>>) -> (r: Vec<Vec<usize>>)
    requires
        forall|j: int|
            0 <= j < m@.len() ==> seq_sum(#[trigger] m@[j]@) + m@[j]@.len() <= usize::MAX,
    ensures
        rows_of(r) == smooth_permu(rows_of(*m)),
        r@.len() == m@.len(),
        forall|j: int| 0 <= j < m@.len() ==> (#[trigger] r@[j]@).len() == m@[j]@.len(),
        forall|j: int|
            0 <= j < m@.len() ==> seq_sum(#[trigger] r@[j]@) <= seq_sum(m@[j]@) + m@[j]@.len(),
        forall|j: int, c: int|
            0 <= j < m@.len() && 0 <= c < m@[j]@.len() ==> #[trigger] r@[j]@[c] >= 1,
{
    let mut out: Vec<Vec<usize>> = Vec::new();
    let n = m.len();
    for j in 0..n
        invariant
            n == m@.len(),
            out@.len() == j,
            forall|t: int|
                0 <= t < n ==> seq_sum(#[trigger] m@[t]@) + m@[t]@.len() <= usize::MAX,
            forall|t: int| 0 <= t < j ==> (#[trigger] out@[t]@) == smooth_permu(rows_of(*m))[t],
            forall|t: int| 0 <= t < j ==> (#[trigger] out@[t]@).len() == m@[t]@.len(),
            forall|t: int|
                0 <= t < j ==> seq_sum(#[trigger] out@[t]@) <= seq_sum(m@[t]@) + m@[t]@.len(),
            forall|t: int, c: int|
                0 <= t < j && 0 <= c < m@[t]@.len() ==> #[trigger] out@[t]@[c] >= 1,
    {
        let row = &m[j];
        let w = row.len();
        let mut nr: Vec<usize> = Vec::new();
        for c in 0..w
            invariant
                w == row@.len(),
                row@ == m@[j as int]@,
                j < n,
                n == m@.len(),
                seq_sum(row@) + row@.len() <= usize::MAX,
                nr@.len() == c,
                forall|t: int| 0 <= t < c ==> (#[trigger] nr@[t]) == add1(row@[t]),
                forall|t: int| 0 <= t < c ==> (#[trigger] nr@[t]) >= 1,
        {
            proof {
                crate::sampling::lemma_seq_sum_elem_le(row@, c as int);
                crate::sampling::lemma_seq_sum_nonneg(row@);
            }
            nr.push(row[c] + 1);
        }
        proof {
            assert(nr@ =~= smooth_permu(rows_of(*m))[j as int]);
            assert forall|t: int| 0 <= t < row@.len() implies row@[t] < usize::MAX by {
                crate::sampling::lemma_seq_sum_elem_le(row@, t);
                crate::sampling::lemma_seq_sum_nonneg(row@);
            }
            lemma_seq_sum_add1(row@);
            assert(seq_sum(nr@) == seq_sum(row@) + row@.len());
        }
        out.push(nr);
    }
    proof {
        assert(rows_of(out) =~= smooth_permu(rows_of(*m)));
    }
    out
}

/// Raises by one the admissible cells of an inversion count matrix: in row
/// `j`, the columns up to `m.len() - j`.
pub(crate) fn smooth_inversion_exec(m: &Vec<Vec<usize>>) -> (r: Vec<Vec<usize>>)
    requires
        forall|j: int|
            0 <= j < m@.len() ==> seq_sum(#[trigger] m@[j]@) + m@[j]@.len() <= usize::MAX,
    ensures
        rows_of(r) == smooth_inversion(rows_of(*m)),
        r@.len() == m@.len(),
        forall|j: int| 0 <= j < m@.len() ==> (#[trigger] r@[j]@).len() == m@[j]@.len(),
        forall|j: int|
            0 <= j < m@.len() ==> seq_sum(#[trigger] r@[j]@) <= seq_sum(m@[j]@) + m@[j]@.len(),
        forall|j: int|
            0 <= j < m@.len() && m@[j]@.len() >= 1 ==> (#[trigger] r@[j]@)[0] >= 1,
{
    let mut out: Vec<Vec<usize>> = Vec::new();
    let n = m.len();
    for j in 0..n
        invariant
            n == m@.len(),
            out@.len() == j,
            forall|t: int|
                0 <= t < n ==> seq_sum(#[trigger] m@[t]@) + m@[t]@.len() <= usize::MAX,
            forall|t: int|
                0 <= t < j ==> (#[trigger] out@[t]@) == smooth_inversion(rows_of(*m))[t],
            forall|t: int| 0 <= t < j ==> (#[trigger] out@[t]@).len() == m@[t]@.len(),
            forall|t: int|
                0 <= t < j ==> seq_sum(#[trigger] out@[t]@) <= seq_sum(m@[t]@) + m@[t]@.len(),
            forall|t: int|
                0 <= t < j && m@[t]@.len() >= 1 ==> (#[trigger] out@[t]@)[0] >= 1,
    {
        let row = &m[j];
        let w = row.len();
        let mut nr: Vec<usize> = Vec::new();
        for c in 0..w
            invariant
                w == row@.len(),
                row@ == m@[j as int]@,
                j < n,
                n == m@.len(),
                seq_sum(row@) + row@.len() <= usize::MAX,
                nr@.len() == c,
                forall|t: int|
                    0 <= t < c ==> (#[trigger] nr@[t]) == (if t + j < n + 1 {
                        add1(row@[t])
                    } else {
                        row@[t]
                    }),
                forall|t: int| 0 <= t < c ==> (#[trigger] nr@[t]) <= add1(row@[t]),
        {
            proof {
                crate::sampling::lemma_seq_sum_elem_le(row@, c as int);
                crate::sampling::lemma_seq_sum_nonneg(row@);
            }
            if c <= n - j {
                nr.push(row[c] + 1);
            } else {
                nr.push(row[c]);
            }
        }
        proof {
            assert(nr@ =~= smooth_inversion(rows_of(*m))[j as int]);
            assert forall|t: int| 0 <= t < row@.len() implies row@[t] < usize::MAX by {
                crate::sampling::lemma_seq_sum_elem_le(row@, t);
                crate::sampling::lemma_seq_sum_nonneg(row@);
            }
            lemma_seq_sum_add1(row@);
            crate::sampling::lemma_seq_sum_le_pointwise(nr@, Seq::new(
                row@.len(), |c: int| add1(row@[c])));
            assert(seq_sum(nr@) <= seq_sum(row@) + row@.len());
        }
        out.push(nr);
    }
    proof {
        assert(rows_of(out) =~= smooth_inversion(rows_of(*m)));
    }
    out
}

/// Raises by one the admissible cells of a RIM count matrix: in row `j`,
/// the columns up to `j + 1`.
pub(crate) fn smooth_rim_exec(m: &Vec<Vec<usize>>) -> (r: Vec<Vec<usize>>)
    requires
        m@.len() < usize::MAX,
        forall|j: int|
            0 <= j < m@.len() ==> seq_sum(#[trigger] m@[j]@) + m@[j]@.len() <= usize::MAX,
    ensures
        rows_of(r) == smooth_rim(rows_of(*m)),
        r@.len() == m@.len(),
        forall|j: int| 0 <= j < m@.len() ==> (#[trigger] r@[j]@).len() == m@[j]@.len(),
        forall|j: int|
            0 <= j < m@.len() ==> seq_sum(#[trigger] r@[j]@) <= seq_sum(m@[j]@) + m@[j]@.len(),
        forall|j: int|
            0 <= j < m@.len() && m@[j]@.len() >= 1 ==> (#[trigger] r@[j]@)[0] >= 1,
{
    let mut out: Vec<Vec<usize>> = Vec::new();
    let n = m.len();
    for j in 0..n
        invariant
            n == m@.len(),
            n < usize::MAX,
            out@.len() == j,
            forall|t: int|
                0 <= t < n ==> seq_sum(#[trigger] m@[t]@) + m@[t]@.len() <= usize::MAX,
            forall|t: int| 0 <= t < j ==> (#[trigger] out@[t]@) == smooth_rim(rows_of(*m))[t],
            forall|t: int| 0 <= t < j ==> (#[trigger] out@[t]@).len() == m@[t]@.len(),
            forall|t: int|
                0 <= t < j ==> seq_sum(#[trigger] out@[t]@) <= seq_sum(m@[t]@) + m@[t]@.len(),
            forall|t: int|
                0 <= t < j && m@[t]@.len() >= 1 ==> (#[trigger] out@[t]@)[0] >= 1,
    {
        let row = &m[j];
        let w = row.len();
        let mut nr: Vec<usize> = Vec::new();
        for c in 0..w
            invariant
                w == row@.len(),
                row@ == m@[j as int]@,
                j < n,
                n == m@.len(),
                n < usize::MAX,
                seq_sum(row@) + row@.len() <= usize::MAX,
                nr@.len() == c,
                forall|t: int|
                    0 <= t < c ==> (#[trigger] nr@[t]) == (if t < j + 2 {
                        add1(row@[t])
                    } else {
                        row@[t]
                    }),
                forall|t: int| 0 <= t < c ==> (#[trigger] nr@[t]) <= add1(row@[t]),
        {
            proof {
                crate::sampling::lemma_seq_sum_elem_le(row@, c as int);
                crate::sampling::lemma_seq_sum_nonneg(row@);
            }
            if c < j + 2 {
                nr.push(row[c] + 1);
            } else {
                nr.push(row[c]);
            }
        }
        proof {
            assert(nr@ =~= smooth_rim(rows_of(*m))[j as int]);
            assert forall|t: int| 0 <= t < row@.len() implies row@[t] < usize::MAX by {
                crate::sampling::lemma_seq_sum_elem_le(row@, t);
                crate::sampling::lemma_seq_sum_nonneg(row@);
            }
            lemma_seq_sum_add1(row@);
            crate::sampling::lemma_seq_sum_le_pointwise(nr@, Seq::new(
                row@.len(), |c: int| add1(row@[c])));
            assert(seq_sum(nr@) <= seq_sum(row@) + row@.len());
        }
        out.push(nr);
    }
    proof {
        assert(rows_of(out) =~= smooth_rim(rows_of(*m)));
    }
    out
}

/// An element-for-element copy of a vector.
pub(crate) fn copy_vec(src: &Vec<usize>) -> (v: Vec<usize>)
    ensures
        v@ == src@,
{
    let mut v: Vec<usize> = Vec::new();
    let n = src.len();
    for i in 0..n
        invariant
            n == src@.len(),
            v@ =~= src@.take(i as int),
    {
        v.push(src[i]);
    }
    proof {
        assert(src@.take(n as int) =~= src@);
    }
    v
}

} // verus!
