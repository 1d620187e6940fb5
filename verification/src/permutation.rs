//! Permutation vectors: validation, identity and random generation, and the
//! transforms into the inversion representation.

use vstd::prelude::*;

verus! {

use vstd::seq_lib::*;
use vstd::set_lib::*;
use crate::errors::Error;
use crate::sampling::{seq_sum, count_true, masked_weights};
use crate::{
    Distribution, Population, matrix_of, soften_of, matrix_shape, col_count, learned_matrix,
    smooth_permu, rows_of,
};
use crate::inversion::{Inversion, InversionPopulation, inv_encode, inv_in_range, lehmer_decode};

/// Holds exactly when every value in `[0, s.len())` occurs in `s`.  Since `s`
/// has exactly `s.len()` entries, each such value then occurs exactly once,
/// every entry is below `s.len()`, and no entry is repeated (see
/// `lemma_permutation_bounds`).
pub open spec fn is_permutation(s: Seq<usize>) -> bool {
    s.len() <= usize::MAX && forall|v: usize| v < s.len() ==> s.contains(v)
}

/// The identity sequence `[0, 1, ..., n-1]`.
pub open spec fn identity_seq(n: nat) -> Seq<usize> {
    Seq::new(n, |i: int| i as usize)
}

/// The set of all values below `n`.
pub open spec fn below_set(n: nat) -> Set<usize> {
    Set::new(|v: usize| v < n)
}

/// The identity sequence is a permutation; its value set is exactly the
/// values below `n`, so that set is finite and has `n` elements.
pub proof fn lemma_identity_props(n: nat)
    requires
        n <= usize::MAX,
    ensures
        identity_seq(n).no_duplicates(),
        is_permutation(identity_seq(n)),
        identity_seq(n).to_set() == below_set(n),
        below_set(n).finite(),
        below_set(n).len() == n,
{
    broadcast use seq_to_set_is_finite;

    let s = identity_seq(n);
    assert forall|v: usize| v < n implies s.contains(v) by {
        assert(s[v as int] == v);
    }
    assert(s.to_set() =~= below_set(n));
    s.unique_seq_to_set();
}

/// Pigeonhole: a sequence of length `n` that contains every value below `n`
/// has no duplicates and holds only values below `n`.
pub proof fn lemma_permutation_bounds(s: Seq<usize>)
    requires
        is_permutation(s),
    ensures
        s.no_duplicates(),
        forall|i: int| 0 <= i < s.len() ==> s[i] < s.len(),
        s.to_set() == below_set(s.len()),
{
    broadcast use seq_to_set_is_finite;

    let n = s.len();
    let r = below_set(n);
    lemma_identity_props(n);
    assert(r.subset_of(s.to_set()));
    s.lemma_cardinality_of_set();
    lemma_len_subset(r, s.to_set());
    lemma_subset_equality(r, s.to_set());
    s.lemma_no_dup_set_cardinality();
    assert forall|i: int| 0 <= i < s.len() implies s[i] < s.len() by {
        assert(s.contains(s[i]));
        assert(s.to_set().contains(s[i]));
    }
}

/// Converse pigeonhole: a duplicate-free sequence whose entries all lie below
/// its length contains every value below its length.
pub proof fn lemma_distinct_bounded_is_permutation(s: Seq<usize>)
    requires
        s.len() <= usize::MAX,
        s.no_duplicates(),
        forall|i: int| 0 <= i < s.len() ==> s[i] < s.len(),
    ensures
        is_permutation(s),
{
    broadcast use seq_to_set_is_finite;

    let n = s.len();
    let r = below_set(n);
    lemma_identity_props(n);
    s.unique_seq_to_set();
    assert(s.to_set().subset_of(r));
    lemma_subset_equality(s.to_set(), r);
    assert forall|v: usize| v < n implies s.contains(v) by {
        assert(r.contains(v));
        assert(s.to_set().contains(v));
    }
}

/// Exchanging two entries of a permutation leaves a permutation.
pub proof fn lemma_swap_preserves_permutation(s: Seq<usize>, i: int, j: int)
    requires
        is_permutation(s),
        0 <= i < s.len(),
        0 <= j < s.len(),
    ensures
        is_permutation(s.update(i, s[j]).update(j, s[i])),
{
    let t = s.update(i, s[j]).update(j, s[i]);
    assert forall|v: usize| v < t.len() implies t.contains(v) by {
        assert(s.contains(v));
        let k = choose|k: int| 0 <= k < s.len() && s[k] == v;
        if k == j {
            assert(t[i] == v);
        } else if k == i {
            assert(t[j] == v);
        } else {
            assert(t[k] == v);
        }
    }
}

/// Contains a permutation vector and methods to generate permutations.
#[derive(Debug, Clone, PartialEq)]
pub struct Permutation {
    pub permu: Vec<usize>,
}

impl Permutation {
    /// Initializes a `Permutation` with the given vector, after checking that
    /// it really is a permutation; a vector that is not one is rejected with
    /// `NotPermutation`.
    pub fn from_vec(vec: Vec<usize>) -> (r: Result<Permutation, Error>)
        ensures
            r matches Ok(p) ==> p.permu@ == vec@ && is_permutation(vec@),
            r is Ok <==> is_permutation(vec@),
            r is Err ==> r matches Err(Error::NotPermutation),
    {
        let permu = Permutation { permu: vec };
        if permu.is_permu() {
            Ok(permu)
        } else {
            Err(Error::NotPermutation)
        }
    }

    /// Initializes a `Permutation` with the given vector without checking
    /// whether the vector actually is a permutation.
    pub fn from_vec_unsec(vec: Vec<usize>) -> (r: Permutation)
        ensures
            r.permu@ == vec@,
    {
        Permutation { permu: vec }
    }

    /// Returns the length of the permutation vector.
    pub fn len(&self) -> (l: usize)
        ensures
            l == self.permu@.len(),
    {
        self.permu.len()
    }

    /// Returns an identity permutation of the length given.
    pub fn identity(length: usize) -> (r: Permutation)
        ensures
            r.permu@ == identity_seq(length as nat),
            is_permutation(r.permu@),
    {
        let mut identity: Vec<usize> = Vec::new();
        for i in 0..length
            invariant
                identity@ =~= identity_seq(i as nat),
        {
            identity.push(i);
        }
        proof {
            lemma_identity_props(length as nat);
        }
        Permutation { permu: identity }
    }

    /// Generates a random permutation of the length given: the identity
    /// permutation shuffled by uniformly random swaps.
    pub fn random(length: usize) -> (r: Permutation)
        ensures
            r.permu@.len() == length,
            is_permutation(r.permu@),
    {
        let mut p = Self::identity(length);
        let mut i: usize = length;
        while i > 1
            invariant
                i <= length,
                p.permu@.len() == length,
                is_permutation(p.permu@),
            decreases i,
        {
            i = i - 1;
            let j = crate::sampling::random_below(i + 1);
            let ghost before = p.permu@;
            let a = p.permu[i];
            let b = p.permu[j];
            p.permu.set(i, b);
            p.permu.set(j, a);
            proof {
                lemma_swap_preserves_permutation(before, i as int, j as int);
            }
        }
        p
    }

    /// Checks if the given vector contains an element.
    fn contains(permu: &Vec<usize>, item: usize) -> (r: bool)
        ensures
            r == permu@.contains(item),
    {
        let n = permu.len();
        for i in 0..n
            invariant
                n == permu@.len(),
                forall|k: int| 0 <= k < i ==> permu@[k] != item,
        {
            if permu[i] == item {
                return true;
            }
        }
        false
    }

    /// Checks if the vector inside `Permutation` really is a permutation:
    /// every value in `[0, len)` must be present.
    pub fn is_permu(&self) -> (r: bool)
        ensures
            r == is_permutation(self.permu@),
    {
        let n = self.permu.len();
        for v in 0..n
            invariant
                n == self.permu@.len(),
                forall|w: usize| w < v ==> self.permu@.contains(w),
        {
            if !Self::contains(&self.permu, v) {
                return false;
            }
        }
        true
    }

    /// Fills `out` with the inversion representation of this `Permutation`;
    /// see `Inversion::from_permu`.
    pub fn to_inversion(&self, out: &mut Inversion) -> (r: Result<(), Error>)
        requires
            self.permu@.len() >= 1,
        ensures
            r is Ok <==> old(out).inversion@.len() + 1 == self.permu@.len(),
            r is Ok ==> final(out).inversion@ == inv_encode(self.permu@) && inv_in_range(
                final(out).inversion@, self.permu@.len() as int),
            r is Err ==> *final(out) == *old(out) && r matches Err(Error::LengthError),
    {
        Inversion::from_permu(self, out)
    }

    /// Fills `out` with the `Permutation` encoded by the given `Inversion`;
    /// see `Inversion::to_permu`.
    pub fn from_inversion(inversion: &Inversion, out: &mut Permutation) -> (r: Result<(), Error>)
        requires
            old(out).permu@.len() >= 1,
            old(out).permu@.len() == inversion.inversion@.len() + 1 ==> inv_in_range(
                inversion.inversion@, old(out).permu@.len() as int),
        ensures
            r is Ok <==> old(out).permu@.len() == inversion.inversion@.len() + 1,
            r is Ok ==> final(out).permu@ == lehmer_decode(
                identity_seq(old(out).permu@.len() as nat), inversion.inversion@.push(0usize))
                && is_permutation(final(out).permu@) && final(out).permu@.len() == old(
                out).permu@.len(),
            r is Err ==> *final(out) == *old(out) && r matches Err(Error::LengthError),
    {
        Inversion::to_permu(inversion, out)
    }
}

/// Population of `Permutation`s.
#[derive(Debug, Clone, PartialEq)]
pub struct PermuPopulation {
    pub population: Vec<Permutation>,
    pub size: usize,
}

impl PermuPopulation {
    /// The members of the population as plain sequences.
    pub open spec fn rows(&self) -> Seq<Seq<usize>> {
        self.population@.map_values(|p: Permutation| p.permu@)
    }

    /// The length of the member vectors, read off the first member.
    pub open spec fn vlen(&self) -> nat {
        if self.population@.len() == 0 {
            0
        } else {
            self.population@[0].permu@.len()
        }
    }

    /// Well-formed: the stored size matches the member count and every
    /// member has the same length.
    pub open spec fn wf(&self) -> bool {
        &&& self.size == self.population@.len()
        &&& forall|k: int|
            0 <= k < self.population@.len() ==> (#[trigger] self.population@[k].permu@.len())
                == self.vlen()
    }

    /// Returns a `PermuPopulation` created from a vector of `Permutation`s.
    pub fn from_vec(vec: Vec<Permutation>) -> (r: PermuPopulation)
        ensures
            r.population@ == vec@,
            r.size == vec@.len(),
    {
        let size = vec.len();
        PermuPopulation { population: vec, size }
    }

    /// Returns a `PermuPopulation` of the size given whose members are
    /// filled with zeros; the member length must be specified.
    pub fn zeros(size: usize, length: usize) -> (r: PermuPopulation)
        ensures
            r.wf(),
            r.size == size,
            r.population@.len() == size,
            size > 0 ==> r.vlen() == length,
            forall|k: int| 0 <= k < size ==> (#[trigger] r.rows()[k]).len() == length,
            forall|k: int, j: int|
                0 <= k < size && 0 <= j < length ==> r.rows()[k][j] == 0usize,
    {
        let mut pop: Vec<Permutation> = Vec::new();
        for s in 0..size
            invariant
                pop@.len() == s,
                forall|k: int| 0 <= k < s ==> (#[trigger] pop@[k].permu@).len() == length,
                forall|k: int, j: int|
                    0 <= k < s && 0 <= j < length ==> pop@[k].permu@[j] == 0usize,
        {
            pop.push(Permutation::from_vec_unsec(crate::zeros_vec(length)));
        }
        PermuPopulation { population: pop, size }
    }

    /// Creates a `PermuPopulation` of identity `Permutation`s of the size
    /// and length given.
    pub fn identity(size: usize, length: usize) -> (r: PermuPopulation)
        ensures
            r.wf(),
            r.size == size,
            r.population@.len() == size,
            size > 0 ==> r.vlen() == length,
            forall|k: int|
                0 <= k < size ==> (#[trigger] r.rows()[k]) == identity_seq(length as nat)
                    && is_permutation(r.rows()[k]),
    {
        let mut pop: Vec<Permutation> = Vec::new();
        for s in 0..size
            invariant
                pop@.len() == s,
                forall|k: int|
                    0 <= k < s ==> (#[trigger] pop@[k].permu@) == identity_seq(length as nat)
                        && is_permutation(pop@[k].permu@),
        {
            pop.push(Permutation::identity(length));
        }
        PermuPopulation { population: pop, size }
    }

    /// Initializes a `PermuPopulation` of random `Permutation`s of the size
    /// and length given.
    pub fn random(size: usize, length: usize) -> (r: PermuPopulation)
        ensures
            r.wf(),
            r.size == size,
            r.population@.len() == size,
            size > 0 ==> r.vlen() == length,
            forall|k: int|
                0 <= k < size ==> (#[trigger] r.rows()[k]).len() == length && is_permutation(
                    r.rows()[k]),
    {
        let mut pop: Vec<Permutation> = Vec::new();
        for s in 0..size
            invariant
                pop@.len() == s,
                forall|k: int|
                    0 <= k < s ==> (#[trigger] pop@[k].permu@).len() == length && is_permutation(
                        pop@[k].permu@),
        {
            pop.push(Permutation::random(length));
        }
        PermuPopulation { population: pop, size }
    }

    /// Fills the given `InversionPopulation` with the inversion
    /// representations of this population's members; see
    /// `InversionPopulation::from_permus`.
    pub fn to_inversion(&self, inv_pop: &mut InversionPopulation) -> (r: Result<(), Error>)
        requires
            self.wf(),
            old(inv_pop).wf(),
            (self.size == old(inv_pop).size && self.size > 0) ==> (self.vlen() == old(
                inv_pop).vlen() + 1 && self.vlen() >= 1),
        ensures
            r is Ok <==> self.size == old(inv_pop).size,
            r is Ok ==> final(inv_pop).wf() && final(inv_pop).size == old(inv_pop).size
                && final(inv_pop).population@.len() == old(inv_pop).population@.len() && (forall|
                k: int|
                0 <= k < self.size ==> (#[trigger] final(inv_pop).rows()[k]) == inv_encode(
                    self.rows()[k])),
            r is Err ==> *final(inv_pop) == *old(inv_pop) && r matches Err(Error::LengthError),
    {
        InversionPopulation::from_permus(self, inv_pop)
    }
}

impl Population for PermuPopulation {
    open spec fn learn_pre(&self) -> bool {
        &&& self.wf()
        &&& self.size >= 1
        &&& forall|k: int, j: int|
            0 <= k < self.rows().len() && 0 <= j < self.vlen() ==> (#[trigger] self.rows()[k][j])
                < self.vlen()
    }

    open spec fn learned(&self, d: Distribution) -> bool {
        &&& d is PermuDistribution
        &&& !soften_of(d)
        &&& learned_matrix(matrix_of(d), self.rows(), self.vlen(), self.vlen())
    }

    open spec fn sample_pre(&self, d: Distribution) -> bool {
        &&& self.wf()
        &&& (d is PermuDistribution ==> self.size >= 1)
        &&& ((d is PermuDistribution && matrix_of(d).len() == self.vlen()) ==> {
            let m = matrix_of(d);
            &&& matrix_shape(m, self.vlen() as int, self.vlen() as int)
            &&& forall|j: int|
                0 <= j < m.len() ==> seq_sum(#[trigger] m[j]) + m[j].len() <= usize::MAX
            &&& soften_of(d) ==> forall|j: int, c: int|
                0 <= j < m.len() && 0 <= c < m[j].len() ==> #[trigger] m[j][c] >= 1
        })
    }

    open spec fn sample_post(
        pre: Self,
        d0: Distribution,
        post: Self,
        d1: Distribution,
        r: Result<(), Error>,
    ) -> bool {
        &&& ((r matches Err(e) && e is IncorrectDistrType) <==> !(d0 is PermuDistribution))
        &&& ((r matches Err(e) && e is LengthError) <==> (d0 is PermuDistribution && matrix_of(
            d0).len() != pre.vlen()))
        &&& (r is Err ==> post == pre && d1 == d0)
        &&& (r is Ok <==> (d0 is PermuDistribution && matrix_of(d0).len() == pre.vlen()))
        &&& (r is Ok ==> {
            &&& d1 is PermuDistribution
            &&& soften_of(d1)
            &&& matrix_of(d1) == (if soften_of(d0) {
                matrix_of(d0)
            } else {
                smooth_permu(matrix_of(d0))
            })
            &&& post.size == pre.size
            &&& post.population@.len() == pre.population@.len()
            &&& post.wf()
            &&& post.vlen() == pre.vlen()
            &&& forall|k: int|
                0 <= k < post.population@.len() ==> (#[trigger] post.rows()[k]).len()
                    == pre.vlen() && is_permutation(post.rows()[k])
        })
    }

    /// Learns the per-position value counts of this population.
    fn learn(&self) -> (d: Distribution) {
        let m = self.population[0].permu.len();
        let s = self.size;
        let mut distr: Vec<Vec<usize>> = Vec::new();
        for j in 0..m
            invariant
                self.learn_pre(),
                m == self.vlen(),
                s == self.size,
                distr@.len() == j,
                forall|t: int| 0 <= t < j ==> (#[trigger] distr@[t]@).len() == m,
                forall|t: int, v: usize|
                    0 <= t < j && v < m ==> (#[trigger] distr@[t]@[v as int]) == col_count(
                        self.rows(), t, v),
        {
            let mut row: Vec<usize> = crate::zeros_vec(m);
            proof {
                assert(self.rows().take(0) =~= Seq::<Seq<usize>>::empty());
            }
            for i in 0..s
                invariant
                    self.learn_pre(),
                    j < m,
                    m == self.vlen(),
                    s == self.size,
                    s == self.rows().len(),
                    s == self.population@.len(),
                    row@.len() == m,
                    forall|v: usize|
                        v < m ==> (#[trigger] row@[v as int]) == col_count(
                            self.rows().take(i as int), j as int, v),
            {
                let e = self.population[i].permu[j];
                let ghost before = row@;
                proof {
                    assert(self.rows()[i as int] == self.population@[i as int].permu@);
                    assert(self.rows()[i as int][j as int] < self.vlen());
                    crate::lemma_col_count_le(self.rows().take(i as int), j as int, e);
                    assert(self.rows().take(i + 1).drop_last() =~= self.rows().take(i as int));
                    assert(self.rows().take(i + 1).last() == self.rows()[i as int]);
                }
                let cur = row[e];
                row.set(e, cur + 1);
                proof {
                    assert forall|v: usize| v < m implies (#[trigger] row@[v as int]) == col_count(
                        self.rows().take(i + 1), j as int, v) by {
                        if v == e {
                            assert(row@[v as int] == before[v as int] + 1);
                        } else {
                            assert(row@[v as int] == before[v as int]);
                        }
                    }
                }
            }
            proof {
                assert(self.rows().take(s as int) =~= self.rows());
            }
            distr.push(row);
        }
        proof {
            assert(matrix_shape(rows_of(distr), self.vlen() as int, self.vlen() as int));
        }
        Distribution::PermuDistribution(distr, false)
    }

    /// Fills this population with permutations sampled from `distr`:
    /// positions are visited in a fresh random order for each member, and a
    /// value already placed in the member being built is never drawn again.
    fn sample(&mut self, distr: &mut Distribution) -> (r: Result<(), Error>) {
        let tag_ok = match &*distr {
            Distribution::PermuDistribution(_, _) => true,
            _ => false,
        };
        if !tag_ok {
            return Err(Error::IncorrectDistrType);
        }
        let length = self.population[0].permu.len();
        let (mat0, soft): (Vec<Vec<usize>>, bool) = match &*distr {
            Distribution::PermuDistribution(d, s) => {
                if d.len() != length {
                    return Err(Error::LengthError);
                }
                (crate::copy_matrix(d), *s)
            },
            _ => {
                proof {
                    assert(false);
                }
                (Vec::new(), false)
            },
        };
        proof {
            assert(rows_of(mat0) == matrix_of(*old(distr)));
            assert(matrix_of(*old(distr)).len() == old(self).vlen());
            assert forall|j: int| 0 <= j < mat0@.len() implies seq_sum(#[trigger] mat0@[j]@)
                + mat0@[j]@.len() <= usize::MAX by {
                assert(mat0@[j]@ == rows_of(mat0)[j]);
                assert(seq_sum(matrix_of(*old(distr))[j]) + matrix_of(*old(distr))[j].len()
                    <= usize::MAX);
            }
        }
        let mat1: Vec<Vec<usize>> = if !soft {
            crate::smooth_permu_exec(&mat0)
        } else {
            mat0
        };
        let ghost m1 = rows_of(mat1);
        proof {
            assert(matrix_shape(m1, length as int, length as int));
            assert forall|j: int, c: int| 0 <= j < m1.len() && 0 <= c < m1[j].len() implies (
            #[trigger] m1[j][c]) >= 1 by {}
            assert forall|j: int| 0 <= j < m1.len() implies seq_sum(#[trigger] m1[j])
                <= usize::MAX by {}
        }
        let s = self.size;
        for out_i in 0..s
            invariant
                s == self.size,
                self.population@.len() == s,
                length == old(self).vlen(),
                s >= 1,
                forall|k: int|
                    0 <= k < s ==> (#[trigger] self.population@[k].permu@.len()) == length,
                m1 == rows_of(mat1),
                matrix_shape(m1, length as int, length as int),
                forall|j: int, c: int|
                    0 <= j < m1.len() && 0 <= c < m1[j].len() ==> (#[trigger] m1[j][c]) >= 1,
                forall|j: int| 0 <= j < m1.len() ==> seq_sum(#[trigger] m1[j]) <= usize::MAX,
                forall|k: int|
                    0 <= k < out_i ==> is_permutation(#[trigger] self.rows()[k]),
        {
            let order = Permutation::random(length);
            proof {
                lemma_permutation_bounds(order.permu@);
            }
            let mut mask: Vec<bool> = crate::false_vec(length);
            let mut indiv: Vec<usize> = crate::zeros_vec(length);
            proof {
                assert(count_true(mask@) == 0) by {
                    assert(mask@ =~= Seq::new(length as nat, |i: int| false));
                    crate::sampling::lemma_count_true_all_false(mask@);
                }
            }
            for k in 0..length
                invariant
                    order.permu@.len() == length,
                    order.permu@.no_duplicates(),
                    is_permutation(order.permu@),
                    forall|t: int| 0 <= t < length ==> (#[trigger] order.permu@[t]) < length,
                    mask@.len() == length,
                    indiv@.len() == length,
                    count_true(mask@) == k,
                    m1 == rows_of(mat1),
                    matrix_shape(m1, length as int, length as int),
                    forall|j: int, c: int|
                        0 <= j < m1.len() && 0 <= c < m1[j].len() ==> (#[trigger] m1[j][c]) >= 1,
                    forall|j: int| 0 <= j < m1.len() ==> seq_sum(#[trigger] m1[j]) <= usize::MAX,
                    forall|t: int|
                        0 <= t < k ==> (#[trigger] indiv@[order.permu@[t] as int]) < length
                            && mask@[indiv@[order.permu@[t] as int] as int],
                    forall|t1: int, t2: int|
                        0 <= t1 < t2 < k ==> indiv@[order.permu@[t1] as int] != indiv@[
                            order.permu@[t2] as int],
            {
                let pos = order.permu[k];
                proof {
                    assert(m1[pos as int] == mat1@[pos as int]@);
                    crate::sampling::lemma_count_true_lt_exists(mask@);
                    let i0 = choose|i: int| 0 <= i < mask@.len() && !mask@[i];
                    assert(masked_weights(m1[pos as int], mask@)[i0] == m1[pos as int][i0]);
                    crate::sampling::lemma_seq_sum_elem_le(
                        masked_weights(m1[pos as int], mask@), i0);
                    crate::sampling::lemma_seq_sum_nonneg(
                        masked_weights(m1[pos as int], mask@));
                }
                let idx = crate::sampling::weighted_pick(&mat1[pos], &mask);
                let ghost mask0 = mask@;
                let ghost indiv0 = indiv@;
                indiv.set(pos, idx);
                mask.set(idx, true);
                proof {
                    crate::sampling::lemma_count_true_set(mask0, idx as int);
                    assert forall|t: int| 0 <= t < k + 1 implies (#[trigger] indiv@[
                        order.permu@[t] as int]) < length && mask@[indiv@[order.permu@[t] as int]
                        as int] by {
                        if t < k {
                            assert(order.permu@[t] != order.permu@[k as int]);
                            assert(indiv@[order.permu@[t] as int] == indiv0[
                                order.permu@[t] as int]);
                        } else {
                            assert(indiv@[order.permu@[t] as int] == idx);
                        }
                    }
                    assert forall|t1: int, t2: int| 0 <= t1 < t2 < k + 1 implies indiv@[
                        order.permu@[t1] as int] != indiv@[order.permu@[t2] as int] by {
                        if t2 == k {
                            assert(indiv@[order.permu@[t1] as int] == indiv0[
                                order.permu@[t1] as int]);
                            assert(mask0[indiv0[order.permu@[t1] as int] as int]);
                            assert(!mask0[idx as int]);
                        } else {
                            assert(indiv@[order.permu@[t1] as int] == indiv0[
                                order.permu@[t1] as int]);
                            assert(indiv@[order.permu@[t2] as int] == indiv0[
                                order.permu@[t2] as int]);
                        }
                    }
                }
            }
            proof {
                assert forall|p: int| 0 <= p < length implies (#[trigger] indiv@[p])
                    < length by {
                    assert(order.permu@.contains(p as usize));
                    let t = choose|t: int|
                        0 <= t < order.permu@.len() && order.permu@[t] == p as usize;
                    assert(indiv@[order.permu@[t] as int] < length);
                }
                assert forall|p1: int, p2: int| 0 <= p1 < p2 < length implies indiv@[p1]
                    != indiv@[p2] by {
                    assert(order.permu@.contains(p1 as usize));
                    assert(order.permu@.contains(p2 as usize));
                    let t1 = choose|t: int|
                        0 <= t < order.permu@.len() && order.permu@[t] == p1 as usize;
                    let t2 = choose|t: int|
                        0 <= t < order.permu@.len() && order.permu@[t] == p2 as usize;
                    if t1 < t2 {
                        assert(indiv@[order.permu@[t1] as int] != indiv@[
                            order.permu@[t2] as int]);
                    } else {
                        assert(t2 < t1);
                        assert(indiv@[order.permu@[t2] as int] != indiv@[
                            order.permu@[t1] as int]);
                    }
                }
                lemma_distinct_bounded_is_permutation(indiv@);
            }
            let ghost sp0 = *self;
            let ghost iv = indiv@;
            self.population.set(out_i, Permutation { permu: indiv });
            proof {
                assert forall|k: int| 0 <= k < out_i + 1 implies is_permutation(
                    #[trigger] self.rows()[k]) by {
                    if k < out_i {
                        assert(is_permutation(sp0.rows()[k]));
                        assert(sp0.rows()[k] == sp0.population@[k].permu@);
                        assert(self.population@[k] == sp0.population@[k]);
                        assert(self.rows()[k] == self.population@[k].permu@);
                    } else {
                        assert(self.rows()[k] == iv);
                    }
                }
            }
        }
        *distr = Distribution::PermuDistribution(mat1, true);
        proof {
            assert(self.wf());
            assert forall|k: int| 0 <= k < self.population@.len() implies (
            #[trigger] self.rows()[k]).len() == old(self).vlen() && is_permutation(
                self.rows()[k]) by {
                assert(self.rows()[k] == self.population@[k].permu@);
            }
        }
        Ok(())
    }
}

} // verus!
