//! Vj vectors: an earlier form of the inversion-vector transform, kept with
//! its plain string errors.  Entry `i` counts the entries after position `i`
//! that are smaller than the entry at `i`.

use vstd::prelude::*;

verus! {

use crate::permutation::{Permutation, PermuPopulation, identity_seq, is_permutation};
use crate::inversion::{
    cnt_lt, inv_encode, inv_entry, inv_in_range, lehmer_decode, lemma_cnt_lt_le,
    lemma_cnt_lt_remove, lemma_decode_identity_is_permutation, lemma_inv_encode_in_range,
};

/// Contains a Vj vector and methods to generate and transform them.
#[derive(Debug, Clone, PartialEq)]
pub struct Vj {
    pub vj: Vec<usize>,
}

impl Vj {
    /// Creates a `Vj` object from the vector.
    pub fn from_vec(vec: Vec<usize>) -> (r: Vj)
        ensures
            r.vj@ == vec@,
    {
        Vj { vj: vec }
    }

    /// Creates a `Vj` filled with zeros.
    pub fn zeros(length: usize) -> (r: Vj)
        ensures
            r.vj@.len() == length,
            forall|i: int| 0 <= i < length ==> r.vj@[i] == 0usize,
    {
        Vj { vj: crate::zeros_vec(length) }
    }

    /// Fills a given `Vj` with the Vj representation of the given
    /// `Permutation`.  The output vector must be one entry shorter than the
    /// permutation; otherwise an error message is returned.
    pub fn from_permu(permu: &Permutation, vj: &mut Vj) -> (r: Result<(), &'static str>)
        requires
            permu.permu@.len() >= 1,
        ensures
            r is Ok <==> old(vj).vj@.len() + 1 == permu.permu@.len(),
            r is Ok ==> final(vj).vj@ == inv_encode(permu.permu@) && inv_in_range(
                final(vj).vj@, permu.permu@.len() as int),
            r is Err ==> *final(vj) == *old(vj),
    {
        if permu.permu.len() - 1 != vj.vj.len() {
            return Err("Lenght of the vj vector must be permu.len()-1");
        }
        let n = permu.permu.len();
        let m = vj.vj.len();
        let ghost p = permu.permu@;
        for index in 0..m
            invariant
                n == p.len(),
                p == permu.permu@,
                m + 1 == n,
                vj.vj@.len() == m,
                forall|k: int| 0 <= k < index ==> vj.vj@[k] == inv_entry(p, k) as usize,
        {
            let mut count: usize = 0;
            for i in index..n
                invariant
                    n == p.len(),
                    p == permu.permu@,
                    index < m,
                    m + 1 == n,
                    count == cnt_lt(p.subrange(index as int, i as int), p[index as int]),
                    count <= i - index,
            {
                proof {
                    assert(p.subrange(index as int, i + 1).drop_last() =~= p.subrange(
                        index as int, i as int));
                    assert(p.subrange(index as int, i + 1).last() == p[i as int]);
                    lemma_cnt_lt_le(p.subrange(index as int, i + 1), p[index as int]);
                }
                if permu.permu[index] > permu.permu[i] {
                    count = count + 1;
                }
            }
            proof {
                lemma_cnt_lt_remove(p.subrange(index as int, n as int), 0, p[index as int]);
                assert(p.subrange(index as int, n as int).remove(0) =~= p.subrange(
                    index as int + 1, n as int));
                assert(p.subrange(index as int, n as int)[0] == p[index as int]);
            }
            vj.vj.set(index, count);
        }
        proof {
            assert(vj.vj@ =~= inv_encode(p));
            lemma_inv_encode_in_range(p);
        }
        Ok(())
    }

    /// Returns in `out` the `Permutation` encoded by this `Vj`: each entry
    /// picks, by positional index, one of the still-unplaced values of the
    /// identity pool.  The output must be one entry longer than the Vj
    /// vector; otherwise an error message is returned.
    pub fn to_permu(&self, out: &mut Permutation) -> (r: Result<(), &'static str>)
        requires
            old(out).permu@.len() >= 1,
            old(out).permu@.len() == self.vj@.len() + 1 ==> inv_in_range(
                self.vj@, old(out).permu@.len() as int),
        ensures
            r is Ok <==> old(out).permu@.len() == self.vj@.len() + 1,
            r is Ok ==> final(out).permu@ == lehmer_decode(
                identity_seq(old(out).permu@.len() as nat), self.vj@.push(0usize))
                && is_permutation(final(out).permu@) && final(out).permu@.len() == old(
                out).permu@.len(),
            r is Err ==> *final(out) == *old(out),
    {
        if out.permu.len() - 1 != self.vj.len() {
            return Err("Lenght of the vj vector must be permu.len()-1");
        }
        let size = out.permu.len();
        let ghost vs = self.vj@.push(0usize);
        let ghost e0 = identity_seq(size as nat);
        proof {
            assert forall|k: int| 0 <= k < size implies (vs[k] as int) + k < size by {
                if k < size - 1 {
                    assert(vs[k] == self.vj@[k]);
                } else {
                    assert(vs[k] == 0usize);
                }
            }
        }
        let mut e: Vec<usize> = Vec::new();
        for v in 0..size
            invariant
                e@ =~= identity_seq(v as nat),
        {
            e.push(v);
        }
        proof {
            assert(e@ == e0);
            assert(vs.skip(0) =~= vs);
            assert(out.permu@.subrange(0, 0) =~= Seq::<usize>::empty());
            assert(Seq::<usize>::empty() + lehmer_decode(e@, vs) =~= lehmer_decode(e@, vs));
        }
        for index in 0..size
            invariant
                size == out.permu@.len(),
                self.vj@.len() + 1 == size,
                vs == self.vj@.push(0usize),
                e0 == identity_seq(size as nat),
                e@.len() == size - index,
                forall|k: int| 0 <= k < size ==> (vs[k] as int) + k < size,
                lehmer_decode(e0, vs) == out.permu@.subrange(0, index as int) + lehmer_decode(
                    e@, vs.skip(index as int)),
        {
            let v = if index < size - 1 {
                self.vj[index]
            } else {
                0
            };
            proof {
                assert(v == vs[index as int]);
            }
            let ghost e_before = e@;
            let ghost prefix = out.permu@.subrange(0, index as int);
            let value = e[v];
            out.permu.set(index, value);
            e.remove(v);
            proof {
                let tail = vs.skip(index as int);
                assert(tail[0] == vs[index as int]);
                assert(tail.drop_first() =~= vs.skip(index as int + 1));
                assert(lehmer_decode(e_before, tail) == seq![value] + lehmer_decode(
                    e@, vs.skip(index as int + 1)));
                assert(out.permu@.subrange(0, index as int) =~= prefix);
                assert(out.permu@.subrange(0, index as int + 1) =~= prefix.push(value));
                assert(prefix + (seq![value] + lehmer_decode(e@, vs.skip(index as int + 1)))
                    =~= prefix.push(value) + lehmer_decode(e@, vs.skip(index as int + 1)));
            }
        }
        proof {
            assert(vs.skip(size as int) =~= Seq::<usize>::empty());
            assert(lehmer_decode(e@, vs.skip(size as int)) =~= Seq::<usize>::empty());
            assert(out.permu@.subrange(0, size as int) =~= out.permu@);
            assert(out.permu@ + Seq::<usize>::empty() =~= out.permu@);
            lemma_decode_identity_is_permutation(vs, size as nat);
        }
        Ok(())
    }
}

/// Population of Vj objects, with initializers and transformation tools.
#[derive(Debug, Clone, PartialEq)]
pub struct VjPopulation {
    pub population: Vec<Vj>,
    pub size: usize,
}

impl VjPopulation {
    /// The members of the population as plain sequences.
    pub open spec fn rows(&self) -> Seq<Seq<usize>> {
        self.population@.map_values(|x: Vj| x.vj@)
    }

    /// The length of the member vectors, read off the first member.
    pub open spec fn vlen(&self) -> nat {
        if self.population@.len() == 0 {
            0
        } else {
            self.population@[0].vj@.len()
        }
    }

    /// Well-formed: the stored size matches the member count and every
    /// member has the same length.
    pub open spec fn wf(&self) -> bool {
        &&& self.size == self.population@.len()
        &&& forall|k: int|
            0 <= k < self.population@.len() ==> (#[trigger] self.population@[k].vj@.len())
                == self.vlen()
    }

    /// Creates a `VjPopulation` of the size given with members of the
    /// length specified, filled with zeros: the population of identity
    /// permutations.
    pub fn zeros(size: usize, length: usize) -> (r: VjPopulation)
        ensures
            r.wf(),
            r.size == size,
            r.population@.len() == size,
            size > 0 ==> r.vlen() == length,
            forall|k: int| 0 <= k < size ==> (#[trigger] r.rows()[k]).len() == length,
            forall|k: int, j: int|
                0 <= k < size && 0 <= j < length ==> r.rows()[k][j] == 0usize,
    {
        let mut population: Vec<Vj> = Vec::new();
        for s in 0..size
            invariant
                population@.len() == s,
                forall|k: int| 0 <= k < s ==> (#[trigger] population@[k].vj@).len() == length,
                forall|k: int, j: int|
                    0 <= k < s && 0 <= j < length ==> population@[k].vj@[j] == 0usize,
        {
            population.push(Vj::zeros(length));
        }
        VjPopulation { population, size }
    }

    /// Transforms every member to its `Permutation` representation, filling
    /// the given `PermuPopulation` position by position.  The populations
    /// must have one size and compatible member lengths; otherwise an error
    /// message is returned.
    pub fn to_permus(&self, permu_pop: &mut PermuPopulation) -> (r: Result<(), &'static str>)
        requires
            self.wf(),
            old(permu_pop).wf(),
            self.size == old(permu_pop).size ==> (self.size >= 1 && self.vlen() < usize::MAX),
            (self.size == old(permu_pop).size && old(permu_pop).vlen() == self.vlen() + 1)
                ==> forall|k: int|
                0 <= k < self.size ==> inv_in_range(
                    #[trigger] self.rows()[k], (self.vlen() + 1) as int),
        ensures
            r is Ok <==> (self.size == old(permu_pop).size && old(permu_pop).vlen() == self.vlen()
                + 1),
            r is Ok ==> final(permu_pop).wf() && final(permu_pop).size == old(permu_pop).size
                && final(permu_pop).population@.len() == old(permu_pop).population@.len() && (
            forall|k: int|
                0 <= k < self.size ==> (#[trigger] final(permu_pop).rows()[k]) == lehmer_decode(
                    identity_seq(self.vlen() + 1), self.rows()[k].push(0usize)) && is_permutation(
                    final(permu_pop).rows()[k])),
            r is Err ==> *final(permu_pop) == *old(permu_pop),
    {
        if permu_pop.size != self.size {
            return Err("VjPopulation and the given PermuPopulation sizes must be equal");
        }
        if permu_pop.population[0].permu.len() != self.population[0].vj.len() + 1 {
            return Err("The length of Permutations from PermuPopulation must be the length of Vjs+1");
        }
        let s = self.size;
        for i in 0..s
            invariant
                self.wf(),
                s == self.size,
                self.size == permu_pop.size,
                permu_pop.population@.len() == s,
                permu_pop.population@.len() == old(permu_pop).population@.len(),
                permu_pop.size == old(permu_pop).size,
                old(permu_pop).vlen() == self.vlen() + 1,
                self.vlen() < usize::MAX,
                forall|k: int|
                    0 <= k < permu_pop.population@.len() ==> (
                    #[trigger] permu_pop.population@[k].permu@.len()) == self.vlen() + 1,
                forall|k: int|
                    0 <= k < self.size ==> inv_in_range(
                        #[trigger] self.rows()[k], (self.vlen() + 1) as int),
                forall|k: int|
                    0 <= k < i ==> (#[trigger] permu_pop.rows()[k]) == lehmer_decode(
                        identity_seq(self.vlen() + 1), self.rows()[k].push(0usize))
                        && is_permutation(permu_pop.rows()[k]),
        {
            let ghost pp0 = *permu_pop;
            proof {
                assert(self.rows()[i as int] == self.population@[i as int].vj@);
            }
            let mut tmp = Permutation { permu: crate::copy_vec(&permu_pop.population[i].permu) };
            proof {
                assert(tmp.permu@ == permu_pop.population@[i as int].permu@);
                assert(tmp.permu@.len() == self.vlen() + 1);
            }
            match self.population[i].to_permu(&mut tmp) {
                Ok(()) => {
                    let ghost t = tmp.permu@;
                    permu_pop.population.set(i, tmp);
                    proof {
                        assert(permu_pop.rows()[i as int] == t);
                        assert forall|k: int| 0 <= k < i + 1 implies (#[trigger] permu_pop.rows()[
                            k]) == lehmer_decode(identity_seq(self.vlen() + 1),
                            self.rows()[k].push(0usize)) && is_permutation(
                            permu_pop.rows()[k]) by {
                            if k < i {
                                assert(pp0.rows()[k] == lehmer_decode(
                                    identity_seq(self.vlen() + 1),
                                    self.rows()[k].push(0usize)) && is_permutation(
                                    pp0.rows()[k]));
                                assert(pp0.rows()[k] == pp0.population@[k].permu@);
                                assert(permu_pop.population@[k] == pp0.population@[k]);
                                assert(permu_pop.rows()[k] == permu_pop.population@[k].permu@);
                            } else {
                                assert(permu_pop.rows()[k] == t);
                                assert(self.rows()[k] == self.population@[k].vj@);
                            }
                        }
                    }
                },
                Err(_) => {
                    proof {
                        assert(false);
                    }
                    return Err("Fatal error converting VjPopulation to PermuPopulation");
                },
            }
        }
        proof {
            assert(permu_pop.wf());
        }
        Ok(())
    }

    /// Fills this `VjPopulation` with the Vj representations of the members
    /// of a given `PermuPopulation`, position by position.
    pub fn from_permus(permu_pop: &PermuPopulation, vjs: &mut VjPopulation) -> (r: Result<
        (),
        &'static str,
    >)
        requires
            permu_pop.wf(),
            old(vjs).wf(),
            old(vjs).size >= permu_pop.size,
            permu_pop.size > 0 ==> (permu_pop.vlen() == old(vjs).vlen() + 1 && permu_pop.vlen()
                >= 1),
        ensures
            r is Ok,
            final(vjs).wf(),
            final(vjs).size == old(vjs).size,
            final(vjs).population@.len() == old(vjs).population@.len(),
            forall|k: int|
                0 <= k < permu_pop.size ==> (#[trigger] final(vjs).rows()[k]) == inv_encode(
                    permu_pop.rows()[k]),
            forall|k: int|
                permu_pop.size <= k < old(vjs).population@.len() ==> final(vjs).population@[k]
                    == old(vjs).population@[k],
    {
        let s = permu_pop.size;
        for i in 0..s
            invariant
                permu_pop.wf(),
                s == permu_pop.size,
                vjs.size >= s,
                vjs.size == old(vjs).size,
                vjs.population@.len() == old(vjs).population@.len(),
                vjs.size == vjs.population@.len(),
                s > 0 ==> (permu_pop.vlen() == old(vjs).vlen() + 1 && permu_pop.vlen() >= 1),
                forall|k: int|
                    0 <= k < vjs.population@.len() ==> (
                    #[trigger] vjs.population@[k].vj@.len()) == old(vjs).vlen(),
                forall|k: int|
                    0 <= k < i ==> (#[trigger] vjs.rows()[k]) == inv_encode(permu_pop.rows()[k]),
                forall|k: int|
                    s <= k < vjs.population@.len() ==> vjs.population@[k] == old(
                        vjs).population@[k],
        {
            let ghost vp0 = *vjs;
            proof {
                assert(permu_pop.rows()[i as int] == permu_pop.population@[i as int].permu@);
                assert(permu_pop.population@[i as int].permu@.len() == permu_pop.vlen());
            }
            let mut tmp = Vj { vj: crate::copy_vec(&vjs.population[i].vj) };
            match Vj::from_permu(&permu_pop.population[i], &mut tmp) {
                Ok(()) => {
                    let ghost t = tmp.vj@;
                    vjs.population.set(i, tmp);
                    proof {
                        assert(vjs.rows()[i as int] == t);
                        assert forall|k: int| 0 <= k < i + 1 implies (#[trigger] vjs.rows()[k])
                            == inv_encode(permu_pop.rows()[k]) by {
                            if k < i {
                                assert(vp0.rows()[k] == inv_encode(permu_pop.rows()[k]));
                                assert(vp0.rows()[k] == vp0.population@[k].vj@);
                                assert(vjs.population@[k] == vp0.population@[k]);
                                assert(vjs.rows()[k] == vjs.population@[k].vj@);
                            } else {
                                assert(vjs.rows()[k] == t);
                                assert(permu_pop.rows()[k] == permu_pop.population@[k].permu@);
                            }
                        }
                    }
                },
                Err(_) => {
                    proof {
                        assert(false);
                    }
                    return Err("Fatal conversion error");
                },
            }
        }
        proof {
            assert(vjs.wf());
        }
        Ok(())
    }
}

/// Error type to return when transforming between representations and the
/// length of one of the vectors is not correct.
#[derive(Debug)]
pub struct LengthError {
    pub message: String,
}

impl LengthError {
    /// Creates a `LengthError` carrying the given message.
    pub fn new(m: String) -> (r: LengthError)
        ensures
            r.message@ == m@,
    {
        LengthError { message: m }
    }
}

} // verus!
