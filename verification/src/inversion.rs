//! Inversion vectors: the bijective transform between a permutation of
//! length `n` and a vector of length `n - 1` whose entry `i` counts the
//! entries after position `i` that are smaller than the entry at `i`.

use vstd::prelude::*;

verus! {

use vstd::seq_lib::*;
use crate::errors::Error;
use crate::sampling::{seq_sum, masked_weights};
use crate::{
    Distribution, Population, matrix_of, soften_of, matrix_shape, col_count, learned_matrix,
    smooth_inversion, rows_of,
};
use crate::permutation::{
    Permutation, PermuPopulation, is_permutation, identity_seq, below_set, lemma_identity_props,
    lemma_permutation_bounds,
};

/// Number of entries of `s` that are strictly below `x`.
pub open spec fn cnt_lt(s: Seq<usize>, x: usize) -> nat
    decreases s.len(),
{
    if s.len() == 0 {
        0
    } else {
        cnt_lt(s.drop_last(), x) + (if s.last() < x {
            1nat
        } else {
            0nat
        })
    }
}

/// Entry `i` of the inversion representation of `p`: the number of entries
/// after position `i` that are smaller than the entry at `i`.
pub open spec fn inv_entry(p: Seq<usize>, i: int) -> nat {
    cnt_lt(p.subrange(i + 1, p.len() as int), p[i])
}

/// The inversion representation of `p`, of length `p.len() - 1`; the entry
/// for the last position is always zero and is not stored.
pub open spec fn inv_encode(p: Seq<usize>) -> Seq<usize> {
    Seq::new((p.len() - 1) as nat, |i: int| inv_entry(p, i) as usize)
}

/// The inversion entries of every position of `p`, the last one included.
pub open spec fn inv_encode_full(p: Seq<usize>) -> Seq<usize> {
    Seq::new(p.len(), |i: int| inv_entry(p, i) as usize)
}

/// Decoding against a pool `e` of still-unplaced values: step `k` places the
/// value at positional index `vs[k]` of the pool and removes it.
pub open spec fn lehmer_decode(e: Seq<usize>, vs: Seq<usize>) -> Seq<usize>
    decreases vs.len(),
{
    if vs.len() == 0 {
        Seq::empty()
    } else {
        seq![e[vs[0] as int]] + lehmer_decode(e.remove(vs[0] as int), vs.drop_first())
    }
}

/// A raw inversion vector is admissible for permutation length `n` when the
/// entry at position `i` is at most `n - 1 - i`.
pub open spec fn inv_in_range(v: Seq<usize>, n: int) -> bool {
    forall|i: int| 0 <= i < v.len() ==> v[i] + i < n
}

pub open spec fn sorted_strict(s: Seq<usize>) -> bool {
    forall|i: int, j: int| 0 <= i < j < s.len() ==> s[i] < s[j]
}

/// `a` and `b` hold exactly the same values.
pub open spec fn same_contents(a: Seq<usize>, b: Seq<usize>) -> bool {
    forall|x: usize| a.contains(x) <==> b.contains(x)
}

/// `a` is a rearrangement of the duplicate-free sequence `b`.
pub open spec fn is_perm_of(a: Seq<usize>, b: Seq<usize>) -> bool {
    a.len() == b.len() && a.no_duplicates() && b.no_duplicates() && same_contents(a, b)
}

/// Removing position `i` from a duplicate-free sequence removes exactly the
/// value `e[i]` from its contents.
pub proof fn lemma_remove_props(e: Seq<usize>, i: int)
    requires
        e.no_duplicates(),
        0 <= i < e.len(),
    ensures
        e.remove(i).no_duplicates(),
        forall|x: usize|
            #![trigger e.remove(i).contains(x)]
            e.remove(i).contains(x) <==> (e.contains(x) && x != e[i]),
{
    let r = e.remove(i);
    e.remove_ensures(i);
    assert forall|x: usize| r.contains(x) implies (e.contains(x) && x != e[i]) by {
        let k = choose|k: int| 0 <= k < r.len() && r[k] == x;
        if k < i {
            assert(e[k] == x);
        } else {
            assert(e[k + 1] == x);
        }
    }
    assert forall|x: usize| e.contains(x) && x != e[i] implies r.contains(x) by {
        let k = choose|k: int| 0 <= k < e.len() && e[k] == x;
        if k < i {
            assert(r[k] == x);
        } else {
            assert(r[k - 1] == x);
        }
    }
}

/// Prepending a value to a sequence: index, contents and duplicate facts.
pub proof fn lemma_cons_props(a: usize, r: Seq<usize>)
    ensures
        (seq![a] + r).len() == r.len() + 1,
        (seq![a] + r)[0] == a,
        forall|k: int| 1 <= k < r.len() + 1 ==> (seq![a] + r)[k] == r[k - 1],
        forall|x: usize| #![trigger (seq![a] + r).contains(x)]
            (seq![a] + r).contains(x) <==> (x == a || r.contains(x)),
        (!r.contains(a) && r.no_duplicates()) ==> (seq![a] + r).no_duplicates(),
{
    let d = seq![a] + r;
    assert forall|x: usize| d.contains(x) implies (x == a || r.contains(x)) by {
        let k = choose|k: int| 0 <= k < d.len() && d[k] == x;
        if k >= 1 {
            assert(r[k - 1] == x);
        }
    }
    assert forall|x: usize| (x == a || r.contains(x)) implies d.contains(x) by {
        if x == a {
            assert(d[0] == x);
        } else {
            let k = choose|k: int| 0 <= k < r.len() && r[k] == x;
            assert(d[k + 1] == x);
        }
    }
    if !r.contains(a) && r.no_duplicates() {
        assert forall|k1: int, k2: int| 0 <= k1 < k2 < d.len() implies d[k1] != d[k2] by {
            if k1 == 0 {
                assert(r[k2 - 1] == d[k2]);
                assert(r.contains(r[k2 - 1]));
            }
        }
    }
}

pub proof fn lemma_cnt_lt_le(s: Seq<usize>, x: usize)
    ensures
        cnt_lt(s, x) <= s.len(),
    decreases s.len(),
{
    if s.len() > 0 {
        lemma_cnt_lt_le(s.drop_last(), x);
    }
}

/// When every entry is below `x` the count is the whole length.
pub proof fn lemma_cnt_lt_all_lt(s: Seq<usize>, x: usize)
    requires
        forall|k: int| 0 <= k < s.len() ==> s[k] < x,
    ensures
        cnt_lt(s, x) == s.len(),
    decreases s.len(),
{
    if s.len() > 0 {
        lemma_cnt_lt_all_lt(s.drop_last(), x);
    }
}

/// Removing one entry lowers the count exactly when that entry is below `x`.
pub proof fn lemma_cnt_lt_remove(s: Seq<usize>, i: int, x: usize)
    requires
        0 <= i < s.len(),
    ensures
        cnt_lt(s.remove(i), x) + (if s[i] < x {
            1int
        } else {
            0int
        }) == cnt_lt(s, x),
    decreases s.len(),
{
    if i == s.len() - 1 {
        assert(s.remove(i) =~= s.drop_last());
    } else {
        assert(s.remove(i).drop_last() =~= s.drop_last().remove(i));
        assert(s.remove(i).last() == s.last());
        lemma_cnt_lt_remove(s.drop_last(), i, x);
    }
}

/// The count below `x` depends only on which values occur, provided no value
/// occurs twice.
pub proof fn lemma_cnt_lt_same_contents(a: Seq<usize>, b: Seq<usize>, x: usize)
    requires
        a.no_duplicates(),
        b.no_duplicates(),
        same_contents(a, b),
    ensures
        cnt_lt(a, x) == cnt_lt(b, x),
    decreases a.len(),
{
    if a.len() == 0 {
        if b.len() > 0 {
            assert(b.contains(b[0]));
            assert(a.contains(b[0]));
        }
    } else {
        let v = a.last();
        assert(a.contains(v));
        assert(b.contains(v));
        let j = choose|j: int| 0 <= j < b.len() && b[j] == v;
        assert(a.drop_last() =~= a.remove(a.len() - 1));
        lemma_remove_props(a, a.len() - 1);
        lemma_remove_props(b, j);
        assert forall|y: usize| a.drop_last().contains(y) implies b.remove(j).contains(y) by {
            assert(a.contains(y));
        }
        assert forall|y: usize| b.remove(j).contains(y) implies a.drop_last().contains(y) by {
            assert(b.contains(y));
        }
        lemma_cnt_lt_same_contents(a.drop_last(), b.remove(j), x);
        lemma_cnt_lt_remove(b, j, x);
    }
}

/// In a strictly sorted sequence, the count of entries below `e[k]` is `k`.
pub proof fn lemma_cnt_lt_sorted_index(e: Seq<usize>, k: int)
    requires
        sorted_strict(e),
        0 <= k < e.len(),
    ensures
        cnt_lt(e, e[k]) == k,
    decreases e.len(),
{
    if k == e.len() - 1 {
        lemma_cnt_lt_all_lt(e.drop_last(), e[k]);
    } else {
        assert(e.drop_last()[k] == e[k]);
        lemma_cnt_lt_sorted_index(e.drop_last(), k);
    }
}

pub proof fn lemma_sorted_remove(e: Seq<usize>, i: int)
    requires
        sorted_strict(e),
        0 <= i < e.len(),
    ensures
        sorted_strict(e.remove(i)),
{
    e.remove_ensures(i);
}

/// Every entry of the inversion representation is admissible: at position
/// `i` at most `p.len() - 1 - i` entries can follow.
pub proof fn lemma_inv_encode_in_range(p: Seq<usize>)
    requires
        p.len() >= 1,
    ensures
        inv_in_range(inv_encode(p), p.len() as int),
    decreases p.len(),
{
    assert forall|i: int| 0 <= i < inv_encode(p).len() implies inv_encode(p)[i] + i < p.len() by {
        lemma_cnt_lt_le(p.subrange(i + 1, p.len() as int), p[i]);
    }
}

/// Decoding admissible positional indices against a duplicate-free pool
/// yields a rearrangement of that pool.
pub proof fn lemma_decode_is_perm_of(e: Seq<usize>, vs: Seq<usize>)
    requires
        e.no_duplicates(),
        vs.len() == e.len(),
        forall|i: int| 0 <= i < vs.len() ==> (vs[i] as int) + i < vs.len(),
    ensures
        is_perm_of(lehmer_decode(e, vs), e),
    decreases vs.len(),
{
    if vs.len() > 0 {
        let v0 = vs[0] as int;
        let a = e[v0];
        let rest = lehmer_decode(e.remove(v0), vs.drop_first());
        lemma_remove_props(e, v0);
        assert forall|i: int| 0 <= i < vs.drop_first().len() implies (vs.drop_first()[i] as int) + i
            < vs.drop_first().len() by {
            assert(vs.drop_first()[i] == vs[i + 1]);
        }
        lemma_decode_is_perm_of(e.remove(v0), vs.drop_first());
        lemma_cons_props(a, rest);
        assert(!rest.contains(a));
        assert forall|x: usize| (seq![a] + rest).contains(x) implies e.contains(x) by {}
        assert forall|x: usize| e.contains(x) implies (seq![a] + rest).contains(x) by {
            if x != a {
                assert(e.remove(v0).contains(x));
            }
        }
    }
}

/// The pool-based decoding of the inversion entries of `q` rebuilds `q`,
/// for any strictly sorted pool `e` holding exactly the values of `q`.
proof fn lemma_lehmer_general(e: Seq<usize>, q: Seq<usize>)
    requires
        sorted_strict(e),
        is_perm_of(q, e),
        q.len() <= usize::MAX,
    ensures
        lehmer_decode(e, inv_encode_full(q)) == q,
    decreases q.len(),
{
    let vs = inv_encode_full(q);
    if q.len() == 0 {
        assert(lehmer_decode(e, vs) =~= q);
    } else {
        let n = q.len() as int;
        let x = q[0];
        assert(q.contains(x));
        assert(e.contains(x));
        let k = choose|k: int| 0 <= k < e.len() && e[k] == x;
        // The first inversion entry counts the pool values below `x`,
        // which in the sorted pool is the index of `x`.
        assert(q.subrange(1, n) =~= q.drop_first());
        assert(q.drop_first().no_duplicates()) by {
            assert(q.drop_first() =~= q.remove(0));
            lemma_remove_props(q, 0);
        }
        lemma_remove_props(q, 0);
        lemma_remove_props(e, k);
        assert(q.remove(0) =~= q.drop_first());
        assert forall|y: usize| q.drop_first().contains(y) implies e.remove(k).contains(y) by {
            assert(q.contains(y));
        }
        assert forall|y: usize| e.remove(k).contains(y) implies q.drop_first().contains(y) by {
            assert(q.contains(y));
        }
        lemma_cnt_lt_same_contents(q.drop_first(), e.remove(k), x);
        lemma_cnt_lt_remove(e, k, x);
        lemma_cnt_lt_sorted_index(e, k);
        lemma_cnt_lt_le(q.subrange(1, n), x);
        assert(inv_entry(q, 0) == k);
        assert(vs[0] == k as usize);
        assert(vs[0] as int == k);
        // Decode one step and recurse on the rest.
        lemma_sorted_remove(e, k);
        assert forall|i: int| 0 <= i < vs.drop_first().len() implies vs.drop_first()[i] as int
            == inv_entry(q.drop_first(), i) by {
            assert(vs.drop_first()[i] == vs[i + 1]);
            assert(vs[i + 1] == inv_entry(q, i + 1) as usize);
            lemma_cnt_lt_le(q.subrange(i + 2, n), q[i + 1]);
            assert(inv_entry(q, i + 1) == cnt_lt(q.subrange(i + 2, n), q[i + 1]));
            assert(inv_entry(q, i + 1) <= n);
            assert(q.drop_first().subrange(i + 1, q.drop_first().len() as int) =~= q.subrange(
                i + 2, n));
            assert(q.drop_first()[i] == q[i + 1]);
            assert(inv_entry(q.drop_first(), i) == cnt_lt(q.subrange(i + 2, n), q[i + 1]));
        }
        assert(vs.drop_first() =~= inv_encode_full(q.drop_first()));
        lemma_lehmer_general(e.remove(k), q.drop_first());
        assert(lehmer_decode(e, vs) == seq![e[vs[0] as int]] + lehmer_decode(
            e.remove(vs[0] as int), vs.drop_first()));
        assert(lehmer_decode(e, vs) == seq![x] + q.drop_first());
        assert(seq![x] + q.drop_first() =~= q);
    }
}

/// Round trip: decoding the inversion representation of a permutation `p`
/// against the identity pool, with the trailing zero appended, rebuilds `p`.
pub proof fn lemma_inversion_round_trip(p: Seq<usize>)
    requires
        is_permutation(p),
        p.len() >= 1,
    ensures
        lehmer_decode(identity_seq(p.len()), inv_encode(p).push(0usize)) == p,
{
    let n = p.len();
    let e = identity_seq(n);
    lemma_identity_props(n);
    lemma_permutation_bounds(p);
    assert forall|x: usize| p.contains(x) implies e.contains(x) by {
        assert(p.to_set().contains(x));
        assert(below_set(n).contains(x));
        assert(e.to_set().contains(x));
    }
    assert forall|x: usize| e.contains(x) implies p.contains(x) by {
        assert(e.to_set().contains(x));
        assert(below_set(n).contains(x));
        assert(p.to_set().contains(x));
    }
    assert(inv_encode(p).push(0usize) =~= inv_encode_full(p)) by {
        assert(p.subrange(n as int, n as int) =~= Seq::<usize>::empty());
        assert(inv_entry(p, n - 1) == 0);
    }
    lemma_lehmer_general(e, p);
}

/// Decoding admissible indices against the identity pool yields a
/// permutation of the pool's length.
pub proof fn lemma_decode_identity_is_permutation(vs: Seq<usize>, n: nat)
    requires
        n <= usize::MAX,
        vs.len() == n,
        forall|i: int| 0 <= i < vs.len() ==> (vs[i] as int) + i < vs.len(),
    ensures
        lehmer_decode(identity_seq(n), vs).len() == n,
        is_permutation(lehmer_decode(identity_seq(n), vs)),
{
    let e = identity_seq(n);
    lemma_identity_props(n);
    lemma_decode_is_perm_of(e, vs);
    let d = lehmer_decode(e, vs);
    assert forall|v: usize| v < d.len() implies d.contains(v) by {
        assert(e[v as int] == v);
        assert(e.contains(v));
    }
}

/// Contains an inversion vector and methods to generate and transform them.
#[derive(Debug, Clone, PartialEq)]
pub struct Inversion {
    pub inversion: Vec<usize>,
}

impl Inversion {
    /// Creates an `Inversion` object from the vector.
    pub fn from_vec(vec: Vec<usize>) -> (r: Inversion)
        ensures
            r.inversion@ == vec@,
    {
        Inversion { inversion: vec }
    }

    /// Creates an `Inversion` filled with zeros.
    pub fn zeros(length: usize) -> (r: Inversion)
        ensures
            r.inversion@.len() == length,
            forall|i: int| 0 <= i < length ==> r.inversion@[i] == 0usize,
    {
        Inversion { inversion: crate::zeros_vec(length) }
    }

    /// Fills a given `Inversion` with the inversion representation of the
    /// given `Permutation`.  The output vector must be one entry shorter
    /// than the permutation; otherwise `LengthError` is returned.
    pub fn from_permu(permu: &Permutation, inversion: &mut Inversion) -> (r: Result<(), Error>)
        requires
            permu.permu@.len() >= 1,
        ensures
            r is Ok <==> old(inversion).inversion@.len() + 1 == permu.permu@.len(),
            r is Ok ==> final(inversion).inversion@ == inv_encode(permu.permu@) && inv_in_range(
                final(inversion).inversion@, permu.permu@.len() as int),
            r is Err ==> *final(inversion) == *old(inversion) && r matches Err(
                Error::LengthError),
    {
        if permu.permu.len() - 1 != inversion.inversion.len() {
            return Err(Error::LengthError);
        }
        let n = permu.permu.len();
        let m = inversion.inversion.len();
        let ghost p = permu.permu@;
        for index in 0..m
            invariant
                n == p.len(),
                p == permu.permu@,
                m + 1 == n,
                inversion.inversion@.len() == m,
                forall|k: int| 0 <= k < index ==> inversion.inversion@[k] == inv_entry(p, k)
                    as usize,
        {
            let mut count: usize = 0;
            for i in index..n
                invariant
                    n == p.len(),
                    p == permu.permu@,
                    index < m,
                    m + 1 == n,
                    count == cnt_lt(p.subrange(index as int, i as int), p[index as int]),
                    count <= i - index,
            {
                proof {
                    assert(p.subrange(index as int, i + 1).drop_last() =~= p.subrange(
                        index as int, i as int));
                    assert(p.subrange(index as int, i + 1).last() == p[i as int]);
                    lemma_cnt_lt_le(p.subrange(index as int, i + 1), p[index as int]);
                }
                if permu.permu[index] > permu.permu[i] {
                    count = count + 1;
                }
            }
            proof {
                lemma_cnt_lt_remove(p.subrange(index as int, n as int), 0, p[index as int]);
                assert(p.subrange(index as int, n as int).remove(0) =~= p.subrange(
                    index as int + 1, n as int));
                assert(p.subrange(index as int, n as int)[0] == p[index as int]);
            }
            inversion.inversion.set(index, count);
        }
        proof {
            assert(inversion.inversion@ =~= inv_encode(p));
            lemma_inv_encode_in_range(p);
        }
        Ok(())
    }

    /// Returns in `out` the `Permutation` encoded by this `Inversion`:
    /// each entry picks, by positional index, one of the still-unplaced
    /// values of the identity pool.  The output must be one entry longer
    /// than the inversion vector; otherwise `LengthError` is returned.
    pub fn to_permu(&self, out: &mut Permutation) -> (r: Result<(), Error>)
        requires
            old(out).permu@.len() >= 1,
            old(out).permu@.len() == self.inversion@.len() + 1 ==> inv_in_range(
                self.inversion@, old(out).permu@.len() as int),
        ensures
            r is Ok <==> old(out).permu@.len() == self.inversion@.len() + 1,
            r is Ok ==> final(out).permu@ == lehmer_decode(
                identity_seq(old(out).permu@.len() as nat), self.inversion@.push(0usize))
                && is_permutation(final(out).permu@) && final(out).permu@.len() == old(
                out).permu@.len(),
            r is Err ==> *final(out) == *old(out) && r matches Err(Error::LengthError),
    {
        if out.permu.len() - 1 != self.inversion.len() {
            return Err(Error::LengthError);
        }
        let size = out.permu.len();
        let ghost vs = self.inversion@.push(0usize);
        let ghost e0 = identity_seq(size as nat);
        proof {
            assert forall|k: int| 0 <= k < size implies (vs[k] as int) + k < size by {
                if k < size - 1 {
                    assert(vs[k] == self.inversion@[k]);
                } else {
                    assert(vs[k] == 0usize);
                }
            }
        }
        let mut e: Vec<usize> = Vec::new();
        for v in 0..size
            invariant
                e@ =~= identity_seq(v as nat),
        {
            e.push(v);
        }
        proof {
            assert(e@ == e0);
            assert(vs.skip(0) =~= vs);
            assert(out.permu@.subrange(0, 0) =~= Seq::<usize>::empty());
            assert(Seq::<usize>::empty() + lehmer_decode(e@, vs) =~= lehmer_decode(e@, vs));
        }
        for index in 0..size
            invariant
                size == out.permu@.len(),
                self.inversion@.len() + 1 == size,
                vs == self.inversion@.push(0usize),
                e0 == identity_seq(size as nat),
                e@.len() == size - index,
                forall|k: int| 0 <= k < size ==> (vs[k] as int) + k < size,
                lehmer_decode(e0, vs) == out.permu@.subrange(0, index as int) + lehmer_decode(
                    e@, vs.skip(index as int)),
        {
            let v = if index < size - 1 {
                self.inversion[index]
            } else {
                0
            };
            proof {
                assert(v == vs[index as int]);
            }
            let ghost e_before = e@;
            let ghost prefix = out.permu@.subrange(0, index as int);
            let value = e[v];
            out.permu.set(index, value);
            e.remove(v);
            proof {
                let tail = vs.skip(index as int);
                assert(tail[0] == vs[index as int]);
                assert(tail.drop_first() =~= vs.skip(index as int + 1));
                assert(lehmer_decode(e_before, tail) == seq![value] + lehmer_decode(
                    e@, vs.skip(index as int + 1)));
                assert(out.permu@.subrange(0, index as int) =~= prefix);
                assert(out.permu@.subrange(0, index as int + 1) =~= prefix.push(value));
                assert(prefix + (seq![value] + lehmer_decode(e@, vs.skip(index as int + 1)))
                    =~= prefix.push(value) + lehmer_decode(e@, vs.skip(index as int + 1)));
            }
        }
        proof {
            assert(vs.skip(size as int) =~= Seq::<usize>::empty());
            assert(lehmer_decode(e@, vs.skip(size as int)) =~= Seq::<usize>::empty());
            assert(out.permu@.subrange(0, size as int) =~= out.permu@);
            assert(out.permu@ + Seq::<usize>::empty() =~= out.permu@);
            lemma_decode_identity_is_permutation(vs, size as nat);
        }
        Ok(())
    }
}

/// Population of `Inversion` objects, with initializers and transforms.
#[derive(Debug, Clone, PartialEq)]
pub struct InversionPopulation {
    pub population: Vec<Inversion>,
    pub size: usize,
}

impl InversionPopulation {
    /// The members of the population as plain sequences.
    pub open spec fn rows(&self) -> Seq<Seq<usize>> {
        self.population@.map_values(|x: Inversion| x.inversion@)
    }

    /// The length of the member vectors, read off the first member.
    pub open spec fn vlen(&self) -> nat {
        if self.population@.len() == 0 {
            0
        } else {
            self.population@[0].inversion@.len()
        }
    }

    /// Well-formed: the stored size matches the member count and every
    /// member has the same length.
    pub open spec fn wf(&self) -> bool {
        &&& self.size == self.population@.len()
        &&& forall|k: int|
            0 <= k < self.population@.len() ==> (#[trigger] self.population@[k].inversion@.len())
                == self.vlen()
    }

    /// Creates an `InversionPopulation` from the given matrix, whose rows
    /// must all have one length; otherwise `LengthError` is returned.
    pub fn from_vec(vec: &Vec<Vec<usize>>) -> (r: Result<InversionPopulation, Error>)
        requires
            vec@.len() >= 1,
        ensures
            r is Ok <==> (forall|k: int|
                0 <= k < vec@.len() ==> (#[trigger] vec@[k]@.len()) == vec@[0]@.len()),
            r matches Ok(p) ==> p.wf() && p.size == vec@.len() && p.population@.len()
                == vec@.len() && (forall|k: int|
                0 <= k < vec@.len() ==> (#[trigger] p.rows()[k]) == vec@[k]@),
            r is Err ==> r matches Err(Error::LengthError),
    {
        let mut pop: Vec<Inversion> = Vec::new();
        let len: usize = vec[0].len();
        let n = vec.len();
        for k in 0..n
            invariant
                n == vec@.len(),
                len == vec@[0]@.len(),
                pop@.len() == k,
                forall|t: int| 0 <= t < k ==> (#[trigger] pop@[t].inversion@) == vec@[t]@,
                forall|t: int| 0 <= t < k ==> (#[trigger] vec@[t]@.len()) == len,
        {
            if vec[k].len() == len {
                pop.push(Inversion::from_vec(crate::copy_vec(&vec[k])));
            } else {
                return Err(Error::LengthError);
            }
        }
        Ok(InversionPopulation { population: pop, size: n })
    }

    /// Creates an `InversionPopulation` of the size given with members of
    /// the length specified, filled with zeros: the population of identity
    /// permutations.
    pub fn zeros(size: usize, length: usize) -> (r: InversionPopulation)
        ensures
            r.wf(),
            r.size == size,
            r.population@.len() == size,
            size > 0 ==> r.vlen() == length,
            forall|k: int| 0 <= k < size ==> (#[trigger] r.rows()[k]).len() == length,
            forall|k: int, j: int|
                0 <= k < size && 0 <= j < length ==> r.rows()[k][j] == 0usize,
    {
        let mut population: Vec<Inversion> = Vec::new();
        for s in 0..size
            invariant
                population@.len() == s,
                forall|k: int| 0 <= k < s ==> (#[trigger] population@[k].inversion@).len()
                    == length,
                forall|k: int, j: int|
                    0 <= k < s && 0 <= j < length ==> population@[k].inversion@[j] == 0usize,
        {
            population.push(Inversion::zeros(length));
        }
        InversionPopulation { population, size }
    }

    /// Transforms every member to its `Permutation` representation, filling
    /// the given `PermuPopulation` position by position.  The populations
    /// must have one size and compatible member lengths; otherwise
    /// `LengthError` is returned.
    pub fn to_permus(&self, permu_pop: &mut PermuPopulation) -> (r: Result<(), Error>)
        requires
            self.wf(),
            old(permu_pop).wf(),
            self.size == old(permu_pop).size ==> (self.size >= 1 && self.vlen() < usize::MAX),
            (self.size == old(permu_pop).size && old(permu_pop).vlen() == self.vlen() + 1)
                ==> forall|k: int|
                0 <= k < self.size ==> inv_in_range(
                    #[trigger] self.rows()[k], (self.vlen() + 1) as int),
        ensures
            r is Ok <==> (self.size == old(permu_pop).size && old(permu_pop).vlen() == self.vlen()
                + 1),
            r is Ok ==> final(permu_pop).wf() && final(permu_pop).size == old(permu_pop).size
                && final(permu_pop).population@.len() == old(permu_pop).population@.len() && (
            forall|k: int|
                0 <= k < self.size ==> (#[trigger] final(permu_pop).rows()[k]) == lehmer_decode(
                    identity_seq(self.vlen() + 1), self.rows()[k].push(0usize)) && is_permutation(
                    final(permu_pop).rows()[k])),
            r is Err ==> *final(permu_pop) == *old(permu_pop) && r matches Err(Error::LengthError),
    {
        if permu_pop.size != self.size {
            return Err(Error::LengthError);
        }
        if permu_pop.population[0].permu.len() != self.population[0].inversion.len() + 1 {
            return Err(Error::LengthError);
        }
        let s = self.size;
        for i in 0..s
            invariant
                self.wf(),
                s == self.size,
                self.size == permu_pop.size,
                permu_pop.population@.len() == s,
                permu_pop.population@.len() == old(permu_pop).population@.len(),
                permu_pop.size == old(permu_pop).size,
                old(permu_pop).vlen() == self.vlen() + 1,
                self.vlen() < usize::MAX,
                forall|k: int|
                    0 <= k < permu_pop.population@.len() ==> (
                    #[trigger] permu_pop.population@[k].permu@.len()) == self.vlen() + 1,
                forall|k: int|
                    0 <= k < self.size ==> inv_in_range(#[trigger] self.rows()[k], (self.vlen() + 1) as int),
                forall|k: int|
                    0 <= k < i ==> (#[trigger] permu_pop.rows()[k]) == lehmer_decode(
                        identity_seq(self.vlen() + 1), self.rows()[k].push(0usize))
                        && is_permutation(permu_pop.rows()[k]),
        {
            let ghost pp0 = *permu_pop;
            proof {
                assert(self.rows()[i as int] == self.population@[i as int].inversion@);
            }
            let mut tmp = Permutation { permu: crate::copy_vec(&permu_pop.population[i].permu) };
            proof {
                assert(tmp.permu@ == permu_pop.population@[i as int].permu@);
                assert(tmp.permu@.len() == self.vlen() + 1);
            }
            match self.population[i].to_permu(&mut tmp) {
                Ok(()) => {
                    let ghost t = tmp.permu@;
                    permu_pop.population.set(i, tmp);
                    proof {
                        assert(permu_pop.rows()[i as int] == t);
                        assert forall|k: int| 0 <= k < i + 1 implies (#[trigger] permu_pop.rows()[
                            k]) == lehmer_decode(identity_seq(self.vlen() + 1),
                            self.rows()[k].push(0usize)) && is_permutation(
                            permu_pop.rows()[k]) by {
                            if k < i {
                                assert(pp0.rows()[k] == lehmer_decode(
                                    identity_seq(self.vlen() + 1),
                                    self.rows()[k].push(0usize)) && is_permutation(
                                    pp0.rows()[k]));
                                assert(pp0.rows()[k] == pp0.population@[k].permu@);
                                assert(permu_pop.population@[k] == pp0.population@[k]);
                                assert(permu_pop.rows()[k] == permu_pop.population@[k].permu@);
                            } else {
                                assert(permu_pop.rows()[k] == t);
                                assert(self.rows()[k] == self.population@[k].inversion@);
                            }
                        }
                    }
                },
                Err(_) => {
                    proof {
                        assert(false);
                    }
                    return Err(Error::LengthError);
                },
            }
        }
        proof {
            assert(permu_pop.wf());
        }
        Ok(())
    }

    /// Fills this `InversionPopulation` with the inversion representations
    /// of the members of a given `PermuPopulation`, position by position.
    /// The populations must have one size; otherwise `LengthError` is
    /// returned.
    pub fn from_permus(permu_pop: &PermuPopulation, inversions: &mut InversionPopulation) -> (r:
        Result<(), Error>)
        requires
            permu_pop.wf(),
            old(inversions).wf(),
            (permu_pop.size == old(inversions).size && permu_pop.size > 0) ==> (permu_pop.vlen()
                == old(inversions).vlen() + 1 && permu_pop.vlen() >= 1),
        ensures
            r is Ok <==> permu_pop.size == old(inversions).size,
            r is Ok ==> final(inversions).wf() && final(inversions).size == old(inversions).size
                && final(inversions).population@.len() == old(inversions).population@.len() && (
            forall|k: int|
                0 <= k < permu_pop.size ==> (#[trigger] final(inversions).rows()[k]) == inv_encode(
                    permu_pop.rows()[k])),
            r is Err ==> *final(inversions) == *old(inversions) && r matches Err(
                Error::LengthError),
    {
        if permu_pop.size != inversions.size {
            return Err(Error::LengthError);
        }
        let s = permu_pop.size;
        for i in 0..s
            invariant
                permu_pop.wf(),
                s == permu_pop.size,
                permu_pop.size == inversions.size,
                inversions.population@.len() == s,
                inversions.population@.len() == old(inversions).population@.len(),
                inversions.size == old(inversions).size,
                s > 0 ==> (permu_pop.vlen() == old(inversions).vlen() + 1 && permu_pop.vlen()
                    >= 1),
                forall|k: int|
                    0 <= k < inversions.population@.len() ==> (
                    #[trigger] inversions.population@[k].inversion@.len()) == old(
                        inversions).vlen(),
                forall|k: int|
                    0 <= k < i ==> (#[trigger] inversions.rows()[k]) == inv_encode(
                        permu_pop.rows()[k]),
        {
            let ghost iv0 = *inversions;
            proof {
                assert(permu_pop.rows()[i as int] == permu_pop.population@[i as int].permu@);
            }
            let mut tmp = Inversion {
                inversion: crate::copy_vec(&inversions.population[i].inversion),
            };
            proof {
                assert(tmp.inversion@ == inversions.population@[i as int].inversion@);
                assert(permu_pop.population@[i as int].permu@.len() == permu_pop.vlen());
            }
            match Inversion::from_permu(&permu_pop.population[i], &mut tmp) {
                Ok(()) => {
                    let ghost t = tmp.inversion@;
                    inversions.population.set(i, tmp);
                    proof {
                        assert(inversions.rows()[i as int] == t);
                        assert(t == inv_encode(permu_pop.population@[i as int].permu@));
                        assert(permu_pop.rows()[i as int] == permu_pop.population@[
                            i as int].permu@);
                        assert(inversions.rows()[i as int] == inv_encode(
                            permu_pop.rows()[i as int]));
                        assert forall|k: int| 0 <= k < i + 1 implies (#[trigger] inversions.rows()[
                            k]) == inv_encode(permu_pop.rows()[k]) by {
                            if k < i {
                                assert(iv0.rows()[k] == inv_encode(permu_pop.rows()[k]));
                                assert(iv0.rows()[k] == iv0.population@[k].inversion@);
                                assert(inversions.population@[k] == iv0.population@[k]);
                                assert(inversions.rows()[k] == inversions.population@[
                                    k].inversion@);
                            } else {
                                assert(inversions.rows()[k] == t);
                                assert(permu_pop.rows()[k] == permu_pop.population@[k].permu@);
                            }
                        }
                    }
                },
                Err(_) => {
                    proof {
                        assert(false);
                    }
                    return Err(Error::LengthError);
                },
            }
        }
        proof {
            assert(inversions.wf());
        }
        Ok(())
    }
}


impl Population for InversionPopulation {
    open spec fn learn_pre(&self) -> bool {
        &&& self.wf()
        &&& self.size >= 1
        &&& self.vlen() < usize::MAX
        &&& forall|k: int, j: int|
            0 <= k < self.rows().len() && 0 <= j < self.vlen() ==> (#[trigger] self.rows()[k][j])
                < self.vlen() + 1
    }

    open spec fn learned(&self, d: Distribution) -> bool {
        &&& d is InversionDistribution
        &&& !soften_of(d)
        &&& learned_matrix(matrix_of(d), self.rows(), self.vlen(), self.vlen() + 1)
    }

    open spec fn sample_pre(&self, d: Distribution) -> bool {
        &&& self.wf()
        &&& (d is InversionDistribution ==> self.size >= 1)
        &&& ((d is InversionDistribution && matrix_of(d).len() == self.vlen()) ==> {
            let m = matrix_of(d);
            &&& self.vlen() < usize::MAX
            &&& matrix_shape(m, self.vlen() as int, (self.vlen() + 1) as int)
            &&& forall|j: int|
                0 <= j < m.len() ==> seq_sum(#[trigger] m[j]) + m[j].len() <= usize::MAX
            &&& soften_of(d) ==> forall|j: int| 0 <= j < m.len() ==> seq_sum(#[trigger] m[j]) >= 1
        })
    }

    open spec fn sample_post(
        pre: Self,
        d0: Distribution,
        post: Self,
        d1: Distribution,
        r: Result<(), Error>,
    ) -> bool {
        &&& ((r matches Err(e) && e is IncorrectDistrType) <==> !(d0 is InversionDistribution))
        &&& ((r matches Err(e) && e is LengthError) <==> (d0 is InversionDistribution
            && matrix_of(d0).len() != pre.vlen()))
        &&& (r is Err ==> post == pre && d1 == d0)
        &&& (r is Ok <==> (d0 is InversionDistribution && matrix_of(d0).len() == pre.vlen()))
        &&& (r is Ok ==> {
            &&& d1 is InversionDistribution
            &&& soften_of(d1)
            &&& matrix_of(d1) == (if soften_of(d0) {
                matrix_of(d0)
            } else {
                smooth_inversion(matrix_of(d0))
            })
            &&& post.size == pre.size
            &&& post.population@.len() == pre.population@.len()
            &&& post.wf()
            &&& post.vlen() == pre.vlen()
            &&& forall|k: int, i: int|
                0 <= k < post.population@.len() && 0 <= i < pre.vlen() ==> (
                #[trigger] post.rows()[k][i]) < pre.vlen() + 1 && matrix_of(d1)[i][post.rows()[
                    k][i] as int] >= 1
        })
    }

    /// Learns the per-position value counts of this population; the value
    /// axis has one more cell than a member has positions.
    fn learn(&self) -> (d: Distribution) {
        let m = self.population[0].inversion.len();
        let width = m + 1;
        let s = self.size;
        let mut distr: Vec<Vec<usize>> = Vec::new();
        for j in 0..m
            invariant
                self.learn_pre(),
                m == self.vlen(),
                width == m + 1,
                s == self.size,
                distr@.len() == j,
                forall|t: int| 0 <= t < j ==> (#[trigger] distr@[t]@).len() == width,
                forall|t: int, v: usize|
                    0 <= t < j && v < width ==> (#[trigger] distr@[t]@[v as int]) == col_count(
                        self.rows(), t, v),
        {
            let mut row: Vec<usize> = crate::zeros_vec(width);
            proof {
                assert(self.rows().take(0) =~= Seq::<Seq<usize>>::empty());
            }
            for i in 0..s
                invariant
                    self.learn_pre(),
                    j < m,
                    m == self.vlen(),
                    width == m + 1,
                    s == self.size,
                    s == self.rows().len(),
                    s == self.population@.len(),
                    row@.len() == width,
                    forall|v: usize|
                        v < width ==> (#[trigger] row@[v as int]) == col_count(
                            self.rows().take(i as int), j as int, v),
            {
                let e = self.population[i].inversion[j];
                let ghost before = row@;
                proof {
                    assert(self.rows()[i as int] == self.population@[i as int].inversion@);
                    assert(self.rows()[i as int][j as int] < self.vlen() + 1);
                    crate::lemma_col_count_le(self.rows().take(i as int), j as int, e);
                    assert(self.rows().take(i + 1).drop_last() =~= self.rows().take(i as int));
                    assert(self.rows().take(i + 1).last() == self.rows()[i as int]);
                }
                let cur = row[e];
                row.set(e, cur + 1);
                proof {
                    assert forall|v: usize| v < width implies (#[trigger] row@[v as int])
                        == col_count(self.rows().take(i + 1), j as int, v) by {
                        if v == e {
                            assert(row@[v as int] == before[v as int] + 1);
                        } else {
                            assert(row@[v as int] == before[v as int]);
                        }
                    }
                }
            }
            proof {
                assert(self.rows().take(s as int) =~= self.rows());
            }
            distr.push(row);
        }
        proof {
            assert(matrix_shape(rows_of(distr), self.vlen() as int, (self.vlen() + 1) as int));
        }
        Distribution::InversionDistribution(distr, false)
    }

    /// Fills this population with vectors sampled from `distr`, visiting
    /// the positions of each member in a fresh random order; every drawn
    /// value has a positive cell in the softened matrix.
    fn sample(&mut self, distr: &mut Distribution) -> (r: Result<(), Error>) {
        let tag_ok = match &*distr {
            Distribution::InversionDistribution(_, _) => true,
            _ => false,
        };
        if !tag_ok {
            return Err(Error::IncorrectDistrType);
        }
        let length = self.population[0].inversion.len();
        let (mat0, soft): (Vec<Vec<usize>>, bool) = match &*distr {
            Distribution::InversionDistribution(d, s) => {
                if d.len() != length {
                    return Err(Error::LengthError);
                }
                (crate::copy_matrix(d), *s)
            },
            _ => {
                proof {
                    assert(false);
                }
                (Vec::new(), false)
            },
        };
        proof {
            assert(rows_of(mat0) == matrix_of(*old(distr)));
            assert(matrix_of(*old(distr)).len() == old(self).vlen());
            assert forall|j: int| 0 <= j < mat0@.len() implies seq_sum(#[trigger] mat0@[j]@)
                + mat0@[j]@.len() <= usize::MAX by {
                assert(mat0@[j]@ == rows_of(mat0)[j]);
                assert(seq_sum(matrix_of(*old(distr))[j]) + matrix_of(*old(distr))[j].len()
                    <= usize::MAX);
            }
        }
        let mat1: Vec<Vec<usize>> = if !soft {
            crate::smooth_inversion_exec(&mat0)
        } else {
            mat0
        };
        let ghost m1 = rows_of(mat1);
        let width = length + 1;
        proof {
            assert(matrix_shape(m1, length as int, width as int));
            assert forall|j: int| 0 <= j < m1.len() implies 1 <= seq_sum(#[trigger] m1[j])
                && seq_sum(m1[j]) <= usize::MAX by {
                assert(m1[j] == mat1@[j]@);
                if !soft {
                    assert(mat1@[j]@[0] >= 1);
                    crate::sampling::lemma_seq_sum_elem_le(m1[j], 0);
                    crate::sampling::lemma_seq_sum_nonneg(m1[j]);
                } else {
                    assert(m1[j] == matrix_of(*old(distr))[j]);
                }
            }
        }
        let mask: Vec<bool> = crate::false_vec(width);
        let s = self.size;
        for out_i in 0..s
            invariant
                s == self.size,
                self.population@.len() == s,
                length == old(self).vlen(),
                forall|k: int|
                    0 <= k < s ==> (#[trigger] self.population@[k].inversion@.len()) == length,
                m1 == rows_of(mat1),
                width == length + 1,
                matrix_shape(m1, length as int, width as int),
                mask@.len() == width,
                forall|i: int| 0 <= i < width ==> !mask@[i],
                forall|j: int|
                    0 <= j < m1.len() ==> 1 <= seq_sum(#[trigger] m1[j]) && seq_sum(m1[j])
                        <= usize::MAX,
                forall|k: int, i: int|
                    0 <= k < out_i && 0 <= i < length ==> (#[trigger] self.rows()[k][i]) < width
                        && m1[i][self.rows()[k][i] as int] >= 1,
        {
            let order = Permutation::random(length);
            proof {
                lemma_permutation_bounds(order.permu@);
            }
            let mut indiv: Vec<usize> = crate::zeros_vec(length);
            for k in 0..length
                invariant
                    order.permu@.len() == length,
                    order.permu@.no_duplicates(),
                    is_permutation(order.permu@),
                    forall|t: int| 0 <= t < length ==> (#[trigger] order.permu@[t]) < length,
                    indiv@.len() == length,
                    m1 == rows_of(mat1),
                    width == length + 1,
                    matrix_shape(m1, length as int, width as int),
                    mask@.len() == width,
                    forall|i: int| 0 <= i < width ==> !mask@[i],
                    forall|j: int|
                        0 <= j < m1.len() ==> 1 <= seq_sum(#[trigger] m1[j]) && seq_sum(m1[j])
                            <= usize::MAX,
                    forall|t: int|
                        0 <= t < k ==> (#[trigger] indiv@[order.permu@[t] as int]) < width && m1[
                            order.permu@[t] as int][indiv@[order.permu@[t] as int] as int] >= 1,
            {
                let pos = order.permu[k];
                proof {
                    assert(m1[pos as int] == mat1@[pos as int]@);
                    assert(masked_weights(m1[pos as int], mask@) =~= m1[pos as int]);
                }
                let idx = crate::sampling::weighted_pick(&mat1[pos], &mask);
                let ghost indiv0 = indiv@;
                indiv.set(pos, idx);
                proof {
                    assert forall|t: int| 0 <= t < k + 1 implies (#[trigger] indiv@[
                        order.permu@[t] as int]) < width && m1[order.permu@[t] as int][indiv@[
                        order.permu@[t] as int] as int] >= 1 by {
                        if t < k {
                            assert(order.permu@[t] != order.permu@[k as int]);
                            assert(indiv@[order.permu@[t] as int] == indiv0[
                                order.permu@[t] as int]);
                        } else {
                            assert(indiv@[order.permu@[t] as int] == idx);
                        }
                    }
                }
            }
            proof {
                assert forall|i: int| 0 <= i < length implies (#[trigger] indiv@[i]) < width
                    && m1[i][indiv@[i] as int] >= 1 by {
                    assert(order.permu@.contains(i as usize));
                    let t = choose|t: int|
                        0 <= t < order.permu@.len() && order.permu@[t] == i as usize;
                    assert(indiv@[order.permu@[t] as int] < width);
                    assert(m1[order.permu@[t] as int][indiv@[order.permu@[t] as int] as int]
                        >= 1);
                }
            }
            let ghost sp0 = *self;
            let ghost iv = indiv@;
            self.population.set(out_i, Inversion { inversion: indiv });
            proof {
                assert forall|k: int, i: int| 0 <= k < out_i + 1 && 0 <= i < length implies (
                #[trigger] self.rows()[k][i]) < width && m1[i][self.rows()[k][i] as int] >= 1 by {
                    if k < out_i {
                        assert(sp0.rows()[k][i] < width && m1[i][sp0.rows()[k][i] as int] >= 1);
                        assert(sp0.rows()[k] == sp0.population@[k].inversion@);
                        assert(self.population@[k] == sp0.population@[k]);
                        assert(self.rows()[k] == self.population@[k].inversion@);
                    } else {
                        assert(self.rows()[k] == iv);
                    }
                }
            }
        }
        *distr = Distribution::InversionDistribution(mat1, true);
        proof {
            assert(self.wf());
            assert forall|k: int, i: int|
                0 <= k < self.population@.len() && 0 <= i < old(self).vlen() implies (
            #[trigger] self.rows()[k][i]) < old(self).vlen() + 1 && matrix_of(*distr)[i][
                self.rows()[k][i] as int] >= 1 by {
                assert(self.rows()[k] == self.population@[k].inversion@);
            }
        }
        Ok(())
    }
}

} // verus!
