//! Repeated-insertion-model (RIM) vectors: a permutation of length `n` is
//! encoded by the indices at which the elements `1..n` are inserted, one at
//! a time, into a sequence that starts as `[0]`.

use vstd::prelude::*;

verus! {

use vstd::seq_lib::*;
use crate::errors::Error;
use crate::sampling::{seq_sum, masked_weights};
use crate::{
    Distribution, Population, matrix_of, soften_of, matrix_shape, col_count, learned_matrix,
    smooth_rim, rows_of,
};
use crate::permutation::{
    Permutation, PermuPopulation, is_permutation, lemma_permutation_bounds,
    lemma_identity_props, below_set,
};

/// The insertion index actually used for a recorded index `v` when the
/// sequence built so far has `len` entries: an overflowing index is clamped.
pub open spec fn rim_clamp(v: usize, len: int) -> int {
    if v as int > len {
        len
    } else {
        v as int
    }
}

/// Decoding of a RIM vector `r`: start from `[0]` and insert each element
/// `e` in `1..=r.len()` at the recorded, clamped index `r[e-1]`.
pub open spec fn rim_decode(r: Seq<usize>) -> Seq<usize>
    decreases r.len(),
{
    if r.len() == 0 {
        seq![0usize]
    } else {
        let prev = rim_decode(r.drop_last());
        prev.insert(rim_clamp(r.last(), prev.len() as int), r.len() as usize)
    }
}

/// Encoding of a permutation `p`: record, from the largest element down to
/// `1`, the index of that element, then remove it.
pub open spec fn rim_encode(p: Seq<usize>) -> Seq<usize>
    decreases p.len(),
{
    if p.len() <= 1 {
        Seq::empty()
    } else {
        let top = (p.len() - 1) as usize;
        let i0 = p.index_of(top);
        let i = if 0 <= i0 < p.len() {
            i0
        } else {
            0int
        };
        rim_encode(p.remove(i)) + seq![i as usize]
    }
}

/// A RIM vector is admissible when the entry for element `e` is at most `e`,
/// so that decoding never needs to clamp.
pub open spec fn rim_in_range(v: Seq<usize>) -> bool {
    forall|i: int| 0 <= i < v.len() ==> v[i] <= i + 1
}

/// The subsequence of `s` keeping the entries strictly below `b`.
pub open spec fn keep_lt(s: Seq<usize>, b: int) -> Seq<usize>
    decreases s.len(),
{
    if s.len() == 0 {
        Seq::empty()
    } else if (s.last() as int) < b {
        keep_lt(s.drop_last(), b).push(s.last())
    } else {
        keep_lt(s.drop_last(), b)
    }
}

/// Inserting a value: length, index, contents and duplicate facts.
pub proof fn lemma_insert_props(s: Seq<usize>, i: int, a: usize)
    requires
        0 <= i <= s.len(),
    ensures
        s.insert(i, a).len() == s.len() + 1,
        s.insert(i, a)[i] == a,
        forall|k: int| 0 <= k < i ==> #[trigger] s.insert(i, a)[k] == s[k],
        forall|k: int| i < k < s.len() + 1 ==> #[trigger] s.insert(i, a)[k] == s[k - 1],
        forall|x: usize| #![trigger s.insert(i, a).contains(x)]
            s.insert(i, a).contains(x) <==> (x == a || s.contains(x)),
        (!s.contains(a) && s.no_duplicates()) ==> s.insert(i, a).no_duplicates(),
        s.insert(i, a).remove(i) == s,
{
    let d = s.insert(i, a);
    s.insert_ensures(i, a);
    assert forall|k: int| i < k < s.len() + 1 implies #[trigger] d[k] == s[k - 1] by {
        assert(d[(k - 1) + 1] == s[k - 1]);
    }
    assert forall|x: usize| d.contains(x) implies (x == a || s.contains(x)) by {
        let k = choose|k: int| 0 <= k < d.len() && d[k] == x;
        if k < i {
            assert(s[k] == x);
        } else if k > i {
            assert(s[k - 1] == x);
        }
    }
    assert forall|x: usize| (x == a || s.contains(x)) implies d.contains(x) by {
        if x == a {
            assert(d[i] == x);
        } else {
            let k = choose|k: int| 0 <= k < s.len() && s[k] == x;
            if k < i {
                assert(d[k] == x);
            } else {
                assert(d[k + 1] == x);
            }
        }
    }
    if !s.contains(a) && s.no_duplicates() {
        assert forall|k1: int, k2: int| 0 <= k1 < k2 < d.len() implies d[k1] != d[k2] by {
            if k1 == i {
                assert(d[k2] == s[k2 - 1] && s.contains(s[k2 - 1]));
            } else if k2 == i {
                if k1 < i {
                    assert(d[k1] == s[k1] && s.contains(s[k1]));
                }
            }
        }
    }
    assert(d.remove(i) =~= s);
}

/// Decoding any RIM vector of length `m` yields a permutation of length
/// `m + 1`.
pub proof fn lemma_rim_decode_is_permutation(r: Seq<usize>)
    requires
        r.len() < usize::MAX,
    ensures
        rim_decode(r).len() == r.len() + 1,
        is_permutation(rim_decode(r)),
    decreases r.len(),
{
    if r.len() == 0 {
        assert forall|v: usize| v < rim_decode(r).len() implies rim_decode(r).contains(v) by {
            assert(rim_decode(r)[0] == 0usize);
        }
    } else {
        let m = r.len() as int;
        let prev = rim_decode(r.drop_last());
        lemma_rim_decode_is_permutation(r.drop_last());
        lemma_permutation_bounds(prev);
        let idx = rim_clamp(r.last(), prev.len() as int);
        assert(!prev.contains(m as usize)) by {
            if prev.contains(m as usize) {
                let k = choose|k: int| 0 <= k < prev.len() && prev[k] == m as usize;
                assert(prev[k] < prev.len());
            }
        }
        lemma_insert_props(prev, idx, m as usize);
        let d = rim_decode(r);
        assert forall|v: usize| v < d.len() implies d.contains(v) by {
            if v < m {
                assert(prev.contains(v));
            }
        }
    }
}

/// Round trip and admissibility of the encoding: decoding the RIM encoding
/// of a permutation rebuilds it, and every recorded index for element `e` is
/// at most `e`.
pub proof fn lemma_rim_round_trip(p: Seq<usize>)
    requires
        is_permutation(p),
        p.len() >= 1,
    ensures
        rim_encode(p).len() == p.len() - 1,
        rim_in_range(rim_encode(p)),
        rim_decode(rim_encode(p)) == p,
    decreases p.len(),
{
    let n = p.len() as int;
    lemma_permutation_bounds(p);
    if p.len() == 1 {
        assert(p =~= seq![0usize]) by {
            assert(p[0] < 1);
        }
        assert(rim_decode(rim_encode(p)) =~= p);
    } else {
        let top = (n - 1) as usize;
        assert(p.contains(top));
        let idx = p.index_of(top);
        assert(0 <= idx < n && p[idx] == top) by {
            let k = choose|k: int| 0 <= k < p.len() && p[k] == top;
            assert(p[k] == top);
        }
        let q = p.remove(idx);
        crate::inversion::lemma_remove_props(p, idx);
        assert forall|j: int| 0 <= j < q.len() implies q[j] < q.len() by {
            assert(q.contains(q[j]));
            if j < idx {
                assert(q[j] == p[j]);
            } else {
                assert(q[j] == p[j + 1]);
            }
        }
        assert forall|v: usize| v < q.len() implies q.contains(v) by {
            assert(p.contains(v));
        }
        assert(is_permutation(q));
        lemma_rim_round_trip(q);
        let rr = rim_encode(p);
        assert(rr == rim_encode(q) + seq![idx as usize]);
        assert(rr.len() == n - 1);
        assert(rr.drop_last() =~= rim_encode(q));
        assert(rr.last() == idx as usize);
        assert forall|i: int| 0 <= i < rr.len() implies rr[i] <= i + 1 by {
            if i < rr.len() - 1 {
                assert(rr[i] == rim_encode(q)[i]);
            }
        }
        let prev = rim_decode(rim_encode(q));
        assert(prev == q);
        assert(rim_clamp(rr.last(), prev.len() as int) == idx);
        assert(rim_decode(rr) == q.insert(idx, top));
        assert(q.insert(idx, top) =~= p) by {
            p.remove_ensures(idx);
            q.insert_ensures(idx, top);
        }
    }
}

/// Round trip in the other direction: encoding the decoding of an
/// admissible RIM vector gives the vector back.
pub proof fn lemma_rim_decode_encode(r: Seq<usize>)
    requires
        rim_in_range(r),
        r.len() < usize::MAX,
    ensures
        rim_encode(rim_decode(r)) == r,
    decreases r.len(),
{
    if r.len() == 0 {
        assert(rim_encode(rim_decode(r)) =~= r);
    } else {
        let m = r.len() as int;
        let prev = rim_decode(r.drop_last());
        lemma_rim_decode_is_permutation(r.drop_last());
        lemma_permutation_bounds(prev);
        assert(r.last() <= m);
        let idx = rim_clamp(r.last(), prev.len() as int);
        assert(idx == r.last() as int);
        assert(!prev.contains(m as usize)) by {
            if prev.contains(m as usize) {
                let k = choose|k: int| 0 <= k < prev.len() && prev[k] == m as usize;
                assert(prev[k] < prev.len());
            }
        }
        lemma_insert_props(prev, idx, m as usize);
        let q = rim_decode(r);
        assert(q == prev.insert(idx, m as usize));
        assert(q.len() == m + 1);
        let top = (q.len() - 1) as usize;
        assert(top == m as usize);
        assert(q[idx] == top);
        assert(q.contains(top));
        let ic = q.index_of(top);
        assert(0 <= ic < q.len() && q[ic] == top) by {
            assert(q[idx] == top);
        }
        assert(ic == idx) by {
            if ic < idx {
                assert(q[ic] == prev[ic]);
                assert(prev.contains(prev[ic]));
            } else if ic > idx {
                assert(q[ic] == prev[ic - 1]);
                assert(prev.contains(prev[ic - 1]));
            }
        }
        assert(q.remove(ic) == prev);
        assert(rim_encode(q) == rim_encode(prev) + seq![idx as usize]);
        assert forall|i: int| 0 <= i < r.drop_last().len() implies r.drop_last()[i] <= i + 1 by {
            assert(r[i] <= i + 1);
        }
        lemma_rim_decode_encode(r.drop_last());
        assert(rim_encode(q) =~= r);
    }
}

/// Splitting off the last entry splits the contents.
proof fn lemma_unsnoc_contains(u: Seq<usize>)
    requires
        u.len() > 0,
    ensures
        forall|x: usize| #![trigger u.contains(x)]
            u.contains(x) <==> (x == u.last() || u.drop_last().contains(x)),
{
    assert forall|x: usize| u.contains(x) implies (x == u.last() || u.drop_last().contains(
        x)) by {
        let k = choose|k: int| 0 <= k < u.len() && u[k] == x;
        if k < u.len() - 1 {
            assert(u.drop_last()[k] == x);
        }
    }
    assert forall|x: usize| (x == u.last() || u.drop_last().contains(x)) implies u.contains(
        x) by {
        if x == u.last() {
            assert(u[u.len() - 1] == x);
        } else {
            let k = choose|k: int| 0 <= k < u.drop_last().len() && u.drop_last()[k] == x;
            assert(u[k] == x);
        }
    }
}

/// Contents, duplicates and identity facts about `keep_lt`.
pub proof fn lemma_keep_lt_props(s: Seq<usize>, b: int)
    ensures
        forall|x: usize| #![trigger keep_lt(s, b).contains(x)]
            keep_lt(s, b).contains(x) <==> (s.contains(x) && (x as int) < b),
        s.no_duplicates() ==> keep_lt(s, b).no_duplicates(),
        (forall|k: int| 0 <= k < s.len() ==> (s[k] as int) < b) ==> keep_lt(s, b) == s,
    decreases s.len(),
{
    if s.len() == 0 {
        assert(keep_lt(s, b) =~= s);
    } else {
        let t = keep_lt(s.drop_last(), b);
        lemma_keep_lt_props(s.drop_last(), b);
        lemma_unsnoc_contains(s);
        if (s.last() as int) < b {
            lemma_insert_props(t, t.len() as int, s.last());
            assert(t.insert(t.len() as int, s.last()) =~= t.push(s.last()));
            assert(keep_lt(s, b) == t.push(s.last()));
            if s.no_duplicates() {
                assert(!t.contains(s.last())) by {
                    if t.contains(s.last()) {
                        let k = choose|k: int|
                            0 <= k < s.drop_last().len() && s.drop_last()[k] == s.last();
                        assert(s[k] == s.last());
                    }
                }
            }
            if forall|k: int| 0 <= k < s.len() ==> (s[k] as int) < b {
                assert(s.drop_last().push(s.last()) =~= s);
            }
        }
    }
}

/// Within a permutation, the entries below `b` are exactly `b` many.
pub proof fn lemma_keep_lt_len_perm(p: Seq<usize>, b: int)
    requires
        is_permutation(p),
        0 <= b <= p.len(),
    ensures
        keep_lt(p, b).len() == b,
        keep_lt(p, b).no_duplicates(),
        forall|x: usize| #![trigger keep_lt(p, b).contains(x)]
            keep_lt(p, b).contains(x) <==> (x as int) < b,
    decreases p.len(),
{
    broadcast use vstd::seq_lib::seq_to_set_is_finite;

    lemma_permutation_bounds(p);
    lemma_keep_lt_props(p, b);
    let kp = keep_lt(p, b);
    assert forall|x: usize| kp.contains(x) <==> (x as int) < b by {
        if (x as int) < b {
            assert(p.to_set().contains(x) <==> below_set(p.len()).contains(x));
            assert(p.contains(x) <==> p.to_set().contains(x));
        } else {
            assert(!kp.contains(x));
        }
    }
    kp.unique_seq_to_set();
    lemma_identity_props(b as nat);
    assert(kp.to_set() =~= below_set(b as nat));
}

/// Removing the single entry equal to `b` from a duplicate-free sequence
/// whose entries are at most `b` keeps exactly the entries below `b`.
pub proof fn lemma_keep_lt_remove_value(s: Seq<usize>, b: int, idx: int)
    requires
        s.no_duplicates(),
        forall|k: int| 0 <= k < s.len() ==> (s[k] as int) <= b,
        0 <= idx < s.len(),
        (s[idx] as int) == b,
    ensures
        keep_lt(s, b) == s.remove(idx),
    decreases s.len(),
{
    lemma_keep_lt_props(s.drop_last(), b);
    if idx == s.len() - 1 {
        assert forall|k: int| 0 <= k < s.drop_last().len() implies (s.drop_last()[k] as int)
            < b by {
            assert(s[k] != s[idx]);
        }
        assert(keep_lt(s, b) == s.drop_last());
        assert(s.remove(idx) =~= s.drop_last());
    } else {
        assert((s.last() as int) < b) by {
            assert(s[s.len() - 1] != s[idx]);
        }
        lemma_keep_lt_remove_value(s.drop_last(), b, idx);
        assert(keep_lt(s, b) == s.drop_last().remove(idx).push(s.last()));
        assert(s.drop_last().remove(idx).push(s.last()) =~= s.remove(idx)) by {
            s.remove_ensures(idx);
            s.drop_last().remove_ensures(idx);
        }
    }
}

/// Keeping below `c` after keeping below a larger bound `b` is keeping
/// below `c` in the first place.
pub proof fn lemma_keep_lt_compose(s: Seq<usize>, b: int, c: int)
    requires
        c <= b,
    ensures
        keep_lt(keep_lt(s, b), c) == keep_lt(s, c),
    decreases s.len(),
{
    if s.len() > 0 {
        let kb = keep_lt(s.drop_last(), b);
        lemma_keep_lt_compose(s.drop_last(), b, c);
        if (s.last() as int) < b {
            assert(keep_lt(s, b) == kb.push(s.last()));
            assert(kb.push(s.last()).drop_last() =~= kb);
            assert(kb.push(s.last()).last() == s.last());
        }
    }
}

/// Contains a repeated-insertion-model (RIM) vector and methods to
/// generate and transform them.
#[derive(Debug, Clone, PartialEq)]
pub struct Rim {
    pub inner: Vec<usize>,
}

impl Rim {
    /// Creates a `Rim` object from the vector.
    pub fn from_vec(inner: Vec<usize>) -> (r: Rim)
        ensures
            r.inner@ == inner@,
    {
        Rim { inner }
    }

    /// Creates a `Rim` vector of the length given, filled with zeros.
    pub fn zeros(length: usize) -> (r: Rim)
        ensures
            r.inner@.len() == length,
            forall|i: int| 0 <= i < length ==> r.inner@[i] == 0usize,
    {
        Rim { inner: crate::zeros_vec(length) }
    }

    /// Returns the length of the inner `Rim` vector.
    pub fn len(&self) -> (l: usize)
        ensures
            l == self.inner@.len(),
    {
        self.inner.len()
    }

    /// Transforms a given insertion vector (RIM) into its permutation
    /// representation, rebuilding the permutation by repeated insertion;
    /// a recorded index that overflows the sequence built so far is
    /// clamped.  The output must be one entry longer than the RIM vector;
    /// otherwise `LengthError` is returned.
    pub fn to_permu(iv: &Rim, out: &mut Permutation) -> (r: Result<(), Error>)
        requires
            iv.inner@.len() < usize::MAX,
        ensures
            r is Ok <==> old(out).permu@.len() == iv.inner@.len() + 1,
            r is Ok ==> final(out).permu@ == rim_decode(iv.inner@) && is_permutation(
                final(out).permu@) && final(out).permu@.len() == old(out).permu@.len(),
            r is Err ==> *final(out) == *old(out) && r matches Err(Error::LengthError),
    {
        let permu_length = out.permu.len();
        if permu_length != iv.inner.len() + 1 {
            return Err(Error::LengthError);
        }
        out.permu.clear();
        out.permu.push(0);
        proof {
            assert(out.permu@ =~= rim_decode(iv.inner@.take(0)));
        }
        for e in 1..permu_length
            invariant
                permu_length == iv.inner@.len() + 1,
                out.permu@ == rim_decode(iv.inner@.take(e - 1)),
                out.permu@.len() == e,
        {
            proof {
                lemma_rim_decode_is_permutation(iv.inner@.take(e - 1));
            }
            let index_raw = iv.inner[e - 1];
            let index = if index_raw > out.permu.len() {
                out.permu.len()
            } else {
                index_raw
            };
            out.permu.insert(index, e);
            proof {
                let tk = iv.inner@.take(e as int);
                assert(tk.drop_last() =~= iv.inner@.take(e - 1));
                assert(tk.last() == iv.inner@[e - 1]);
                assert(out.permu@ == rim_decode(tk));
            }
        }
        proof {
            assert(iv.inner@.take(iv.inner@.len() as int) =~= iv.inner@);
            lemma_rim_decode_is_permutation(iv.inner@);
        }
        Ok(())
    }

    /// Transforms a given permutation into its insertion-vector (RIM)
    /// representation: from the largest element down to `1`, the index of
    /// the element is recorded and the element removed.  The permutation
    /// must be one entry longer than the output; otherwise `LengthError`
    /// is returned.
    pub fn from_permu(permu: &Permutation, out: &mut Rim) -> (r: Result<(), Error>)
        requires
            old(out).inner@.len() < usize::MAX,
            permu.permu@.len() == old(out).inner@.len() + 1 ==> is_permutation(permu.permu@),
        ensures
            r is Ok <==> permu.permu@.len() == old(out).inner@.len() + 1,
            r is Ok ==> final(out).inner@ == rim_encode(permu.permu@) && rim_in_range(
                final(out).inner@) && final(out).inner@.len() == old(out).inner@.len(),
            r is Err ==> *final(out) == *old(out) && r matches Err(Error::LengthError),
    {
        let length = permu.permu.len();
        if length != out.inner.len() + 1 {
            return Err(Error::LengthError);
        }
        let ghost p = permu.permu@;
        let mut copy: Vec<usize> = crate::copy_vec(&permu.permu);
        proof {
            lemma_permutation_bounds(p);
            lemma_keep_lt_props(p, length as int);
            assert(copy@ == keep_lt(p, length as int));
            assert(rim_encode(copy@) + out.inner@.subrange((length - 1) as int, (length - 1) as int)
                =~= rim_encode(copy@));
        }
        let mut t: usize = length - 1;
        while t >= 1
            invariant
                is_permutation(p),
                p == permu.permu@,
                p.len() == length,
                length >= 1,
                t <= length - 1,
                out.inner@.len() + 1 == length,
                copy@ == keep_lt(p, t as int + 1),
                copy@.len() == t + 1,
                rim_encode(p) == rim_encode(copy@) + out.inner@.subrange(
                    t as int, (length - 1) as int),
            decreases t,
        {
            proof {
                lemma_permutation_bounds(p);
                lemma_keep_lt_props(p, t as int + 1);
                lemma_keep_lt_len_perm(p, t as int + 1);
                assert(p.contains(t));
                assert(copy@.contains(t));
            }
            let ghost cw = choose|k: int| 0 <= k < copy@.len() && copy@[k] == t;
            let mut idx: usize = 0;
            while copy[idx] != t
                invariant
                    0 <= idx <= cw,
                    cw < copy@.len(),
                    copy@[cw] == t,
                    copy@.len() <= usize::MAX,
                decreases cw - idx,
            {
                idx = idx + 1;
            }
            let ghost copy_before = copy@;
            out.inner.set(t - 1, idx);
            copy.remove(idx);
            proof {
                // The recorded index is the unique position of `t`, which
                // the specification's `index_of` also picks.
                assert(copy_before.no_duplicates());
                assert(copy_before.contains((copy_before.len() - 1) as usize)) by {
                    assert(copy_before.contains(t));
                }
                let i0 = copy_before.index_of((copy_before.len() - 1) as usize);
                assert(0 <= i0 < copy_before.len() && copy_before[i0] == t) by {
                    let k = choose|k: int|
                        0 <= k < copy_before.len() && copy_before[k] == (copy_before.len() - 1)
                            as usize;
                    assert(copy_before[k] == t);
                }
                assert(i0 == idx as int);
                assert(rim_encode(copy_before) == rim_encode(copy_before.remove(i0)) + seq![
                    i0 as usize]);
                // Removing `t` keeps exactly the entries below `t`.
                assert forall|k: int| 0 <= k < copy_before.len() implies (copy_before[k] as int)
                    <= t as int by {
                    assert(copy_before.contains(copy_before[k]));
                }
                lemma_keep_lt_remove_value(copy_before, t as int, idx as int);
                lemma_keep_lt_compose(p, t as int + 1, t as int);
                assert(copy@ == keep_lt(p, t as int));
                lemma_keep_lt_len_perm(p, t as int);
                // The output prefix from `t - 1` now carries this index.
                assert(out.inner@.subrange(t - 1, (length - 1) as int) =~= seq![idx]
                    + out.inner@.subrange(t as int, (length - 1) as int));
                assert((rim_encode(copy@) + seq![idx as usize]) + out.inner@.subrange(
                    t as int, (length - 1) as int) =~= rim_encode(copy@) + out.inner@.subrange(
                    t - 1, (length - 1) as int));
            }
            t = t - 1;
        }
        proof {
            assert(copy@.len() == 1);
            assert(rim_encode(copy@) =~= Seq::<usize>::empty());
            assert(out.inner@.subrange(0, (length - 1) as int) =~= out.inner@);
            assert(Seq::<usize>::empty() + out.inner@ =~= out.inner@);
            assert(out.inner@ == rim_encode(p));
            lemma_rim_round_trip(p);
        }
        Ok(())
    }
}

/// Population of `Rim` vectors.
#[derive(Debug, Clone, PartialEq)]
pub struct RimPopulation {
    pub population: Vec<Rim>,
    pub size: usize,
}

impl RimPopulation {
    /// The members of the population as plain sequences.
    pub open spec fn rows(&self) -> Seq<Seq<usize>> {
        self.population@.map_values(|x: Rim| x.inner@)
    }

    /// The length of the member vectors, read off the first member.
    pub open spec fn vlen(&self) -> nat {
        if self.population@.len() == 0 {
            0
        } else {
            self.population@[0].inner@.len()
        }
    }

    /// Well-formed: the stored size matches the member count and every
    /// member has the same length.
    pub open spec fn wf(&self) -> bool {
        &&& self.size == self.population@.len()
        &&& forall|k: int|
            0 <= k < self.population@.len() ==> (#[trigger] self.population@[k].inner@.len())
                == self.vlen()
    }

    /// Creates a `RimPopulation` from the given matrix, whose rows must
    /// all have one length; otherwise `LengthError` is returned.
    pub fn from_vec(vec: &Vec<Vec<usize>>) -> (r: Result<RimPopulation, Error>)
        requires
            vec@.len() >= 1,
        ensures
            r is Ok <==> (forall|k: int|
                0 <= k < vec@.len() ==> (#[trigger] vec@[k]@.len()) == vec@[0]@.len()),
            r matches Ok(p) ==> p.wf() && p.size == vec@.len() && p.population@.len()
                == vec@.len() && (forall|k: int|
                0 <= k < vec@.len() ==> (#[trigger] p.rows()[k]) == vec@[k]@),
            r is Err ==> r matches Err(Error::LengthError),
    {
        let mut pop: Vec<Rim> = Vec::new();
        let len: usize = vec[0].len();
        let n = vec.len();
        for k in 0..n
            invariant
                n == vec@.len(),
                len == vec@[0]@.len(),
                pop@.len() == k,
                forall|t: int| 0 <= t < k ==> (#[trigger] pop@[t].inner@) == vec@[t]@,
                forall|t: int| 0 <= t < k ==> (#[trigger] vec@[t]@.len()) == len,
        {
            if vec[k].len() == len {
                pop.push(Rim::from_vec(crate::copy_vec(&vec[k])));
            } else {
                return Err(Error::LengthError);
            }
        }
        Ok(RimPopulation { population: pop, size: n })
    }

    /// Creates a `RimPopulation` of zero-valued `Rim` vectors of the size
    /// and length given.
    pub fn zeros(size: usize, length: usize) -> (r: RimPopulation)
        ensures
            r.wf(),
            r.size == size,
            r.population@.len() == size,
            size > 0 ==> r.vlen() == length,
            forall|k: int| 0 <= k < size ==> (#[trigger] r.rows()[k]).len() == length,
            forall|k: int, j: int|
                0 <= k < size && 0 <= j < length ==> r.rows()[k][j] == 0usize,
    {
        let mut population: Vec<Rim> = Vec::new();
        for s in 0..size
            invariant
                population@.len() == s,
                forall|k: int| 0 <= k < s ==> (#[trigger] population@[k].inner@).len() == length,
                forall|k: int, j: int|
                    0 <= k < s && 0 <= j < length ==> population@[k].inner@[j] == 0usize,
        {
            population.push(Rim::zeros(length));
        }
        RimPopulation { population, size }
    }

    /// Fills the given `PermuPopulation` with the permutation
    /// representation of each `Rim` vector, position by position.  The
    /// populations must have one size and compatible member lengths;
    /// otherwise `LengthError` is returned.
    pub fn to_permus(&self, permu_pop: &mut PermuPopulation) -> (r: Result<(), Error>)
        requires
            self.wf(),
            old(permu_pop).wf(),
            self.size == old(permu_pop).size ==> (self.size >= 1 && self.vlen() < usize::MAX),
        ensures
            r is Ok <==> (self.size == old(permu_pop).size && old(permu_pop).vlen() == self.vlen()
                + 1),
            r is Ok ==> final(permu_pop).wf() && final(permu_pop).size == old(permu_pop).size
                && final(permu_pop).population@.len() == old(permu_pop).population@.len() && (
            forall|k: int|
                0 <= k < self.size ==> (#[trigger] final(permu_pop).rows()[k]) == rim_decode(
                    self.rows()[k]) && is_permutation(final(permu_pop).rows()[k])),
            r is Err ==> *final(permu_pop) == *old(permu_pop) && r matches Err(Error::LengthError),
    {
        if permu_pop.size != self.size {
            return Err(Error::LengthError);
        }
        if permu_pop.population[0].permu.len() != self.population[0].inner.len() + 1 {
            return Err(Error::LengthError);
        }
        let s = self.size;
        for i in 0..s
            invariant
                self.wf(),
                s == self.size,
                self.size == permu_pop.size,
                permu_pop.population@.len() == s,
                permu_pop.population@.len() == old(permu_pop).population@.len(),
                permu_pop.size == old(permu_pop).size,
                old(permu_pop).vlen() == self.vlen() + 1,
                self.vlen() < usize::MAX,
                forall|k: int|
                    0 <= k < permu_pop.population@.len() ==> (
                    #[trigger] permu_pop.population@[k].permu@.len()) == self.vlen() + 1,
                forall|k: int|
                    0 <= k < i ==> (#[trigger] permu_pop.rows()[k]) == rim_decode(self.rows()[k])
                        && is_permutation(permu_pop.rows()[k]),
        {
            let ghost pp0 = *permu_pop;
            proof {
                assert(self.rows()[i as int] == self.population@[i as int].inner@);
            }
            let mut tmp = Permutation { permu: crate::copy_vec(&permu_pop.population[i].permu) };
            proof {
                assert(tmp.permu@ == permu_pop.population@[i as int].permu@);
                assert(tmp.permu@.len() == self.vlen() + 1);
            }
            match Rim::to_permu(&self.population[i], &mut tmp) {
                Ok(()) => {
                    let ghost t = tmp.permu@;
                    permu_pop.population.set(i, tmp);
                    proof {
                        assert(permu_pop.rows()[i as int] == t);
                        assert forall|k: int| 0 <= k < i + 1 implies (#[trigger] permu_pop.rows()[
                            k]) == rim_decode(self.rows()[k]) && is_permutation(
                            permu_pop.rows()[k]) by {
                            if k < i {
                                assert(pp0.rows()[k] == rim_decode(self.rows()[k])
                                    && is_permutation(pp0.rows()[k]));
                                assert(pp0.rows()[k] == pp0.population@[k].permu@);
                                assert(permu_pop.population@[k] == pp0.population@[k]);
                                assert(permu_pop.rows()[k] == permu_pop.population@[k].permu@);
                            } else {
                                assert(permu_pop.rows()[k] == t);
                                assert(self.rows()[k] == self.population@[k].inner@);
                            }
                        }
                    }
                },
                Err(_) => {
                    proof {
                        assert(false);
                    }
                    return Err(Error::LengthError);
                },
            }
        }
        proof {
            assert(permu_pop.wf());
        }
        Ok(())
    }

    /// Fills this `RimPopulation` with the RIM representation of each
    /// permutation of the given `PermuPopulation`, position by position.
    /// The populations must have one size and compatible member lengths;
    /// otherwise `LengthError` is returned.
    pub fn from_permus(permu_pop: &PermuPopulation, rim_pop: &mut RimPopulation) -> (r: Result<
        (),
        Error,
    >)
        requires
            permu_pop.wf(),
            old(rim_pop).wf(),
            permu_pop.size == old(rim_pop).size ==> (permu_pop.size >= 1 && old(rim_pop).vlen()
                < usize::MAX),
            (permu_pop.size == old(rim_pop).size && permu_pop.vlen() == old(rim_pop).vlen() + 1)
                ==> forall|k: int|
                0 <= k < permu_pop.size ==> is_permutation(#[trigger] permu_pop.rows()[k]),
        ensures
            r is Ok <==> (permu_pop.size == old(rim_pop).size && permu_pop.vlen() == old(
                rim_pop).vlen() + 1),
            r is Ok ==> final(rim_pop).wf() && final(rim_pop).size == old(rim_pop).size && final(
                rim_pop).population@.len() == old(rim_pop).population@.len() && (forall|k: int|
                0 <= k < permu_pop.size ==> (#[trigger] final(rim_pop).rows()[k]) == rim_encode(
                    permu_pop.rows()[k])),
            r is Err ==> *final(rim_pop) == *old(rim_pop) && r matches Err(Error::LengthError),
    {
        if permu_pop.size != rim_pop.size {
            return Err(Error::LengthError);
        }
        if permu_pop.population[0].permu.len() != rim_pop.population[0].inner.len() + 1 {
            return Err(Error::LengthError);
        }
        let s = permu_pop.size;
        for i in 0..s
            invariant
                permu_pop.wf(),
                s == permu_pop.size,
                permu_pop.size == rim_pop.size,
                rim_pop.population@.len() == s,
                rim_pop.population@.len() == old(rim_pop).population@.len(),
                rim_pop.size == old(rim_pop).size,
                permu_pop.vlen() == old(rim_pop).vlen() + 1,
                old(rim_pop).vlen() < usize::MAX,
                forall|k: int|
                    0 <= k < s ==> is_permutation(#[trigger] permu_pop.rows()[k]),
                forall|k: int|
                    0 <= k < rim_pop.population@.len() ==> (
                    #[trigger] rim_pop.population@[k].inner@.len()) == old(rim_pop).vlen(),
                forall|k: int|
                    0 <= k < i ==> (#[trigger] rim_pop.rows()[k]) == rim_encode(
                        permu_pop.rows()[k]),
        {
            let ghost rp0 = *rim_pop;
            proof {
                assert(permu_pop.rows()[i as int] == permu_pop.population@[i as int].permu@);
                assert(permu_pop.population@[i as int].permu@.len() == permu_pop.vlen());
            }
            let mut tmp = Rim { inner: crate::copy_vec(&rim_pop.population[i].inner) };
            proof {
                assert(tmp.inner@ == rim_pop.population@[i as int].inner@);
            }
            match Rim::from_permu(&permu_pop.population[i], &mut tmp) {
                Ok(()) => {
                    let ghost t = tmp.inner@;
                    rim_pop.population.set(i, tmp);
                    proof {
                        assert(rim_pop.rows()[i as int] == t);
                        assert forall|k: int| 0 <= k < i + 1 implies (#[trigger] rim_pop.rows()[
                            k]) == rim_encode(permu_pop.rows()[k]) by {
                            if k < i {
                                assert(rp0.rows()[k] == rim_encode(permu_pop.rows()[k]));
                                assert(rp0.rows()[k] == rp0.population@[k].inner@);
                                assert(rim_pop.population@[k] == rp0.population@[k]);
                                assert(rim_pop.rows()[k] == rim_pop.population@[k].inner@);
                            } else {
                                assert(rim_pop.rows()[k] == t);
                                assert(permu_pop.rows()[k] == permu_pop.population@[k].permu@);
                            }
                        }
                    }
                },
                Err(_) => {
                    proof {
                        assert(false);
                    }
                    return Err(Error::LengthError);
                },
            }
        }
        proof {
            assert(rim_pop.wf());
        }
        Ok(())
    }
}


impl Population for RimPopulation {
    open spec fn learn_pre(&self) -> bool {
        &&& self.wf()
        &&& self.size >= 1
        &&& self.vlen() < usize::MAX
        &&& forall|k: int, j: int|
            0 <= k < self.rows().len() && 0 <= j < self.vlen() ==> (#[trigger] self.rows()[k][j])
                < self.vlen() + 1
    }

    open spec fn learned(&self, d: Distribution) -> bool {
        &&& d is RimDistribution
        &&& !soften_of(d)
        &&& learned_matrix(matrix_of(d), self.rows(), self.vlen(), self.vlen() + 1)
    }

    open spec fn sample_pre(&self, d: Distribution) -> bool {
        &&& self.wf()
        &&& (d is RimDistribution ==> self.size >= 1)
        &&& ((d is RimDistribution && matrix_of(d).len() == self.vlen()) ==> {
            let m = matrix_of(d);
            &&& self.vlen() < usize::MAX
            &&& matrix_shape(m, self.vlen() as int, (self.vlen() + 1) as int)
            &&& forall|j: int|
                0 <= j < m.len() ==> seq_sum(#[trigger] m[j]) + m[j].len() <= usize::MAX
            &&& soften_of(d) ==> forall|j: int| 0 <= j < m.len() ==> seq_sum(#[trigger] m[j]) >= 1
        })
    }

    open spec fn sample_post(
        pre: Self,
        d0: Distribution,
        post: Self,
        d1: Distribution,
        r: Result<(), Error>,
    ) -> bool {
        &&& ((r matches Err(e) && e is IncorrectDistrType) <==> !(d0 is RimDistribution))
        &&& ((r matches Err(e) && e is LengthError) <==> (d0 is RimDistribution
            && matrix_of(d0).len() != pre.vlen()))
        &&& (r is Err ==> post == pre && d1 == d0)
        &&& (r is Ok <==> (d0 is RimDistribution && matrix_of(d0).len() == pre.vlen()))
        &&& (r is Ok ==> {
            &&& d1 is RimDistribution
            &&& soften_of(d1)
            &&& matrix_of(d1) == (if soften_of(d0) {
                matrix_of(d0)
            } else {
                smooth_rim(matrix_of(d0))
            })
            &&& post.size == pre.size
            &&& post.population@.len() == pre.population@.len()
            &&& post.wf()
            &&& post.vlen() == pre.vlen()
            &&& forall|k: int, i: int|
                0 <= k < post.population@.len() && 0 <= i < pre.vlen() ==> (
                #[trigger] post.rows()[k][i]) < pre.vlen() + 1 && matrix_of(d1)[i][post.rows()[
                    k][i] as int] >= 1
        })
    }

    /// Learns the per-position value counts of this population; the value
    /// axis has one more cell than a member has positions.
    fn learn(&self) -> (d: Distribution) {
        let m = self.population[0].inner.len();
        let width = m + 1;
        let s = self.size;
        let mut distr: Vec<Vec<usize>> = Vec::new();
        for j in 0..m
            invariant
                self.learn_pre(),
                m == self.vlen(),
                width == m + 1,
                s == self.size,
                distr@.len() == j,
                forall|t: int| 0 <= t < j ==> (#[trigger] distr@[t]@).len() == width,
                forall|t: int, v: usize|
                    0 <= t < j && v < width ==> (#[trigger] distr@[t]@[v as int]) == col_count(
                        self.rows(), t, v),
        {
            let mut row: Vec<usize> = crate::zeros_vec(width);
            proof {
                assert(self.rows().take(0) =~= Seq::<Seq<usize>>::empty());
            }
            for i in 0..s
                invariant
                    self.learn_pre(),
                    j < m,
                    m == self.vlen(),
                    width == m + 1,
                    s == self.size,
                    s == self.rows().len(),
                    s == self.population@.len(),
                    row@.len() == width,
                    forall|v: usize|
                        v < width ==> (#[trigger] row@[v as int]) == col_count(
                            self.rows().take(i as int), j as int, v),
            {
                let e = self.population[i].inner[j];
                let ghost before = row@;
                proof {
                    assert(self.rows()[i as int] == self.population@[i as int].inner@);
                    assert(self.rows()[i as int][j as int] < self.vlen() + 1);
                    crate::lemma_col_count_le(self.rows().take(i as int), j as int, e);
                    assert(self.rows().take(i + 1).drop_last() =~= self.rows().take(i as int));
                    assert(self.rows().take(i + 1).last() == self.rows()[i as int]);
                }
                let cur = row[e];
                row.set(e, cur + 1);
                proof {
                    assert forall|v: usize| v < width implies (#[trigger] row@[v as int])
                        == col_count(self.rows().take(i + 1), j as int, v) by {
                        if v == e {
                            assert(row@[v as int] == before[v as int] + 1);
                        } else {
                            assert(row@[v as int] == before[v as int]);
                        }
                    }
                }
            }
            proof {
                assert(self.rows().take(s as int) =~= self.rows());
            }
            distr.push(row);
        }
        proof {
            assert(matrix_shape(rows_of(distr), self.vlen() as int, (self.vlen() + 1) as int));
        }
        Distribution::RimDistribution(distr, false)
    }

    /// Fills this population with vectors sampled from `distr`, visiting
    /// the positions of each member in a fresh random order; every drawn
    /// value has a positive cell in the softened matrix.
    fn sample(&mut self, distr: &mut Distribution) -> (r: Result<(), Error>) {
        let tag_ok = match &*distr {
            Distribution::RimDistribution(_, _) => true,
            _ => false,
        };
        if !tag_ok {
            return Err(Error::IncorrectDistrType);
        }
        let length = self.population[0].inner.len();
        let (mat0, soft): (Vec<Vec<usize>>, bool) = match &*distr {
            Distribution::RimDistribution(d, s) => {
                if d.len() != length {
                    return Err(Error::LengthError);
                }
                (crate::copy_matrix(d), *s)
            },
            _ => {
                proof {
                    assert(false);
                }
                (Vec::new(), false)
            },
        };
        proof {
            assert(rows_of(mat0) == matrix_of(*old(distr)));
            assert(matrix_of(*old(distr)).len() == old(self).vlen());
            assert forall|j: int| 0 <= j < mat0@.len() implies seq_sum(#[trigger] mat0@[j]@)
                + mat0@[j]@.len() <= usize::MAX by {
                assert(mat0@[j]@ == rows_of(mat0)[j]);
                assert(seq_sum(matrix_of(*old(distr))[j]) + matrix_of(*old(distr))[j].len()
                    <= usize::MAX);
            }
        }
        let mat1: Vec<Vec<usize>> = if !soft {
            crate::smooth_rim_exec(&mat0)
        } else {
            mat0
        };
        let ghost m1 = rows_of(mat1);
        let width = length + 1;
        proof {
            assert(matrix_shape(m1, length as int, width as int));
            assert forall|j: int| 0 <= j < m1.len() implies 1 <= seq_sum(#[trigger] m1[j])
                && seq_sum(m1[j]) <= usize::MAX by {
                assert(m1[j] == mat1@[j]@);
                if !soft {
                    assert(mat1@[j]@[0] >= 1);
                    crate::sampling::lemma_seq_sum_elem_le(m1[j], 0);
                    crate::sampling::lemma_seq_sum_nonneg(m1[j]);
                } else {
                    assert(m1[j] == matrix_of(*old(distr))[j]);
                }
            }
        }
        let mask: Vec<bool> = crate::false_vec(width);
        let s = self.size;
        for out_i in 0..s
            invariant
                s == self.size,
                self.population@.len() == s,
                length == old(self).vlen(),
                forall|k: int|
                    0 <= k < s ==> (#[trigger] self.population@[k].inner@.len()) == length,
                m1 == rows_of(mat1),
                width == length + 1,
                matrix_shape(m1, length as int, width as int),
                mask@.len() == width,
                forall|i: int| 0 <= i < width ==> !mask@[i],
                forall|j: int|
                    0 <= j < m1.len() ==> 1 <= seq_sum(#[trigger] m1[j]) && seq_sum(m1[j])
                        <= usize::MAX,
                forall|k: int, i: int|
                    0 <= k < out_i && 0 <= i < length ==> (#[trigger] self.rows()[k][i]) < width
                        && m1[i][self.rows()[k][i] as int] >= 1,
        {
            let order = Permutation::random(length);
            proof {
                lemma_permutation_bounds(order.permu@);
            }
            let mut indiv: Vec<usize> = crate::zeros_vec(length);
            for k in 0..length
                invariant
                    order.permu@.len() == length,
                    order.permu@.no_duplicates(),
                    is_permutation(order.permu@),
                    forall|t: int| 0 <= t < length ==> (#[trigger] order.permu@[t]) < length,
                    indiv@.len() == length,
                    m1 == rows_of(mat1),
                    width == length + 1,
                    matrix_shape(m1, length as int, width as int),
                    mask@.len() == width,
                    forall|i: int| 0 <= i < width ==> !mask@[i],
                    forall|j: int|
                        0 <= j < m1.len() ==> 1 <= seq_sum(#[trigger] m1[j]) && seq_sum(m1[j])
                            <= usize::MAX,
                    forall|t: int|
                        0 <= t < k ==> (#[trigger] indiv@[order.permu@[t] as int]) < width && m1[
                            order.permu@[t] as int][indiv@[order.permu@[t] as int] as int] >= 1,
            {
                let pos = order.permu[k];
                proof {
                    assert(m1[pos as int] == mat1@[pos as int]@);
                    assert(masked_weights(m1[pos as int], mask@) =~= m1[pos as int]);
                }
                let idx = crate::sampling::weighted_pick(&mat1[pos], &mask);
                let ghost indiv0 = indiv@;
                indiv.set(pos, idx);
                proof {
                    assert forall|t: int| 0 <= t < k + 1 implies (#[trigger] indiv@[
                        order.permu@[t] as int]) < width && m1[order.permu@[t] as int][indiv@[
                        order.permu@[t] as int] as int] >= 1 by {
                        if t < k {
                            assert(order.permu@[t] != order.permu@[k as int]);
                            assert(indiv@[order.permu@[t] as int] == indiv0[
                                order.permu@[t] as int]);
                        } else {
                            assert(indiv@[order.permu@[t] as int] == idx);
                        }
                    }
                }
            }
            proof {
                assert forall|i: int| 0 <= i < length implies (#[trigger] indiv@[i]) < width
                    && m1[i][indiv@[i] as int] >= 1 by {
                    assert(order.permu@.contains(i as usize));
                    let t = choose|t: int|
                        0 <= t < order.permu@.len() && order.permu@[t] == i as usize;
                    assert(indiv@[order.permu@[t] as int] < width);
                    assert(m1[order.permu@[t] as int][indiv@[order.permu@[t] as int] as int]
                        >= 1);
                }
            }
            let ghost sp0 = *self;
            let ghost iv = indiv@;
            self.population.set(out_i, Rim { inner: indiv });
            proof {
                assert forall|k: int, i: int| 0 <= k < out_i + 1 && 0 <= i < length implies (
                #[trigger] self.rows()[k][i]) < width && m1[i][self.rows()[k][i] as int] >= 1 by {
                    if k < out_i {
                        assert(sp0.rows()[k][i] < width && m1[i][sp0.rows()[k][i] as int] >= 1);
                        assert(sp0.rows()[k] == sp0.population@[k].inner@);
                        assert(self.population@[k] == sp0.population@[k]);
                        assert(self.rows()[k] == self.population@[k].inner@);
                    } else {
                        assert(self.rows()[k] == iv);
                    }
                }
            }
        }
        *distr = Distribution::RimDistribution(mat1, true);
        proof {
            assert(self.wf());
            assert forall|k: int, i: int|
                0 <= k < self.population@.len() && 0 <= i < old(self).vlen() implies (
            #[trigger] self.rows()[k][i]) < old(self).vlen() + 1 && matrix_of(*distr)[i][
                self.rows()[k][i] as int] >= 1 by {
                assert(self.rows()[k] == self.population@[k].inner@);
            }
        }
        Ok(())
    }
}

} // verus!
