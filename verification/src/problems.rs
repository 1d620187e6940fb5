//! Permutation-based problem definitions: the quadratic assignment problem
//! (QAP), the permutation flowshop scheduling problem (PFSP) and the linear
//! ordering problem (LOP), with their instance text formats and fitness
//! functions.

use vstd::prelude::*;

verus! {

use vstd::arithmetic::mul::lemma_mul_nonnegative;
use vstd::string::StringSliceAdditionalSpecFns;
use crate::errors::Error;
use crate::permutation::PermuPopulation;
use crate::parse::{
    line_ok, line_tokens, line_vals, lenient_vals, line_start, parses_usize, usize_val,
    find_line_end, parse_line_numbers, parse_line_lenient, parse_matrix, lemma_line_start_bounds,
};
use crate::{matrix_shape, rows_of};

/// Contains all problem types defined in this crate; the type of an
/// instance is read off the extension in its file name.
pub enum ProblemType {
    Qap,
    Pfsp,
    Lop,
}

/// The position of the first `t` byte at or after `from`, or the end.
pub open spec fn find_byte(s: Seq<u8>, from: int, t: u8) -> int
    decreases s.len() - from,
{
    if from >= s.len() {
        s.len() as int
    } else if s[from] == t {
        from
    } else {
        find_byte(s, from + 1, t)
    }
}

/// The bytes between the first dot of a path and the following dot or end:
/// the extension chunk that names the problem type.
pub open spec fn ext_chunk(b: Seq<u8>) -> Seq<u8> {
    let d1 = find_byte(b, 0, 46);
    let d2 = find_byte(b, d1 + 1, 46);
    b.subrange(d1 + 1, d2)
}

/// Whether the path holds any dot at all.
pub open spec fn has_ext(b: Seq<u8>) -> bool {
    find_byte(b, 0, 46) < b.len()
}

impl ProblemType {
    /// Reads the problem type from the extension of an instance path: the
    /// chunk after the first dot must be `dat` (QAP), `fsp` (PFSP) or
    /// `lop` (LOP); any other path is rejected with `ParseError`.
    pub fn from_path(path: &str) -> (r: Result<ProblemType, Error>)
        ensures
            r matches Ok(t) ==> has_ext(path.spec_bytes()),
            (r matches Ok(t) && t is Qap) <==> (has_ext(path.spec_bytes()) && ext_chunk(
                path.spec_bytes()) == seq![100u8, 97u8, 116u8]),
            (r matches Ok(t) && t is Pfsp) <==> (has_ext(path.spec_bytes()) && ext_chunk(
                path.spec_bytes()) == seq![102u8, 115u8, 112u8]),
            (r matches Ok(t) && t is Lop) <==> (has_ext(path.spec_bytes()) && ext_chunk(
                path.spec_bytes()) == seq![108u8, 111u8, 112u8]),
            r is Err ==> r matches Err(Error::ParseError),
    {
        let b = path.as_bytes();
        let ghost bs = path.spec_bytes();
        let n = b.len();
        let mut i: usize = 0;
        while i < n && b[i] != 46
            invariant
                i <= n,
                n == bs.len(),
                b@ == bs,
                find_byte(bs, 0, 46) == find_byte(bs, i as int, 46),
            decreases n - i,
        {
            i = i + 1;
        }
        let d1 = i;
        if d1 == n {
            return Err(Error::ParseError);
        }
        let mut j: usize = d1 + 1;
        while j < n && b[j] != 46
            invariant
                d1 < j <= n || j == d1 + 1,
                j <= n,
                n == bs.len(),
                b@ == bs,
                find_byte(bs, d1 + 1, 46) == find_byte(bs, j as int, 46),
            decreases n - j,
        {
            j = j + 1;
        }
        let d2 = j;
        proof {
            assert(ext_chunk(bs) == bs.subrange(d1 + 1, d2 as int));
        }
        if d2 - d1 - 1 != 3 {
            proof {
                assert(ext_chunk(bs).len() != 3);
            }
            return Err(Error::ParseError);
        }
        let c0 = b[d1 + 1];
        let c1 = b[d1 + 2];
        let c2 = b[d1 + 3];
        proof {
            assert(ext_chunk(bs)[0] == c0);
            assert(ext_chunk(bs)[1] == c1);
            assert(ext_chunk(bs)[2] == c2);
        }
        if c0 == 100 && c1 == 97 && c2 == 116 {
            proof {
                assert(ext_chunk(bs) =~= seq![100u8, 97u8, 116u8]);
            }
            Ok(ProblemType::Qap)
        } else if c0 == 102 && c1 == 115 && c2 == 112 {
            proof {
                assert(ext_chunk(bs) =~= seq![102u8, 115u8, 112u8]);
            }
            Ok(ProblemType::Pfsp)
        } else if c0 == 108 && c1 == 111 && c2 == 112 {
            proof {
                assert(ext_chunk(bs) =~= seq![108u8, 111u8, 112u8]);
            }
            Ok(ProblemType::Lop)
        } else {
            proof {
                if ext_chunk(bs) == seq![100u8, 97u8, 116u8] {
                    assert(c0 == 100 && c1 == 97 && c2 == 116);
                }
                if ext_chunk(bs) == seq![102u8, 115u8, 112u8] {
                    assert(c0 == 102 && c1 == 115 && c2 == 112);
                }
                if ext_chunk(bs) == seq![108u8, 111u8, 112u8] {
                    assert(c0 == 108 && c1 == 111 && c2 == 112);
                }
            }
            Err(Error::ParseError)
        }
    }
}

/// This enum contains the problem definitions: the instance size and its
/// loaded matrices.
pub enum ProblemInstance {
    /// Quadratic Assignment Problem (QAP): size, distances, flows.
    Qap(usize, Vec<Vec<usize>>, Vec<Vec<usize>>),
    /// Permutation Flowshop Scheduling Problem (PFSP): jobs, machines,
    /// processing times.
    Pfsp(usize, usize, Vec<Vec<usize>>),
    /// Linear Ordering Problem (LOP): size, matrix.
    Lop(usize, Vec<Vec<usize>>),
}

/// The size of an instance: the length its solutions must have.
pub open spec fn inst_size(inst: ProblemInstance) -> int {
    match inst {
        ProblemInstance::Qap(n, _, _) => n as int,
        ProblemInstance::Pfsp(n, _, _) => n as int,
        ProblemInstance::Lop(n, _) => n as int,
    }
}

/// Shape invariant of a loaded instance: its matrices match its sizes.
pub open spec fn inst_wf(inst: ProblemInstance) -> bool {
    match inst {
        ProblemInstance::Qap(n, d, f) => matrix_shape(rows_of(d), n as int, n as int)
            && matrix_shape(rows_of(f), n as int, n as int),
        ProblemInstance::Pfsp(nj, nm, m) => matrix_shape(rows_of(m), nm as int, nj as int),
        ProblemInstance::Lop(n, m) => matrix_shape(rows_of(m), n as int, n as int),
    }
}

/// A size-header line: exactly one token, a number.
pub open spec fn size_header_ok(s: Seq<u8>, li: nat) -> bool {
    line_tokens(s, li).len() == 1 && parses_usize(line_tokens(s, li)[0])
}

/// The number held by a size-header line.
pub open spec fn header_val(s: Seq<u8>, li: nat) -> nat {
    usize_val(line_tokens(s, li)[0])
}

/// A QAP instance text: a size line, then two square matrices of that size.
pub open spec fn qap_ok(s: Seq<u8>) -> bool {
    &&& size_header_ok(s, 0)
    &&& forall|i: nat|
        i < header_val(s, 0) ==> #[trigger] line_ok(s, (1 + i) as nat, header_val(s, 0) as int)
    &&& forall|i: nat|
        i < header_val(s, 0) ==> #[trigger] line_ok(
            s, (1 + header_val(s, 0) + i) as nat, header_val(s, 0) as int)
}

/// The instance a QAP text denotes.
pub open spec fn qap_spec(s: Seq<u8>, inst: ProblemInstance) -> bool {
    inst matches ProblemInstance::Qap(n, d, f) && n as nat == header_val(s, 0) && rows_of(d)
        == Seq::new(n as nat, |i: int| line_vals(s, (1 + i) as nat)) && rows_of(f) == Seq::new(
        n as nat, |i: int| line_vals(s, (1 + n + i) as nat))
}

/// A LOP instance text: a size line, then one square matrix of that size.
pub open spec fn lop_ok(s: Seq<u8>) -> bool {
    &&& size_header_ok(s, 0)
    &&& forall|i: nat|
        i < header_val(s, 0) ==> #[trigger] line_ok(s, (1 + i) as nat, header_val(s, 0) as int)
}

/// The instance a LOP text denotes.
pub open spec fn lop_spec(s: Seq<u8>, inst: ProblemInstance) -> bool {
    inst matches ProblemInstance::Lop(n, m) && n as nat == header_val(s, 0) && rows_of(m)
        == Seq::new(n as nat, |i: int| line_vals(s, (1 + i) as nat))
}

/// The numbers found on the second line of a PFSP text: the first is the
/// job count, the second the machine count; tokens that are not numbers
/// are passed over.
pub open spec fn pfsp_header(s: Seq<u8>) -> Seq<usize> {
    lenient_vals(line_tokens(s, 1))
}

/// A PFSP instance text: an ignored line, a line holding the two sizes, an
/// ignored line, then a machines-by-jobs matrix.
pub open spec fn pfsp_ok(s: Seq<u8>) -> bool {
    &&& pfsp_header(s).len() >= 2
    &&& forall|i: nat|
        i < pfsp_header(s)[1] ==> #[trigger] line_ok(s, (3 + i) as nat, pfsp_header(s)[0] as int)
}

/// The instance a PFSP text denotes.
pub open spec fn pfsp_spec(s: Seq<u8>, inst: ProblemInstance) -> bool {
    inst matches ProblemInstance::Pfsp(nj, nm, m) && nj == pfsp_header(s)[0] && nm
        == pfsp_header(s)[1] && rows_of(m) == Seq::new(
        nm as nat, |i: int| line_vals(s, (3 + i) as nat))
}

impl ProblemInstance {
    /// Returns the size of the instance; all solutions must have this
    /// length.
    pub fn size(&self) -> (n: usize)
        ensures
            n as int == inst_size(*self),
    {
        match self {
            ProblemInstance::Qap(n, _, _) => *n,
            ProblemInstance::Pfsp(n, _, _) => *n,
            ProblemInstance::Lop(n, _) => *n,
        }
    }

    /// Reads a `ProblemInstance` of the given type from the text of an
    /// instance file; malformed text is rejected with `ParseError`.
    pub fn parse(ptype: ProblemType, bytes: &[u8]) -> (r: Result<ProblemInstance, Error>)
        ensures
            ptype is Qap ==> ((r is Ok <==> qap_ok(bytes@)) && (r matches Ok(inst) ==> qap_spec(
                bytes@, inst) && inst_wf(inst))),
            ptype is Pfsp ==> ((r is Ok <==> pfsp_ok(bytes@)) && (r matches Ok(inst)
                ==> pfsp_spec(bytes@, inst) && inst_wf(inst))),
            ptype is Lop ==> ((r is Ok <==> lop_ok(bytes@)) && (r matches Ok(inst) ==> lop_spec(
                bytes@, inst) && inst_wf(inst))),
            r is Err ==> r matches Err(Error::ParseError),
    {
        match ptype {
            ProblemType::Qap => Self::parse_qap(bytes),
            ProblemType::Pfsp => Self::parse_pfsp(bytes),
            ProblemType::Lop => Self::parse_lop(bytes),
        }
    }

    /// Reads one size-header line starting the text; returns the size and
    /// the start of the next line.
    fn parse_header(bytes: &[u8]) -> (r: Result<(usize, usize), Error>)
        ensures
            r is Ok <==> size_header_ok(bytes@, 0),
            r matches Ok(t) ==> t.0 as nat == header_val(bytes@, 0) && t.1 as int == line_start(
                bytes@, 1),
            r is Err ==> r matches Err(Error::ParseError),
    {
        let e0 = find_line_end(bytes, 0);
        let hdr = match parse_line_numbers(bytes, 0, e0) {
            Ok(v) => v,
            Err(_) => {
                return Err(Error::ParseError);
            },
        };
        if hdr.len() != 1 {
            return Err(Error::ParseError);
        }
        let n = bytes.len();
        let pos1 = if e0 < n {
            e0 + 1
        } else {
            e0
        };
        proof {
            assert(line_start(bytes@, 0) == 0);
            assert(pos1 as int == line_start(bytes@, 1));
        }
        Ok((hdr[0], pos1))
    }

    fn parse_qap(bytes: &[u8]) -> (r: Result<ProblemInstance, Error>)
        ensures
            r is Ok <==> qap_ok(bytes@),
            r matches Ok(inst) ==> qap_spec(bytes@, inst) && inst_wf(inst),
            r is Err ==> r matches Err(Error::ParseError),
    {
        let (size, pos1) = match Self::parse_header(bytes) {
            Ok(t) => t,
            Err(_) => {
                return Err(Error::ParseError);
            },
        };
        let (distance, pos2) = match parse_matrix(bytes, pos1, size, size, Ghost(1nat)) {
            Ok(t) => t,
            Err(_) => {
                return Err(Error::ParseError);
            },
        };
        let (flow, _pos3) = match parse_matrix(
            bytes, pos2, size, size, Ghost((1 + size) as nat)) {
            Ok(t) => t,
            Err(_) => {
                return Err(Error::ParseError);
            },
        };
        let inst = ProblemInstance::Qap(size, distance, flow);
        proof {
            assert(rows_of(distance) =~= Seq::new(
                size as nat, |i: int| line_vals(bytes@, (1 + i) as nat)));
            assert(rows_of(flow) =~= Seq::new(
                size as nat, |i: int| line_vals(bytes@, (1 + size + i) as nat)));
            assert forall|i: int| 0 <= i < size implies (#[trigger] rows_of(distance)[i]).len()
                == size by {
                assert(line_ok(bytes@, (1 + i) as nat, size as int));
            }
            assert forall|i: int| 0 <= i < size implies (#[trigger] rows_of(flow)[i]).len()
                == size by {
                assert(line_ok(bytes@, (1 + size + i) as nat, size as int));
            }
        }
        Ok(inst)
    }

    fn parse_lop(bytes: &[u8]) -> (r: Result<ProblemInstance, Error>)
        ensures
            r is Ok <==> lop_ok(bytes@),
            r matches Ok(inst) ==> lop_spec(bytes@, inst) && inst_wf(inst),
            r is Err ==> r matches Err(Error::ParseError),
    {
        let (size, pos1) = match Self::parse_header(bytes) {
            Ok(t) => t,
            Err(_) => {
                return Err(Error::ParseError);
            },
        };
        let (matrix, _pos2) = match parse_matrix(bytes, pos1, size, size, Ghost(1nat)) {
            Ok(t) => t,
            Err(_) => {
                return Err(Error::ParseError);
            },
        };
        let inst = ProblemInstance::Lop(size, matrix);
        proof {
            assert(rows_of(matrix) =~= Seq::new(
                size as nat, |i: int| line_vals(bytes@, (1 + i) as nat)));
            assert forall|i: int| 0 <= i < size implies (#[trigger] rows_of(matrix)[i]).len()
                == size by {
                assert(line_ok(bytes@, (1 + i) as nat, size as int));
            }
        }
        Ok(inst)
    }

    fn parse_pfsp(bytes: &[u8]) -> (r: Result<ProblemInstance, Error>)
        ensures
            r is Ok <==> pfsp_ok(bytes@),
            r matches Ok(inst) ==> pfsp_spec(bytes@, inst) && inst_wf(inst),
            r is Err ==> r matches Err(Error::ParseError),
    {
        let n = bytes.len();
        let e0 = find_line_end(bytes, 0);
        let pos1 = if e0 < n {
            e0 + 1
        } else {
            e0
        };
        proof {
            assert(line_start(bytes@, 0) == 0);
            assert(pos1 as int == line_start(bytes@, 1));
            lemma_line_start_bounds(bytes@, 1);
        }
        let e1 = find_line_end(bytes, pos1);
        let hdr = parse_line_lenient(bytes, pos1, e1);
        if hdr.len() < 2 {
            return Err(Error::ParseError);
        }
        let n_jobs = hdr[0];
        let n_machines = hdr[1];
        let pos2 = if e1 < n {
            e1 + 1
        } else {
            e1
        };
        proof {
            assert(pos2 as int == line_start(bytes@, 2));
            lemma_line_start_bounds(bytes@, 2);
        }
        let e2 = find_line_end(bytes, pos2);
        let pos3 = if e2 < n {
            e2 + 1
        } else {
            e2
        };
        proof {
            assert(pos3 as int == line_start(bytes@, 3));
        }
        let (matrix, _pos4) = match parse_matrix(bytes, pos3, n_machines, n_jobs, Ghost(3nat)) {
            Ok(t) => t,
            Err(_) => {
                return Err(Error::ParseError);
            },
        };
        let inst = ProblemInstance::Pfsp(n_jobs, n_machines, matrix);
        proof {
            assert(rows_of(matrix) =~= Seq::new(
                n_machines as nat, |i: int| line_vals(bytes@, (3 + i) as nat)));
            assert forall|i: int| 0 <= i < n_machines implies (
            #[trigger] rows_of(matrix)[i]).len() == n_jobs by {
                assert(line_ok(bytes@, (3 + i) as nat, n_jobs as int));
            }
        }
        Ok(inst)
    }
}

/// The sum of `f` over the integer range `[lo, hi)`.
pub open spec fn sum_range(lo: int, hi: int, f: spec_fn(int) -> int) -> int
    decreases hi - lo,
{
    if lo >= hi {
        0
    } else {
        sum_range(lo, hi - 1, f) + f(hi - 1)
    }
}

pub proof fn lemma_sum_range_nonneg(lo: int, hi: int, f: spec_fn(int) -> int)
    requires
        forall|i: int| lo <= i < hi ==> #[trigger] f(i) >= 0,
    ensures
        sum_range(lo, hi, f) >= 0,
    decreases hi - lo,
{
    if lo < hi {
        lemma_sum_range_nonneg(lo, hi - 1, f);
    }
}

/// With non-negative terms, a partial sum never exceeds the full sum.
pub proof fn lemma_sum_range_prefix_le(lo: int, mid: int, hi: int, f: spec_fn(int) -> int)
    requires
        lo <= mid <= hi,
        forall|i: int| mid <= i < hi ==> #[trigger] f(i) >= 0,
    ensures
        sum_range(lo, mid, f) <= sum_range(lo, hi, f),
    decreases hi - mid,
{
    if mid < hi {
        lemma_sum_range_prefix_le(lo, mid, hi - 1, f);
    }
}

/// One row's worth of QAP terms: distances against permuted flows.
pub open spec fn qap_inner(
    p: Seq<usize>,
    d: Seq<Seq<usize>>,
    f: Seq<Seq<usize>>,
    i: int,
) -> spec_fn(int) -> int {
    |j: int| d[i][j] * f[p[i] as int][p[j] as int]
}

pub open spec fn qap_outer(
    p: Seq<usize>,
    d: Seq<Seq<usize>>,
    f: Seq<Seq<usize>>,
) -> spec_fn(int) -> int {
    |i: int| sum_range(0, p.len() as int, qap_inner(p, d, f, i))
}

/// QAP fitness: the sum over all location pairs of distance times the flow
/// between the facilities the permutation assigns there.
pub open spec fn qap_fitness(p: Seq<usize>, d: Seq<Seq<usize>>, f: Seq<Seq<usize>>) -> int {
    sum_range(0, p.len() as int, qap_outer(p, d, f))
}

pub open spec fn lop_inner(p: Seq<usize>, m: Seq<Seq<usize>>, i: int) -> spec_fn(int) -> int {
    |j: int| m[p[i] as int][p[j] as int] as int
}

pub open spec fn lop_outer(p: Seq<usize>, m: Seq<Seq<usize>>) -> spec_fn(int) -> int {
    |i: int| sum_range(i + 1, p.len() as int, lop_inner(p, m, i))
}

/// LOP fitness: the sum of the matrix entries above the diagonal, under
/// the ordering the permutation gives.
pub open spec fn lop_fitness(p: Seq<usize>, m: Seq<Seq<usize>>) -> int {
    sum_range(0, p.len() as int, lop_outer(p, m))
}

pub open spec fn max2(a: int, b: int) -> int {
    if a >= b {
        a
    } else {
        b
    }
}

/// The classic PFSP completion-time recurrence: job `j` (in permutation
/// order) finishes on machine `m` after both its own previous machine and
/// the previous job on this machine, plus its processing time there.
pub open spec fn pfsp_c(p: Seq<usize>, mat: Seq<Seq<usize>>, j: int, m: int) -> int
    decreases j + 1, m + 1,
{
    if j < 0 || m < 0 {
        0
    } else {
        max2(pfsp_c(p, mat, j, m - 1), pfsp_c(p, mat, j - 1, m)) + mat[m][p[j] as int]
    }
}

pub open spec fn pfsp_term(p: Seq<usize>, mat: Seq<Seq<usize>>, nm: int) -> spec_fn(int) -> int {
    |j: int| pfsp_c(p, mat, j, nm - 1)
}

/// PFSP fitness: the total flow time, the sum over the jobs of their
/// completion time on the last machine.
pub open spec fn pfsp_fitness(p: Seq<usize>, mat: Seq<Seq<usize>>, nm: int) -> int {
    sum_range(0, p.len() as int, pfsp_term(p, mat, nm))
}

pub proof fn lemma_pfsp_c_nonneg(p: Seq<usize>, mat: Seq<Seq<usize>>, j: int, m: int)
    ensures
        pfsp_c(p, mat, j, m) >= 0,
    decreases j + 1, m + 1,
{
    if !(j < 0 || m < 0) {
        lemma_pfsp_c_nonneg(p, mat, j, m - 1);
        lemma_pfsp_c_nonneg(p, mat, j - 1, m);
    }
}

/// Completion times rise along the machine pipeline.
pub proof fn lemma_pfsp_c_mono(p: Seq<usize>, mat: Seq<Seq<usize>>, j: int, m1: int, m2: int)
    requires
        m1 <= m2,
    ensures
        pfsp_c(p, mat, j, m1) <= pfsp_c(p, mat, j, m2),
    decreases m2 - m1,
{
    if m1 < m2 {
        lemma_pfsp_c_mono(p, mat, j, m1, m2 - 1);
        if j >= 0 && m2 >= 0 {
            lemma_pfsp_c_nonneg(p, mat, j, m2 - 1);
            lemma_pfsp_c_nonneg(p, mat, j - 1, m2);
        } else {
            lemma_pfsp_c_nonneg(p, mat, j, m1);
        }
    }
}

/// The fitness an instance assigns to one solution.
pub open spec fn inst_fitness(inst: ProblemInstance, p: Seq<usize>) -> int {
    match inst {
        ProblemInstance::Qap(_, d, f) => qap_fitness(p, rows_of(d), rows_of(f)),
        ProblemInstance::Pfsp(_, nm, m) => pfsp_fitness(p, rows_of(m), nm as int),
        ProblemInstance::Lop(_, m) => lop_fitness(p, rows_of(m)),
    }
}

fn eval_qap(n: usize, dist: &Vec<Vec<usize>>, flow: &Vec<Vec<usize>>, perm: &Vec<usize>) -> (fit:
    usize)
    requires
        matrix_shape(rows_of(*dist), n as int, n as int),
        matrix_shape(rows_of(*flow), n as int, n as int),
        perm@.len() == n,
        forall|i: int| 0 <= i < n ==> (#[trigger] perm@[i]) < n,
        qap_fitness(perm@, rows_of(*dist), rows_of(*flow)) <= usize::MAX,
    ensures
        fit as int == qap_fitness(perm@, rows_of(*dist), rows_of(*flow)),
{
    let ghost p = perm@;
    let ghost dd = rows_of(*dist);
    let ghost ff = rows_of(*flow);
    let ghost outer = qap_outer(p, dd, ff);
    proof {
        assert forall|k: int, j: int| 0 <= k < n && 0 <= j < n implies #[trigger] qap_inner(
            p, dd, ff, k)(j) >= 0 by {
            lemma_mul_nonnegative(dd[k][j] as int, ff[p[k] as int][p[j] as int] as int);
        }
        assert forall|k: int| 0 <= k < n implies #[trigger] outer(k) >= 0 by {
            lemma_sum_range_nonneg(0, n as int, qap_inner(p, dd, ff, k));
        }
    }
    let mut fitness: usize = 0;
    for i in 0..n
        invariant
            p == perm@,
            dd == rows_of(*dist),
            ff == rows_of(*flow),
            outer == qap_outer(p, dd, ff),
            matrix_shape(dd, n as int, n as int),
            matrix_shape(ff, n as int, n as int),
            p.len() == n,
            forall|t: int| 0 <= t < n ==> (#[trigger] p[t]) < n,
            qap_fitness(p, dd, ff) <= usize::MAX,
            forall|k: int, j: int|
                0 <= k < n && 0 <= j < n ==> #[trigger] qap_inner(p, dd, ff, k)(j) >= 0,
            forall|k: int| 0 <= k < n ==> #[trigger] outer(k) >= 0,
            fitness as int == sum_range(0, i as int, outer),
    {
        let ghost inner = qap_inner(p, dd, ff, i as int);
        let mut inner_acc: usize = 0;
        for j in 0..n
            invariant
                p == perm@,
                dd == rows_of(*dist),
                ff == rows_of(*flow),
                outer == qap_outer(p, dd, ff),
                inner == qap_inner(p, dd, ff, i as int),
                matrix_shape(dd, n as int, n as int),
                matrix_shape(ff, n as int, n as int),
                p.len() == n,
                i < n,
                forall|t: int| 0 <= t < n ==> (#[trigger] p[t]) < n,
                qap_fitness(p, dd, ff) <= usize::MAX,
                forall|k: int, t: int|
                    0 <= k < n && 0 <= t < n ==> #[trigger] qap_inner(p, dd, ff, k)(t) >= 0,
                forall|k: int| 0 <= k < n ==> #[trigger] outer(k) >= 0,
                fitness as int == sum_range(0, i as int, outer),
                inner_acc as int == sum_range(0, j as int, inner),
        {
            let fact_a = perm[i];
            let fact_b = perm[j];
            let dist_ab = dist[i][j];
            let flow_ab = flow[fact_a][fact_b];
            proof {
                assert(dd[i as int] == dist@[i as int]@);
                assert(ff[fact_a as int] == flow@[fact_a as int]@);
                assert(inner(j as int) == dist_ab * flow_ab);
                assert(outer(i as int) == sum_range(0, n as int, inner));
                lemma_sum_range_prefix_le(0, j as int + 1, n as int, inner);
                lemma_sum_range_prefix_le(0, i as int + 1, n as int, outer);
                lemma_sum_range_nonneg(0, i as int, outer);
                lemma_sum_range_nonneg(0, j as int, inner);
                assert(sum_range(0, i as int + 1, outer) == sum_range(0, i as int, outer)
                    + outer(i as int));
                assert(fitness + inner_acc + dist_ab * flow_ab <= usize::MAX);
            }
            let prod = dist_ab * flow_ab;
            inner_acc = inner_acc + prod;
        }
        proof {
            assert(outer(i as int) == sum_range(0, n as int, inner));
            lemma_sum_range_prefix_le(0, i as int + 1, n as int, outer);
            lemma_sum_range_nonneg(0, i as int, outer);
        }
        fitness = fitness + inner_acc;
    }
    fitness
}

fn eval_lop(n: usize, mat: &Vec<Vec<usize>>, perm: &Vec<usize>) -> (fit: usize)
    requires
        matrix_shape(rows_of(*mat), n as int, n as int),
        perm@.len() == n,
        forall|i: int| 0 <= i < n ==> (#[trigger] perm@[i]) < n,
        lop_fitness(perm@, rows_of(*mat)) <= usize::MAX,
    ensures
        fit as int == lop_fitness(perm@, rows_of(*mat)),
{
    let ghost p = perm@;
    let ghost mm = rows_of(*mat);
    let ghost outer = lop_outer(p, mm);
    proof {
        assert forall|k: int, j: int| 0 <= k < n && 0 <= j < n implies #[trigger] lop_inner(
            p, mm, k)(j) >= 0 by {}
        assert forall|k: int| 0 <= k < n implies #[trigger] outer(k) >= 0 by {
            lemma_sum_range_nonneg(k + 1, n as int, lop_inner(p, mm, k));
        }
    }
    let mut fitness: usize = 0;
    for i in 0..n
        invariant
            p == perm@,
            mm == rows_of(*mat),
            outer == lop_outer(p, mm),
            matrix_shape(mm, n as int, n as int),
            p.len() == n,
            forall|t: int| 0 <= t < n ==> (#[trigger] p[t]) < n,
            lop_fitness(p, mm) <= usize::MAX,
            forall|k: int, t: int|
                0 <= k < n && 0 <= t < n ==> #[trigger] lop_inner(p, mm, k)(t) >= 0,
            forall|k: int| 0 <= k < n ==> #[trigger] outer(k) >= 0,
            fitness as int == sum_range(0, i as int, outer),
    {
        let ghost inner = lop_inner(p, mm, i as int);
        let mut inner_acc: usize = 0;
        let mut j = i + 1;
        while j < n
            invariant
                p == perm@,
                mm == rows_of(*mat),
                outer == lop_outer(p, mm),
                inner == lop_inner(p, mm, i as int),
                matrix_shape(mm, n as int, n as int),
                p.len() == n,
                i < n,
                i + 1 <= j <= n,
                forall|t: int| 0 <= t < n ==> (#[trigger] p[t]) < n,
                lop_fitness(p, mm) <= usize::MAX,
                forall|k: int, t: int|
                    0 <= k < n && 0 <= t < n ==> #[trigger] lop_inner(p, mm, k)(t) >= 0,
                forall|k: int| 0 <= k < n ==> #[trigger] outer(k) >= 0,
                fitness as int == sum_range(0, i as int, outer),
                inner_acc as int == sum_range(i as int + 1, j as int, inner),
            decreases n - j,
        {
            let elem1 = perm[i];
            let elem2 = perm[j];
            let entry = mat[elem1][elem2];
            proof {
                assert(mm[elem1 as int] == mat@[elem1 as int]@);
                assert(inner(j as int) == entry as int);
                assert(outer(i as int) == sum_range(i as int + 1, n as int, inner));
                lemma_sum_range_prefix_le(i as int + 1, j as int + 1, n as int, inner);
                lemma_sum_range_prefix_le(0, i as int + 1, n as int, outer);
                lemma_sum_range_nonneg(0, i as int, outer);
                lemma_sum_range_nonneg(i as int + 1, j as int, inner);
                assert(sum_range(0, i as int + 1, outer) == sum_range(0, i as int, outer)
                    + outer(i as int));
                assert(fitness + inner_acc + entry <= usize::MAX);
            }
            inner_acc = inner_acc + entry;
            j = j + 1;
        }
        proof {
            assert(outer(i as int) == sum_range(i as int + 1, n as int, inner));
            lemma_sum_range_prefix_le(0, i as int + 1, n as int, outer);
            lemma_sum_range_nonneg(0, i as int, outer);
        }
        fitness = fitness + inner_acc;
    }
    fitness
}

fn eval_pfsp(
    n_jobs: usize,
    n_machines: usize,
    mat: &Vec<Vec<usize>>,
    perm: &Vec<usize>,
) -> (fit: usize)
    requires
        matrix_shape(rows_of(*mat), n_machines as int, n_jobs as int),
        perm@.len() == n_jobs,
        forall|i: int| 0 <= i < n_jobs ==> (#[trigger] perm@[i]) < n_jobs,
        pfsp_fitness(perm@, rows_of(*mat), n_machines as int) <= usize::MAX,
    ensures
        fit as int == pfsp_fitness(perm@, rows_of(*mat), n_machines as int),
{
    let ghost p = perm@;
    let ghost mm = rows_of(*mat);
    let ghost term = pfsp_term(p, mm, n_machines as int);
    proof {
        assert forall|k: int| #[trigger] term(k) >= 0 by {
            lemma_pfsp_c_nonneg(p, mm, k, n_machines as int - 1);
        }
    }
    let mut tft: usize = 0;
    let mut b: Vec<usize> = crate::zeros_vec(n_machines);
    for job_i in 0..n_jobs
        invariant
            p == perm@,
            mm == rows_of(*mat),
            term == pfsp_term(p, mm, n_machines as int),
            matrix_shape(mm, n_machines as int, n_jobs as int),
            p.len() == n_jobs,
            forall|t: int| 0 <= t < n_jobs ==> (#[trigger] p[t]) < n_jobs,
            pfsp_fitness(p, mm, n_machines as int) <= usize::MAX,
            forall|k: int| #[trigger] term(k) >= 0,
            b@.len() == n_machines,
            forall|m: int| 0 <= m < n_machines ==> (#[trigger] b@[m]) as int == pfsp_c(
                p, mm, job_i as int - 1, m),
            tft as int == sum_range(0, job_i as int, term),
    {
        let mut pt: usize = 0;
        let job = perm[job_i];
        proof {
            assert(pfsp_c(p, mm, job_i as int, -1) == 0);
        }
        for machine in 0..n_machines
            invariant
                p == perm@,
                mm == rows_of(*mat),
                term == pfsp_term(p, mm, n_machines as int),
                matrix_shape(mm, n_machines as int, n_jobs as int),
                p.len() == n_jobs,
                job_i < n_jobs,
                job == p[job_i as int],
                job < n_jobs,
                forall|t: int| 0 <= t < n_jobs ==> (#[trigger] p[t]) < n_jobs,
                pfsp_fitness(p, mm, n_machines as int) <= usize::MAX,
                forall|k: int| #[trigger] term(k) >= 0,
                b@.len() == n_machines,
                forall|m: int| machine <= m < n_machines ==> (#[trigger] b@[m]) as int == pfsp_c(
                    p, mm, job_i as int - 1, m),
                forall|m: int| 0 <= m < machine ==> (#[trigger] b@[m]) as int == pfsp_c(
                    p, mm, job_i as int, m),
                pt as int == pfsp_c(p, mm, job_i as int, machine as int - 1),
                tft as int == sum_range(0, job_i as int, term),
        {
            proof {
                assert(mm[machine as int] == mat@[machine as int]@);
                lemma_pfsp_c_nonneg(p, mm, job_i as int, machine as int - 1);
                lemma_pfsp_c_nonneg(p, mm, job_i as int - 1, machine as int);
                lemma_pfsp_c_mono(p, mm, job_i as int, machine as int, n_machines as int - 1);
                assert(term(job_i as int) == pfsp_c(p, mm, job_i as int, n_machines as int - 1));
                lemma_sum_range_prefix_le(0, job_i as int + 1, n_jobs as int, term);
                lemma_sum_range_nonneg(0, job_i as int, term);
                assert(sum_range(0, job_i as int + 1, term) == sum_range(0, job_i as int, term)
                    + term(job_i as int));
                assert(pfsp_c(p, mm, job_i as int, machine as int) <= usize::MAX);
            }
            let entry = mat[machine][job];
            if job_i == 0 && machine == 0 {
                pt = entry;
            } else if job_i > 0 && machine == 0 {
                pt = b[machine] + entry;
            } else if job_i == 0 && machine > 0 {
                pt = b[machine - 1] + entry;
            } else {
                let other = b[machine];
                let prev = b[machine - 1];
                let base = if prev > other {
                    prev
                } else {
                    other
                };
                pt = base + entry;
            }
            b.set(machine, pt);
        }
        proof {
            assert(term(job_i as int) == pfsp_c(p, mm, job_i as int, n_machines as int - 1));
            lemma_sum_range_prefix_le(0, job_i as int + 1, n_jobs as int, term);
            lemma_sum_range_nonneg(0, job_i as int, term);
        }
        tft = tft + pt;
    }
    tft
}

impl ProblemInstance {
    /// Evaluates each member of the given `PermuPopulation` against this
    /// instance, storing the fitness values in the given vector; solutions
    /// whose length differs from the instance size are rejected with
    /// `LengthError`.
    pub fn evaluate(
        &self,
        solutions: &PermuPopulation,
        fitness_vec: &mut Vec<usize>,
    ) -> (r: Result<(), Error>)
        requires
            inst_wf(*self),
            solutions.wf(),
            solutions.size >= 1,
            old(fitness_vec)@.len() >= solutions.size,
            solutions.vlen() == inst_size(*self) ==> forall|k: int, i: int|
                0 <= k < solutions.rows().len() && 0 <= i < solutions.vlen() ==> (
                #[trigger] solutions.rows()[k][i]) < inst_size(*self),
            solutions.vlen() == inst_size(*self) ==> forall|k: int|
                0 <= k < solutions.rows().len() ==> inst_fitness(
                    *self, #[trigger] solutions.rows()[k]) <= usize::MAX,
        ensures
            r is Ok <==> solutions.vlen() == inst_size(*self),
            r is Ok ==> final(fitness_vec)@.len() == old(fitness_vec)@.len() && (forall|k: int|
                0 <= k < solutions.size ==> (#[trigger] final(fitness_vec)@[k]) as int
                    == inst_fitness(*self, solutions.rows()[k])) && (forall|k: int|
                solutions.size <= k < old(fitness_vec)@.len() ==> final(fitness_vec)@[k] == old(
                    fitness_vec)@[k]),
            r is Err ==> *final(fitness_vec) == *old(fitness_vec) && r matches Err(
                Error::LengthError),
    {
        let n = self.size();
        if solutions.population[0].permu.len() != n {
            return Err(Error::LengthError);
        }
        let s = solutions.size;
        for k in 0..s
            invariant
                inst_wf(*self),
                solutions.wf(),
                s == solutions.size,
                solutions.population@.len() == s,
                solutions.vlen() == inst_size(*self),
                n as int == inst_size(*self),
                fitness_vec@.len() == old(fitness_vec)@.len(),
                fitness_vec@.len() >= s,
                forall|t: int, i: int|
                    0 <= t < s && 0 <= i < n ==> (#[trigger] solutions.rows()[t][i]) < n,
                forall|t: int|
                    0 <= t < s ==> inst_fitness(*self, #[trigger] solutions.rows()[t])
                        <= usize::MAX,
                forall|t: int|
                    0 <= t < k ==> (#[trigger] fitness_vec@[t]) as int == inst_fitness(
                        *self, solutions.rows()[t]),
                forall|t: int|
                    s <= t < fitness_vec@.len() ==> #[trigger] fitness_vec@[t] == old(
                        fitness_vec)@[t],
        {
            proof {
                assert(solutions.rows()[k as int] == solutions.population@[k as int].permu@);
            }
            let member = &solutions.population[k].permu;
            let fit = match self {
                ProblemInstance::Qap(_, d, f) => eval_qap(n, d, f, member),
                ProblemInstance::Pfsp(_, nm, m) => eval_pfsp(n, *nm, m, member),
                ProblemInstance::Lop(_, m) => eval_lop(n, m, member),
            };
            fitness_vec.set(k, fit);
        }
        Ok(())
    }
}

} // verus!
