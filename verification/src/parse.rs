//! Whitespace-delimited integer text: the byte-level model of problem
//! instance files, and verified readers for lines, tokens and numbers.

use vstd::prelude::*;

verus! {

use crate::errors::Error;

/// ASCII whitespace, as Rust's whitespace splitting sees it.
pub open spec fn is_ws(b: u8) -> bool {
    b == 32 || (9 <= b && b <= 13)
}

/// The position of the first newline byte at or after `from`, or the end.
pub open spec fn next_nl(s: Seq<u8>, from: int) -> int
    decreases s.len() - from,
{
    if from >= s.len() {
        s.len() as int
    } else if s[from] == 10 {
        from
    } else {
        next_nl(s, from + 1)
    }
}

/// The start position of line `i`: each newline byte ends a line, and every
/// line after the end of the text is empty.
pub open spec fn line_start(s: Seq<u8>, i: nat) -> int
    decreases i,
{
    if i == 0 {
        0
    } else {
        let e = next_nl(s, line_start(s, (i - 1) as nat));
        if e < s.len() {
            e + 1
        } else {
            s.len() as int
        }
    }
}

/// The end of the whitespace-free run starting at `from`, within `[from, to)`.
pub open spec fn token_end_in(s: Seq<u8>, from: int, to: int) -> int
    decreases to - from,
{
    if from >= to || is_ws(s[from]) {
        from
    } else {
        token_end_in(s, from + 1, to)
    }
}

/// The whitespace-separated tokens within the window `[from, to)`.
pub open spec fn tokens_in(s: Seq<u8>, from: int, to: int) -> Seq<Seq<u8>>
    decreases to - from,
{
    if from >= to {
        Seq::empty()
    } else if is_ws(s[from]) {
        tokens_in(s, from + 1, to)
    } else {
        let e0 = token_end_in(s, from, to);
        let e = if from < e0 && e0 <= to {
            e0
        } else {
            from + 1
        };
        seq![s.subrange(from, e)] + tokens_in(s, e, to)
    }
}

pub open spec fn is_digit(b: u8) -> bool {
    48 <= b && b <= 57
}

/// The value of a run of decimal digits.
pub open spec fn dec_val(t: Seq<u8>) -> nat
    decreases t.len(),
{
    if t.len() == 0 {
        0
    } else {
        dec_val(t.drop_last()) * 10 + (if is_digit(t.last()) {
            (t.last() - 48) as nat
        } else {
            0
        })
    }
}

pub open spec fn all_digits(t: Seq<u8>) -> bool {
    forall|i: int| 0 <= i < t.len() ==> is_digit(t[i])
}

/// The digits of a token, allowing one leading plus sign.
pub open spec fn digits_part(t: Seq<u8>) -> Seq<u8> {
    if t.len() > 0 && t[0] == 43 {
        t.drop_first()
    } else {
        t
    }
}

/// Whether a token reads as a `usize`: at least one digit, digits only
/// after an optional leading plus sign, and a value in range.
pub open spec fn parses_usize(t: Seq<u8>) -> bool {
    let d = digits_part(t);
    d.len() > 0 && all_digits(d) && dec_val(d) <= usize::MAX
}

/// The numeric value of a token that reads as a `usize`.
pub open spec fn usize_val(t: Seq<u8>) -> nat {
    dec_val(digits_part(t))
}

/// The tokens of line `li`.
pub open spec fn line_tokens(s: Seq<u8>, li: nat) -> Seq<Seq<u8>> {
    tokens_in(s, line_start(s, li), next_nl(s, line_start(s, li)))
}

/// Line `li` holds exactly `n_elems` tokens, every one a number.
pub open spec fn line_ok(s: Seq<u8>, li: nat, n_elems: int) -> bool {
    &&& line_tokens(s, li).len() == n_elems
    &&& forall|j: int| 0 <= j < line_tokens(s, li).len() ==> parses_usize(
        #[trigger] line_tokens(s, li)[j])
}

/// The numbers held by line `li`.
pub open spec fn line_vals(s: Seq<u8>, li: nat) -> Seq<usize> {
    Seq::new(line_tokens(s, li).len(), |j: int| usize_val(line_tokens(s, li)[j]) as usize)
}

/// The numbers of the tokens that read as numbers, the others skipped.
pub open spec fn lenient_vals(toks: Seq<Seq<u8>>) -> Seq<usize>
    decreases toks.len(),
{
    if toks.len() == 0 {
        Seq::empty()
    } else {
        lenient_vals(toks.drop_last()) + (if parses_usize(toks.last()) {
            seq![usize_val(toks.last()) as usize]
        } else {
            Seq::empty()
        })
    }
}

pub proof fn lemma_next_nl_bounds(s: Seq<u8>, from: int)
    requires
        0 <= from <= s.len(),
    ensures
        from <= next_nl(s, from) <= s.len(),
        next_nl(s, from) < s.len() ==> s[next_nl(s, from)] == 10,
        forall|k: int| from <= k < next_nl(s, from) ==> s[k] != 10,
    decreases s.len() - from,
{
    if from < s.len() && s[from] != 10 {
        lemma_next_nl_bounds(s, from + 1);
    }
}

pub proof fn lemma_line_start_bounds(s: Seq<u8>, i: nat)
    ensures
        0 <= line_start(s, i) <= s.len(),
    decreases i,
{
    if i > 0 {
        lemma_line_start_bounds(s, (i - 1) as nat);
        lemma_next_nl_bounds(s, line_start(s, (i - 1) as nat));
    }
}

pub proof fn lemma_token_end_bounds(s: Seq<u8>, from: int, to: int)
    requires
        0 <= from <= to <= s.len(),
    ensures
        from <= token_end_in(s, from, to) <= to,
        forall|k: int| from <= k < token_end_in(s, from, to) ==> !is_ws(s[k]),
        token_end_in(s, from, to) < to ==> is_ws(s[token_end_in(s, from, to)]),
    decreases to - from,
{
    if from < to && !is_ws(s[from]) {
        lemma_token_end_bounds(s, from + 1, to);
    }
}

/// Appending one digit multiplies the value by ten and adds the digit, and
/// a digit run's value never falls when the run grows.
pub proof fn lemma_dec_val_take(t: Seq<u8>, k: int)
    requires
        0 <= k < t.len(),
    ensures
        dec_val(t.take(k + 1)) == dec_val(t.take(k)) * 10 + (if is_digit(t[k]) {
            (t[k] - 48) as nat
        } else {
            0
        }),
{
    assert(t.take(k + 1).drop_last() =~= t.take(k));
    assert(t.take(k + 1).last() == t[k]);
}

pub proof fn lemma_dec_val_take_le(t: Seq<u8>, k: int)
    requires
        0 <= k <= t.len(),
    ensures
        dec_val(t.take(k)) <= dec_val(t),
    decreases t.len() - k,
{
    if k == t.len() {
        assert(t.take(k) =~= t);
    } else {
        lemma_dec_val_take(t, k);
        lemma_dec_val_take_le(t, k + 1);
    }
}

fn ws_byte(b: u8) -> (r: bool)
    ensures
        r == is_ws(b),
{
    b == 32 || (b >= 9 && b <= 13)
}

/// Advances past whitespace within `[from, to)`; the tokens of the window
/// are unchanged.
fn skip_ws_to(bytes: &[u8], from: usize, to: usize) -> (p: usize)
    requires
        from <= to <= bytes@.len(),
    ensures
        from <= p <= to,
        tokens_in(bytes@, from as int, to as int) == tokens_in(bytes@, p as int, to as int),
        p < to ==> !is_ws(bytes@[p as int]),
{
    let mut p = from;
    while p < to && ws_byte(bytes[p])
        invariant
            from <= p <= to,
            to <= bytes@.len(),
            tokens_in(bytes@, from as int, to as int) == tokens_in(bytes@, p as int, to as int),
        decreases to - p,
    {
        p = p + 1;
    }
    p
}

/// Finds the end of the token starting at `from`.
fn token_end_exec(bytes: &[u8], from: usize, to: usize) -> (e: usize)
    requires
        from <= to <= bytes@.len(),
    ensures
        e == token_end_in(bytes@, from as int, to as int),
        from <= e <= to,
{
    let mut p = from;
    while p < to && !ws_byte(bytes[p])
        invariant
            from <= p <= to,
            to <= bytes@.len(),
            token_end_in(bytes@, from as int, to as int) == token_end_in(
                bytes@, p as int, to as int),
        decreases to - p,
    {
        p = p + 1;
    }
    p
}

/// Finds the end of the line starting at or after `from`: the position of
/// the next newline byte, or the end of the text.
pub(crate) fn find_line_end(bytes: &[u8], from: usize) -> (e: usize)
    requires
        from <= bytes@.len(),
    ensures
        e == next_nl(bytes@, from as int),
        from <= e <= bytes@.len(),
{
    let n = bytes.len();
    let mut p = from;
    while p < n && bytes[p] != 10
        invariant
            from <= p <= n,
            n == bytes@.len(),
            next_nl(bytes@, from as int) == next_nl(bytes@, p as int),
        decreases n - p,
    {
        p = p + 1;
    }
    p
}

/// Reads the number written by the token `[from, to)`; a token that is not
/// a number in range is rejected with `ParseError`.
fn parse_token(bytes: &[u8], from: usize, to: usize) -> (r: Result<usize, Error>)
    requires
        from < to <= bytes@.len(),
    ensures
        r is Ok <==> parses_usize(bytes@.subrange(from as int, to as int)),
        r matches Ok(v) ==> v == usize_val(bytes@.subrange(from as int, to as int)),
        r is Err ==> r matches Err(Error::ParseError),
{
    let ghost tok = bytes@.subrange(from as int, to as int);
    let ghost d = digits_part(tok);
    let start: usize = if bytes[from] == 43 {
        from + 1
    } else {
        from
    };
    proof {
        assert(d =~= bytes@.subrange(start as int, to as int));
    }
    if start == to {
        return Err(Error::ParseError);
    }
    let mut v: usize = 0;
    let mut i: usize = start;
    while i < to
        invariant
            from <= start <= i <= to,
            to <= bytes@.len(),
            d == digits_part(bytes@.subrange(from as int, to as int)),
            d == bytes@.subrange(start as int, to as int),
            d.len() == to - start,
            forall|k: int| 0 <= k < i - start ==> is_digit(d[k]),
            v == dec_val(d.take(i - start)),
        decreases to - i,
    {
        let b = bytes[i];
        if b < 48 || b > 57 {
            proof {
                assert(d[i - start] == b);
                assert(!all_digits(d));
            }
            return Err(Error::ParseError);
        }
        let dig = (b - 48) as usize;
        proof {
            lemma_dec_val_take(d, i - start);
        }
        if v > (usize::MAX - dig) / 10 {
            proof {
                assert(dec_val(d.take(i - start + 1)) > usize::MAX);
                lemma_dec_val_take_le(d, i - start + 1);
            }
            return Err(Error::ParseError);
        }
        v = v * 10 + dig;
        i = i + 1;
    }
    proof {
        assert(d.take(to - start) =~= d);
    }
    Ok(v)
}

/// Reads all the numbers of the window `[from, to)`: one value per token,
/// in order; any token that is not a number is rejected with `ParseError`.
pub(crate) fn parse_line_numbers(bytes: &[u8], from: usize, to: usize) -> (r: Result<
    Vec<usize>,
    Error,
>)
    requires
        from <= to <= bytes@.len(),
    ensures
        r is Ok <==> (forall|j: int|
            0 <= j < tokens_in(bytes@, from as int, to as int).len() ==> parses_usize(
                #[trigger] tokens_in(bytes@, from as int, to as int)[j])),
        r matches Ok(v) ==> v@.len() == tokens_in(bytes@, from as int, to as int).len() && (
        forall|j: int|
            0 <= j < v@.len() ==> v@[j] == usize_val(
                #[trigger] tokens_in(bytes@, from as int, to as int)[j])),
        r is Err ==> r matches Err(Error::ParseError),
{
    let ghost toks = tokens_in(bytes@, from as int, to as int);
    let mut vals: Vec<usize> = Vec::new();
    let mut p = skip_ws_to(bytes, from, to);
    while p < to
        invariant
            p <= to,
            to <= bytes@.len(),
            toks == tokens_in(bytes@, from as int, to as int),
            tokens_in(bytes@, p as int, to as int) == toks.skip(vals@.len() as int),
            vals@.len() <= toks.len(),
            p < to ==> !is_ws(bytes@[p as int]),
            forall|j: int|
                0 <= j < vals@.len() ==> parses_usize(#[trigger] toks[j]) && vals@[j] == usize_val(
                    toks[j]),
        decreases to - p,
    {
        let e = token_end_exec(bytes, p, to);
        proof {
            lemma_token_end_bounds(bytes@, p as int, to as int);
            let k = vals@.len() as int;
            assert(tokens_in(bytes@, p as int, to as int) == seq![bytes@.subrange(
                p as int, e as int)] + tokens_in(bytes@, e as int, to as int));
            assert(toks.skip(k)[0] == toks[k]);
            assert(toks[k] == bytes@.subrange(p as int, e as int));
            assert(toks.skip(k).drop_first() =~= toks.skip(k + 1));
            assert(tokens_in(bytes@, e as int, to as int) =~= toks.skip(k + 1));
        }
        match parse_token(bytes, p, e) {
            Ok(v) => {
                vals.push(v);
            },
            Err(_) => {
                proof {
                    assert(!parses_usize(toks[vals@.len() as int]));
                }
                return Err(Error::ParseError);
            },
        }
        p = skip_ws_to(bytes, e, to);
    }
    proof {
        assert(tokens_in(bytes@, p as int, to as int) =~= Seq::<Seq<u8>>::empty());
        assert(toks.skip(vals@.len() as int).len() == 0);
        assert(vals@.len() == toks.len());
    }
    Ok(vals)
}

/// Reads the numbers of the window `[from, to)`, skipping any token that
/// is not a number.
pub(crate) fn parse_line_lenient(bytes: &[u8], from: usize, to: usize) -> (r: Vec<usize>)
    requires
        from <= to <= bytes@.len(),
    ensures
        r@ == lenient_vals(tokens_in(bytes@, from as int, to as int)),
{
    let ghost toks = tokens_in(bytes@, from as int, to as int);
    let mut vals: Vec<usize> = Vec::new();
    let ghost mut seen: int = 0;
    let mut p = skip_ws_to(bytes, from, to);
    while p < to
        invariant
            p <= to,
            to <= bytes@.len(),
            toks == tokens_in(bytes@, from as int, to as int),
            0 <= seen <= toks.len(),
            tokens_in(bytes@, p as int, to as int) == toks.skip(seen),
            p < to ==> !is_ws(bytes@[p as int]),
            vals@ == lenient_vals(toks.take(seen)),
        decreases to - p,
    {
        let e = token_end_exec(bytes, p, to);
        proof {
            lemma_token_end_bounds(bytes@, p as int, to as int);
            assert(tokens_in(bytes@, p as int, to as int) == seq![bytes@.subrange(
                p as int, e as int)] + tokens_in(bytes@, e as int, to as int));
            assert(toks.skip(seen)[0] == toks[seen]);
            assert(toks[seen] == bytes@.subrange(p as int, e as int));
            assert(toks.skip(seen).drop_first() =~= toks.skip(seen + 1));
            assert(tokens_in(bytes@, e as int, to as int) =~= toks.skip(seen + 1));
            assert(toks.take(seen + 1).drop_last() =~= toks.take(seen));
            assert(toks.take(seen + 1).last() == toks[seen]);
        }
        match parse_token(bytes, p, e) {
            Ok(v) => {
                vals.push(v);
                proof {
                    assert(vals@ =~= lenient_vals(toks.take(seen + 1)));
                }
            },
            Err(_) => {
                proof {
                    assert(vals@ =~= lenient_vals(toks.take(seen + 1)));
                }
            },
        }
        proof {
            seen = seen + 1;
        }
        p = skip_ws_to(bytes, e, to);
    }
    proof {
        assert(toks.skip(seen).len() == 0);
        assert(seen == toks.len());
        assert(toks.take(seen) =~= toks);
    }
    vals
}

/// Reads `n_lines` consecutive lines of `n_elems` numbers each, starting
/// at line `li` (whose start is `pos`); returns the matrix and the
/// position of the line after it.  A line with a token that is not a
/// number, or with the wrong number of tokens, is rejected with
/// `ParseError`.
pub(crate) fn parse_matrix(
    bytes: &[u8],
    pos: usize,
    n_lines: usize,
    n_elems: usize,
    Ghost(li): Ghost<nat>,
) -> (r: Result<(Vec<Vec<usize>>, usize), Error>)
    requires
        pos as int == line_start(bytes@, li),
    ensures
        r is Ok <==> (forall|i: nat|
            i < n_lines ==> #[trigger] line_ok(bytes@, (li + i) as nat, n_elems as int)),
        r matches Ok(t) ==> t.1 as int == line_start(bytes@, (li + n_lines) as nat)
            && t.0@.len() == n_lines && (forall|i: int|
            0 <= i < n_lines ==> (#[trigger] t.0@[i]@) == line_vals(bytes@, (li + i) as nat)),
        r is Err ==> r matches Err(Error::ParseError),
{
    let mut m: Vec<Vec<usize>> = Vec::new();
    let mut p = pos;
    proof {
        lemma_line_start_bounds(bytes@, li);
    }
    for i in 0..n_lines
        invariant
            p as int == line_start(bytes@, (li + i) as nat),
            p <= bytes@.len(),
            m@.len() == i,
            forall|t: nat| t < i ==> #[trigger] line_ok(bytes@, (li + t) as nat, n_elems as int),
            forall|t: int|
                0 <= t < i ==> (#[trigger] m@[t]@) == line_vals(bytes@, (li + t) as nat),
    {
        let e = find_line_end(bytes, p);
        proof {
            lemma_next_nl_bounds(bytes@, p as int);
        }
        let row = match parse_line_numbers(bytes, p, e) {
            Ok(v) => v,
            Err(_) => {
                proof {
                    assert(!line_ok(bytes@, (li + i) as nat, n_elems as int));
                }
                return Err(Error::ParseError);
            },
        };
        if row.len() != n_elems {
            proof {
                assert(!line_ok(bytes@, (li + i) as nat, n_elems as int));
            }
            return Err(Error::ParseError);
        }
        proof {
            assert(line_ok(bytes@, (li + i) as nat, n_elems as int));
            assert(row@ =~= line_vals(bytes@, (li + i) as nat));
        }
        m.push(row);
        let n = bytes.len();
        p = if e < n {
            e + 1
        } else {
            e
        };
        proof {
            assert(p as int == line_start(bytes@, (li + i + 1) as nat));
        }
    }
    Ok((m, p))
}

} // verus!
