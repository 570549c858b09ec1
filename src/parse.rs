//! The text formats: a board (`N`, `C`, then `N * N` cells) and a move log
//! (`L`, then four numbers per move), as whitespace-separated tokens.
#![allow(non_snake_case)]
use vstd::prelude::*;

use vstd::string::StringSliceAdditionalSpecFns;

use crate::board::{Coord, Input, Output};

verus! {

/// ASCII whitespace: space, and tab through carriage return.
pub open spec fn is_space(b: u8) -> bool {
    b == 32 || (9 <= b <= 13)
}

/// The tokens of `s[i..]`, where `st <= i` starts the word being read (none
/// when `st == i`).
pub open spec fn tokens_from(s: Seq<u8>, i: int, st: int) -> Seq<Seq<u8>>
    decreases s.len() - i,
{
    if i >= s.len() {
        if st < i {
            seq![s.subrange(st, i)]
        } else {
            seq![]
        }
    } else if is_space(s[i]) {
        (if st < i {
            seq![s.subrange(st, i)]
        } else {
            seq![]
        }) + tokens_from(s, i + 1, i + 1)
    } else {
        tokens_from(s, i + 1, st)
    }
}

/// The maximal runs of non-space bytes of `s`, in order.
pub open spec fn tokens(s: Seq<u8>) -> Seq<Seq<u8>> {
    tokens_from(s, 0, 0)
}

pub open spec fn is_digit(b: u8) -> bool {
    48 <= b <= 57
}

pub open spec fn all_digits(s: Seq<u8>) -> bool {
    forall|i: int| 0 <= i < s.len() ==> is_digit(#[trigger] s[i])
}

/// The number that the decimal digits of `s` spell.
pub open spec fn digits_value(s: Seq<u8>) -> int
    decreases s.len(),
{
    if s.len() == 0 {
        0
    } else {
        digits_value(s.drop_last()) * 10 + (s.last() - 48)
    }
}

/// The value of at least one digit, or `None`.
pub open spec fn digits_of(s: Seq<u8>) -> Option<int> {
    if s.len() > 0 && all_digits(s) {
        Some(digits_value(s))
    } else {
        None
    }
}

/// An unsigned decimal: an optional `+`, then digits.
pub open spec fn unsigned_value(s: Seq<u8>) -> Option<int> {
    if s.len() > 0 && s[0] == 43 {
        digits_of(s.skip(1))
    } else {
        digits_of(s)
    }
}

/// A signed decimal: an optional `+` or `-`, then digits.
pub open spec fn signed_value(s: Seq<u8>) -> Option<int> {
    if s.len() > 0 && s[0] == 45 {
        match digits_of(s.skip(1)) {
            Some(v) => Some(-v),
            None => None,
        }
    } else {
        unsigned_value(s)
    }
}

/// The `usize` that a token spells, if it spells one.
pub open spec fn usize_of(s: Seq<u8>) -> Option<usize> {
    match unsigned_value(s) {
        Some(v) => if v <= usize::MAX {
            Some(v as usize)
        } else {
            None
        },
        None => None,
    }
}

/// The `isize` that a token spells, if it spells one.
pub open spec fn isize_of(s: Seq<u8>) -> Option<isize> {
    match signed_value(s) {
        Some(v) => if isize::MIN <= v <= isize::MAX {
            Some(v as isize)
        } else {
            None
        },
        None => None,
    }
}

proof fn lemma_digits_value_grows(s: Seq<u8>, k: int)
    requires
        all_digits(s),
        0 <= k <= s.len(),
    ensures
        0 <= digits_value(s.take(k)) <= digits_value(s),
    decreases s.len(),
{
    if k == s.len() {
        assert(s.take(k) =~= s);
        lemma_digits_value_nonneg(s);
    } else {
        lemma_digits_value_grows(s.drop_last(), k);
        assert(s.drop_last().take(k) =~= s.take(k));
        lemma_digits_value_nonneg(s.drop_last());
    }
}

proof fn lemma_digits_value_nonneg(s: Seq<u8>)
    requires
        all_digits(s),
    ensures
        0 <= digits_value(s),
    decreases s.len(),
{
    if s.len() > 0 {
        lemma_digits_value_nonneg(s.drop_last());
    }
}

/// `r` holds the start and end of each token of `s`, in order.
pub open spec fn spans(s: Seq<u8>, r: Seq<(usize, usize)>) -> bool {
    &&& r.len() == tokens(s).len()
    &&& forall|k: int| 0 <= k < r.len() ==> {
        &&& (#[trigger] r[k]).0 < r[k].1 <= s.len()
        &&& s.subrange(r[k].0 as int, r[k].1 as int) == tokens(s)[k]
    }
}

/// The token ranges of `b`: each pair is the start and end of one token.
pub fn split_tokens(b: &[u8]) -> (r: Vec<(usize, usize)>)
    ensures
        spans(b@, r@),
{
    let ghost s = b@;
    let mut r: Vec<(usize, usize)> = Vec::new();
    let mut st: usize = 0;
    let mut i: usize = 0;
    while i < b.len()
        invariant
            s == b@,
            st <= i <= b.len(),
            forall|k: int| 0 <= k < r.len() ==> #[trigger] r[k].0 < r[k].1 <= b.len(),
            r@.map_values(|p: (usize, usize)| s.subrange(p.0 as int, p.1 as int)) + tokens_from(s, i as int, st as int)
                == tokens(s),
        decreases b.len() - i,
    {
        let ghost before = r@.map_values(|p: (usize, usize)| s.subrange(p.0 as int, p.1 as int));
        if b[i] == 32 || (9 <= b[i] && b[i] <= 13) {
            if st < i {
                r.push((st, i));
                assert(forall|k: int| 0 <= k < r.len() ==> #[trigger] r[k].0 < r[k].1 <= b.len());
                assert(r@.map_values(|p: (usize, usize)| s.subrange(p.0 as int, p.1 as int)) =~= before + seq![s.subrange(st as int, i as int)]);
                assert(before + seq![s.subrange(st as int, i as int)] + tokens_from(s, i + 1, i + 1)
                    =~= before + (seq![s.subrange(st as int, i as int)] + tokens_from(s, i + 1, i + 1)));
            } else {
                assert(seq![] + tokens_from(s, i + 1, i + 1) =~= tokens_from(s, i + 1, i + 1));
            }
            st = i + 1;
        }
        i = i + 1;
    }
    if st < i {
        let ghost before = r@.map_values(|p: (usize, usize)| s.subrange(p.0 as int, p.1 as int));
        r.push((st, i));
        assert(r@.map_values(|p: (usize, usize)| s.subrange(p.0 as int, p.1 as int)) =~= before + seq![s.subrange(st as int, i as int)]);
    } else {
        assert(r@.map_values(|p: (usize, usize)| s.subrange(p.0 as int, p.1 as int)) + seq![] =~= r@.map_values(|p: (usize, usize)| s.subrange(p.0 as int, p.1 as int)));
    }
    let ghost m = r@.map_values(|p: (usize, usize)| s.subrange(p.0 as int, p.1 as int));
    assert(m =~= tokens(s));
    assert forall|k: int| 0 <= k < r.len() implies b@.subrange((#[trigger] r@[k]).0 as int, r@[k].1 as int) == tokens(b@)[k] by {
        assert(m[k] == s.subrange(r@[k].0 as int, r@[k].1 as int));
    }
    r
}

/// The value of the digits `b[st..en]` where there is at least one, all are
/// digits, and the value is at most `bound`; else `None`.
fn digits_at(b: &[u8], st: usize, en: usize, bound: u64) -> (r: Option<u64>)
    requires
        st <= en <= b.len(),
        9 <= bound,
    ensures
        match r {
            Some(x) => x <= bound && digits_of(b@.subrange(st as int, en as int)) == Some(x as int),
            None => match digits_of(b@.subrange(st as int, en as int)) {
                Some(v) => v > bound,
                None => true,
            },
        },
{
    let ghost s = b@.subrange(st as int, en as int);
    if st == en {
        return None;
    }
    let mut v: u64 = 0;
    let mut i: usize = st;
    while i < en
        invariant
            st <= i <= en <= b.len(),
            st < en,
            9 <= bound,
            s == b@.subrange(st as int, en as int),
            all_digits(s.take(i - st)),
            v == digits_value(s.take(i - st)),
            v <= bound,
        decreases en - i,
    {
        let c = b[i];
        assert(s[i - st] == c);
        if c < 48 || c > 57 {
            assert(!all_digits(s));
            return None;
        }
        let d = (c - 48) as u64;
        assert(s.take(i + 1 - st).drop_last() =~= s.take(i - st));
        assert(all_digits(s.take(i + 1 - st)));
        if v > (bound - d) / 10 {
            proof {
                assert(v * 10 + d > bound) by (nonlinear_arith)
                    requires
                        v > (bound - d) / 10,
                        d <= 9,
                        9 <= bound,
                ;
                if all_digits(s) {
                    lemma_digits_value_grows(s, i + 1 - st);
                }
            }
            return None;
        }
        assert(v * 10 + d <= bound) by (nonlinear_arith)
            requires
                v <= (bound - d) / 10,
                d <= 9,
                9 <= bound,
        ;
        v = v * 10 + d;
        i = i + 1;
    }
    assert(s.take(en - st) =~= s);
    Some(v)
}

/// The `usize` that the token `b[st..en]` spells, if it spells one.
pub fn parse_usize(b: &[u8], st: usize, en: usize) -> (r: Option<usize>)
    requires
        st <= en <= b.len(),
    ensures
        r == usize_of(b@.subrange(st as int, en as int)),
{
    let ghost s = b@.subrange(st as int, en as int);
    assert(st < en ==> s[0] == b@[st as int]);
    let mut from = st;
    if st < en && b[st] == 43 {
        from = st + 1;
        assert(s.skip(1) =~= b@.subrange(from as int, en as int));
    } else {
        assert(s =~= b@.subrange(from as int, en as int));
    }
    match digits_at(b, from, en, usize::MAX as u64) {
        Some(v) => Some(v as usize),
        None => None,
    }
}

/// The `isize` that the token `b[st..en]` spells, if it spells one.
pub fn parse_isize(b: &[u8], st: usize, en: usize) -> (r: Option<isize>)
    requires
        st <= en <= b.len(),
    ensures
        r == isize_of(b@.subrange(st as int, en as int)),
{
    let ghost s = b@.subrange(st as int, en as int);
    assert(st < en ==> s[0] == b@[st as int]);
    if st < en && b[st] == 45 {
        assert(s.skip(1) =~= b@.subrange(st + 1, en as int));
        match digits_at(b, st + 1, en, isize::MAX as u64 + 1) {
            Some(v) => if v == isize::MAX as u64 + 1 {
                Some(-isize::MAX - 1)
            } else {
                assert(v <= isize::MAX);
                Some(-(v as isize))
            },
            None => None,
        }
    } else {
        let mut from = st;
        if st < en && b[st] == 43 {
            from = st + 1;
            assert(s.skip(1) =~= b@.subrange(from as int, en as int));
        } else {
            assert(s =~= b@.subrange(from as int, en as int));
        }
        match digits_at(b, from, en, isize::MAX as u64) {
            Some(v) => Some(v as isize),
            None => None,
        }
    }
}

/// A move log text: a count `L`, then `4 * L` more numbers, all `usize`;
/// tokens after them are ignored.
pub open spec fn output_ok(ts: Seq<Seq<u8>>) -> bool {
    &&& ts.len() >= 1
    &&& usize_of(ts[0]) is Some
    &&& ts.len() >= 1 + 4 * usize_of(ts[0]).unwrap()
    &&& forall|k: int| 1 <= k < 1 + 4 * usize_of(ts[0]).unwrap() ==> #[trigger] usize_of(ts[k]) is Some
}

/// The number that token `k` spells.
pub open spec fn num(ts: Seq<Seq<u8>>, k: int) -> usize {
    usize_of(ts[k]).unwrap()
}

/// Move `i` of a move log text: origin row and column, then destination row
/// and column.
pub open spec fn move_at(ts: Seq<Seq<u8>>, i: int) -> (Coord, Coord) {
    (
        Coord { y: num(ts, 1 + 4 * i), x: num(ts, 2 + 4 * i) },
        Coord { y: num(ts, 3 + 4 * i), x: num(ts, 4 + 4 * i) },
    )
}

/// A board text: `N` and `C` as `usize`, then `N * N` cells as `isize`;
/// tokens after them are ignored.
pub open spec fn input_ok(ts: Seq<Seq<u8>>) -> bool {
    &&& ts.len() >= 2
    &&& usize_of(ts[0]) is Some
    &&& usize_of(ts[1]) is Some
    &&& ts.len() >= 2 + num(ts, 0) * num(ts, 0)
    &&& forall|k: int| 2 <= k < 2 + num(ts, 0) * num(ts, 0) ==> #[trigger] isize_of(ts[k]) is Some
}

/// The cells of a board text that `input_ok` accepts, row by row.
pub open spec fn grid_of(ts: Seq<Seq<u8>>) -> Seq<Seq<isize>> {
    let n = num(ts, 0) as int;
    Seq::new(n as nat, |y: int| Seq::new(n as nat, |x: int| isize_of(ts[2 + y * n + x]).unwrap()))
}

/// The moves of a move log text that `output_ok` accepts.
pub open spec fn moves_of(ts: Seq<Seq<u8>>) -> Seq<(Coord, Coord)> {
    Seq::new(num(ts, 0) as nat, |i: int| move_at(ts, i))
}

/// Reads a move log. `None` where the text is not one.
pub fn parse_output(f: &str) -> (r: Option<Output>)
    ensures
        match r {
            Some(o) => {
                let ts = tokens(f.spec_bytes());
                &&& output_ok(ts)
                &&& o.L == num(ts, 0)
                &&& o.wf()
                &&& forall|i: int| 0 <= i < o.L ==> #[trigger] o.actions@[i] == move_at(ts, i)
            },
            None => !output_ok(tokens(f.spec_bytes())),
        },
{
    let b = f.as_bytes();
    let ghost ts = tokens(b@);
    let toks = split_tokens(b);
    if toks.len() == 0 {
        return None;
    }
    let L = match parse_usize(b, toks[0].0, toks[0].1) {
        Some(v) => v,
        None => {
            return None;
        },
    };
    let mut actions: Vec<(Coord, Coord)> = Vec::new();
    let mut i: usize = 0;
    let mut k: usize = 1;
    while i < L
        invariant
            ts == tokens(b@),
            b@ == f.spec_bytes(),
            toks@.len() == ts.len(),
            spans(b@, toks@),
            ts.len() >= 1,
            usize_of(ts[0]) == Some(L),
            i <= L,
            k == 1 + 4 * i,
            k <= ts.len(),
            actions@.len() == i,
            forall|j: int| 1 <= j < k ==> #[trigger] usize_of(ts[j]) is Some,
            forall|j: int| 0 <= j < i ==> #[trigger] actions@[j] == move_at(ts, j),
        decreases L - i,
    {
        if toks.len() - k < 4 {
            return None;
        }
        let mut v: [usize; 4] = [0, 0, 0, 0];
        let mut j: usize = 0;
        while j < 4
            invariant
                0 <= j <= 4,
                k + 4 <= toks.len(),
                spans(b@, toks@),
                ts == tokens(b@),
                b@ == f.spec_bytes(),
                i < L,
                k == 1 + 4 * i,
                ts.len() >= 1,
                usize_of(ts[0]) == Some(L),
                toks@.len() == ts.len(),
                forall|q: int| 0 <= q < j ==> usize_of(ts[k + q]) == Some(#[trigger] v[q]),
            decreases 4 - j,
        {
            let t = toks[k + j];
            assert(toks@[k + j] == t);
            match parse_usize(b, t.0, t.1) {
                Some(x) => {
                    v[j] = x;
                },
                None => {
                    return None;
                },
            }
            j = j + 1;
        }
        actions.push((Coord { y: v[0], x: v[1] }, Coord { y: v[2], x: v[3] }));
        proof {
            assert(usize_of(ts[k + 0]) == Some(v[0]));
            assert(usize_of(ts[k + 1]) == Some(v[1]));
            assert(usize_of(ts[k + 2]) == Some(v[2]));
            assert(usize_of(ts[k + 3]) == Some(v[3]));
            assert forall|q: int| 1 <= q < k + 4 implies #[trigger] usize_of(ts[q]) is Some by {
                if q >= k {
                    assert(usize_of(ts[k + (q - k)]) == Some(v[q - k]));
                }
            }
        }
        i = i + 1;
        k = k + 4;
    }
    Some(Output { L, actions })
}

/// The number of moves in a move log text, or `None` where it is not one.
pub fn get_max_turn(output: &str) -> (r: Option<usize>)
    ensures
        r == (if output_ok(tokens(output.spec_bytes())) {
            Some(num(tokens(output.spec_bytes()), 0))
        } else {
            None
        }),
{
    match parse_output(output) {
        Some(o) => Some(o.L),
        None => None,
    }
}

/// Reads a board. `None` where the text is not one.
pub fn parse_input(f: &str) -> (r: Option<Input>)
    ensures
        match r {
            Some(inp) => {
                let ts = tokens(f.spec_bytes());
                &&& input_ok(ts)
                &&& inp.N == num(ts, 0)
                &&& inp.C == num(ts, 1)
                &&& inp.grid.len() == inp.N
                &&& forall|y: int| 0 <= y < inp.N ==> (#[trigger] inp.grid@[y])@.len() == inp.N
                &&& forall|y: int, x: int|
                    0 <= y < inp.N && 0 <= x < inp.N ==> #[trigger] inp.grid@[y]@[x] == isize_of(
                        ts[2 + y * inp.N + x],
                    ).unwrap()
            },
            None => !input_ok(tokens(f.spec_bytes())),
        },
{
    let b = f.as_bytes();
    let ghost ts = tokens(b@);
    let toks = split_tokens(b);
    if toks.len() < 2 {
        return None;
    }
    assert(toks@[0] == toks[0] && toks@[1] == toks[1]);
    let n = match parse_usize(b, toks[0].0, toks[0].1) {
        Some(v) => v,
        None => {
            return None;
        },
    };
    let c = match parse_usize(b, toks[1].0, toks[1].1) {
        Some(v) => v,
        None => {
            return None;
        },
    };
    let mut grid: Vec<Vec<isize>> = Vec::new();
    let mut k: usize = 2;
    let mut y: usize = 0;
    while y < n
        invariant
            ts == tokens(b@),
            b@ == f.spec_bytes(),
            spans(b@, toks@),
            ts.len() >= 2,
            usize_of(ts[0]) == Some(n),
            usize_of(ts[1]) == Some(c),
            y <= n,
            k == 2 + y * n,
            k <= ts.len(),
            grid.len() == y,
            forall|j: int| 2 <= j < k ==> #[trigger] isize_of(ts[j]) is Some,
            forall|i: int| 0 <= i < y ==> (#[trigger] grid@[i])@.len() == n,
            forall|i: int, x: int|
                0 <= i < y && 0 <= x < n ==> #[trigger] grid@[i]@[x] == isize_of(ts[2 + i * n + x]).unwrap(),
        decreases n - y,
    {
        let mut row: Vec<isize> = Vec::new();
        let mut x: usize = 0;
        while x < n
            invariant
                ts == tokens(b@),
                b@ == f.spec_bytes(),
                spans(b@, toks@),
                ts.len() >= 2,
                usize_of(ts[0]) == Some(n),
                y < n,
                x <= n,
                k == 2 + y * n + x,
                k <= ts.len(),
                row.len() == x,
                forall|j: int| 2 <= j < k ==> #[trigger] isize_of(ts[j]) is Some,
                forall|q: int| 0 <= q < x ==> #[trigger] row@[q] == isize_of(ts[2 + y * n + q]).unwrap(),
            decreases n - x,
        {
            assert(y * n + x < n * n) by (nonlinear_arith)
                requires
                    y < n,
                    x < n,
            ;
            if k >= toks.len() {
                return None;
            }
            let t = toks[k];
            assert(toks@[k as int] == t);
            match parse_isize(b, t.0, t.1) {
                Some(v) => {
                    row.push(v);
                },
                None => {
                    return None;
                },
            }
            k = k + 1;
            x = x + 1;
        }
        assert(2 + (y + 1) * n == 2 + y * n + n) by (nonlinear_arith);
        grid.push(row);
        y = y + 1;
    }
    assert(k == 2 + n * n);
    Some(Input { N: n, C: c, grid })
}

} // verus!
