//! Counting the cells of a grid that hold a given value.
use vstd::prelude::*;

verus! {

/// How many entries of `s` equal `v`.
pub open spec fn count_seq(s: Seq<isize>, v: isize) -> nat
    decreases s.len(),
{
    if s.len() == 0 {
        0
    } else {
        count_seq(s.drop_last(), v) + (if s.last() == v { 1nat } else { 0nat })
    }
}

/// How many cells of `g` equal `v`.
pub open spec fn count_grid(g: Seq<Seq<isize>>, v: isize) -> nat
    decreases g.len(),
{
    if g.len() == 0 {
        0
    } else {
        count_grid(g.drop_last(), v) + count_seq(g.last(), v)
    }
}

/// Column `x` of `g`, top to bottom.
pub open spec fn column(g: Seq<Seq<isize>>, x: int) -> Seq<isize> {
    Seq::new(g.len(), |y: int| g[y][x])
}

/// 1 where `b` holds, else 0.
pub open spec fn indicator(b: bool) -> int {
    if b { 1 } else { 0 }
}

/// Writing `w` at index `i` changes the count of `v` by what left and what came.
pub proof fn lemma_count_update(s: Seq<isize>, i: int, w: isize, v: isize)
    requires
        0 <= i < s.len(),
    ensures
        count_seq(s.update(i, w), v) == count_seq(s, v) - indicator(s[i] == v) + indicator(w == v),
    decreases s.len(),
{
    let u = s.update(i, w);
    if i == s.len() - 1 {
        assert(u.drop_last() =~= s.drop_last());
    } else {
        lemma_count_update(s.drop_last(), i, w, v);
        assert(u.drop_last() =~= s.drop_last().update(i, w));
    }
}

/// Replacing row `y` changes the count of `v` by the two rows' counts.
pub proof fn lemma_count_grid_update(g: Seq<Seq<isize>>, y: int, row: Seq<isize>, v: isize)
    requires
        0 <= y < g.len(),
    ensures
        count_grid(g.update(y, row), v) == count_grid(g, v) - count_seq(g[y], v) + count_seq(row, v),
    decreases g.len(),
{
    let u = g.update(y, row);
    if y == g.len() - 1 {
        assert(u.drop_last() =~= g.drop_last());
    } else {
        lemma_count_grid_update(g.drop_last(), y, row, v);
        assert(u.drop_last() =~= g.drop_last().update(y, row));
    }
}

/// Writing `w` at one cell changes the count of `v` by what left and what came.
pub proof fn lemma_count_set(g: Seq<Seq<isize>>, y: int, x: int, w: isize, v: isize)
    requires
        0 <= y < g.len(),
        0 <= x < g[y].len(),
    ensures
        count_grid(g.update(y, g[y].update(x, w)), v) == count_grid(g, v) - indicator(g[y][x] == v)
            + indicator(w == v),
{
    lemma_count_grid_update(g, y, g[y].update(x, w), v);
    lemma_count_update(g[y], x, w, v);
}

/// A row of `n` copies of `w` holds `n` of `w` and none of anything else.
pub proof fn lemma_count_const(n: nat, w: isize, v: isize)
    ensures
        count_seq(Seq::new(n, |i: int| w), v) == if w == v { n } else { 0 },
    decreases n,
{
    if n > 0 {
        lemma_count_const((n - 1) as nat, w, v);
        assert(Seq::new(n, |i: int| w).drop_last() =~= Seq::new((n - 1) as nat, |i: int| w));
    }
}

/// `m` copies of one row hold `m` times its count.
pub proof fn lemma_count_rows(m: nat, row: Seq<isize>, v: isize)
    ensures
        count_grid(Seq::new(m, |i: int| row), v) == m * count_seq(row, v),
    decreases m,
{
    let g = Seq::new(m, |i: int| row);
    let c = count_seq(row, v);
    if m > 0 {
        lemma_count_rows((m - 1) as nat, row, v);
        assert(g.drop_last() =~= Seq::new((m - 1) as nat, |i: int| row));
        assert(g.last() == row);
        assert(count_grid(g, v) == count_grid(g.drop_last(), v) + c);
        assert(m * c == (m - 1) * c + c) by (nonlinear_arith);
    } else {
        assert(m * c == 0) by (nonlinear_arith)
            requires
                m == 0,
        ;
    }
}

/// A sequence without `v` counts no `v`.
pub proof fn lemma_count_none(s: Seq<isize>, v: isize)
    requires
        forall|i: int| 0 <= i < s.len() ==> s[i] != v,
    ensures
        count_seq(s, v) == 0,
    decreases s.len(),
{
    if s.len() > 0 {
        lemma_count_none(s.drop_last(), v);
    }
}

/// A positive count has an entry that shows it.
pub proof fn lemma_count_witness(s: Seq<isize>, v: isize)
    requires
        count_seq(s, v) > 0,
    ensures
        exists|i: int| 0 <= i < s.len() && s[i] == v,
    decreases s.len(),
{
    if s.last() != v {
        lemma_count_witness(s.drop_last(), v);
        let i = choose|i: int| 0 <= i < s.drop_last().len() && s.drop_last()[i] == v;
        assert(s[i] == v);
    }
}

/// A positive count in a grid has a cell that shows it.
pub proof fn lemma_count_grid_witness(g: Seq<Seq<isize>>, v: isize)
    requires
        count_grid(g, v) > 0,
    ensures
        exists|y: int, x: int| 0 <= y < g.len() && 0 <= x < g[y].len() && g[y][x] == v,
    decreases g.len(),
{
    if count_seq(g.last(), v) > 0 {
        lemma_count_witness(g.last(), v);
        let x = choose|x: int| 0 <= x < g.last().len() && g.last()[x] == v;
        assert(g[g.len() - 1][x] == v);
    } else {
        lemma_count_grid_witness(g.drop_last(), v);
        let (y, x) = choose|y: int, x: int|
            0 <= y < g.drop_last().len() && 0 <= x < g.drop_last()[y].len() && g.drop_last()[y][x] == v;
        assert(g[y][x] == v);
    }
}

} // verus!
