//! Random boards, built by rejection sampling.
use vstd::prelude::*;

use crate::board::{
    cell, grid_view, is_square, lemma_grid_view, on_board, set_at, set_cell, Coord, Input,
};
use crate::count::{
    column, count_grid, count_seq, lemma_count_const, lemma_count_grid_witness, lemma_count_none,
    lemma_count_rows, lemma_count_set,
};
use crate::rnd::{step, Rng};

verus! {

/// A finished board: `n` by `n`, cells in `-1..=c`, exactly `n` tokens of each
/// color `1..=c`, and at most `n - c` blocked cells in any row or column.
pub open spec fn valid_board(g: Seq<Seq<isize>>, n: int, c: int) -> bool {
    &&& is_square(g, n)
    &&& forall|y: int, x: int| 0 <= y < n && 0 <= x < n ==> -1 <= #[trigger] g[y][x] <= c
    &&& forall|k: isize| 1 <= k <= c ==> #[trigger] count_grid(g, k) == n
    &&& within_limits(g, n, c)
}

/// No row and no column of `g` holds more than `n - c` blocked cells.
pub open spec fn within_limits(g: Seq<Seq<isize>>, n: int, c: int) -> bool {
    &&& forall|y: int| 0 <= y < n ==> #[trigger] count_seq(g[y], -1isize) <= n - c
    &&& forall|x: int| 0 <= x < n ==> #[trigger] count_seq(column(g, x), -1isize) <= n - c
}

/// While color `c` is being placed: `placed` tokens of it are down, every
/// earlier color has its `n`, no later color has any, and no cell is blocked.
pub open spec fn placing(g: Seq<Seq<isize>>, n: int, c: int, placed: int) -> bool {
    &&& is_square(g, n)
    &&& forall|y: int, x: int| 0 <= y < n && 0 <= x < n ==> 0 <= #[trigger] g[y][x] <= c
    &&& forall|k: isize| 1 <= k < c ==> #[trigger] count_grid(g, k) == n
    &&& count_grid(g, c as isize) == placed
    &&& forall|k: isize| k > c ==> #[trigger] count_grid(g, k) == 0
    &&& count_grid(g, 0) == n * n - ((c - 1) * n + placed)
}

/// Tokens are down: cells in `-1..=c` and `n` tokens of each color.
pub open spec fn tokens_placed(g: Seq<Seq<isize>>, n: int, c: int) -> bool {
    &&& is_square(g, n)
    &&& forall|y: int, x: int| 0 <= y < n && 0 <= x < n ==> -1 <= #[trigger] g[y][x] <= c
    &&& forall|k: isize| 1 <= k <= c ==> #[trigger] count_grid(g, k) == n
}

/// The first column from `x` on at which `row` is empty, or `n`.
pub open spec fn first_zero_in(row: Seq<isize>, x: int, n: int) -> int
    decreases n - x,
{
    if x >= n {
        n
    } else if row[x] == 0 {
        x
    } else {
        first_zero_in(row, x + 1, n)
    }
}

/// The first empty cell from row `y` on, in row-major order.
pub open spec fn first_zero_from(g: Seq<Seq<isize>>, n: int, y: int) -> Coord
    decreases n - y,
{
    if y >= n {
        Coord { y: 0, x: 0 }
    } else if first_zero_in(g[y], 0, n) < n {
        Coord { y: y as usize, x: first_zero_in(g[y], 0, n) as usize }
    } else {
        first_zero_from(g, n, y + 1)
    }
}

/// A random cell: a row drawn, then a column, and the state after both.
pub open spec fn draw_cell(s: u64, n: usize) -> (Coord, u64) {
    let s1 = step(s);
    let s2 = step(s1);
    (Coord { y: (s1 % (n as u64)) as usize, x: (s2 % (n as u64)) as usize }, s2)
}

/// From cell `p`, draws further cells while the current one is occupied and
/// fewer than `u64::MAX` draws were made; the last cell and state.
pub open spec fn seek(g: Seq<Seq<isize>>, n: usize, p: Coord, s: u64, tries: u64) -> (Coord, u64)
    decreases u64::MAX - tries,
{
    if cell(g, p) != 0 && tries < u64::MAX {
        seek(g, n, draw_cell(s, n).0, draw_cell(s, n).1, (tries + 1) as u64)
    } else {
        (p, s)
    }
}

/// Where one token goes on `g` from state `s`, and the state after.
pub open spec fn place_spec(g: Seq<Seq<isize>>, n: usize, s: u64) -> (Coord, u64) {
    let found = seek(g, n, draw_cell(s, n).0, draw_cell(s, n).1, 0);
    (
        if cell(g, found.0) == 0 {
            found.0
        } else {
            first_zero_from(g, n as int, 0)
        },
        found.1,
    )
}

/// `g` and state `s` after tokens `i..n` of color `c` are placed.
pub open spec fn color_spec(g: Seq<Seq<isize>>, n: usize, c: usize, s: u64, i: int) -> (Seq<Seq<isize>>, u64)
    decreases n - i,
{
    if i >= n {
        (g, s)
    } else {
        let (p, s2) = place_spec(g, n, s);
        color_spec(set_at(g, p, c as isize), n, c, s2, i + 1)
    }
}

/// `g` and state `s` after the tokens of colors `k..=c` are placed.
pub open spec fn all_spec(g: Seq<Seq<isize>>, n: usize, c: usize, s: u64, k: int) -> (Seq<Seq<isize>>, u64)
    decreases c + 1 - k,
{
    if k > c {
        (g, s)
    } else {
        let r = color_spec(g, n, k as usize, s, 0);
        all_spec(r.0, n, c, r.1, k + 1)
    }
}

/// Row `y` from column `x` on, blocking each empty cell when a fresh draw
/// `m` in `0..1000` has `4 * m < p`; the grid and the state after.
pub open spec fn block_row(g: Seq<Seq<isize>>, n: usize, p: u64, s: u64, y: int, x: int) -> (Seq<Seq<isize>>, u64)
    decreases n - x,
{
    if x >= n {
        (g, s)
    } else if g[y][x] == 0 {
        if 4 * (step(s) % 1000) < p {
            block_row(set_at(g, Coord { y: y as usize, x: x as usize }, -1isize), n, p, step(s), y, x + 1)
        } else {
            block_row(g, n, p, step(s), y, x + 1)
        }
    } else {
        block_row(g, n, p, s, y, x + 1)
    }
}

/// Rows `y..n` blocked in turn.
pub open spec fn block_rows(g: Seq<Seq<isize>>, n: usize, p: u64, s: u64, y: int) -> (Seq<Seq<isize>>, u64)
    decreases n - y,
{
    if y >= n {
        (g, s)
    } else {
        let r = block_row(g, n, p, s, y, 0);
        block_rows(r.0, n, p, r.1, y + 1)
    }
}

/// An `n` by `n` grid of empty cells.
pub open spec fn zero_grid(n: usize) -> Seq<Seq<isize>> {
    Seq::new(n as nat, |i: int| Seq::new(n as nat, |j: int| 0isize))
}

/// The board that attempt number `attempt` and those after it end with,
/// from state `s`: the first within its limits, or the unblocked last one.
pub open spec fn attempt_spec(s: u64, n: usize, c: usize, p: u64, attempt: u64) -> Seq<Seq<isize>>
    decreases u64::MAX - attempt,
{
    let th = if attempt < u64::MAX { p } else { 0 };
    let a = all_spec(zero_grid(n), n, c, s, 1);
    let b = block_rows(a.0, n, th, a.1, 0);
    if within_limits(b.0, n as int, c as int) || attempt == u64::MAX {
        b.0
    } else {
        attempt_spec(b.1, n, c, p, (attempt + 1) as u64)
    }
}

/// The side, the color count and the cells that `gen` builds from a
/// nonzero seed.
pub open spec fn gen_spec(seed: usize) -> (usize, usize, Seq<Seq<isize>>) {
    let s1 = step(seed as u64);
    let s2 = step(s1);
    let s3 = step(s2);
    let n = ((s1 % 23) + 8) as usize;
    let c = ((s2 % 6) + 1) as usize;
    (n, c, attempt_spec(s3, n, c, s3 % 1000, 0))
}

/// An `n` by `n` grid of empty cells.
fn empty_grid(n: usize) -> (g: Vec<Vec<isize>>)
    ensures
        grid_view(&g) == Seq::new(n as nat, |i: int| Seq::new(n as nat, |j: int| 0isize)),
{
    let ghost zero_row = Seq::new(n as nat, |j: int| 0isize);
    let mut row: Vec<isize> = Vec::new();
    let mut j: usize = 0;
    while j < n
        invariant
            j <= n,
            row@ =~= Seq::new(j as nat, |k: int| 0isize),
        decreases n - j,
    {
        row.push(0);
        j = j + 1;
    }
    let mut g: Vec<Vec<isize>> = Vec::new();
    let mut i: usize = 0;
    while i < n
        invariant
            i <= n,
            row@ == zero_row,
            grid_view(&g) =~= Seq::new(i as nat, |k: int| zero_row),
        decreases n - i,
    {
        let ghost before = grid_view(&g);
        g.push(row.clone());
        proof {
            lemma_grid_view(&g);
            assert(grid_view(&g) =~= before.push(zero_row));
        }
        i = i + 1;
    }
    g
}

/// The first empty cell in row-major order; one exists.
fn first_empty(g: &Vec<Vec<isize>>, n: usize) -> (p: Coord)
    requires
        is_square(grid_view(g), n as int),
        count_grid(grid_view(g), 0) > 0,
    ensures
        on_board(p, n as int),
        cell(grid_view(g), p) == 0,
        p == first_zero_from(grid_view(g), n as int, 0),
{
    let ghost gv = grid_view(g);
    proof {
        lemma_grid_view(g);
    }
    let mut y: usize = 0;
    while y < n
        invariant
            y <= n,
            gv == grid_view(g),
            is_square(gv, n as int),
            g.len() == n,
            forall|i: int| 0 <= i < n ==> #[trigger] g[i]@ == gv[i],
            forall|i: int, j: int| 0 <= i < y && 0 <= j < n ==> gv[i][j] != 0,
            first_zero_from(gv, n as int, 0) == first_zero_from(gv, n as int, y as int),
        decreases n - y,
    {
        assert(gv[y as int].len() == n);
        let mut x: usize = 0;
        while x < n
            invariant
                x <= n,
                y < n,
                gv == grid_view(g),
                g.len() == n,
                g[y as int]@ == gv[y as int],
                gv[y as int].len() == n,
                forall|j: int| 0 <= j < x ==> gv[y as int][j] != 0,
                first_zero_from(gv, n as int, 0) == first_zero_from(gv, n as int, y as int),
                first_zero_in(gv[y as int], 0, n as int) == first_zero_in(gv[y as int], x as int, n as int),
            decreases n - x,
        {
            if g[y][x] == 0 {
                return Coord { y, x };
            }
            x = x + 1;
        }
        assert(first_zero_in(gv[y as int], n as int, n as int) == n);
        y = y + 1;
    }
    proof {
        lemma_count_grid_witness(gv, 0);
        let (a, b) = choose|a: int, b: int| 0 <= a < gv.len() && 0 <= b < gv[a].len() && gv[a][b] == 0;
        assert(gv[a][b] != 0);
    }
    Coord { y: 0, x: 0 }
}

/// Draws random cells until an empty one comes up and writes `c` there.
/// After `u64::MAX` draws that all hit occupied cells it takes the first empty
/// cell instead, so that the search ends.
fn place_token(g: &mut Vec<Vec<isize>>, rng: &mut Rng, n: usize, c: isize) -> (p: Coord)
    requires
        n > 0,
        is_square(grid_view(old(g)), n as int),
        count_grid(grid_view(old(g)), 0) > 0,
    ensures
        on_board(p, n as int),
        cell(grid_view(old(g)), p) == 0,
        grid_view(final(g)) == set_at(grid_view(old(g)), p, c),
        old(rng)@ != 0 ==> final(rng)@ != 0 && (p, final(rng)@) == place_spec(grid_view(old(g)), n, old(rng)@),
{
    let ghost gv = grid_view(g);
    proof {
        lemma_grid_view(g);
    }
    let ghost s0 = rng@;
    let mut y = rng.gen_range(0, n);
    let mut x = rng.gen_range(0, n);
    let mut tries: u64 = 0;
    assert(s0 != 0 ==> (Coord { y, x }, rng@) == draw_cell(s0, n));
    assert(gv[y as int].len() == n);
    while g[y][x] != 0 && tries < u64::MAX
        invariant
            y < n,
            x < n,
            gv == grid_view(g),
            is_square(gv, n as int),
            g.len() == n,
            forall|i: int| 0 <= i < n ==> #[trigger] g[i]@ == gv[i],
            s0 != 0 ==> rng@ != 0,
            s0 != 0 ==> seek(gv, n, Coord { y, x }, rng@, tries) == seek(
                gv,
                n,
                draw_cell(s0, n).0,
                draw_cell(s0, n).1,
                0,
            ),
        decreases u64::MAX - tries,
    {
        let ghost before = rng@;
        y = rng.gen_range(0, n);
        x = rng.gen_range(0, n);
        assert(before != 0 ==> (Coord { y, x }, rng@) == draw_cell(before, n));
        tries = tries + 1;
        assert(gv[y as int].len() == n);
    }
    let p = if g[y][x] == 0 {
        Coord { y, x }
    } else {
        first_empty(g, n)
    };
    assert(gv[p.y as int].len() == n);
    set_cell(g, p, c);
    p
}

/// Places the `n` tokens of color `c`.
fn place_color(g: &mut Vec<Vec<isize>>, rng: &mut Rng, n: usize, c: usize)
    requires
        8 <= n <= 30,
        1 <= c <= 6,
        placing(grid_view(old(g)), n as int, c as int, 0),
    ensures
        placing(grid_view(final(g)), n as int, c as int, n as int),
        old(rng)@ != 0 ==> final(rng)@ != 0 && (grid_view(final(g)), final(rng)@) == color_spec(
            grid_view(old(g)),
            n,
            c,
            old(rng)@,
            0,
        ),
{
    let ghost g0 = grid_view(g);
    let ghost s0 = rng@;
    let mut i: usize = 0;
    while i < n
        invariant
            8 <= n <= 30,
            1 <= c <= 6,
            i <= n,
            placing(grid_view(g), n as int, c as int, i as int),
            s0 != 0 ==> rng@ != 0 && color_spec(grid_view(g), n, c, rng@, i as int) == color_spec(g0, n, c, s0, 0),
        decreases n - i,
    {
        let ghost before = grid_view(g);
        assert((c - 1) * n + i < n * n) by (nonlinear_arith)
            requires
                8 <= n,
                c <= 6,
                i < n,
        ;
        let p = place_token(g, rng, n, c as isize);
        proof {
            let after = grid_view(g);
            assert forall|k: isize| #[trigger] count_grid(after, k) == count_grid(before, k)
                - (if k == 0 { 1int } else { 0int }) + (if k == c as isize { 1int } else { 0int }) by {
                lemma_count_set(before, p.y as int, p.x as int, c as isize, k);
            }
            assert(count_grid(after, 0) == n * n - ((c - 1) * n + i + 1));
            assert(is_square(after, n as int));
            assert forall|y: int, x: int| 0 <= y < n && 0 <= x < n implies 0 <= #[trigger] after[y][x]
                <= c by {
                if y != p.y || x != p.x {
                    assert(after[y][x] == before[y][x]);
                }
            }
        }
        i = i + 1;
    }
}

/// Places `n` tokens of each color `1..=c` on an empty grid.
fn place_all(g: &mut Vec<Vec<isize>>, rng: &mut Rng, n: usize, c: usize)
    requires
        8 <= n <= 30,
        1 <= c <= 6,
        grid_view(old(g)) == Seq::new(n as nat, |i: int| Seq::new(n as nat, |j: int| 0isize)),
    ensures
        tokens_placed(grid_view(final(g)), n as int, c as int),
        forall|y: int, x: int| 0 <= y < n && 0 <= x < n ==> 0 <= #[trigger] grid_view(final(g))[y][x],
        old(rng)@ != 0 ==> final(rng)@ != 0 && (grid_view(final(g)), final(rng)@) == all_spec(
            grid_view(old(g)),
            n,
            c,
            old(rng)@,
            1,
        ),
{
    let ghost g0 = grid_view(g);
    let ghost s0 = rng@;
    proof {
        let zero_row = Seq::new(n as nat, |j: int| 0isize);
        assert forall|k: isize| #[trigger] count_grid(grid_view(g), k) == if k == 0 { n * n } else { 0 } by {
            lemma_count_rows(n as nat, zero_row, k);
            lemma_count_const(n as nat, 0isize, k);
            assert(grid_view(g) =~= Seq::new(n as nat, |i: int| zero_row));
        }
        assert(count_grid(grid_view(g), 1isize) == 0);
        assert(forall|y: int| 0 <= y < n ==> #[trigger] grid_view(g)[y] == zero_row);
        assert(is_square(grid_view(g), n as int));
        assert(count_grid(grid_view(g), 0isize) == n * n - ((1 - 1) * n + 0));
        assert(forall|k: isize| k > 1 ==> #[trigger] count_grid(grid_view(g), k) == 0);
    }
    let mut k: usize = 1;
    while k <= c
        invariant
            8 <= n <= 30,
            1 <= k <= c + 1,
            c <= 6,
            placing(grid_view(g), n as int, k as int, 0),
            forall|y: int, x: int| 0 <= y < n && 0 <= x < n ==> #[trigger] grid_view(g)[y][x] < k,
            s0 != 0 ==> rng@ != 0 && all_spec(grid_view(g), n, c, rng@, k as int) == all_spec(g0, n, c, s0, 1),
        decreases c + 1 - k,
    {
        assert(k <= 6);
        place_color(g, rng, n, k);
        proof {
            let gv = grid_view(g);
            assert(count_grid(gv, k as isize) == n);
            assert(count_grid(gv, (k + 1) as isize) == 0);
            assert((k - 1) * n + n == k * n) by (nonlinear_arith);
            assert forall|j: isize| 1 <= j < k + 1 implies #[trigger] count_grid(gv, j) == n by {
                if j == k as isize {
                    assert(count_grid(gv, k as isize) == n);
                }
            }
        }
        k = k + 1;
    }
}

/// Blocks each empty cell, in row-major order, when a fresh draw `m` in
/// `0..1000` has `4 * m < p`: with probability `p / 4000`.
fn block_cells(g: &mut Vec<Vec<isize>>, rng: &mut Rng, n: usize, c: usize, p: u64)
    requires
        p < 1000,
        tokens_placed(grid_view(old(g)), n as int, c as int),
    ensures
        tokens_placed(grid_view(final(g)), n as int, c as int),
        p == 0 ==> grid_view(final(g)) == grid_view(old(g)),
        old(rng)@ != 0 ==> final(rng)@ != 0 && (grid_view(final(g)), final(rng)@) == block_rows(
            grid_view(old(g)),
            n,
            p,
            old(rng)@,
            0,
        ),
{
    let ghost g0 = grid_view(g);
    let ghost s0 = rng@;
    let mut y: usize = 0;
    while y < n
        invariant
            y <= n,
            p < 1000,
            tokens_placed(grid_view(g), n as int, c as int),
            p == 0 ==> grid_view(g) == g0,
            s0 != 0 ==> rng@ != 0 && block_rows(grid_view(g), n, p, rng@, y as int) == block_rows(g0, n, p, s0, 0),
        decreases n - y,
    {
        let mut x: usize = 0;
        while x < n
            invariant
                x <= n,
                y < n,
                p < 1000,
                tokens_placed(grid_view(g), n as int, c as int),
                p == 0 ==> grid_view(g) == g0,
                s0 != 0 ==> rng@ != 0 && ({
                    let r = block_row(grid_view(g), n, p, rng@, y as int, x as int);
                    block_rows(r.0, n, p, r.1, y + 1)
                }) == block_rows(g0, n, p, s0, 0),
            decreases n - x,
        {
            let ghost before = grid_view(g);
            proof {
                lemma_grid_view(g);
                assert(before[y as int].len() == n);
            }
            if g[y][x] == 0 {
                let m = rng.gen_milli();
                if 4 * m < p {
                    let q = Coord { y, x };
                    set_cell(g, q, -1);
                    proof {
                        let after = grid_view(g);
                        assert forall|k: isize| 1 <= k <= c implies #[trigger] count_grid(after, k) == n by {
                            lemma_count_set(before, y as int, x as int, -1isize, k);
                        }
                        assert forall|i: int, j: int| 0 <= i < n && 0 <= j < n implies -1 <= #[trigger] after[i][j]
                            <= c by {
                            if i != y || j != x {
                                assert(after[i][j] == before[i][j]);
                            }
                        }
                    }
                }
            }
            x = x + 1;
        }
        y = y + 1;
    }
}

/// How many blocked cells row `y` holds.
fn row_blocked(g: &Vec<Vec<isize>>, n: usize, y: usize) -> (r: usize)
    requires
        is_square(grid_view(g), n as int),
        y < n,
    ensures
        r == count_seq(grid_view(g)[y as int], -1isize),
{
    let ghost row = grid_view(g)[y as int];
    proof {
        lemma_grid_view(g);
    }
    let mut cnt: usize = 0;
    let mut x: usize = 0;
    while x < n
        invariant
            x <= n,
            y < n,
            g.len() == n,
            g[y as int]@ == row,
            row.len() == n,
            cnt == count_seq(row.take(x as int), -1isize),
            cnt <= x,
        decreases n - x,
    {
        assert(row.take(x + 1).drop_last() =~= row.take(x as int));
        if g[y][x] == -1 {
            cnt = cnt + 1;
        }
        x = x + 1;
    }
    assert(row.take(n as int) =~= row);
    cnt
}

/// How many blocked cells column `x` holds.
fn col_blocked(g: &Vec<Vec<isize>>, n: usize, x: usize) -> (r: usize)
    requires
        is_square(grid_view(g), n as int),
        x < n,
    ensures
        r == count_seq(column(grid_view(g), x as int), -1isize),
{
    let ghost gv = grid_view(g);
    let ghost col = column(gv, x as int);
    proof {
        lemma_grid_view(g);
    }
    let mut cnt: usize = 0;
    let mut y: usize = 0;
    while y < n
        invariant
            y <= n,
            x < n,
            g.len() == n,
            gv == grid_view(g),
            is_square(gv, n as int),
            forall|i: int| 0 <= i < n ==> #[trigger] g[i]@ == gv[i],
            col == column(gv, x as int),
            cnt == count_seq(col.take(y as int), -1isize),
            cnt <= y,
        decreases n - y,
    {
        assert(col.take(y + 1).drop_last() =~= col.take(y as int));
        assert(gv[y as int].len() == n);
        if g[y][x] == -1 {
            cnt = cnt + 1;
        }
        y = y + 1;
    }
    assert(col.take(n as int) =~= col);
    cnt
}

/// Whether every row, then every column, holds at most `n - c` blocked cells.
fn limits_hold(g: &Vec<Vec<isize>>, n: usize, c: usize) -> (r: bool)
    requires
        is_square(grid_view(g), n as int),
        c <= n,
    ensures
        r == within_limits(grid_view(g), n as int, c as int),
{
    let mut y: usize = 0;
    while y < n
        invariant
            y <= n,
            c <= n,
            is_square(grid_view(g), n as int),
            forall|i: int| 0 <= i < y ==> #[trigger] count_seq(grid_view(g)[i], -1isize) <= n - c,
        decreases n - y,
    {
        if row_blocked(g, n, y) > n - c {
            return false;
        }
        y = y + 1;
    }
    let mut x: usize = 0;
    while x < n
        invariant
            x <= n,
            c <= n,
            is_square(grid_view(g), n as int),
            forall|i: int| 0 <= i < n ==> #[trigger] count_seq(grid_view(g)[i], -1isize) <= n - c,
            forall|j: int| 0 <= j < x ==> #[trigger] count_seq(column(grid_view(g), j), -1isize) <= n - c,
        decreases n - x,
    {
        if col_blocked(g, n, x) > n - c {
            return false;
        }
        x = x + 1;
    }
    true
}

/// A grid with no blocked cell is within every limit.
proof fn lemma_unblocked_within_limits(g: Seq<Seq<isize>>, n: int, c: int)
    requires
        c <= n,
        is_square(g, n),
        forall|y: int, x: int| 0 <= y < n && 0 <= x < n ==> 0 <= #[trigger] g[y][x],
    ensures
        within_limits(g, n, c),
{
    assert forall|y: int| 0 <= y < n implies #[trigger] count_seq(g[y], -1isize) <= n - c by {
        assert(forall|x: int| 0 <= x < g[y].len() ==> 0 <= #[trigger] g[y][x]);
        lemma_count_none(g[y], -1isize);
    }
    assert forall|x: int| 0 <= x < n implies #[trigger] count_seq(column(g, x), -1isize) <= n - c by {
        let col = column(g, x);
        assert forall|y: int| 0 <= y < col.len() implies #[trigger] col[y] != -1isize by {
            assert(0 <= g[y][x]);
        }
        lemma_count_none(col, -1isize);
    }
}

/// A random board for `seed` (0 seeds from the clock). The side `N` is drawn
/// from `8..=30`, the color count `C` from `1..=6`, and a blocking threshold
/// `p` from `0..1000`. Then, until the board is within its limits: an empty
/// grid gets `N` tokens of each color on random empty cells, and each cell
/// left empty is blocked with probability `p / 4000`. Should `u64::MAX`
/// boards in a row fail, the next one is built without blocking, which
/// always passes.
pub fn gen(seed: usize) -> (r: Input)
    ensures
        8 <= r.N <= 30,
        1 <= r.C <= 6,
        r.wf(),
        valid_board(grid_view(&r.grid), r.N as int, r.C as int),
        seed != 0 ==> (r.N, r.C, grid_view(&r.grid)) == gen_spec(seed),
{
    let mut rng = Rng::init(seed);
    let n = rng.gen_range(8, 31);
    let c = rng.gen_range(1, 7);
    let p = rng.gen_milli();
    let mut attempt: u64 = 0;
    loop
        invariant
            8 <= n <= 30,
            1 <= c <= 6,
            p < 1000,
            seed != 0 ==> {
                &&& rng@ != 0
                &&& n == gen_spec(seed).0
                &&& c == gen_spec(seed).1
                &&& p == step(step(step(seed as u64))) % 1000
                &&& attempt_spec(rng@, n, c, p, attempt) == gen_spec(seed).2
            },
        decreases u64::MAX - attempt,
    {
        let threshold = if attempt < u64::MAX {
            p
        } else {
            0
        };
        let mut grid = empty_grid(n);
        assert(grid_view(&grid) == zero_grid(n));
        place_all(&mut grid, &mut rng, n, c);
        let ghost placed = grid_view(&grid);
        block_cells(&mut grid, &mut rng, n, c, threshold);
        if limits_hold(&grid, n, c) {
            return Input { N: n, C: c, grid };
        }
        proof {
            if attempt == u64::MAX {
                lemma_unblocked_within_limits(placed, n as int, c as int);
            }
        }
        attempt = attempt + 1;
    }
}

/// Two boards that `gen` returned for the same nonzero seed are the same
/// board: its result is a function of the seed alone.
pub proof fn lemma_gen_deterministic(seed: usize, a: Input, b: Input)
    requires
        seed != 0,
        (a.N, a.C, grid_view(&a.grid)) == gen_spec(seed),
        (b.N, b.C, grid_view(&b.grid)) == gen_spec(seed),
    ensures
        a.N == b.N,
        a.C == b.C,
        grid_view(&a.grid) == grid_view(&b.grid),
{
}

} // verus!
