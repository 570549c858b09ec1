//! Boards, move logs, and the replay of a prefix of moves.
#![allow(non_snake_case)]
use vstd::prelude::*;

verus! {

/// A cell position: row `y`, column `x`. Ordered by row, then column.
#[derive(Clone, Copy, Debug, PartialEq, Eq, Structural, PartialOrd, Ord)]
pub struct Coord {
    pub y: usize,
    pub x: usize,
}

/// A board: side `N`, `C` colors, and the cells (`-1` blocked, `0` empty,
/// `k` a token of color `k`).
pub struct Input {
    pub N: usize,
    pub C: usize,
    pub grid: Vec<Vec<isize>>,
}

/// A move log: `L` moves, each taking the token at the first cell to the second.
#[derive(Clone, Debug)]
pub struct Output {
    pub L: usize,
    pub actions: Vec<(Coord, Coord)>,
}

/// The cells of a grid as nested sequences.
pub open spec fn grid_view(g: &Vec<Vec<isize>>) -> Seq<Seq<isize>> {
    Seq::new(g.len() as nat, |i: int| g[i]@)
}

/// `g` is an `n` by `n` grid.
pub open spec fn is_square(g: Seq<Seq<isize>>, n: int) -> bool {
    g.len() == n && forall|i: int| 0 <= i < n ==> #[trigger] g[i].len() == n
}

/// A coordinate that lies on an `n` by `n` board.
pub open spec fn on_board(c: Coord, n: int) -> bool {
    c.y < n && c.x < n
}

/// Every move of `acts` stays on an `n` by `n` board.
pub open spec fn moves_on_board(acts: Seq<(Coord, Coord)>, n: int) -> bool {
    forall|t: int| 0 <= t < acts.len() ==> on_board(#[trigger] acts[t].0, n) && on_board(acts[t].1, n)
}

/// The value at a cell.
pub open spec fn cell(g: Seq<Seq<isize>>, c: Coord) -> isize {
    g[c.y as int][c.x as int]
}

/// `g` with the cell `c` set to `v`.
pub open spec fn set_at(g: Seq<Seq<isize>>, c: Coord, v: isize) -> Seq<Seq<isize>> {
    g.update(c.y as int, g[c.y as int].update(c.x as int, v))
}

/// One move: the value at the origin is cleared, then written at the destination.
pub open spec fn apply_action(g: Seq<Seq<isize>>, a: (Coord, Coord)) -> Seq<Seq<isize>> {
    set_at(set_at(g, a.0, 0), a.1, cell(g, a.0))
}

/// `g` after every move of `acts`, in order.
pub open spec fn replay(g: Seq<Seq<isize>>, acts: Seq<(Coord, Coord)>) -> Seq<Seq<isize>>
    decreases acts.len(),
{
    if acts.len() == 0 {
        g
    } else {
        apply_action(replay(g, acts.drop_last()), acts.last())
    }
}

/// The first index of the run of moves that ends with move `t`, where each
/// move starts at the cell where the one before it ended.
pub open spec fn chain_start(acts: Seq<(Coord, Coord)>, t: int) -> int
    decreases t,
{
    if t > 0 && acts[t - 1].1 == acts[t].0 {
        chain_start(acts, t - 1)
    } else {
        t
    }
}

/// How many moves the run ending with the last of the first `turn` moves holds.
pub open spec fn chain_len(acts: Seq<(Coord, Coord)>, turn: int) -> int {
    if turn <= 0 {
        0
    } else {
        turn - chain_start(acts, turn - 1)
    }
}

/// The indices of that run, the most recent first.
pub open spec fn chain(acts: Seq<(Coord, Coord)>, turn: int) -> Seq<usize> {
    Seq::new(chain_len(acts, turn) as nat, |i: int| (turn - 1 - i) as usize)
}

impl Input {
    /// The board is `N` by `N`.
    pub open spec fn wf(&self) -> bool {
        is_square(grid_view(&self.grid), self.N as int)
    }
}

impl Output {
    /// `L` counts the moves.
    pub open spec fn wf(&self) -> bool {
        self.actions.len() == self.L
    }
}

/// A run starts at or before its last move, and not before the log.
pub proof fn lemma_chain_start_bounds(acts: Seq<(Coord, Coord)>, t: int)
    requires
        0 <= t,
    ensures
        0 <= chain_start(acts, t) <= t,
    decreases t,
{
    if t > 0 && acts[t - 1].1 == acts[t].0 {
        lemma_chain_start_bounds(acts, t - 1);
    }
}

/// At turn 0 the board is as it was and no move is highlighted.
pub proof fn lemma_replay_none(g: Seq<Seq<isize>>, acts: Seq<(Coord, Coord)>)
    ensures
        replay(g, acts.take(0)) == g,
        chain(acts, 0) == Seq::<usize>::empty(),
{
    assert(acts.take(0).len() == 0);
    assert(chain(acts, 0) =~= Seq::<usize>::empty());
}

/// Replaying the first `k` moves and then the rest gives the board that
/// replaying the whole log gives.
pub proof fn lemma_replay_split(g: Seq<Seq<isize>>, acts: Seq<(Coord, Coord)>, k: int)
    requires
        0 <= k <= acts.len(),
    ensures
        replay(replay(g, acts.take(k)), acts.skip(k)) == replay(g, acts),
    decreases acts.len(),
{
    if acts.len() == k {
        assert(acts.take(k) =~= acts);
        assert(acts.skip(k).len() == 0);
    } else {
        let d = acts.drop_last();
        lemma_replay_split(g, d, k);
        assert(d.take(k) =~= acts.take(k));
        assert(acts.skip(k).drop_last() =~= d.skip(k));
        assert(acts.skip(k).last() == acts.last());
    }
}

/// Where every move starts at the cell where the one before it ended, the
/// run ending with the last of the first `turn` moves holds all of them.
pub proof fn lemma_pure_chain(acts: Seq<(Coord, Coord)>, turn: int)
    requires
        0 < turn <= acts.len(),
        forall|j: int| 0 < j < turn ==> #[trigger] acts[j].0 == acts[j - 1].1,
    ensures
        chain_len(acts, turn) == turn,
        chain(acts, turn) == Seq::new(turn as nat, |i: int| (turn - 1 - i) as usize),
    decreases turn,
{
    if turn > 1 {
        lemma_pure_chain(acts, turn - 1);
        assert(acts[turn - 1].0 == acts[turn - 2].1);
    }
}

/// Where no move starts at the cell where the one before it ended, the run
/// is the last applied move alone.
pub proof fn lemma_no_adjacency(acts: Seq<(Coord, Coord)>, turn: int)
    requires
        0 < turn <= acts.len(),
        forall|j: int| 0 < j < turn ==> #[trigger] acts[j].0 != acts[j - 1].1,
    ensures
        chain_len(acts, turn) == 1,
        chain(acts, turn) == seq![(turn - 1) as usize],
{
    if turn > 1 {
        assert(acts[turn - 1].0 != acts[turn - 2].1);
    }
    assert(chain(acts, turn) =~= seq![(turn - 1) as usize]);
}

/// The rows of `grid_view(g)` are the views of the rows of `g`.
pub proof fn lemma_grid_view(g: &Vec<Vec<isize>>)
    ensures
        grid_view(g).len() == g.len(),
        forall|i: int| 0 <= i < g.len() ==> #[trigger] g[i]@ == grid_view(g)[i],
{
}

/// Sets one cell of a grid.
pub fn set_cell(g: &mut Vec<Vec<isize>>, c: Coord, v: isize)
    requires
        c.y < old(g).len(),
        c.x < old(g)[c.y as int].len(),
    ensures
        final(g).len() == old(g).len(),
        grid_view(final(g)) == set_at(grid_view(old(g)), c, v),
{
    let mut row = g[c.y].clone();
    row.set(c.x, v);
    g.set(c.y, row);
    assert(grid_view(g) =~= set_at(grid_view(old(g)), c, v));
}

/// The board after the first `turn` moves of the log.
pub fn snapshot(input: &Input, out: &Output, turn: usize) -> (r: Vec<Vec<isize>>)
    requires
        input.wf(),
        out.wf(),
        turn <= out.L,
        moves_on_board(out.actions@.take(turn as int), input.N as int),
    ensures
        grid_view(&r) == replay(grid_view(&input.grid), out.actions@.take(turn as int)),
        is_square(grid_view(&r), input.N as int),
{
    let mut grid = input.grid.clone();
    assert(grid_view(&grid) =~= grid_view(&input.grid));
    let ghost g0 = grid_view(&input.grid);
    let ghost acts = out.actions@;
    let mut t: usize = 0;
    while t < turn
        invariant
            t <= turn <= acts.len(),
            acts == out.actions@,
            moves_on_board(acts.take(turn as int), input.N as int),
            grid_view(&grid) == replay(g0, acts.take(t as int)),
            is_square(grid_view(&grid), input.N as int),
        decreases turn - t,
    {
        let a = out.actions[t];
        assert(acts.take(turn as int)[t as int] == acts[t as int]);
        assert(on_board(acts[t as int].0, input.N as int));
        assert(grid_view(&grid)[a.0.y as int].len() == input.N);
        assert(grid_view(&grid)[a.1.y as int].len() == input.N);
        let c = grid[a.0.y][a.0.x];
        set_cell(&mut grid, a.0, 0);
        assert(grid_view(&grid)[a.1.y as int].len() == input.N);
        set_cell(&mut grid, a.1, c);
        assert(acts.take(t + 1).drop_last() =~= acts.take(t as int));
        t = t + 1;
    }
    grid
}

/// The indices of the run of moves that ends with move `turn - 1`, the most
/// recent first: walking back, a move is kept while the one before it ended
/// where it starts. Empty when `turn` is 0.
pub fn highlight(out: &Output, turn: usize) -> (r: Vec<usize>)
    requires
        out.wf(),
        turn <= out.L,
    ensures
        r@ == chain(out.actions@, turn as int),
{
    let ghost acts = out.actions@;
    let mut r: Vec<usize> = Vec::new();
    if turn == 0 {
        assert(r@ =~= chain(acts, 0));
        return r;
    }
    let mut s: usize = turn - 1;
    while s > 0 && out.actions[s - 1].1 == out.actions[s].0
        invariant
            s < turn <= acts.len(),
            acts == out.actions@,
            chain_start(acts, turn - 1) == chain_start(acts, s as int),
        decreases s,
    {
        s = s - 1;
    }
    assert(chain_start(acts, s as int) == s);
    let mut t: usize = turn;
    while t > s
        invariant
            s <= t <= turn,
            r@ =~= Seq::new((turn - t) as nat, |i: int| (turn - 1 - i) as usize),
        decreases t,
    {
        t = t - 1;
        r.push(t);
    }
    assert(r@ =~= chain(acts, turn as int));
    r
}

} // verus!
