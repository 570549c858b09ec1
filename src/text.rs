//! A board written out in its text format.
use vstd::prelude::*;
use vstd::string::StringExecFns;

use itertools::Itertools;

use crate::board::{grid_view, lemma_grid_view, Input};

verus! {

/// The decimal digits of `n`, most significant first.
pub open spec fn decimal(n: nat) -> Seq<char>
    decreases n,
{
    if n < 10 {
        seq![(n + 48) as char]
    } else {
        decimal(n / 10) + seq![((n % 10) + 48) as char]
    }
}

/// `v` in decimal, with a leading `-` when negative.
pub open spec fn signed_decimal(v: int) -> Seq<char> {
    if v < 0 {
        seq!['-'] + decimal((-v) as nat)
    } else {
        decimal(v as nat)
    }
}

/// The entries of `s` in decimal, separated by single spaces.
pub open spec fn joined(s: Seq<isize>) -> Seq<char>
    decreases s.len(),
{
    if s.len() == 0 {
        seq![]
    } else if s.len() == 1 {
        signed_decimal(s[0] as int)
    } else {
        joined(s.drop_last()) + seq![' '] + signed_decimal(s.last() as int)
    }
}

/// Each row of `g` on a line of its own.
pub open spec fn rows_text(g: Seq<Seq<isize>>) -> Seq<char>
    decreases g.len(),
{
    if g.len() == 0 {
        seq![]
    } else {
        rows_text(g.drop_last()) + joined(g.last()) + seq!['\n']
    }
}

/// The text of a board: `n` and `c` on lines of their own, then the rows.
pub open spec fn board_text(n: nat, c: nat, g: Seq<Seq<isize>>) -> Seq<char> {
    decimal(n) + seq!['\n'] + decimal(c) + seq!['\n'] + rows_text(g)
}

/// Relies on `ToString` for `usize`, which writes it in decimal.
#[verifier::external_body]
fn usize_text(n: usize) -> (r: String)
    ensures
        r@ == decimal(n as nat),
{
    n.to_string()
}

/// Relies on itertools' `Itertools::join`: each entry written by `Display`
/// (decimal, `-` when negative), separated by single spaces.
#[verifier::external_body]
fn join_row(row: &Vec<isize>) -> (r: String)
    ensures
        r@ == joined(row@),
{
    row.iter().join(" ")
}

impl Input {
    /// The board in its text format: `N`, `C`, then each row with its cells
    /// separated by spaces, every line ended by a newline.
    pub fn to_text(&self) -> (r: String)
        requires
            self.wf(),
        ensures
            r@ == board_text(self.N as nat, self.C as nat, grid_view(&self.grid)),
    {
        proof {
            reveal_strlit("\n");
            lemma_grid_view(&self.grid);
        }
        let mut s = usize_text(self.N);
        s.append("\n");
        let c = usize_text(self.C);
        s.append(c.as_str());
        s.append("\n");
        let ghost head = s@;
        let ghost g = grid_view(&self.grid);
        let mut i: usize = 0;
        while i < self.grid.len()
            invariant
                i <= self.grid.len(),
                g == grid_view(&self.grid),
                g.len() == self.grid.len(),
                forall|k: int| 0 <= k < self.grid.len() ==> #[trigger] self.grid[k]@ == g[k],
                s@ == head + rows_text(g.take(i as int)),
            decreases self.grid.len() - i,
        {
            proof {
                reveal_strlit("\n");
            }
            let row = join_row(&self.grid[i]);
            s.append(row.as_str());
            s.append("\n");
            assert(g.take(i + 1).drop_last() =~= g.take(i as int));
            assert(g.take(i + 1).last() == g[i as int]);
            assert(s@ =~= head + rows_text(g.take(i + 1)));
            i = i + 1;
        }
        assert(g.take(i as int) =~= g);
        assert(s@ =~= board_text(self.N as nat, self.C as nat, g));
        s
    }
}

} // verus!
