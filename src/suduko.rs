//! A depth-first backtracking solver over a working copy of the grid.
use vstd::prelude::*;

use crate::rules::{
    agrees, block_at, box_of, column, complete, first_empty, grid_zeros, is_solution,
    lemma_place_fills_one, lemma_placement, lemma_solution_of_place,
    lemma_solution_value_placeable, lemma_solvable_is_valid, lemma_view_rows, no_duplicate, place, placeable,
    solvable, valid, view_of, well_formed,
};
use crate::{Grid, Solver};

verus! {

/// Copies a sequence of cell values.
fn copy_row(r: &Vec<u8>) -> (c: Vec<u8>)
    ensures
        c@ == r@,
{
    let mut c: Vec<u8> = Vec::new();
    let mut k: usize = 0;
    while k < r.len()
        invariant
            k <= r@.len(),
            c@ == r@.subrange(0, k as int),
        decreases r@.len() - k,
    {
        c.push(r[k]);
        k += 1;
        assert(c@ =~= r@.subrange(0, k as int));
    }
    assert(c@ =~= r@);
    c
}

/// Copies a grid row by row, so that the copy shares nothing with `g`.
fn copy_grid(g: &Grid) -> (r: Grid)
    ensures
        view_of(&r) == view_of(g),
{
    let mut r: Grid = Vec::new();
    let mut k: usize = 0;
    while k < g.len()
        invariant
            k <= g@.len(),
            r@.len() == k,
            forall|t: int| 0 <= t < k ==> #[trigger] r@[t]@ == g@[t]@,
        decreases g@.len() - k,
    {
        r.push(copy_row(&g[k]));
        k += 1;
    }
    assert(view_of(&r) =~= view_of(g));
    r
}

/// True iff `v` occurs nowhere in `s`.
fn lacks(s: &Vec<u8>, v: u8) -> (r: bool)
    ensures
        r == !s@.contains(v),
{
    let mut k: usize = 0;
    while k < s.len()
        invariant
            k <= s@.len(),
            forall|t: int| 0 <= t < k ==> s@[t] != v,
        decreases s@.len() - k,
    {
        if s[k] == v {
            assert(s@[k as int] == v);
            return false;
        }
        k += 1;
    }
    true
}

/// Whether `g` has nine rows of nine cells, each in `0..=9`.
pub fn is_well_formed(g: &Grid) -> (r: bool)
    ensures
        r == well_formed(view_of(g)),
{
    proof {
        lemma_view_rows(g);
    }
    if g.len() != 9 {
        return false;
    }
    let mut i: usize = 0;
    while i < 9
        invariant
            g@.len() == 9,
            i <= 9,
            forall|a: int| 0 <= a < g@.len() ==> #[trigger] g@[a]@ == view_of(g)[a],
            forall|a: int| 0 <= a < i ==> #[trigger] view_of(g)[a].len() == 9,
            forall|a: int, b: int| 0 <= a < i && 0 <= b < 9 ==> #[trigger] view_of(g)[a][b] <= 9,
        decreases 9 - i,
    {
        let row = &g[i];
        if row.len() != 9 {
            return false;
        }
        let mut j: usize = 0;
        while j < 9
            invariant
                g@.len() == 9,
                i < 9,
                j <= 9,
                row@ == view_of(g)[i as int],
                row@.len() == 9,
                forall|b: int| 0 <= b < j ==> #[trigger] row@[b] <= 9,
            decreases 9 - j,
        {
            if row[j] > 9 {
                return false;
            }
            j += 1;
        }
        i += 1;
    }
    true
}

/// Solves a Sudoku by trying, at the first empty cell, each digit in
/// increasing order and backtracking when no completion follows.
pub struct Bruteforce {
    /// The grid given at construction; every solve starts from it.
    pub original_grid: Grid,
    grid: Grid,
}

impl Bruteforce {
    /// The working grid that the search fills in.
    pub closed spec fn working(&self) -> Seq<Seq<u8>> {
        view_of(&self.grid)
    }

    /// The grid given at construction.
    pub closed spec fn original(&self) -> Seq<Seq<u8>> {
        view_of(&self.original_grid)
    }

    /// The working grid has the shape of a Sudoku.
    pub open spec fn wf(&self) -> bool {
        well_formed(self.working())
    }

    /// A solver for `grid`; the working grid starts as a copy of it.
    pub fn new(grid: Grid) -> (r: Self)
        ensures
            r.original() == view_of(&grid),
            r.working() == view_of(&grid),
    {
        let working = copy_grid(&grid);
        Bruteforce { original_grid: grid, grid: working }
    }

    /// Writes `v` at `(i, j)` of the working grid.
    fn set_cell(&mut self, i: usize, j: usize, v: u8)
        requires
            old(self).wf(),
            i < 9,
            j < 9,
            v <= 9,
        ensures
            final(self).wf(),
            final(self).working() == place(old(self).working(), i as int, j as int, v),
            final(self).original() == old(self).original(),
    {
        let ghost g = self.working();
        proof {
            lemma_view_rows(&self.grid);
        }
        let mut row = copy_row(&self.grid[i]);
        row.set(j, v);
        self.grid.set(i, row);
        assert(self.working() =~= place(g, i as int, j as int, v));
    }

    /// Whether `v` occurs in none of the row, the column and the box of `(i, j)`.
    pub fn can_insert(&self, v: u8, pos: (usize, usize)) -> (r: bool)
        requires
            self.wf(),
            pos.0 < 9,
            pos.1 < 9,
        ensures
            r == placeable(self.working(), v, pos.0 as int, pos.1 as int),
    {
        let (i, j) = pos;
        proof {
            lemma_view_rows(&self.grid);
        }
        lacks(&self.grid[i], v) && lacks(&self.col(j), v) && lacks(
            &self.square(((i / 3) * 3, (j / 3) * 3)),
            v,
        )
    }

    /// The 3x3 block whose top-left cell is `pos`, in row-major order.
    pub fn square(&self, pos: (usize, usize)) -> (r: Vec<u8>)
        requires
            self.wf(),
            pos.0 <= 6,
            pos.1 <= 6,
        ensures
            r@ == block_at(self.working(), pos.0 as int, pos.1 as int),
    {
        let (x, y) = pos;
        let ghost g = self.working();
        let mut square: Vec<u8> = Vec::new();
        let mut dx: usize = 0;
        while dx < 3
            invariant
                self.wf(),
                g == self.working(),
                x <= 6,
                y <= 6,
                dx <= 3,
                square@.len() == dx * 3,
                forall|t: int| 0 <= t < square@.len() ==> #[trigger] square@[t] == g[x + t / 3][y + t % 3],
            decreases 3 - dx,
        {
            let mut dy: usize = 0;
            while dy < 3
                invariant
                    self.wf(),
                    g == self.working(),
                    x <= 6,
                    y <= 6,
                    dx < 3,
                    dy <= 3,
                    square@.len() == dx * 3 + dy,
                    forall|t: int| 0 <= t < square@.len() ==> #[trigger] square@[t] == g[x + t / 3][y + t % 3],
                decreases 3 - dy,
            {
                proof {
                    lemma_view_rows(&self.grid);
                }
                square.push(self.grid[x + dx][y + dy]);
                dy += 1;
            }
            dx += 1;
        }
        assert(square@ =~= block_at(g, x as int, y as int));
        square
    }

    /// The values of column `j`, from top to bottom.
    pub fn col(&self, j: usize) -> (r: Vec<u8>)
        requires
            self.wf(),
            j < 9,
        ensures
            r@ == column(self.working(), j as int),
    {
        let ghost g = self.working();
        let mut c: Vec<u8> = Vec::new();
        let mut k: usize = 0;
        while k < 9
            invariant
                self.wf(),
                g == self.working(),
                j < 9,
                k <= 9,
                c@.len() == k,
                forall|t: int| 0 <= t < k ==> #[trigger] c@[t] == g[t][j as int],
            decreases 9 - k,
        {
            proof {
                lemma_view_rows(&self.grid);
            }
            c.push(self.grid[k][j]);
            k += 1;
        }
        assert(c@ =~= column(g, j as int));
        c
    }

    /// Whether some non-zero value occurs twice in `row`.
    pub fn has_duplicate(row: &Vec<u8>) -> (r: bool)
        ensures
            r == !no_duplicate(row@),
    {
        let n = row.len();
        let mut a: usize = 0;
        while a < n
            invariant
                n == row@.len(),
                a <= n,
                forall|p: int, q: int|
                    0 <= p < a && p < q < n && row@[p] != 0 ==> row@[p] != row@[q],
            decreases n - a,
        {
            if row[a] != 0 {
                let mut b: usize = a + 1;
                while b < n
                    invariant
                        n == row@.len(),
                        a < n,
                        a + 1 <= b <= n,
                        row@[a as int] != 0,
                        forall|q: int| a < q < b ==> row@[a as int] != row@[q],
                    decreases n - b,
                {
                    if row[b] == row[a] {
                        assert(row@[a as int] == row@[b as int]);
                        return true;
                    }
                    b += 1;
                }
            }
            a += 1;
        }
        false
    }

    /// The first empty cell in row-major order, if any.
    pub fn next_entry_to_change(&self) -> (r: Option<(usize, usize)>)
        requires
            self.wf(),
        ensures
            match r {
                Some((i, j)) => first_empty(self.working(), i as int, j as int),
                None => complete(self.working()),
            },
    {
        let ghost g = self.working();
        let mut i: usize = 0;
        while i < 9
            invariant
                self.wf(),
                g == self.working(),
                i <= 9,
                forall|a: int, b: int| 0 <= a < i && 0 <= b < 9 ==> #[trigger] g[a][b] != 0,
            decreases 9 - i,
        {
            let mut j: usize = 0;
            while j < 9
                invariant
                    self.wf(),
                    g == self.working(),
                    i < 9,
                    j <= 9,
                    forall|a: int, b: int|
                        0 <= b < 9 && (0 <= a < i || (a == i && b < j)) ==> #[trigger] g[a][b] != 0,
                decreases 9 - j,
            {
                proof {
                    lemma_view_rows(&self.grid);
                }
                if self.grid[i][j] == 0 {
                    return Some((i, j));
                }
                j += 1;
            }
            i += 1;
        }
        None
    }

    /// Fills the working grid by depth-first search. On success the filled
    /// grid is returned and also left in place; on failure the working grid
    /// is restored to what it was on entry.
    fn aux_solver(&mut self) -> (r: Option<Grid>)
        requires
            old(self).wf(),
            valid(old(self).working()),
        ensures
            final(self).wf(),
            final(self).original() == old(self).original(),
            match r {
                Some(s) => is_solution(old(self).working(), view_of(&s))
                    && final(self).working() == view_of(&s),
                None => !solvable(old(self).working()) && final(self).working() == old(self).working(),
            },
        decreases grid_zeros(old(self).working()),
    {
        let ghost g0 = self.working();
        let next_entry = self.next_entry_to_change();
        match next_entry {
            None => {
                let s = copy_grid(&self.grid);
                assert(agrees(g0, g0));
                Some(s)
            },
            Some((i, j)) => {
                let mut v: u8 = 1;
                while v <= 9
                    invariant
                        self.wf(),
                        self.working() == g0,
                        self.original() == old(self).original(),
                        g0 == old(self).working(),
                        well_formed(g0),
                        valid(g0),
                        first_empty(g0, i as int, j as int),
                        1 <= v <= 10,
                        forall|s: Seq<Seq<u8>>| #[trigger] is_solution(g0, s) ==> s[i as int][j as int] >= v,
                    decreases 10 - v,
                {
                    if self.can_insert(v, (i, j)) {
                        proof {
                            lemma_placement(g0, v, i as int, j as int);
                            lemma_place_fills_one(g0, i as int, j as int, v);
                        }
                        self.set_cell(i, j, v);
                        let res = self.aux_solver();
                        if res.is_some() {
                            proof {
                                let s = view_of(&res->Some_0);
                                lemma_solution_of_place(g0, s, i as int, j as int, v);
                            }
                            return res;
                        }
                        proof {
                            assert forall|s: Seq<Seq<u8>>| #[trigger] is_solution(g0, s)
                                implies s[i as int][j as int] != v by {
                                lemma_solution_of_place(g0, s, i as int, j as int, v);
                            }
                        }
                        self.set_cell(i, j, 0);
                        assert(g0[i as int].update(j as int, v).update(j as int, 0) =~= g0[i as int]);
                        assert(self.working() =~= g0);
                    } else {
                        proof {
                            assert forall|s: Seq<Seq<u8>>| #[trigger] is_solution(g0, s)
                                implies s[i as int][j as int] != v by {
                                lemma_solution_value_placeable(g0, s, i as int, j as int);
                            }
                        }
                    }
                    v += 1;
                }
                None
            },
        }
    }

    /// Solves the grid given at construction, starting afresh on each call.
    /// A grid of the wrong shape, or one whose clues already clash, has no
    /// solution.
    pub fn solve(&mut self) -> (r: Option<Grid>)
        ensures
            final(self).original() == old(self).original(),
            !well_formed(old(self).original()) ==> r is None,
            well_formed(old(self).original()) ==> (r is Some <==> solvable(old(self).original())),
            match r {
                Some(s) => is_solution(old(self).original(), view_of(&s))
                    && final(self).working() == view_of(&s)
                    && final(self).wf(),
                None => true,
            },
    {
        if !is_well_formed(&self.original_grid) {
            return None;
        }
        self.grid = copy_grid(&self.original_grid);
        if !self.is_valid() {
            proof {
                let g = self.original();
                if solvable(g) {
                    let s = choose|s: Seq<Seq<u8>>| is_solution(g, s);
                    lemma_solvable_is_valid(g, s);
                }
            }
            return None;
        }
        self.aux_solver()
    }

    /// Whether no row, column or box of the working grid holds a non-zero
    /// value twice.
    pub fn is_valid(&self) -> (r: bool)
        requires
            self.wf(),
        ensures
            r == valid(self.working()),
    {
        let ghost g = self.working();
        let mut k: usize = 0;
        while k < 9
            invariant
                self.wf(),
                g == self.working(),
                k <= 9,
                forall|i: int| 0 <= i < k ==> no_duplicate(#[trigger] g[i]),
            decreases 9 - k,
        {
            proof {
                lemma_view_rows(&self.grid);
            }
            if Self::has_duplicate(&self.grid[k]) {
                return false;
            }
            k += 1;
        }
        let mut k: usize = 0;
        while k < 9
            invariant
                self.wf(),
                g == self.working(),
                k <= 9,
                forall|j: int| 0 <= j < k ==> no_duplicate(#[trigger] column(g, j)),
            decreases 9 - k,
        {
            if Self::has_duplicate(&self.col(k)) {
                return false;
            }
            k += 1;
        }
        let mut k: usize = 0;
        while k < 9
            invariant
                self.wf(),
                g == self.working(),
                k <= 9,
                forall|b: int| 0 <= b < k ==> no_duplicate(#[trigger] box_of(g, b)),
            decreases 9 - k,
        {
            let sq = self.square(((k / 3) * 3, (k % 3) * 3));
            assert(sq@ == box_of(g, k as int));
            if Self::has_duplicate(&sq) {
                return false;
            }
            k += 1;
        }
        true
    }
}

impl Solver for Bruteforce {
    fn solve(&mut self) -> Option<Grid> {
        Bruteforce::solve(self)
    }
}

} // verus!
