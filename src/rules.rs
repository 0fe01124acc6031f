//! The mathematical model of a grid: its shape, the three kinds of unit
//! (row, column, box), consistency, placement and completion, with the
//! laws that relate them.
use vstd::prelude::*;

verus! {

/// The grid as a sequence of rows, each a sequence of cell values.
pub open spec fn view_of(g: &Vec<Vec<u8>>) -> Seq<Seq<u8>> {
    g@.map_values(|r: Vec<u8>| r@)
}

/// Row `i` of the model is the view of row `i` of the vector.
pub proof fn lemma_view_rows(g: &Vec<Vec<u8>>)
    ensures
        view_of(g).len() == g@.len(),
        forall|i: int| 0 <= i < g@.len() ==> #[trigger] g@[i]@ == view_of(g)[i],
{
}

/// Nine rows of nine cells, each cell in `0..=9`.
pub open spec fn well_formed(g: Seq<Seq<u8>>) -> bool {
    &&& g.len() == 9
    &&& forall|i: int| 0 <= i < 9 ==> #[trigger] g[i].len() == 9
    &&& forall|i: int, j: int| 0 <= i < 9 && 0 <= j < 9 ==> #[trigger] g[i][j] <= 9
}

/// True iff no two positions of `s` hold the same non-zero value.
pub open spec fn no_duplicate(s: Seq<u8>) -> bool {
    forall|a: int, b: int| 0 <= a < b < s.len() && s[a] != 0 ==> s[a] != s[b]
}

/// The values of column `j`, from top to bottom.
pub open spec fn column(g: Seq<Seq<u8>>, j: int) -> Seq<u8> {
    Seq::new(9, |k: int| g[k][j])
}

/// The 3x3 block whose top-left cell is `(x, y)`, in row-major order.
pub open spec fn block_at(g: Seq<Seq<u8>>, x: int, y: int) -> Seq<u8> {
    Seq::new(9, |k: int| g[x + k / 3][y + k % 3])
}

/// Box `b` (numbered row-major from the top-left) in row-major order.
pub open spec fn box_of(g: Seq<Seq<u8>>, b: int) -> Seq<u8> {
    block_at(g, (b / 3) * 3, (b % 3) * 3)
}

/// No row, column or box holds a non-zero value twice.
pub open spec fn valid(g: Seq<Seq<u8>>) -> bool {
    &&& forall|i: int| 0 <= i < 9 ==> no_duplicate(#[trigger] g[i])
    &&& forall|j: int| 0 <= j < 9 ==> no_duplicate(#[trigger] column(g, j))
    &&& forall|b: int| 0 <= b < 9 ==> no_duplicate(#[trigger] box_of(g, b))
}

/// Cells `(i1, j1)` and `(i2, j2)` share a row, a column or a box.
pub open spec fn same_unit(i1: int, j1: int, i2: int, j2: int) -> bool {
    i1 == i2 || j1 == j2 || (i1 / 3 == i2 / 3 && j1 / 3 == j2 / 3)
}

/// No two distinct cells that share a unit hold the same non-zero value.
pub open spec fn conflict_free(g: Seq<Seq<u8>>) -> bool {
    forall|i1: int, j1: int, i2: int, j2: int|
        0 <= i1 < 9 && 0 <= j1 < 9 && 0 <= i2 < 9 && 0 <= j2 < 9 && (i1 != i2 || j1 != j2)
            && same_unit(i1, j1, i2, j2) && #[trigger] g[i1][j1] != 0
            ==> g[i1][j1] != #[trigger] g[i2][j2]
}

/// `v` occurs neither in row `i`, nor in column `j`, nor in the box of `(i, j)`.
pub open spec fn placeable(g: Seq<Seq<u8>>, v: u8, i: int, j: int) -> bool {
    &&& !g[i].contains(v)
    &&& !column(g, j).contains(v)
    &&& !block_at(g, (i / 3) * 3, (j / 3) * 3).contains(v)
}

/// The grid with `v` written at `(i, j)`.
pub open spec fn place(g: Seq<Seq<u8>>, i: int, j: int, v: u8) -> Seq<Seq<u8>> {
    g.update(i, g[i].update(j, v))
}

/// No cell is empty.
pub open spec fn complete(g: Seq<Seq<u8>>) -> bool {
    forall|i: int, j: int| 0 <= i < 9 && 0 <= j < 9 ==> #[trigger] g[i][j] != 0
}

/// `s` keeps every filled cell of `g`.
pub open spec fn agrees(g: Seq<Seq<u8>>, s: Seq<Seq<u8>>) -> bool {
    forall|i: int, j: int| 0 <= i < 9 && 0 <= j < 9 && #[trigger] g[i][j] != 0 ==> s[i][j] == g[i][j]
}

/// `s` is a consistent, completely filled grid that keeps every clue of `g`.
pub open spec fn is_solution(g: Seq<Seq<u8>>, s: Seq<Seq<u8>>) -> bool {
    &&& well_formed(s)
    &&& complete(s)
    &&& valid(s)
    &&& agrees(g, s)
}

/// Some grid solves `g`.
pub open spec fn solvable(g: Seq<Seq<u8>>) -> bool {
    exists|s: Seq<Seq<u8>>| is_solution(g, s)
}

/// `(i, j)` is the first empty cell of `g` in row-major order.
pub open spec fn first_empty(g: Seq<Seq<u8>>, i: int, j: int) -> bool {
    &&& 0 <= i < 9 && 0 <= j < 9
    &&& g[i][j] == 0
    &&& forall|a: int, b: int| 0 <= a < 9 && 0 <= b < 9 && (a < i || (a == i && b < j))
        ==> #[trigger] g[a][b] != 0
}

/// The number of zero entries of `s`.
pub open spec fn zeros(s: Seq<u8>) -> nat
    decreases s.len(),
{
    if s.len() == 0 {
        0
    } else {
        zeros(s.drop_last()) + if s.last() == 0 { 1nat } else { 0nat }
    }
}

/// The number of empty cells of `g`.
pub open spec fn grid_zeros(g: Seq<Seq<u8>>) -> nat
    decreases g.len(),
{
    if g.len() == 0 {
        0
    } else {
        grid_zeros(g.drop_last()) + zeros(g.last())
    }
}

proof fn lemma_zeros_update(s: Seq<u8>, j: int, v: u8)
    requires
        0 <= j < s.len(),
        s[j] == 0,
        v != 0,
    ensures
        zeros(s.update(j, v)) + 1 == zeros(s),
    decreases s.len(),
{
    let t = s.update(j, v);
    if j == s.len() - 1 {
        assert(t.drop_last() =~= s.drop_last());
    } else {
        assert(t.drop_last() =~= s.drop_last().update(j, v));
        lemma_zeros_update(s.drop_last(), j, v);
    }
}

proof fn lemma_grid_zeros_update(g: Seq<Seq<u8>>, i: int, r: Seq<u8>)
    requires
        0 <= i < g.len(),
        zeros(r) + 1 == zeros(g[i]),
    ensures
        grid_zeros(g.update(i, r)) + 1 == grid_zeros(g),
    decreases g.len(),
{
    let h = g.update(i, r);
    if i == g.len() - 1 {
        assert(h.drop_last() =~= g.drop_last());
    } else {
        assert(h.drop_last() =~= g.drop_last().update(i, r));
        lemma_grid_zeros_update(g.drop_last(), i, r);
    }
}

/// Filling an empty cell with a non-zero value leaves one empty cell fewer.
pub proof fn lemma_place_fills_one(g: Seq<Seq<u8>>, i: int, j: int, v: u8)
    requires
        0 <= i < g.len(),
        0 <= j < g[i].len(),
        g[i][j] == 0,
        v != 0,
    ensures
        grid_zeros(place(g, i, j, v)) + 1 == grid_zeros(g),
{
    lemma_zeros_update(g[i], j, v);
    lemma_grid_zeros_update(g, i, g[i].update(j, v));
}

/// Cell `(i, j)` is entry `(i % 3) * 3 + j % 3` of box `(i / 3) * 3 + j / 3`.
pub proof fn lemma_cell_in_box(i: int, j: int)
    requires
        0 <= i < 9,
        0 <= j < 9,
    ensures
        0 <= (i / 3) * 3 + j / 3 < 9,
        0 <= (i % 3) * 3 + j % 3 < 9,
        (((i / 3) * 3 + j / 3) / 3) * 3 + ((i % 3) * 3 + j % 3) / 3 == i,
        (((i / 3) * 3 + j / 3) % 3) * 3 + ((i % 3) * 3 + j % 3) % 3 == j,
{
}

/// Entry `k` of box `b` lies in that box, and distinct entries are distinct cells.
pub proof fn lemma_box_cell(b: int, k: int, l: int)
    requires
        0 <= b < 9,
        0 <= k < 9,
        0 <= l < 9,
    ensures
        0 <= (b / 3) * 3 + k / 3 < 9,
        0 <= (b % 3) * 3 + k % 3 < 9,
        ((b / 3) * 3 + k / 3) / 3 == b / 3,
        ((b % 3) * 3 + k % 3) / 3 == b % 3,
        k != l ==> (k / 3 != l / 3 || k % 3 != l % 3),
{
}

/// Consistency stated unit by unit is the same as consistency stated
/// cell by cell: a grid is valid exactly when no two distinct cells that
/// share a row, a column or a box hold the same non-zero value.
pub proof fn lemma_valid_iff_conflict_free(g: Seq<Seq<u8>>)
    requires
        well_formed(g),
    ensures
        valid(g) <==> conflict_free(g),
{
    if valid(g) {
        assert forall|i1: int, j1: int, i2: int, j2: int|
            0 <= i1 < 9 && 0 <= j1 < 9 && 0 <= i2 < 9 && 0 <= j2 < 9 && (i1 != i2 || j1 != j2)
                && same_unit(i1, j1, i2, j2) && #[trigger] g[i1][j1] != 0
            implies g[i1][j1] != #[trigger] g[i2][j2] by {
            if g[i1][j1] == g[i2][j2] {
                if i1 == i2 {
                    assert(no_duplicate(g[i1]));
                    if j1 > j2 {
                        assert(g[i1][j2] != 0);
                    }
                } else if j1 == j2 {
                    let c = column(g, j1);
                    assert(no_duplicate(c));
                    assert(c[i1] == g[i1][j1] && c[i2] == g[i2][j2]);
                } else {
                    let b = (i1 / 3) * 3 + j1 / 3;
                    let k1 = (i1 % 3) * 3 + j1 % 3;
                    let k2 = (i2 % 3) * 3 + j2 % 3;
                    lemma_cell_in_box(i1, j1);
                    lemma_cell_in_box(i2, j2);
                    assert(b == (i2 / 3) * 3 + j2 / 3);
                    let bx = box_of(g, b);
                    assert(no_duplicate(bx));
                    assert(bx[k1] == g[i1][j1]);
                    assert(bx[k2] == g[i2][j2]);
                    assert(k1 != k2);
                }
            }
        }
    }
    if conflict_free(g) {
        assert forall|i: int| 0 <= i < 9 implies no_duplicate(#[trigger] g[i]) by {
            assert forall|a: int, b: int| 0 <= a < b < g[i].len() && g[i][a] != 0
                implies g[i][a] != g[i][b] by {
                assert(g[i][a] != 0);
                assert(same_unit(i, a, i, b));
            }
        }
        assert forall|j: int| 0 <= j < 9 implies no_duplicate(#[trigger] column(g, j)) by {
            let c = column(g, j);
            assert forall|a: int, b: int| 0 <= a < b < c.len() && c[a] != 0
                implies c[a] != c[b] by {
                assert(g[a][j] != 0);
                assert(same_unit(a, j, b, j));
            }
        }
        assert forall|b: int| 0 <= b < 9 implies no_duplicate(#[trigger] box_of(g, b)) by {
            let c = box_of(g, b);
            assert forall|k: int, l: int| 0 <= k < l < c.len() && c[k] != 0
                implies c[k] != c[l] by {
                lemma_box_cell(b, k, l);
                lemma_box_cell(b, l, k);
                let x1 = (b / 3) * 3 + k / 3;
                let y1 = (b % 3) * 3 + k % 3;
                let x2 = (b / 3) * 3 + l / 3;
                let y2 = (b % 3) * 3 + l % 3;
                assert(c[k] == g[x1][y1]);
                assert(c[l] == g[x2][y2]);
                assert(g[x1][y1] != 0);
                assert(same_unit(x1, y1, x2, y2));
            }
        }
    }
}

/// `placeable` names exactly the values held by no cell that shares a unit with `(i, j)`.
pub proof fn lemma_placeable_iff(g: Seq<Seq<u8>>, v: u8, i: int, j: int)
    requires
        well_formed(g),
        0 <= i < 9,
        0 <= j < 9,
    ensures
        placeable(g, v, i, j) <==> (forall|a: int, b: int|
            0 <= a < 9 && 0 <= b < 9 && same_unit(i, j, a, b) ==> #[trigger] g[a][b] != v),
{
    let x = (i / 3) * 3;
    let y = (j / 3) * 3;
    let bl = block_at(g, x, y);
    if placeable(g, v, i, j) {
        assert forall|a: int, b: int| 0 <= a < 9 && 0 <= b < 9 && same_unit(i, j, a, b)
            implies #[trigger] g[a][b] != v by {
            if a == i {
                assert(g[i][b] == g[a][b]);
            } else if b == j {
                assert(column(g, j)[a] == g[a][b]);
            } else {
                let k = (a % 3) * 3 + b % 3;
                assert(bl[k] == g[a][b]);
            }
        }
    }
    if forall|a: int, b: int| 0 <= a < 9 && 0 <= b < 9 && same_unit(i, j, a, b)
        ==> #[trigger] g[a][b] != v {
        assert forall|k: int| 0 <= k < 9 implies g[i][k] != v by {
            assert(same_unit(i, j, i, k));
        }
        assert forall|k: int| 0 <= k < 9 implies column(g, j)[k] != v by {
            assert(same_unit(i, j, k, j));
        }
        assert forall|k: int| 0 <= k < 9 implies bl[k] != v by {
            assert(same_unit(i, j, x + k / 3, y + k % 3));
        }
    }
}

/// Writing a non-zero value into an empty cell of a consistent grid keeps it
/// consistent exactly when that value occurs in none of the cell's row,
/// column and box.
pub proof fn lemma_placement(g: Seq<Seq<u8>>, v: u8, i: int, j: int)
    requires
        well_formed(g),
        valid(g),
        0 <= i < 9,
        0 <= j < 9,
        g[i][j] == 0,
        1 <= v <= 9,
    ensures
        well_formed(place(g, i, j, v)),
        placeable(g, v, i, j) <==> valid(place(g, i, j, v)),
{
    let h = place(g, i, j, v);
    assert forall|a: int, b: int| 0 <= a < 9 && 0 <= b < 9
        implies #[trigger] h[a][b] == if a == i && b == j { v } else { g[a][b] } by {
    }
    assert(well_formed(h));
    lemma_valid_iff_conflict_free(g);
    lemma_valid_iff_conflict_free(h);
    lemma_placeable_iff(g, v, i, j);
    if placeable(g, v, i, j) {
        assert forall|i1: int, j1: int, i2: int, j2: int|
            0 <= i1 < 9 && 0 <= j1 < 9 && 0 <= i2 < 9 && 0 <= j2 < 9 && (i1 != i2 || j1 != j2)
                && same_unit(i1, j1, i2, j2) && #[trigger] h[i1][j1] != 0
            implies h[i1][j1] != #[trigger] h[i2][j2] by {
            if i1 == i && j1 == j {
                assert(g[i2][j2] != v);
            } else if i2 == i && j2 == j {
                assert(same_unit(i, j, i1, j1));
                assert(g[i1][j1] != v);
            } else {
                assert(g[i1][j1] != 0);
                assert(g[i1][j1] != g[i2][j2]);
            }
        }
    }
    if valid(h) {
        assert forall|a: int, b: int| 0 <= a < 9 && 0 <= b < 9 && same_unit(i, j, a, b)
            implies #[trigger] g[a][b] != v by {
            if a != i || b != j {
                assert(h[i][j] != 0);
                assert(h[i][j] != h[a][b]);
            }
        }
    }
}

/// A grid that has a solution is itself consistent.
pub proof fn lemma_solvable_is_valid(g: Seq<Seq<u8>>, s: Seq<Seq<u8>>)
    requires
        well_formed(g),
        is_solution(g, s),
    ensures
        valid(g),
{
    lemma_valid_iff_conflict_free(g);
    lemma_valid_iff_conflict_free(s);
    assert forall|i1: int, j1: int, i2: int, j2: int|
        0 <= i1 < 9 && 0 <= j1 < 9 && 0 <= i2 < 9 && 0 <= j2 < 9 && (i1 != i2 || j1 != j2)
            && same_unit(i1, j1, i2, j2) && #[trigger] g[i1][j1] != 0
        implies g[i1][j1] != #[trigger] g[i2][j2] by {
        assert(s[i1][j1] == g[i1][j1]);
        if g[i2][j2] != 0 {
            assert(s[i2][j2] == g[i2][j2]);
        }
    }
}

/// The only solution of a grid with no empty cell is that grid itself.
pub proof fn lemma_complete_solution_is_itself(g: Seq<Seq<u8>>, s: Seq<Seq<u8>>)
    requires
        well_formed(g),
        complete(g),
        is_solution(g, s),
    ensures
        s == g,
{
    assert forall|i: int| 0 <= i < 9 implies #[trigger] s[i] == g[i] by {
        assert forall|j: int| 0 <= j < 9 implies s[i][j] == g[i][j] by {
            assert(g[i][j] != 0);
        }
        assert(s[i] =~= g[i]);
    }
    assert(s =~= g);
}

/// In every solution of `g`, an empty cell holds a value that `placeable` admits.
pub proof fn lemma_solution_value_placeable(g: Seq<Seq<u8>>, s: Seq<Seq<u8>>, i: int, j: int)
    requires
        well_formed(g),
        is_solution(g, s),
        0 <= i < 9,
        0 <= j < 9,
        g[i][j] == 0,
    ensures
        placeable(g, s[i][j], i, j),
{
    let v = s[i][j];
    lemma_placeable_iff(g, v, i, j);
    lemma_valid_iff_conflict_free(s);
    assert forall|a: int, b: int| 0 <= a < 9 && 0 <= b < 9 && same_unit(i, j, a, b)
        implies #[trigger] g[a][b] != v by {
        if g[a][b] == v {
            assert(v != 0);
            assert(s[a][b] == v);
            assert(s[i][j] != 0);
        }
    }
}

/// Solutions of `g` whose cell `(i, j)` holds `v` are the solutions of `g`
/// with `v` written at the empty cell `(i, j)`.
pub proof fn lemma_solution_of_place(g: Seq<Seq<u8>>, s: Seq<Seq<u8>>, i: int, j: int, v: u8)
    requires
        well_formed(g),
        0 <= i < 9,
        0 <= j < 9,
        g[i][j] == 0,
        v != 0,
    ensures
        is_solution(place(g, i, j, v), s) <==> (is_solution(g, s) && s[i][j] == v),
{
    let h = place(g, i, j, v);
    assert forall|a: int, b: int| 0 <= a < 9 && 0 <= b < 9
        implies #[trigger] h[a][b] == if a == i && b == j { v } else { g[a][b] } by {
    }
    if is_solution(h, s) {
        assert(h[i][j] != 0);
        assert forall|a: int, b: int| 0 <= a < 9 && 0 <= b < 9 && #[trigger] g[a][b] != 0
            implies s[a][b] == g[a][b] by {
            assert(h[a][b] != 0);
        }
    }
    if is_solution(g, s) && s[i][j] == v {
        assert forall|a: int, b: int| 0 <= a < 9 && 0 <= b < 9 && #[trigger] h[a][b] != 0
            implies s[a][b] == h[a][b] by {
            if a != i || b != j {
                assert(g[a][b] != 0);
            }
        }
    }
}

} // verus!
