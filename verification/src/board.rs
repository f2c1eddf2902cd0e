//! The board model: an 8×8 grid of cells, stone placement and the
//! capture-flipping rule.
//!
//! A stone placed on an empty cell captures, in each of the eight
//! compass directions, the contiguous run of opponent stones that is
//! bounded by a stone of the placing color.  A run that reaches the
//! board edge or an empty cell before such a bounding stone causes no
//! flips in that direction.  Placement on an empty cell always
//! succeeds, even when it captures nothing: unlike official Othello
//! rules, this game has no legality check beyond "the cell is empty".

use vstd::prelude::*;

verus! {

/// One board cell: empty, or holding a stone of one color.
#[derive(Clone, Copy, Debug, PartialEq, Eq, Structural)]
pub enum Cell {
    Empty,
    Black,
    White,
}

/// A stone color; also identifies the player about to move.
#[derive(Clone, Copy, Debug, PartialEq, Eq, Structural)]
pub enum Color {
    Black,
    White,
}

/// The cell value that a stone of color `c` occupies.
pub open spec fn stone(c: Color) -> Cell {
    match c {
        Color::Black => Cell::Black,
        Color::White => Cell::White,
    }
}

/// The adversary of color `c`.
pub open spec fn opponent(c: Color) -> Color {
    match c {
        Color::Black => Color::White,
        Color::White => Color::Black,
    }
}

/// Whether `(r, c)` is a coordinate pair inside the 8×8 grid.
pub open spec fn in_bounds(r: int, c: int) -> bool {
    0 <= r < 8 && 0 <= c < 8
}

/// Index of the cell `(r, c)` in the row-major cell sequence.
pub open spec fn idx(r: int, c: int) -> int {
    8 * r + c
}

/// The cell at `(r, c)` of a row-major cell sequence.
pub open spec fn cell_at(b: Seq<Cell>, r: int, c: int) -> Cell {
    b[idx(r, c)]
}

/// The 8×8 grid of cells, stored row-major.
pub struct Board {
    cells: Vec<Cell>,
}

impl View for Board {
    type V = Seq<Cell>;

    closed spec fn view(&self) -> Seq<Cell> {
        self.cells@
    }
}

impl Board {
    /// Well-formed: exactly 64 cells (8 rows of 8).
    pub open spec fn wf(&self) -> bool {
        self@.len() == 64
    }

    /// A board holding the standard Othello opening: White at (3,3)
    /// and (4,4), Black at (3,4) and (4,3), every other cell empty.
    pub fn new() -> (b: Board)
        ensures
            b.wf(),
            forall|r: int, c: int| in_bounds(r, c) ==> #[trigger] cell_at(b@, r, c) == opening_cell(r, c),
    {
        let mut cells: Vec<Cell> = Vec::new();
        let mut i: usize = 0;
        while i < 64
            invariant
                i <= 64,
                cells@.len() == i,
                forall|m: int| 0 <= m < i ==> cells@[m] == Cell::Empty,
            decreases 64 - i,
        {
            cells.push(Cell::Empty);
            i = i + 1;
        }
        let mut b = Board { cells };
        b.set(3, 3, Cell::White);
        b.set(3, 4, Cell::Black);
        b.set(4, 3, Cell::Black);
        b.set(4, 4, Cell::White);
        proof {
            assert forall|r: int, c: int| in_bounds(r, c) implies #[trigger] cell_at(b@, r, c)
                == opening_cell(r, c) by {
                lemma_idx_injective(r, c, 3, 3);
                lemma_idx_injective(r, c, 3, 4);
                lemma_idx_injective(r, c, 4, 3);
                lemma_idx_injective(r, c, 4, 4);
            }
        }
        b
    }

    /// The cell at `(r, c)`.
    pub fn get(&self, r: usize, c: usize) -> (res: Cell)
        requires
            self.wf(),
            r < 8,
            c < 8,
        ensures
            res == cell_at(self@, r as int, c as int),
    {
        self.cells[8 * r + c]
    }

    /// Overwrite the cell at `(r, c)` with `value`, leaving every
    /// other cell unchanged.
    pub fn set(&mut self, r: usize, c: usize, value: Cell)
        requires
            old(self).wf(),
            r < 8,
            c < 8,
        ensures
            final(self).wf(),
            final(self)@ == old(self)@.update(idx(r as int, c as int), value),
    {
        self.cells.set(8 * r + c, value);
    }
}

/// The cell that the standard opening position assigns to `(r, c)`.
pub open spec fn opening_cell(r: int, c: int) -> Cell {
    if (r == 3 && c == 3) || (r == 4 && c == 4) {
        Cell::White
    } else if (r == 3 && c == 4) || (r == 4 && c == 3) {
        Cell::Black
    } else {
        Cell::Empty
    }
}

/// Two in-bounds coordinate pairs with the same row-major index are
/// the same pair.
pub proof fn lemma_idx_injective(r1: int, c1: int, r2: int, c2: int)
    requires
        in_bounds(r1, c1),
        in_bounds(r2, c2),
    ensures
        (idx(r1, c1) == idx(r2, c2)) == (r1 == r2 && c1 == c2),
{
}

/// Whether `(dr, dc)` is one of the eight compass directions.
pub open spec fn is_dir(dr: int, dc: int) -> bool {
    -1 <= dr <= 1 && -1 <= dc <= 1 && (dr != 0 || dc != 0)
}

/// Row coordinate of the cell `k` steps from row `row` along row
/// offset `dr`.
pub open spec fn ray_r(row: int, dr: int, k: int) -> int {
    row + k * dr
}

/// Column coordinate of the cell `k` steps from column `col` along
/// column offset `dc`.
pub open spec fn ray_c(col: int, dc: int, k: int) -> int {
    col + k * dc
}

/// The step at which the ray from `(row, col)` along `(dr, dc)`
/// passes `(i, j)`, assuming it does; meaningful only when `(i, j)`
/// actually lies on that ray.
pub open spec fn ray_k(row: int, col: int, dr: int, dc: int, i: int, j: int) -> int {
    if dr != 0 {
        (i - row) * dr
    } else {
        (j - col) * dc
    }
}

/// The first `n` cells along the ray from `(row, col)` in direction
/// `(dr, dc)` are all in bounds and all hold `opp`.
pub open spec fn opp_run(b: Seq<Cell>, row: int, col: int, dr: int, dc: int, opp: Cell, n: int) -> bool {
    forall|k: int|
        1 <= k <= n ==> in_bounds(#[trigger] ray_r(row, dr, k), ray_c(col, dc, k))
            && cell_at(b, ray_r(row, dr, k), ray_c(col, dc, k)) == opp
}

/// A stone of color `color` placed at `(row, col)` captures exactly
/// `n` stones in direction `(dr, dc)`: the first `n` cells of the ray
/// hold the opponent color, and the cell right after the run is in
/// bounds and holds `color` itself.  A run that instead reaches the
/// board edge or an empty cell is not captured.
pub open spec fn captures(
    b: Seq<Cell>,
    row: int,
    col: int,
    color: Color,
    dr: int,
    dc: int,
    n: int,
) -> bool {
    &&& n >= 0
    &&& opp_run(b, row, col, dr, dc, stone(opponent(color)), n)
    &&& in_bounds(ray_r(row, dr, n + 1), ray_c(col, dc, n + 1))
    &&& cell_at(b, ray_r(row, dr, n + 1), ray_c(col, dc, n + 1)) == stone(color)
}

/// Placing `color` at `(row, col)` flips the cell `(i, j)` through
/// direction `(dr, dc)`: `(i, j)` lies on that ray, within a captured
/// opponent run.
pub open spec fn flips_dir(
    b: Seq<Cell>,
    row: int,
    col: int,
    color: Color,
    dr: int,
    dc: int,
    i: int,
    j: int,
) -> bool {
    exists|n: int|
        {
            let k = ray_k(row, col, dr, dc, i, j);
            #[trigger] captures(b, row, col, color, dr, dc, n) && 1 <= k <= n && i == ray_r(
                row,
                dr,
                k,
            ) && j == ray_c(col, dc, k)
        }
}

/// Placing `color` at `(row, col)` flips the cell `(i, j)` through
/// some compass direction.
pub open spec fn flips(b: Seq<Cell>, row: int, col: int, color: Color, i: int, j: int) -> bool {
    exists|dr: int, dc: int|
        is_dir(dr, dc) && #[trigger] flips_dir(b, row, col, color, dr, dc, i, j)
}

/// Law: only opponent cells flip — a cell that a placement of
/// `color` flips held the opponent's stone before the placement.
pub proof fn lemma_flips_only_opponent_cells(
    b: Seq<Cell>,
    row: int,
    col: int,
    color: Color,
    i: int,
    j: int,
)
    requires
        flips(b, row, col, color, i, j),
    ensures
        cell_at(b, i, j) == stone(opponent(color)),
{
    let (dr, dc) = choose|dr: int, dc: int|
        is_dir(dr, dc) && #[trigger] flips_dir(b, row, col, color, dr, dc, i, j);
    let n0 = choose|n0: int|
        {
            let k0 = ray_k(row, col, dr, dc, i, j);
            #[trigger] captures(b, row, col, color, dr, dc, n0) && 1 <= k0 <= n0 && i == ray_r(
                row,
                dr,
                k0,
            ) && j == ray_c(col, dc, k0)
        };
    let k0 = ray_k(row, col, dr, dc, i, j);
    assert(in_bounds(ray_r(row, dr, k0), ray_c(col, dc, k0)) && cell_at(
        b,
        ray_r(row, dr, k0),
        ray_c(col, dc, k0),
    ) == stone(opponent(color)));
}

/// A cell is on at most one ray: two compass rays from the same
/// origin share no cell away from the origin.
pub proof fn lemma_rays_disjoint(
    row: int,
    col: int,
    dr1: int,
    dc1: int,
    k1: int,
    dr2: int,
    dc2: int,
    k2: int,
)
    requires
        is_dir(dr1, dc1),
        is_dir(dr2, dc2),
        k1 >= 1,
        k2 >= 1,
        ray_r(row, dr1, k1) == ray_r(row, dr2, k2),
        ray_c(col, dc1, k1) == ray_c(col, dc2, k2),
    ensures
        dr1 == dr2 && dc1 == dc2 && k1 == k2,
{
    assert(dr1 == dr2 && dc1 == dc2 && k1 == k2) by (nonlinear_arith)
        requires
            is_dir(dr1, dc1),
            is_dir(dr2, dc2),
            k1 >= 1,
            k2 >= 1,
            row + k1 * dr1 == row + k2 * dr2,
            col + k1 * dc1 == col + k2 * dc2,
    ;
}

/// On a compass ray, the step number recovers itself from the cell
/// coordinates: `ray_k` inverts (`ray_r`, `ray_c`).
pub proof fn lemma_ray_k_inverts(row: int, col: int, dr: int, dc: int, k: int)
    requires
        is_dir(dr, dc),
    ensures
        ray_k(row, col, dr, dc, ray_r(row, dr, k), ray_c(col, dc, k)) == k,
{
    assert(ray_k(row, col, dr, dc, ray_r(row, dr, k), ray_c(col, dc, k)) == k)
        by (nonlinear_arith)
        requires
            is_dir(dr, dc),
    ;
}

/// An in-bounds cell `k >= 1` steps from an in-bounds origin caps `k`
/// at 7: the grid is only 8 cells wide.
pub proof fn lemma_ray_step_bound(row: int, col: int, dr: int, dc: int, k: int)
    requires
        is_dir(dr, dc),
        in_bounds(row, col),
        k >= 1,
        in_bounds(ray_r(row, dr, k), ray_c(col, dc, k)),
    ensures
        k <= 7,
{
    assert(k <= 7) by (nonlinear_arith)
        requires
            is_dir(dr, dc),
            in_bounds(row, col),
            k >= 1,
            in_bounds(row + k * dr, col + k * dc),
    ;
}

/// `(i, j)` is one of the first `m` cells of the ray from
/// `(row, col)` in direction `(dr, dc)`.
pub open spec fn on_run(row: int, col: int, dr: int, dc: int, m: int, i: int, j: int) -> bool {
    exists|s: int| 1 <= s <= m && i == #[trigger] ray_r(row, dr, s) && j == ray_c(col, dc, s)
}

/// A direction captures runs of one length only.
pub proof fn lemma_capture_length_unique(
    b: Seq<Cell>,
    row: int,
    col: int,
    color: Color,
    dr: int,
    dc: int,
    n1: int,
    n2: int,
)
    requires
        captures(b, row, col, color, dr, dc, n1),
        captures(b, row, col, color, dr, dc, n2),
    ensures
        n1 == n2,
{
    if n1 < n2 {
        assert(in_bounds(ray_r(row, dr, n1 + 1), ray_c(col, dc, n1 + 1)));
        assert(cell_at(b, ray_r(row, dr, n1 + 1), ray_c(col, dc, n1 + 1)) == stone(
            opponent(color),
        ));
        assert(false);
    }
    if n2 < n1 {
        assert(in_bounds(ray_r(row, dr, n2 + 1), ray_c(col, dc, n2 + 1)));
        assert(cell_at(b, ray_r(row, dr, n2 + 1), ray_c(col, dc, n2 + 1)) == stone(
            opponent(color),
        ));
        assert(false);
    }
}

/// When direction `(dr, dc)` captures a run of length `n`, the cells
/// it flips are exactly the first `n` cells of its ray.
pub proof fn lemma_flips_dir_is_run(
    b: Seq<Cell>,
    row: int,
    col: int,
    color: Color,
    dr: int,
    dc: int,
    n: int,
)
    requires
        is_dir(dr, dc),
        captures(b, row, col, color, dr, dc, n),
    ensures
        forall|i: int, j: int| #[trigger]
            flips_dir(b, row, col, color, dr, dc, i, j) == on_run(row, col, dr, dc, n, i, j),
{
    assert forall|i: int, j: int| #[trigger]
        flips_dir(b, row, col, color, dr, dc, i, j) == on_run(row, col, dr, dc, n, i, j) by {
        if flips_dir(b, row, col, color, dr, dc, i, j) {
            let n0 = choose|n0: int|
                {
                    let k = ray_k(row, col, dr, dc, i, j);
                    #[trigger] captures(b, row, col, color, dr, dc, n0) && 1 <= k <= n0 && i
                        == ray_r(row, dr, k) && j == ray_c(col, dc, k)
                };
            lemma_capture_length_unique(b, row, col, color, dr, dc, n, n0);
            let k = ray_k(row, col, dr, dc, i, j);
            assert(1 <= k <= n && i == ray_r(row, dr, k) && j == ray_c(col, dc, k));
            assert(on_run(row, col, dr, dc, n, i, j));
        }
        if on_run(row, col, dr, dc, n, i, j) {
            let s = choose|s: int| 1 <= s <= n && i == #[trigger] ray_r(row, dr, s) && j == ray_c(
                col,
                dc,
                s,
            );
            lemma_ray_k_inverts(row, col, dr, dc, s);
            assert(ray_k(row, col, dr, dc, i, j) == s);
            assert(flips_dir(b, row, col, color, dr, dc, i, j));
        }
    }
}

/// A scan that stopped without finding a bounding stone of the
/// placing color captures nothing in that direction: the run reached
/// the board edge, an empty cell, or a cell of the placing color too
/// early for the observed run.
pub proof fn lemma_no_capture(
    b: Seq<Cell>,
    row: int,
    col: int,
    color: Color,
    dr: int,
    dc: int,
    k: int,
)
    requires
        is_dir(dr, dc),
        k >= 0,
        opp_run(b, row, col, dr, dc, stone(opponent(color)), k),
        !(in_bounds(ray_r(row, dr, k + 1), ray_c(col, dc, k + 1)) && cell_at(
            b,
            ray_r(row, dr, k + 1),
            ray_c(col, dc, k + 1),
        ) == stone(opponent(color))),
        !(in_bounds(ray_r(row, dr, k + 1), ray_c(col, dc, k + 1)) && cell_at(
            b,
            ray_r(row, dr, k + 1),
            ray_c(col, dc, k + 1),
        ) == stone(color)),
    ensures
        forall|i: int, j: int| !flips_dir(b, row, col, color, dr, dc, i, j),
{
    assert forall|n: int| !captures(b, row, col, color, dr, dc, n) by {
        if captures(b, row, col, color, dr, dc, n) {
            if n < k {
                assert(in_bounds(ray_r(row, dr, n + 1), ray_c(col, dc, n + 1)));
                assert(cell_at(b, ray_r(row, dr, n + 1), ray_c(col, dc, n + 1)) == stone(
                    opponent(color),
                ));
                assert(false);
            } else if n == k {
                assert(false);
            } else {
                assert(in_bounds(ray_r(row, dr, k + 1), ray_c(col, dc, k + 1))
                    && cell_at(b, ray_r(row, dr, k + 1), ray_c(col, dc, k + 1)) == stone(
                    opponent(color),
                ));
                assert(false);
            }
        }
    }
    assert forall|i: int, j: int| !flips_dir(b, row, col, color, dr, dc, i, j) by {
        if flips_dir(b, row, col, color, dr, dc, i, j) {
            let n0 = choose|n0: int|
                {
                    let k0 = ray_k(row, col, dr, dc, i, j);
                    #[trigger] captures(b, row, col, color, dr, dc, n0) && 1 <= k0 <= n0 && i
                        == ray_r(row, dr, k0) && j == ray_c(col, dc, k0)
                };
            assert(false);
        }
    }
}

/// Two boards that agree on every in-bounds cell of a ray capture and
/// flip the same cells along it.
pub proof fn lemma_flips_dir_same(
    b1: Seq<Cell>,
    b2: Seq<Cell>,
    row: int,
    col: int,
    color: Color,
    dr: int,
    dc: int,
)
    requires
        is_dir(dr, dc),
        forall|k: int|
            k >= 1 && in_bounds(#[trigger] ray_r(row, dr, k), ray_c(col, dc, k)) ==> cell_at(
                b1,
                ray_r(row, dr, k),
                ray_c(col, dc, k),
            ) == cell_at(b2, ray_r(row, dr, k), ray_c(col, dc, k)),
    ensures
        forall|i: int, j: int| #[trigger]
            flips_dir(b1, row, col, color, dr, dc, i, j) == flips_dir(
                b2,
                row,
                col,
                color,
                dr,
                dc,
                i,
                j,
            ),
{
    assert forall|n: int| #[trigger]
        captures(b1, row, col, color, dr, dc, n) == captures(b2, row, col, color, dr, dc, n) by {
        if captures(b1, row, col, color, dr, dc, n) {
            assert forall|k: int|
                1 <= k <= n implies in_bounds(#[trigger] ray_r(row, dr, k), ray_c(col, dc, k))
                && cell_at(b2, ray_r(row, dr, k), ray_c(col, dc, k)) == stone(opponent(color)) by {
                assert(in_bounds(ray_r(row, dr, k), ray_c(col, dc, k)));
            }
            assert(captures(b2, row, col, color, dr, dc, n));
        }
        if captures(b2, row, col, color, dr, dc, n) {
            assert forall|k: int|
                1 <= k <= n implies in_bounds(#[trigger] ray_r(row, dr, k), ray_c(col, dc, k))
                && cell_at(b1, ray_r(row, dr, k), ray_c(col, dc, k)) == stone(opponent(color)) by {
                assert(in_bounds(ray_r(row, dr, k), ray_c(col, dc, k)));
            }
            assert(captures(b1, row, col, color, dr, dc, n));
        }
    }
    assert forall|i: int, j: int| #[trigger]
        flips_dir(b1, row, col, color, dr, dc, i, j) == flips_dir(
            b2,
            row,
            col,
            color,
            dr,
            dc,
            i,
            j,
        ) by {
        if flips_dir(b1, row, col, color, dr, dc, i, j) {
            let n0 = choose|n0: int|
                {
                    let k0 = ray_k(row, col, dr, dc, i, j);
                    #[trigger] captures(b1, row, col, color, dr, dc, n0) && 1 <= k0 <= n0 && i
                        == ray_r(row, dr, k0) && j == ray_c(col, dc, k0)
                };
            assert(captures(b2, row, col, color, dr, dc, n0));
            assert(flips_dir(b2, row, col, color, dr, dc, i, j));
        }
        if flips_dir(b2, row, col, color, dr, dc, i, j) {
            let n0 = choose|n0: int|
                {
                    let k0 = ray_k(row, col, dr, dc, i, j);
                    #[trigger] captures(b2, row, col, color, dr, dc, n0) && 1 <= k0 <= n0 && i
                        == ray_r(row, dr, k0) && j == ray_c(col, dc, k0)
                };
            assert(captures(b1, row, col, color, dr, dc, n0));
            assert(flips_dir(b1, row, col, color, dr, dc, i, j));
        }
    }
}

/// The cell value for a stone of `color`.
pub fn stone_cell(color: Color) -> (c: Cell)
    ensures
        c == stone(color),
{
    match color {
        Color::Black => Cell::Black,
        Color::White => Cell::White,
    }
}

/// The cell value for a stone of the adversary of `color`.
fn opponent_cell(color: Color) -> (c: Cell)
    ensures
        c == stone(opponent(color)),
{
    match color {
        Color::Black => Cell::White,
        Color::White => Cell::Black,
    }
}

/// Scan outward from `(row, col)` in direction `(dr, dc)`; if the
/// contiguous run of opponent stones there is bounded by a stone of
/// the placing color, flip the whole run to `color`, else leave the
/// board unchanged.  The scan treats all four edges alike: it runs
/// down to row and column 0 just as it runs up to row and column 7.
pub fn flip_direction(board: &mut Board, row: usize, col: usize, color: Color, dr: i8, dc: i8)
    requires
        old(board).wf(),
        row < 8,
        col < 8,
        is_dir(dr as int, dc as int),
    ensures
        final(board).wf(),
        forall|i: int, j: int|
            in_bounds(i, j) ==> #[trigger] cell_at(final(board)@, i, j) == (
            if flips_dir(old(board)@, row as int, col as int, color, dr as int, dc as int, i, j) {
                stone(color)
            } else {
                cell_at(old(board)@, i, j)
            }),
{
    let ghost b0 = board@;
    let my = stone_cell(color);
    let opp = opponent_cell(color);
    let mut k: usize = 0;
    let mut r: i8 = row as i8 + dr;
    let mut c: i8 = col as i8 + dc;
    proof {
        assert(r as int == ray_r(row as int, dr as int, 1) && c as int == ray_c(
            col as int,
            dc as int,
            1,
        )) by (nonlinear_arith)
            requires
                r as int == row + dr && c as int == col + dc,
        ;
    }
    while r >= 0 && r < 8 && c >= 0 && c < 8 && board.get(r as usize, c as usize) == opp
        invariant
            board.wf(),
            board@ == b0,
            row < 8,
            col < 8,
            is_dir(dr as int, dc as int),
            my == stone(color),
            opp == stone(opponent(color)),
            k <= 7,
            r as int == ray_r(row as int, dr as int, k as int + 1),
            c as int == ray_c(col as int, dc as int, k as int + 1),
            opp_run(b0, row as int, col as int, dr as int, dc as int, opp, k as int),
        decreases 8 - k,
    {
        proof {
            lemma_ray_step_bound(row as int, col as int, dr as int, dc as int, k as int + 1);
            assert(ray_r(row as int, dr as int, k as int + 1) + dr == ray_r(
                row as int,
                dr as int,
                k as int + 2,
            )) by (nonlinear_arith);
            assert(ray_c(col as int, dc as int, k as int + 1) + dc == ray_c(
                col as int,
                dc as int,
                k as int + 2,
            )) by (nonlinear_arith);
        }
        k = k + 1;
        r = r + dr;
        c = c + dc;
    }
    let captured = r >= 0 && r < 8 && c >= 0 && c < 8 && board.get(r as usize, c as usize) == my;
    if captured {
        proof {
            assert(captures(b0, row as int, col as int, color, dr as int, dc as int, k as int));
            lemma_flips_dir_is_run(
                b0,
                row as int,
                col as int,
                color,
                dr as int,
                dc as int,
                k as int,
            );
        }
        let mut m: usize = 0;
        let mut fr: i8 = row as i8 + dr;
        let mut fc: i8 = col as i8 + dc;
        proof {
            assert(fr as int == ray_r(row as int, dr as int, 1) && fc as int == ray_c(
                col as int,
                dc as int,
                1,
            )) by (nonlinear_arith)
                requires
                    fr as int == row + dr && fc as int == col + dc,
            ;
        }
        while m < k
            invariant
                board.wf(),
                row < 8,
                col < 8,
                is_dir(dr as int, dc as int),
                my == stone(color),
                m <= k,
                k <= 7,
                captures(b0, row as int, col as int, color, dr as int, dc as int, k as int),
                fr as int == ray_r(row as int, dr as int, m as int + 1),
                fc as int == ray_c(col as int, dc as int, m as int + 1),
                forall|i: int, j: int|
                    in_bounds(i, j) ==> #[trigger] cell_at(board@, i, j) == (
                    if on_run(row as int, col as int, dr as int, dc as int, m as int, i, j) {
                        stone(color)
                    } else {
                        cell_at(b0, i, j)
                    }),
            decreases k - m,
        {
            proof {
                assert(in_bounds(
                    ray_r(row as int, dr as int, m as int + 1),
                    ray_c(col as int, dc as int, m as int + 1),
                ));
            }
            let ghost before = board@;
            board.set(fr as usize, fc as usize, my);
            proof {
                assert(ray_r(row as int, dr as int, m as int + 1) + dr == ray_r(
                    row as int,
                    dr as int,
                    m as int + 2,
                )) by (nonlinear_arith);
                assert(ray_c(col as int, dc as int, m as int + 1) + dc == ray_c(
                    col as int,
                    dc as int,
                    m as int + 2,
                )) by (nonlinear_arith);
                let fri = fr as int;
                let fci = fc as int;
                assert forall|i: int, j: int|
                    in_bounds(i, j) implies #[trigger] cell_at(board@, i, j) == (
                if on_run(row as int, col as int, dr as int, dc as int, m as int + 1, i, j) {
                    stone(color)
                } else {
                    cell_at(b0, i, j)
                }) by {
                    lemma_idx_injective(i, j, fri, fci);
                    if i == fri && j == fci {
                        assert(on_run(
                            row as int,
                            col as int,
                            dr as int,
                            dc as int,
                            m as int + 1,
                            i,
                            j,
                        ));
                    } else {
                        assert(cell_at(board@, i, j) == cell_at(before, i, j));
                        if on_run(row as int, col as int, dr as int, dc as int, m as int + 1, i, j) {
                            let s = choose|s: int|
                                1 <= s <= m as int + 1 && i == #[trigger] ray_r(
                                    row as int,
                                    dr as int,
                                    s,
                                ) && j == ray_c(col as int, dc as int, s);
                            if s == m as int + 1 {
                                assert(false);
                            }
                            assert(on_run(row as int, col as int, dr as int, dc as int, m as int, i, j));
                        }
                    }
                }
            }
            m = m + 1;
            fr = fr + dr;
            fc = fc + dc;
        }
    } else {
        proof {
            lemma_no_capture(b0, row as int, col as int, color, dr as int, dc as int, k as int);
        }
    }
}

/// Row offset of the `t`-th compass direction in scan order.
pub open spec fn dir_dr(t: int) -> int {
    if t == 0 {
        -1
    } else if t == 1 {
        1
    } else if t == 2 {
        0
    } else if t == 3 {
        0
    } else if t == 4 {
        -1
    } else if t == 5 {
        -1
    } else if t == 6 {
        1
    } else {
        1
    }
}

/// Column offset of the `t`-th compass direction in scan order.
pub open spec fn dir_dc(t: int) -> int {
    if t == 0 {
        0
    } else if t == 1 {
        0
    } else if t == 2 {
        -1
    } else if t == 3 {
        1
    } else if t == 4 {
        -1
    } else if t == 5 {
        1
    } else if t == 6 {
        -1
    } else {
        1
    }
}

/// The `t`-th compass direction in scan order.
fn direction(t: usize) -> (d: (i8, i8))
    requires
        t < 8,
    ensures
        d.0 as int == dir_dr(t as int),
        d.1 as int == dir_dc(t as int),
        is_dir(d.0 as int, d.1 as int),
{
    match t {
        0 => (-1, 0),
        1 => (1, 0),
        2 => (0, -1),
        3 => (0, 1),
        4 => (-1, -1),
        5 => (-1, 1),
        6 => (1, -1),
        _ => (1, 1),
    }
}

/// Placing `color` at `(row, col)` flips the cell `(i, j)` through
/// one of the first `t` directions in scan order.
pub open spec fn flipped_upto(
    b: Seq<Cell>,
    row: int,
    col: int,
    color: Color,
    t: int,
    i: int,
    j: int,
) -> bool {
    exists|u: int|
        0 <= u < t && #[trigger] flips_dir(b, row, col, color, dir_dr(u), dir_dc(u), i, j)
}

/// Being flipped through one of all eight directions in scan order is
/// being flipped through some compass direction.
pub proof fn lemma_all_dirs_cover(
    b: Seq<Cell>,
    row: int,
    col: int,
    color: Color,
    i: int,
    j: int,
)
    ensures
        flipped_upto(b, row, col, color, 8, i, j) == flips(b, row, col, color, i, j),
{
    if flipped_upto(b, row, col, color, 8, i, j) {
        let u = choose|u: int|
            0 <= u < 8 && #[trigger] flips_dir(b, row, col, color, dir_dr(u), dir_dc(u), i, j);
        assert(is_dir(dir_dr(u), dir_dc(u)));
        assert(flips(b, row, col, color, i, j));
    }
    if flips(b, row, col, color, i, j) {
        let (dr, dc) = choose|dr: int, dc: int|
            is_dir(dr, dc) && #[trigger] flips_dir(b, row, col, color, dr, dc, i, j);
        if dr == -1 && dc == 0 {
            assert(flips_dir(b, row, col, color, dir_dr(0), dir_dc(0), i, j));
        } else if dr == 1 && dc == 0 {
            assert(flips_dir(b, row, col, color, dir_dr(1), dir_dc(1), i, j));
        } else if dr == 0 && dc == -1 {
            assert(flips_dir(b, row, col, color, dir_dr(2), dir_dc(2), i, j));
        } else if dr == 0 && dc == 1 {
            assert(flips_dir(b, row, col, color, dir_dr(3), dir_dc(3), i, j));
        } else if dr == -1 && dc == -1 {
            assert(flips_dir(b, row, col, color, dir_dr(4), dir_dc(4), i, j));
        } else if dr == -1 && dc == 1 {
            assert(flips_dir(b, row, col, color, dir_dr(5), dir_dc(5), i, j));
        } else if dr == 1 && dc == -1 {
            assert(flips_dir(b, row, col, color, dir_dr(6), dir_dc(6), i, j));
        } else {
            assert(flips_dir(b, row, col, color, dir_dr(7), dir_dc(7), i, j));
        }
        assert(flipped_upto(b, row, col, color, 8, i, j));
    }
}

/// Set each cell of a captured opponent run to the placing color, in
/// each of the eight compass directions: the flipping half of stone
/// placement.  The capture rule is evaluated against the board as it
/// stands at the call, which is sound because distinct compass rays
/// from one origin share no cell.
pub fn flip_stones(board: &mut Board, cursor: (usize, usize), color: Color)
    requires
        old(board).wf(),
        cursor.0 < 8,
        cursor.1 < 8,
    ensures
        final(board).wf(),
        forall|i: int, j: int|
            in_bounds(i, j) ==> #[trigger] cell_at(final(board)@, i, j) == (
            if flips(old(board)@, cursor.0 as int, cursor.1 as int, color, i, j) {
                stone(color)
            } else {
                cell_at(old(board)@, i, j)
            }),
{
    let ghost b0 = board@;
    let row = cursor.0;
    let col = cursor.1;
    let mut t: usize = 0;
    while t < 8
        invariant
            board.wf(),
            row < 8,
            col < 8,
            t <= 8,
            forall|i: int, j: int|
                in_bounds(i, j) ==> #[trigger] cell_at(board@, i, j) == (
                if flipped_upto(b0, row as int, col as int, color, t as int, i, j) {
                    stone(color)
                } else {
                    cell_at(b0, i, j)
                }),
        decreases 8 - t,
    {
        let (dr, dc) = direction(t);
        let ghost bt = board@;
        proof {
            assert forall|k: int|
                k >= 1 && in_bounds(
                    #[trigger] ray_r(row as int, dr as int, k),
                    ray_c(col as int, dc as int, k),
                ) implies cell_at(bt, ray_r(row as int, dr as int, k), ray_c(col as int, dc as int, k))
                == cell_at(b0, ray_r(row as int, dr as int, k), ray_c(col as int, dc as int, k)) by {
                let i = ray_r(row as int, dr as int, k);
                let j = ray_c(col as int, dc as int, k);
                if cell_at(bt, i, j) != cell_at(b0, i, j) {
                    assert(flipped_upto(b0, row as int, col as int, color, t as int, i, j));
                    let u = choose|u: int|
                        0 <= u < t as int && #[trigger] flips_dir(
                            b0,
                            row as int,
                            col as int,
                            color,
                            dir_dr(u),
                            dir_dc(u),
                            i,
                            j,
                        );
                    let n0 = choose|n0: int|
                        {
                            let k0 = ray_k(row as int, col as int, dir_dr(u), dir_dc(u), i, j);
                            #[trigger] captures(
                                b0,
                                row as int,
                                col as int,
                                color,
                                dir_dr(u),
                                dir_dc(u),
                                n0,
                            ) && 1 <= k0 <= n0 && i == ray_r(row as int, dir_dr(u), k0) && j
                                == ray_c(col as int, dir_dc(u), k0)
                        };
                    let k0 = ray_k(row as int, col as int, dir_dr(u), dir_dc(u), i, j);
                    lemma_rays_disjoint(
                        row as int,
                        col as int,
                        dr as int,
                        dc as int,
                        k,
                        dir_dr(u),
                        dir_dc(u),
                        k0,
                    );
                    assert(false);
                }
            }
            lemma_flips_dir_same(bt, b0, row as int, col as int, color, dr as int, dc as int);
        }
        flip_direction(board, row, col, color, dr, dc);
        proof {
            assert forall|i: int, j: int|
                in_bounds(i, j) implies #[trigger] cell_at(board@, i, j) == (
            if flipped_upto(b0, row as int, col as int, color, t as int + 1, i, j) {
                stone(color)
            } else {
                cell_at(b0, i, j)
            }) by {
                assert(cell_at(board@, i, j) == (
                if flips_dir(bt, row as int, col as int, color, dr as int, dc as int, i, j) {
                    stone(color)
                } else {
                    cell_at(bt, i, j)
                }));
                if flips_dir(b0, row as int, col as int, color, dr as int, dc as int, i, j) {
                    assert(flips_dir(b0, row as int, col as int, color, dir_dr(t as int), dir_dc(t as int), i, j));
                    assert(flipped_upto(b0, row as int, col as int, color, t as int + 1, i, j));
                } else {
                    if flipped_upto(b0, row as int, col as int, color, t as int, i, j) {
                        let u = choose|u: int|
                            0 <= u < t as int && #[trigger] flips_dir(
                                b0,
                                row as int,
                                col as int,
                                color,
                                dir_dr(u),
                                dir_dc(u),
                                i,
                                j,
                            );
                        assert(flipped_upto(
                            b0,
                            row as int,
                            col as int,
                            color,
                            t as int + 1,
                            i,
                            j,
                        ));
                    } else {
                        if flipped_upto(b0, row as int, col as int, color, t as int + 1, i, j) {
                            let u = choose|u: int|
                                0 <= u < t as int + 1 && #[trigger] flips_dir(
                                    b0,
                                    row as int,
                                    col as int,
                                    color,
                                    dir_dr(u),
                                    dir_dc(u),
                                    i,
                                    j,
                                );
                            assert(u == t as int);
                            assert(false);
                        }
                    }
                }
            }
        }
        t = t + 1;
    }
    proof {
        assert forall|i: int, j: int|
            in_bounds(i, j) implies #[trigger] cell_at(board@, i, j) == (
        if flips(b0, row as int, col as int, color, i, j) {
            stone(color)
        } else {
            cell_at(b0, i, j)
        }) by {
            lemma_all_dirs_cover(b0, row as int, col as int, color, i, j);
        }
    }
}

/// The color about to move when the turn flag reads `turn_black`.
pub open spec fn turn_color(turn_black: bool) -> Color {
    if turn_black {
        Color::Black
    } else {
        Color::White
    }
}

/// The board that results from placing a stone of `color` on the
/// empty cell `(row, col)` of `b`: the target cell takes the stone,
/// the cells the flip rule captures turn to `color`, and every other
/// cell keeps its value.
pub open spec fn place_result(b: Seq<Cell>, row: int, col: int, color: Color) -> Seq<Cell> {
    let placed = b.update(idx(row, col), stone(color));
    Seq::new(
        64,
        |m: int|
            if m == idx(row, col) {
                stone(color)
            } else if flips(placed, row, col, color, m / 8, m % 8) {
                stone(color)
            } else {
                b[m]
            },
    )
}

/// Place a stone for the player on turn at `cursor`.  On an occupied
/// cell the placement is rejected: nothing changes, not even the turn
/// flag.  On an empty cell the stone is placed, captured runs flip,
/// and the turn passes to the other player — even when nothing was
/// captured, since this game checks no legality beyond emptiness.
pub fn set_stone(cursor: (usize, usize), board: &mut Board, turn_black: &mut bool)
    requires
        old(board).wf(),
        cursor.0 < 8,
        cursor.1 < 8,
    ensures
        final(board).wf(),
        cell_at(old(board)@, cursor.0 as int, cursor.1 as int) != Cell::Empty ==> final(board)@
            == old(board)@ && *final(turn_black) == *old(turn_black),
        cell_at(old(board)@, cursor.0 as int, cursor.1 as int) == Cell::Empty ==> *final(turn_black)
            == !*old(turn_black) && final(board)@ == place_result(
            old(board)@,
            cursor.0 as int,
            cursor.1 as int,
            turn_color(*old(turn_black)),
        ),
{
    let (row, col) = cursor;
    if board.get(row, col) == Cell::Empty {
        let ghost b0 = board@;
        let color = if *turn_black {
            Color::Black
        } else {
            Color::White
        };
        board.set(row, col, stone_cell(color));
        let ghost placed = board@;
        flip_stones(board, cursor, color);
        *turn_black = !*turn_black;
        proof {
            let rowi = row as int;
            let coli = col as int;
            let target = place_result(b0, rowi, coli, color);
            assert forall|m: int| 0 <= m < 64 implies board@[m] == target[m] by {
                let i = m / 8;
                let j = m % 8;
                assert(m == 8 * i + j && 0 <= j < 8 && 0 <= i < 8);
                assert(idx(i, j) == m);
                assert(cell_at(board@, i, j) == board@[m]);
                lemma_idx_injective(i, j, rowi, coli);
                if m == idx(rowi, coli) {
                    assert(cell_at(placed, rowi, coli) == stone(color));
                } else {
                    assert(cell_at(placed, i, j) == b0[m]);
                }
            }
            assert(board@ =~= target);
        }
    }
}

} // verus!
