//! The puzzle grid: input and solution cells, and the validity checker.
//!
//! A grid with side `n` is stored row-major as a flat vector of `n * n`
//! cells; `0` marks an empty cell and `1..=n` are placed values.  The boxes
//! are `br` rows by `bc` columns, with `n == br * bc`.

use crate::masks::{mask_contains, mask_has, value_bit};
use crate::masks::{lemma_mask_empty, lemma_mask_or_bit};
use crate::solver::SolveError;
use vstd::prelude::*;

verus! {

/// Acceptable board dimensions: boxes of `br` x `bc` cells tile a square of
/// side `n == br * bc`, and every side length up to 16 fits a mask word.
pub open spec fn dims_ok(n: int, br: int, bc: int) -> bool {
    1 <= br && 1 <= bc && n == br * bc && n <= 16
}

/// The cell of row `r`, column `c` in a flat row-major grid of side `n`.
pub open spec fn cell(g: Seq<u8>, n: int, r: int, c: int) -> u8 {
    g[r * n + c]
}

/// Index of the box that covers row `r`, column `c`: boxes are numbered
/// row-major, `n / bc` of them per band of `br` rows.
pub open spec fn box_of(n: int, br: int, bc: int, r: int, c: int) -> int {
    (r / br) * (n / bc) + c / bc
}

/// Every cell holds a placed value, none is out of range.
pub open spec fn cells_in_range(g: Seq<u8>, n: int) -> bool {
    forall|r: int, c: int|
        0 <= r < n && 0 <= c < n ==> 1 <= #[trigger] cell(g, n, r, c) <= n
}

/// No value occurs twice in row `r`.
pub open spec fn row_distinct(g: Seq<u8>, n: int, r: int) -> bool {
    forall|c1: int, c2: int|
        #![trigger cell(g, n, r, c1), cell(g, n, r, c2)]
        0 <= c1 < c2 < n ==> cell(g, n, r, c1) != cell(g, n, r, c2)
}

/// No value occurs twice in column `c`.
pub open spec fn col_distinct(g: Seq<u8>, n: int, c: int) -> bool {
    forall|r1: int, r2: int|
        #![trigger cell(g, n, r1, c), cell(g, n, r2, c)]
        0 <= r1 < r2 < n ==> cell(g, n, r1, c) != cell(g, n, r2, c)
}

/// The cell at offset (`dr`, `dc`) inside the box of band `bi`, stack `bj`:
/// the tile of `br * bc` cells whose top-left corner is row `bi * br`,
/// column `bj * bc`.
pub open spec fn box_cell(g: Seq<u8>, n: int, br: int, bc: int, bi: int, bj: int, dr: int, dc: int) -> u8 {
    cell(g, n, bi * br + dr, bj * bc + dc)
}

/// No value occurs twice in the box of band `bi`, stack `bj`.
pub open spec fn box_distinct(g: Seq<u8>, n: int, br: int, bc: int, bi: int, bj: int) -> bool {
    forall|dr1: int, dc1: int, dr2: int, dc2: int|
        #![trigger box_cell(g, n, br, bc, bi, bj, dr1, dc1), box_cell(g, n, br, bc, bi, bj, dr2, dc2)]
        0 <= dr1 < br && 0 <= dc1 < bc && 0 <= dr2 < br && 0 <= dc2 < bc && !(dr1 == dr2 && dc1
            == dc2) ==> box_cell(g, n, br, bc, bi, bj, dr1, dc1) != box_cell(
            g,
            n,
            br,
            bc,
            bi,
            bj,
            dr2,
            dc2,
        )
}

/// A completely solved grid: every cell placed, and every row, column and
/// box holds `n` pairwise distinct values of 1..=n — that is, a permutation
/// of 1..=n.
pub open spec fn grid_valid(g: Seq<u8>, n: int, br: int, bc: int) -> bool {
    &&& g.len() == n * n
    &&& cells_in_range(g, n)
    &&& forall|r: int| 0 <= r < n ==> #[trigger] row_distinct(g, n, r)
    &&& forall|c: int| 0 <= c < n ==> #[trigger] col_distinct(g, n, c)
    &&& forall|bi: int, bj: int|
        0 <= bi < bc && 0 <= bj < br ==> #[trigger] box_distinct(g, n, br, bc, bi, bj)
}

/// No two given (non-empty) cells that share a row, a column or a box hold
/// the same value.
pub open spec fn givens_compatible(g: Seq<u8>, n: int, br: int, bc: int) -> bool {
    forall|r1: int, c1: int, r2: int, c2: int|
        #![trigger cell(g, n, r1, c1), cell(g, n, r2, c2)]
        0 <= r1 < n && 0 <= c1 < n && 0 <= r2 < n && 0 <= c2 < n && !(r1 == r2 && c1 == c2)
            && cell(g, n, r1, c1) != 0 && (r1 == r2 || c1 == c2 || box_of(n, br, bc, r1, c1)
            == box_of(n, br, bc, r2, c2)) ==> cell(g, n, r1, c1) != cell(g, n, r2, c2)
}

/// `sol` keeps every value that `init` already placed.
pub open spec fn preserves_givens(init: Seq<u8>, sol: Seq<u8>) -> bool {
    forall|i: int| 0 <= i < init.len() && init[i] != 0 ==> #[trigger] sol[i] == init[i]
}

/// How many cells of the grid are still empty.
pub open spec fn count_zeros(g: Seq<u8>) -> nat
    decreases g.len(),
{
    if g.len() == 0 {
        0
    } else {
        count_zeros(g.drop_last()) + (if g.last() == 0 {
            1nat
        } else {
            0nat
        })
    }
}

/// Filling one empty cell lowers the number of empty cells by one.
pub proof fn lemma_count_zeros_update(g: Seq<u8>, i: int, v: u8)
    requires
        0 <= i < g.len(),
        g[i] == 0,
        v != 0,
    ensures
        count_zeros(g.update(i, v)) == count_zeros(g) - 1,
    decreases g.len(),
{
    let g2 = g.update(i, v);
    if i == g.len() - 1 {
        assert(g2.drop_last() =~= g.drop_last());
    } else {
        assert(g2.drop_last() =~= g.drop_last().update(i, v));
        lemma_count_zeros_update(g.drop_last(), i, v);
    }
}

/// A flat index stays inside the grid and inside machine bounds.
pub proof fn lemma_cell_index(n: int, r: int, c: int)
    requires
        0 <= r < n,
        0 <= c < n,
        n <= 16,
    ensures
        0 <= r * n + c,
        r * n + c < n * n,
        n * n <= 256,
{
    assert(0 <= r * n + c && r * n + c < n * n && n * n <= 256) by (nonlinear_arith)
        requires
            0 <= r < n,
            0 <= c < n,
            n <= 16,
    ;
}

/// The box index of an in-bounds cell is itself in 0..n.
pub proof fn lemma_box_of_bounds(n: int, br: int, bc: int, r: int, c: int)
    requires
        dims_ok(n, br, bc),
        0 <= r < n,
        0 <= c < n,
    ensures
        0 <= box_of(n, br, bc, r, c) < n,
        n / bc == br,
        r / br < bc,
        c / bc < br,
{
    assert(n / bc == br && r / br < bc && c / bc < br && 0 <= r / br && 0 <= c / bc)
        by (nonlinear_arith)
        requires
            1 <= br,
            1 <= bc,
            n == br * bc,
            0 <= r < n,
            0 <= c < n,
    ;
    assert((r / br) * br + c / bc < n) by (nonlinear_arith)
        requires
            n == br * bc,
            1 <= br,
            1 <= bc,
            r / br < bc,
            c / bc < br,
            0 <= r / br,
            0 <= c / bc,
    ;
}

/// Reads one cell of a flat grid.
pub(crate) fn cell_at(g: &Vec<u8>, n: usize, r: usize, c: usize) -> (v: u8)
    requires
        g@.len() == n * n,
        n <= 16,
        r < n,
        c < n,
    ensures
        v == cell(g@, n as int, r as int, c as int),
{
    proof {
        lemma_cell_index(n as int, r as int, c as int);
    }
    g[r * n + c]
}

/// Copies the entries of a vector into a fresh one.
pub(crate) fn copy_vec<T: Copy>(g: &Vec<T>) -> (r: Vec<T>)
    ensures
        r@ == g@,
{
    let mut r: Vec<T> = Vec::new();
    let mut i: usize = 0;
    while i < g.len()
        invariant
            i <= g@.len(),
            r@.len() == i,
            forall|j: int| 0 <= j < i ==> r@[j] == g@[j],
        decreases g@.len() - i,
    {
        r.push(g[i]);
        i = i + 1;
    }
    proof {
        assert(r@ =~= g@);
    }
    r
}

/// Bounds of one cell of a box tile.
proof fn lemma_box_cell_bounds(n: int, br: int, bc: int, bi: int, bj: int, dr: int, dc: int)
    requires
        dims_ok(n, br, bc),
        0 <= bi < bc,
        0 <= bj < br,
        0 <= dr < br,
        0 <= dc < bc,
    ensures
        0 <= bi * br + dr < n,
        0 <= bj * bc + dc < n,
{
    assert(0 <= bi * br + dr < n && 0 <= bj * bc + dc < n) by (nonlinear_arith)
        requires
            n == br * bc,
            1 <= br,
            1 <= bc,
            0 <= bi < bc,
            0 <= bj < br,
            0 <= dr < br,
            0 <= dc < bc,
    ;
}

/// Decides whether a fully placed grid is a valid solution: every cell in
/// 1..=n and no value repeated in any row, column or box.
#[verifier::loop_isolation(false)]
pub(crate) fn grid_filled_valid(g: &Vec<u8>, n: usize, br: usize, bc: usize) -> (ok: bool)
    requires
        dims_ok(n as int, br as int, bc as int),
        g@.len() == n * n,
    ensures
        ok == grid_valid(g@, n as int, br as int, bc as int),
{
    let gs = Ghost(g@);
    let ni = Ghost(n as int);
    // Rows: range of every cell, and no duplicate within a row.
    let mut r: usize = 0;
    while r < n
        invariant
            r <= n,
            forall|r2: int| 0 <= r2 < r ==> #[trigger] row_distinct(g@, n as int, r2),
            forall|r2: int, c2: int|
                0 <= r2 < r && 0 <= c2 < n ==> 1 <= #[trigger] cell(g@, n as int, r2, c2) <= n,
        decreases n - r,
    {
        let mut mask: u16 = 0;
        let mut c: usize = 0;
        proof {
            assert forall|w: int| 1 <= w <= 16 implies !mask_has(0u16, w) by {
                lemma_mask_empty(w);
            }
        }
        while c < n
            invariant
                r < n,
                c <= n,
                forall|v: int|
                    1 <= v <= 16 ==> (#[trigger] mask_has(mask, v) <==> exists|c2: int|
                        0 <= c2 < c && #[trigger] cell(g@, n as int, r as int, c2) == v),
                forall|c2: int|
                    0 <= c2 < c ==> 1 <= #[trigger] cell(g@, n as int, r as int, c2) <= n,
                forall|c1: int, c2: int|
                    #![trigger cell(g@, n as int, r as int, c1), cell(g@, n as int, r as int, c2)]
                    0 <= c1 < c2 < c ==> cell(g@, n as int, r as int, c1) != cell(
                        g@,
                        n as int,
                        r as int,
                        c2,
                    ),
            decreases n - c,
        {
            let v = cell_at(g, n, r, c);
            if v == 0 || v > n as u8 {
                assert(!cells_in_range(g@, n as int));
                return false;
            }
            if mask_contains(mask, v) {
                proof {
                    let c2 = choose|c2: int|
                        0 <= c2 < c && #[trigger] cell(g@, n as int, r as int, c2) == v;
                    assert(!row_distinct(g@, n as int, r as int));
                }
                return false;
            }
            let ghost m0 = mask;
            mask = mask | (1u16 << ((v - 1) as u16));
            proof {
                assert(mask == m0 | value_bit(v as int));
                assert forall|w: int| 1 <= w <= 16 implies (#[trigger] mask_has(mask, w)
                    <==> exists|c2: int|
                    0 <= c2 < c + 1 && #[trigger] cell(g@, n as int, r as int, c2) == w) by {
                    lemma_mask_or_bit(m0, v as int, w);
                    if v as int == w {
                        assert(cell(g@, n as int, r as int, c as int) == w);
                    }
                }
            }
            c = c + 1;
        }
        r = r + 1;
    }
    // Columns: no duplicate within a column.
    let mut c: usize = 0;
    while c < n
        invariant
            c <= n,
            cells_in_range(g@, n as int),
            forall|r2: int| 0 <= r2 < n ==> #[trigger] row_distinct(g@, n as int, r2),
            forall|c2: int| 0 <= c2 < c ==> #[trigger] col_distinct(g@, n as int, c2),
        decreases n - c,
    {
        let mut mask: u16 = 0;
        let mut r: usize = 0;
        proof {
            assert forall|w: int| 1 <= w <= 16 implies !mask_has(0u16, w) by {
                lemma_mask_empty(w);
            }
        }
        while r < n
            invariant
                c < n,
                r <= n,
                forall|v: int|
                    1 <= v <= 16 ==> (#[trigger] mask_has(mask, v) <==> exists|r2: int|
                        0 <= r2 < r && #[trigger] cell(g@, n as int, r2, c as int) == v),
                forall|r1: int, r2: int|
                    #![trigger cell(g@, n as int, r1, c as int), cell(g@, n as int, r2, c as int)]
                    0 <= r1 < r2 < r ==> cell(g@, n as int, r1, c as int) != cell(
                        g@,
                        n as int,
                        r2,
                        c as int,
                    ),
            decreases n - r,
        {
            let v = cell_at(g, n, r, c);
            if mask_contains(mask, v) {
                proof {
                    let r2 = choose|r2: int|
                        0 <= r2 < r && #[trigger] cell(g@, n as int, r2, c as int) == v;
                    assert(!col_distinct(g@, n as int, c as int));
                }
                return false;
            }
            let ghost m0 = mask;
            mask = mask | (1u16 << ((v - 1) as u16));
            proof {
                assert(mask == m0 | value_bit(v as int));
                assert forall|w: int| 1 <= w <= 16 implies (#[trigger] mask_has(mask, w)
                    <==> exists|r2: int|
                    0 <= r2 < r + 1 && #[trigger] cell(g@, n as int, r2, c as int) == w) by {
                    lemma_mask_or_bit(m0, v as int, w);
                    if v as int == w {
                        assert(cell(g@, n as int, r as int, c as int) == w);
                    }
                }
            }
            r = r + 1;
        }
        c = c + 1;
    }
    // Boxes: no duplicate within any box tile.
    let mut bi: usize = 0;
    while bi < bc
        invariant
            bi <= bc,
            cells_in_range(g@, n as int),
            forall|b1: int, b2: int|
                0 <= b1 < bi && 0 <= b2 < br ==> #[trigger] box_distinct(
                    g@,
                    n as int,
                    br as int,
                    bc as int,
                    b1,
                    b2,
                ),
        decreases bc - bi,
    {
        let mut bj: usize = 0;
        while bj < br
            invariant
                bi < bc,
                bj <= br,
                forall|b2: int|
                    0 <= b2 < bj ==> #[trigger] box_distinct(
                        g@,
                        n as int,
                        br as int,
                        bc as int,
                        bi as int,
                        b2,
                    ),
            decreases br - bj,
        {
            let mut mask: u16 = 0;
            let mut dr: usize = 0;
            proof {
                assert forall|w: int| 1 <= w <= 16 implies !mask_has(0u16, w) by {
                    lemma_mask_empty(w);
                }
            }
            while dr < br
                invariant
                    bi < bc,
                    bj < br,
                    dr <= br,
                    forall|v: int|
                        1 <= v <= 16 ==> (#[trigger] mask_has(mask, v) <==> exists|
                            a: int,
                            b: int,
                        |
                            0 <= a < dr && 0 <= b < bc && #[trigger] box_cell(
                                g@,
                                n as int,
                                br as int,
                                bc as int,
                                bi as int,
                                bj as int,
                                a,
                                b,
                            ) == v),
                    forall|a1: int, b1: int, a2: int, b2: int|
                        #![trigger box_cell(g@, n as int, br as int, bc as int, bi as int, bj as int, a1, b1), box_cell(g@, n as int, br as int, bc as int, bi as int, bj as int, a2, b2)]
                        0 <= a1 < dr && 0 <= b1 < bc && 0 <= a2 < dr && 0 <= b2 < bc && !(a1 == a2
                            && b1 == b2) ==> box_cell(
                            g@,
                            n as int,
                            br as int,
                            bc as int,
                            bi as int,
                            bj as int,
                            a1,
                            b1,
                        ) != box_cell(
                            g@,
                            n as int,
                            br as int,
                            bc as int,
                            bi as int,
                            bj as int,
                            a2,
                            b2,
                        ),
                decreases br - dr,
            {
                let mut dc: usize = 0;
                while dc < bc
                    invariant
                        bi < bc,
                        bj < br,
                        dr < br,
                        dc <= bc,
                        forall|v: int|
                            1 <= v <= 16 ==> (#[trigger] mask_has(mask, v) <==> exists|
                                a: int,
                                b: int,
                            |
                                0 <= a <= dr && 0 <= b < bc && (a < dr || b < dc)
                                    && #[trigger] box_cell(
                                    g@,
                                    n as int,
                                    br as int,
                                    bc as int,
                                    bi as int,
                                    bj as int,
                                    a,
                                    b,
                                ) == v),
                        forall|a1: int, b1: int, a2: int, b2: int|
                            #![trigger box_cell(g@, n as int, br as int, bc as int, bi as int, bj as int, a1, b1), box_cell(g@, n as int, br as int, bc as int, bi as int, bj as int, a2, b2)]
                            0 <= a1 <= dr && 0 <= b1 < bc && (a1 < dr || b1 < dc) && 0 <= a2 <= dr
                                && 0 <= b2 < bc && (a2 < dr || b2 < dc) && !(a1 == a2 && b1 == b2)
                                ==> box_cell(
                                g@,
                                n as int,
                                br as int,
                                bc as int,
                                bi as int,
                                bj as int,
                                a1,
                                b1,
                            ) != box_cell(
                                g@,
                                n as int,
                                br as int,
                                bc as int,
                                bi as int,
                                bj as int,
                                a2,
                                b2,
                            ),
                    decreases bc - dc,
                {
                    proof {
                        lemma_box_cell_bounds(
                            n as int,
                            br as int,
                            bc as int,
                            bi as int,
                            bj as int,
                            dr as int,
                            dc as int,
                        );
                    }
                    let v = cell_at(g, n, bi * br + dr, bj * bc + dc);
                    assert(v == box_cell(
                        g@,
                        n as int,
                        br as int,
                        bc as int,
                        bi as int,
                        bj as int,
                        dr as int,
                        dc as int,
                    ));
                    if mask_contains(mask, v) {
                        proof {
                            let (a, b): (int, int) = choose|a: int, b: int|
                                0 <= a <= dr && 0 <= b < bc && (a < dr || b < dc)
                                    && #[trigger] box_cell(
                                    g@,
                                    n as int,
                                    br as int,
                                    bc as int,
                                    bi as int,
                                    bj as int,
                                    a,
                                    b,
                                ) == v;
                            assert(!box_distinct(
                                g@,
                                n as int,
                                br as int,
                                bc as int,
                                bi as int,
                                bj as int,
                            ));
                        }
                        return false;
                    }
                    let ghost m0 = mask;
                    mask = mask | (1u16 << ((v - 1) as u16));
                    proof {
                        assert(mask == m0 | value_bit(v as int));
                        assert forall|w: int| 1 <= w <= 16 implies (#[trigger] mask_has(mask, w)
                            <==> exists|a: int, b: int|
                            0 <= a <= dr && 0 <= b < bc && (a < dr || b < dc + 1)
                                && #[trigger] box_cell(
                                g@,
                                n as int,
                                br as int,
                                bc as int,
                                bi as int,
                                bj as int,
                                a,
                                b,
                            ) == w) by {
                            lemma_mask_or_bit(m0, v as int, w);
                            if v as int == w {
                                assert(box_cell(
                                    g@,
                                    n as int,
                                    br as int,
                                    bc as int,
                                    bi as int,
                                    bj as int,
                                    dr as int,
                                    dc as int,
                                ) == w);
                            }
                        }
                    }
                    dc = dc + 1;
                }
                dr = dr + 1;
            }
            bj = bj + 1;
        }
        bi = bi + 1;
    }
    true
}

/// A puzzle: the given cells and the (attempted) solution cells.
pub struct Sudoku {
    /// Side length of the grid; `n == br * bc`.
    pub n: usize,
    /// Rows per box.
    pub br: usize,
    /// Columns per box.
    pub bc: usize,
    /// The given cells; `0` marks an empty cell.
    pub init: Vec<u8>,
    /// The working copy that a solver fills in.
    pub solution: Vec<u8>,
}

impl Sudoku {
    /// Structural soundness: dimensions tile, both grids have `n * n` cells,
    /// and no cell value exceeds `n`.
    pub open spec fn wf(&self) -> bool {
        &&& dims_ok(self.n as int, self.br as int, self.bc as int)
        &&& self.init@.len() == self.n * self.n
        &&& self.solution@.len() == self.n * self.n
        &&& forall|i: int| 0 <= i < self.init@.len() ==> #[trigger] self.init@[i] <= self.n
        &&& forall|i: int|
            0 <= i < self.solution@.len() ==> #[trigger] self.solution@[i] <= self.n
    }

    /// Builds a puzzle from its box shape and given cells, rejecting
    /// malformed input: zero box sides, a side length over 16, a cell count
    /// other than `n * n`, or a cell value over `n`.
    pub fn new(br: usize, bc: usize, init: Vec<u8>) -> (r: Result<Sudoku, SolveError>)
        ensures
            r matches Ok(s) ==> s.wf() && s.n == br * bc && s.br == br && s.bc == bc && s.init@
                == init@ && s.solution@ == init@,
            r is Ok <==> 1 <= br && 1 <= bc && br * bc <= 16 && init@.len() == (br * bc) * (br
                * bc) && (forall|i: int| 0 <= i < init@.len() ==> #[trigger] init@[i] <= br * bc),
            r is Err ==> (r matches Err(e) && e == SolveError::InvalidPuzzle),
    {
        if br < 1 || bc < 1 || br > 16 || bc > 16 {
            proof {
                if 1 <= br && 1 <= bc {
                    assert(br * bc >= br && br * bc >= bc) by (nonlinear_arith)
                        requires
                            1 <= br,
                            1 <= bc,
                    ;
                }
            }
            return Err(SolveError::InvalidPuzzle);
        }
        proof {
            assert(br * bc <= 256) by (nonlinear_arith)
                requires
                    0 <= br <= 16,
                    0 <= bc <= 16,
            ;
        }
        let n = br * bc;
        if n > 16 {
            return Err(SolveError::InvalidPuzzle);
        }
        proof {
            assert(n * n <= 256) by (nonlinear_arith)
                requires
                    0 <= n <= 16,
            ;
        }
        if init.len() != n * n {
            return Err(SolveError::InvalidPuzzle);
        }
        let mut i: usize = 0;
        while i < init.len()
            invariant
                n == br * bc,
                n <= 16,
                init@.len() == n * n,
                i <= init@.len(),
                forall|j: int| 0 <= j < i ==> #[trigger] init@[j] <= n,
            decreases init@.len() - i,
        {
            if init[i] > (n as u8) {
                return Err(SolveError::InvalidPuzzle);
            }
            i = i + 1;
        }
        let solution = copy_vec(&init);
        Ok(Sudoku { n, br, bc, init, solution })
    }

    /// Index of the box that covers row `r`, column `c`.
    pub fn box_index(&self, r: usize, c: usize) -> (b: usize)
        requires
            self.wf(),
            r < self.n,
            c < self.n,
        ensures
            b as int == box_of(self.n as int, self.br as int, self.bc as int, r as int, c as int),
            b < self.n,
    {
        proof {
            lemma_box_of_bounds(
                self.n as int,
                self.br as int,
                self.bc as int,
                r as int,
                c as int,
            );
        }
        (r / self.br) * (self.n / self.bc) + c / self.bc
    }

    /// Decides whether the solution cells form a valid solved grid: every
    /// cell holds a value of 1..=n and no row, column or box repeats one.
    pub fn check(&self) -> (ok: bool)
        requires
            self.wf(),
        ensures
            ok == grid_valid(self.solution@, self.n as int, self.br as int, self.bc as int),
    {
        grid_filled_valid(&self.solution, self.n, self.br, self.bc)
    }

    /// Top-left cell of the box that covers row `r`, column `c`.
    pub fn box_coord(&self, r: usize, c: usize) -> (tl: (usize, usize))
        requires
            self.wf(),
            r < self.n,
            c < self.n,
        ensures
            tl.0 == (r as int / self.br as int) * self.br as int,
            tl.1 == (c as int / self.bc as int) * self.bc as int,
            tl.0 <= r,
            tl.1 <= c,
    {
        proof {
            assert((r as int / self.br as int) * self.br as int <= r as int && (c as int
                / self.bc as int) * self.bc as int <= c as int) by (nonlinear_arith)
                requires
                    1 <= self.br as int,
                    1 <= self.bc as int,
                    0 <= r as int,
                    0 <= c as int,
            ;
        }
        (r / self.br * self.br, c / self.bc * self.bc)
    }
}

/// Every cell of a valid grid, addressed by its flat index, holds a value
/// of 1..=n.
pub proof fn lemma_valid_values(g: Seq<u8>, n: int, br: int, bc: int)
    requires
        dims_ok(n, br, bc),
        grid_valid(g, n, br, bc),
    ensures
        forall|i: int| 0 <= i < g.len() ==> 1 <= #[trigger] g[i] <= n,
{
    assert forall|i: int| 0 <= i < g.len() implies 1 <= #[trigger] g[i] <= n by {
        let r = i / n;
        let c = i % n;
        vstd::arithmetic::div_mod::lemma_fundamental_div_mod(i, n);
        assert(0 <= i % n < n && 0 <= i / n < n) by (nonlinear_arith)
            requires
                0 <= i < n * n,
                1 <= n,
        ;
        assert(r * n == n * r) by (nonlinear_arith);
        assert(1 <= cell(g, n, r, c) <= n);
    }
}

/// Values taken by `f` on indices below `k`.
spec fn image_below(f: spec_fn(int) -> u8, k: int) -> Set<int> {
    Set::new(|v: int| exists|i: int| 0 <= i < k && #[trigger] f(i) as int == v)
}

proof fn lemma_image_below_len(f: spec_fn(int) -> u8, k: int, n: int)
    requires
        0 <= k <= n,
        forall|i: int| 0 <= i < n ==> 1 <= #[trigger] f(i) <= n,
        forall|i: int, j: int|
            #![trigger f(i), f(j)]
            0 <= i < j < n ==> f(i) != f(j),
    ensures
        image_below(f, k).finite(),
        image_below(f, k).len() == k,
        image_below(f, k).subset_of(vstd::set_lib::set_int_range(1, n + 1)),
    decreases k,
{
    broadcast use vstd::set::group_set_axioms;

    if k == 0 {
        assert(image_below(f, 0) =~= Set::<int>::empty());
    } else {
        lemma_image_below_len(f, k - 1, n);
        let s0 = image_below(f, k - 1);
        let v = f(k - 1) as int;
        assert(!s0.contains(v));
        assert(image_below(f, k) =~= s0.insert(v));
    }
}

/// Pigeonhole: `n` pairwise distinct values drawn from 1..=n cover all of
/// 1..=n.
proof fn lemma_distinct_values_complete(f: spec_fn(int) -> u8, n: int, v: int)
    requires
        0 <= n,
        1 <= v <= n,
        forall|i: int| 0 <= i < n ==> 1 <= #[trigger] f(i) <= n,
        forall|i: int, j: int|
            #![trigger f(i), f(j)]
            0 <= i < j < n ==> f(i) != f(j),
    ensures
        exists|i: int| 0 <= i < n && #[trigger] f(i) as int == v,
{
    broadcast use vstd::set::group_set_axioms;

    lemma_image_below_len(f, n, n);
    let s = image_below(f, n);
    let t = vstd::set_lib::set_int_range(1, n + 1);
    vstd::set_lib::lemma_int_range(1, n + 1);
    if !s.contains(v) {
        assert(s.subset_of(t.remove(v)));
        vstd::set::axiom_set_remove_len(t, v);
        vstd::set_lib::lemma_len_subset(s, t.remove(v));
        assert(false);
    }
}

/// Every value 1..=n occurs somewhere in every row of a valid grid:
/// together with distinctness, each row is a permutation of 1..=n.
pub proof fn lemma_valid_row_complete(g: Seq<u8>, n: int, br: int, bc: int, r: int, v: u8)
    requires
        dims_ok(n, br, bc),
        grid_valid(g, n, br, bc),
        0 <= r < n,
        1 <= v <= n,
    ensures
        exists|c: int| 0 <= c < n && #[trigger] cell(g, n, r, c) == v,
{
    let f = |c: int| cell(g, n, r, c);
    assert(row_distinct(g, n, r));
    assert forall|i: int, j: int|
        #![trigger f(i), f(j)]
        0 <= i < j < n implies f(i) != f(j) by {
        assert(cell(g, n, r, i) != cell(g, n, r, j));
    }
    lemma_distinct_values_complete(f, n, v as int);
    let c = choose|i: int| 0 <= i < n && #[trigger] f(i) as int == v as int;
    assert(cell(g, n, r, c) == v);
}

/// Every value 1..=n occurs somewhere in every column of a valid grid.
pub proof fn lemma_valid_col_complete(g: Seq<u8>, n: int, br: int, bc: int, c: int, v: u8)
    requires
        dims_ok(n, br, bc),
        grid_valid(g, n, br, bc),
        0 <= c < n,
        1 <= v <= n,
    ensures
        exists|r: int| 0 <= r < n && #[trigger] cell(g, n, r, c) == v,
{
    let f = |r: int| cell(g, n, r, c);
    assert(col_distinct(g, n, c));
    assert forall|i: int, j: int|
        #![trigger f(i), f(j)]
        0 <= i < j < n implies f(i) != f(j) by {
        assert(cell(g, n, i, c) != cell(g, n, j, c));
    }
    lemma_distinct_values_complete(f, n, v as int);
    let r = choose|i: int| 0 <= i < n && #[trigger] f(i) as int == v as int;
    assert(cell(g, n, r, c) == v);
}

/// Every value 1..=n occurs somewhere in every box of a valid grid.
pub proof fn lemma_valid_box_complete(
    g: Seq<u8>,
    n: int,
    br: int,
    bc: int,
    bi: int,
    bj: int,
    v: u8,
)
    requires
        dims_ok(n, br, bc),
        grid_valid(g, n, br, bc),
        0 <= bi < bc,
        0 <= bj < br,
        1 <= v <= n,
    ensures
        exists|dr: int, dc: int|
            0 <= dr < br && 0 <= dc < bc && #[trigger] box_cell(g, n, br, bc, bi, bj, dr, dc) == v,
{
    let f = |k: int| box_cell(g, n, br, bc, bi, bj, k / bc, k % bc);
    assert forall|k: int| 0 <= k < n implies 1 <= #[trigger] f(k) <= n by {
        assert(0 <= k / bc < br && 0 <= k % bc < bc) by (nonlinear_arith)
            requires
                0 <= k < n,
                n == br * bc,
                1 <= br,
                1 <= bc,
        ;
        lemma_box_cell_bounds(n, br, bc, bi, bj, k / bc, k % bc);
        assert(1 <= cell(g, n, bi * br + k / bc, bj * bc + k % bc) <= n);
    }
    assert forall|k1: int, k2: int|
        #![trigger f(k1), f(k2)]
        0 <= k1 < k2 < n implies f(k1) != f(k2) by {
        assert(0 <= k1 / bc < br && 0 <= k1 % bc < bc && 0 <= k2 / bc < br && 0 <= k2 % bc < bc
            && !(k1 / bc == k2 / bc && k1 % bc == k2 % bc)) by (nonlinear_arith)
            requires
                0 <= k1 < k2 < n,
                n == br * bc,
                1 <= br,
                1 <= bc,
        ;
        assert(box_distinct(g, n, br, bc, bi, bj));
        assert(box_cell(g, n, br, bc, bi, bj, k1 / bc, k1 % bc) != box_cell(
            g,
            n,
            br,
            bc,
            bi,
            bj,
            k2 / bc,
            k2 % bc,
        ));
    }
    lemma_distinct_values_complete(f, n, v as int);
    let k = choose|i: int| 0 <= i < n && #[trigger] f(i) as int == v as int;
    assert(0 <= k / bc < br && 0 <= k % bc < bc) by (nonlinear_arith)
        requires
            0 <= k < n,
            n == br * bc,
            1 <= br,
            1 <= bc,
    ;
    assert(box_cell(g, n, br, bc, bi, bj, k / bc, k % bc) == v);
}

/// Two different cells that `box_of` places in the same box never hold the
/// same value in a valid grid: the checker's box tiles are exactly the
/// boxes that `box_of` indexes.
pub proof fn lemma_valid_box_of_distinct(
    g: Seq<u8>,
    n: int,
    br: int,
    bc: int,
    r1: int,
    c1: int,
    r2: int,
    c2: int,
)
    requires
        dims_ok(n, br, bc),
        grid_valid(g, n, br, bc),
        0 <= r1 < n,
        0 <= c1 < n,
        0 <= r2 < n,
        0 <= c2 < n,
        box_of(n, br, bc, r1, c1) == box_of(n, br, bc, r2, c2),
        !(r1 == r2 && c1 == c2),
    ensures
        cell(g, n, r1, c1) != cell(g, n, r2, c2),
{
    lemma_box_of_bounds(n, br, bc, r1, c1);
    lemma_box_of_bounds(n, br, bc, r2, c2);
    let bi = r1 / br;
    let bj = c1 / bc;
    assert(r2 / br == bi && c2 / bc == bj) by (nonlinear_arith)
        requires
            (r1 / br) * br + c1 / bc == (r2 / br) * br + c2 / bc,
            0 <= c1 / bc < br,
            0 <= c2 / bc < br,
            bi == r1 / br,
            bj == c1 / bc,
    ;
    vstd::arithmetic::div_mod::lemma_fundamental_div_mod(r1, br);
    vstd::arithmetic::div_mod::lemma_fundamental_div_mod(c1, bc);
    vstd::arithmetic::div_mod::lemma_fundamental_div_mod(r2, br);
    vstd::arithmetic::div_mod::lemma_fundamental_div_mod(c2, bc);
    let dr1 = r1 % br;
    let dc1 = c1 % bc;
    let dr2 = r2 % br;
    let dc2 = c2 % bc;
    assert(0 <= dr1 < br && 0 <= dc1 < bc && 0 <= dr2 < br && 0 <= dc2 < bc) by (nonlinear_arith)
        requires
            1 <= br,
            1 <= bc,
            0 <= r1,
            0 <= c1,
            0 <= r2,
            0 <= c2,
            dr1 == r1 % br,
            dc1 == c1 % bc,
            dr2 == r2 % br,
            dc2 == c2 % bc,
    ;
    assert(r1 == bi * br + dr1 && c1 == bj * bc + dc1 && r2 == bi * br + dr2 && c2 == bj * bc
        + dc2) by (nonlinear_arith)
        requires
            r1 == br * (r1 / br) + r1 % br,
            c1 == bc * (c1 / bc) + c1 % bc,
            r2 == br * (r2 / br) + r2 % br,
            c2 == bc * (c2 / bc) + c2 % bc,
            bi == r1 / br,
            bj == c1 / bc,
            bi == r2 / br,
            bj == c2 / bc,
            dr1 == r1 % br,
            dc1 == c1 % bc,
            dr2 == r2 % br,
            dc2 == c2 % bc,
    ;
    assert(box_distinct(g, n, br, bc, bi, bj));
    assert(box_cell(g, n, br, bc, bi, bj, dr1, dc1) != box_cell(g, n, br, bc, bi, bj, dr2, dc2));
}

/// A value repeated among the givens of one row makes the givens
/// incompatible, so a solver that ties its rejection of malformed puzzles
/// to compatibility must refuse such an input.
pub proof fn lemma_duplicate_given_incompatible(
    init: Seq<u8>,
    n: int,
    br: int,
    bc: int,
    r: int,
    c1: int,
    c2: int,
)
    requires
        dims_ok(n, br, bc),
        init.len() == n * n,
        0 <= r < n,
        0 <= c1 < c2 < n,
        cell(init, n, r, c1) != 0,
        cell(init, n, r, c1) == cell(init, n, r, c2),
    ensures
        !givens_compatible(init, n, br, bc),
{
    if givens_compatible(init, n, br, bc) {
        assert(cell(init, n, r, c1) != cell(init, n, r, c2));
        assert(false);
    }
}

/// A valid solved grid in particular has compatible givens: the
/// distinctness of every unit covers every pair of filled cells.
pub proof fn lemma_valid_implies_compatible(g: Seq<u8>, n: int, br: int, bc: int)
    requires
        dims_ok(n, br, bc),
        grid_valid(g, n, br, bc),
    ensures
        givens_compatible(g, n, br, bc),
{
    assert forall|r1: int, c1: int, r2: int, c2: int|
        #![trigger cell(g, n, r1, c1), cell(g, n, r2, c2)]
        0 <= r1 < n && 0 <= c1 < n && 0 <= r2 < n && 0 <= c2 < n && !(r1 == r2 && c1 == c2)
            && cell(g, n, r1, c1) != 0 && (r1 == r2 || c1 == c2 || box_of(n, br, bc, r1, c1)
            == box_of(n, br, bc, r2, c2)) implies cell(g, n, r1, c1) != cell(g, n, r2, c2) by {
        if r1 == r2 {
            assert(row_distinct(g, n, r1));
        } else if c1 == c2 {
            assert(col_distinct(g, n, c1));
        } else {
            lemma_valid_box_of_distinct(g, n, br, bc, r1, c1, r2, c2);
        }
    }
}

/// Incompatible givens allow no valid solution at all: whatever grid a
/// solver might produce, it cannot both pass the checker and preserve two
/// conflicting givens.
pub proof fn lemma_incompatible_unsolvable(init: Seq<u8>, sol: Seq<u8>, n: int, br: int, bc: int)
    requires
        dims_ok(n, br, bc),
        init.len() == n * n,
        sol.len() == n * n,
        !givens_compatible(init, n, br, bc),
    ensures
        !(grid_valid(sol, n, br, bc) && preserves_givens(init, sol)),
{
    if grid_valid(sol, n, br, bc) && preserves_givens(init, sol) {
        let (r1, c1, r2, c2): (int, int, int, int) = choose|r1: int, c1: int, r2: int, c2: int|
            0 <= r1 < n && 0 <= c1 < n && 0 <= r2 < n && 0 <= c2 < n && !(r1 == r2 && c1 == c2)
                && #[trigger] cell(init, n, r1, c1) != 0 && (r1 == r2 || c1 == c2 || box_of(
                n,
                br,
                bc,
                r1,
                c1,
            ) == box_of(n, br, bc, r2, c2)) && cell(init, n, r1, c1) == #[trigger] cell(
                init,
                n,
                r2,
                c2,
            );
        lemma_cell_index(n, r1, c1);
        lemma_cell_index(n, r2, c2);
        assert(cell(sol, n, r1, c1) == cell(init, n, r1, c1));
        assert(cell(sol, n, r2, c2) == cell(init, n, r2, c2));
        if r1 == r2 {
            assert(row_distinct(sol, n, r1));
        } else if c1 == c2 {
            assert(col_distinct(sol, n, c1));
        } else {
            lemma_valid_box_of_distinct(sol, n, br, bc, r1, c1, r2, c2);
        }
        assert(false);
    }
}

/// Validation is idempotent: the checker's verdict is a function of the
/// grid alone, so checking the same solution twice yields the same answer.
pub proof fn lemma_check_idempotent(ok1: bool, ok2: bool, g: Seq<u8>, n: int, br: int, bc: int)
    requires
        ok1 == grid_valid(g, n, br, bc),
        ok2 == grid_valid(g, n, br, bc),
    ensures
        ok1 == ok2,
{
}

/// A puzzle whose givens repeat a value inside one row admits no valid
/// solution at all: whatever a solver returns, it cannot be a grid that both
/// passes the checker and preserves the givens.
pub proof fn lemma_duplicate_given_unsolvable(
    init: Seq<u8>,
    sol: Seq<u8>,
    n: int,
    br: int,
    bc: int,
    r: int,
    c1: int,
    c2: int,
)
    requires
        dims_ok(n, br, bc),
        init.len() == n * n,
        0 <= r < n,
        0 <= c1 < c2 < n,
        cell(init, n, r, c1) != 0,
        cell(init, n, r, c1) == cell(init, n, r, c2),
    ensures
        !(grid_valid(sol, n, br, bc) && preserves_givens(init, sol)),
{
    if grid_valid(sol, n, br, bc) && preserves_givens(init, sol) {
        lemma_cell_index(n, r, c1);
        lemma_cell_index(n, r, c2);
        assert(sol[r * n + c1] == init[r * n + c1]);
        assert(sol[r * n + c2] == init[r * n + c2]);
        assert(cell(sol, n, r, c1) == cell(sol, n, r, c2));
        assert(!row_distinct(sol, n, r));
        assert(false);
    }
}

} // verus!
