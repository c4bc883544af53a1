//! Pixel geometry of a rendered board: per-cell bounding boxes and grid
//! line thicknesses.

use vstd::prelude::*;

verus! {

/// Pixel bounding box of one cell in a rendered board image.
#[derive(Clone, Copy, Debug, PartialEq, Eq, Structural)]
pub struct CellBox {
    pub x: u32,
    pub y: u32,
    pub w: u32,
    pub h: u32,
}

impl CellBox {
    /// Builds a box from its corner and extent.
    pub fn new(x: u32, y: u32, w: u32, h: u32) -> (b: CellBox)
        ensures
            b.x == x && b.y == y && b.w == w && b.h == h,
    {
        CellBox { x, y, w, h }
    }
}

/// The box of row `r`, column `c` in a flat row-major sequence of boxes.
pub open spec fn box_at(bs: Seq<CellBox>, n: int, r: int, c: int) -> CellBox {
    bs[r * n + c]
}

/// The box the layout assigns to row `r`, column `c`: a `cell_size` square
/// at `margin + c * cell_size`, `margin + r * cell_size`, except that the
/// last row and column absorb the rounding slack so the boxes exactly tile
/// the `board_size` square.
pub open spec fn expected_box(
    n: int,
    margin: u32,
    cell_size: u32,
    board_size: u32,
    r: int,
    c: int,
) -> CellBox {
    CellBox {
        x: (margin + c * cell_size) as u32,
        y: (margin + r * cell_size) as u32,
        w: if c == n - 1 {
            (board_size - (n - 1) * cell_size) as u32
        } else {
            cell_size
        },
        h: if r == n - 1 {
            (board_size - (n - 1) * cell_size) as u32
        } else {
            cell_size
        },
    }
}

/// Computes the pixel bounding box of every cell of an `n` x `n` board.
#[verifier::loop_isolation(false)]
pub fn cell_boxes(n: usize, margin: u32, cell_size: u32, board_size: u32) -> (boxes: Vec<CellBox>)
    requires
        1 <= n <= 16,
        cell_size * n <= board_size,
        margin + board_size <= u32::MAX,
    ensures
        boxes@.len() == n * n,
        forall|r: int, c: int|
            0 <= r < n && 0 <= c < n ==> #[trigger] box_at(boxes@, n as int, r, c) == expected_box(
                n as int,
                margin,
                cell_size,
                board_size,
                r,
                c,
            ),
{
    let mut boxes: Vec<CellBox> = Vec::new();
    let mut r: usize = 0;
    while r < n
        invariant
            r <= n,
            boxes@.len() == r * n,
            forall|r2: int, c2: int|
                0 <= r2 < r && 0 <= c2 < n ==> #[trigger] box_at(boxes@, n as int, r2, c2)
                    == expected_box(n as int, margin, cell_size, board_size, r2, c2),
        decreases n - r,
    {
        let mut c: usize = 0;
        while c < n
            invariant
                r < n,
                c <= n,
                boxes@.len() == r * n + c,
                forall|r2: int, c2: int|
                    0 <= r2 < r && 0 <= c2 < n ==> #[trigger] box_at(boxes@, n as int, r2, c2)
                        == expected_box(n as int, margin, cell_size, board_size, r2, c2),
                forall|c2: int|
                    0 <= c2 < c ==> #[trigger] box_at(boxes@, n as int, r as int, c2)
                        == expected_box(n as int, margin, cell_size, board_size, r as int, c2),
            decreases n - c,
        {
            proof {
                assert(c * cell_size <= (n - 1) * cell_size && r * cell_size <= (n - 1)
                    * cell_size && (n - 1) * cell_size <= cell_size * n && (n - 1) * cell_size
                    >= 0) by (nonlinear_arith)
                    requires
                        0 <= c < n,
                        0 <= r < n,
                        0 <= cell_size,
                ;
            }
            let x = margin + (c as u32) * cell_size;
            let y = margin + (r as u32) * cell_size;
            let slack = board_size - ((n as u32) - 1) * cell_size;
            let w = if c == n - 1 {
                slack
            } else {
                cell_size
            };
            let h = if r == n - 1 {
                slack
            } else {
                cell_size
            };
            let ghost b0 = boxes@;
            boxes.push(CellBox { x, y, w, h });
            proof {
                assert forall|r2: int, c2: int|
                    0 <= r2 < r && 0 <= c2 < n implies #[trigger] box_at(boxes@, n as int, r2, c2)
                    == expected_box(n as int, margin, cell_size, board_size, r2, c2) by {
                    assert(0 <= r2 * n + c2 < r * n + c) by (nonlinear_arith)
                        requires
                            0 <= r2 < r,
                            0 <= c2 < n,
                            0 <= c,
                    ;
                    assert(box_at(b0, n as int, r2, c2) == expected_box(
                        n as int,
                        margin,
                        cell_size,
                        board_size,
                        r2,
                        c2,
                    ));
                    assert(boxes@[r2 * n + c2] == b0[r2 * n + c2]);
                }
                assert forall|c2: int|
                    0 <= c2 < c + 1 implies #[trigger] box_at(boxes@, n as int, r as int, c2)
                    == expected_box(n as int, margin, cell_size, board_size, r as int, c2) by {
                    if c2 < c {
                        assert(box_at(b0, n as int, r as int, c2) == expected_box(
                            n as int,
                            margin,
                            cell_size,
                            board_size,
                            r as int,
                            c2,
                        ));
                        assert(boxes@[r * n + c2] == b0[r * n + c2]);
                    } else {
                        assert(boxes@[r * n + c] == (CellBox { x, y, w, h }));
                    }
                }
            }
            c = c + 1;
        }
        proof {
            assert(r * n + n == (r + 1) * n) by (nonlinear_arith);
        }
        r = r + 1;
    }
    boxes
}

/// Thickness of grid line `i` of an `n`-cell board: block boundaries get
/// the thick line, interior cell lines the thin one (or none when the cell
/// grid is off).
pub open spec fn spec_line_thickness(
    i: int,
    n: int,
    block: int,
    thick: u32,
    thin: u32,
    cell_grid: bool,
) -> u32 {
    if i == 0 || i == n || i % block == 0 {
        thick
    } else if cell_grid {
        thin
    } else {
        0
    }
}

/// Exec computation of a grid line's thickness.
pub fn line_thickness(
    i: usize,
    n: usize,
    block: usize,
    thick: u32,
    thin: u32,
    cell_grid: bool,
) -> (t: u32)
    requires
        1 <= block,
    ensures
        t == spec_line_thickness(i as int, n as int, block as int, thick, thin, cell_grid),
{
    if i == 0 || i == n || i % block == 0 {
        thick
    } else if cell_grid {
        thin
    } else {
        0
    }
}

} // verus!
