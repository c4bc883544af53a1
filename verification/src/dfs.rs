//! The constraint-propagation-plus-backtracking search engine.
//!
//! Each search node owns the grid and, per unit, a bitmask of the values
//! already placed there, plus a per-cell "local ban" mask of values that
//! failed branches have excluded at that cell.  The engine repeatedly
//! resolves naked singles, picks the most constrained cell (MRV with a
//! peer-pressure tie-break), tries its least constraining value first (LCV),
//! and on a contradiction excludes the failed value at the parent node and
//! retries.  A finished grid is handed out only after the validity checker
//! has accepted it.

use crate::masks::{count_values, first_value, mask_contains, mask_has, num_candidates, value_bit};
use crate::masks::{
    lemma_mask_and, lemma_mask_empty, lemma_mask_not, lemma_mask_or, lemma_mask_or_bit,
    lemma_num_candidates_le, lemma_num_candidates_member, lemma_num_candidates_none,
    lemma_num_candidates_set, lemma_num_candidates_unique,
};
use crate::solver::SolveError;
use crate::sudoku::{
    box_of, cell, cell_at, col_distinct, copy_vec, count_zeros, dims_ok, givens_compatible,
    grid_filled_valid, grid_valid, lemma_box_of_bounds, lemma_cell_index,
    lemma_count_zeros_update, lemma_incompatible_unsolvable, lemma_valid_box_of_distinct,
    lemma_valid_implies_compatible, lemma_valid_values, preserves_givens, row_distinct, Sudoku,
};
use vstd::prelude::*;

verus! {

/// The full mask of a board of side `n`: bits 0 .. n-1 set.
pub open spec fn full_mask(n: int) -> u16 {
    (((1u32 << (n as u32)) - 1) as u16)
}

/// Total number of banned (cell, value) pairs recorded in the local ban
/// masks; the backtracking loop strictly grows it, which bounds the search.
pub open spec fn sum_candidates(s: Seq<u16>, k: int) -> nat
    decreases s.len(),
{
    if s.len() == 0 {
        0
    } else {
        sum_candidates(s.drop_last(), k) + num_candidates(s.last(), k)
    }
}

/// Replacing one mask changes the total by the difference at that slot.
proof fn lemma_sum_update(s: Seq<u16>, i: int, m2: u16, k: int)
    requires
        0 <= i < s.len(),
    ensures
        sum_candidates(s.update(i, m2), k) as int == sum_candidates(s, k) as int - num_candidates(
            s[i],
            k,
        ) as int + num_candidates(m2, k) as int,
    decreases s.len(),
{
    let s2 = s.update(i, m2);
    if i == s.len() - 1 {
        assert(s2.drop_last() =~= s.drop_last());
    } else {
        assert(s2.drop_last() =~= s.drop_last().update(i, m2));
        lemma_sum_update(s.drop_last(), i, m2, k);
    }
}

/// The total is bounded by `k` pairs per slot.
proof fn lemma_sum_le(s: Seq<u16>, k: int)
    requires
        0 <= k,
    ensures
        sum_candidates(s, k) <= s.len() * k,
    decreases s.len(),
{
    if s.len() == 0 {
    } else {
        lemma_sum_le(s.drop_last(), k);
        lemma_num_candidates_le(s.last(), k);
        assert((s.len() - 1) * k + k == s.len() * k) by (nonlinear_arith);
    }
}

/// Exec computation of the full mask.
fn full_mask_of(n: usize) -> (m: u16)
    requires
        1 <= n <= 16,
    ensures
        m == full_mask(n as int),
{
    let s = n as u32;
    proof {
        assert(1u32 << s >= 1) by (bit_vector)
            requires
                s <= 16,
        ;
    }
    #[verifier::truncate] (((1u32 << s) - 1) as u16)
}

/// The full mask holds every value of 1..=n.
proof fn lemma_full_mask_has(n: int, v: int)
    requires
        1 <= v <= n <= 16,
    ensures
        mask_has(full_mask(n), v),
{
    let nn = n as u32;
    let q = (v - 1) as u16;
    assert((((((1u32 << nn) - 1) as u16) >> q) & 1) == 1) by (bit_vector)
        requires
            nn <= 16,
            q < 16,
            (q as u32) < nn,
    ;
}

/// Distinct cells have distinct flat indices.
proof fn lemma_flat_index_injective(n: int, r1: int, c1: int, r2: int, c2: int)
    requires
        0 <= r1 < n,
        0 <= c1 < n,
        0 <= r2 < n,
        0 <= c2 < n,
        !(r1 == r2 && c1 == c2),
    ensures
        r1 * n + c1 != r2 * n + c2,
{
    assert(r1 * n + c1 != r2 * n + c2) by (nonlinear_arith)
        requires
            0 <= r1 < n,
            0 <= c1 < n,
            0 <= r2 < n,
            0 <= c2 < n,
            !(r1 == r2 && c1 == c2),
    ;
}

/// Top-left corner of the box that covers (`r`, `c`), and room for a whole
/// box below and to the right of it.
proof fn lemma_box_corner(n: int, br: int, bc: int, r: int, c: int)
    requires
        dims_ok(n, br, bc),
        0 <= r < n,
        0 <= c < n,
    ensures
        0 <= (r / br) * br <= r,
        (r / br) * br + br <= n,
        0 <= (c / bc) * bc <= c,
        (c / bc) * bc + bc <= n,
{
    lemma_box_of_bounds(n, br, bc, r, c);
    assert(0 <= (r / br) * br <= r && (r / br) * br + br <= n && 0 <= (c / bc) * bc <= c && (c
        / bc) * bc + bc <= n) by (nonlinear_arith)
        requires
            n == br * bc,
            1 <= br,
            1 <= bc,
            0 <= r < n,
            0 <= c < n,
            r / br < bc,
            c / bc < br,
    ;
}

/// Per-unit "taken" masks and per-cell local bans for one search node.
struct Constraints {
    /// Side length of the board; `n == br * bc`.
    n: usize,
    /// Rows per box.
    br: usize,
    /// Columns per box.
    bc: usize,
    /// Per row, the mask of values already placed in it.
    row: Vec<u16>,
    /// Per column, the mask of values already placed in it.
    col: Vec<u16>,
    /// Per box, the mask of values already placed in it.
    sbox: Vec<u16>,
    /// Per cell, the mask of values excluded by failed branches at this node.
    backtrack: Vec<u16>,
}

impl Constraints {
    spec fn wf(&self) -> bool {
        &&& dims_ok(self.n as int, self.br as int, self.bc as int)
        &&& self.row@.len() == self.n
        &&& self.col@.len() == self.n
        &&& self.sbox@.len() == self.n
        &&& self.backtrack@.len() == self.n * self.n
    }

    spec fn same_dims(&self, other: &Constraints) -> bool {
        self.n == other.n && self.br == other.br && self.bc == other.bc
    }

    /// Union of the three unit masks covering (`r`, `c`) and the cell's
    /// local bans, clipped to the board's value range.
    spec fn spec_forbidden(&self, r: int, c: int) -> u16 {
        full_mask(self.n as int) & (self.row@[r] | self.col@[c] | self.sbox@[box_of(
            self.n as int,
            self.br as int,
            self.bc as int,
            r,
            c,
        )] | self.backtrack@[r * self.n + c])
    }

    /// Values still legal at (`r`, `c`).
    spec fn spec_available(&self, r: int, c: int) -> u16 {
        full_mask(self.n as int) & !self.spec_forbidden(r, c)
    }

    /// Fresh empty constraints for a board of the given shape.
    fn empty(n: usize, br: usize, bc: usize) -> (c: Constraints)
        requires
            dims_ok(n as int, br as int, bc as int),
        ensures
            c.wf(),
            c.n == n && c.br == br && c.bc == bc,
            forall|i: int| 0 <= i < c.row@.len() ==> #[trigger] c.row@[i] == 0,
            forall|i: int| 0 <= i < c.col@.len() ==> #[trigger] c.col@[i] == 0,
            forall|i: int| 0 <= i < c.sbox@.len() ==> #[trigger] c.sbox@[i] == 0,
            forall|i: int| 0 <= i < c.backtrack@.len() ==> #[trigger] c.backtrack@[i] == 0,
    {
        proof {
            assert(n * n <= 256) by (nonlinear_arith)
                requires
                    0 <= n <= 16,
            ;
        }
        let nn = n * n;
        Constraints {
            n,
            br,
            bc,
            row: vec![0u16; n],
            col: vec![0u16; n],
            sbox: vec![0u16; n],
            backtrack: vec![0u16; nn],
        }
    }

    /// A copy for a child node: unit masks carry over, local bans start
    /// fresh.
    fn fork(&self) -> (c: Constraints)
        requires
            self.wf(),
        ensures
            c.wf(),
            c.same_dims(self),
            c.row@ == self.row@,
            c.col@ == self.col@,
            c.sbox@ == self.sbox@,
            forall|i: int| 0 <= i < c.backtrack@.len() ==> #[trigger] c.backtrack@[i] == 0,
    {
        proof {
            assert(self.n * self.n <= 256) by (nonlinear_arith)
                requires
                    0 <= self.n <= 16,
            ;
        }
        let nn = self.n * self.n;
        Constraints {
            n: self.n,
            br: self.br,
            bc: self.bc,
            row: copy_vec(&self.row),
            col: copy_vec(&self.col),
            sbox: copy_vec(&self.sbox),
            backtrack: vec![0u16; nn],
        }
    }

    /// Whether `val` is already recorded as placed in the row, column or
    /// box of (`r`, `c`).
    fn is_placed(&self, r: usize, c: usize, val: u8) -> (b: bool)
        requires
            self.wf(),
            r < self.n,
            c < self.n,
            1 <= val <= self.n,
        ensures
            b == (mask_has(self.row@[r as int], val as int) || mask_has(
                self.col@[c as int],
                val as int,
            ) || mask_has(
                self.sbox@[box_of(
                    self.n as int,
                    self.br as int,
                    self.bc as int,
                    r as int,
                    c as int,
                )],
                val as int,
            )),
    {
        proof {
            lemma_box_of_bounds(
                self.n as int,
                self.br as int,
                self.bc as int,
                r as int,
                c as int,
            );
        }
        let bx = (r / self.br) * (self.n / self.bc) + c / self.bc;
        mask_contains(self.row[r], val) || mask_contains(self.col[c], val) || mask_contains(
            self.sbox[bx],
            val,
        )
    }

    /// Records value `val` as placed in the row, column and box of (`r`,
    /// `c`).
    fn mark_taken(&mut self, r: usize, c: usize, val: u8)
        requires
            old(self).wf(),
            r < old(self).n,
            c < old(self).n,
            1 <= val <= old(self).n,
        ensures
            final(self).wf(),
            final(self).same_dims(old(self)),
            final(self).backtrack@ == old(self).backtrack@,
            final(self).row@ == old(self).row@.update(
                r as int,
                old(self).row@[r as int] | value_bit(val as int),
            ),
            final(self).col@ == old(self).col@.update(
                c as int,
                old(self).col@[c as int] | value_bit(val as int),
            ),
            final(self).sbox@ == old(self).sbox@.update(
                box_of(old(self).n as int, old(self).br as int, old(self).bc as int, r as int, c as int),
                old(self).sbox@[box_of(
                    old(self).n as int,
                    old(self).br as int,
                    old(self).bc as int,
                    r as int,
                    c as int,
                )] | value_bit(val as int),
            ),
    {
        proof {
            lemma_box_of_bounds(
                self.n as int,
                self.br as int,
                self.bc as int,
                r as int,
                c as int,
            );
        }
        let b = (r / self.br) * (self.n / self.bc) + c / self.bc;
        let bit: u16 = 1u16 << ((val - 1) as u16);
        self.sbox[b] = self.sbox[b] | bit;
        self.col[c] = self.col[c] | bit;
        self.row[r] = self.row[r] | bit;
    }

    /// Permanently excludes `val` at (`r`, `c`) for this node after a failed
    /// branch; the ban must be new, so the total of banned pairs grows by
    /// one.
    fn forbid_cell_val(&mut self, r: usize, c: usize, val: u8)
        requires
            old(self).wf(),
            r < old(self).n,
            c < old(self).n,
            1 <= val <= old(self).n,
            !mask_has(old(self).backtrack@[r * old(self).n + c], val as int),
        ensures
            final(self).wf(),
            final(self).same_dims(old(self)),
            final(self).row@ == old(self).row@,
            final(self).col@ == old(self).col@,
            final(self).sbox@ == old(self).sbox@,
            final(self).backtrack@ == old(self).backtrack@.update(
                r * old(self).n + c,
                old(self).backtrack@[r * old(self).n + c] | value_bit(val as int),
            ),
            sum_candidates(final(self).backtrack@, final(self).n as int) == sum_candidates(
                old(self).backtrack@,
                old(self).n as int,
            ) + 1,
    {
        proof {
            lemma_cell_index(self.n as int, r as int, c as int);
        }
        let idx = r * self.n + c;
        let ghost bt0 = self.backtrack@;
        let m2 = self.backtrack[idx] | (1u16 << ((val - 1) as u16));
        self.backtrack[idx] = m2;
        proof {
            assert(m2 == bt0[idx as int] | value_bit(val as int));
            lemma_num_candidates_set(bt0[idx as int], val as int, self.n as int);
            lemma_sum_update(bt0, idx as int, m2, self.n as int);
        }
    }

    /// The mask of values ruled out at (`r`, `c`).
    fn forbidden_candidates(&self, r: usize, c: usize) -> (m: u16)
        requires
            self.wf(),
            r < self.n,
            c < self.n,
        ensures
            m == self.spec_forbidden(r as int, c as int),
    {
        proof {
            lemma_box_of_bounds(
                self.n as int,
                self.br as int,
                self.bc as int,
                r as int,
                c as int,
            );
            lemma_cell_index(self.n as int, r as int, c as int);
        }
        let b = (r / self.br) * (self.n / self.bc) + c / self.bc;
        full_mask_of(self.n) & (self.row[r] | self.col[c] | self.sbox[b] | self.backtrack[r
            * self.n + c])
    }

    /// The mask of values still legal at (`r`, `c`).
    fn available_candidates(&self, r: usize, c: usize) -> (m: u16)
        requires
            self.wf(),
            r < self.n,
            c < self.n,
        ensures
            m == self.spec_available(r as int, c as int),
    {
        let f = self.forbidden_candidates(r, c);
        full_mask_of(self.n) & !f
    }
}

/// A value available at a cell is not locally banned there.
proof fn lemma_available_not_banned(cst: Constraints, r: int, c: int, v: int)
    requires
        cst.wf(),
        0 <= r < cst.n,
        0 <= c < cst.n,
        1 <= v <= 16,
        mask_has(cst.spec_available(r, c), v),
    ensures
        !mask_has(cst.backtrack@[r * cst.n + c], v),
{
    let n = cst.n as int;
    let f = cst.spec_forbidden(r, c);
    let units = cst.row@[r] | cst.col@[c] | cst.sbox@[box_of(
        n,
        cst.br as int,
        cst.bc as int,
        r,
        c,
    )] | cst.backtrack@[r * n + c];
    lemma_mask_and(full_mask(n), !f, v);
    lemma_mask_not(f, v);
    lemma_mask_and(full_mask(n), units, v);
    lemma_mask_or(
        cst.row@[r] | cst.col@[c] | cst.sbox@[box_of(n, cst.br as int, cst.bc as int, r, c)],
        cst.backtrack@[r * n + c],
        v,
    );
}

/// Outcome of cell selection: the board is full, or the most constrained
/// empty cell.
enum MrvRes {
    Solved,
    Cell(usize, usize),
}

/// Empty cells among the first `i` row and column peers of (`pr`, `pc`):
/// cells (`l`, `pc`) with `l != pr` and cells (`pr`, `l`) with `l != pc`,
/// for `l < i`.
spec fn line_peers_count(node: DfsNode, pr: int, pc: int, i: int) -> nat
    decreases i,
{
    let n = node.constraints.n as int;
    if i <= 0 {
        0
    } else {
        line_peers_count(node, pr, pc, i - 1) + (if i - 1 != pr && cell(node.grid@, n, i - 1, pc)
            == 0 {
            1nat
        } else {
            0nat
        }) + (if i - 1 != pc && cell(node.grid@, n, pr, i - 1) == 0 {
            1nat
        } else {
            0nat
        })
    }
}

/// Summed candidate counts of those peers.
spec fn line_peers_sum(node: DfsNode, pr: int, pc: int, i: int) -> nat
    decreases i,
{
    let n = node.constraints.n as int;
    if i <= 0 {
        0
    } else {
        line_peers_sum(node, pr, pc, i - 1) + (if i - 1 != pr && cell(node.grid@, n, i - 1, pc)
            == 0 {
            num_candidates(node.constraints.spec_available(i - 1, pc), n)
        } else {
            0nat
        }) + (if i - 1 != pc && cell(node.grid@, n, pr, i - 1) == 0 {
            num_candidates(node.constraints.spec_available(pr, i - 1), n)
        } else {
            0nat
        })
    }
}

/// Empty cells among the first `dc` cells of box row `rr` (columns `c0`
/// onward) that lie off the row and column of (`pr`, `pc`).
spec fn box_row_peers_count(node: DfsNode, pr: int, pc: int, rr: int, c0: int, dc: int) -> nat
    decreases dc,
{
    let n = node.constraints.n as int;
    if dc <= 0 {
        0
    } else {
        box_row_peers_count(node, pr, pc, rr, c0, dc - 1) + (if rr != pr && c0 + (dc - 1) != pc
            && cell(node.grid@, n, rr, c0 + (dc - 1)) == 0 {
            1nat
        } else {
            0nat
        })
    }
}

/// Summed candidate counts of those box-row peers.
spec fn box_row_peers_sum(node: DfsNode, pr: int, pc: int, rr: int, c0: int, dc: int) -> nat
    decreases dc,
{
    let n = node.constraints.n as int;
    if dc <= 0 {
        0
    } else {
        box_row_peers_sum(node, pr, pc, rr, c0, dc - 1) + (if rr != pr && c0 + (dc - 1) != pc
            && cell(node.grid@, n, rr, c0 + (dc - 1)) == 0 {
            num_candidates(node.constraints.spec_available(rr, c0 + (dc - 1)), n)
        } else {
            0nat
        })
    }
}

/// Empty cells of the first `dr` box rows (from corner (`r0`, `c0`)) that
/// lie off the row and column of (`pr`, `pc`).
spec fn box_peers_count(node: DfsNode, pr: int, pc: int, r0: int, c0: int, dr: int) -> nat
    decreases dr,
{
    if dr <= 0 {
        0
    } else {
        box_peers_count(node, pr, pc, r0, c0, dr - 1) + box_row_peers_count(
            node,
            pr,
            pc,
            r0 + (dr - 1),
            c0,
            node.constraints.bc as int,
        )
    }
}

/// Summed candidate counts of those box peers.
spec fn box_peers_sum(node: DfsNode, pr: int, pc: int, r0: int, c0: int, dr: int) -> nat
    decreases dr,
{
    if dr <= 0 {
        0
    } else {
        box_peers_sum(node, pr, pc, r0, c0, dr - 1) + box_row_peers_sum(
            node,
            pr,
            pc,
            r0 + (dr - 1),
            c0,
            node.constraints.bc as int,
        )
    }
}

/// Pressure a cell's neighbourhood puts on the search: how many peers are
/// still empty, and how large their candidate domains are together.
struct PeerStat {
    peers_count: u32,
    peers_domains_sum: u32,
}

/// One node of the depth-first search: a grid and its constraint masks.
struct DfsNode {
    grid: Vec<u8>,
    constraints: Constraints,
}

/// Cell (`r2`, `c2`) lies before (`r`, `c`) in row-major scan order.
spec fn scanned(r2: int, c2: int, r: int, c: int) -> bool {
    r2 < r || (r2 == r && c2 < c)
}

/// The unit masks record exactly the values of the given cells that a
/// row-major scan has passed, up to but excluding (`r`, `c`).
spec fn masks_match_scan(cst: Constraints, g: Seq<u8>, r: int, c: int) -> bool {
    &&& forall|rr: int, v: int|
        0 <= rr < cst.n && 1 <= v <= 16 ==> (#[trigger] mask_has(cst.row@[rr], v) <==> exists|
            r2: int,
            c2: int,
        |
            0 <= r2 < cst.n && 0 <= c2 < cst.n && scanned(r2, c2, r, c) && r2 == rr
                && #[trigger] cell(g, cst.n as int, r2, c2) as int == v)
    &&& forall|cc: int, v: int|
        0 <= cc < cst.n && 1 <= v <= 16 ==> (#[trigger] mask_has(cst.col@[cc], v) <==> exists|
            r2: int,
            c2: int,
        |
            0 <= r2 < cst.n && 0 <= c2 < cst.n && scanned(r2, c2, r, c) && c2 == cc
                && #[trigger] cell(g, cst.n as int, r2, c2) as int == v)
    &&& forall|b: int, v: int|
        0 <= b < cst.n && 1 <= v <= 16 ==> (#[trigger] mask_has(cst.sbox@[b], v) <==> exists|
            r2: int,
            c2: int,
        |
            0 <= r2 < cst.n && 0 <= c2 < cst.n && scanned(r2, c2, r, c) && box_of(
                cst.n as int,
                cst.br as int,
                cst.bc as int,
                r2,
                c2,
            ) == b && #[trigger] cell(g, cst.n as int, r2, c2) as int == v)
}

/// The given cells that a row-major scan has passed, up to but excluding
/// (`r`, `c`), are pairwise compatible.
spec fn scan_compatible(g: Seq<u8>, n: int, br: int, bc: int, r: int, c: int) -> bool {
    forall|r1: int, c1: int, r2: int, c2: int|
        #![trigger cell(g, n, r1, c1), cell(g, n, r2, c2)]
        0 <= r1 < n && 0 <= c1 < n && 0 <= r2 < n && 0 <= c2 < n && scanned(r1, c1, r, c)
            && scanned(r2, c2, r, c) && !(r1 == r2 && c1 == c2) && cell(g, n, r1, c1) != 0 && (r1
            == r2 || c1 == c2 || box_of(n, br, bc, r1, c1) == box_of(n, br, bc, r2, c2)) ==> cell(
            g,
            n,
            r1,
            c1,
        ) != cell(g, n, r2, c2)
}

/// The unit masks hold exactly the values the grid places in each row,
/// column and box.
spec fn masks_exact(cst: Constraints, g: Seq<u8>) -> bool {
    &&& forall|rr: int, v: int|
        0 <= rr < cst.n && 1 <= v <= 16 ==> (#[trigger] mask_has(cst.row@[rr], v) <==> exists|
            c2: int,
        |
            0 <= c2 < cst.n && #[trigger] cell(g, cst.n as int, rr, c2) as int == v)
    &&& forall|cc: int, v: int|
        0 <= cc < cst.n && 1 <= v <= 16 ==> (#[trigger] mask_has(cst.col@[cc], v) <==> exists|
            r2: int,
        |
            0 <= r2 < cst.n && #[trigger] cell(g, cst.n as int, r2, cc) as int == v)
    &&& forall|b: int, v: int|
        0 <= b < cst.n && 1 <= v <= 16 ==> (#[trigger] mask_has(cst.sbox@[b], v) <==> exists|
            r2: int,
            c2: int,
        |
            0 <= r2 < cst.n && 0 <= c2 < cst.n && box_of(
                cst.n as int,
                cst.br as int,
                cst.bc as int,
                r2,
                c2,
            ) == b && #[trigger] cell(g, cst.n as int, r2, c2) as int == v)
}

/// A solution `sol` witnesses that a search node can still succeed: `sol`
/// is a valid solved grid, it keeps every cell the node has placed, and at
/// every cell the node still has empty, the value `sol` assigns there is
/// still available — neither taken in a unit nor locally banned.
spec fn node_consistent(node: DfsNode, sol: Seq<u8>) -> bool {
    let n = node.constraints.n as int;
    &&& sol.len() == n * n
    &&& grid_valid(sol, n, node.constraints.br as int, node.constraints.bc as int)
    &&& preserves_givens(node.grid@, sol)
    &&& forall|r: int, c: int|
        0 <= r < n && 0 <= c < n && cell(node.grid@, n, r, c) == 0 ==> mask_has(
            #[trigger] node.constraints.spec_available(r, c),
            cell(sol, n, r, c) as int,
        )
}

/// Placing at an empty cell the very value the witness assigns there keeps
/// the witness consistent: the grid gains the witness's value, and the bit
/// added to the three unit masks can only exclude that value at cells where
/// the witness, being unit-distinct, places a different one.
proof fn lemma_consistent_after_place(
    pre: DfsNode,
    post: DfsNode,
    r: int,
    c: int,
    k: u8,
    sol: Seq<u8>,
)
    requires
        pre.wf(),
        post.wf(),
        post.constraints.same_dims(&pre.constraints),
        post.grid@ == pre.grid@.update(r * pre.constraints.n + c, k),
        post.constraints.row@ == pre.constraints.row@.update(
            r,
            pre.constraints.row@[r] | value_bit(k as int),
        ),
        post.constraints.col@ == pre.constraints.col@.update(
            c,
            pre.constraints.col@[c] | value_bit(k as int),
        ),
        post.constraints.sbox@ == pre.constraints.sbox@.update(
            box_of(
                pre.constraints.n as int,
                pre.constraints.br as int,
                pre.constraints.bc as int,
                r,
                c,
            ),
            pre.constraints.sbox@[box_of(
                pre.constraints.n as int,
                pre.constraints.br as int,
                pre.constraints.bc as int,
                r,
                c,
            )] | value_bit(k as int),
        ),
        (post.constraints.backtrack@ == pre.constraints.backtrack@) || (forall|i: int|
            0 <= i < post.constraints.backtrack@.len()
                ==> #[trigger] post.constraints.backtrack@[i] == 0),
        0 <= r < pre.constraints.n,
        0 <= c < pre.constraints.n,
        1 <= k <= pre.constraints.n,
        cell(pre.grid@, pre.constraints.n as int, r, c) == 0,
        node_consistent(pre, sol),
        cell(sol, pre.constraints.n as int, r, c) == k,
    ensures
        node_consistent(post, sol),
{
    let n = pre.constraints.n as int;
    let br = pre.constraints.br as int;
    let bc = pre.constraints.bc as int;
    let b0 = box_of(n, br, bc, r, c);
    lemma_cell_index(n, r, c);
    lemma_box_of_bounds(n, br, bc, r, c);
    assert forall|i: int|
        0 <= i < post.grid@.len() && post.grid@[i] != 0 implies #[trigger] sol[i]
        == post.grid@[i] by {
        if i == r * n + c {
            assert(sol[i] == cell(sol, n, r, c));
        }
    }
    assert forall|r2: int, c2: int|
        0 <= r2 < n && 0 <= c2 < n && cell(post.grid@, n, r2, c2) == 0 implies mask_has(
        #[trigger] post.constraints.spec_available(r2, c2),
        cell(sol, n, r2, c2) as int,
    ) by {
        lemma_cell_index(n, r2, c2);
        lemma_box_of_bounds(n, br, bc, r2, c2);
        let idx2 = r2 * n + c2;
        let b2 = box_of(n, br, bc, r2, c2);
        let v = cell(sol, n, r2, c2) as int;
        assert(!(r2 == r && c2 == c));
        lemma_flat_index_injective(n, r2, c2, r, c);
        assert(cell(pre.grid@, n, r2, c2) == 0);
        assert(1 <= v <= n);
        assert(mask_has(pre.constraints.spec_available(r2, c2), v));
        if r2 == r || c2 == c || b2 == b0 {
            if r2 == r {
                assert(row_distinct(sol, n, r));
            } else if c2 == c {
                assert(col_distinct(sol, n, c));
            } else {
                lemma_valid_box_of_distinct(sol, n, br, bc, r2, c2, r, c);
            }
            assert(v != k as int);
        }
        let row_pre = pre.constraints.row@[r2];
        let col_pre = pre.constraints.col@[c2];
        let sbox_pre = pre.constraints.sbox@[b2];
        let bt_pre = pre.constraints.backtrack@[idx2];
        let f_pre = pre.constraints.spec_forbidden(r2, c2);
        lemma_mask_and(full_mask(n), !f_pre, v);
        lemma_mask_not(f_pre, v);
        lemma_mask_and(full_mask(n), row_pre | col_pre | sbox_pre | bt_pre, v);
        lemma_mask_or(row_pre | col_pre | sbox_pre, bt_pre, v);
        lemma_mask_or(row_pre | col_pre, sbox_pre, v);
        lemma_mask_or(row_pre, col_pre, v);
        let row_post = post.constraints.row@[r2];
        let col_post = post.constraints.col@[c2];
        let sbox_post = post.constraints.sbox@[b2];
        let bt_post = post.constraints.backtrack@[idx2];
        if r2 == r {
            lemma_mask_or_bit(row_pre, k as int, v);
        }
        if c2 == c {
            lemma_mask_or_bit(col_pre, k as int, v);
        }
        if b2 == b0 {
            lemma_mask_or_bit(sbox_pre, k as int, v);
        }
        if post.constraints.backtrack@ != pre.constraints.backtrack@ {
            lemma_mask_empty(v);
        }
        assert(!mask_has(row_post, v));
        assert(!mask_has(col_post, v));
        assert(!mask_has(sbox_post, v));
        assert(!mask_has(bt_post, v));
        lemma_mask_or(row_post, col_post, v);
        lemma_mask_or(row_post | col_post, sbox_post, v);
        lemma_mask_or(row_post | col_post | sbox_post, bt_post, v);
        let f_post = post.constraints.spec_forbidden(r2, c2);
        lemma_mask_and(full_mask(n), row_post | col_post | sbox_post | bt_post, v);
        lemma_mask_not(f_post, v);
        lemma_mask_and(full_mask(n), !f_post, v);
    }
}

/// Banning at an empty cell a value the witness does not assign there keeps
/// the witness consistent: only that one cell's ban mask changes, and the
/// witness's value at it keeps its bit.
proof fn lemma_consistent_after_ban(
    pre: DfsNode,
    post: DfsNode,
    r: int,
    c: int,
    k: u8,
    sol: Seq<u8>,
)
    requires
        pre.wf(),
        post.wf(),
        post.constraints.same_dims(&pre.constraints),
        post.grid@ == pre.grid@,
        post.constraints.row@ == pre.constraints.row@,
        post.constraints.col@ == pre.constraints.col@,
        post.constraints.sbox@ == pre.constraints.sbox@,
        post.constraints.backtrack@ == pre.constraints.backtrack@.update(
            r * pre.constraints.n + c,
            pre.constraints.backtrack@[r * pre.constraints.n + c] | value_bit(k as int),
        ),
        0 <= r < pre.constraints.n,
        0 <= c < pre.constraints.n,
        1 <= k <= pre.constraints.n,
        node_consistent(pre, sol),
        cell(sol, pre.constraints.n as int, r, c) != k,
    ensures
        node_consistent(post, sol),
{
    let n = pre.constraints.n as int;
    let br = pre.constraints.br as int;
    let bc = pre.constraints.bc as int;
    lemma_cell_index(n, r, c);
    assert forall|r2: int, c2: int|
        0 <= r2 < n && 0 <= c2 < n && cell(post.grid@, n, r2, c2) == 0 implies mask_has(
        #[trigger] post.constraints.spec_available(r2, c2),
        cell(sol, n, r2, c2) as int,
    ) by {
        lemma_cell_index(n, r2, c2);
        lemma_box_of_bounds(n, br, bc, r2, c2);
        let idx2 = r2 * n + c2;
        let b2 = box_of(n, br, bc, r2, c2);
        let v = cell(sol, n, r2, c2) as int;
        assert(1 <= v <= n);
        assert(mask_has(pre.constraints.spec_available(r2, c2), v));
        let row_m = pre.constraints.row@[r2];
        let col_m = pre.constraints.col@[c2];
        let sbox_m = pre.constraints.sbox@[b2];
        let bt_pre = pre.constraints.backtrack@[idx2];
        let f_pre = pre.constraints.spec_forbidden(r2, c2);
        lemma_mask_and(full_mask(n), !f_pre, v);
        lemma_mask_not(f_pre, v);
        lemma_mask_and(full_mask(n), row_m | col_m | sbox_m | bt_pre, v);
        lemma_mask_or(row_m | col_m | sbox_m, bt_pre, v);
        let bt_post = post.constraints.backtrack@[idx2];
        if r2 == r && c2 == c {
            lemma_mask_or_bit(bt_pre, k as int, v);
        } else {
            lemma_flat_index_injective(n, r2, c2, r, c);
        }
        assert(!mask_has(bt_post, v));
        lemma_mask_or(row_m | col_m | sbox_m, bt_post, v);
        let f_post = post.constraints.spec_forbidden(r2, c2);
        lemma_mask_and(full_mask(n), row_m | col_m | sbox_m | bt_post, v);
        lemma_mask_not(f_post, v);
        lemma_mask_and(full_mask(n), !f_post, v);
    }
}

impl DfsNode {
    spec fn wf(&self) -> bool {
        &&& self.constraints.wf()
        &&& self.grid@.len() == self.constraints.n * self.constraints.n
        &&& forall|i: int|
            0 <= i < self.grid@.len() ==> #[trigger] self.grid@[i] <= self.constraints.n
    }

    /// Builds the root node: copies the given cells and scans them once to
    /// seed the unit masks.  Two equal givens in one unit are an immediate
    /// conflict: the puzzle is rejected as malformed before any search, so
    /// a root node comes back exactly when the givens are compatible.
    #[verifier::loop_isolation(false)]
    fn new(s: &Sudoku) -> (res: Result<DfsNode, SolveError>)
        requires
            s.wf(),
        ensures
            res matches Ok(node) ==> node.wf() && node.constraints.n == s.n
                && node.constraints.br == s.br && node.constraints.bc == s.bc && node.grid@
                == s.init@,
            res is Ok <==> givens_compatible(s.init@, s.n as int, s.br as int, s.bc as int),
            res is Err ==> (res matches Err(e) && e == SolveError::InvalidPuzzle),
            res matches Ok(node) ==> masks_exact(node.constraints, s.init@),
            res matches Ok(node) ==> forall|i: int|
                0 <= i < node.constraints.backtrack@.len()
                    ==> #[trigger] node.constraints.backtrack@[i] == 0,
            res matches Ok(node) ==> forall|sol: Seq<u8>|
                sol.len() == s.init@.len() && grid_valid(
                    sol,
                    s.n as int,
                    s.br as int,
                    s.bc as int,
                ) && preserves_givens(s.init@, sol) ==> #[trigger] node_consistent(node, sol),
    {
        let n = s.n;
        let ghost ni = n as int;
        let ghost bri = s.br as int;
        let ghost bci = s.bc as int;
        let ghost g = s.init@;
        let mut node = DfsNode { grid: copy_vec(&s.init), constraints: Constraints::empty(
            s.n,
            s.br,
            s.bc,
        ) };
        proof {
            assert forall|w: int| 1 <= w <= 16 implies !mask_has(0u16, w) by {
                lemma_mask_empty(w);
            }
        }
        let mut r: usize = 0;
        while r < n
            invariant
                r <= n,
                node.wf(),
                node.constraints.n == s.n,
                node.constraints.br == s.br,
                node.constraints.bc == s.bc,
                node.grid@ == s.init@,
                forall|i: int|
                    0 <= i < node.constraints.backtrack@.len()
                        ==> #[trigger] node.constraints.backtrack@[i] == 0,
                masks_match_scan(node.constraints, g, r as int, 0),
                scan_compatible(g, ni, bri, bci, r as int, 0),
            decreases n - r,
        {
            let mut c: usize = 0;
            while c < n
                invariant
                    r < n,
                    c <= n,
                    node.wf(),
                    node.constraints.n == s.n,
                    node.constraints.br == s.br,
                    node.constraints.bc == s.bc,
                    node.grid@ == s.init@,
                    forall|i: int|
                        0 <= i < node.constraints.backtrack@.len()
                            ==> #[trigger] node.constraints.backtrack@[i] == 0,
                    masks_match_scan(node.constraints, g, r as int, c as int),
                    scan_compatible(g, ni, bri, bci, r as int, c as int),
                decreases n - c,
            {
                let v = cell_at(&node.grid, n, r, c);
                proof {
                    lemma_box_of_bounds(ni, bri, bci, r as int, c as int);
                }
                if v > 0 {
                    proof {
                        lemma_cell_index(ni, r as int, c as int);
                    }
                    let ghost b0 = box_of(ni, bri, bci, r as int, c as int);
                    if node.constraints.is_placed(r, c, v) {
                        proof {
                            assert(cell(g, ni, r as int, c as int) == v);
                            if givens_compatible(g, ni, bri, bci) {
                                if mask_has(node.constraints.row@[r as int], v as int) {
                                    let (r2, c2): (int, int) = choose|r2: int, c2: int|
                                        0 <= r2 < ni && 0 <= c2 < ni && scanned(
                                            r2,
                                            c2,
                                            r as int,
                                            c as int,
                                        ) && r2 == r as int && #[trigger] cell(g, ni, r2, c2)
                                            as int == v as int;
                                    assert(cell(g, ni, r2, c2) != cell(g, ni, r as int, c as int));
                                    assert(false);
                                } else if mask_has(node.constraints.col@[c as int], v as int) {
                                    let (r2, c2): (int, int) = choose|r2: int, c2: int|
                                        0 <= r2 < ni && 0 <= c2 < ni && scanned(
                                            r2,
                                            c2,
                                            r as int,
                                            c as int,
                                        ) && c2 == c as int && #[trigger] cell(g, ni, r2, c2)
                                            as int == v as int;
                                    assert(cell(g, ni, r2, c2) != cell(g, ni, r as int, c as int));
                                    assert(false);
                                } else {
                                    let (r2, c2): (int, int) = choose|r2: int, c2: int|
                                        0 <= r2 < ni && 0 <= c2 < ni && scanned(
                                            r2,
                                            c2,
                                            r as int,
                                            c as int,
                                        ) && box_of(ni, bri, bci, r2, c2) == b0 && #[trigger] cell(
                                            g,
                                            ni,
                                            r2,
                                            c2,
                                        ) as int == v as int;
                                    assert(cell(g, ni, r2, c2) != cell(g, ni, r as int, c as int));
                                    assert(false);
                                }
                            }
                        }
                        return Err(SolveError::InvalidPuzzle);
                    }
                    let ghost cst0 = node.constraints;
                    proof {
                        assert(!mask_has(cst0.row@[r as int], v as int));
                        assert(!mask_has(cst0.col@[c as int], v as int));
                        assert(!mask_has(cst0.sbox@[b0], v as int));
                    }
                    node.constraints.mark_taken(r, c, v);
                    proof {
                        assert(cell(g, ni, r as int, c as int) == v);
                        assert forall|rr: int, w: int|
                            0 <= rr < ni && 1 <= w <= 16 implies (#[trigger] mask_has(
                            node.constraints.row@[rr],
                            w,
                        ) <==> exists|r2: int, c2: int|
                            0 <= r2 < ni && 0 <= c2 < ni && scanned(r2, c2, r as int, c as int + 1)
                                && r2 == rr && #[trigger] cell(g, ni, r2, c2) as int == w) by {
                            if rr == r as int {
                                lemma_mask_or_bit(cst0.row@[rr], v as int, w);
                            }
                        }
                        assert forall|cc: int, w: int|
                            0 <= cc < ni && 1 <= w <= 16 implies (#[trigger] mask_has(
                            node.constraints.col@[cc],
                            w,
                        ) <==> exists|r2: int, c2: int|
                            0 <= r2 < ni && 0 <= c2 < ni && scanned(r2, c2, r as int, c as int + 1)
                                && c2 == cc && #[trigger] cell(g, ni, r2, c2) as int == w) by {
                            if cc == c as int {
                                lemma_mask_or_bit(cst0.col@[cc], v as int, w);
                            }
                        }
                        assert forall|b: int, w: int|
                            0 <= b < ni && 1 <= w <= 16 implies (#[trigger] mask_has(
                            node.constraints.sbox@[b],
                            w,
                        ) <==> exists|r2: int, c2: int|
                            0 <= r2 < ni && 0 <= c2 < ni && scanned(r2, c2, r as int, c as int + 1)
                                && box_of(ni, bri, bci, r2, c2) == b && #[trigger] cell(
                            g,
                            ni,
                            r2,
                            c2,
                        ) as int == w) by {
                            if b == b0 {
                                lemma_mask_or_bit(cst0.sbox@[b], v as int, w);
                            }
                        }
                        assert forall|r1: int, c1: int, r2: int, c2: int|
                            0 <= r1 < ni && 0 <= c1 < ni && 0 <= r2 < ni && 0 <= c2 < ni
                                && scanned(r1, c1, r as int, c as int + 1) && scanned(
                                r2,
                                c2,
                                r as int,
                                c as int + 1,
                            ) && !(r1 == r2 && c1 == c2) && cell(g, ni, r1, c1) != 0 && (r1 == r2
                                || c1 == c2 || box_of(ni, bri, bci, r1, c1) == box_of(
                                ni,
                                bri,
                                bci,
                                r2,
                                c2,
                            )) implies cell(g, ni, r1, c1) != cell(g, ni, r2, c2) by {
                            if cell(g, ni, r1, c1) == cell(g, ni, r2, c2) {
                                if r1 == r as int && c1 == c as int {
                                    assert(scanned(r2, c2, r as int, c as int));
                                    assert(cell(g, ni, r2, c2) as int == v as int);
                                    assert(false);
                                } else if r2 == r as int && c2 == c as int {
                                    assert(scanned(r1, c1, r as int, c as int));
                                    assert(cell(g, ni, r1, c1) as int == v as int);
                                    assert(false);
                                } else {
                                    assert(scanned(r1, c1, r as int, c as int));
                                    assert(scanned(r2, c2, r as int, c as int));
                                    assert(false);
                                }
                            }
                        }
                    }
                } else {
                    proof {
                        assert(cell(g, ni, r as int, c as int) == 0);
                        assert forall|rr: int, w: int|
                            0 <= rr < ni && 1 <= w <= 16 implies (#[trigger] mask_has(
                            node.constraints.row@[rr],
                            w,
                        ) <==> exists|r2: int, c2: int|
                            0 <= r2 < ni && 0 <= c2 < ni && scanned(r2, c2, r as int, c as int + 1)
                                && r2 == rr && #[trigger] cell(g, ni, r2, c2) as int == w) by {
                        }
                        assert forall|cc: int, w: int|
                            0 <= cc < ni && 1 <= w <= 16 implies (#[trigger] mask_has(
                            node.constraints.col@[cc],
                            w,
                        ) <==> exists|r2: int, c2: int|
                            0 <= r2 < ni && 0 <= c2 < ni && scanned(r2, c2, r as int, c as int + 1)
                                && c2 == cc && #[trigger] cell(g, ni, r2, c2) as int == w) by {
                        }
                        assert forall|b: int, w: int|
                            0 <= b < ni && 1 <= w <= 16 implies (#[trigger] mask_has(
                            node.constraints.sbox@[b],
                            w,
                        ) <==> exists|r2: int, c2: int|
                            0 <= r2 < ni && 0 <= c2 < ni && scanned(r2, c2, r as int, c as int + 1)
                                && box_of(ni, bri, bci, r2, c2) == b && #[trigger] cell(
                            g,
                            ni,
                            r2,
                            c2,
                        ) as int == w) by {
                        }
                    }
                }
                c = c + 1;
            }
            proof {
                assert(masks_match_scan(node.constraints, g, r as int + 1, 0));
                assert(scan_compatible(g, ni, bri, bci, r as int + 1, 0));
            }
            r = r + 1;
        }
        proof {
            assert(givens_compatible(g, ni, bri, bci));
            assert forall|rr: int, v: int|
                0 <= rr < ni && 1 <= v <= 16 implies (#[trigger] mask_has(
                node.constraints.row@[rr],
                v,
            ) <==> exists|c2: int|
                0 <= c2 < ni && #[trigger] cell(g, ni, rr, c2) as int == v) by {
                if mask_has(node.constraints.row@[rr], v) {
                    let (ra, ca): (int, int) = choose|ra: int, ca: int|
                        0 <= ra < ni && 0 <= ca < ni && scanned(ra, ca, ni, 0) && ra == rr
                            && #[trigger] cell(g, ni, ra, ca) as int == v;
                    assert(cell(g, ni, rr, ca) as int == v);
                }
                if exists|c2: int| 0 <= c2 < ni && #[trigger] cell(g, ni, rr, c2) as int == v {
                    let ca = choose|c2: int|
                        0 <= c2 < ni && #[trigger] cell(g, ni, rr, c2) as int == v;
                    assert(scanned(rr, ca, ni, 0));
                }
            }
            assert forall|cc: int, v: int|
                0 <= cc < ni && 1 <= v <= 16 implies (#[trigger] mask_has(
                node.constraints.col@[cc],
                v,
            ) <==> exists|r2: int|
                0 <= r2 < ni && #[trigger] cell(g, ni, r2, cc) as int == v) by {
                if mask_has(node.constraints.col@[cc], v) {
                    let (ra, ca): (int, int) = choose|ra: int, ca: int|
                        0 <= ra < ni && 0 <= ca < ni && scanned(ra, ca, ni, 0) && ca == cc
                            && #[trigger] cell(g, ni, ra, ca) as int == v;
                    assert(cell(g, ni, ra, cc) as int == v);
                }
                if exists|r2: int| 0 <= r2 < ni && #[trigger] cell(g, ni, r2, cc) as int == v {
                    let ra = choose|r2: int|
                        0 <= r2 < ni && #[trigger] cell(g, ni, r2, cc) as int == v;
                    assert(scanned(ra, cc, ni, 0));
                }
            }
            assert forall|b: int, v: int|
                0 <= b < ni && 1 <= v <= 16 implies (#[trigger] mask_has(
                node.constraints.sbox@[b],
                v,
            ) <==> exists|r2: int, c2: int|
                0 <= r2 < ni && 0 <= c2 < ni && box_of(ni, bri, bci, r2, c2) == b
                    && #[trigger] cell(g, ni, r2, c2) as int == v) by {
                if exists|r2: int, c2: int|
                    0 <= r2 < ni && 0 <= c2 < ni && box_of(ni, bri, bci, r2, c2) == b
                        && #[trigger] cell(g, ni, r2, c2) as int == v {
                    let (ra, ca): (int, int) = choose|r2: int, c2: int|
                        0 <= r2 < ni && 0 <= c2 < ni && box_of(ni, bri, bci, r2, c2) == b
                            && #[trigger] cell(g, ni, r2, c2) as int == v;
                    assert(scanned(ra, ca, ni, 0));
                }
            }
            assert forall|sol: Seq<u8>|
                sol.len() == ni * ni && grid_valid(sol, ni, bri, bci) && preserves_givens(
                    g,
                    sol,
                ) implies #[trigger] node_consistent(node, sol) by {
                assert forall|r2: int, c2: int|
                    0 <= r2 < ni && 0 <= c2 < ni && cell(node.grid@, ni, r2, c2)
                        == 0 implies mask_has(
                    #[trigger] node.constraints.spec_available(r2, c2),
                    cell(sol, ni, r2, c2) as int,
                ) by {
                    lemma_cell_index(ni, r2, c2);
                    lemma_box_of_bounds(ni, bri, bci, r2, c2);
                    let idx2 = r2 * ni + c2;
                    let b2 = box_of(ni, bri, bci, r2, c2);
                    let v = cell(sol, ni, r2, c2) as int;
                    assert(1 <= v <= ni);
                    let row_m = node.constraints.row@[r2];
                    let col_m = node.constraints.col@[c2];
                    let sbox_m = node.constraints.sbox@[b2];
                    let bt_m = node.constraints.backtrack@[idx2];
                    if mask_has(row_m, v) {
                        let ca = choose|c3: int|
                            0 <= c3 < ni && #[trigger] cell(g, ni, r2, c3) as int == v;
                        lemma_cell_index(ni, r2, ca);
                        assert(cell(sol, ni, r2, ca) == cell(g, ni, r2, ca));
                        assert(row_distinct(sol, ni, r2));
                        assert(false);
                    }
                    if mask_has(col_m, v) {
                        let ra = choose|r3: int|
                            0 <= r3 < ni && #[trigger] cell(g, ni, r3, c2) as int == v;
                        lemma_cell_index(ni, ra, c2);
                        assert(cell(sol, ni, ra, c2) == cell(g, ni, ra, c2));
                        assert(col_distinct(sol, ni, c2));
                        assert(false);
                    }
                    if mask_has(sbox_m, v) {
                        let (ra, ca): (int, int) = choose|r3: int, c3: int|
                            0 <= r3 < ni && 0 <= c3 < ni && box_of(ni, bri, bci, r3, c3) == b2
                                && #[trigger] cell(g, ni, r3, c3) as int == v;
                        lemma_cell_index(ni, ra, ca);
                        assert(cell(sol, ni, ra, ca) == cell(g, ni, ra, ca));
                        assert(!(ra == r2 && ca == c2));
                        lemma_valid_box_of_distinct(sol, ni, bri, bci, ra, ca, r2, c2);
                        assert(false);
                    }
                    lemma_mask_empty(v);
                    assert(!mask_has(bt_m, v));
                    lemma_full_mask_has(ni, v);
                    lemma_mask_or(row_m, col_m, v);
                    lemma_mask_or(row_m | col_m, sbox_m, v);
                    lemma_mask_or(row_m | col_m | sbox_m, bt_m, v);
                    let f = node.constraints.spec_forbidden(r2, c2);
                    lemma_mask_and(full_mask(ni), row_m | col_m | sbox_m | bt_m, v);
                    lemma_mask_not(f, v);
                    lemma_mask_and(full_mask(ni), !f, v);
                }
            }
        }
        Ok(node)
    }

    /// Branches: a child node with `val` placed at (`r`, `c`) and fresh
    /// local bans.
    fn fork(&self, r: usize, c: usize, val: u8) -> (child: DfsNode)
        requires
            self.wf(),
            r < self.constraints.n,
            c < self.constraints.n,
            1 <= val <= self.constraints.n,
            cell(self.grid@, self.constraints.n as int, r as int, c as int) == 0,
        ensures
            child.wf(),
            child.constraints.same_dims(&self.constraints),
            child.grid@ == self.grid@.update(r as int * self.constraints.n as int + c as int, val),
            child.constraints.row@ == self.constraints.row@.update(
                r as int,
                self.constraints.row@[r as int] | value_bit(val as int),
            ),
            child.constraints.col@ == self.constraints.col@.update(
                c as int,
                self.constraints.col@[c as int] | value_bit(val as int),
            ),
            child.constraints.sbox@ == self.constraints.sbox@.update(
                box_of(
                    self.constraints.n as int,
                    self.constraints.br as int,
                    self.constraints.bc as int,
                    r as int,
                    c as int,
                ),
                self.constraints.sbox@[box_of(
                    self.constraints.n as int,
                    self.constraints.br as int,
                    self.constraints.bc as int,
                    r as int,
                    c as int,
                )] | value_bit(val as int),
            ),
            forall|i: int|
                0 <= i < child.constraints.backtrack@.len()
                    ==> #[trigger] child.constraints.backtrack@[i] == 0,
            forall|sol: Seq<u8>|
                node_consistent(*self, sol) && cell(
                    sol,
                    self.constraints.n as int,
                    r as int,
                    c as int,
                ) == val ==> #[trigger] node_consistent(child, sol),
    {
        let mut child = DfsNode { grid: copy_vec(&self.grid), constraints: self.constraints.fork() };
        child.constraints.mark_taken(r, c, val);
        proof {
            lemma_cell_index(self.constraints.n as int, r as int, c as int);
        }
        let idx = r * self.constraints.n + c;
        child.grid[idx] = val;
        proof {
            assert forall|sol: Seq<u8>|
                node_consistent(*self, sol) && cell(
                    sol,
                    self.constraints.n as int,
                    r as int,
                    c as int,
                ) == val implies #[trigger] node_consistent(child, sol) by {
                lemma_consistent_after_place(*self, child, r as int, c as int, val, sol);
            }
        }
        child
    }

    /// Resolves naked singles to a fixpoint: a worklist seeded with the
    /// cells that have exactly one candidate; every forced placement may
    /// enqueue row, column and box peers whose count just dropped to one.
    /// Fails the moment any empty cell has no candidate left.
    #[verifier::loop_isolation(false)]
    fn singleton_propagation(&mut self) -> (res: Result<(), SolveError>)
        requires
            old(self).wf(),
        ensures
            final(self).wf(),
            final(self).constraints.same_dims(&old(self).constraints),
            final(self).constraints.backtrack@ == old(self).constraints.backtrack@,
            final(self).grid@.len() == old(self).grid@.len(),
            preserves_givens(old(self).grid@, final(self).grid@),
            count_zeros(final(self).grid@) <= count_zeros(old(self).grid@),
            (forall|i: int| 0 <= i < old(self).grid@.len() ==> #[trigger] old(self).grid@[i] != 0)
                ==> res is Ok,
            forall|sol: Seq<u8>|
                #[trigger] node_consistent(*old(self), sol) ==> res is Ok && node_consistent(
                    *final(self),
                    sol,
                ),
            res is Ok ==> forall|r2: int, c2: int|
                0 <= r2 < final(self).constraints.n && 0 <= c2 < final(self).constraints.n
                    && cell(final(self).grid@, final(self).constraints.n as int, r2, c2) == 0
                    ==> num_candidates(
                    #[trigger] final(self).constraints.spec_available(r2, c2),
                    final(self).constraints.n as int,
                ) >= 1,
    {
        let n = self.constraints.n;
        let mut queue: Vec<(usize, usize)> = Vec::new();
        // Seed with the initial naked singles.
        let mut r: usize = 0;
        while r < n
            invariant
                r <= n,
                forall|k: int|
                    0 <= k < queue@.len() ==> (#[trigger] queue@[k]).0 < n && queue@[k].1 < n,
                forall|r2: int, c2: int|
                    0 <= r2 < r && 0 <= c2 < n && cell(self.grid@, n as int, r2, c2) == 0
                        ==> num_candidates(
                        #[trigger] self.constraints.spec_available(r2, c2),
                        n as int,
                    ) >= 1,
            decreases n - r,
        {
            let mut c: usize = 0;
            while c < n
                invariant
                    r < n,
                    c <= n,
                    forall|k: int|
                        0 <= k < queue@.len() ==> (#[trigger] queue@[k]).0 < n && queue@[k].1 < n,
                    forall|r2: int, c2: int|
                        0 <= r2 < r && 0 <= c2 < n && cell(self.grid@, n as int, r2, c2) == 0
                            ==> num_candidates(
                            #[trigger] self.constraints.spec_available(r2, c2),
                            n as int,
                        ) >= 1,
                    forall|c2: int|
                        0 <= c2 < c && cell(self.grid@, n as int, r as int, c2) == 0
                            ==> num_candidates(
                            #[trigger] self.constraints.spec_available(r as int, c2),
                            n as int,
                        ) >= 1,
                decreases n - c,
            {
                let v = cell_at(&self.grid, n, r, c);
                if v == 0 {
                    proof {
                        if forall|i2: int|
                            0 <= i2 < old(self).grid@.len() ==> #[trigger] old(self).grid@[i2]
                                != 0 {
                            lemma_cell_index(n as int, r as int, c as int);
                            assert(false);
                        }
                    }
                    let avail = self.constraints.available_candidates(r, c);
                    let cnt = count_values(avail, n);
                    if cnt == 0 {
                        proof {
                            assert forall|sol: Seq<u8>|
                                #[trigger] node_consistent(*old(self), sol) implies false by {
                                let vs = cell(sol, n as int, r as int, c as int) as int;
                                assert(1 <= vs <= n as int);
                                assert(mask_has(avail, vs));
                                lemma_num_candidates_member(avail, n as int, vs);
                            }
                        }
                        return Err(SolveError::Unsolvable);
                    }
                    if cnt == 1 {
                        queue.push((r, c));
                    }
                }
                c = c + 1;
            }
            r = r + 1;
        }
        // Work the list off.
        let mut qi: usize = 0;
        while qi < queue.len()
            invariant
                self.wf(),
                self.constraints.same_dims(&old(self).constraints),
                self.constraints.backtrack@ == old(self).constraints.backtrack@,
                self.grid@.len() == old(self).grid@.len(),
                preserves_givens(old(self).grid@, self.grid@),
                count_zeros(self.grid@) <= count_zeros(old(self).grid@),
                forall|sol: Seq<u8>|
                    #[trigger] node_consistent(*old(self), sol) ==> node_consistent(*self, sol),
                forall|r2: int, c2: int|
                    0 <= r2 < n && 0 <= c2 < n && cell(self.grid@, n as int, r2, c2) == 0
                        ==> num_candidates(
                        #[trigger] self.constraints.spec_available(r2, c2),
                        n as int,
                    ) >= 1,
                qi <= queue@.len(),
                forall|k: int|
                    0 <= k < queue@.len() ==> (#[trigger] queue@[k]).0 < n && queue@[k].1 < n,
            decreases count_zeros(self.grid@), queue@.len() - qi,
        {
            let p = queue[qi];
            let pr = p.0;
            let pc = p.1;
            qi = qi + 1;
            let v0 = cell_at(&self.grid, n, pr, pc);
            if v0 == 0 {
                let avail = self.constraints.available_candidates(pr, pc);
                let cnt = count_values(avail, n);
                if cnt == 1 {
                    match first_value(avail, n) {
                        None => {
                            // A mask that counts one candidate always yields one.
                            proof {
                                lemma_num_candidates_none(avail, n as int);
                                assert(false);
                            }
                        },
                        Some(k) => {
                            proof {
                                lemma_cell_index(n as int, pr as int, pc as int);
                            }
                            let ghost pre_self = *self;
                            let ghost g0 = self.grid@;
                            let idx = pr * n + pc;
                            self.grid[idx] = k;
                            proof {
                                lemma_count_zeros_update(g0, idx as int, k);
                            }
                            self.constraints.mark_taken(pr, pc, k);
                            proof {
                                assert forall|sol: Seq<u8>|
                                    #[trigger] node_consistent(*old(self), sol)
                                    implies node_consistent(*self, sol) by {
                                    assert(node_consistent(pre_self, sol));
                                    let v_sol = cell(sol, n as int, pr as int, pc as int);
                                    assert(1 <= v_sol as int <= n as int);
                                    assert(mask_has(
                                        pre_self.constraints.spec_available(
                                            pr as int,
                                            pc as int,
                                        ),
                                        v_sol as int,
                                    ));
                                    lemma_num_candidates_unique(
                                        avail,
                                        n as int,
                                        v_sol as int,
                                        k as int,
                                    );
                                    lemma_consistent_after_place(
                                        pre_self,
                                        *self,
                                        pr as int,
                                        pc as int,
                                        k,
                                        sol,
                                    );
                                }
                            }
                            // Row and column peers that became singles.
                            let mut i: usize = 0;
                            while i < n
                                invariant
                                    i <= n,
                                    qi <= queue@.len(),
                                    forall|kk: int|
                                        0 <= kk < queue@.len() ==> (#[trigger] queue@[kk]).0 < n
                                            && queue@[kk].1 < n,
                                    forall|l: int|
                                        0 <= l < i && l != pr && cell(
                                            self.grid@,
                                            n as int,
                                            l,
                                            pc as int,
                                        ) == 0 ==> num_candidates(
                                            #[trigger] self.constraints.spec_available(
                                                l,
                                                pc as int,
                                            ),
                                            n as int,
                                        ) >= 1,
                                    forall|l: int|
                                        0 <= l < i && l != pc && cell(
                                            self.grid@,
                                            n as int,
                                            pr as int,
                                            l,
                                        ) == 0 ==> num_candidates(
                                            #[trigger] self.constraints.spec_available(
                                                pr as int,
                                                l,
                                            ),
                                            n as int,
                                        ) >= 1,
                                decreases n - i,
                            {
                                if i != pr {
                                    let w = cell_at(&self.grid, n, i, pc);
                                    if w == 0 {
                                        proof {
                                            if forall|i2: int|
                                                0 <= i2 < old(self).grid@.len()
                                                    ==> #[trigger] old(self).grid@[i2] != 0 {
                                                lemma_cell_index(n as int, i as int, pc as int);
                                                assert(false);
                                            }
                                        }
                                        let a2 = self.constraints.available_candidates(i, pc);
                                        let c2 = count_values(a2, n);
                                        if c2 == 0 {
                                            proof {
                                                assert forall|sol: Seq<u8>|
                                                    #[trigger] node_consistent(
                                                    *old(self),
                                                    sol,
                                                ) implies false by {
                                                    let vs = cell(
                                                        sol,
                                                        n as int,
                                                        i as int,
                                                        pc as int,
                                                    ) as int;
                                                    assert(1 <= vs <= n as int);
                                                    assert(mask_has(a2, vs));
                                                    lemma_num_candidates_member(
                                                        a2,
                                                        n as int,
                                                        vs,
                                                    );
                                                }
                                            }
                                            return Err(SolveError::Unsolvable);
                                        }
                                        if c2 == 1 {
                                            queue.push((i, pc));
                                        }
                                    }
                                }
                                if i != pc {
                                    let w = cell_at(&self.grid, n, pr, i);
                                    if w == 0 {
                                        proof {
                                            if forall|i2: int|
                                                0 <= i2 < old(self).grid@.len()
                                                    ==> #[trigger] old(self).grid@[i2] != 0 {
                                                lemma_cell_index(n as int, pr as int, i as int);
                                                assert(false);
                                            }
                                        }
                                        let a2 = self.constraints.available_candidates(pr, i);
                                        let c2 = count_values(a2, n);
                                        if c2 == 0 {
                                            proof {
                                                assert forall|sol: Seq<u8>|
                                                    #[trigger] node_consistent(
                                                    *old(self),
                                                    sol,
                                                ) implies false by {
                                                    let vs = cell(
                                                        sol,
                                                        n as int,
                                                        pr as int,
                                                        i as int,
                                                    ) as int;
                                                    assert(1 <= vs <= n as int);
                                                    assert(mask_has(a2, vs));
                                                    lemma_num_candidates_member(
                                                        a2,
                                                        n as int,
                                                        vs,
                                                    );
                                                }
                                            }
                                            return Err(SolveError::Unsolvable);
                                        }
                                        if c2 == 1 {
                                            queue.push((pr, i));
                                        }
                                    }
                                }
                                i = i + 1;
                            }
                            // Box peers outside the cell's row and column.
                            proof {
                                lemma_box_corner(
                                    n as int,
                                    self.constraints.br as int,
                                    self.constraints.bc as int,
                                    pr as int,
                                    pc as int,
                                );
                            }
                            let r0 = pr / self.constraints.br * self.constraints.br;
                            let c0 = pc / self.constraints.bc * self.constraints.bc;
                            let mut dr: usize = 0;
                            while dr < self.constraints.br
                                invariant
                                    dr <= self.constraints.br,
                                    qi <= queue@.len(),
                                    forall|kk: int|
                                        0 <= kk < queue@.len() ==> (#[trigger] queue@[kk]).0 < n
                                            && queue@[kk].1 < n,
                                    forall|rx: int, cx: int|
                                        r0 <= rx < r0 + dr && c0 <= cx < c0
                                            + self.constraints.bc && rx != pr && cx != pc && cell(
                                            self.grid@,
                                            n as int,
                                            rx,
                                            cx,
                                        ) == 0 ==> num_candidates(
                                            #[trigger] self.constraints.spec_available(rx, cx),
                                            n as int,
                                        ) >= 1,
                                decreases self.constraints.br - dr,
                            {
                                let mut dc: usize = 0;
                                while dc < self.constraints.bc
                                    invariant
                                        dr < self.constraints.br,
                                        dc <= self.constraints.bc,
                                        qi <= queue@.len(),
                                        forall|kk: int|
                                            0 <= kk < queue@.len() ==> (#[trigger] queue@[kk]).0
                                                < n && queue@[kk].1 < n,
                                        forall|rx: int, cx: int|
                                            r0 <= rx < r0 + dr && c0 <= cx < c0
                                                + self.constraints.bc && rx != pr && cx != pc
                                                && cell(self.grid@, n as int, rx, cx) == 0
                                                ==> num_candidates(
                                                #[trigger] self.constraints.spec_available(
                                                    rx,
                                                    cx,
                                                ),
                                                n as int,
                                            ) >= 1,
                                        forall|rx: int, cx: int|
                                            rx == r0 + dr && c0 <= cx < c0 + dc && rx != pr && cx
                                                != pc && cell(self.grid@, n as int, rx, cx) == 0
                                                ==> num_candidates(
                                                #[trigger] self.constraints.spec_available(
                                                    rx,
                                                    cx,
                                                ),
                                                n as int,
                                            ) >= 1,
                                    decreases self.constraints.bc - dc,
                                {
                                    let rr = r0 + dr;
                                    let cc = c0 + dc;
                                    if rr != pr && cc != pc {
                                        let w = cell_at(&self.grid, n, rr, cc);
                                        if w == 0 {
                                            proof {
                                                if forall|i2: int|
                                                    0 <= i2 < old(self).grid@.len()
                                                        ==> #[trigger] old(self).grid@[i2] != 0 {
                                                    lemma_cell_index(
                                                        n as int,
                                                        rr as int,
                                                        cc as int,
                                                    );
                                                    assert(false);
                                                }
                                            }
                                            let a2 = self.constraints.available_candidates(
                                                rr,
                                                cc,
                                            );
                                            let c2 = count_values(a2, n);
                                            if c2 == 0 {
                                                proof {
                                                    assert forall|sol: Seq<u8>|
                                                        #[trigger] node_consistent(
                                                        *old(self),
                                                        sol,
                                                    ) implies false by {
                                                        let vs = cell(
                                                            sol,
                                                            n as int,
                                                            rr as int,
                                                            cc as int,
                                                        ) as int;
                                                        assert(1 <= vs <= n as int);
                                                        assert(mask_has(a2, vs));
                                                        lemma_num_candidates_member(
                                                            a2,
                                                            n as int,
                                                            vs,
                                                        );
                                                    }
                                                }
                                                return Err(SolveError::Unsolvable);
                                            }
                                            if c2 == 1 {
                                                queue.push((rr, cc));
                                            }
                                        }
                                    }
                                    dc = dc + 1;
                                }
                                dr = dr + 1;
                            }
                            // Every cell whose candidates could have
                            // shrunk is a peer and was just rechecked; any
                            // other cell kept its mask word unchanged.
                            proof {
                                let ni = n as int;
                                let bri = self.constraints.br as int;
                                let bci = self.constraints.bc as int;
                                let b0 = box_of(ni, bri, bci, pr as int, pc as int);
                                assert forall|r2: int, c2: int|
                                    0 <= r2 < ni && 0 <= c2 < ni && cell(
                                        self.grid@,
                                        ni,
                                        r2,
                                        c2,
                                    ) == 0 implies num_candidates(
                                    #[trigger] self.constraints.spec_available(r2, c2),
                                    ni,
                                ) >= 1 by {
                                    lemma_cell_index(ni, r2, c2);
                                    lemma_box_of_bounds(ni, bri, bci, r2, c2);
                                    lemma_box_of_bounds(ni, bri, bci, pr as int, pc as int);
                                    let b2 = box_of(ni, bri, bci, r2, c2);
                                    if r2 == pr as int && c2 == pc as int {
                                        assert(false);
                                    } else if r2 == pr as int || c2 == pc as int {
                                    } else if b2 == b0 {
                                        lemma_box_of_bounds(ni, bri, bci, r2, c2);
                                        lemma_box_of_bounds(ni, bri, bci, pr as int, pc as int);
                                        assert(r2 / bri == pr as int / bri && c2 / bci
                                            == pc as int / bci) by (nonlinear_arith)
                                            requires
                                                (r2 / bri) * bri + c2 / bci == (pr as int / bri)
                                                    * bri + pc as int / bci,
                                                0 <= c2 / bci < bri,
                                                0 <= pc as int / bci < bri,
                                        ;
                                        vstd::arithmetic::div_mod::lemma_fundamental_div_mod(
                                            r2,
                                            bri,
                                        );
                                        vstd::arithmetic::div_mod::lemma_fundamental_div_mod(
                                            c2,
                                            bci,
                                        );
                                        assert(0 <= r2 % bri < bri && 0 <= c2 % bci < bci)
                                            by (nonlinear_arith)
                                            requires
                                                0 <= r2,
                                                0 <= c2,
                                                1 <= bri,
                                                1 <= bci,
                                        ;
                                        assert(r0 as int == (r2 / bri) * bri && c0 as int == (c2
                                            / bci) * bci) by (nonlinear_arith)
                                            requires
                                                r0 as int == (pr as int / bri) * bri,
                                                c0 as int == (pc as int / bci) * bci,
                                                r2 / bri == pr as int / bri,
                                                c2 / bci == pc as int / bci,
                                        ;
                                        assert(r0 as int <= r2 < r0 as int + bri && c0 as int
                                            <= c2 < c0 as int + bci) by (nonlinear_arith)
                                            requires
                                                r2 == bri * (r2 / bri) + r2 % bri,
                                                c2 == bci * (c2 / bci) + c2 % bci,
                                                0 <= r2 % bri < bri,
                                                0 <= c2 % bci < bci,
                                                r0 as int == (r2 / bri) * bri,
                                                c0 as int == (c2 / bci) * bci,
                                        ;
                                    } else {
                                        assert(cell(pre_self.grid@, ni, r2, c2) == 0);
                                        assert(num_candidates(
                                            pre_self.constraints.spec_available(r2, c2),
                                            ni,
                                        ) >= 1);
                                        assert(self.constraints.row@[r2]
                                            == pre_self.constraints.row@[r2]);
                                        assert(self.constraints.col@[c2]
                                            == pre_self.constraints.col@[c2]);
                                        assert(self.constraints.sbox@[b2]
                                            == pre_self.constraints.sbox@[b2]);
                                        assert(self.constraints.backtrack@[r2 * ni + c2]
                                            == pre_self.constraints.backtrack@[r2 * ni + c2]);
                                        assert(self.constraints.spec_forbidden(r2, c2)
                                            == pre_self.constraints.spec_forbidden(r2, c2));
                                        assert(self.constraints.spec_available(r2, c2)
                                            == pre_self.constraints.spec_available(r2, c2));
                                    }
                                }
                            }
                        },
                    }
                }
            }
        }
        Ok(())
    }

    /// Counts the still-empty row, column and box peers of (`pr`, `pc`) and
    /// sums their available-candidate counts; box cells on the cell's own
    /// row or column are left to the row and column terms.
    #[verifier::loop_isolation(false)]
    fn peers_stat(&self, pr: usize, pc: usize) -> (st: PeerStat)
        requires
            self.wf(),
            pr < self.constraints.n,
            pc < self.constraints.n,
        ensures
            st.peers_count as nat == line_peers_count(
                *self,
                pr as int,
                pc as int,
                self.constraints.n as int,
            ) + box_peers_count(
                *self,
                pr as int,
                pc as int,
                (pr as int / self.constraints.br as int) * self.constraints.br as int,
                (pc as int / self.constraints.bc as int) * self.constraints.bc as int,
                self.constraints.br as int,
            ),
            st.peers_domains_sum as nat == line_peers_sum(
                *self,
                pr as int,
                pc as int,
                self.constraints.n as int,
            ) + box_peers_sum(
                *self,
                pr as int,
                pc as int,
                (pr as int / self.constraints.br as int) * self.constraints.br as int,
                (pc as int / self.constraints.bc as int) * self.constraints.bc as int,
                self.constraints.br as int,
            ),
    {
        let n = self.constraints.n;
        let mut count: u32 = 0;
        let mut sum: u32 = 0;
        let mut i: usize = 0;
        while i < n
            invariant
                i <= n,
                count <= 2 * i,
                sum <= 32 * i,
                count as nat == line_peers_count(*self, pr as int, pc as int, i as int),
                sum as nat == line_peers_sum(*self, pr as int, pc as int, i as int),
            decreases n - i,
        {
            if i != pr {
                let w = cell_at(&self.grid, n, i, pc);
                if w == 0 {
                    count = count + 1;
                    sum = sum + count_values(
                        self.constraints.available_candidates(i, pc),
                        n,
                    ) as u32;
                }
            }
            if i != pc {
                let w = cell_at(&self.grid, n, pr, i);
                if w == 0 {
                    count = count + 1;
                    sum = sum + count_values(
                        self.constraints.available_candidates(pr, i),
                        n,
                    ) as u32;
                }
            }
            i = i + 1;
        }
        proof {
            lemma_box_corner(
                n as int,
                self.constraints.br as int,
                self.constraints.bc as int,
                pr as int,
                pc as int,
            );
        }
        let r0 = pr / self.constraints.br * self.constraints.br;
        let c0 = pc / self.constraints.bc * self.constraints.bc;
        let ghost lc = line_peers_count(*self, pr as int, pc as int, n as int);
        let ghost ls = line_peers_sum(*self, pr as int, pc as int, n as int);
        let mut dr: usize = 0;
        while dr < self.constraints.br
            invariant
                dr <= self.constraints.br,
                count <= 32 + 16 * dr,
                sum <= 512 + 256 * dr,
                count as nat == lc + box_peers_count(
                    *self,
                    pr as int,
                    pc as int,
                    r0 as int,
                    c0 as int,
                    dr as int,
                ),
                sum as nat == ls + box_peers_sum(
                    *self,
                    pr as int,
                    pc as int,
                    r0 as int,
                    c0 as int,
                    dr as int,
                ),
            decreases self.constraints.br - dr,
        {
            let mut dc: usize = 0;
            while dc < self.constraints.bc
                invariant
                    dr < self.constraints.br,
                    dc <= self.constraints.bc,
                    count <= 32 + 16 * dr + dc,
                    sum <= 512 + 256 * dr + 16 * dc,
                    count as nat == lc + box_peers_count(
                        *self,
                        pr as int,
                        pc as int,
                        r0 as int,
                        c0 as int,
                        dr as int,
                    ) + box_row_peers_count(
                        *self,
                        pr as int,
                        pc as int,
                        r0 as int + dr as int,
                        c0 as int,
                        dc as int,
                    ),
                    sum as nat == ls + box_peers_sum(
                        *self,
                        pr as int,
                        pc as int,
                        r0 as int,
                        c0 as int,
                        dr as int,
                    ) + box_row_peers_sum(
                        *self,
                        pr as int,
                        pc as int,
                        r0 as int + dr as int,
                        c0 as int,
                        dc as int,
                    ),
                decreases self.constraints.bc - dc,
            {
                let rr = r0 + dr;
                let cc = c0 + dc;
                if rr != pr && cc != pc {
                    let w = cell_at(&self.grid, n, rr, cc);
                    if w == 0 {
                        count = count + 1;
                        sum = sum + count_values(
                            self.constraints.available_candidates(rr, cc),
                            n,
                        ) as u32;
                    }
                }
                dc = dc + 1;
            }
            dr = dr + 1;
        }
        PeerStat { peers_count: count, peers_domains_sum: sum }
    }

    /// Runs propagation, then picks the empty cell with the fewest
    /// candidates.  Ties go to the cell with more empty peers; among those,
    /// to the cell whose peers have the smaller summed domain.  Reports
    /// `Solved` when no empty cell remains.
    #[verifier::loop_isolation(false)]
    fn mrv(&mut self) -> (res: Result<MrvRes, SolveError>)
        requires
            old(self).wf(),
        ensures
            final(self).wf(),
            final(self).constraints.same_dims(&old(self).constraints),
            final(self).constraints.backtrack@ == old(self).constraints.backtrack@,
            final(self).grid@.len() == old(self).grid@.len(),
            preserves_givens(old(self).grid@, final(self).grid@),
            count_zeros(final(self).grid@) <= count_zeros(old(self).grid@),
            (forall|i: int| 0 <= i < old(self).grid@.len() ==> #[trigger] old(self).grid@[i] != 0)
                ==> res is Ok,
            forall|sol: Seq<u8>|
                #[trigger] node_consistent(*old(self), sol) ==> res is Ok && node_consistent(
                    *final(self),
                    sol,
                ),
            res matches Ok(MrvRes::Cell(pr, pc)) ==> pr < final(self).constraints.n
                && pc < final(self).constraints.n
                && cell(final(self).grid@, final(self).constraints.n as int, pr as int, pc as int)
                == 0 && num_candidates(
                final(self).constraints.spec_available(pr as int, pc as int),
                final(self).constraints.n as int,
            ) >= 1,
            res matches Ok(m) && m is Solved ==> forall|r2: int, c2: int|
                0 <= r2 < final(self).constraints.n && 0 <= c2 < final(self).constraints.n
                    ==> #[trigger] cell(final(self).grid@, final(self).constraints.n as int, r2, c2)
                    != 0,
            res matches Ok(MrvRes::Cell(pr, pc)) ==> forall|r2: int, c2: int|
                0 <= r2 < final(self).constraints.n && 0 <= c2 < final(self).constraints.n
                    && cell(final(self).grid@, final(self).constraints.n as int, r2, c2) == 0
                    ==> num_candidates(
                    #[trigger] final(self).constraints.spec_available(r2, c2),
                    final(self).constraints.n as int,
                ) >= num_candidates(
                    final(self).constraints.spec_available(pr as int, pc as int),
                    final(self).constraints.n as int,
                ),
    {
        match self.singleton_propagation() {
            Err(e) => {
                return Err(e);
            },
            Ok(_) => {
            },
        }
        let n = self.constraints.n;
        let mut best_r: usize = 0;
        let mut best_c: usize = 0;
        let mut best_cnt: u8 = u8::MAX;
        let mut best_stat = PeerStat { peers_count: 0, peers_domains_sum: 0 };
        let mut r: usize = 0;
        while r < n
            invariant
                r <= n,
                best_cnt != u8::MAX ==> best_r < n && best_c < n && cell(
                    self.grid@,
                    n as int,
                    best_r as int,
                    best_c as int,
                ) == 0 && best_cnt as nat == num_candidates(
                    self.constraints.spec_available(best_r as int, best_c as int),
                    n as int,
                ),
                best_cnt == u8::MAX ==> forall|r2: int, c2: int|
                    0 <= r2 < r && 0 <= c2 < n ==> #[trigger] cell(self.grid@, n as int, r2, c2)
                        != 0,
                forall|r2: int, c2: int|
                    0 <= r2 < n && 0 <= c2 < n && scanned(r2, c2, r as int, 0) && cell(
                        self.grid@,
                        n as int,
                        r2,
                        c2,
                    ) == 0 ==> num_candidates(
                        #[trigger] self.constraints.spec_available(r2, c2),
                        n as int,
                    ) >= best_cnt as nat,
            decreases n - r,
        {
            let mut c: usize = 0;
            while c < n
                invariant
                    r < n,
                    c <= n,
                    best_cnt != u8::MAX ==> best_r < n && best_c < n && cell(
                        self.grid@,
                        n as int,
                        best_r as int,
                        best_c as int,
                    ) == 0 && best_cnt as nat == num_candidates(
                        self.constraints.spec_available(best_r as int, best_c as int),
                        n as int,
                    ),
                    best_cnt == u8::MAX ==> forall|r2: int, c2: int|
                        0 <= r2 < r && 0 <= c2 < n ==> #[trigger] cell(
                            self.grid@,
                            n as int,
                            r2,
                            c2,
                        ) != 0,
                    best_cnt == u8::MAX ==> forall|c2: int|
                        0 <= c2 < c ==> #[trigger] cell(self.grid@, n as int, r as int, c2) != 0,
                    forall|r2: int, c2: int|
                        0 <= r2 < n && 0 <= c2 < n && scanned(r2, c2, r as int, c as int) && cell(
                            self.grid@,
                            n as int,
                            r2,
                            c2,
                        ) == 0 ==> num_candidates(
                            #[trigger] self.constraints.spec_available(r2, c2),
                            n as int,
                        ) >= best_cnt as nat,
                decreases n - c,
            {
                let v = cell_at(&self.grid, n, r, c);
                if v == 0 {
                    let cnt = count_values(self.constraints.available_candidates(r, c), n);
                    if cnt < best_cnt {
                        best_cnt = cnt;
                        best_r = r;
                        best_c = c;
                        best_stat = self.peers_stat(r, c);
                    } else if cnt == best_cnt {
                        let st = self.peers_stat(r, c);
                        if best_stat.peers_count < st.peers_count || (best_stat.peers_count
                            == st.peers_count && best_stat.peers_domains_sum
                            > st.peers_domains_sum) {
                            best_r = r;
                            best_c = c;
                            best_stat = st;
                        }
                    }
                }
                c = c + 1;
            }
            r = r + 1;
        }
        if best_cnt == u8::MAX {
            return Ok(MrvRes::Solved);
        }
        Ok(MrvRes::Cell(best_r, best_c))
    }

    /// Least constraining value: among the candidates of (`pr`, `pc`), the
    /// one already excluded at the most empty peers, ties going to the
    /// last-scanned (highest) value.
    #[verifier::loop_isolation(false)]
    fn lcv(&self, pr: usize, pc: usize) -> (val: u8)
        requires
            self.wf(),
            pr < self.constraints.n,
            pc < self.constraints.n,
            exists|w: int|
                1 <= w <= self.constraints.n && mask_has(
                    #[trigger] self.constraints.spec_available(pr as int, pc as int),
                    w,
                ),
        ensures
            1 <= val <= self.constraints.n,
            mask_has(self.constraints.spec_available(pr as int, pc as int), val as int),
    {
        let n = self.constraints.n;
        let avail = self.constraints.available_candidates(pr, pc);
        proof {
            lemma_box_corner(
                n as int,
                self.constraints.br as int,
                self.constraints.bc as int,
                pr as int,
                pc as int,
            );
        }
        let r0 = pr / self.constraints.br * self.constraints.br;
        let c0 = pc / self.constraints.bc * self.constraints.bc;
        let mut best_v: u8 = 0;
        let mut best_score: u32 = 0;
        let mut v: usize = 1;
        while v <= n
            invariant
                1 <= v <= n + 1,
                best_v == 0 ==> best_score == 0,
                best_v == 0 ==> forall|w: int| 1 <= w < v ==> !mask_has(avail, w),
                best_v != 0 ==> 1 <= best_v <= n && mask_has(avail, best_v as int),
            decreases n + 1 - v,
        {
            if mask_contains(avail, v as u8) {
                let mut score: u32 = 0;
                let mut l: usize = 0;
                while l < n
                    invariant
                        l <= n,
                        score <= 2 * l,
                        v <= n,
                    decreases n - l,
                {
                    if l != pc {
                        let w = cell_at(&self.grid, n, pr, l);
                        if w == 0 && mask_contains(
                            self.constraints.forbidden_candidates(pr, l),
                            v as u8,
                        ) {
                            score = score + 1;
                        }
                    }
                    if l != pr {
                        let w = cell_at(&self.grid, n, l, pc);
                        if w == 0 && mask_contains(
                            self.constraints.forbidden_candidates(l, pc),
                            v as u8,
                        ) {
                            score = score + 1;
                        }
                    }
                    l = l + 1;
                }
                let mut dr: usize = 0;
                while dr < self.constraints.br
                    invariant
                        dr <= self.constraints.br,
                        score <= 32 + 16 * dr,
                        v <= n,
                    decreases self.constraints.br - dr,
                {
                    let mut dc: usize = 0;
                    while dc < self.constraints.bc
                        invariant
                            dr < self.constraints.br,
                            dc <= self.constraints.bc,
                            score <= 32 + 16 * dr + dc,
                            v <= n,
                        decreases self.constraints.bc - dc,
                    {
                        let rr = r0 + dr;
                        let cc = c0 + dc;
                        if rr != pr && cc != pc {
                            let w = cell_at(&self.grid, n, rr, cc);
                            if w == 0 && mask_contains(
                                self.constraints.forbidden_candidates(rr, cc),
                                v as u8,
                            ) {
                                score = score + 1;
                            }
                        }
                        dc = dc + 1;
                    }
                    dr = dr + 1;
                }
                if score >= best_score {
                    best_score = score;
                    best_v = v as u8;
                }
            }
            v = v + 1;
        }
        best_v
    }
}

/// A grid whose every cell is placed has no zero entry at any flat index.
proof fn lemma_complete_flat(g: Seq<u8>, n: int)
    requires
        1 <= n,
        g.len() == n * n,
        forall|r: int, c: int| 0 <= r < n && 0 <= c < n ==> #[trigger] cell(g, n, r, c) != 0,
    ensures
        forall|i: int| 0 <= i < g.len() ==> #[trigger] g[i] != 0,
{
    assert forall|i: int| 0 <= i < g.len() implies #[trigger] g[i] != 0 by {
        let r = i / n;
        let c = i % n;
        vstd::arithmetic::div_mod::lemma_fundamental_div_mod(i, n);
        assert(0 <= i % n < n && 0 <= i / n < n) by (nonlinear_arith)
            requires
                0 <= i < n * n,
                1 <= n,
        ;
        assert(r * n == n * r) by (nonlinear_arith);
        assert(cell(g, n, r, c) != 0);
    }
}

/// The propagation-plus-backtracking solver.
pub struct DfsBacktracking;

impl DfsBacktracking {
    /// Searches below one node.  On success the returned grid passes the
    /// validity checker and keeps every cell the node had already placed; on
    /// failure no completion was found below the node.
    #[verifier::loop_isolation(false)]
    fn search(node: DfsNode) -> (res: Result<Vec<u8>, SolveError>)
        requires
            node.wf(),
        ensures
            res matches Ok(sol) ==> sol@.len() == node.grid@.len() && grid_valid(
                sol@,
                node.constraints.n as int,
                node.constraints.br as int,
                node.constraints.bc as int,
            ) && preserves_givens(node.grid@, sol@),
            res is Err ==> res == Err::<Vec<u8>, SolveError>(SolveError::Unsolvable),
            grid_valid(
                node.grid@,
                node.constraints.n as int,
                node.constraints.br as int,
                node.constraints.bc as int,
            ) ==> (res matches Ok(sol) && sol@ == node.grid@),
            (exists|sol: Seq<u8>| #[trigger] node_consistent(node, sol)) ==> res is Ok,
        decreases count_zeros(node.grid@),
    {
        let ghost n0 = node;
        let mut nd = node;
        proof {
            lemma_sum_le(nd.constraints.backtrack@, nd.constraints.n as int);
        }
        loop
            invariant
                nd.wf(),
                nd.constraints.same_dims(&n0.constraints),
                nd.grid@.len() == n0.grid@.len(),
                preserves_givens(n0.grid@, nd.grid@),
                count_zeros(nd.grid@) <= count_zeros(n0.grid@),
                sum_candidates(nd.constraints.backtrack@, nd.constraints.n as int) <= (
                nd.constraints.n * nd.constraints.n) * nd.constraints.n,
                (exists|sol: Seq<u8>| #[trigger] node_consistent(n0, sol)) ==> (exists|
                    sol: Seq<u8>,
                | #[trigger] node_consistent(nd, sol)),
            decreases (nd.constraints.n * nd.constraints.n) * nd.constraints.n - sum_candidates(
                nd.constraints.backtrack@,
                nd.constraints.n as int,
            ),
        {
            let ghost nd_pre = nd;
            match nd.mrv() {
                Err(_) => {
                    proof {
                        if grid_valid(
                            n0.grid@,
                            n0.constraints.n as int,
                            n0.constraints.br as int,
                            n0.constraints.bc as int,
                        ) {
                            lemma_valid_values(
                                n0.grid@,
                                n0.constraints.n as int,
                                n0.constraints.br as int,
                                n0.constraints.bc as int,
                            );
                            assert forall|i: int|
                                0 <= i < nd_pre.grid@.len() implies #[trigger] nd_pre.grid@[i]
                                != 0 by {
                                assert(n0.grid@[i] != 0);
                                assert(nd_pre.grid@[i] == n0.grid@[i]);
                            }
                            assert(false);
                        }
                        if exists|sol: Seq<u8>| #[trigger] node_consistent(n0, sol) {
                            let sol = choose|sol: Seq<u8>| node_consistent(nd_pre, sol);
                            assert(node_consistent(nd_pre, sol));
                            assert(false);
                        }
                    }
                    return Err(SolveError::Unsolvable);
                },
                Ok(MrvRes::Solved) => {
                    proof {
                        if grid_valid(
                            n0.grid@,
                            n0.constraints.n as int,
                            n0.constraints.br as int,
                            n0.constraints.bc as int,
                        ) {
                            lemma_valid_values(
                                n0.grid@,
                                n0.constraints.n as int,
                                n0.constraints.br as int,
                                n0.constraints.bc as int,
                            );
                            assert forall|i: int|
                                0 <= i < nd.grid@.len() implies #[trigger] nd.grid@[i]
                                == n0.grid@[i] by {
                                assert(n0.grid@[i] != 0);
                                assert(nd_pre.grid@[i] == n0.grid@[i]);
                                assert(nd.grid@[i] == nd_pre.grid@[i]);
                            }
                            assert(nd.grid@ =~= n0.grid@);
                        }
                        if exists|sol: Seq<u8>| #[trigger] node_consistent(n0, sol) {
                            let sol = choose|sol: Seq<u8>| node_consistent(nd_pre, sol);
                            assert(node_consistent(nd_pre, sol));
                            assert(node_consistent(nd, sol));
                            assert(1 <= nd.constraints.n as int) by (nonlinear_arith)
                                requires
                                    nd.constraints.n as int == nd.constraints.br as int
                                        * nd.constraints.bc as int,
                                    1 <= nd.constraints.br as int,
                                    1 <= nd.constraints.bc as int,
                            ;
                            lemma_complete_flat(nd.grid@, nd.constraints.n as int);
                            assert forall|i: int|
                                0 <= i < nd.grid@.len() implies nd.grid@[i] == sol[i] by {
                                assert(sol[i] == nd.grid@[i]);
                            }
                            assert(nd.grid@ =~= sol);
                            assert(grid_valid(
                                nd.grid@,
                                nd.constraints.n as int,
                                nd.constraints.br as int,
                                nd.constraints.bc as int,
                            ));
                        }
                    }
                    if grid_filled_valid(
                        &nd.grid,
                        nd.constraints.n,
                        nd.constraints.br,
                        nd.constraints.bc,
                    ) {
                        return Ok(nd.grid);
                    }
                    return Err(SolveError::Unsolvable);
                },
                Ok(MrvRes::Cell(pr, pc)) => {
                    proof {
                        if grid_valid(
                            n0.grid@,
                            n0.constraints.n as int,
                            n0.constraints.br as int,
                            n0.constraints.bc as int,
                        ) {
                            lemma_valid_values(
                                n0.grid@,
                                n0.constraints.n as int,
                                n0.constraints.br as int,
                                n0.constraints.bc as int,
                            );
                            lemma_cell_index(nd.constraints.n as int, pr as int, pc as int);
                            let idx = pr as int * nd.constraints.n as int + pc as int;
                            assert(n0.grid@[idx] != 0);
                            assert(nd_pre.grid@[idx] == n0.grid@[idx]);
                            assert(nd.grid@[idx] == nd_pre.grid@[idx]);
                            assert(false);
                        }
                    }
                    let avail = nd.constraints.available_candidates(pr, pc);
                    match first_value(avail, nd.constraints.n) {
                        None => {
                            // After a successful propagation pass the
                            // selected cell always has a candidate left.
                            proof {
                                lemma_num_candidates_none(avail, nd.constraints.n as int);
                                assert(false);
                            }
                            return Err(SolveError::Unsolvable);
                        },
                        Some(fv) => {
                            assert(mask_has(
                                nd.constraints.spec_available(pr as int, pc as int),
                                fv as int,
                            ));
                            let val = nd.lcv(pr, pc);
                            proof {
                                lemma_available_not_banned(
                                    nd.constraints,
                                    pr as int,
                                    pc as int,
                                    val as int,
                                );
                                lemma_cell_index(nd.constraints.n as int, pr as int, pc as int);
                                lemma_count_zeros_update(
                                    nd.grid@,
                                    pr as int * nd.constraints.n as int + pc as int,
                                    val,
                                );
                            }
                            let child = nd.fork(pr, pc, val);
                            match Self::search(child) {
                                Ok(sol) => {
                                    proof {
                                        assert forall|i: int|
                                            0 <= i < n0.grid@.len() && n0.grid@[i]
                                                != 0 implies sol@[i] == n0.grid@[i] by {
                                            assert(nd.grid@[i] == n0.grid@[i]);
                                            assert(child.grid@[i] == nd.grid@[i]);
                                            assert(sol@[i] == child.grid@[i]);
                                        }
                                    }
                                    return Ok(sol);
                                },
                                Err(_) => {
                                    let ghost nd_mid = nd;
                                    nd.constraints.forbid_cell_val(pr, pc, val);
                                    proof {
                                        lemma_sum_le(
                                            nd.constraints.backtrack@,
                                            nd.constraints.n as int,
                                        );
                                        if exists|sol: Seq<u8>| #[trigger] node_consistent(
                                            n0,
                                            sol,
                                        ) {
                                            let sol = choose|sol: Seq<u8>|
                                                node_consistent(nd_pre, sol);
                                            assert(node_consistent(nd_pre, sol));
                                            assert(node_consistent(nd_mid, sol));
                                            if cell(
                                                sol,
                                                nd_mid.constraints.n as int,
                                                pr as int,
                                                pc as int,
                                            ) == val {
                                                assert(node_consistent(child, sol));
                                                assert(false);
                                            }
                                            lemma_consistent_after_ban(
                                                nd_mid,
                                                nd,
                                                pr as int,
                                                pc as int,
                                                val,
                                                sol,
                                            );
                                            assert(node_consistent(nd, sol));
                                        }
                                    }
                                },
                            }
                        },
                    }
                },
            }
        }
    }

    /// Solves the puzzle in place.  On success the solution grid passes the
    /// validity checker and preserves every given; on failure the solution
    /// cells are left untouched.
    pub fn solve(&mut self, s: &mut Sudoku) -> (res: Result<(), SolveError>)
        requires
            old(s).wf(),
        ensures
            final(s).wf(),
            final(s).n == old(s).n,
            final(s).br == old(s).br,
            final(s).bc == old(s).bc,
            final(s).init@ == old(s).init@,
            res is Ok ==> grid_valid(
                final(s).solution@,
                old(s).n as int,
                old(s).br as int,
                old(s).bc as int,
            ) && preserves_givens(old(s).init@, final(s).solution@),
            res is Err ==> final(s).solution@ == old(s).solution@,
            res == Err::<(), SolveError>(SolveError::InvalidPuzzle) <==> !givens_compatible(
                old(s).init@,
                old(s).n as int,
                old(s).br as int,
                old(s).bc as int,
            ),
            grid_valid(old(s).init@, old(s).n as int, old(s).br as int, old(s).bc as int) ==> (res
                is Ok && final(s).solution@ == old(s).init@),
            (exists|sol: Seq<u8>|
                sol.len() == old(s).init@.len() && grid_valid(
                    sol,
                    old(s).n as int,
                    old(s).br as int,
                    old(s).bc as int,
                ) && #[trigger] preserves_givens(old(s).init@, sol)) ==> res is Ok,
    {
        let root = match DfsNode::new(s) {
            Ok(node) => node,
            Err(e) => {
                proof {
                    if grid_valid(s.init@, s.n as int, s.br as int, s.bc as int) {
                        lemma_valid_implies_compatible(
                            s.init@,
                            s.n as int,
                            s.br as int,
                            s.bc as int,
                        );
                        assert(false);
                    }
                    if exists|sol: Seq<u8>|
                        sol.len() == s.init@.len() && grid_valid(
                            sol,
                            s.n as int,
                            s.br as int,
                            s.bc as int,
                        ) && #[trigger] preserves_givens(s.init@, sol) {
                        let sol = choose|sol: Seq<u8>|
                            sol.len() == s.init@.len() && grid_valid(
                                sol,
                                s.n as int,
                                s.br as int,
                                s.bc as int,
                            ) && #[trigger] preserves_givens(s.init@, sol);
                        lemma_incompatible_unsolvable(
                            s.init@,
                            sol,
                            s.n as int,
                            s.br as int,
                            s.bc as int,
                        );
                        assert(false);
                    }
                }
                return Err(e);
            },
        };
        match Self::search(root) {
            Ok(sol) => {
                proof {
                    lemma_valid_values(
                        sol@,
                        s.n as int,
                        s.br as int,
                        s.bc as int,
                    );
                }
                s.solution = sol;
                Ok(())
            },
            Err(e) => {
                proof {
                    if exists|sol: Seq<u8>|
                        sol.len() == s.init@.len() && grid_valid(
                            sol,
                            s.n as int,
                            s.br as int,
                            s.bc as int,
                        ) && #[trigger] preserves_givens(s.init@, sol) {
                        let sol = choose|sol: Seq<u8>|
                            sol.len() == s.init@.len() && grid_valid(
                                sol,
                                s.n as int,
                                s.br as int,
                                s.bc as int,
                            ) && #[trigger] preserves_givens(s.init@, sol);
                        assert(node_consistent(root, sol));
                        assert(false);
                    }
                }
                Err(e)
            },
        }
    }
}

} // verus!
