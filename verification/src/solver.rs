//! Solver strategy selection and the error type shared by all solvers.

use crate::dfs::DfsBacktracking;
use crate::sudoku::{givens_compatible, grid_valid, preserves_givens, Sudoku};
use vstd::prelude::*;

verus! {

/// Which solving algorithm an engine should run.
#[derive(Clone, Copy, Debug, PartialEq, Eq, Structural)]
pub enum Kind {
    Dfs,
}

/// Why a solve attempt produced no solution.
#[derive(Clone, Copy, Debug, PartialEq, Eq, Structural)]
pub enum SolveError {
    /// The input grid is structurally malformed: wrong dimensions or a cell
    /// value outside 0..=N.
    InvalidPuzzle,
    /// The search space was exhausted without reaching a solved grid.
    Unsolvable,
}

/// The concrete strategies an engine can carry.
enum SolverEnum {
    Dfs(DfsBacktracking),
}

impl SolverEnum {
    fn solve(&mut self, s: &mut Sudoku) -> (res: Result<(), SolveError>)
        requires
            old(s).wf(),
        ensures
            final(s).wf(),
            final(s).n == old(s).n,
            final(s).br == old(s).br,
            final(s).bc == old(s).bc,
            final(s).init@ == old(s).init@,
            res is Ok ==> grid_valid(
                final(s).solution@,
                old(s).n as int,
                old(s).br as int,
                old(s).bc as int,
            ) && preserves_givens(old(s).init@, final(s).solution@),
            res is Err ==> final(s).solution@ == old(s).solution@,
            res == Err::<(), SolveError>(SolveError::InvalidPuzzle) <==> !givens_compatible(
                old(s).init@,
                old(s).n as int,
                old(s).br as int,
                old(s).bc as int,
            ),
            grid_valid(old(s).init@, old(s).n as int, old(s).br as int, old(s).bc as int) ==> (res
                is Ok && final(s).solution@ == old(s).init@),
            (exists|sol: Seq<u8>|
                sol.len() == old(s).init@.len() && grid_valid(
                    sol,
                    old(s).n as int,
                    old(s).br as int,
                    old(s).bc as int,
                ) && #[trigger] preserves_givens(old(s).init@, sol)) ==> res is Ok,
    {
        match self {
            SolverEnum::Dfs(a) => a.solve(s),
        }
    }
}

/// Strategy context: owns one solving algorithm and runs it on puzzles.
pub struct SolverEngine {
    alg: SolverEnum,
}

impl SolverEngine {
    /// Which algorithm this engine carries.
    pub closed spec fn spec_kind(&self) -> Kind {
        match self.alg {
            SolverEnum::Dfs(_) => Kind::Dfs,
        }
    }

    /// Builds an engine for the requested algorithm.
    pub fn new(kind: Kind) -> (e: SolverEngine)
        ensures
            e.spec_kind() == kind,
    {
        match kind {
            Kind::Dfs => SolverEngine { alg: SolverEnum::Dfs(DfsBacktracking) },
        }
    }

    /// Solves the puzzle in place.  On success the solution grid passes the
    /// validity checker and keeps every given cell; on failure the solution
    /// cells are left untouched.
    pub fn solve(&mut self, s: &mut Sudoku) -> (res: Result<(), SolveError>)
        requires
            old(s).wf(),
        ensures
            final(self).spec_kind() == old(self).spec_kind(),
            final(s).wf(),
            final(s).n == old(s).n,
            final(s).br == old(s).br,
            final(s).bc == old(s).bc,
            final(s).init@ == old(s).init@,
            res is Ok ==> grid_valid(
                final(s).solution@,
                old(s).n as int,
                old(s).br as int,
                old(s).bc as int,
            ) && preserves_givens(old(s).init@, final(s).solution@),
            res is Err ==> final(s).solution@ == old(s).solution@,
            res == Err::<(), SolveError>(SolveError::InvalidPuzzle) <==> !givens_compatible(
                old(s).init@,
                old(s).n as int,
                old(s).br as int,
                old(s).bc as int,
            ),
            grid_valid(old(s).init@, old(s).n as int, old(s).br as int, old(s).bc as int) ==> (res
                is Ok && final(s).solution@ == old(s).init@),
            (exists|sol: Seq<u8>|
                sol.len() == old(s).init@.len() && grid_valid(
                    sol,
                    old(s).n as int,
                    old(s).br as int,
                    old(s).bc as int,
                ) && #[trigger] preserves_givens(old(s).init@, sol)) ==> res is Ok,
    {
        self.alg.solve(s)
    }
}

/// With the solver's contract, the outcome variant is a function of the
/// givens alone: a solve is `Ok` exactly when a valid completion of the
/// givens exists, and `Err(InvalidPuzzle)` exactly when the givens
/// conflict, so two runs on equal givens agree on success and on which
/// error they report.  Which of several valid solutions an `Ok` run fills
/// in is a heuristic choice the contract does not pin.
pub proof fn lemma_outcome_deterministic(
    init: Seq<u8>,
    n: int,
    br: int,
    bc: int,
    res1: Result<(), SolveError>,
    sol1: Seq<u8>,
    res2: Result<(), SolveError>,
    sol2: Seq<u8>,
)
    requires
        res1 is Ok ==> sol1.len() == init.len() && grid_valid(sol1, n, br, bc)
            && preserves_givens(init, sol1),
        (res1 == Err::<(), SolveError>(SolveError::InvalidPuzzle)) <==> !givens_compatible(
            init,
            n,
            br,
            bc,
        ),
        (exists|sol: Seq<u8>|
            sol.len() == init.len() && grid_valid(sol, n, br, bc) && #[trigger] preserves_givens(
                init,
                sol,
            )) ==> res1 is Ok,
        res2 is Ok ==> sol2.len() == init.len() && grid_valid(sol2, n, br, bc)
            && preserves_givens(init, sol2),
        (res2 == Err::<(), SolveError>(SolveError::InvalidPuzzle)) <==> !givens_compatible(
            init,
            n,
            br,
            bc,
        ),
        (exists|sol: Seq<u8>|
            sol.len() == init.len() && grid_valid(sol, n, br, bc) && #[trigger] preserves_givens(
                init,
                sol,
            )) ==> res2 is Ok,
    ensures
        res1 == res2,
{
    if res1 is Ok {
        assert(preserves_givens(init, sol1));
        assert(res2 is Ok);
        assert(res1 matches Ok(u1) && res2 matches Ok(u2) && u1 == u2);
    } else if res2 is Ok {
        assert(preserves_givens(init, sol2));
        assert(res1 is Ok);
        assert(false);
    } else {
        if !givens_compatible(init, n, br, bc) {
        } else {
            assert(res1 matches Err(e1) && e1 == SolveError::Unsolvable);
            assert(res2 matches Err(e2) && e2 == SolveError::Unsolvable);
        }
    }
}

} // verus!
