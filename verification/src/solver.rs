//! What every maze solver offers.

use crate::grid::{connected, fewest_turns, joins, turns, DimType, Grid, NodeAdr, RankType};
use std::collections::VecDeque;
use vstd::prelude::*;

verus! {

/// `res` is the answer to the maze `g` of a solver that reports the route
/// `route`.  There is an answer exactly when some route joins entrance and
/// exit.  Its number is the least number of turns that any such route has.
/// With it comes, where it was asked for, the route of the solver, which
/// leads from the entrance to the exit with exactly that many turns and
/// enters no cell twice; where none was asked for, no route comes with it.
pub open spec fn answers(
    g: Grid,
    route: Seq<NodeAdr>,
    with_path: bool,
    res: Option<(RankType, VecDeque<NodeAdr>)>,
) -> bool {
    &&& res is Some <==> connected(g, g.start(), g.end())
    &&& match res {
        Some((rank, path)) => {
            &&& fewest_turns(g, rank as nat)
            &&& if with_path {
                &&& path@ == route
                &&& joins(g, path@, g.start(), g.end())
                &&& turns(path@) == rank
                &&& forall|i: int, j: int| 0 <= i < j < path@.len() ==> path@[i] != path@[j]
            } else {
                path@.len() == 0
            }
        },
        None => true,
    }
}

/// A maze that can be filled in cell by cell and then solved.
///
/// Two solvers that hold the same grid report the same number of turns, the
/// least that any route has; the routes they report may differ where several
/// routes have that number.
pub trait Solver: Sized {
    /// The grid that the solver holds.
    spec fn grid(&self) -> Grid;

    /// The solver is in a state in which it may be used.
    spec fn wf(&self) -> bool;

    /// The route that the solver reports for its grid when it is asked for
    /// one and there is one.
    spec fn route(&self) -> Seq<NodeAdr>;

    /// A usable solver holds a well-formed grid.
    proof fn lemma_grid_wf(&self)
        requires
            self.wf(),
        ensures
            self.grid().wf(),
    ;

    /// Marks the cell in row `r` and column `c` as passable.  The cell must
    /// lie inside the grid.
    fn set_passage(&mut self, r: DimType, c: DimType)
        requires
            old(self).wf(),
            old(self).grid().contains((r, c)),
        ensures
            final(self).wf(),
            final(self).grid() == old(self).grid().with_passage((r, c)),
    ;

    /// Whether entrance and exit are both passable.
    fn is_valid(&self) -> (b: bool)
        requires
            self.wf(),
        ensures
            b == self.grid().valid(),
    ;

    /// Finds a way from the entrance to the exit with as few turns as any
    /// way has.  The answer is `None` exactly when no route joins the two,
    /// which includes the mazes whose entrance or exit is blocked.
    fn solve(&self, with_path: bool) -> (res: Option<(RankType, VecDeque<NodeAdr>)>)
        requires
            self.wf(),
        ensures
            answers(self.grid(), self.route(), with_path, res),
            !self.grid().valid() ==> res is None,
    ;

    /// Like `solve`, for a solver that is not needed afterwards.
    fn solve_and_drop(self, with_path: bool) -> (res: Option<(RankType, VecDeque<NodeAdr>)>)
        requires
            self.wf(),
        ensures
            answers(self.grid(), self.route(), with_path, res),
            !self.grid().valid() ==> res is None,
    {
        self.solve(with_path)
    }
}

} // verus!
