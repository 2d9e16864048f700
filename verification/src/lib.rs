//! Fewest-turn routes through a rectangular maze.
//!
//! A maze is a grid of passable and blocked cells with a fixed entrance on
//! its left edge and a fixed exit on its right edge.  The solver walks the
//! passable cells in the four axis directions and reports the least number
//! of times that a route from the entrance to the exit changes direction,
//! together with such a route on request.

pub mod consistency;
pub mod convert;
pub mod dijkstra_speed;
pub mod grid;
pub mod input;
pub mod laws;
pub mod search;
pub mod solver;
pub mod text;

pub use grid::{DimType, Grid, NodeAdr, RankType};
pub use solver::Solver;

use dijkstra_speed::Solver1;
use vstd::prelude::*;

verus! {

/// Makes the solver of choice for a maze of `rows` rows and `cols` columns,
/// with every cell blocked.  Either dimension below 2 is too small;
/// dimensions whose half sum does not fit a number of turns are too big.
pub fn solver_factory(rows: DimType, cols: DimType) -> (res: Result<impl Solver, &'static str>)
    ensures
        match res {
            Ok(s) => {
                &&& rows >= 2 && cols >= 2 && (rows + cols) / 2 <= RankType::MAX
                &&& s.wf()
                &&& s.grid() == Grid::blocked(rows as nat, cols as nat)
            },
            Err(msg) => if rows < 2 || cols < 2 {
                msg@ == "Too small dimensions"@
            } else {
                (rows + cols) / 2 > RankType::MAX && msg@ == "Too big dimensions"@
            },
        },
{
    Solver1::new_rc(rows, cols)
}

} // verus!
