//! What holds of every answer.

use crate::consistency::{lemma_depth_bound, lemma_no_shortcut, lemma_outcome, lemma_tight_reaches, lemma_trail, lemma_trail_simple, pose_at};
use crate::grid::{
    connected, fewest_turns, is_window, joins, junction, lemma_join_routes, lemma_shifted_route,
    lemma_turns_of_joined, moved, shifted, turns, Grid, NodeAdr, RankType,
};
use crate::search::{found, goal, is_settled, outcome, rank_of, trail, Pose};
use crate::solver::answers;
use std::collections::VecDeque;
use vstd::prelude::*;

verus! {

/// Only one number is the least number of turns.
pub proof fn lemma_fewest_unique(g: Grid, a: nat, b: nat)
    requires
        fewest_turns(g, a),
        fewest_turns(g, b),
    ensures
        a == b,
{
    let ra = choose|r: Seq<NodeAdr>| joins(g, r, g.start(), g.end()) && turns(r) == a;
    let rb = choose|r: Seq<NodeAdr>| joins(g, r, g.start(), g.end()) && turns(r) == b;
    assert(turns(ra) >= b);
    assert(turns(rb) >= a);
}

/// The search finds something exactly when some route leads from the
/// entrance to the exit.  What it finds is such a route together with its
/// number of turns, and no route from the entrance to the exit has fewer.
pub proof fn lemma_found(g: Grid)
    requires
        g.wf(),
    ensures
        found(g) is Some <==> connected(g, g.start(), g.end()),
        match found(g) {
            Some((rank, path)) => {
                &&& fewest_turns(g, rank)
                &&& joins(g, path, g.start(), g.end())
                &&& turns(path) == rank
                &&& rank < path.len() <= 2 * g.size()
                &&& forall|i: int, j: int| 0 <= i < j < path.len() ==> path[i] != path[j]
            },
            None => true,
        },
{
    if g.valid() {
        let (d, last) = lemma_outcome(g);
        let t = outcome(g);
        let flat = Pose { cell: g.end(), upright: false };
        let upright = Pose { cell: g.end(), upright: true };
        if last.cell == g.end() {
            assert(goal(g, t) == Some(last)) by {
                assert(last == flat || last == upright);
                if is_settled(g, t, flat) {
                    assert(flat == last);
                }
            }
            let k = rank_of(g, t, last);
            lemma_depth_bound(g, t, d, last);
            lemma_trail(g, t, d, last, 2 * g.size());
            let path = trail(g, t, last, 2 * g.size());
            assert(joins(g, path, g.start(), g.end()));
            assert forall|i: int, j: int| 0 <= i < j < path.len() implies path[i] != path[j] by {
                lemma_trail_simple(g, t, d, last, i, j);
            }
            assert forall|r: Seq<NodeAdr>| joins(g, r, g.start(), g.end()) implies turns(r)
                >= k by {
                let m = r.len() - 1;
                lemma_no_shortcut(g, t, d, last, r, m);
                assert(r.take(m + 1) =~= r);
                if is_settled(g, t, pose_at(r, m)) {
                    assert(pose_at(r, m) == last);
                }
            }
        } else {
            assert(goal(g, t) is None) by {
                if is_settled(g, t, flat) {
                    assert(flat == last);
                }
                if is_settled(g, t, upright) {
                    assert(upright == last);
                }
            }
            if connected(g, g.start(), g.end()) {
                let r = choose|r: Seq<NodeAdr>| joins(g, r, g.start(), g.end());
                lemma_tight_reaches(g, t, r, r.len() - 1);
                assert(pose_at(r, r.len() - 1) == last);
            }
        }
    } else {
        if connected(g, g.start(), g.end()) {
            let r = choose|r: Seq<NodeAdr>| joins(g, r, g.start(), g.end());
            assert(g.passable(r[0]));
            assert(g.passable(r[r.len() - 1]));
        }
    }
}

/// The least number of turns is reached by a route that enters no cell
/// twice.  Going back on a line counts as no turn, but nothing is gained by
/// it.
pub proof fn lemma_fewest_without_return(g: Grid, rank: nat)
    requires
        g.wf(),
        fewest_turns(g, rank),
    ensures
        exists|r: Seq<NodeAdr>|
            joins(g, r, g.start(), g.end()) && turns(r) == rank && forall|i: int, j: int|
                0 <= i < j < r.len() ==> r[i] != r[j],
{
    lemma_found(g);
    let r = choose|r: Seq<NodeAdr>| joins(g, r, g.start(), g.end()) && turns(r) == rank;
    assert(connected(g, g.start(), g.end()));
    lemma_fewest_unique(g, rank, found(g)->Some_0.0);
    let path = found(g)->Some_0.1;
    assert(joins(g, path, g.start(), g.end()) && turns(path) == rank && forall|i: int, j: int|
        0 <= i < j < path.len() ==> path[i] != path[j]);
}

/// A way through a given cell is no better than the answer: the turns of a
/// route from the entrance to the cell, the turns of a route from the cell to
/// the exit, and one more if the two meet at an angle, are together no fewer
/// than the least number of turns.
pub proof fn lemma_route_through_cell(
    g: Grid,
    rank: nat,
    a: Seq<NodeAdr>,
    b: Seq<NodeAdr>,
    through: NodeAdr,
)
    requires
        fewest_turns(g, rank),
        joins(g, a, g.start(), through),
        joins(g, b, through, g.end()),
    ensures
        rank <= turns(a) + turns(b) + junction(a, b),
{
    lemma_join_routes(g, a, b, g.start(), through, g.end());
    lemma_turns_of_joined(a, b);
}

/// The same for a maze that is cut in two at a cell: a route of the window
/// that ends at the cell, and a route of the window that starts there, have
/// together, with one more turn if they meet at an angle, no fewer turns than
/// the least number of turns of the whole maze.
pub proof fn lemma_route_through_windows(
    g: Grid,
    rank: nat,
    first: Grid,
    a: Seq<NodeAdr>,
    second: Grid,
    top: nat,
    left: nat,
    b: Seq<NodeAdr>,
)
    requires
        g.wf(),
        fewest_turns(g, rank),
        is_window(g, first, 0, 0),
        is_window(g, second, top, left),
        first.end() == moved(second.start(), top, left),
        moved(second.end(), top, left) == g.end(),
        joins(first, a, first.start(), first.end()),
        joins(second, b, second.start(), second.end()),
    ensures
        rank <= turns(a) + turns(b) + junction(a, b),
{
    lemma_shifted_route(g, first, 0, 0, a);
    lemma_shifted_route(g, second, top, left, b);
    let sa = shifted(a, 0, 0);
    let sb = shifted(b, top, left);
    assert(sa =~= a);
    lemma_route_through_cell(g, rank, a, sb, first.end());
    if a.len() >= 2 && b.len() >= 2 {
        assert(second.passable(b[0]) && second.passable(b[1]));
    }
}

/// Any two answers to the same maze agree on whether there is a way and on
/// its number of turns: whichever solver gave them, however often it was
/// asked, and whether or not a route was asked for.  Two answers of solvers
/// that report the same route agree on the route too, if one was asked for
/// both times.
pub proof fn lemma_answers_agree(
    g: Grid,
    route_a: Seq<NodeAdr>,
    with_path_a: bool,
    a: Option<(RankType, VecDeque<NodeAdr>)>,
    route_b: Seq<NodeAdr>,
    with_path_b: bool,
    b: Option<(RankType, VecDeque<NodeAdr>)>,
)
    requires
        answers(g, route_a, with_path_a, a),
        answers(g, route_b, with_path_b, b),
    ensures
        a is Some <==> b is Some,
        a is Some ==> a->Some_0.0 == b->Some_0.0,
        a is Some && route_a == route_b && with_path_a == with_path_b ==> a->Some_0.1@
            == b->Some_0.1@,
{
    if a is Some {
        lemma_fewest_unique(g, a->Some_0.0 as nat, b->Some_0.0 as nat);
    }
}

/// A maze whose entrance or exit is blocked has no answer but `None`.
pub proof fn lemma_blocked_ends(
    g: Grid,
    route: Seq<NodeAdr>,
    with_path: bool,
    res: Option<(RankType, VecDeque<NodeAdr>)>,
)
    requires
        !g.valid(),
        answers(g, route, with_path, res),
    ensures
        res is None,
{
    if connected(g, g.start(), g.end()) {
        let r = choose|r: Seq<NodeAdr>| joins(g, r, g.start(), g.end());
        assert(g.passable(r[0]));
        assert(g.passable(r[r.len() - 1]));
    }
}

} // verus!
