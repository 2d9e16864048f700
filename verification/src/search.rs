//! The search, step by step.
//!
//! The search tells apart the two ways of standing in a cell: having entered
//! it along its row, or along its column.  Each such pose has a slot in a
//! table.  A slot is empty until the pose is first seen from a neighbour; from
//! then on it holds the number of turns so far and the pose it was reached
//! from.  A pose waits on the frontier, where a better neighbour may still
//! replace its record, until it is settled; a settled record never changes
//! again.
//!
//! A step relaxes the neighbours of the pose settled last and then settles the
//! frontier pose with the fewest turns; among poses with equally few turns the
//! one whose slot comes first is taken.  Going on along the line of the pose
//! costs nothing, leaving the line costs one turn; leaving the entrance costs
//! nothing in any direction.  The search stops when the exit is settled in
//! either pose, or when the frontier is empty.
//!
//! What the solvers promise is said of routes alone.  The search is what the
//! proofs of those promises walk through, and what singles out the one route
//! that `Solver1` reports among those with the fewest turns.

use crate::grid::{
    lemma_index_in_range, lemma_index_injective, lemma_neighbors_from, neighbors, upright_move,
    Grid, NodeAdr,
};
use vstd::prelude::*;

verus! {

/// A cell together with the line on which it was entered.
#[derive(Clone, Copy, Debug)]
pub struct Pose {
    /// The cell.
    pub cell: NodeAdr,
    /// Whether the cell was entered along its column.
    pub upright: bool,
}

/// What is known of a pose that has been seen.
pub struct Record {
    /// The number of turns on the way to the pose.
    pub rank: nat,
    /// The pose from which it was reached; the entrance names itself.
    pub prev: Pose,
}

/// The state of one pose during a search.
pub enum Slot {
    /// Not seen yet.
    Unseen,
    /// Seen; its record may still improve.
    Frontier(Record),
    /// Final.
    Settled(Record),
}

impl Slot {
    /// The record of a pose that has been seen.
    pub open spec fn record(self) -> Record {
        match self {
            Slot::Frontier(r) => r,
            Slot::Settled(r) => r,
            Slot::Unseen => arbitrary(),
        }
    }
}

/// One slot for each pose: first the poses along the rows, cell by cell in
/// row-major order, then the poses along the columns.
pub type Table = Seq<Slot>;

/// The pose in which every search starts: the entrance.
pub open spec fn origin(g: Grid) -> Pose {
    Pose { cell: g.start(), upright: false }
}

/// The place of a pose in the table.
pub open spec fn slot_of(g: Grid, p: Pose) -> int {
    g.index(p.cell) + if p.upright { g.size() as int } else { 0 }
}

/// The pose in which `n` is entered from the cell of `u`.
pub open spec fn arrive(u: Pose, n: NodeAdr) -> Pose {
    Pose { cell: n, upright: upright_move(u.cell, n) }
}

/// What going on from the pose `u` to the adjacent cell `n` adds to the
/// turns: nothing from the entrance or along the line of `u`, else one.
pub open spec fn step_cost(g: Grid, u: Pose, n: NodeAdr) -> nat {
    if u == origin(g) || upright_move(u.cell, n) == u.upright {
        0
    } else {
        1
    }
}

/// The pose lies inside the grid and waits on the frontier.
pub open spec fn on_frontier(g: Grid, t: Table, p: Pose) -> bool {
    g.contains(p.cell) && t[slot_of(g, p)] is Frontier
}

/// The pose lies inside the grid and is settled.
pub open spec fn is_settled(g: Grid, t: Table, p: Pose) -> bool {
    g.contains(p.cell) && t[slot_of(g, p)] is Settled
}

/// The pose lies inside the grid and has been seen.
pub open spec fn is_seen(g: Grid, t: Table, p: Pose) -> bool {
    g.contains(p.cell) && !(t[slot_of(g, p)] is Unseen)
}

/// The turns recorded for a pose.
pub open spec fn rank_of(g: Grid, t: Table, p: Pose) -> nat {
    t[slot_of(g, p)].record().rank
}

/// The record that the settled pose `cur` offers to its neighbour `n`.
pub open spec fn offer(g: Grid, t: Table, cur: Pose, n: NodeAdr) -> Record {
    Record { rank: rank_of(g, t, cur) + step_cost(g, cur, n), prev: cur }
}

/// The offer of `cur` is news to `n`: the pose in which `n` would be entered
/// has not been seen, or waits on the frontier with strictly more turns than
/// offered.  A settled pose takes no offer.
pub open spec fn improves(g: Grid, t: Table, cur: Pose, n: NodeAdr) -> bool {
    match t[slot_of(g, arrive(cur, n))] {
        Slot::Settled(_) => false,
        Slot::Frontier(r) => r.rank > offer(g, t, cur, n).rank,
        Slot::Unseen => true,
    }
}

/// Relaxes one neighbour `n` of `cur`: where the offer is news, the pose in
/// which `n` is entered is put on the frontier with the offered record; else
/// nothing changes.
pub open spec fn relax(g: Grid, t: Table, cur: Pose, n: NodeAdr) -> Table {
    if improves(g, t, cur, n) {
        t.update(slot_of(g, arrive(cur, n)), Slot::Frontier(offer(g, t, cur, n)))
    } else {
        t
    }
}

/// Relaxes the cells of `ns` one after the other.
pub open spec fn relax_each(g: Grid, t: Table, cur: Pose, ns: Seq<NodeAdr>) -> Table
    decreases ns.len(),
{
    if ns.len() == 0 {
        t
    } else {
        relax_each(g, relax(g, t, cur, ns.first()), cur, ns.drop_first())
    }
}

/// Relaxes all passable neighbours of the cell of `cur`: up, right, down,
/// left.
pub open spec fn relax_all(g: Grid, t: Table, cur: Pose) -> Table {
    relax_each(g, t, cur, neighbors(g, cur.cell))
}

/// Of two frontier poses, `p` is settled no later than `q`: it has fewer
/// turns, or as many and its slot comes no later.
pub open spec fn comes_before(g: Grid, t: Table, p: Pose, q: Pose) -> bool {
    let a = rank_of(g, t, p);
    let b = rank_of(g, t, q);
    a < b || (a == b && slot_of(g, p) <= slot_of(g, q))
}

/// `p` is the frontier pose to settle next.
pub open spec fn is_next(g: Grid, t: Table, p: Pose) -> bool {
    &&& on_frontier(g, t, p)
    &&& forall|q: Pose| #[trigger] on_frontier(g, t, q) ==> comes_before(g, t, p, q)
}

/// Moves a frontier pose to the settled poses, with the record it has.
pub open spec fn settle(g: Grid, t: Table, p: Pose) -> Table {
    match t[slot_of(g, p)] {
        Slot::Frontier(r) => t.update(slot_of(g, p), Slot::Settled(r)),
        _ => t,
    }
}

/// The number of poses that are not settled.
pub open spec fn unsettled(t: Table) -> nat
    decreases t.len(),
{
    if t.len() == 0 {
        0
    } else {
        unsettled(t.drop_last()) + if t.last() is Settled { 0nat } else { 1nat }
    }
}

/// The table at the end of a search that has just settled `cur`.
pub open spec fn run(g: Grid, t: Table, cur: Pose) -> Table
    decreases unsettled(t),
    when g.wf() && g.contains(cur.cell) && t.len() == 2 * g.size()
    via run_decreases
{
    let relaxed = relax_all(g, t, cur);
    if exists|p: Pose| is_next(g, relaxed, p) {
        let p = choose|p: Pose| is_next(g, relaxed, p);
        let settled = settle(g, relaxed, p);
        if p.cell == g.end() {
            settled
        } else {
            run(g, settled, p)
        }
    } else {
        relaxed
    }
}

#[via_fn]
proof fn run_decreases(g: Grid, t: Table, cur: Pose) {
    let relaxed = relax_all(g, t, cur);
    lemma_relax_all_unsettled(g, t, cur);
    if exists|p: Pose| is_next(g, relaxed, p) {
        let p = choose|p: Pose| is_next(g, relaxed, p);
        lemma_settle_unsettled(g, relaxed, p);
    }
}

/// The table before the first step: only the entrance is settled, with no
/// turns and itself as predecessor.
pub open spec fn initial(g: Grid) -> Table {
    Seq::new(2 * g.size(), |i: int| Slot::Unseen).update(
        slot_of(g, origin(g)),
        Slot::Settled(Record { rank: 0, prev: origin(g) }),
    )
}

/// The table at the end of the search.
pub open spec fn outcome(g: Grid) -> Table {
    run(g, initial(g), origin(g))
}

/// The pose in which the search has settled the exit, if it has.
pub open spec fn goal(g: Grid, t: Table) -> Option<Pose> {
    let flat = Pose { cell: g.end(), upright: false };
    let upright = Pose { cell: g.end(), upright: true };
    if is_settled(g, t, flat) {
        Some(flat)
    } else if is_settled(g, t, upright) {
        Some(upright)
    } else {
        None
    }
}

/// The cells from the entrance to the cell of `p` along the predecessors
/// recorded in `t`, following at most `fuel` of them.
pub open spec fn trail(g: Grid, t: Table, p: Pose, fuel: nat) -> Seq<NodeAdr>
    decreases fuel,
{
    if p == origin(g) || fuel == 0 {
        seq![p.cell]
    } else {
        trail(g, t, t[slot_of(g, p)].record().prev, (fuel - 1) as nat).push(p.cell)
    }
}

/// What the search finds: nothing if the entrance or the exit is blocked or
/// the exit is never settled; else the turns recorded for the exit and the
/// route that the records describe.
pub open spec fn found(g: Grid) -> Option<(nat, Seq<NodeAdr>)> {
    if !g.valid() {
        None
    } else {
        match goal(g, outcome(g)) {
            Some(e) => Some((rank_of(g, outcome(g), e), trail(g, outcome(g), e, 2 * g.size()))),
            None => None,
        }
    }
}

/// A pose inside the grid has a slot in the table.
pub proof fn lemma_slot_in_range(g: Grid, p: Pose)
    requires
        g.contains(p.cell),
    ensures
        0 <= slot_of(g, p) < 2 * g.size(),
        0 <= g.index(p.cell) < g.size(),
{
    lemma_index_in_range(g, p.cell);
}

/// Two different poses inside the grid have different slots.
pub proof fn lemma_other_slot(g: Grid, p: Pose, q: Pose)
    requires
        g.contains(p.cell),
        g.contains(q.cell),
        p != q,
    ensures
        slot_of(g, p) != slot_of(g, q),
        0 <= slot_of(g, p) < 2 * g.size(),
        0 <= slot_of(g, q) < 2 * g.size(),
{
    lemma_slot_in_range(g, p);
    lemma_slot_in_range(g, q);
    if g.index(p.cell) == g.index(q.cell) {
        lemma_index_injective(g, p.cell, q.cell);
    }
}

/// Changing one slot changes the number of unsettled poses by what the slot
/// itself contributes.
pub proof fn lemma_unsettled_update(t: Table, i: int, s: Slot)
    requires
        0 <= i < t.len(),
    ensures
        unsettled(t.update(i, s)) + (if t[i] is Settled { 0nat } else { 1nat }) == unsettled(t) + (if s is Settled { 0nat } else { 1nat }),
    decreases t.len(),
{
    let u = t.update(i, s);
    if i == t.len() - 1 {
        assert(u.drop_last() =~= t.drop_last());
    } else {
        assert(u.drop_last() =~= t.drop_last().update(i, s));
        lemma_unsettled_update(t.drop_last(), i, s);
    }
}

/// Relaxing a neighbour inside the grid settles nothing and keeps the size
/// of the table.
pub proof fn lemma_relax_unsettled(g: Grid, t: Table, cur: Pose, n: NodeAdr)
    requires
        t.len() == 2 * g.size(),
        g.contains(n),
    ensures
        relax(g, t, cur, n).len() == t.len(),
        unsettled(relax(g, t, cur, n)) == unsettled(t),
{
    lemma_slot_in_range(g, arrive(cur, n));
    let o = offer(g, t, cur, n);
    lemma_unsettled_update(t, slot_of(g, arrive(cur, n)), Slot::Frontier(o));
}

/// Relaxing cells inside the grid settles nothing and keeps the size of the
/// table.
pub proof fn lemma_relax_each_unsettled(g: Grid, t: Table, cur: Pose, ns: Seq<NodeAdr>)
    requires
        t.len() == 2 * g.size(),
        forall|i: int| 0 <= i < ns.len() ==> g.contains(#[trigger] ns[i]),
    ensures
        relax_each(g, t, cur, ns).len() == t.len(),
        unsettled(relax_each(g, t, cur, ns)) == unsettled(t),
    decreases ns.len(),
{
    if ns.len() > 0 {
        lemma_relax_unsettled(g, t, cur, ns.first());
        lemma_relax_each_unsettled(g, relax(g, t, cur, ns.first()), cur, ns.drop_first());
    }
}

/// Relaxing the neighbours of a pose settles nothing and keeps the size of
/// the table.
pub proof fn lemma_relax_all_unsettled(g: Grid, t: Table, cur: Pose)
    requires
        g.wf(),
        g.contains(cur.cell),
        t.len() == 2 * g.size(),
    ensures
        relax_all(g, t, cur).len() == t.len(),
        unsettled(relax_all(g, t, cur)) == unsettled(t),
{
    lemma_neighbors_from(g, cur.cell, 0);
    lemma_relax_each_unsettled(g, t, cur, neighbors(g, cur.cell));
}

/// Settling a frontier pose leaves one unsettled pose fewer.
pub proof fn lemma_settle_unsettled(g: Grid, t: Table, p: Pose)
    requires
        t.len() == 2 * g.size(),
        on_frontier(g, t, p),
    ensures
        settle(g, t, p).len() == t.len(),
        unsettled(settle(g, t, p)) + 1 == unsettled(t),
{
    lemma_slot_in_range(g, p);
    lemma_unsettled_update(t, slot_of(g, p), Slot::Settled(t[slot_of(g, p)].record()));
}

} // verus!
