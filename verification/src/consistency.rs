//! What stays true of the table from step to step of a search.
//!
//! The proofs follow the table through the steps of a search.  They carry,
//! beside the table, the number of predecessors between each seen pose and
//! the entrance: the records themselves hold no such number, but it is what
//! shows that following predecessors ends.

use crate::grid::{adjacent, is_route, joins, lemma_neighbors_from, neighbors, neighbors_from, toward, turn_cost, turns, upright_move, Grid, NodeAdr};
use crate::search::{
    arrive, comes_before, improves, initial, is_next, is_seen, is_settled, lemma_other_slot,
    lemma_relax_all_unsettled, lemma_relax_unsettled, lemma_settle_unsettled, lemma_slot_in_range,
    lemma_unsettled_update, offer, on_frontier, origin, outcome, rank_of, relax, relax_all,
    relax_each, run, settle, slot_of, step_cost, trail, unsettled, Pose, Record, Slot, Table,
};
use vstd::prelude::*;

verus! {

/// The record of the seen pose `p` fits the records around it: the cell is
/// passable, the predecessor is a settled pose in a neighbouring cell from
/// which the cell is entered on the line of `p`, the turns are those of the
/// predecessor plus the cost of the move, and the pose lies one predecessor
/// further from the entrance.  The entrance has no turns and names itself.
/// Turns never exceed the distance, and the distance of a pose is below the
/// number of settled poses once it is settled, and at most that number
/// before.
pub open spec fn linked(g: Grid, t: Table, depth: Seq<nat>, p: Pose) -> bool {
    let i = slot_of(g, p);
    let r = t[i].record();
    let q = r.prev;
    &&& g.passable(p.cell)
    &&& r.rank <= depth[i]
    &&& depth[i] + unsettled(t) + (if t[i] is Settled { 1nat } else { 0nat }) <= t.len()
    &&& if p == origin(g) {
        t[i] == Slot::Settled(Record { rank: 0, prev: p }) && depth[i] == 0
    } else {
        &&& is_settled(g, t, q)
        &&& adjacent(q.cell, p.cell)
        &&& p.upright == upright_move(q.cell, p.cell)
        &&& r.rank == rank_of(g, t, q) + step_cost(g, q, p.cell)
        &&& depth[i] == depth[slot_of(g, q)] + 1
    }
}

/// The table has one slot per pose, the entrance is settled, and every seen
/// pose is linked.
pub open spec fn consistent(g: Grid, t: Table, depth: Seq<nat>) -> bool {
    &&& g.wf()
    &&& t.len() == 2 * g.size()
    &&& depth.len() == 2 * g.size()
    &&& is_settled(g, t, origin(g))
    &&& forall|p: Pose| #[trigger] is_seen(g, t, p) ==> linked(g, t, depth, p)
}

/// The pose in which `n` is entered from `u` has been seen, with no more
/// turns than those of `u` and the cost of the move.
pub open spec fn reaches(g: Grid, t: Table, u: Pose, n: NodeAdr) -> bool {
    is_seen(g, t, arrive(u, n)) && rank_of(g, t, arrive(u, n)) <= rank_of(g, t, u) + step_cost(
        g,
        u,
        n,
    )
}

/// Every settled pose other than `cur` reaches all its passable neighbours.
pub open spec fn tight_but(g: Grid, t: Table, cur: Pose) -> bool {
    forall|u: Pose, n: NodeAdr|
        #[trigger] is_settled(g, t, u) && u != cur && #[trigger] g.passable(n) && adjacent(
            u.cell,
            n,
        ) ==> reaches(g, t, u, n)
}

/// Every settled pose reaches all its passable neighbours.
pub open spec fn tight(g: Grid, t: Table) -> bool {
    forall|u: Pose, n: NodeAdr|
        #[trigger] is_settled(g, t, u) && #[trigger] g.passable(n) && adjacent(u.cell, n)
            ==> reaches(g, t, u, n)
}

/// No settled pose has more turns than `cur`, and no frontier pose has
/// fewer.
pub open spec fn ordered(g: Grid, t: Table, cur: Pose) -> bool {
    &&& forall|s: Pose| #[trigger] is_settled(g, t, s) ==> rank_of(g, t, s) <= rank_of(g, t, cur)
    &&& forall|f: Pose| #[trigger] on_frontier(g, t, f) ==> rank_of(g, t, cur) <= rank_of(g, t, f)
}

/// The exit is settled in no pose, except perhaps in `cur`.
pub open spec fn no_goal_but(g: Grid, t: Table, cur: Pose) -> bool {
    forall|s: Pose| #[trigger] is_settled(g, t, s) && s.cell == g.end() ==> s == cur
}

/// What holds whenever a pose has just been settled.
pub open spec fn steady(g: Grid, t: Table, depth: Seq<nat>, cur: Pose) -> bool {
    &&& consistent(g, t, depth)
    &&& is_settled(g, t, cur)
    &&& tight_but(g, t, cur)
    &&& ordered(g, t, cur)
    &&& no_goal_but(g, t, cur)
}

/// The pose that lies `k` predecessors before `p`.
pub open spec fn forebear(g: Grid, t: Table, p: Pose, k: nat) -> Pose
    decreases k,
{
    if k == 0 {
        p
    } else {
        t[slot_of(g, forebear(g, t, p, (k - 1) as nat))].record().prev
    }
}

/// The predecessor of the seen pose `v` was the first to offer as few turns:
/// whenever the cell of the predecessor occurs among the poses that lead to
/// it, going on to `v` from there would have taken more turns than `v` has.
pub open spec fn direct(g: Grid, t: Table, depth: Seq<nat>, v: Pose) -> bool {
    let u = t[slot_of(g, v)].record().prev;
    forall|k: nat|
        1 <= k <= depth[slot_of(g, u)] && (#[trigger] forebear(g, t, u, k)).cell == u.cell
            ==> rank_of(g, t, v) < rank_of(g, t, forebear(g, t, u, k)) + step_cost(
            g,
            forebear(g, t, u, k),
            v.cell,
        )
}

/// Every seen pose but the entrance is direct.
pub open spec fn all_direct(g: Grid, t: Table, depth: Seq<nat>) -> bool {
    forall|v: Pose| #[trigger] is_seen(g, t, v) && v != origin(g) ==> direct(g, t, depth, v)
}

/// The distances after `n` has been relaxed from `cur`.
pub open spec fn relax_depth(g: Grid, t: Table, depth: Seq<nat>, cur: Pose, n: NodeAdr) -> Seq<
    nat,
> {
    if improves(g, t, cur, n) {
        depth.update(slot_of(g, arrive(cur, n)), depth[slot_of(g, cur)] + 1)
    } else {
        depth
    }
}

/// What relaxing leaves as it is: which poses are settled and what their
/// records are; and what it can only improve: whether a pose has been seen,
/// and with how many turns.
pub open spec fn refines(g: Grid, t: Table, t2: Table) -> bool {
    &&& forall|q: Pose| #[trigger] is_settled(g, t2, q) <==> is_settled(g, t, q)
    &&& forall|q: Pose| is_settled(g, t, q) ==> #[trigger] t2[slot_of(g, q)] == t[slot_of(g, q)]
    &&& forall|q: Pose|
        is_seen(g, t, q) ==> #[trigger] is_seen(g, t2, q) && rank_of(g, t2, q) <= rank_of(g, t, q)
}

/// Relaxing a passable neighbour of the pose settled last keeps the table
/// consistent and in order, settles nothing, forgets nothing, and leaves the
/// neighbour reached.
proof fn lemma_relax_base(g: Grid, t: Table, depth: Seq<nat>, cur: Pose, n: NodeAdr)
    requires
        consistent(g, t, depth),
        is_settled(g, t, cur),
        ordered(g, t, cur),
        g.passable(n),
        adjacent(cur.cell, n),
    ensures
        consistent(g, relax(g, t, cur, n), relax_depth(g, t, depth, cur, n)),
        ordered(g, relax(g, t, cur, n), cur),
        reaches(g, relax(g, t, cur, n), cur, n),
        refines(g, t, relax(g, t, cur, n)),
{
    let t2 = relax(g, t, cur, n);
    let d2 = relax_depth(g, t, depth, cur, n);
    let v = arrive(cur, n);
    lemma_slot_in_range(g, v);
    lemma_slot_in_range(g, cur);
    lemma_relax_unsettled(g, t, cur, n);
    assert(is_seen(g, t, cur));
    assert(linked(g, t, depth, cur));
    if improves(g, t, cur, n) {
        let o = offer(g, t, cur, n);
        assert(is_seen(g, t, origin(g)));
        assert(linked(g, t, depth, origin(g)));
        assert forall|q: Pose| g.contains(q.cell) && q != v implies t2[slot_of(g, q)] == t[slot_of(
            g,
            q,
        )] && d2[slot_of(g, q)] == depth[slot_of(g, q)] by {
            lemma_other_slot(g, q, v);
        }
        assert(cur != v);
        assert(origin(g) != v);
        assert(t2[slot_of(g, v)] == Slot::Frontier(o));
        assert forall|p: Pose| #[trigger] is_seen(g, t2, p) implies linked(g, t2, d2, p) by {
            if p == v {
                assert(d2[slot_of(g, v)] == depth[slot_of(g, cur)] + 1);
                assert(linked(g, t2, d2, p));
            } else {
                assert(is_seen(g, t, p));
                assert(linked(g, t, depth, p));
                if p != origin(g) {
                    let q = t[slot_of(g, p)].record().prev;
                    assert(is_settled(g, t, q));
                    assert(q != v);
                }
                assert(linked(g, t2, d2, p));
            }
        }
        assert forall|q: Pose| #[trigger] is_settled(g, t2, q) <==> is_settled(g, t, q) by {
            if g.contains(q.cell) && q != v {
                lemma_other_slot(g, q, v);
            }
        }
        assert forall|q: Pose| is_seen(g, t, q) implies #[trigger] is_seen(g, t2, q) && rank_of(
            g,
            t2,
            q,
        ) <= rank_of(g, t, q) by {
            if q != v {
                lemma_other_slot(g, q, v);
            }
        }
        assert forall|q: Pose| is_settled(g, t, q) implies #[trigger] t2[slot_of(g, q)] == t[slot_of(
            g,
            q,
        )] by {
            lemma_other_slot(g, q, v);
        }
        assert forall|f: Pose| #[trigger] on_frontier(g, t2, f) implies rank_of(g, t2, cur)
            <= rank_of(g, t2, f) by {
            if f != v {
                lemma_other_slot(g, f, v);
                assert(on_frontier(g, t, f));
            }
        }
        assert forall|s: Pose| #[trigger] is_settled(g, t2, s) implies rank_of(g, t2, s)
            <= rank_of(g, t2, cur) by {
            assert(is_settled(g, t, s));
        }
    } else {
        assert(is_seen(g, t, v));
        if is_settled(g, t, v) {
            assert(rank_of(g, t, v) <= rank_of(g, t, cur));
        } else {
            assert(on_frontier(g, t, v));
        }
    }
}

/// The poses that lead to a settled pose are settled, each one predecessor
/// nearer to the entrance than the next and with no more turns.
pub proof fn lemma_forebear(g: Grid, t: Table, depth: Seq<nat>, p: Pose, k: nat)
    requires
        consistent(g, t, depth),
        is_settled(g, t, p),
        k <= depth[slot_of(g, p)],
    ensures
        is_settled(g, t, forebear(g, t, p, k)),
        depth[slot_of(g, forebear(g, t, p, k))] + k == depth[slot_of(g, p)],
        rank_of(g, t, forebear(g, t, p, k)) <= rank_of(g, t, p),
    decreases k,
{
    if k > 0 {
        lemma_forebear(g, t, depth, p, (k - 1) as nat);
        let w = forebear(g, t, p, (k - 1) as nat);
        assert(is_seen(g, t, w));
        assert(linked(g, t, depth, w));
        assert(is_seen(g, t, origin(g)));
        assert(linked(g, t, depth, origin(g)));
    }
}

/// Going back `a` predecessors and then `b` more is going back `a + b`.
pub proof fn lemma_forebear_sum(g: Grid, t: Table, p: Pose, a: nat, b: nat)
    ensures
        forebear(g, t, p, a + b) == forebear(g, t, forebear(g, t, p, a), b),
    decreases b,
{
    if b > 0 {
        lemma_forebear_sum(g, t, p, a, (b - 1) as nat);
    }
}

/// A table that keeps the records of the settled poses keeps the poses that
/// lead to a settled pose.
proof fn lemma_forebear_stable(g: Grid, t: Table, t2: Table, depth: Seq<nat>, p: Pose, k: nat)
    requires
        consistent(g, t, depth),
        is_settled(g, t, p),
        k <= depth[slot_of(g, p)],
        forall|q: Pose|
            is_settled(g, t, q) ==> (#[trigger] t2[slot_of(g, q)]).record() == t[slot_of(
                g,
                q,
            )].record(),
    ensures
        forebear(g, t2, p, k) == forebear(g, t, p, k),
    decreases k,
{
    if k > 0 {
        lemma_forebear_stable(g, t, t2, depth, p, (k - 1) as nat);
        lemma_forebear(g, t, depth, p, (k - 1) as nat);
    }
}

/// What a table that refines another keeps in reach stays in reach.
proof fn lemma_refines_tight(g: Grid, t: Table, t2: Table, cur: Pose)
    requires
        refines(g, t, t2),
        tight_but(g, t, cur),
    ensures
        tight_but(g, t2, cur),
{
    assert forall|u: Pose, n: NodeAdr|
        #[trigger] is_settled(g, t2, u) && u != cur && #[trigger] g.passable(n) && adjacent(
            u.cell,
            n,
        ) implies reaches(g, t2, u, n) by {
        assert(is_settled(g, t, u));
        assert(reaches(g, t, u, n));
        assert(is_seen(g, t, arrive(u, n)));
        assert(is_seen(g, t2, arrive(u, n)));
        assert(t2[slot_of(g, u)] == t[slot_of(g, u)]);
    }
}

/// Relaxing a passable neighbour of the pose settled last keeps the table
/// consistent, in order and direct, settles nothing, forgets nothing, and
/// leaves the neighbour reached.
pub proof fn lemma_relax(g: Grid, t: Table, depth: Seq<nat>, cur: Pose, n: NodeAdr)
    requires
        consistent(g, t, depth),
        is_settled(g, t, cur),
        ordered(g, t, cur),
        tight_but(g, t, cur),
        all_direct(g, t, depth),
        g.passable(n),
        adjacent(cur.cell, n),
    ensures
        consistent(g, relax(g, t, cur, n), relax_depth(g, t, depth, cur, n)),
        ordered(g, relax(g, t, cur, n), cur),
        tight_but(g, relax(g, t, cur, n), cur),
        all_direct(g, relax(g, t, cur, n), relax_depth(g, t, depth, cur, n)),
        reaches(g, relax(g, t, cur, n), cur, n),
        refines(g, t, relax(g, t, cur, n)),
{
    let t2 = relax(g, t, cur, n);
    let d2 = relax_depth(g, t, depth, cur, n);
    let target = arrive(cur, n);
    lemma_relax_base(g, t, depth, cur, n);
    lemma_refines_tight(g, t, t2, cur);
    if improves(g, t, cur, n) {
        lemma_slot_in_range(g, target);
        assert(!is_settled(g, t, target));
        assert forall|q: Pose| g.contains(q.cell) && q != target implies t2[slot_of(g, q)]
            == t[slot_of(g, q)] && d2[slot_of(g, q)] == depth[slot_of(g, q)] by {
            lemma_other_slot(g, q, target);
        }
        assert forall|v: Pose| #[trigger] is_seen(g, t2, v) && v != origin(g) implies direct(
            g,
            t2,
            d2,
            v,
        ) by {
            let u = t2[slot_of(g, v)].record().prev;
            if v == target {
                assert(u == cur);
                assert forall|k: nat|
                    1 <= k <= d2[slot_of(g, u)] && (#[trigger] forebear(g, t2, u, k)).cell
                        == u.cell implies rank_of(g, t2, v) < rank_of(
                    g,
                    t2,
                    forebear(g, t2, u, k),
                ) + step_cost(g, forebear(g, t2, u, k), v.cell) by {
                    lemma_forebear_stable(g, t, t2, depth, cur, k);
                    lemma_forebear(g, t, depth, cur, k);
                    let w = forebear(g, t, cur, k);
                    assert(w != cur);
                    assert(reaches(g, t, w, n));
                    assert(arrive(w, n) == target);
                    assert(t2[slot_of(g, w)] == t[slot_of(g, w)]);
                }
            } else {
                assert(is_seen(g, t, v));
                assert(direct(g, t, depth, v));
                assert(linked(g, t, depth, v));
                assert(is_settled(g, t, u));
                assert(u != target);
                assert forall|k: nat|
                    1 <= k <= d2[slot_of(g, u)] && (#[trigger] forebear(g, t2, u, k)).cell
                        == u.cell implies rank_of(g, t2, v) < rank_of(
                    g,
                    t2,
                    forebear(g, t2, u, k),
                ) + step_cost(g, forebear(g, t2, u, k), v.cell) by {
                    lemma_forebear_stable(g, t, t2, depth, u, k);
                    lemma_forebear(g, t, depth, u, k);
                    let w = forebear(g, t, u, k);
                    assert(t2[slot_of(g, w)] == t[slot_of(g, w)]);
                }
            }
        }
    }
}

/// Settling the frontier pose with the fewest turns keeps the table
/// consistent, in order and direct; afterwards only the neighbours of that
/// pose may be out of reach of a settled pose.
pub proof fn lemma_settle(g: Grid, t: Table, depth: Seq<nat>, cur: Pose, p: Pose)
    requires
        consistent(g, t, depth),
        tight(g, t),
        ordered(g, t, cur),
        all_direct(g, t, depth),
        is_settled(g, t, cur),
        no_goal_but(g, t, cur),
        cur.cell != g.end(),
        is_next(g, t, p),
    ensures
        steady(g, settle(g, t, p), depth, p),
        all_direct(g, settle(g, t, p), depth),
        forall|q: Pose| #[trigger]
            on_frontier(g, settle(g, t, p), q) <==> on_frontier(g, t, q) && q != p,
{
    let t2 = settle(g, t, p);
    lemma_settle_base(g, t, depth, cur, p);
    lemma_slot_in_range(g, p);
    assert forall|q: Pose| g.contains(q.cell) implies (#[trigger] t2[slot_of(g, q)]).record()
        == t[slot_of(g, q)].record() by {
        if q != p {
            lemma_other_slot(g, q, p);
        }
    }
    assert forall|v: Pose| #[trigger] is_seen(g, t2, v) && v != origin(g) implies direct(
        g,
        t2,
        depth,
        v,
    ) by {
        let u = t2[slot_of(g, v)].record().prev;
        assert(on_frontier(g, t, p));
        if v != p {
            lemma_other_slot(g, v, p);
        }
        assert(is_seen(g, t, v));
        assert(direct(g, t, depth, v));
        assert(linked(g, t, depth, v));
        assert(is_settled(g, t, u));
        assert forall|k: nat|
            1 <= k <= depth[slot_of(g, u)] && (#[trigger] forebear(g, t2, u, k)).cell
                == u.cell implies rank_of(g, t2, v) < rank_of(g, t2, forebear(g, t2, u, k))
            + step_cost(g, forebear(g, t2, u, k), v.cell) by {
            lemma_forebear_stable(g, t, t2, depth, u, k);
            lemma_forebear(g, t, depth, u, k);
        }
    }
}

/// Refining twice refines.
proof fn lemma_refines_twice(g: Grid, t: Table, t1: Table, t2: Table)
    requires
        refines(g, t, t1),
        refines(g, t1, t2),
    ensures
        refines(g, t, t2),
{
    assert forall|q: Pose| #[trigger] is_settled(g, t2, q) <==> is_settled(g, t, q) by {
        assert(is_settled(g, t1, q) <==> is_settled(g, t, q));
    }
    assert forall|q: Pose| is_settled(g, t, q) implies #[trigger] t2[slot_of(g, q)] == t[slot_of(
        g,
        q,
    )] by {
        assert(is_settled(g, t1, q));
        assert(t1[slot_of(g, q)] == t[slot_of(g, q)]);
    }
    assert forall|q: Pose| is_seen(g, t, q) implies #[trigger] is_seen(g, t2, q) && rank_of(
        g,
        t2,
        q,
    ) <= rank_of(g, t, q) by {
        assert(is_seen(g, t1, q) && rank_of(g, t1, q) <= rank_of(g, t, q));
    }
}

/// Relaxing passable neighbours of the pose settled last one after the other
/// keeps the table consistent and in order and leaves all of them reached.
/// The distances that go with the new table are returned.
pub proof fn lemma_relax_each(g: Grid, t: Table, depth: Seq<nat>, cur: Pose, ns: Seq<NodeAdr>) -> (d:
    Seq<nat>)
    requires
        consistent(g, t, depth),
        is_settled(g, t, cur),
        ordered(g, t, cur),
        tight_but(g, t, cur),
        all_direct(g, t, depth),
        forall|i: int|
            0 <= i < ns.len() ==> g.passable(#[trigger] ns[i]) && adjacent(cur.cell, ns[i]),
    ensures
        consistent(g, relax_each(g, t, cur, ns), d),
        ordered(g, relax_each(g, t, cur, ns), cur),
        tight_but(g, relax_each(g, t, cur, ns), cur),
        all_direct(g, relax_each(g, t, cur, ns), d),
        forall|i: int|
            0 <= i < ns.len() ==> reaches(g, relax_each(g, t, cur, ns), cur, #[trigger] ns[i]),
        refines(g, t, relax_each(g, t, cur, ns)),
    decreases ns.len(),
{
    if ns.len() == 0 {
        depth
    } else {
        let n = ns.first();
        let t1 = relax(g, t, cur, n);
        let d1 = relax_depth(g, t, depth, cur, n);
        lemma_relax(g, t, depth, cur, n);
        let rest = ns.drop_first();
        assert forall|i: int| 0 <= i < rest.len() implies g.passable(#[trigger] rest[i])
            && adjacent(cur.cell, rest[i]) by {
            assert(rest[i] == ns[i + 1]);
        }
        assert(is_settled(g, t1, cur));
        let d = lemma_relax_each(g, t1, d1, cur, rest);
        let r = relax_each(g, t, cur, ns);
        assert(r == relax_each(g, t1, cur, rest));
        lemma_refines_twice(g, t, t1, r);
        assert(r[slot_of(g, cur)] == t1[slot_of(g, cur)]);
        assert forall|i: int| 0 <= i < ns.len() implies reaches(g, r, cur, #[trigger] ns[i]) by {
            if i == 0 {
                assert(reaches(g, t1, cur, n));
                assert(is_seen(g, t1, arrive(cur, n)));
                assert(is_seen(g, r, arrive(cur, n)));
            } else {
                assert(ns[i] == rest[i - 1]);
            }
        }
        d
    }
}

/// A passable cell next to `p` is among the neighbours that are enumerated
/// for `p`.
pub proof fn lemma_neighbor_listed(g: Grid, p: NodeAdr, q: NodeAdr)
    requires
        g.wf(),
        g.contains(p),
        g.passable(q),
        adjacent(p, q),
    ensures
        neighbors(g, p).contains(q),
{
    let dir: int = if q.0 + 1 == p.0 {
        0
    } else if p.1 + 1 == q.1 {
        1
    } else if p.0 + 1 == q.0 {
        2
    } else {
        3
    };
    assert(toward(g, p, dir) == Some(q));
    lemma_toward_listed(g, p, q, dir, 0);
}

/// A neighbour found in direction `dir` is enumerated from any direction up
/// to `dir` on.
proof fn lemma_toward_listed(g: Grid, p: NodeAdr, q: NodeAdr, dir: int, from: int)
    requires
        0 <= from <= dir < 4,
        toward(g, p, dir) == Some(q),
    ensures
        neighbors_from(g, p, from).contains(q),
    decreases dir - from,
{
    let all = neighbors_from(g, p, from);
    if from == dir {
        assert(all[0] == q);
    } else {
        lemma_toward_listed(g, p, q, dir, from + 1);
        let rest = neighbors_from(g, p, from + 1);
        let k = choose|k: int| 0 <= k < rest.len() && rest[k] == q;
        match toward(g, p, from) {
            Some(n) => {
                assert(all[k + 1] == q);
            },
            None => {
                assert(all[k] == q);
            },
        }
    }
}

/// After the neighbours of the pose settled last have been relaxed the table
/// is consistent and in order, and every settled pose reaches all its
/// passable neighbours.
pub proof fn lemma_relax_all(g: Grid, t: Table, depth: Seq<nat>, cur: Pose) -> (d: Seq<nat>)
    requires
        steady(g, t, depth, cur),
        all_direct(g, t, depth),
    ensures
        consistent(g, relax_all(g, t, cur), d),
        all_direct(g, relax_all(g, t, cur), d),
        tight(g, relax_all(g, t, cur)),
        ordered(g, relax_all(g, t, cur), cur),
        no_goal_but(g, relax_all(g, t, cur), cur),
        refines(g, t, relax_all(g, t, cur)),
{
    let ns = neighbors(g, cur.cell);
    lemma_neighbors_from(g, cur.cell, 0);
    let d = lemma_relax_each(g, t, depth, cur, ns);
    let r = relax_all(g, t, cur);
    assert forall|u: Pose, n: NodeAdr|
        #[trigger] is_settled(g, r, u) && #[trigger] g.passable(n) && adjacent(
            u.cell,
            n,
        ) implies reaches(g, r, u, n) by {
        assert(is_settled(g, t, u));
        if u == cur {
            lemma_neighbor_listed(g, cur.cell, n);
            let k = choose|k: int| 0 <= k < ns.len() && ns[k] == n;
            assert(reaches(g, r, cur, ns[k]));
        } else {
            assert(reaches(g, t, u, n));
            assert(is_seen(g, t, arrive(u, n)));
            assert(is_seen(g, r, arrive(u, n)));
            assert(r[slot_of(g, u)] == t[slot_of(g, u)]);
        }
    }
    assert forall|s: Pose| #[trigger] is_settled(g, r, s) && s.cell == g.end() implies s == cur by {
        assert(is_settled(g, t, s));
    }
    d
}

/// Settling the frontier pose with the fewest turns keeps the table
/// consistent and in order; afterwards only the neighbours of that pose may
/// be out of reach of a settled pose.
proof fn lemma_settle_base(g: Grid, t: Table, depth: Seq<nat>, cur: Pose, p: Pose)
    requires
        consistent(g, t, depth),
        tight(g, t),
        ordered(g, t, cur),
        is_settled(g, t, cur),
        no_goal_but(g, t, cur),
        cur.cell != g.end(),
        is_next(g, t, p),
    ensures
        steady(g, settle(g, t, p), depth, p),
        forall|q: Pose| #[trigger]
            on_frontier(g, settle(g, t, p), q) <==> on_frontier(g, t, q) && q != p,
{
    let t2 = settle(g, t, p);
    lemma_slot_in_range(g, p);
    lemma_settle_unsettled(g, t, p);
    assert forall|q: Pose| g.contains(q.cell) && q != p implies #[trigger] t2[slot_of(g, q)]
        == t[slot_of(g, q)] by {
        lemma_other_slot(g, q, p);
    }
    assert(t2[slot_of(g, p)] == Slot::Settled(t[slot_of(g, p)].record()));
    assert(is_seen(g, t, origin(g)));
    assert(linked(g, t, depth, origin(g)));
    assert forall|x: Pose| #[trigger] is_seen(g, t2, x) implies linked(g, t2, depth, x) by {
        assert(is_seen(g, t, x));
        assert(linked(g, t, depth, x));
        if x != origin(g) {
            let q = t[slot_of(g, x)].record().prev;
            assert(is_settled(g, t, q));
            assert(q != p);
            assert(t2[slot_of(g, q)] == t[slot_of(g, q)]);
        }
    }
    assert forall|u: Pose, n: NodeAdr|
        #[trigger] is_settled(g, t2, u) && u != p && #[trigger] g.passable(n) && adjacent(
            u.cell,
            n,
        ) implies reaches(g, t2, u, n) by {
        assert(is_settled(g, t, u));
        assert(reaches(g, t, u, n));
        let v = arrive(u, n);
        assert(t2[slot_of(g, u)] == t[slot_of(g, u)]);
        if v != p {
            assert(t2[slot_of(g, v)] == t[slot_of(g, v)]);
        }
    }
    assert(on_frontier(g, t, p));
    assert forall|s: Pose| #[trigger] is_settled(g, t2, s) implies rank_of(g, t2, s) <= rank_of(
        g,
        t2,
        p,
    ) by {
        if s != p {
            assert(is_settled(g, t, s));
            assert(t2[slot_of(g, s)] == t[slot_of(g, s)]);
        }
    }
    assert forall|f: Pose| #[trigger] on_frontier(g, t2, f) implies rank_of(g, t2, p) <= rank_of(
        g,
        t2,
        f,
    ) by {
        assert(f != p);
        assert(t2[slot_of(g, f)] == t[slot_of(g, f)]);
        assert(on_frontier(g, t, f));
        assert(comes_before(g, t, p, f));
    }
    assert forall|s: Pose| #[trigger] is_settled(g, t2, s) && s.cell == g.end() implies s == p by {
        if s != p {
            assert(is_settled(g, t, s));
        }
    }
    assert forall|q: Pose| #[trigger]
        on_frontier(g, t2, q) <==> on_frontier(g, t, q) && q != p by {
        if g.contains(q.cell) && q != p {
            assert(t2[slot_of(g, q)] == t[slot_of(g, q)]);
        }
    }
}

/// Where a search stops on the pose `last`: the exit has just been settled
/// in it, or nothing waits on the frontier, every settled pose reaches its
/// passable neighbours and the exit is not settled.
pub open spec fn finished(g: Grid, t: Table, last: Pose) -> bool {
    ||| last.cell == g.end() && tight_but(g, t, last) && ordered(g, t, last)
    ||| last.cell != g.end() && tight(g, t) && forall|q: Pose| !#[trigger] on_frontier(g, t, q)
}

/// Among the frontier poses whose slots come before slot `k` one comes
/// before all the others, if there is any.
proof fn lemma_least_below(g: Grid, t: Table, k: int) -> (best: Option<Pose>)
    requires
        g.wf(),
        0 <= k <= 2 * g.size(),
    ensures
        match best {
            Some(p) => {
                &&& on_frontier(g, t, p)
                &&& slot_of(g, p) < k
                &&& forall|q: Pose| #[trigger]
                    on_frontier(g, t, q) && slot_of(g, q) < k ==> comes_before(g, t, p, q)
            },
            None => forall|q: Pose| #[trigger] on_frontier(g, t, q) ==> slot_of(g, q) >= k,
        },
    decreases k,
{
    if k == 0 {
        assert forall|q: Pose| #[trigger] on_frontier(g, t, q) implies slot_of(g, q) >= 0 by {
            lemma_slot_in_range(g, q);
        }
        None
    } else {
        let before = lemma_least_below(g, t, k - 1);
        if exists|c: Pose| on_frontier(g, t, c) && slot_of(g, c) == k - 1 {
            let c = choose|c: Pose| on_frontier(g, t, c) && slot_of(g, c) == k - 1;
            assert forall|q: Pose| #[trigger]
                on_frontier(g, t, q) && slot_of(g, q) == k - 1 implies q == c by {
                if q != c {
                    lemma_other_slot(g, q, c);
                }
            }
            match before {
                None => Some(c),
                Some(p) => if rank_of(g, t, c) < rank_of(g, t, p) {
                    Some(c)
                } else {
                    Some(p)
                },
            }
        } else {
            before
        }
    }
}

/// While a pose waits on the frontier there is one to settle next.
pub proof fn lemma_next_exists(g: Grid, t: Table, q: Pose)
    requires
        g.wf(),
        on_frontier(g, t, q),
    ensures
        exists|p: Pose| is_next(g, t, p),
{
    let best = lemma_least_below(g, t, (2 * g.size()) as int);
    lemma_slot_in_range(g, q);
    let p = best->Some_0;
    assert forall|x: Pose| #[trigger] on_frontier(g, t, x) implies comes_before(g, t, p, x) by {
        lemma_slot_in_range(g, x);
    }
    assert(is_next(g, t, p));
}

/// Only one pose can be the next to settle.
pub proof fn lemma_next_unique(g: Grid, t: Table, p: Pose, q: Pose)
    requires
        is_next(g, t, p),
        is_next(g, t, q),
    ensures
        p == q,
{
    assert(comes_before(g, t, p, q));
    assert(comes_before(g, t, q, p));
    if p != q {
        lemma_other_slot(g, p, q);
    }
}

/// A search that goes on from a steady table ends with a consistent table,
/// and it stops only where a search may stop.  The distances that go with
/// the last table and the pose settled last are returned.
pub proof fn lemma_run(g: Grid, t: Table, depth: Seq<nat>, cur: Pose) -> (end: (Seq<nat>, Pose))
    requires
        steady(g, t, depth, cur),
        all_direct(g, t, depth),
        cur.cell != g.end(),
    ensures
        consistent(g, run(g, t, cur), end.0),
        all_direct(g, run(g, t, cur), end.0),
        is_settled(g, run(g, t, cur), end.1),
        no_goal_but(g, run(g, t, cur), end.1),
        finished(g, run(g, t, cur), end.1),
    decreases unsettled(t),
{
    let relaxed = relax_all(g, t, cur);
    let d1 = lemma_relax_all(g, t, depth, cur);
    lemma_relax_all_unsettled(g, t, cur);
    assert(is_settled(g, relaxed, cur));
    if exists|p: Pose| is_next(g, relaxed, p) {
        let p = choose|p: Pose| is_next(g, relaxed, p);
        lemma_settle(g, relaxed, d1, cur, p);
        lemma_settle_unsettled(g, relaxed, p);
        if p.cell == g.end() {
            (d1, p)
        } else {
            lemma_run(g, settle(g, relaxed, p), d1, p)
        }
    } else {
        assert forall|q: Pose| !#[trigger] on_frontier(g, relaxed, q) by {
            if on_frontier(g, relaxed, q) {
                lemma_next_exists(g, relaxed, q);
            }
        }
        (d1, cur)
    }
}

/// A table in which no pose is settled counts every pose.
proof fn lemma_unsettled_blank(n: nat)
    ensures
        unsettled(Seq::new(n, |i: int| Slot::Unseen)) == n,
    decreases n,
{
    if n > 0 {
        lemma_unsettled_blank((n - 1) as nat);
        assert(Seq::new(n, |i: int| Slot::Unseen).drop_last() =~= Seq::new(
            (n - 1) as nat,
            |i: int| Slot::Unseen,
        ));
    }
}

/// The table before the first step is steady.
pub proof fn lemma_initial(g: Grid) -> (d: Seq<nat>)
    requires
        g.wf(),
        g.passable(g.start()),
    ensures
        steady(g, initial(g), d, origin(g)),
        all_direct(g, initial(g), d),
        forall|q: Pose| #[trigger] is_seen(g, initial(g), q) <==> q == origin(g),
{
    let blank = Seq::new(2 * g.size(), |i: int| Slot::Unseen);
    let t = initial(g);
    let d = Seq::new(2 * g.size(), |i: int| 0nat);
    let s = origin(g);
    lemma_slot_in_range(g, s);
    lemma_unsettled_blank(2 * g.size());
    lemma_unsettled_update(blank, slot_of(g, s), Slot::Settled(Record { rank: 0, prev: s }));
    assert forall|q: Pose| #[trigger] is_seen(g, t, q) <==> q == s by {
        if g.contains(q.cell) && q != s {
            lemma_other_slot(g, q, s);
        }
    }
    assert forall|u: Pose, n: NodeAdr|
        #[trigger] is_settled(g, t, u) && u != s && #[trigger] g.passable(n) && adjacent(
            u.cell,
            n,
        ) implies reaches(g, t, u, n) by {
        assert(is_seen(g, t, u));
    }
    assert forall|q: Pose| #[trigger] is_settled(g, t, q) implies rank_of(g, t, q) <= rank_of(
        g,
        t,
        s,
    ) by {
        assert(is_seen(g, t, q));
    }
    assert forall|f: Pose| #[trigger] on_frontier(g, t, f) implies rank_of(g, t, s) <= rank_of(
        g,
        t,
        f,
    ) by {
        assert(is_seen(g, t, f));
    }
    assert forall|q: Pose| #[trigger] is_settled(g, t, q) && q.cell == g.end() implies q == s by {
        assert(is_seen(g, t, q));
    }
    d
}

/// The table at the end of the search is consistent, and the search has
/// stopped where a search may stop.
pub proof fn lemma_outcome(g: Grid) -> (end: (Seq<nat>, Pose))
    requires
        g.wf(),
        g.passable(g.start()),
    ensures
        consistent(g, outcome(g), end.0),
        all_direct(g, outcome(g), end.0),
        is_settled(g, outcome(g), end.1),
        no_goal_but(g, outcome(g), end.1),
        finished(g, outcome(g), end.1),
{
    let d0 = lemma_initial(g);
    lemma_run(g, initial(g), d0, origin(g))
}

/// A settled pose is fewer predecessors away from the entrance than there
/// are poses, and has no more turns than that.
pub proof fn lemma_depth_bound(g: Grid, t: Table, depth: Seq<nat>, p: Pose)
    requires
        consistent(g, t, depth),
        is_settled(g, t, p),
    ensures
        rank_of(g, t, p) <= depth[slot_of(g, p)] < 2 * g.size(),
{
    assert(is_seen(g, t, p));
    assert(linked(g, t, depth, p));
}

/// Following the predecessors of a settled pose leads to the entrance: the
/// trail is a route from the entrance to the cell, it has as many turns as
/// the record of the pose says, and it is as long as the pose is far.  Fuel
/// beyond the distance changes nothing.
pub proof fn lemma_trail(g: Grid, t: Table, depth: Seq<nat>, p: Pose, fuel: nat)
    requires
        consistent(g, t, depth),
        is_settled(g, t, p),
        depth[slot_of(g, p)] <= fuel,
    ensures
        joins(g, trail(g, t, p, fuel), g.start(), p.cell),
        turns(trail(g, t, p, fuel)) == rank_of(g, t, p),
        trail(g, t, p, fuel).len() == depth[slot_of(g, p)] + 1,
        p != origin(g) ==> trail(g, t, p, fuel)[trail(g, t, p, fuel).len() - 2] == t[slot_of(
            g,
            p,
        )].record().prev.cell,
        trail(g, t, p, fuel) == trail(g, t, p, depth[slot_of(g, p)]),
    decreases fuel,
{
    let tr = trail(g, t, p, fuel);
    assert(is_seen(g, t, p));
    assert(linked(g, t, depth, p));
    assert(is_seen(g, t, origin(g)));
    assert(linked(g, t, depth, origin(g)));
    if p == origin(g) {
        assert(tr =~= seq![p.cell]);
        assert(trail(g, t, p, depth[slot_of(g, p)]) =~= seq![p.cell]);
    } else {
        let q = t[slot_of(g, p)].record().prev;
        let dq = depth[slot_of(g, q)];
        let f1 = (fuel - 1) as nat;
        lemma_trail(g, t, depth, q, f1);
        lemma_trail(g, t, depth, q, dq);
        let tq = trail(g, t, q, f1);
        assert(tr == tq.push(p.cell));
        assert(trail(g, t, p, depth[slot_of(g, p)]) == trail(g, t, q, dq).push(p.cell));
        assert(tr.drop_last() =~= tq);
        assert forall|i: int| 0 <= i < tr.len() implies g.passable(#[trigger] tr[i]) by {
            if i < tq.len() {
                assert(tr[i] == tq[i]);
            }
        }
        assert forall|i: int| 0 <= i < tr.len() - 1 implies #[trigger] adjacent(
            tr[i],
            tr[i + 1],
        ) by {
            if i < tq.len() - 1 {
                assert(adjacent(tq[i], tq[i + 1]));
            }
        }
        if q == origin(g) {
            assert(tq =~= seq![q.cell]);
            assert(turns(tr) == 0);
        } else {
            assert(is_seen(g, t, q));
            assert(linked(g, t, depth, q));
            assert(tr[tr.len() - 3] == tq[tq.len() - 2]);
            let pp = t[slot_of(g, q)].record().prev.cell;
            assert(turn_cost(pp, q.cell, p.cell) == step_cost(g, q, p.cell));
        }
    }
}

/// The pose in which a route stands after its move number `i`.
pub open spec fn pose_at(r: Seq<NodeAdr>, i: int) -> Pose {
    Pose { cell: r[i], upright: upright_move(r[i - 1], r[i]) }
}

/// Where nothing waits on the frontier and every settled pose reaches its
/// passable neighbours, every pose along a route from the entrance is
/// settled.
pub proof fn lemma_tight_reaches(g: Grid, t: Table, r: Seq<NodeAdr>, i: int)
    requires
        g.wf(),
        is_settled(g, t, origin(g)),
        tight(g, t),
        forall|q: Pose| !#[trigger] on_frontier(g, t, q),
        is_route(g, r),
        r.first() == g.start(),
        1 <= i < r.len(),
    ensures
        is_settled(g, t, pose_at(r, i)),
    decreases i,
{
    let u = if i == 1 { origin(g) } else { pose_at(r, i - 1) };
    if i > 1 {
        lemma_tight_reaches(g, t, r, i - 1);
    }
    assert(adjacent(r[i - 1], r[i - 1 + 1]));
    assert(g.passable(r[i]));
    assert(reaches(g, t, u, r[i]));
    assert(arrive(u, r[i]) == pose_at(r, i));
    assert(!on_frontier(g, t, pose_at(r, i)));
}

/// The turns of the first `i + 1` cells of a sequence, one cell after the
/// other.
proof fn lemma_turns_of_prefix(r: Seq<NodeAdr>, i: int)
    requires
        1 <= i < r.len(),
    ensures
        i == 1 ==> turns(r.take(i + 1)) == 0 && turns(r.take(i)) == 0,
        i >= 2 ==> turns(r.take(i + 1)) == turns(r.take(i)) + turn_cost(r[i - 2], r[i - 1], r[i]),
{
    assert(r.take(i + 1).drop_last() =~= r.take(i));
}

/// Where the search has stopped on the exit, the turns recorded for the
/// exit are no more than the turns of the first moves of any route from the
/// entrance, unless the pose after those moves is settled with no more turns
/// than the route has made.
pub proof fn lemma_no_shortcut(g: Grid, t: Table, depth: Seq<nat>, e: Pose, r: Seq<NodeAdr>, i: int)
    requires
        consistent(g, t, depth),
        is_settled(g, t, e),
        e.cell == g.end(),
        tight_but(g, t, e),
        ordered(g, t, e),
        is_route(g, r),
        r.first() == g.start(),
        1 <= i < r.len(),
    ensures
        rank_of(g, t, e) <= turns(r.take(i + 1)) || (is_settled(g, t, pose_at(r, i)) && rank_of(
            g,
            t,
            pose_at(r, i),
        ) <= turns(r.take(i + 1))),
    decreases i,
{
    let k = rank_of(g, t, e);
    let v = pose_at(r, i);
    lemma_turns_of_prefix(r, i);
    assert(adjacent(r[i - 1], r[i - 1 + 1]));
    assert(g.passable(r[i]));
    assert(g.passable(r[i - 1]));
    assert(is_seen(g, t, origin(g)));
    assert(linked(g, t, depth, origin(g)));
    if i == 1 {
        let u = origin(g);
        assert(u != e);
        assert(reaches(g, t, u, r[i]));
        assert(arrive(u, r[i]) == v);
        if !is_settled(g, t, v) {
            assert(on_frontier(g, t, v));
        }
    } else {
        lemma_no_shortcut(g, t, depth, e, r, i - 1);
        let u = pose_at(r, i - 1);
        if k <= turns(r.take(i)) {
        } else if u == e {
        } else {
            assert(adjacent(r[i - 2], r[i - 2 + 1]));
            assert(reaches(g, t, u, r[i]));
            assert(arrive(u, r[i]) == v);
            assert(step_cost(g, u, r[i]) <= turn_cost(r[i - 2], r[i - 1], r[i]));
            if !is_settled(g, t, v) {
                assert(on_frontier(g, t, v));
            }
        }
    }
}

/// The cells of a trail are the cells of the poses that lead to its end.
pub proof fn lemma_trail_cells(g: Grid, t: Table, depth: Seq<nat>, p: Pose, j: int)
    requires
        consistent(g, t, depth),
        is_settled(g, t, p),
        0 <= j <= depth[slot_of(g, p)],
    ensures
        trail(g, t, p, depth[slot_of(g, p)]).len() == depth[slot_of(g, p)] + 1,
        trail(g, t, p, depth[slot_of(g, p)])[j] == forebear(
            g,
            t,
            p,
            (depth[slot_of(g, p)] - j) as nat,
        ).cell,
    decreases depth[slot_of(g, p)],
{
    let m = depth[slot_of(g, p)];
    lemma_trail(g, t, depth, p, m);
    assert(is_seen(g, t, p));
    assert(linked(g, t, depth, p));
    assert(is_seen(g, t, origin(g)));
    assert(linked(g, t, depth, origin(g)));
    if j < m {
        let q = t[slot_of(g, p)].record().prev;
        lemma_trail_cells(g, t, depth, q, j);
        lemma_forebear_sum(g, t, p, 1, (m - 1 - j) as nat);
        assert(forebear(g, t, p, 0) == p);
        assert(forebear(g, t, p, 1) == q);
        assert(trail(g, t, p, m) == trail(g, t, q, (m - 1) as nat).push(p.cell));
    }
}

/// Poses that lead to one another with the same number of turns, none of
/// them the entrance, stand on the same line.
proof fn lemma_level(g: Grid, t: Table, depth: Seq<nat>, u: Pose, k: nat)
    requires
        consistent(g, t, depth),
        is_settled(g, t, u),
        k <= depth[slot_of(g, u)],
        forebear(g, t, u, k) != origin(g),
        rank_of(g, t, forebear(g, t, u, k)) == rank_of(g, t, u),
    ensures
        forebear(g, t, u, k).upright == u.upright,
    decreases k,
{
    if k > 0 {
        assert(is_seen(g, t, u));
        assert(linked(g, t, depth, u));
        assert(is_seen(g, t, origin(g)));
        assert(linked(g, t, depth, origin(g)));
        let q = t[slot_of(g, u)].record().prev;
        lemma_forebear_sum(g, t, u, 1, (k - 1) as nat);
        assert(forebear(g, t, u, 0) == u);
        assert(forebear(g, t, u, 1) == q);
        let w = forebear(g, t, q, (k - 1) as nat);
        lemma_forebear(g, t, depth, q, (k - 1) as nat);
        lemma_level(g, t, depth, q, (k - 1) as nat);
    }
}

/// The route that the records describe for the exit enters no cell twice.
pub proof fn lemma_trail_simple(g: Grid, t: Table, depth: Seq<nat>, e: Pose, i: int, j: int)
    requires
        consistent(g, t, depth),
        all_direct(g, t, depth),
        is_settled(g, t, e),
        e.cell == g.end(),
        no_goal_but(g, t, e),
        0 <= i < j <= depth[slot_of(g, e)],
    ensures
        trail(g, t, e, depth[slot_of(g, e)])[i] != trail(g, t, e, depth[slot_of(g, e)])[j],
{
    let m = depth[slot_of(g, e)];
    lemma_trail_cells(g, t, depth, e, i);
    lemma_trail_cells(g, t, depth, e, j);
    let a = forebear(g, t, e, (m - i) as nat);
    let b = forebear(g, t, e, (m - j) as nat);
    lemma_forebear(g, t, depth, e, (m - i) as nat);
    lemma_forebear(g, t, depth, e, (m - j) as nat);
    lemma_forebear_sum(g, t, e, (m - j) as nat, (j - i) as nat);
    assert(a == forebear(g, t, b, (j - i) as nat));
    assert(is_seen(g, t, origin(g)));
    assert(linked(g, t, depth, origin(g)));
    if a.cell == b.cell {
        if j == m {
            assert(b == e);
            assert(a == e);
        } else {
            let v = forebear(g, t, e, (m - j - 1) as nat);
            lemma_forebear(g, t, depth, e, (m - j - 1) as nat);
            assert(b == t[slot_of(g, v)].record().prev);
            assert(is_seen(g, t, v));
            assert(linked(g, t, depth, v));
            assert(direct(g, t, depth, v));
            lemma_forebear(g, t, depth, b, (j - i) as nat);
            assert(rank_of(g, t, v) < rank_of(g, t, a) + step_cost(g, a, v.cell));
            assert(is_seen(g, t, b));
            assert(linked(g, t, depth, b));
            lemma_level(g, t, depth, b, (j - i) as nat);
            assert(a == b);
        }
    }
}

} // verus!
