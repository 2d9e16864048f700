//! The solver that keeps its records in a flat table: for each cell one
//! record for having entered it along its row and one for having entered it
//! along its column.

use crate::consistency::{
    all_direct, consistent, lemma_depth_bound, lemma_initial, lemma_next_unique, lemma_relax_all,
    lemma_settle, lemma_trail, linked, steady,
};
use crate::grid::{
    adjacent, lemma_index_in_range, lemma_index_injective, lemma_size_bound, neighbors,
    neighbors_from, DimType, Grid, NodeAdr, RankType,
};
use crate::laws::lemma_found;
use crate::search::{arrive, comes_before, found, goal, initial, is_next, is_seen, is_settled, lemma_other_slot, lemma_relax_all_unsettled, lemma_settle_unsettled, lemma_slot_in_range, offer, on_frontier, origin, outcome, relax, relax_all, relax_each, run, settle, slot_of, trail, unsettled, Pose, Record, Slot, Table};
use crate::solver::Solver;
use std::collections::VecDeque;
use vstd::prelude::*;

verus! {

/// A maze together with its entrance and exit.
pub struct Solver1 {
    data: Vec<u8>,
    r_dim: DimType,
    c_dim: DimType,
    start: NodeAdr,
    end: NodeAdr,
}

impl View for Solver1 {
    type V = Grid;

    closed spec fn view(&self) -> Grid {
        Grid {
            rows: self.r_dim as nat,
            cols: self.c_dim as nat,
            cells: Seq::new(self.data@.len(), |i: int| self.data@[i] == 1u8),
        }
    }
}

impl Solver1 {
    /// The dimensions are admissible, there is one flag per cell, and entrance
    /// and exit are where the dimensions put them.
    pub closed spec fn wf(&self) -> bool {
        &&& self@.wf()
        &&& self.start == self@.start()
        &&& self.end == self@.end()
    }

    /// A well-formed solver shows a well-formed grid.
    pub proof fn lemma_view_wf(&self)
        requires
            self.wf(),
        ensures
            self@.wf(),
    {
    }

    /// A maze of `r` rows and `c` columns in which every cell is blocked.
    /// Either dimension below 2 is too small; dimensions whose half sum does
    /// not fit a number of turns are too big.  As long as a number of turns
    /// is wider than a dimension, no dimensions are too big.
    pub fn new_rc(r: DimType, c: DimType) -> (res: Result<Self, &'static str>)
        ensures
            match res {
                Ok(s) => {
                    &&& r >= 2 && c >= 2 && (r + c) / 2 <= RankType::MAX
                    &&& s.wf()
                    &&& s@ == Grid::blocked(r as nat, c as nat)
                },
                Err(msg) => if r < 2 || c < 2 {
                    msg@ == "Too small dimensions"@
                } else {
                    (r + c) / 2 > RankType::MAX && msg@ == "Too big dimensions"@
                },
            },
    {
        if r < 2 || c < 2 {
            return Err("Too small dimensions");
        }
        if (r as RankType + c as RankType) / 2 > RankType::MAX {
            return Err("Too big dimensions");
        }
        assert(r * c <= 0xffff * 0xffff) by (nonlinear_arith)
            requires
                r <= 0xffff,
                c <= 0xffff,
        ;
        let s = Solver1 {
            data: vec![0u8; r as usize * c as usize],
            r_dim: r,
            c_dim: c,
            start: (1, 0),
            end: (r - 2, c - 1),
        };
        assert(s@.cells =~= Grid::blocked(r as nat, c as nat).cells);
        Ok(s)
    }

    /// The place of cell (`r`, `c`) in the row-major table of cells.
    #[inline]
    pub fn idx(&self, r: DimType, c: DimType) -> (i: usize)
        ensures
            i == self@.index((r, c)),
    {
        assert(r * self.c_dim <= 0xffff * 0xffff) by (nonlinear_arith)
            requires
                r <= 0xffff,
                self.c_dim <= 0xffff,
        ;
        r as usize * self.c_dim as usize + c as usize
    }

    /// The cell that stands at place `idx` of the row-major table.  For a
    /// place past the last cell the row is cut down to a coordinate.
    #[inline]
    pub fn rc(&self, idx: usize) -> (p: NodeAdr)
        requires
            self.wf(),
        ensures
            p.0 == #[verifier::truncate] (((idx as int) / (self@.cols as int)) as DimType),
            p.1 == (idx as int) % (self@.cols as int),
            idx < self@.size() ==> self@.contains(p) && self@.index(p) == idx,
    {
        let r = idx / self.c_dim as usize;
        proof {
            let cols = self.c_dim as int;
            let rows = self.r_dim as int;
            let i = idx as int;
            vstd::arithmetic::div_mod::lemma_fundamental_div_mod(i, cols);
            vstd::arithmetic::div_mod::lemma_mod_bound(i, cols);
            assert(i < rows * cols ==> i / cols < rows) by (nonlinear_arith)
                requires
                    i == cols * (i / cols) + (i % cols),
                    0 <= i % cols,
                    cols > 0,
            ;
            assert((i / cols) * cols == cols * (i / cols)) by (nonlinear_arith);
        }
        let c = idx - r * self.c_dim as usize;
        (#[verifier::truncate] (r as DimType), c as DimType)
    }

    /// Whether cell (`r`, `c`) is passable.
    #[inline]
    pub fn is_passage(&self, r: DimType, c: DimType) -> (b: bool)
        requires
            self.wf(),
            self@.contains((r, c)),
        ensures
            b == self@.passable((r, c)),
    {
        proof {
            lemma_index_in_range(self@, (r, c));
        }
        self.data[self.idx(r, c)] == 1
    }

    /// An enumerator of the passable neighbours of `rc`, which yields them in
    /// the order up, right, down, left.
    #[inline]
    pub fn neighbors(&self, rc: NodeAdr) -> (it: NodeIter<'_>)
        requires
            self.wf(),
            self@.contains(rc),
        ensures
            it.wf(),
            it.grid() == self@,
            it.center() == rc,
            it.remaining() == neighbors(self@, rc),
    {
        NodeIter { solver: &self, r: rc.0, c: rc.1, mode: 0 }
    }
}

/// One walk over the passable neighbours of a cell.  It borrows the maze and
/// remembers only how far round the cell it has come.
pub struct NodeIter<'a> {
    solver: &'a Solver1,
    r: DimType,
    c: DimType,
    mode: u8,
}

impl<'a> NodeIter<'a> {
    /// The maze is well formed and the cell lies inside it.
    pub closed spec fn wf(&self) -> bool {
        self.solver.wf() && self.solver@.contains((self.r, self.c))
    }

    /// The grid that is walked.
    pub closed spec fn grid(&self) -> Grid {
        self.solver@
    }

    /// The cell whose neighbours are enumerated.
    pub closed spec fn center(&self) -> NodeAdr {
        (self.r, self.c)
    }

    /// The neighbours that have not been yielded yet, in the order in which
    /// they will come.
    pub closed spec fn remaining(&self) -> Seq<NodeAdr> {
        neighbors_from(self.solver@, (self.r, self.c), self.mode as int)
    }

    /// Yields the next passable neighbour, or `None` once all four directions
    /// have been tried.
    pub fn next(&mut self) -> (res: Option<NodeAdr>)
        requires
            old(self).wf(),
        ensures
            final(self).wf(),
            final(self).grid() == old(self).grid(),
            final(self).center() == old(self).center(),
            match res {
                Some(n) => {
                    &&& old(self).remaining() == seq![n] + final(self).remaining()
                    &&& old(self).grid().passable(n)
                    &&& adjacent(old(self).center(), n)
                },
                None => old(self).remaining() == Seq::<NodeAdr>::empty()
                    && final(self).remaining() == Seq::<NodeAdr>::empty(),
            },
    {
        loop
            invariant
                self.wf(),
                self.solver == old(self).solver,
                self.r == old(self).r,
                self.c == old(self).c,
                self.remaining() == old(self).remaining(),
            decreases 4 - self.mode,
        {
            proof {
                self.solver.lemma_view_wf();
            }
            match self.mode {
                0 => {
                    self.mode = 1;
                    if self.r > 0 && self.solver.is_passage(self.r - 1, self.c) {
                        return Some((self.r - 1, self.c));
                    }
                },
                1 => {
                    self.mode = 2;
                    if self.c < self.solver.c_dim - 1 && self.solver.is_passage(
                        self.r,
                        self.c + 1,
                    ) {
                        return Some((self.r, self.c + 1));
                    }
                },
                2 => {
                    self.mode = 3;
                    if self.r < self.solver.r_dim - 1 && self.solver.is_passage(
                        self.r + 1,
                        self.c,
                    ) {
                        return Some((self.r + 1, self.c));
                    }
                },
                3 => {
                    self.mode = 4;
                    if self.c > 0 && self.solver.is_passage(self.r, self.c - 1) {
                        return Some((self.r, self.c - 1));
                    }
                },
                _ => {
                    return None;
                },
            }
        }
    }
}

/// What the solver notes of a pose it has seen.
#[derive(Clone, Copy)]
struct Nodedata {
    /// The number of turns on the way to the pose.
    rank: RankType,
    /// The pose from which it was reached.
    prev: Pose,
}

impl View for Nodedata {
    type V = Record;

    closed spec fn view(&self) -> Record {
        Record { rank: self.rank as nat, prev: self.prev }
    }
}

/// The state of a pose during a search.
#[derive(Clone, Copy)]
enum Node {
    /// Not seen yet.
    Unseen,
    /// Seen, and waiting to be settled.
    Frontier(Nodedata),
    /// Final.
    Settled(Nodedata),
}

impl View for Node {
    type V = Slot;

    closed spec fn view(&self) -> Slot {
        match self {
            Node::Unseen => Slot::Unseen,
            Node::Frontier(d) => Slot::Frontier(d@),
            Node::Settled(d) => Slot::Settled(d@),
        }
    }
}

/// The two poses of a cell.
#[derive(Clone, Copy)]
struct Pair {
    /// Entered along the row.
    flat: Node,
    /// Entered along the column.
    upright: Node,
}

/// The table that a vector of pairs stands for.
spec fn table_of(pairs: Seq<Pair>) -> Table {
    Seq::new(
        2 * pairs.len(),
        |i: int| if i < pairs.len() { pairs[i].flat@ } else { pairs[i - pairs.len()].upright@ },
    )
}

/// What a vector of pairs holds for a pose.
spec fn node_at(g: Grid, pairs: Seq<Pair>, p: Pose) -> Node {
    if p.upright {
        pairs[g.index(p.cell)].upright
    } else {
        pairs[g.index(p.cell)].flat
    }
}

/// The list names every frontier pose of the table once, and no other pose.
spec fn roster_ok(g: Grid, t: Table, list: Seq<Pose>) -> bool {
    &&& forall|k: int| 0 <= k < list.len() ==> on_frontier(g, t, #[trigger] list[k])
    &&& forall|j: int, k: int| 0 <= j < k < list.len() ==> list[j] != list[k]
    &&& forall|q: Pose| #[trigger] on_frontier(g, t, q) ==> list.contains(q)
}

impl Solver1 {
    /// Reads what the table holds for a pose.
    fn get(&self, nodes: &Vec<Pair>, p: Pose) -> (node: Node)
        requires
            self.wf(),
            nodes.len() == self@.size(),
            self@.contains(p.cell),
        ensures
            node == node_at(self@, nodes@, p),
            node@ == table_of(nodes@)[slot_of(self@, p)],
    {
        proof {
            lemma_slot_in_range(self@, p);
        }
        let pair = nodes[self.idx(p.cell.0, p.cell.1)];
        if p.upright {
            pair.upright
        } else {
            pair.flat
        }
    }

    /// Writes what the table holds for a pose, and leaves the other poses
    /// as they are.
    fn put(&self, nodes: &mut Vec<Pair>, p: Pose, node: Node)
        requires
            self.wf(),
            old(nodes).len() == self@.size(),
            self@.contains(p.cell),
        ensures
            final(nodes).len() == old(nodes).len(),
            node_at(self@, final(nodes)@, p) == node,
            forall|q: Pose|
                self@.contains(q.cell) && q != p ==> #[trigger] node_at(self@, final(nodes)@, q)
                    == node_at(self@, old(nodes)@, q),
            table_of(final(nodes)@) == table_of(old(nodes)@).update(slot_of(self@, p), node@),
    {
        let ghost g = self@;
        let ghost before = nodes@;
        proof {
            lemma_slot_in_range(g, p);
        }
        let i = self.idx(p.cell.0, p.cell.1);
        let pair = nodes[i];
        let changed = if p.upright {
            Pair { flat: pair.flat, upright: node }
        } else {
            Pair { flat: node, upright: pair.upright }
        };
        nodes.set(i, changed);
        proof {
            assert(table_of(nodes@) =~= table_of(before).update(slot_of(g, p), node@));
            assert forall|q: Pose| g.contains(q.cell) && q != p implies #[trigger] node_at(
                g,
                nodes@,
                q,
            ) == node_at(g, before, q) by {
                lemma_index_in_range(g, q.cell);
                if g.index(q.cell) == g.index(p.cell) {
                    lemma_index_injective(g, q.cell, p.cell);
                }
            }
        }
    }

    /// Relaxes the neighbour `node` of the settled pose `cur`, whose record
    /// is `cur_data`, and lists the pose in which `node` is entered if it is
    /// new on the frontier.
    fn relax_node(
        &self,
        nodes: &mut Vec<Pair>,
        frontier: &mut Vec<Pose>,
        cur: Pose,
        cur_data: Nodedata,
        node: NodeAdr,
    )
        requires
            self.wf(),
            old(nodes).len() == self@.size(),
            self@.contains(cur.cell),
            self@.contains(node),
            node_at(self@, old(nodes)@, cur) == Node::Settled(cur_data),
            cur_data.rank < RankType::MAX,
            roster_ok(self@, table_of(old(nodes)@), old(frontier)@),
        ensures
            final(nodes).len() == old(nodes).len(),
            node_at(self@, final(nodes)@, cur) == node_at(self@, old(nodes)@, cur),
            table_of(final(nodes)@) == relax(self@, table_of(old(nodes)@), cur, node),
            roster_ok(self@, table_of(final(nodes)@), final(frontier)@),
    {
        let ghost g = self@;
        let ghost t0 = table_of(nodes@);
        let ghost list0 = frontier@;
        let target = Pose { cell: node, upright: cur.cell.1 == node.1 };
        proof {
            lemma_slot_in_range(g, target);
            lemma_slot_in_range(g, cur);
        }
        let from_entrance = cur.cell.0 == self.start.0 && cur.cell.1 == self.start.1
            && !cur.upright;
        let rank = if from_entrance || target.upright == cur.upright {
            // the move leaves the entrance or keeps to the line
            cur_data.rank
        } else {
            // turn
            cur_data.rank + 1
        };
        let fresh = Nodedata { rank, prev: cur };
        assert(target == arrive(cur, node));
        assert(from_entrance <==> cur == origin(g));
        assert(t0[slot_of(g, cur)] == Node::Settled(cur_data)@);
        assert(fresh@ == offer(g, t0, cur, node));
        let seen = self.get(nodes, target);
        match seen {
            Node::Frontier(node_data) => {
                if node_data.rank > rank {
                    self.put(nodes, target, Node::Frontier(fresh));
                    proof {
                        let t1 = table_of(nodes@);
                        assert forall|q: Pose| #[trigger]
                            on_frontier(g, t1, q) <==> on_frontier(g, t0, q) by {
                            if g.contains(q.cell) {
                                lemma_slot_in_range(g, q);
                            }
                        }
                    }
                }
            },
            Node::Unseen => {
                self.put(nodes, target, Node::Frontier(fresh));
                frontier.push(target);
                proof {
                    let t1 = table_of(nodes@);
                    let list1 = frontier@;
                    assert forall|k: int| 0 <= k < list1.len() implies on_frontier(
                        g,
                        t1,
                        #[trigger] list1[k],
                    ) by {
                        if k < list0.len() {
                            assert(on_frontier(g, t0, list0[k]));
                            lemma_slot_in_range(g, list0[k]);
                        }
                    }
                    assert forall|j: int, k: int| 0 <= j < k < list1.len() implies list1[j]
                        != list1[k] by {
                        assert(on_frontier(g, t0, list0[j]));
                    }
                    assert forall|q: Pose| #[trigger] on_frontier(g, t1, q) implies list1.contains(
                        q,
                    ) by {
                        lemma_slot_in_range(g, q);
                        if q == target {
                            assert(list1[list0.len() as int] == q);
                        } else {
                            lemma_other_slot(g, q, target);
                            assert(on_frontier(g, t0, q));
                            let k = choose|k: int| 0 <= k < list0.len() && list0[k] == q;
                            assert(list1[k] == q);
                        }
                    }
                }
            },
            Node::Settled(_) => {},
        }
    }

    /// Finds the frontier pose to settle next: its place in the list and its
    /// record.  Of the poses with the fewest turns it is the one whose slot
    /// comes first.
    fn pick(&self, nodes: &Vec<Pair>, frontier: &Vec<Pose>) -> (res: Option<(usize, Nodedata)>)
        requires
            self.wf(),
            nodes.len() == self@.size(),
            roster_ok(self@, table_of(nodes@), frontier@),
        ensures
            match res {
                Some((k, data)) => {
                    &&& k < frontier.len()
                    &&& is_next(self@, table_of(nodes@), frontier@[k as int])
                    &&& node_at(self@, nodes@, frontier@[k as int]) == Node::Frontier(data)
                },
                None => frontier.len() == 0,
            },
    {
        let ghost g = self@;
        let ghost t = table_of(nodes@);
        let mut best: Option<(usize, Nodedata)> = None;
        let mut best_idx: usize = 0;
        let mut best_upright: bool = false;
        let mut k: usize = 0;
        while k < frontier.len()
            invariant
                self.wf(),
                g == self@,
                t == table_of(nodes@),
                nodes.len() == g.size(),
                roster_ok(g, t, frontier@),
                k <= frontier.len(),
                best is None <==> k == 0,
                match best {
                    Some((b, data)) => {
                        &&& b < k
                        &&& best_idx == g.index(frontier@[b as int].cell)
                        &&& best_upright == frontier@[b as int].upright
                        &&& best_idx < nodes.len()
                        &&& node_at(g, nodes@, frontier@[b as int]) == Node::Frontier(data)
                        &&& t[slot_of(g, frontier@[b as int])] == Node::Frontier(data)@
                        &&& forall|j: int|
                            0 <= j < k ==> comes_before(
                                g,
                                t,
                                frontier@[b as int],
                                #[trigger] frontier@[j],
                            )
                    },
                    None => true,
                },
            decreases frontier.len() - k,
        {
            let p = frontier[k];
            assert(on_frontier(g, t, frontier@[k as int]));
            proof {
                lemma_slot_in_range(g, p);
            }
            let i = self.idx(p.cell.0, p.cell.1);
            let node = self.get(nodes, p);
            match node {
                Node::Frontier(data) => {
                    let better = match best {
                        None => true,
                        Some((_, b)) => data.rank < b.rank || (data.rank == b.rank && ((
                        !p.upright && best_upright) || (p.upright == best_upright && i
                            < best_idx))),
                    };
                    if better {
                        best = Some((k, data));
                        best_idx = i;
                        best_upright = p.upright;
                    }
                },
                _ => {},
            }
            k += 1;
        }
        proof {
            match best {
                Some((b, data)) => {
                    let p = frontier@[b as int];
                    assert(on_frontier(g, t, p));
                    assert forall|q: Pose| #[trigger] on_frontier(g, t, q) implies comes_before(
                        g,
                        t,
                        p,
                        q,
                    ) by {
                        let j = choose|j: int| 0 <= j < frontier@.len() && frontier@[j] == q;
                        assert(comes_before(g, t, p, frontier@[j]));
                    }
                },
                None => {},
            }
        }
        best
    }

    /// Settles the frontier pose at place `k` of the list, whose record is
    /// `data`, and takes it off the list.
    fn settle_at(
        &self,
        nodes: &mut Vec<Pair>,
        frontier: &mut Vec<Pose>,
        k: usize,
        data: Nodedata,
    ) -> (p: Pose)
        requires
            self.wf(),
            old(nodes).len() == self@.size(),
            roster_ok(self@, table_of(old(nodes)@), old(frontier)@),
            k < old(frontier).len(),
            node_at(self@, old(nodes)@, old(frontier)@[k as int]) == Node::Frontier(data),
        ensures
            p == old(frontier)@[k as int],
            final(nodes).len() == old(nodes).len(),
            node_at(self@, final(nodes)@, p) == Node::Settled(data),
            table_of(final(nodes)@) == settle(self@, table_of(old(nodes)@), p),
            roster_ok(self@, table_of(final(nodes)@), final(frontier)@),
    {
        let ghost g = self@;
        let ghost t0 = table_of(nodes@);
        let ghost list0 = frontier@;
        let p = frontier.swap_remove(k);
        assert(on_frontier(g, t0, list0[k as int]));
        proof {
            lemma_slot_in_range(g, p);
            assert(t0[slot_of(g, p)] == Node::Frontier(data)@);
        }
        self.put(nodes, p, Node::Settled(data));
        proof {
            let t1 = table_of(nodes@);
            let list1 = frontier@;
            let last = list0.len() - 1;
            assert(t1 =~= settle(g, t0, p));
            assert forall|j: int| 0 <= j < list1.len() implies on_frontier(
                g,
                t1,
                #[trigger] list1[j],
            ) by {
                let m = if j == k { last } else { j };
                assert(list1[j] == list0[m]);
                assert(on_frontier(g, t0, list0[m]));
                assert(list0[m] != p);
                lemma_other_slot(g, list0[m], p);
            }
            assert forall|q: Pose| #[trigger] on_frontier(g, t1, q) implies list1.contains(q) by {
                lemma_slot_in_range(g, q);
                assert(on_frontier(g, t0, q));
                let m = choose|m: int| 0 <= m < list0.len() && list0[m] == q;
                if m == last {
                    assert(list1[k as int] == q);
                } else {
                    assert(list1[m] == q);
                }
            }
        }
        p
    }
}

impl Solver for Solver1 {
    open spec fn grid(&self) -> Grid {
        self@
    }

    open spec fn wf(&self) -> bool {
        Solver1::wf(self)
    }

    /// The route of the search that tells apart, for each cell, the line on
    /// which it is entered, and that settles, of the candidates with the
    /// fewest turns, the one along a row before the one along a column and
    /// the earlier in row-major order before the later.
    open spec fn route(&self) -> Seq<NodeAdr> {
        found(self@)->Some_0.1
    }

    proof fn lemma_grid_wf(&self) {
    }

    fn set_passage(&mut self, r: DimType, c: DimType) {
        proof {
            lemma_index_in_range(self@, (r, c));
        }
        let idx = self.idx(r, c);
        self.data.set(idx, 1);
        assert(self@.cells =~= old(self)@.with_passage((r, c)).cells);
    }

    fn is_valid(&self) -> (b: bool) {
        proof {
            lemma_index_in_range(self@, self.start);
            lemma_index_in_range(self@, self.end);
        }
        self.data[self.idx(self.start.0, self.start.1)] == 1 && self.data[self.idx(
            self.end.0,
            self.end.1,
        )] == 1
    }

    fn solve(&self, with_path: bool) -> (res: Option<(RankType, VecDeque<NodeAdr>)>) {
        let ghost g = self@;
        proof {
            lemma_found(g);
        }
        if !self.is_valid() {
            return None;
        }
        proof {
            lemma_size_bound(g);
            lemma_index_in_range(g, self.start);
            lemma_index_in_range(g, self.end);
        }
        let blank = Pair { flat: Node::Unseen, upright: Node::Unseen };
        let mut nodes = vec![blank; self.r_dim as usize * self.c_dim as usize];
        let mut frontier: Vec<Pose> = Vec::new();
        let mut cur_node = Pose { cell: self.start, upright: false };
        let mut cur_node_data = Nodedata { rank: 0, prev: cur_node };
        assert(table_of(nodes@) =~= Seq::new(2 * g.size(), |i: int| Slot::Unseen));
        self.put(&mut nodes, cur_node, Node::Settled(cur_node_data));
        let ghost mut depth = lemma_initial(g);
        proof {
            assert(table_of(nodes@) == initial(g));
            assert forall|q: Pose| !#[trigger] on_frontier(g, initial(g), q) by {
                assert(on_frontier(g, initial(g), q) ==> is_seen(g, initial(g), q));
            }
        }
        loop
            invariant_except_break
                roster_ok(g, table_of(nodes@), frontier@),
                steady(g, table_of(nodes@), depth, cur_node),
                all_direct(g, table_of(nodes@), depth),
                cur_node.cell != g.end(),
                node_at(g, nodes@, cur_node) == Node::Settled(cur_node_data),
                run(g, table_of(nodes@), cur_node) == outcome(g),
            invariant
                self.wf(),
                g == self@,
                nodes.len() == g.size(),
                consistent(g, table_of(nodes@), depth),
            ensures
                table_of(nodes@) == outcome(g),
            decreases unsettled(table_of(nodes@)),
        {
            let ghost t0 = table_of(nodes@);
            let ghost cur0 = cur_node;
            proof {
                lemma_size_bound(g);
                lemma_slot_in_range(g, cur_node);
                assert(t0[slot_of(g, cur_node)] == Node::Settled(cur_node_data)@);
                lemma_depth_bound(g, t0, depth, cur_node);
            }
            // Relax the neighbours of the pose settled last.
            let mut it = self.neighbors(cur_node.cell);
            loop
                invariant
                    self.wf(),
                    g == self@,
                    it.wf(),
                    it.grid() == g,
                    it.center() == cur_node.cell,
                    g.contains(cur_node.cell),
                    nodes.len() == g.size(),
                    cur_node_data.rank < RankType::MAX,
                    node_at(g, nodes@, cur_node) == Node::Settled(cur_node_data),
                    roster_ok(g, table_of(nodes@), frontier@),
                    relax_each(g, table_of(nodes@), cur_node, it.remaining()) == relax_all(
                        g,
                        t0,
                        cur_node,
                    ),
                ensures
                    table_of(nodes@) == relax_all(g, t0, cur_node),
                decreases it.remaining().len(),
            {
                let ghost before = it.remaining();
                match it.next() {
                    Some(node) => {
                        assert(before.first() == node);
                        assert(before.drop_first() =~= it.remaining());
                        self.relax_node(&mut nodes, &mut frontier, cur_node, cur_node_data, node);
                    },
                    None => {
                        break ;
                    },
                }
            }
            let ghost t1 = table_of(nodes@);
            proof {
                depth = lemma_relax_all(g, t0, depth, cur_node);
                lemma_relax_all_unsettled(g, t0, cur_node);
                assert(is_settled(g, t1, cur_node));
            }
            // Settle the frontier pose with the fewest turns.
            match self.pick(&nodes, &frontier) {
                Some((k, min_node_data)) => {
                    let min_node = self.settle_at(&mut nodes, &mut frontier, k, min_node_data);
                    proof {
                        let chosen = choose|p: Pose| is_next(g, t1, p);
                        lemma_next_unique(g, t1, chosen, min_node);
                        lemma_settle(g, t1, depth, cur0, min_node);
                        lemma_settle_unsettled(g, t1, min_node);
                    }
                    cur_node = min_node;
                    cur_node_data = min_node_data;
                    if min_node.cell.0 == self.end.0 && min_node.cell.1 == self.end.1 {
                        break ;
                    }
                },
                None => {
                    proof {
                        assert forall|p: Pose| !is_next(g, t1, p) by {
                            if on_frontier(g, t1, p) {
                                assert(frontier@.contains(p));
                            }
                        }
                    }
                    break ;
                },
            }
        }
        let ghost t = table_of(nodes@);
        let flat = Pose { cell: self.end, upright: false };
        let upright = Pose { cell: self.end, upright: true };
        let goal_pose = match self.get(&nodes, flat) {
            Node::Settled(d) => Some((flat, d)),
            _ => match self.get(&nodes, upright) {
                Node::Settled(d) => Some((upright, d)),
                _ => None,
            },
        };
        match goal_pose {
            Some((end_pose, end_node_data)) => {
                assert(goal(g, t) == Some(end_pose));
                assert(end_node_data.rank as nat == crate::search::rank_of(g, t, end_pose));
                let mut path = VecDeque::new();
                if with_path {
                    proof {
                        lemma_depth_bound(g, t, depth, end_pose);
                        lemma_trail(g, t, depth, end_pose, 2 * g.size());
                    }
                    let mut node = end_pose;
                    loop
                        invariant_except_break
                            is_settled(g, t, node),
                            trail(g, t, end_pose, 2 * g.size()) == trail(
                                g,
                                t,
                                node,
                                depth[slot_of(g, node)],
                            ) + path@,
                        invariant
                            self.wf(),
                            g == self@,
                            t == table_of(nodes@),
                            nodes.len() == g.size(),
                            consistent(g, t, depth),
                        ensures
                            path@ == trail(g, t, end_pose, 2 * g.size()),
                        decreases depth[slot_of(g, node)],
                    {
                        let ghost before = path@;
                        path.push_front(node.cell);
                        proof {
                            lemma_slot_in_range(g, node);
                            assert(is_seen(g, t, node));
                            assert(linked(g, t, depth, node));
                            lemma_trail(g, t, depth, node, depth[slot_of(g, node)]);
                        }
                        if node.cell.0 == self.start.0 && node.cell.1 == self.start.1
                            && !node.upright {
                            assert(node == origin(g));
                            assert(path@ =~= trail(g, t, node, depth[slot_of(g, node)]) + before);
                            break ;
                        }
                        match self.get(&nodes, node) {
                            Node::Settled(node_data) => {
                                proof {
                                    let prev = node_data.prev;
                                    lemma_trail(g, t, depth, prev, depth[slot_of(g, prev)]);
                                    lemma_trail(
                                        g,
                                        t,
                                        depth,
                                        prev,
                                        (depth[slot_of(g, node)] - 1) as nat,
                                    );
                                    assert(trail(g, t, node, depth[slot_of(g, node)]) + before
                                        =~= trail(g, t, prev, depth[slot_of(g, prev)]) + path@);
                                }
                                node = node_data.prev;
                            },
                            _ => {
                                assert(false);
                                break ;
                            },
                        }
                    }
                }
                Some((end_node_data.rank, path))
            },
            None => {
                assert(goal(g, t) is None);
                None
            },
        }
    }
}

} // verus!
