//! The mathematical picture of a maze: cells, routes and turns.

use vstd::prelude::*;

verus! {

/// A dimension of a grid, and the coordinate of a cell along one axis.
pub type DimType = u16;

/// A number of turns.  A route may turn at almost every cell it visits, so the
/// count is kept wider than a coordinate.  The search counts for each cell
/// and each line on which the cell can be entered, and no count of it exceeds
/// twice the number of cells.
pub type RankType = u64;

/// The address of a cell: its row, then its column.
pub type NodeAdr = (DimType, DimType);

/// A grid as contracts see it: its dimensions and, row after row, which cells
/// are passable.
pub struct Grid {
    pub rows: nat,
    pub cols: nat,
    pub cells: Seq<bool>,
}

impl Grid {
    /// The number of cells.
    pub open spec fn size(self) -> nat {
        self.rows * self.cols
    }

    /// Both dimensions are at least 2 and fit a coordinate, and there is one
    /// flag per cell.
    pub open spec fn wf(self) -> bool {
        &&& 2 <= self.rows <= DimType::MAX
        &&& 2 <= self.cols <= DimType::MAX
        &&& self.cells.len() == self.size()
    }

    /// The cell lies inside the grid.
    pub open spec fn contains(self, p: NodeAdr) -> bool {
        p.0 < self.rows && p.1 < self.cols
    }

    /// The position of a cell in the row-major sequence of cells.
    pub open spec fn index(self, p: NodeAdr) -> int {
        p.0 * self.cols + p.1
    }

    /// The cell lies inside the grid and is passable.
    pub open spec fn passable(self, p: NodeAdr) -> bool {
        self.contains(p) && self.cells[self.index(p)]
    }

    /// The entrance: second row, first column.
    pub open spec fn start(self) -> NodeAdr {
        (1u16, 0u16)
    }

    /// The exit: last row but one, last column.
    pub open spec fn end(self) -> NodeAdr {
        ((self.rows - 2) as DimType, (self.cols - 1) as DimType)
    }

    /// Entrance and exit are both passable.
    pub open spec fn valid(self) -> bool {
        self.passable(self.start()) && self.passable(self.end())
    }

    /// The grid of the given dimensions in which every cell is blocked.
    pub open spec fn blocked(rows: nat, cols: nat) -> Grid {
        Grid { rows, cols, cells: Seq::new(rows * cols, |i: int| false) }
    }

    /// The same grid with one more passable cell.
    pub open spec fn with_passage(self, p: NodeAdr) -> Grid {
        Grid { rows: self.rows, cols: self.cols, cells: self.cells.update(self.index(p), true) }
    }
}

/// Two cells share an edge.
pub open spec fn adjacent(a: NodeAdr, b: NodeAdr) -> bool {
    ||| a.0 == b.0 && (a.1 + 1 == b.1 || b.1 + 1 == a.1)
    ||| a.1 == b.1 && (a.0 + 1 == b.0 || b.0 + 1 == a.0)
}

/// The move from `cur` to `next` keeps the line on which `cur` was entered
/// from `prev`: all three cells share a row, or all three share a column.
/// Going back to `prev` keeps the line too.
pub open spec fn straight(prev: NodeAdr, cur: NodeAdr, next: NodeAdr) -> bool {
    ||| next.0 == cur.0 && cur.0 == prev.0
    ||| next.1 == cur.1 && cur.1 == prev.1
}

/// The move from `from` to the adjacent cell `to` runs along a column rather
/// than along a row.
pub open spec fn upright_move(from: NodeAdr, to: NodeAdr) -> bool {
    from.1 == to.1
}

/// What the move from `cur` to `next` adds to the number of turns.
pub open spec fn turn_cost(prev: NodeAdr, cur: NodeAdr, next: NodeAdr) -> nat {
    if straight(prev, cur, next) { 0 } else { 1 }
}

/// The passable cell that lies next to `p` in one direction.  The directions
/// are numbered in the order in which they are tried: 0 is up (the row
/// before), 1 right (the column after), 2 down, 3 left.
pub open spec fn toward(g: Grid, p: NodeAdr, dir: int) -> Option<NodeAdr> {
    let q: (int, int) = if dir == 0 {
        (p.0 - 1, p.1 as int)
    } else if dir == 1 {
        (p.0 as int, p.1 + 1)
    } else if dir == 2 {
        (p.0 + 1, p.1 as int)
    } else {
        (p.0 as int, p.1 - 1)
    };
    if 0 <= dir < 4 && 0 <= q.0 < g.rows && 0 <= q.1 < g.cols && g.cells[q.0 * g.cols + q.1] {
        Some((q.0 as DimType, q.1 as DimType))
    } else {
        None
    }
}

/// The passable neighbours of `p` in the directions from `dir` on, in the
/// order up, right, down, left.
pub open spec fn neighbors_from(g: Grid, p: NodeAdr, dir: int) -> Seq<NodeAdr>
    decreases 4 - dir,
{
    if dir < 0 || dir >= 4 {
        Seq::empty()
    } else {
        match toward(g, p, dir) {
            Some(n) => seq![n] + neighbors_from(g, p, dir + 1),
            None => neighbors_from(g, p, dir + 1),
        }
    }
}

/// All passable neighbours of `p`, in the order up, right, down, left.
pub open spec fn neighbors(g: Grid, p: NodeAdr) -> Seq<NodeAdr> {
    neighbors_from(g, p, 0)
}

/// A non-empty sequence of passable cells in which each cell is adjacent to
/// the one before it.
pub open spec fn is_route(g: Grid, path: Seq<NodeAdr>) -> bool {
    &&& path.len() > 0
    &&& forall|i: int| 0 <= i < path.len() ==> g.passable(#[trigger] path[i])
    &&& forall|i: int| 0 <= i < path.len() - 1 ==> #[trigger] adjacent(path[i], path[i + 1])
}

/// A route that leads from one given cell to another.
pub open spec fn joins(g: Grid, path: Seq<NodeAdr>, from: NodeAdr, to: NodeAdr) -> bool {
    is_route(g, path) && path.first() == from && path.last() == to
}

/// Some route leads from `from` to `to`.
pub open spec fn connected(g: Grid, from: NodeAdr, to: NodeAdr) -> bool {
    exists|path: Seq<NodeAdr>| joins(g, path, from, to)
}

/// The number of turns along a sequence of cells: one for each cell that is
/// entered on one line and left on another.
pub open spec fn turns(path: Seq<NodeAdr>) -> nat
    decreases path.len(),
{
    if path.len() < 3 {
        0
    } else {
        turns(path.drop_last()) + turn_cost(
            path[path.len() - 3],
            path[path.len() - 2],
            path[path.len() - 1],
        )
    }
}

/// The neighbours enumerated for a cell are passable cells adjacent to it,
/// and there is at most one for each direction.
pub proof fn lemma_neighbors_from(g: Grid, p: NodeAdr, dir: int)
    requires
        g.wf(),
        g.contains(p),
    ensures
        neighbors_from(g, p, dir).len() <= if dir < 4 { 4 - dir } else { 0 },
        forall|i: int| 0 <= i < neighbors_from(g, p, dir).len() ==> {
            let n = #[trigger] neighbors_from(g, p, dir)[i];
            g.passable(n) && adjacent(p, n)
        },
    decreases 4 - dir,
{
    if 0 <= dir < 4 {
        lemma_neighbors_from(g, p, dir + 1);
        let rest = neighbors_from(g, p, dir + 1);
        let all = neighbors_from(g, p, dir);
        match toward(g, p, dir) {
            Some(n) => {
                assert(g.passable(n) && adjacent(p, n));
                assert forall|i: int| 0 <= i < all.len() implies {
                    let m = #[trigger] all[i];
                    g.passable(m) && adjacent(p, m)
                } by {
                    if i > 0 {
                        assert(all[i] == rest[i - 1]);
                    }
                }
            },
            None => {},
        }
    }
}

/// A well-formed grid has at least four cells, and fewer than a number of
/// turns can count.
pub proof fn lemma_size_bound(g: Grid)
    requires
        g.wf(),
    ensures
        4 <= g.size() <= 0xffff * 0xffff,
        2 * g.size() < RankType::MAX,
{
    let rows = g.rows as int;
    let cols = g.cols as int;
    assert(4 <= rows * cols <= 0xffff * 0xffff) by (nonlinear_arith)
        requires
            2 <= rows <= 0xffff,
            2 <= cols <= 0xffff,
    ;
}

/// A cell inside the grid has a position among the cells.
pub proof fn lemma_index_in_range(g: Grid, p: NodeAdr)
    requires
        g.contains(p),
    ensures
        0 <= g.index(p) < g.size(),
{
    let r = p.0 as int;
    let c = p.1 as int;
    let rows = g.rows as int;
    let cols = g.cols as int;
    assert(0 <= r * cols + c < rows * cols) by (nonlinear_arith)
        requires
            0 <= r < rows,
            0 <= c < cols,
    ;
}

/// Two cells inside the grid that have the same position are the same cell.
pub proof fn lemma_index_injective(g: Grid, p: NodeAdr, q: NodeAdr)
    requires
        g.contains(p),
        g.contains(q),
        g.index(p) == g.index(q),
    ensures
        p == q,
{
    let cols = g.cols as int;
    let (pr, pc) = (p.0 as int, p.1 as int);
    let (qr, qc) = (q.0 as int, q.1 as int);
    assert(pr == qr) by (nonlinear_arith)
        requires
            0 <= pc < cols,
            0 <= qc < cols,
            0 <= pr,
            0 <= qr,
            pr * cols + pc == qr * cols + qc,
    ;
}

/// `n` is the least number of turns that a route from the entrance to the
/// exit can have.
pub open spec fn fewest_turns(g: Grid, n: nat) -> bool {
    &&& exists|r: Seq<NodeAdr>| joins(g, r, g.start(), g.end()) && turns(r) == n
    &&& forall|r: Seq<NodeAdr>| joins(g, r, g.start(), g.end()) ==> turns(r) >= n
}

/// What the meeting of two routes adds to their turns: one turn if the
/// first arrives along a row and the second leaves along a column, or the
/// other way round.
pub open spec fn junction(a: Seq<NodeAdr>, b: Seq<NodeAdr>) -> nat {
    if a.len() >= 2 && b.len() >= 2 {
        if (a[a.len() - 2].0 == a.last().0 && b[0].0 == b[1].0) || (a[a.len() - 2].1 == a.last().1
            && b[0].1 == b[1].1) {
            0
        } else {
            1
        }
    } else {
        0
    }
}

/// The cell of a grid that a cell of a window into the grid stands for,
/// where the first cell of the window is the cell (`top`, `left`).
pub open spec fn moved(p: NodeAdr, top: nat, left: nat) -> NodeAdr {
    ((p.0 + top) as DimType, (p.1 + left) as DimType)
}

/// A sequence of cells of a window, as cells of the grid.
pub open spec fn shifted(r: Seq<NodeAdr>, top: nat, left: nat) -> Seq<NodeAdr> {
    Seq::new(r.len(), |i: int| moved(r[i], top, left))
}

/// `w` is a window into `g` whose first cell is the cell (`top`, `left`):
/// it lies inside `g`, and what is passable in it is passable in `g`.
pub open spec fn is_window(g: Grid, w: Grid, top: nat, left: nat) -> bool {
    &&& w.wf()
    &&& top + w.rows <= g.rows
    &&& left + w.cols <= g.cols
    &&& forall|p: NodeAdr| #[trigger] w.passable(p) ==> g.passable(moved(p, top, left))
}

/// Marking a cell passable makes that cell passable and blocks no other.
pub proof fn lemma_passage_stays(g: Grid, p: NodeAdr, q: NodeAdr)
    requires
        g.wf(),
        g.contains(p),
    ensures
        g.with_passage(p).wf(),
        g.with_passage(p).passable(p),
        g.passable(q) ==> g.with_passage(p).passable(q),
        g.with_passage(p).passable(q) ==> g.passable(q) || q == p,
{
    lemma_index_in_range(g, p);
    if g.contains(q) {
        lemma_index_in_range(g, q);
        if g.index(p) == g.index(q) {
            lemma_index_injective(g, p, q);
        }
    }
}

/// Two routes of which the second starts where the first ends make one route
/// from the start of the first to the end of the second.
pub proof fn lemma_join_routes(
    g: Grid,
    a: Seq<NodeAdr>,
    b: Seq<NodeAdr>,
    from: NodeAdr,
    through: NodeAdr,
    to: NodeAdr,
)
    requires
        joins(g, a, from, through),
        joins(g, b, through, to),
    ensures
        joins(g, a + b.drop_first(), from, to),
{
    let j = a + b.drop_first();
    assert forall|i: int| 0 <= i < j.len() implies g.passable(#[trigger] j[i]) by {
        if i >= a.len() {
            assert(j[i] == b[i - a.len() + 1]);
        }
    }
    assert forall|i: int| 0 <= i < j.len() - 1 implies #[trigger] adjacent(j[i], j[i + 1]) by {
        if i < a.len() - 1 {
            assert(adjacent(a[i], a[i + 1]));
        } else {
            let k = i - a.len() + 1;
            assert(adjacent(b[k], b[k + 1]));
        }
    }
}

/// The turns of a route made of two: those of the first part, those of the
/// second, and one more if the route turns in the cell where the parts meet.
pub proof fn lemma_turns_of_joined(a: Seq<NodeAdr>, b: Seq<NodeAdr>)
    requires
        a.len() >= 1,
        b.len() >= 1,
        a.last() == b.first(),
    ensures
        turns(a + b.drop_first()) == turns(a) + turns(b) + junction(a, b),
    decreases b.len(),
{
    let j = a + b.drop_first();
    if b.len() == 1 {
        assert(j =~= a);
    } else if a.len() == 1 {
        assert(j =~= b);
    } else if b.len() == 2 {
        assert(j.drop_last() =~= a);
    } else {
        let c = b.drop_last();
        lemma_turns_of_joined(a, c);
        assert(j.drop_last() =~= a + c.drop_first());
    }
}

/// A route of a window is a route of the grid, with the same turns.
pub proof fn lemma_shifted_route(g: Grid, w: Grid, top: nat, left: nat, r: Seq<NodeAdr>)
    requires
        g.wf(),
        is_window(g, w, top, left),
        is_route(w, r),
    ensures
        is_route(g, shifted(r, top, left)),
        turns(shifted(r, top, left)) == turns(r),
    decreases r.len(),
{
    let s = shifted(r, top, left);
    assert forall|i: int| 0 <= i < s.len() implies g.passable(#[trigger] s[i]) by {
        assert(w.passable(r[i]));
    }
    assert forall|i: int| 0 <= i < s.len() - 1 implies #[trigger] adjacent(s[i], s[i + 1]) by {
        assert(adjacent(r[i], r[i + 1]));
        assert(w.passable(r[i]));
        assert(w.passable(r[i + 1]));
    }
    if r.len() >= 3 {
        let n = r.len() as int;
        assert(w.passable(r[n - 1]) && w.passable(r[n - 2]) && w.passable(r[n - 3]));
        lemma_shifted_route(g, w, top, left, r.drop_last());
        assert(s.drop_last() =~= shifted(r.drop_last(), top, left));
    }
}

} // verus!
