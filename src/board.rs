use vstd::prelude::*;

use crate::cells::Cells;
use crate::directions::Directions;

verus! {

/// One recorded relocation: the cell at `from` goes to `to`.
#[derive(Clone, Copy, Debug, PartialEq, Eq, Structural)]
pub struct Move {
    pub from_x: usize,
    pub from_y: usize,
    pub to_x: usize,
    pub to_y: usize,
}

/// The move from (x, y) to (tx, ty).
pub open spec fn mv(x: int, y: int, tx: int, ty: int) -> Move {
    Move { from_x: x as usize, from_y: y as usize, to_x: tx as usize, to_y: ty as usize }
}

/// Whether one of the first `n` moves of `ms` leaves slot (x, y).
pub open spec fn leaves(ms: Seq<Move>, n: int, x: usize, y: usize) -> bool
    decreases n,
{
    if n <= 0 {
        false
    } else {
        leaves(ms, n - 1, x, y) || (ms[n - 1].from_x == x && ms[n - 1].from_y == y)
    }
}

/// Whether one of the first `n` moves of `ms` enters slot (x, y).
pub open spec fn enters(ms: Seq<Move>, n: int, x: usize, y: usize) -> bool
    decreases n,
{
    if n <= 0 {
        false
    } else {
        enters(ms, n - 1, x, y) || (ms[n - 1].to_x == x && ms[n - 1].to_y == y)
    }
}

/// Where the last of the first `n` moves of `ms` that leaves slot (x, y)
/// goes, if one does.
pub open spec fn dest_of(ms: Seq<Move>, n: int, x: usize, y: usize) -> Option<(usize, usize)>
    decreases n,
{
    if n <= 0 {
        None
    } else if ms[n - 1].from_x == x && ms[n - 1].from_y == y {
        Some((ms[n - 1].to_x, ms[n - 1].to_y))
    } else {
        dest_of(ms, n - 1, x, y)
    }
}

/// Whether `plan` already holds move `m`.
pub open spec fn recorded(plan: Seq<Move>, m: Move) -> bool {
    dest_of(plan, plan.len() as int, m.from_x, m.from_y) == Some((m.to_x, m.to_y))
}

/// Whether move `m` agrees with `plan`: it is already there, or neither its
/// source is left nor its destination entered by a move of `plan`.
pub open spec fn fits(plan: Seq<Move>, m: Move) -> bool {
    recorded(plan, m) || (dest_of(plan, plan.len() as int, m.from_x, m.from_y) is None && !enters(
        plan,
        plan.len() as int,
        m.to_x,
        m.to_y,
    ))
}

/// Whether every move of `walk` agrees with `plan`.
pub open spec fn walk_fits(plan: Seq<Move>, walk: Seq<Move>) -> bool {
    forall|i: int| 0 <= i < walk.len() ==> fits(plan, #[trigger] walk[i])
}

/// `plan` followed by those of the first `n` moves of `walk` that it does not hold yet.
pub open spec fn extended(plan: Seq<Move>, walk: Seq<Move>, n: int) -> Seq<Move>
    decreases n,
{
    if n <= 0 {
        plan
    } else if recorded(plan, walk[n - 1]) {
        extended(plan, walk, n - 1)
    } else {
        extended(plan, walk, n - 1).push(walk[n - 1])
    }
}

/// The plan after a cell's walk is offered to it: taken whole where it
/// agrees with the plan, refused whole otherwise.
pub open spec fn take_walk(plan: Seq<Move>, walk: Seq<Move>) -> Seq<Move> {
    if walk_fits(plan, walk) {
        extended(plan, walk, walk.len() as int)
    } else {
        plan
    }
}

/// Whether the `i`-th move is the first one in `ms` out of its source slot.
pub open spec fn first_from(ms: Seq<Move>, i: int) -> bool {
    !leaves(ms, i, ms[i].from_x, ms[i].from_y)
}

/// The mathematical state of a grid: `cells[x][y]` is the slot at column x, row y.
pub struct Board {
    pub width: nat,
    pub height: nat,
    pub cells: Seq<Seq<Cells>>,
}

impl Board {
    /// Every one of the `width` columns holds exactly `height` slots, and
    /// every coordinate fits in a `usize`.
    pub open spec fn wf(self) -> bool {
        &&& self.width <= usize::MAX
        &&& self.height <= usize::MAX
        &&& self.cells.len() == self.width
        &&& forall|x: int| 0 <= x < self.width ==> (#[trigger] self.cells[x]).len() == self.height
    }

    pub open spec fn in_bounds(self, x: int, y: int) -> bool {
        0 <= x < self.width && 0 <= y < self.height
    }

    pub open spec fn at(self, x: int, y: int) -> Cells {
        self.cells[x][y]
    }

    /// The board with slot (x, y) replaced by `c`; unchanged where (x, y) is outside.
    pub open spec fn put(self, x: int, y: int, c: Cells) -> Board {
        if self.in_bounds(x, y) {
            Board { cells: self.cells.update(x, self.cells[x].update(y, c)), ..self }
        } else {
            self
        }
    }

    /// A board of the given size with every slot Empty.
    pub open spec fn empty(width: nat, height: nat) -> Board {
        Board {
            width,
            height,
            cells: Seq::new(width, |x: int| Seq::new(height, |y: int| Cells::EmptyCell)),
        }
    }

    /// How many slots lie from (x, y) to the grid's edge along `d`, (x, y) included.
    pub open spec fn room(self, x: int, y: int, d: Directions) -> nat {
        match d {
            Directions::Right => if x < self.width { (self.width - x) as nat } else { 0 },
            Directions::Left => if x >= 0 { (x + 1) as nat } else { 0 },
            Directions::Down => if y < self.height { (self.height - y) as nat } else { 0 },
            Directions::Up => if y >= 0 { (y + 1) as nat } else { 0 },
        }
    }

    /// Whether walking from (x, y) along `d` over pushable cells reaches an
    /// Empty slot inside the grid.
    pub open spec fn chain_ok(self, x: int, y: int, d: Directions) -> bool
        decreases self.room(x, y, d),
    {
        if !self.in_bounds(x, y) {
            false
        } else if self.at(x, y) is EmptyCell {
            true
        } else if self.at(x, y).pushable() {
            self.chain_ok(x + d.dx(), y + d.dy(), d)
        } else {
            false
        }
    }

    /// The moves of the pushable run that starts at (x, y), each link one slot
    /// along `d`, the farthest link first.
    pub open spec fn chain_moves(self, x: int, y: int, d: Directions) -> Seq<Move>
        decreases self.room(x, y, d),
    {
        if self.in_bounds(x, y) && self.at(x, y).pushable() {
            self.chain_moves(x + d.dx(), y + d.dy(), d).push(
                mv(x, y, x + d.dx(), y + d.dy()),
            )
        } else {
            seq![]
        }
    }

    /// The walk of the cell at (x, y): a Mover whose target holds Empty, or a
    /// pushable run ending on Empty, moves with that run.
    pub open spec fn cell_moves(self, x: int, y: int) -> Seq<Move> {
        match self.at(x, y) {
            Cells::MoverCell(d) => {
                let tx = x + d.dx();
                let ty = y + d.dy();
                if self.chain_ok(tx, ty, d) {
                    seq![mv(x, y, tx, ty)] + self.chain_moves(tx, ty, d)
                } else {
                    seq![]
                }
            },
            _ => seq![],
        }
    }

    /// The spawn that the cell at (x, y) records: a Generator with a
    /// non-empty cell behind it and a slot ahead of it inside the grid.
    pub open spec fn cell_spawns(self, x: int, y: int) -> Seq<Move> {
        match self.at(x, y) {
            Cells::GeneratorCell(d) => {
                let bx = x - d.dx();
                let by = y - d.dy();
                let ax = x + d.dx();
                let ay = y + d.dy();
                if self.in_bounds(bx, by) && !(self.at(bx, by) is EmptyCell) && self.in_bounds(
                    ax,
                    ay,
                ) {
                    seq![mv(bx, by, ax, ay)]
                } else {
                    seq![]
                }
            },
            _ => seq![],
        }
    }

    /// The plan `start` after the walks of the first `n` slots of column x
    /// have been offered to it in turn.
    pub open spec fn column_moves(self, x: int, n: int, start: Seq<Move>) -> Seq<Move>
        decreases n,
    {
        if n <= 0 {
            start
        } else {
            take_walk(self.column_moves(x, n - 1, start), self.cell_moves(x, n - 1))
        }
    }

    /// The plan after the walks of the first `n` columns, scanned in order.
    pub open spec fn columns_moves(self, n: int) -> Seq<Move>
        decreases n,
    {
        if n <= 0 {
            seq![]
        } else {
            self.column_moves(n - 1, self.height as int, self.columns_moves(n - 1))
        }
    }

    /// Spawns recorded by the first `n` slots of column x.
    pub open spec fn column_spawns(self, x: int, n: int) -> Seq<Move>
        decreases n,
    {
        if n <= 0 {
            seq![]
        } else {
            self.column_spawns(x, n - 1) + self.cell_spawns(x, n - 1)
        }
    }

    /// Spawns recorded by the first `n` columns, scanned in order.
    pub open spec fn columns_spawns(self, n: int) -> Seq<Move>
        decreases n,
    {
        if n <= 0 {
            seq![]
        } else {
            self.columns_spawns(n - 1) + self.column_spawns(n - 1, self.height as int)
        }
    }

    /// Every move of one tick, in scan order: no two leave one slot and no
    /// two enter one slot.
    pub open spec fn plan_moves(self) -> Seq<Move> {
        self.columns_moves(self.width as int)
    }

    /// Every spawn of one tick, in scan order.
    pub open spec fn plan_spawns(self) -> Seq<Move> {
        self.columns_spawns(self.width as int)
    }

    /// The board with the source slot of every move in `ms` cleared.
    pub open spec fn cleared(self, ms: Seq<Move>) -> Board
        decreases ms.len(),
    {
        if ms.len() == 0 {
            self
        } else {
            self.cleared(ms.drop_last()).put(
                ms.last().from_x as int,
                ms.last().from_y as int,
                Cells::EmptyCell,
            )
        }
    }

    /// The board after the first `n` moves of `ms` have written, at their
    /// destinations, the cell that `snap` holds at their sources; a source
    /// moves once, by its first move.
    pub open spec fn placed(self, snap: Board, ms: Seq<Move>, n: int) -> Board
        decreases n,
    {
        if n <= 0 {
            self
        } else {
            let g = self.placed(snap, ms, n - 1);
            let m = ms[n - 1];
            if first_from(ms, n - 1) && snap.in_bounds(m.from_x as int, m.from_y as int) {
                g.put(m.to_x as int, m.to_y as int, snap.at(m.from_x as int, m.from_y as int))
            } else {
                g
            }
        }
    }

    /// The board after the first `n` spawns of `ss`: each clears its source
    /// and writes there what `snap` held at the source to its destination.
    pub open spec fn spawned(self, snap: Board, ss: Seq<Move>, n: int) -> Board
        decreases n,
    {
        if n <= 0 {
            self
        } else {
            let g = self.spawned(snap, ss, n - 1);
            let s = ss[n - 1];
            if snap.in_bounds(s.from_x as int, s.from_y as int) {
                g.put(s.from_x as int, s.from_y as int, Cells::EmptyCell).put(
                    s.to_x as int,
                    s.to_y as int,
                    snap.at(s.from_x as int, s.from_y as int),
                )
            } else {
                g
            }
        }
    }

    /// The board one simulation tick later: every move's source cleared, every
    /// move applied from the pre-tick board, then every spawn.
    pub open spec fn stepped(self) -> Board {
        let ms = self.plan_moves();
        let ss = self.plan_spawns();
        self.cleared(ms).placed(self, ms, ms.len() as int).spawned(self, ss, ss.len() as int)
    }

    /// The board `n` ticks later.
    pub open spec fn steps(self, n: nat) -> Board
        decreases n,
    {
        if n == 0 {
            self
        } else {
            self.steps((n - 1) as nat).stepped()
        }
    }

    /// A board of the given size that is Empty but for `c` at (x, y).
    pub open spec fn lone(width: nat, height: nat, x: int, y: int, c: Cells) -> Board {
        Board::empty(width, height).put(x, y, c)
    }
}

} // verus!
