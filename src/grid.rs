use vstd::prelude::*;

use crate::board::{
    take_walk, dest_of, enters, extended, first_from, fits, leaves, recorded, walk_fits, Board, Move,
};
use crate::cells::Cells;
use crate::directions::Directions;
use crate::laws::lemma_step_keeps_shape;

verus! {

/// Why a grid operation was refused.
#[derive(Clone, Copy, Debug, PartialEq, Eq, Structural)]
pub enum GridError {
    /// The coordinate lies outside the grid.
    OutOfBounds,
}

/// The columns of a grid as sequences.
pub open spec fn columns_view(v: Seq<Vec<Cells>>) -> Seq<Seq<Cells>> {
    v.map_values(|c: Vec<Cells>| c@)
}

/// A fixed-size grid of cells, with a pause flag and a pan offset for drawing.
pub struct Grid {
    cells: Vec<Vec<Cells>>,
    width: usize,
    height: usize,
    draw_offset: (i32, i32),
    is_paused: bool,
}

impl View for Grid {
    type V = Board;

    closed spec fn view(&self) -> Board {
        Board {
            width: self.width as nat,
            height: self.height as nat,
            cells: columns_view(self.cells@),
        }
    }
}

/// Every move of `ms` leaves and enters a slot of a `w` by `h` grid.
pub open spec fn moves_within(ms: Seq<Move>, w: usize, h: usize) -> bool {
    forall|i: int|
        0 <= i < ms.len() ==> (#[trigger] ms[i]).from_x < w && ms[i].from_y < h && ms[i].to_x < w
            && ms[i].to_y < h
}

/// The claim tables agree with `ms`: `src[a][b]` is where the move out of
/// (a, b) goes, and `dst[a][b]` whether a move enters (a, b).
pub open spec fn claims_match(
    ms: Seq<Move>,
    src: Seq<Vec<Option<(usize, usize)>>>,
    dst: Seq<Vec<bool>>,
    w: usize,
    h: usize,
) -> bool {
    &&& src.len() == w
    &&& dst.len() == w
    &&& forall|a: int| 0 <= a < w ==> (#[trigger] src[a])@.len() == h
    &&& forall|a: int| 0 <= a < w ==> (#[trigger] dst[a])@.len() == h
    &&& forall|a: usize, b: usize|
        a < w && b < h ==> (#[trigger] src[a as int]@[b as int]) == dest_of(ms, ms.len() as int, a, b)
    &&& forall|a: usize, b: usize|
        a < w && b < h ==> (#[trigger] dst[a as int]@[b as int]) == enters(ms, ms.len() as int, a, b)
}

proof fn lemma_push_keeps_prefix(ms: Seq<Move>, m: Move, n: int, a: usize, b: usize)
    requires
        n <= ms.len(),
    ensures
        dest_of(ms.push(m), n, a, b) == dest_of(ms, n, a, b),
        enters(ms.push(m), n, a, b) == enters(ms, n, a, b),
    decreases n,
{
    if n > 0 {
        lemma_push_keeps_prefix(ms, m, n - 1, a, b);
        assert(ms.push(m)[n - 1] == ms[n - 1]);
    }
}

/// Offers a walk to the plan: appends the moves it does not hold yet when
/// every move of the walk agrees with it, and nothing otherwise.
fn offer(
    moves: &mut Vec<Move>,
    walk: &Vec<Move>,
    src: &mut Vec<Vec<Option<(usize, usize)>>>,
    dst: &mut Vec<Vec<bool>>,
    w: usize,
    h: usize,
)
    requires
        claims_match(old(moves)@, old(src)@, old(dst)@, w, h),
        moves_within(walk@, w, h),
    ensures
        final(moves)@ == take_walk(old(moves)@, walk@),
        claims_match(final(moves)@, final(src)@, final(dst)@, w, h),
{
    let ghost plan = moves@;
    let mut ok = true;
    let mut dup: Vec<bool> = Vec::new();
    let mut i: usize = 0;
    while i < walk.len()
        invariant
            moves@ == plan,
            claims_match(plan, src@, dst@, w, h),
            moves_within(walk@, w, h),
            i <= walk@.len(),
            dup@.len() == i,
            forall|j: int| 0 <= j < i ==> dup@[j] == recorded(plan, #[trigger] walk@[j]),
            ok <==> (forall|j: int| 0 <= j < i ==> fits(plan, #[trigger] walk@[j])),
        decreases walk@.len() - i,
    {
        let m = walk[i];
        assert(walk@[i as int] == m);
        let sd = src[m.from_x][m.from_y];
        assert(sd == dest_of(plan, plan.len() as int, m.from_x, m.from_y));
        assert(dst@[m.to_x as int]@[m.to_y as int] == enters(plan, plan.len() as int, m.to_x, m.to_y));
        let rec = match sd {
            Some((tx, ty)) => tx == m.to_x && ty == m.to_y,
            None => false,
        };
        let f = rec || (sd.is_none() && !dst[m.to_x][m.to_y]);
        assert(f == fits(plan, m));
        ok = ok && f;
        dup.push(rec);
        i = i + 1;
        assert forall|j: int| 0 <= j < i implies dup@[j] == recorded(plan, #[trigger] walk@[j]) by {
        }
    }
    assert(ok == walk_fits(plan, walk@));
    if !ok {
        return ;
    }
    i = 0;
    while i < walk.len()
        invariant
            claims_match(moves@, src@, dst@, w, h),
            moves_within(walk@, w, h),
            i <= walk@.len(),
            dup@.len() == walk@.len(),
            forall|j: int| 0 <= j < walk@.len() ==> dup@[j] == recorded(plan, #[trigger] walk@[j]),
            moves@ == extended(plan, walk@, i as int),
        decreases walk@.len() - i,
    {
        let m = walk[i];
        assert(walk@[i as int] == m);
        if !dup[i] {
            let ghost before = moves@;
            moves.push(m);
            src[m.from_x][m.from_y] = Some((m.to_x, m.to_y));
            dst[m.to_x][m.to_y] = true;
            assert forall|a: usize, b: usize| a < w && b < h implies (#[trigger] src@[a as int]@[
                b as int
            ]) == dest_of(moves@, moves@.len() as int, a, b) by {
                lemma_push_keeps_prefix(before, m, before.len() as int, a, b);
                assert(moves@[before.len() as int] == m);
            }
            assert forall|a: usize, b: usize| a < w && b < h implies (#[trigger] dst@[a as int]@[
                b as int
            ]) == enters(moves@, moves@.len() as int, a, b) by {
                lemma_push_keeps_prefix(before, m, before.len() as int, a, b);
                assert(moves@[before.len() as int] == m);
            }
        }
        i = i + 1;
    }
}

/// The slot one step from (x, y) along `d`, if it lies inside a `w` by `h` grid.
fn neighbour(x: usize, y: usize, d: Directions, w: usize, h: usize) -> (r: Option<(usize, usize)>)
    requires
        x < w,
        y < h,
    ensures
        r is Some <==> (0 <= x + d.dx() < w && 0 <= y + d.dy() < h),
        r matches Some(p) ==> p.0 as int == x + d.dx() && p.1 as int == y + d.dy(),
{
    match d {
        Directions::Up => if y > 0 { Some((x, y - 1)) } else { None },
        Directions::Down => if y + 1 < h { Some((x, y + 1)) } else { None },
        Directions::Left => if x > 0 { Some((x - 1, y)) } else { None },
        Directions::Right => if x + 1 < w { Some((x + 1, y)) } else { None },
    }
}

impl Grid {
    /// The grid's shape agrees with its recorded width and height.
    pub closed spec fn wf(&self) -> bool {
        &&& self.cells@.len() == self.width
        &&& forall|x: int| 0 <= x < self.width ==> (#[trigger] self.cells@[x])@.len() == self.height
    }

    pub closed spec fn paused(&self) -> bool {
        self.is_paused
    }

    pub closed spec fn offset(&self) -> (i32, i32) {
        self.draw_offset
    }

    proof fn lemma_view_wf(&self)
        requires
            self.wf(),
        ensures
            self@.wf(),
    {
        assert forall|x: int| 0 <= x < self@.width implies (#[trigger] self@.cells[x]).len()
            == self@.height by {
            assert(self.cells@[x]@.len() == self.height);
        }
    }

    /// A paused `w` by `h` grid with every slot Empty and no pan offset.
    pub fn new(w: u32, h: u32) -> (r: Grid)
        ensures
            r.wf(),
            r@.wf(),
            r@ == Board::empty(w as nat, h as nat),
            r.paused(),
            r.offset() == (0i32, 0i32),
    {
        let mut cells: Vec<Vec<Cells>> = Vec::new();
        let mut i: u32 = 0;
        while i < w
            invariant
                i <= w,
                cells@.len() == i,
                forall|x: int|
                    0 <= x < i ==> (#[trigger] cells@[x])@ == Seq::new(
                        h as nat,
                        |y: int| Cells::EmptyCell,
                    ),
            decreases w - i,
        {
            let mut column: Vec<Cells> = Vec::new();
            let mut j: u32 = 0;
            while j < h
                invariant
                    j <= h,
                    column@ == Seq::new(j as nat, |y: int| Cells::EmptyCell),
                decreases h - j,
            {
                column.push(Cells::EmptyCell);
                j = j + 1;
                assert(column@ =~= Seq::new(j as nat, |y: int| Cells::EmptyCell));
            }
            cells.push(column);
            i = i + 1;
        }
        let r = Grid {
            cells,
            width: w as usize,
            height: h as usize,
            draw_offset: (0, 0),
            is_paused: true,
        };
        assert(r@.cells =~= Board::empty(w as nat, h as nat).cells);
        proof {
            r.lemma_view_wf();
        }
        r
    }

    /// Number of columns.
    pub fn width(&self) -> (r: usize)
        ensures
            r == self@.width,
    {
        self.width
    }

    /// Number of rows.
    pub fn height(&self) -> (r: usize)
        ensures
            r == self@.height,
    {
        self.height
    }

    /// Whether stepping is suspended.
    pub fn is_paused(&self) -> (r: bool)
        ensures
            r == self.paused(),
    {
        self.is_paused
    }

    /// Suspends or resumes stepping.
    pub fn set_paused(&mut self, paused: bool)
        ensures
            final(self).paused() == paused,
            final(self)@ == old(self)@,
            final(self).wf() == old(self).wf(),
            final(self).offset() == old(self).offset(),
    {
        self.is_paused = paused;
    }

    /// Flips the pause flag.
    pub fn toggle_paused(&mut self)
        ensures
            final(self).paused() == !old(self).paused(),
            final(self)@ == old(self)@,
            final(self).wf() == old(self).wf(),
            final(self).offset() == old(self).offset(),
    {
        self.is_paused = !self.is_paused;
    }

    /// The pan offset at which the grid is drawn; it plays no part in the simulation.
    pub fn draw_offset(&self) -> (r: (i32, i32))
        ensures
            r == self.offset(),
    {
        self.draw_offset
    }

    /// Sets the pan offset; the cells and the pause flag stay as they are.
    pub fn set_draw_offset(&mut self, x: i32, y: i32)
        ensures
            final(self).offset() == (x, y),
            final(self)@ == old(self)@,
            final(self).wf() == old(self).wf(),
            final(self).paused() == old(self).paused(),
    {
        self.draw_offset = (x, y);
    }

    /// The cell at (x, y), or `OutOfBounds` where (x, y) lies outside the grid.
    pub fn get_cell(&self, x: u32, y: u32) -> (r: Result<Cells, GridError>)
        requires
            self.wf(),
        ensures
            self@.in_bounds(x as int, y as int) ==> r == Ok::<Cells, GridError>(
                self@.at(x as int, y as int),
            ),
            !self@.in_bounds(x as int, y as int) ==> r == Err::<Cells, GridError>(
                GridError::OutOfBounds,
            ),
    {
        if (x as usize) < self.width && (y as usize) < self.height {
            Ok(self.cells[x as usize][y as usize])
        } else {
            Err(GridError::OutOfBounds)
        }
    }

    /// Writes `c` at (x, y) when it lies inside the grid; does nothing otherwise.
    fn put(&mut self, x: usize, y: usize, c: Cells)
        requires
            old(self).wf(),
        ensures
            final(self).wf(),
            final(self)@ == old(self)@.put(x as int, y as int, c),
            final(self).paused() == old(self).paused(),
            final(self).offset() == old(self).offset(),
    {
        if x < self.width && y < self.height {
            self.cells[x][y] = c;
            assert(self@.cells =~= old(self)@.cells.update(
                x as int,
                old(self)@.cells[x as int].update(y as int, c),
            ));
        }
    }

    /// Replaces the cell at (x, y) with `cell`, or fails with `OutOfBounds`
    /// (leaving the grid as it was) where (x, y) lies outside the grid.
    pub fn set_cell(&mut self, x: u32, y: u32, cell: Cells) -> (r: Result<(), GridError>)
        requires
            old(self).wf(),
        ensures
            final(self).wf(),
            final(self).paused() == old(self).paused(),
            final(self).offset() == old(self).offset(),
            old(self)@.in_bounds(x as int, y as int) ==> r is Ok && final(self)@ == old(
                self,
            )@.put(x as int, y as int, cell),
            !old(self)@.in_bounds(x as int, y as int) ==> r == Err::<(), GridError>(
                GridError::OutOfBounds,
            ) && final(self)@ == old(self)@,
    {
        if (x as usize) < self.width && (y as usize) < self.height {
            self.put(x as usize, y as usize, cell);
            Ok(())
        } else {
            Err(GridError::OutOfBounds)
        }
    }

    /// Whether the pushable run from (x, y) along `d` ends on an Empty slot
    /// inside the grid.
    fn chain_clear(&self, x: usize, y: usize, d: Directions) -> (r: bool)
        requires
            self.wf(),
            x < self.width,
            y < self.height,
        ensures
            r == self@.chain_ok(x as int, y as int, d),
        decreases self@.room(x as int, y as int, d),
    {
        let c = self.cells[x][y];
        assert(c == self@.at(x as int, y as int));
        if c.is_empty() {
            true
        } else if c.is_pushable() {
            match neighbour(x, y, d, self.width, self.height) {
                None => {
                    assert(!self@.chain_ok(x + d.dx(), y + d.dy(), d));
                    false
                },
                Some((nx, ny)) => self.chain_clear(nx, ny, d),
            }
        } else {
            false
        }
    }

    /// Appends the moves of the pushable run from (x, y) along `d`, farthest
    /// link first.
    fn push_chain(&self, x: usize, y: usize, d: Directions, moves: &mut Vec<Move>)
        requires
            self.wf(),
            x < self.width,
            y < self.height,
            self@.chain_ok(x as int, y as int, d),
            moves_within(old(moves)@, self.width, self.height),
        ensures
            final(moves)@ == old(moves)@ + self@.chain_moves(x as int, y as int, d),
            moves_within(final(moves)@, self.width, self.height),
        decreases self@.room(x as int, y as int, d),
    {
        assert(self.cells[x as int]@[y as int] == self@.at(x as int, y as int));
        if self.cells[x][y].is_pushable() {
            match neighbour(x, y, d, self.width, self.height) {
                None => {
                    assert(self@.chain_ok(x + d.dx(), y + d.dy(), d));
                    assert(!self@.in_bounds(x + d.dx(), y + d.dy()));
                },
                Some((nx, ny)) => {
                    let ghost before = moves@;
                    self.push_chain(nx, ny, d, moves);
                    moves.push(Move { from_x: x, from_y: y, to_x: nx, to_y: ny });
                    assert(moves@ =~= before + self@.chain_moves(x as int, y as int, d));
                },
            }
        } else {
            assert(self@.chain_moves(x as int, y as int, d) =~= seq![]);
            assert(moves@ =~= old(moves)@ + seq![]);
        }
    }

    /// Appends the walk and the spawn of the cell at (x, y).
    fn plan_cell(&self, x: usize, y: usize, moves: &mut Vec<Move>, spawns: &mut Vec<Move>)
        requires
            self.wf(),
            x < self.width,
            y < self.height,
            moves_within(old(moves)@, self.width, self.height),
        ensures
            final(moves)@ == old(moves)@ + self@.cell_moves(x as int, y as int),
            final(spawns)@ == old(spawns)@ + self@.cell_spawns(x as int, y as int),
            moves_within(final(moves)@, self.width, self.height),
    {
        assert(self.cells[x as int]@[y as int] == self@.at(x as int, y as int));
        match self.cells[x][y] {
            Cells::GeneratorCell(d) => {
                let behind = neighbour(x, y, d.opposite(), self.width, self.height);
                let ahead = neighbour(x, y, d, self.width, self.height);
                match (behind, ahead) {
                    (Some((bx, by)), Some((ax, ay))) => {
                        assert(self.cells[bx as int]@[by as int] == self@.at(bx as int, by as int));
                        if !self.cells[bx][by].is_empty() {
                            spawns.push(Move { from_x: bx, from_y: by, to_x: ax, to_y: ay });
                            assert(spawns@ =~= old(spawns)@ + self@.cell_spawns(x as int, y as int));
                        } else {
                            assert(spawns@ =~= old(spawns)@ + self@.cell_spawns(x as int, y as int));
                        }
                    },
                    _ => {
                        assert(spawns@ =~= old(spawns)@ + self@.cell_spawns(x as int, y as int));
                    },
                }
                assert(moves@ =~= old(moves)@ + self@.cell_moves(x as int, y as int));
            },
            Cells::MoverCell(d) => {
                match neighbour(x, y, d, self.width, self.height) {
                    Some((tx, ty)) => {
                        if self.chain_clear(tx, ty, d) {
                            moves.push(Move { from_x: x, from_y: y, to_x: tx, to_y: ty });
                            self.push_chain(tx, ty, d, moves);
                            assert(moves@ =~= old(moves)@ + self@.cell_moves(x as int, y as int));
                        } else {
                            assert(moves@ =~= old(moves)@ + self@.cell_moves(x as int, y as int));
                        }
                    },
                    None => {
                        assert(moves@ =~= old(moves)@ + self@.cell_moves(x as int, y as int));
                    },
                }
                assert(spawns@ =~= old(spawns)@ + self@.cell_spawns(x as int, y as int));
            },
            _ => {
                assert(moves@ =~= old(moves)@ + self@.cell_moves(x as int, y as int));
                assert(spawns@ =~= old(spawns)@ + self@.cell_spawns(x as int, y as int));
            },
        }
    }

    /// A `width` by `height` table with no move recorded out of any slot.
    fn unclaimed(&self) -> (r: Vec<Vec<Option<(usize, usize)>>>)
        requires
            self.wf(),
        ensures
            r@.len() == self.width,
            forall|a: int|
                0 <= a < self.width ==> (#[trigger] r@[a])@ == Seq::new(
                    self.height as nat,
                    |b: int| None::<(usize, usize)>,
                ),
    {
        let mut r: Vec<Vec<Option<(usize, usize)>>> = Vec::new();
        let mut x: usize = 0;
        while x < self.width
            invariant
                x <= self.width,
                r@.len() == x,
                forall|a: int|
                    0 <= a < x ==> (#[trigger] r@[a])@ == Seq::new(
                        self.height as nat,
                        |b: int| None::<(usize, usize)>,
                    ),
            decreases self.width - x,
        {
            let mut column: Vec<Option<(usize, usize)>> = Vec::new();
            let mut y: usize = 0;
            while y < self.height
                invariant
                    y <= self.height,
                    column@ == Seq::new(y as nat, |b: int| None::<(usize, usize)>),
                decreases self.height - y,
            {
                column.push(None);
                y = y + 1;
                assert(column@ =~= Seq::new(y as nat, |b: int| None::<(usize, usize)>));
            }
            r.push(column);
            x = x + 1;
        }
        r
    }

    /// Scans every slot, column by column, offering each walk to the plan,
    /// and collects the moves and the spawns of this tick.
    fn plan(&self) -> (r: (Vec<Move>, Vec<Move>))
        requires
            self.wf(),
        ensures
            r.0@ == self@.plan_moves(),
            r.1@ == self@.plan_spawns(),
    {
        let mut moves: Vec<Move> = Vec::new();
        let mut spawns: Vec<Move> = Vec::new();
        let mut src = self.unclaimed();
        let mut dst = self.unmarked();
        let w = self.width;
        let h = self.height;
        let mut x: usize = 0;
        while x < self.width
            invariant
                self.wf(),
                w == self.width,
                h == self.height,
                x <= self.width,
                moves@ == self@.columns_moves(x as int),
                spawns@ == self@.columns_spawns(x as int),
                claims_match(moves@, src@, dst@, w, h),
            decreases self.width - x,
        {
            let mut y: usize = 0;
            while y < self.height
                invariant
                    self.wf(),
                    w == self.width,
                    h == self.height,
                    x < self.width,
                    y <= self.height,
                    moves@ == self@.column_moves(x as int, y as int, self@.columns_moves(x as int)),
                    spawns@ == self@.columns_spawns(x as int) + self@.column_spawns(
                        x as int,
                        y as int,
                    ),
                    claims_match(moves@, src@, dst@, w, h),
                decreases self.height - y,
            {
                let mut walk: Vec<Move> = Vec::new();
                self.plan_cell(x, y, &mut walk, &mut spawns);
                assert(walk@ =~= self@.cell_moves(x as int, y as int));
                offer(&mut moves, &walk, &mut src, &mut dst, w, h);
                y = y + 1;
                assert(spawns@ =~= self@.columns_spawns(x as int) + self@.column_spawns(
                    x as int,
                    y as int,
                ));
            }
            x = x + 1;
        }
        (moves, spawns)
    }

    /// A copy of the columns, to read the pre-tick state from while writing.
    fn snapshot(&self) -> (r: Vec<Vec<Cells>>)
        requires
            self.wf(),
        ensures
            columns_view(r@) == self@.cells,
            r@.len() == self.width,
            forall|a: int| 0 <= a < self.width ==> (#[trigger] r@[a])@.len() == self.height,
    {
        let mut r: Vec<Vec<Cells>> = Vec::new();
        let mut x: usize = 0;
        while x < self.width
            invariant
                self.wf(),
                x <= self.width,
                r@.len() == x,
                forall|i: int| 0 <= i < x ==> (#[trigger] r@[i])@ == self.cells@[i]@,
            decreases self.width - x,
        {
            let mut column: Vec<Cells> = Vec::new();
            let mut y: usize = 0;
            while y < self.height
                invariant
                    self.wf(),
                    x < self.width,
                    y <= self.height,
                    column@ == self.cells@[x as int]@.take(y as int),
                decreases self.height - y,
            {
                column.push(self.cells[x][y]);
                y = y + 1;
                assert(column@ =~= self.cells@[x as int]@.take(y as int));
            }
            assert(column@ =~= self.cells@[x as int]@);
            r.push(column);
            x = x + 1;
        }
        assert(columns_view(r@) =~= self@.cells);
        r
    }

    /// A `width` by `height` table of `false`.
    fn unmarked(&self) -> (r: Vec<Vec<bool>>)
        requires
            self.wf(),
        ensures
            r@.len() == self.width,
            forall|a: int|
                0 <= a < self.width ==> (#[trigger] r@[a])@ == Seq::new(
                    self.height as nat,
                    |b: int| false,
                ),
    {
        let mut r: Vec<Vec<bool>> = Vec::new();
        let mut x: usize = 0;
        while x < self.width
            invariant
                x <= self.width,
                r@.len() == x,
                forall|a: int|
                    0 <= a < x ==> (#[trigger] r@[a])@ == Seq::new(
                        self.height as nat,
                        |b: int| false,
                    ),
            decreases self.width - x,
        {
            let mut column: Vec<bool> = Vec::new();
            let mut y: usize = 0;
            while y < self.height
                invariant
                    y <= self.height,
                    column@ == Seq::new(y as nat, |b: int| false),
                decreases self.height - y,
            {
                column.push(false);
                y = y + 1;
                assert(column@ =~= Seq::new(y as nat, |b: int| false));
            }
            r.push(column);
            x = x + 1;
        }
        r
    }

    /// Applies one tick's moves and spawns against the pre-tick state.
    fn commit(&mut self, moves: &Vec<Move>, spawns: &Vec<Move>)
        requires
            old(self).wf(),
        ensures
            final(self).wf(),
            final(self)@ == old(self)@.cleared(moves@).placed(
                old(self)@,
                moves@,
                moves@.len() as int,
            ).spawned(old(self)@, spawns@, spawns@.len() as int),
            final(self).paused() == old(self).paused(),
            final(self).offset() == old(self).offset(),
    {
        let ghost snap_board = self@;
        let snap = self.snapshot();
        let w = self.width;
        let h = self.height;
        let mut i: usize = 0;
        while i < moves.len()
            invariant
                self.wf(),
                self.width == w,
                self.height == h,
                i <= moves@.len(),
                self@ == snap_board.cleared(moves@.take(i as int)),
                self.paused() == old(self).paused(),
                self.offset() == old(self).offset(),
            decreases moves@.len() - i,
        {
            let m = moves[i];
            self.put(m.from_x, m.from_y, Cells::EmptyCell);
            assert(moves@.take(i + 1).drop_last() =~= moves@.take(i as int));
            i = i + 1;
        }
        assert(moves@.take(i as int) =~= moves@);
        let ghost cleared_board = self@;
        let mut seen = self.unmarked();
        i = 0;
        while i < moves.len()
            invariant
                self.wf(),
                self.width == w,
                self.height == h,
                i <= moves@.len(),
                columns_view(snap@) == snap_board.cells,
                snap_board.width == w,
                snap_board.height == h,
                snap@.len() == w,
                forall|a: int| 0 <= a < w ==> (#[trigger] snap@[a])@.len() == h,
                seen@.len() == w,
                forall|a: int| 0 <= a < w ==> (#[trigger] seen@[a])@.len() == h,
                forall|a: usize, b: usize|
                    a < w && b < h ==> (#[trigger] seen@[a as int]@[b as int]) == leaves(
                        moves@,
                        i as int,
                        a,
                        b,
                    ),
                self@ == cleared_board.placed(snap_board, moves@, i as int),
                self.paused() == old(self).paused(),
                self.offset() == old(self).offset(),
            decreases moves@.len() - i,
        {
            let m = moves[i];
            if m.from_x < w && m.from_y < h {
                assert(seen@[m.from_x as int]@[m.from_y as int] == leaves(
                    moves@,
                    i as int,
                    m.from_x,
                    m.from_y,
                ));
                if !seen[m.from_x][m.from_y] {
                    assert(snap@[m.from_x as int]@[m.from_y as int] == snap_board.at(
                        m.from_x as int,
                        m.from_y as int,
                    ));
                    self.put(m.to_x, m.to_y, snap[m.from_x][m.from_y]);
                }
                seen[m.from_x][m.from_y] = true;
                assert forall|a: usize, b: usize| a < w && b < h implies (#[trigger] seen@[a as int]@[
                    b as int
                ]) == leaves(moves@, i + 1, a, b) by {
                    if a == m.from_x && b == m.from_y {
                    } else {
                        assert(seen@[a as int]@[b as int] == leaves(moves@, i as int, a, b));
                    }
                }
            } else {
                assert forall|a: usize, b: usize| a < w && b < h implies (#[trigger] seen@[a as int]@[
                    b as int
                ]) == leaves(moves@, i + 1, a, b) by {
                    assert(seen@[a as int]@[b as int] == leaves(moves@, i as int, a, b));
                }
            }
            i = i + 1;
        }
        let ghost placed_board = self@;
        i = 0;
        while i < spawns.len()
            invariant
                self.wf(),
                self.width == w,
                self.height == h,
                i <= spawns@.len(),
                columns_view(snap@) == snap_board.cells,
                snap_board.width == w,
                snap_board.height == h,
                snap@.len() == w,
                forall|a: int| 0 <= a < w ==> (#[trigger] snap@[a])@.len() == h,
                self@ == placed_board.spawned(snap_board, spawns@, i as int),
                self.paused() == old(self).paused(),
                self.offset() == old(self).offset(),
            decreases spawns@.len() - i,
        {
            let s = spawns[i];
            if s.from_x < w && s.from_y < h {
                assert(snap@[s.from_x as int]@[s.from_y as int] == snap_board.at(
                    s.from_x as int,
                    s.from_y as int,
                ));
                let c = snap[s.from_x][s.from_y];
                self.put(s.from_x, s.from_y, Cells::EmptyCell);
                self.put(s.to_x, s.to_y, c);
            }
            i = i + 1;
        }
    }

    /// Advances the simulation by one tick when `tick` is a multiple of 10 and
    /// the grid is not paused; otherwise leaves the grid exactly as it was.
    pub fn update(&mut self, tick: u32)
        requires
            old(self).wf(),
        ensures
            final(self).wf(),
            final(self).paused() == old(self).paused(),
            final(self).offset() == old(self).offset(),
            final(self)@.wf(),
            final(self)@.width == old(self)@.width,
            final(self)@.height == old(self)@.height,
            tick % 10 == 0 && !old(self).paused() ==> final(self)@ == old(self)@.stepped(),
            !(tick % 10 == 0 && !old(self).paused()) ==> *final(self) == *old(self),
    {
        proof {
            self.lemma_view_wf();
            lemma_step_keeps_shape(self@);
        }
        if tick % 10 != 0 {
            return ;
        }
        if self.is_paused {
            return ;
        }
        let (moves, spawns) = self.plan();
        self.commit(&moves, &spawns);
    }
}

} // verus!
