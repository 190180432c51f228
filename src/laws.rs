use vstd::prelude::*;

use crate::board::{extended, first_from, mv, take_walk, Board, Move};
use crate::directions::Directions;
use crate::cells::Cells;

verus! {

/// Writing one slot keeps the board's shape.
pub(crate) proof fn lemma_put_keeps_shape(b: Board, x: int, y: int, c: Cells)
    requires
        b.wf(),
    ensures
        b.put(x, y, c).wf(),
        b.put(x, y, c).width == b.width,
        b.put(x, y, c).height == b.height,
{
    let r = b.put(x, y, c);
    if b.in_bounds(x, y) {
        assert forall|i: int| 0 <= i < r.width implies (#[trigger] r.cells[i]).len() == r.height by {
            if i != x {
                assert(r.cells[i] == b.cells[i]);
            }
        }
    }
}

/// Clearing sources keeps the board's shape.
pub(crate) proof fn lemma_cleared_keeps_shape(b: Board, ms: Seq<Move>)
    requires
        b.wf(),
    ensures
        b.cleared(ms).wf(),
        b.cleared(ms).width == b.width,
        b.cleared(ms).height == b.height,
    decreases ms.len(),
{
    if ms.len() > 0 {
        lemma_cleared_keeps_shape(b, ms.drop_last());
        lemma_put_keeps_shape(
            b.cleared(ms.drop_last()),
            ms.last().from_x as int,
            ms.last().from_y as int,
            Cells::EmptyCell,
        );
    }
}

proof fn lemma_placed_keeps_shape(b: Board, snap: Board, ms: Seq<Move>, n: int)
    requires
        b.wf(),
    ensures
        b.placed(snap, ms, n).wf(),
        b.placed(snap, ms, n).width == b.width,
        b.placed(snap, ms, n).height == b.height,
    decreases n,
{
    if n > 0 {
        lemma_placed_keeps_shape(b, snap, ms, n - 1);
        let m = ms[n - 1];
        lemma_put_keeps_shape(
            b.placed(snap, ms, n - 1),
            m.to_x as int,
            m.to_y as int,
            snap.at(m.from_x as int, m.from_y as int),
        );
    }
}

proof fn lemma_spawned_keeps_shape(b: Board, snap: Board, ss: Seq<Move>, n: int)
    requires
        b.wf(),
    ensures
        b.spawned(snap, ss, n).wf(),
        b.spawned(snap, ss, n).width == b.width,
        b.spawned(snap, ss, n).height == b.height,
    decreases n,
{
    if n > 0 {
        lemma_spawned_keeps_shape(b, snap, ss, n - 1);
        let g = b.spawned(snap, ss, n - 1);
        let s = ss[n - 1];
        lemma_put_keeps_shape(g, s.from_x as int, s.from_y as int, Cells::EmptyCell);
        lemma_put_keeps_shape(
            g.put(s.from_x as int, s.from_y as int, Cells::EmptyCell),
            s.to_x as int,
            s.to_y as int,
            snap.at(s.from_x as int, s.from_y as int),
        );
    }
}

/// A tick never changes the grid's dimensions and leaves every coordinate
/// holding exactly one cell.
pub proof fn lemma_step_keeps_shape(b: Board)
    requires
        b.wf(),
    ensures
        b.stepped().wf(),
        b.stepped().width == b.width,
        b.stepped().height == b.height,
{
    let ms = b.plan_moves();
    let ss = b.plan_spawns();
    lemma_cleared_keeps_shape(b, ms);
    lemma_placed_keeps_shape(b.cleared(ms), b, ms, ms.len() as int);
    lemma_spawned_keeps_shape(b.cleared(ms).placed(b, ms, ms.len() as int), b, ss, ss.len() as int);
}

proof fn lemma_extended_from_empty(walk: Seq<Move>, n: int)
    requires
        0 <= n <= walk.len(),
    ensures
        extended(Seq::<Move>::empty(), walk, n) == walk.take(n),
    decreases n,
{
    if n > 0 {
        lemma_extended_from_empty(walk, n - 1);
        assert(walk.take(n - 1).push(walk[n - 1]) =~= walk.take(n));
    } else {
        assert(walk.take(0) =~= Seq::<Move>::empty());
    }
}

/// A walk offered to an empty plan is taken whole.
proof fn lemma_take_into_empty(walk: Seq<Move>)
    ensures
        take_walk(Seq::<Move>::empty(), walk) == walk,
{
    lemma_extended_from_empty(walk, walk.len() as int);
    assert(walk.take(walk.len() as int) =~= walk);
}

proof fn lemma_column_single(b: Board, x: int, y: int, a: int, n: int, start: Seq<Move>)
    requires
        b.wf(),
        0 <= a < b.width,
        0 <= y,
        0 <= n <= b.height,
        forall|i: int, j: int|
            #![trigger b.cell_moves(i, j)]
            b.in_bounds(i, j) && !(i == x && j == y) ==> b.cell_moves(i, j) == Seq::<Move>::empty(),
        forall|i: int, j: int|
            #![trigger b.cell_spawns(i, j)]
            b.in_bounds(i, j) && !(i == x && j == y) ==> b.cell_spawns(i, j) == Seq::<Move>::empty(),
    ensures
        b.column_moves(a, n, start) == (if a == x && y < n { take_walk(start, b.cell_moves(x, y)) } else { start }),
        b.column_spawns(a, n) == (if a == x && y < n { b.cell_spawns(x, y) } else { Seq::<Move>::empty() }),
    decreases n,
{
    if n > 0 {
        lemma_column_single(b, x, y, a, n - 1, start);
        let p = b.column_moves(a, n - 1, start);
        if !(a == x && y == n - 1) {
            assert(extended(p, Seq::<Move>::empty(), 0) == p);
            assert(take_walk(p, Seq::<Move>::empty()) == p);
        }
        assert(b.column_spawns(a, n) =~= (if a == x && y < n { b.cell_spawns(x, y) } else { Seq::<Move>::empty() }));
    } else {
        assert(b.column_spawns(a, n) =~= seq![]);
    }
}

proof fn lemma_columns_single(b: Board, x: int, y: int, n: int)
    requires
        b.wf(),
        0 <= x,
        0 <= y < b.height,
        0 <= n <= b.width,
        forall|i: int, j: int|
            #![trigger b.cell_moves(i, j)]
            b.in_bounds(i, j) && !(i == x && j == y) ==> b.cell_moves(i, j) == Seq::<Move>::empty(),
        forall|i: int, j: int|
            #![trigger b.cell_spawns(i, j)]
            b.in_bounds(i, j) && !(i == x && j == y) ==> b.cell_spawns(i, j) == Seq::<Move>::empty(),
    ensures
        b.columns_moves(n) == (if x < n { b.cell_moves(x, y) } else { Seq::<Move>::empty() }),
        b.columns_spawns(n) == (if x < n { b.cell_spawns(x, y) } else { Seq::<Move>::empty() }),
    decreases n,
{
    if n > 0 {
        lemma_columns_single(b, x, y, n - 1);
        lemma_column_single(b, x, y, n - 1, b.height as int, b.columns_moves(n - 1));
        lemma_take_into_empty(b.cell_moves(x, y));
        assert(b.columns_spawns(n) =~= (if x < n { b.cell_spawns(x, y) } else { Seq::<Move>::empty() }));
    } else {
        assert(b.columns_moves(n) =~= seq![]);
        assert(b.columns_spawns(n) =~= seq![]);
    }
}

/// Where every slot but (x, y) records nothing, the tick's plan is what
/// (x, y) records.
pub(crate) proof fn lemma_plan_single(b: Board, x: int, y: int)
    requires
        b.wf(),
        b.in_bounds(x, y),
        forall|i: int, j: int|
            #![trigger b.cell_moves(i, j)]
            b.in_bounds(i, j) && !(i == x && j == y) ==> b.cell_moves(i, j) == Seq::<Move>::empty(),
        forall|i: int, j: int|
            #![trigger b.cell_spawns(i, j)]
            b.in_bounds(i, j) && !(i == x && j == y) ==> b.cell_spawns(i, j) == Seq::<Move>::empty(),
    ensures
        b.plan_moves() == b.cell_moves(x, y),
        b.plan_spawns() == b.cell_spawns(x, y),
{
    lemma_columns_single(b, x, y, b.width as int);
}

proof fn lemma_empty_wf(w: nat, h: nat)
    requires
        w <= usize::MAX,
        h <= usize::MAX,
    ensures
        Board::empty(w, h).wf(),
{
}

/// A Mover alone on the grid with room ahead of it advances one slot per tick
/// along its facing, and nothing else changes.
pub proof fn lemma_lone_mover_advances(w: nat, h: nat, x: int, y: int, d: Directions)
    requires
        w <= usize::MAX,
        h <= usize::MAX,
        0 <= x < w,
        0 <= y < h,
        0 <= x + d.dx() < w,
        0 <= y + d.dy() < h,
    ensures
        Board::lone(w, h, x, y, Cells::MoverCell(d)).stepped() == Board::lone(
            w,
            h,
            x + d.dx(),
            y + d.dy(),
            Cells::MoverCell(d),
        ),
{
    let e = Board::empty(w, h);
    let b = Board::lone(w, h, x, y, Cells::MoverCell(d));
    let tx = x + d.dx();
    let ty = y + d.dy();
    lemma_empty_wf(w, h);
    lemma_put_keeps_shape(e, x, y, Cells::MoverCell(d));
    assert(b.at(tx, ty) == Cells::EmptyCell);
    assert(b.chain_ok(tx, ty, d));
    assert(b.chain_moves(tx, ty, d) == Seq::<Move>::empty());
    assert(b.cell_moves(x, y) =~= seq![mv(x, y, tx, ty)]);
    assert forall|i: int, j: int| b.in_bounds(i, j) && !(i == x && j == y) implies #[trigger] b.cell_moves(i, j)
        == Seq::<Move>::empty() by {
        assert(b.at(i, j) == Cells::EmptyCell);
    }
    assert forall|i: int, j: int| b.in_bounds(i, j) && !(i == x && j == y) implies #[trigger] b.cell_spawns(i, j)
        == Seq::<Move>::empty() by {
        assert(b.at(i, j) == Cells::EmptyCell);
    }
    assert(b.cell_spawns(x, y) == Seq::<Move>::empty());
    lemma_plan_single(b, x, y);
    let ms = b.plan_moves();
    assert(ms.drop_last() =~= Seq::<Move>::empty());
    assert(b.cleared(ms.drop_last()) == b);
    assert(b.cleared(ms) == b.put(x, y, Cells::EmptyCell));
    assert(first_from(ms, 0));
    let c = b.cleared(ms);
    assert(c.placed(b, ms, 0) == c);
    assert(b.at(x, y) == Cells::MoverCell(d));
    assert(c.placed(b, ms, 1) == c.put(tx, ty, Cells::MoverCell(d)));
    let p = c.placed(b, ms, 1);
    assert(p.spawned(b, b.plan_spawns(), 0) == p);
    let r = b.stepped();
    assert(r == b.put(x, y, Cells::EmptyCell).put(tx, ty, Cells::MoverCell(d)));
    assert(r.cells =~~= Board::lone(w, h, tx, ty, Cells::MoverCell(d)).cells);
}

/// A Mover alone on the grid, facing the edge it stands on, stays where it is:
/// the tick changes nothing.
pub proof fn lemma_lone_mover_at_edge(w: nat, h: nat, x: int, y: int, d: Directions)
    requires
        w <= usize::MAX,
        h <= usize::MAX,
        0 <= x < w,
        0 <= y < h,
        !(0 <= x + d.dx() < w && 0 <= y + d.dy() < h),
    ensures
        Board::lone(w, h, x, y, Cells::MoverCell(d)).stepped() == Board::lone(
            w,
            h,
            x,
            y,
            Cells::MoverCell(d),
        ),
{
    let e = Board::empty(w, h);
    let b = Board::lone(w, h, x, y, Cells::MoverCell(d));
    lemma_empty_wf(w, h);
    lemma_put_keeps_shape(e, x, y, Cells::MoverCell(d));
    assert(!b.chain_ok(x + d.dx(), y + d.dy(), d));
    assert(b.cell_moves(x, y) =~= Seq::<Move>::empty());
    assert forall|i: int, j: int| b.in_bounds(i, j) && !(i == x && j == y) implies #[trigger] b.cell_moves(i, j)
        == Seq::<Move>::empty() by {
        assert(b.at(i, j) == Cells::EmptyCell);
    }
    assert forall|i: int, j: int| b.in_bounds(i, j) && !(i == x && j == y) implies #[trigger] b.cell_spawns(i, j)
        == Seq::<Move>::empty() by {
        assert(b.at(i, j) == Cells::EmptyCell);
    }
    assert(b.cell_spawns(x, y) == Seq::<Move>::empty());
    lemma_plan_single(b, x, y);
    let ms = b.plan_moves();
    assert(b.cleared(ms) == b);
    assert(b.placed(b, ms, 0) == b);
    assert(b.spawned(b, b.plan_spawns(), 0) == b);
}

/// The same Mover after any number of ticks is still where it stood.
pub proof fn lemma_lone_mover_at_edge_stays(w: nat, h: nat, x: int, y: int, d: Directions, n: nat)
    requires
        w <= usize::MAX,
        h <= usize::MAX,
        0 <= x < w,
        0 <= y < h,
        !(0 <= x + d.dx() < w && 0 <= y + d.dy() < h),
    ensures
        Board::lone(w, h, x, y, Cells::MoverCell(d)).steps(n) == Board::lone(
            w,
            h,
            x,
            y,
            Cells::MoverCell(d),
        ),
    decreases n,
{
    if n > 0 {
        lemma_lone_mover_at_edge_stays(w, h, x, y, d, (n - 1) as nat);
        lemma_lone_mover_at_edge(w, h, x, y, d);
    }
}

/// A Mover alone on the grid travels `n` slots along its facing in `n`
/// ticks, as long as the slot it reaches lies inside the grid.
pub proof fn lemma_lone_mover_travels(w: nat, h: nat, x: int, y: int, d: Directions, n: nat)
    requires
        w <= usize::MAX,
        h <= usize::MAX,
        0 <= x < w,
        0 <= y < h,
        0 <= x + n * d.dx() < w,
        0 <= y + n * d.dy() < h,
    ensures
        Board::lone(w, h, x, y, Cells::MoverCell(d)).steps(n) == Board::lone(
            w,
            h,
            x + n * d.dx(),
            y + n * d.dy(),
            Cells::MoverCell(d),
        ),
    decreases n,
{
    if n > 0 {
        let m = (n - 1) as nat;
        let dx = d.dx();
        let dy = d.dy();
        assert(-1 <= dx <= 1 && -1 <= dy <= 1);
        assert(m * dx + dx == n * dx && m * dy + dy == n * dy) by (nonlinear_arith)
            requires
                m + 1 == n,
        ;
        assert(0 <= x + m * dx < w && 0 <= y + m * dy < h) by (nonlinear_arith)
            requires
                -1 <= dx <= 1,
                -1 <= dy <= 1,
                0 <= x < w,
                0 <= y < h,
                0 <= x + n * dx < w,
                0 <= y + n * dy < h,
                m * dx + dx == n * dx,
                m * dy + dy == n * dy,
                m >= 0,
        ;
        lemma_lone_mover_travels(w, h, x, y, d, m);
        lemma_lone_mover_advances(w, h, x + m * dx, y + m * dy, d);
        assert(x + m * dx + dx == x + n * dx && y + m * dy + dy == y + n * dy);
    } else {
        let dx = d.dx();
        let dy = d.dy();
        assert(n * dx == 0 && n * dy == 0) by (nonlinear_arith)
            requires
                n == 0,
        ;
    }
}

/// A Generator with a Pusher, or a Mover facing it, directly behind it
/// copies that cell to the slot directly ahead of it, overwriting an Empty
/// slot, a Pusher or a Mover facing back at it there, and empties the slot
/// behind it; the Generator itself stays in place, and so do Pushers
/// elsewhere on the board.
pub proof fn lemma_generator_duplicates(
    bg: Board,
    x: int,
    y: int,
    d: Directions,
    behind: Cells,
    ahead: Cells,
)
    requires
        bg.wf(),
        forall|i: int, j: int|
            #[trigger] bg.in_bounds(i, j) ==> bg.at(i, j) is EmptyCell || bg.at(i, j) is PushCell,
        bg.in_bounds(x, y),
        bg.in_bounds(x - d.dx(), y - d.dy()),
        bg.in_bounds(x + d.dx(), y + d.dy()),
        behind == Cells::PushCell || behind == Cells::MoverCell(d),
        ahead == Cells::EmptyCell || ahead == Cells::PushCell || ahead == Cells::MoverCell(
            d.reversed(),
        ),
    ensures
        bg.put(x, y, Cells::GeneratorCell(d)).put(x - d.dx(), y - d.dy(), behind).put(
            x + d.dx(),
            y + d.dy(),
            ahead,
        ).stepped() == bg.put(x, y, Cells::GeneratorCell(d)).put(
            x - d.dx(),
            y - d.dy(),
            Cells::EmptyCell,
        ).put(x + d.dx(), y + d.dy(), behind),
{
    let bx = x - d.dx();
    let by = y - d.dy();
    let ax = x + d.dx();
    let ay = y + d.dy();
    let g = bg.put(x, y, Cells::GeneratorCell(d));
    let b1 = g.put(bx, by, behind);
    let b = b1.put(ax, ay, ahead);
    lemma_put_keeps_shape(bg, x, y, Cells::GeneratorCell(d));
    lemma_put_keeps_shape(g, bx, by, behind);
    lemma_put_keeps_shape(b1, ax, ay, ahead);
    assert(b.at(x, y) == Cells::GeneratorCell(d));
    assert(b.at(bx, by) == behind);
    assert(b.at(ax, ay) == ahead);
    assert forall|i: int, j: int| b.in_bounds(i, j) implies #[trigger] b.cell_moves(i, j)
        == Seq::<Move>::empty() by {
        if i == bx && j == by {
            if behind == Cells::MoverCell(d) {
                assert(!b.chain_ok(x, y, d));
            }
        } else if i == ax && j == ay {
            if ahead == Cells::MoverCell(d.reversed()) {
                assert(ax + d.reversed().dx() == x && ay + d.reversed().dy() == y);
                assert(!b.chain_ok(x, y, d.reversed()));
            }
        } else if !(i == x && j == y) {
            assert(bg.in_bounds(i, j));
            assert(b.at(i, j) == bg.at(i, j));
        }
    }
    assert forall|i: int, j: int| b.in_bounds(i, j) && !(i == x && j == y) implies #[trigger] b.cell_spawns(i, j)
        == Seq::<Move>::empty() by {
        if !(i == bx && j == by) && !(i == ax && j == ay) {
            assert(bg.in_bounds(i, j));
            assert(b.at(i, j) == bg.at(i, j));
        }
    }
    assert(b.cell_spawns(x, y) == seq![mv(bx, by, ax, ay)]);
    lemma_plan_single(b, x, y);
    let ms = b.plan_moves();
    let ss = b.plan_spawns();
    assert(b.cleared(ms) == b);
    assert(b.placed(b, ms, 0) == b);
    assert(b.spawned(b, ss, 0) == b);
    assert(b.spawned(b, ss, 1) == b.put(bx, by, Cells::EmptyCell).put(ax, ay, behind));
    assert(b.put(bx, by, Cells::EmptyCell).put(ax, ay, behind).cells =~~= g.put(
        bx,
        by,
        Cells::EmptyCell,
    ).put(ax, ay, behind).cells);
}

/// Whether the `k` slots from (x, y) along `d` lie inside the grid and hold
/// cells that a push can carry.
pub open spec fn pushable_run(b: Board, x: int, y: int, d: Directions, k: nat) -> bool {
    forall|i: int|
        0 <= i < k ==> b.in_bounds(x + i * d.dx(), y + i * d.dy()) && (#[trigger] b.at(
            x + i * d.dx(),
            y + i * d.dy(),
        )).pushable()
}

proof fn lemma_run_blocked(b: Board, x: int, y: int, d: Directions, k: nat)
    requires
        pushable_run(b, x, y, d, k),
        !b.in_bounds(x + k * d.dx(), y + k * d.dy()) || !(b.at(x + k * d.dx(), y + k * d.dy()) is EmptyCell
            || b.at(x + k * d.dx(), y + k * d.dy()).pushable()),
    ensures
        !b.chain_ok(x, y, d),
    decreases k,
{
    let dx = d.dx();
    let dy = d.dy();
    if k == 0 {
        assert(k * dx == 0 && k * dy == 0) by (nonlinear_arith)
            requires
                k == 0,
        ;
    } else {
        assert(0 * dx == 0 && 0 * dy == 0) by (nonlinear_arith);
        assert(b.at(x + 0 * dx, y + 0 * dy).pushable());
        let m = (k - 1) as nat;
        assert((x + dx) + m * dx == x + k * dx && (y + dy) + m * dy == y + k * dy) by (nonlinear_arith)
            requires
                m + 1 == k,
        ;
        assert forall|i: int| 0 <= i < m implies b.in_bounds((x + dx) + i * dx, (y + dy) + i * dy)
            && (#[trigger] b.at((x + dx) + i * dx, (y + dy) + i * dy)).pushable() by {
            assert((x + dx) + i * dx == x + (i + 1) * dx && (y + dy) + i * dy == y + (i + 1) * dy)
                by (nonlinear_arith);
            assert(b.at(x + (i + 1) * dx, y + (i + 1) * dy).pushable());
        }
        lemma_run_blocked(b, x + dx, y + dy, d, m);
    }
}

/// A Mover whose target starts a run of `k` pushable cells that ends on a
/// slot holding neither Empty nor a pushable cell (or on the grid's edge)
/// records no move at all: neither it nor any member of the run is moved by it.
pub proof fn lemma_blocked_mover_records_nothing(b: Board, x: int, y: int, d: Directions, k: nat)
    requires
        b.wf(),
        b.in_bounds(x, y),
        b.at(x, y) == Cells::MoverCell(d),
        pushable_run(b, x + d.dx(), y + d.dy(), d, k),
        !b.in_bounds(x + (k + 1) * d.dx(), y + (k + 1) * d.dy()) || !(b.at(
            x + (k + 1) * d.dx(),
            y + (k + 1) * d.dy(),
        ) is EmptyCell || b.at(x + (k + 1) * d.dx(), y + (k + 1) * d.dy()).pushable()),
    ensures
        b.cell_moves(x, y) == Seq::<Move>::empty(),
{
    let dx = d.dx();
    let dy = d.dy();
    assert((x + dx) + k * dx == x + (k + 1) * dx && (y + dy) + k * dy == y + (k + 1) * dy)
        by (nonlinear_arith);
    lemma_run_blocked(b, x + dx, y + dy, d, k);
}

/// `m + r` ticks are `m` ticks followed by `r` more.
proof fn lemma_steps_add(b: Board, m: nat, r: nat)
    ensures
        b.steps(m + r) == b.steps(m).steps(r),
    decreases r,
{
    if r > 0 {
        lemma_steps_add(b, m, (r - 1) as nat);
        assert((m + r - 1) as nat == m + (r - 1) as nat);
    }
}

/// A Mover alone on the grid with `m` slots ahead of it before the edge
/// reaches the last of them after `m` ticks and stays there after any
/// number `n >= m` of ticks.
pub proof fn lemma_lone_mover_stops_at_edge(
    w: nat,
    h: nat,
    x: int,
    y: int,
    d: Directions,
    m: nat,
    n: nat,
)
    requires
        w <= usize::MAX,
        h <= usize::MAX,
        0 <= x < w,
        0 <= y < h,
        0 <= x + m * d.dx() < w,
        0 <= y + m * d.dy() < h,
        !(0 <= x + (m + 1) * d.dx() < w && 0 <= y + (m + 1) * d.dy() < h),
        m <= n,
    ensures
        Board::lone(w, h, x, y, Cells::MoverCell(d)).steps(n) == Board::lone(
            w,
            h,
            x + m * d.dx(),
            y + m * d.dy(),
            Cells::MoverCell(d),
        ),
{
    let b = Board::lone(w, h, x, y, Cells::MoverCell(d));
    let ex = x + m * d.dx();
    let ey = y + m * d.dy();
    let dx = d.dx();
    let dy = d.dy();
    assert(ex + dx == x + (m + 1) * dx && ey + dy == y + (m + 1) * dy) by (nonlinear_arith)
        requires
            ex == x + m * dx,
            ey == y + m * dy,
    ;
    lemma_lone_mover_travels(w, h, x, y, d, m);
    lemma_lone_mover_at_edge_stays(w, h, ex, ey, d, (n - m) as nat);
    lemma_steps_add(b, m, (n - m) as nat);
    assert(m + (n - m) as nat == n);
}

} // verus!
