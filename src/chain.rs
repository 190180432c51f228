use vstd::prelude::*;

use crate::board::{
    dest_of, enters, extended, first_from, fits, leaves, mv, recorded, take_walk, walk_fits, Board,
    Move,
};
use crate::cells::Cells;
use crate::directions::Directions;
use crate::laws::{lemma_cleared_keeps_shape, lemma_plan_single, lemma_put_keeps_shape};

verus! {

/// The slot `t` steps from (x, y) along `d`.
pub open spec fn along(x: int, y: int, d: Directions, t: int) -> (int, int) {
    match d {
        Directions::Right => (x + t, y),
        Directions::Left => (x - t, y),
        Directions::Down => (x, y + t),
        Directions::Up => (x, y - t),
    }
}

/// Whether (i, j) lies on the line through (x, y) along `d`.
pub open spec fn on_line(x: int, y: int, d: Directions, i: int, j: int) -> bool {
    match d {
        Directions::Right | Directions::Left => j == y,
        Directions::Down | Directions::Up => i == x,
    }
}

/// How many steps along `d` lead from (x, y) to (i, j), for (i, j) on that line.
pub open spec fn offset(x: int, y: int, d: Directions, i: int, j: int) -> int {
    match d {
        Directions::Right => i - x,
        Directions::Left => x - i,
        Directions::Down => j - y,
        Directions::Up => y - j,
    }
}

/// Whether every cell of `kinds` can be carried by a push along `d`: a
/// Pusher, or a Mover facing `d`.
pub open spec fn carried(kinds: Seq<Cells>, d: Directions) -> bool {
    forall|t: int|
        0 <= t < kinds.len() ==> #[trigger] kinds[t] == Cells::PushCell || kinds[t] == Cells::MoverCell(
            d,
        )
}

/// What slot (i, j) holds in a train: a Mover facing `d` at (x, y), then
/// `kinds` in line ahead of it, and what `bg` holds everywhere else.
pub open spec fn train_cell(
    x: int,
    y: int,
    d: Directions,
    kinds: Seq<Cells>,
    bg: Board,
    i: int,
    j: int,
) -> Cells {
    if on_line(x, y, d, i, j) && offset(x, y, d, i, j) == 0 {
        Cells::MoverCell(d)
    } else if on_line(x, y, d, i, j) && 1 <= offset(x, y, d, i, j) <= kinds.len() {
        kinds[offset(x, y, d, i, j) - 1]
    } else {
        bg.cells[i][j]
    }
}

/// A `w` by `h` board holding a train from (x, y) over the background `bg`.
pub open spec fn train(w: nat, h: nat, x: int, y: int, d: Directions, kinds: Seq<Cells>, bg: Board) -> Board {
    Board {
        width: w,
        height: h,
        cells: Seq::new(w, |i: int| Seq::new(h, |j: int| train_cell(x, y, d, kinds, bg, i, j))),
    }
}

/// A move of the train from (x, y): from a slot `s` steps ahead, for `s` up
/// to `k`, to the slot one step further.
pub open spec fn train_move(x: int, y: int, d: Directions, k: int, m: Move) -> bool {
    &&& on_line(x, y, d, m.from_x as int, m.from_y as int)
    &&& 0 <= offset(x, y, d, m.from_x as int, m.from_y as int) <= k
    &&& m.to_x as int == along(x, y, d, offset(x, y, d, m.from_x as int, m.from_y as int) + 1).0
    &&& m.to_y as int == along(x, y, d, offset(x, y, d, m.from_x as int, m.from_y as int) + 1).1
}

/// The conditions under which a train can advance: (x, y) and the slot just
/// beyond the train lie inside a board whose coordinates fit in a `usize`.
pub open spec fn train_fits(w: nat, h: nat, x: int, y: int, d: Directions, k: int) -> bool {
    &&& w <= usize::MAX
    &&& h <= usize::MAX
    &&& 0 <= x < w
    &&& 0 <= y < h
    &&& 0 <= along(x, y, d, k + 1).0 < w
    &&& 0 <= along(x, y, d, k + 1).1 < h
}

/// The background of a train holds only Pushers and Empty slots, and is
/// Empty on the slots the train covers now or after one step.
pub open spec fn quiet_background(w: nat, h: nat, x: int, y: int, d: Directions, k: int, bg: Board) -> bool {
    forall|i: int, j: int|
        0 <= i < w && 0 <= j < h ==> (#[trigger] bg.cells[i][j] is EmptyCell || bg.cells[i][j] is PushCell)
            && (on_line(x, y, d, i, j) && 0 <= offset(x, y, d, i, j) <= k + 1 ==> bg.cells[i][j] is EmptyCell)
}

proof fn lemma_along(x: int, y: int, d: Directions, t: int)
    ensures
        along(x, y, d, t).0 + d.dx() == along(x, y, d, t + 1).0,
        along(x, y, d, t).1 + d.dy() == along(x, y, d, t + 1).1,
        on_line(x, y, d, along(x, y, d, t).0, along(x, y, d, t).1),
        offset(x, y, d, along(x, y, d, t).0, along(x, y, d, t).1) == t,
        forall|i: int, j: int|
            on_line(x, y, d, i, j) && offset(x, y, d, i, j) == t ==> (i, j) == along(x, y, d, t),
{
}

proof fn lemma_put_at(b: Board, a: int, c: int, v: Cells, i: int, j: int)
    requires
        b.wf(),
        b.in_bounds(i, j),
    ensures
        b.put(a, c, v).at(i, j) == if a == i && c == j { v } else { b.at(i, j) },
{
}

proof fn lemma_along_in_bounds(b: Board, x: int, y: int, d: Directions, k: int, t: int)
    requires
        b.in_bounds(x, y),
        b.in_bounds(along(x, y, d, k + 1).0, along(x, y, d, k + 1).1),
        0 <= t <= k + 1,
    ensures
        b.in_bounds(along(x, y, d, t).0, along(x, y, d, t).1),
{
}

proof fn lemma_leaves_witness(ms: Seq<Move>, n: int, j: int)
    requires
        0 <= j < n <= ms.len(),
    ensures
        leaves(ms, n, ms[j].from_x, ms[j].from_y),
    decreases n,
{
    if j < n - 1 {
        lemma_leaves_witness(ms, n - 1, j);
    }
}

/// The run from offset `t` ends on an Empty slot, and records one move per
/// cell of the run, farthest first.
proof fn lemma_train_chain(w: nat, h: nat, x: int, y: int, d: Directions, kinds: Seq<Cells>, bg: Board, t: int)
    requires
        train_fits(w, h, x, y, d, kinds.len() as int),
        quiet_background(w, h, x, y, d, kinds.len() as int, bg),
        carried(kinds, d),
        1 <= t <= kinds.len() + 1,
    ensures
        train(w, h, x, y, d, kinds, bg).chain_ok(along(x, y, d, t).0, along(x, y, d, t).1, d),
        train(w, h, x, y, d, kinds, bg).chain_moves(along(x, y, d, t).0, along(x, y, d, t).1, d).len()
            == kinds.len() + 1 - t,
        forall|j: int|
            0 <= j < kinds.len() + 1 - t ==> #[trigger] train(w, h, x, y, d, kinds, bg).chain_moves(
                along(x, y, d, t).0,
                along(x, y, d, t).1,
                d,
            )[j] == mv(
                along(x, y, d, kinds.len() - j).0,
                along(x, y, d, kinds.len() - j).1,
                along(x, y, d, kinds.len() - j + 1).0,
                along(x, y, d, kinds.len() - j + 1).1,
            ),
    decreases kinds.len() + 1 - t,
{
    let k = kinds.len() as int;
    let b = train(w, h, x, y, d, kinds, bg);
    let p = along(x, y, d, t);
    lemma_along(x, y, d, t);
    lemma_along_in_bounds(b, x, y, d, k, t);
    if t == k + 1 {
        assert(b.at(p.0, p.1) == Cells::EmptyCell);
        assert(b.chain_moves(p.0, p.1, d) =~= Seq::<Move>::empty());
    } else {
        assert(b.at(p.0, p.1) == kinds[t - 1]);
        assert(b.at(p.0, p.1).pushable());
        lemma_train_chain(w, h, x, y, d, kinds, bg, t + 1);
        lemma_along(x, y, d, t + 1);
        let q = along(x, y, d, t + 1);
        assert(b.chain_ok(p.0, p.1, d) == b.chain_ok(q.0, q.1, d));
        let rest = b.chain_moves(q.0, q.1, d);
        assert(b.chain_moves(p.0, p.1, d) == rest.push(mv(p.0, p.1, q.0, q.1)));
        assert forall|j: int| 0 <= j < k + 1 - t implies #[trigger] b.chain_moves(p.0, p.1, d)[j] == mv(
            along(x, y, d, k - j).0,
            along(x, y, d, k - j).1,
            along(x, y, d, k - j + 1).0,
            along(x, y, d, k - j + 1).1,
        ) by {
            if j < k - t {
                assert(b.chain_moves(p.0, p.1, d)[j] == rest[j]);
            }
        }
    }
}

/// What a cell of the train at offset `t` records: nothing for a Pusher;
/// for a Mover, its own move and then the run ahead of it, farthest first.
proof fn lemma_train_cell_moves(w: nat, h: nat, x: int, y: int, d: Directions, kinds: Seq<Cells>, bg: Board, i: int, j: int)
    requires
        train_fits(w, h, x, y, d, kinds.len() as int),
        quiet_background(w, h, x, y, d, kinds.len() as int, bg),
        carried(kinds, d),
        train(w, h, x, y, d, kinds, bg).in_bounds(i, j),
    ensures
        forall|m: int|
            0 <= m < train(w, h, x, y, d, kinds, bg).cell_moves(i, j).len() ==> train_move(
                x,
                y,
                d,
                kinds.len() as int,
                #[trigger] train(w, h, x, y, d, kinds, bg).cell_moves(i, j)[m],
            ),
        train(w, h, x, y, d, kinds, bg).cell_spawns(i, j) == Seq::<Move>::empty(),
{
    let k = kinds.len() as int;
    let b = train(w, h, x, y, d, kinds, bg);
    if b.at(i, j) is MoverCell {
        let t = offset(x, y, d, i, j);
        assert(on_line(x, y, d, i, j) && 0 <= t <= k);
        lemma_along(x, y, d, t);
        assert((i, j) == along(x, y, d, t));
        assert(b.at(i, j) == Cells::MoverCell(d));
        lemma_along(x, y, d, t + 1);
        lemma_train_chain(w, h, x, y, d, kinds, bg, t + 1);
        let q = along(x, y, d, t + 1);
        let chain = b.chain_moves(q.0, q.1, d);
        assert(b.cell_moves(i, j) == seq![mv(i, j, q.0, q.1)] + chain);
        assert forall|m: int| 0 <= m < b.cell_moves(i, j).len() implies train_move(
            x,
            y,
            d,
            k,
            #[trigger] b.cell_moves(i, j)[m],
        ) by {
            if m == 0 {
                lemma_along_in_bounds(b, x, y, d, k, t + 1);
            } else {
                let s = k - (m - 1);
                assert(b.cell_moves(i, j)[m] == chain[m - 1]);
                lemma_along(x, y, d, s);
                lemma_along_in_bounds(b, x, y, d, k, s);
                lemma_along_in_bounds(b, x, y, d, k, s + 1);
            }
        }
    }
}

/// Every move of `ms` is a move of the train from (x, y).
pub open spec fn all_train(x: int, y: int, d: Directions, k: int, ms: Seq<Move>) -> bool {
    forall|i: int| 0 <= i < ms.len() ==> train_move(x, y, d, k, #[trigger] ms[i])
}

/// Every slot of the train, Mover included, is left by a move of `ms`.
pub open spec fn covers(x: int, y: int, d: Directions, k: int, ms: Seq<Move>) -> bool {
    forall|s: int|
        0 <= s <= k ==> #[trigger] leaves(
            ms,
            ms.len() as int,
            along(x, y, d, s).0 as usize,
            along(x, y, d, s).1 as usize,
        )
}

proof fn lemma_leaves_push(ms: Seq<Move>, m: Move, n: int, a: usize, b: usize)
    requires
        0 <= n <= ms.len(),
    ensures
        leaves(ms.push(m), n, a, b) == leaves(ms, n, a, b),
    decreases n,
{
    if n > 0 {
        lemma_leaves_push(ms, m, n - 1, a, b);
        assert(ms.push(m)[n - 1] == ms[n - 1]);
    }
}

proof fn lemma_dest_of_leaves(ms: Seq<Move>, n: int, a: usize, b: usize)
    requires
        dest_of(ms, n, a, b) is Some,
    ensures
        leaves(ms, n, a, b),
    decreases n,
{
    if n > 0 && !(ms[n - 1].from_x == a && ms[n - 1].from_y == b) {
        lemma_dest_of_leaves(ms, n - 1, a, b);
    }
}

proof fn lemma_dest_of_witness(ms: Seq<Move>, n: int, a: usize, b: usize) -> (j: int)
    requires
        dest_of(ms, n, a, b) is Some,
        n <= ms.len(),
    ensures
        0 <= j < n,
        ms[j].from_x == a && ms[j].from_y == b,
        dest_of(ms, n, a, b) == Some((ms[j].to_x, ms[j].to_y)),
    decreases n,
{
    if ms[n - 1].from_x == a && ms[n - 1].from_y == b {
        n - 1
    } else {
        lemma_dest_of_witness(ms, n - 1, a, b)
    }
}

proof fn lemma_dest_of_some(ms: Seq<Move>, n: int, j: int)
    requires
        0 <= j < n <= ms.len(),
    ensures
        dest_of(ms, n, ms[j].from_x, ms[j].from_y) is Some,
    decreases n,
{
    if j < n - 1 {
        lemma_dest_of_some(ms, n - 1, j);
    }
}

proof fn lemma_enters_witness(ms: Seq<Move>, n: int, a: usize, b: usize) -> (j: int)
    requires
        enters(ms, n, a, b),
        n <= ms.len(),
    ensures
        0 <= j < n,
        ms[j].to_x == a && ms[j].to_y == b,
    decreases n,
{
    if ms[n - 1].to_x == a && ms[n - 1].to_y == b {
        n - 1
    } else {
        lemma_enters_witness(ms, n - 1, a, b)
    }
}

/// Offering a walk only appends: what the plan leaves stays left, and train
/// moves stay train moves.
proof fn lemma_extended_grows(
    x: int,
    y: int,
    d: Directions,
    k: int,
    plan: Seq<Move>,
    walk: Seq<Move>,
    n: int,
)
    requires
        0 <= n <= walk.len(),
        all_train(x, y, d, k, plan),
        all_train(x, y, d, k, walk),
    ensures
        all_train(x, y, d, k, extended(plan, walk, n)),
        extended(plan, walk, n).len() >= plan.len(),
        forall|a: usize, b: usize|
            #![trigger leaves(extended(plan, walk, n), extended(plan, walk, n).len() as int, a, b)]
            leaves(plan, plan.len() as int, a, b) ==> leaves(
                extended(plan, walk, n),
                extended(plan, walk, n).len() as int,
                a,
                b,
            ),
        forall|j: int|
            0 <= j < n ==> #[trigger] leaves(
                extended(plan, walk, n),
                extended(plan, walk, n).len() as int,
                walk[j].from_x,
                walk[j].from_y,
            ) || recorded(plan, walk[j]),
    decreases n,
{
    if n > 0 {
        lemma_extended_grows(x, y, d, k, plan, walk, n - 1);
        let e = extended(plan, walk, n - 1);
        if !recorded(plan, walk[n - 1]) {
            let m = walk[n - 1];
            assert(train_move(x, y, d, k, m));
            assert forall|a: usize, b: usize| leaves(e, e.len() as int, a, b) implies #[trigger] leaves(
                e.push(m),
                e.len() + 1int,
                a,
                b,
            ) by {
                lemma_leaves_push(e, m, e.len() as int, a, b);
            }
            assert(leaves(e.push(m), e.len() + 1int, m.from_x, m.from_y));
        }
    }
}

/// A train walk always agrees with a plan of train moves.
proof fn lemma_train_walk_fits(
    b: Board,
    x: int,
    y: int,
    d: Directions,
    k: int,
    plan: Seq<Move>,
    m: Move,
)
    requires
        b.in_bounds(x, y),
        b.in_bounds(along(x, y, d, k + 1).0, along(x, y, d, k + 1).1),
        b.width <= usize::MAX,
        b.height <= usize::MAX,
        all_train(x, y, d, k, plan),
        train_move(x, y, d, k, m),
    ensures
        fits(plan, m),
{
    let n = plan.len() as int;
    let s = offset(x, y, d, m.from_x as int, m.from_y as int);
    lemma_along(x, y, d, s);
    lemma_along(x, y, d, s + 1);
    lemma_along_in_bounds(b, x, y, d, k, s + 1);
    if dest_of(plan, n, m.from_x, m.from_y) is Some {
        let j = lemma_dest_of_witness(plan, n, m.from_x, m.from_y);
        assert(train_move(x, y, d, k, plan[j]));
    } else if enters(plan, n, m.to_x, m.to_y) {
        let j = lemma_enters_witness(plan, n, m.to_x, m.to_y);
        let mj = plan[j];
        assert(train_move(x, y, d, k, mj));
        let sj = offset(x, y, d, mj.from_x as int, mj.from_y as int);
        lemma_along(x, y, d, sj);
        lemma_along(x, y, d, sj + 1);
        lemma_along_in_bounds(b, x, y, d, k, sj + 1);
        assert(sj == s);
        assert(mj.from_x as int == m.from_x as int);
        lemma_dest_of_some(plan, n, j);
    }
}

proof fn lemma_train_column(
    w: nat,
    h: nat,
    x: int,
    y: int,
    d: Directions,
    kinds: Seq<Cells>,
    bg: Board,
    a: int,
    n: int,
    start: Seq<Move>,
)
    requires
        train_fits(w, h, x, y, d, kinds.len() as int),
        quiet_background(w, h, x, y, d, kinds.len() as int, bg),
        carried(kinds, d),
        0 <= a < w,
        0 <= n <= h,
        all_train(x, y, d, kinds.len() as int, start),
    ensures
        all_train(x, y, d, kinds.len() as int, train(w, h, x, y, d, kinds, bg).column_moves(a, n, start)),
        train(w, h, x, y, d, kinds, bg).column_spawns(a, n) == Seq::<Move>::empty(),
        covers(x, y, d, kinds.len() as int, start) || (a == x && y < n) ==> covers(
            x,
            y,
            d,
            kinds.len() as int,
            train(w, h, x, y, d, kinds, bg).column_moves(a, n, start),
        ),
    decreases n,
{
    let k = kinds.len() as int;
    let b = train(w, h, x, y, d, kinds, bg);
    if n > 0 {
        lemma_train_column(w, h, x, y, d, kinds, bg, a, n - 1, start);
        lemma_train_cell_moves(w, h, x, y, d, kinds, bg, a, n - 1);
        let pre = b.column_moves(a, n - 1, start);
        let cm = b.cell_moves(a, n - 1);
        assert(all_train(x, y, d, k, cm));
        lemma_extended_grows(x, y, d, k, pre, cm, cm.len() as int);
        assert(b.column_spawns(a, n) =~= Seq::<Move>::empty());
        let r = b.column_moves(a, n, start);
        assert(r == take_walk(pre, cm));
        if covers(x, y, d, k, start) || (a == x && y < n - 1) {
            assert forall|s: int| 0 <= s <= k implies #[trigger] leaves(
                r,
                r.len() as int,
                along(x, y, d, s).0 as usize,
                along(x, y, d, s).1 as usize,
            ) by {
                assert(leaves(pre, pre.len() as int, along(x, y, d, s).0 as usize, along(x, y, d, s).1 as usize));
            }
        } else if a == x && y == n - 1 {
            assert forall|i: int| 0 <= i < cm.len() implies fits(pre, #[trigger] cm[i]) by {
                lemma_train_walk_fits(b, x, y, d, k, pre, cm[i]);
            }
            lemma_along(x, y, d, 0);
            lemma_along(x, y, d, 1);
            assert(b.at(x, y) == Cells::MoverCell(d));
            lemma_train_chain(w, h, x, y, d, kinds, bg, 1);
            let q = along(x, y, d, 1);
            let chain = b.chain_moves(q.0, q.1, d);
            assert(cm == seq![mv(x, y, q.0, q.1)] + chain);
            assert forall|s: int| 0 <= s <= k implies #[trigger] leaves(
                r,
                r.len() as int,
                along(x, y, d, s).0 as usize,
                along(x, y, d, s).1 as usize,
            ) by {
                let p = along(x, y, d, s);
                lemma_along(x, y, d, s);
                lemma_along_in_bounds(b, x, y, d, k, s);
                let j = if s == 0 { 0 } else { k + 1 - s };
                if s > 0 {
                    assert(cm[k + 1 - s] == chain[k - s]);
                }
                assert(cm[j].from_x == p.0 as usize && cm[j].from_y == p.1 as usize);
                if recorded(pre, cm[j]) {
                    lemma_dest_of_leaves(pre, pre.len() as int, cm[j].from_x, cm[j].from_y);
                }
            }
        }
    }
}

proof fn lemma_train_columns(w: nat, h: nat, x: int, y: int, d: Directions, kinds: Seq<Cells>, bg: Board, n: int)
    requires
        train_fits(w, h, x, y, d, kinds.len() as int),
        quiet_background(w, h, x, y, d, kinds.len() as int, bg),
        carried(kinds, d),
        0 <= n <= w,
    ensures
        forall|m: int|
            0 <= m < train(w, h, x, y, d, kinds, bg).columns_moves(n).len() ==> train_move(
                x,
                y,
                d,
                kinds.len() as int,
                #[trigger] train(w, h, x, y, d, kinds, bg).columns_moves(n)[m],
            ),
        train(w, h, x, y, d, kinds, bg).columns_spawns(n) == Seq::<Move>::empty(),
        x < n ==> forall|s: int|
            0 <= s <= kinds.len() ==> #[trigger] leaves(
                train(w, h, x, y, d, kinds, bg).columns_moves(n),
                train(w, h, x, y, d, kinds, bg).columns_moves(n).len() as int,
                along(x, y, d, s).0 as usize,
                along(x, y, d, s).1 as usize,
            ),
    decreases n,
{
    let k = kinds.len() as int;
    let b = train(w, h, x, y, d, kinds, bg);
    if n > 0 {
        lemma_train_columns(w, h, x, y, d, kinds, bg, n - 1);
        let pre = b.columns_moves(n - 1);
        assert(all_train(x, y, d, k, pre));
        if x < n - 1 {
            assert(covers(x, y, d, k, pre));
        }
        lemma_train_column(w, h, x, y, d, kinds, bg, n - 1, h as int, pre);
        assert(b.columns_spawns(n) =~= Seq::<Move>::empty());
        let r = b.columns_moves(n);
        assert(all_train(x, y, d, k, r));
        if x < n {
            assert(covers(x, y, d, k, r));
        }
    } else {
        assert(b.columns_moves(n) =~= Seq::<Move>::empty());
        assert(b.columns_spawns(n) =~= Seq::<Move>::empty());
    }
}

proof fn lemma_cleared_at(b: Board, ms: Seq<Move>, n: int, i: int, j: int)
    requires
        b.wf(),
        0 <= n <= ms.len(),
        b.in_bounds(i, j),
    ensures
        b.cleared(ms.take(n)).wf(),
        b.cleared(ms.take(n)).width == b.width,
        b.cleared(ms.take(n)).height == b.height,
        b.cleared(ms.take(n)).at(i, j) == if leaves(ms, n, i as usize, j as usize) {
            Cells::EmptyCell
        } else {
            b.at(i, j)
        },
    decreases n,
{
    if n == 0 {
        assert(ms.take(0) =~= Seq::<Move>::empty());
    } else {
        lemma_cleared_at(b, ms, n - 1, i, j);
        let c0 = b.cleared(ms.take(n - 1));
        assert(ms.take(n).drop_last() =~= ms.take(n - 1));
        let m = ms[n - 1];
        assert(ms.take(n).last() == m);
        lemma_put_keeps_shape(c0, m.from_x as int, m.from_y as int, Cells::EmptyCell);
        lemma_put_at(c0, m.from_x as int, m.from_y as int, Cells::EmptyCell, i, j);
    }
}

proof fn lemma_train_placed(
    w: nat,
    h: nat,
    x: int,
    y: int,
    d: Directions,
    kinds: Seq<Cells>,
    bg: Board,
    c: Board,
    n: int,
    i: int,
    j: int,
)
    requires
        train_fits(w, h, x, y, d, kinds.len() as int),
        quiet_background(w, h, x, y, d, kinds.len() as int, bg),
        carried(kinds, d),
        0 <= n <= train(w, h, x, y, d, kinds, bg).plan_moves().len(),
        c.wf(),
        c.width == w,
        c.height == h,
        c.in_bounds(i, j),
    ensures
        c.placed(train(w, h, x, y, d, kinds, bg), train(w, h, x, y, d, kinds, bg).plan_moves(), n).wf(),
        c.placed(train(w, h, x, y, d, kinds, bg), train(w, h, x, y, d, kinds, bg).plan_moves(), n).width == w,
        c.placed(train(w, h, x, y, d, kinds, bg), train(w, h, x, y, d, kinds, bg).plan_moves(), n).height == h,
        c.placed(train(w, h, x, y, d, kinds, bg), train(w, h, x, y, d, kinds, bg).plan_moves(), n).at(i, j)
            == if on_line(x, y, d, i, j) && 1 <= offset(x, y, d, i, j) <= kinds.len() + 1 && leaves(
            train(w, h, x, y, d, kinds, bg).plan_moves(),
            n,
            along(x, y, d, offset(x, y, d, i, j) - 1).0 as usize,
            along(x, y, d, offset(x, y, d, i, j) - 1).1 as usize,
        ) {
            train(w, h, x, y, d, kinds, bg).at(
                along(x, y, d, offset(x, y, d, i, j) - 1).0,
                along(x, y, d, offset(x, y, d, i, j) - 1).1,
            )
        } else {
            c.at(i, j)
        },
    decreases n,
{
    let k = kinds.len() as int;
    let b = train(w, h, x, y, d, kinds, bg);
    let ms = b.plan_moves();
    if n > 0 {
        lemma_train_placed(w, h, x, y, d, kinds, bg, c, n - 1, i, j);
        lemma_train_columns(w, h, x, y, d, kinds, bg, w as int);
        let g = c.placed(b, ms, n - 1);
        let m = ms[n - 1];
        assert(train_move(x, y, d, k, m));
        let s = offset(x, y, d, m.from_x as int, m.from_y as int);
        lemma_along(x, y, d, s);
        lemma_along(x, y, d, s + 1);
        lemma_along_in_bounds(b, x, y, d, k, s);
        lemma_along_in_bounds(b, x, y, d, k, s + 1);
        assert((m.from_x as int, m.from_y as int) == along(x, y, d, s));
        let t = along(x, y, d, s + 1);
        let v = b.at(m.from_x as int, m.from_y as int);
        lemma_put_keeps_shape(g, t.0, t.1, v);
        lemma_put_at(g, t.0, t.1, v, i, j);
        let o = offset(x, y, d, i, j);
        let q = along(x, y, d, o - 1);
        if on_line(x, y, d, i, j) && 1 <= o <= k + 1 {
            lemma_along(x, y, d, o - 1);
            lemma_along(x, y, d, o);
            lemma_along_in_bounds(b, x, y, d, k, o - 1);
            assert((i, j) == along(x, y, d, o));
        }
    }
}

/// A Mover pushing a line of Pushers and Movers facing its own way into the
/// Empty slot just beyond them moves all of them, itself included, one slot
/// along its facing in one tick, in the same order and with the same
/// variants and facing; Pushers elsewhere on the board stay where they are.
pub proof fn lemma_chain_push_shifts(w: nat, h: nat, x: int, y: int, d: Directions, kinds: Seq<Cells>, bg: Board)
    requires
        train_fits(w, h, x, y, d, kinds.len() as int),
        quiet_background(w, h, x, y, d, kinds.len() as int, bg),
        carried(kinds, d),
    ensures
        train(w, h, x, y, d, kinds, bg).stepped() == train(w, h, x + d.dx(), y + d.dy(), d, kinds, bg),
{
    let k = kinds.len() as int;
    let b = train(w, h, x, y, d, kinds, bg);
    let b2 = train(w, h, x + d.dx(), y + d.dy(), d, kinds, bg);
    assert(b.wf());
    lemma_train_columns(w, h, x, y, d, kinds, bg, w as int);
    let ms = b.plan_moves();
    let n = ms.len() as int;
    assert(ms.take(n) =~= ms);
    let c = b.cleared(ms);
    lemma_cleared_keeps_shape(b, ms);
    assert forall|i: int, j: int| #[trigger] c.in_bounds(i, j) implies c.at(i, j) == if on_line(
        x,
        y,
        d,
        i,
        j,
    ) && 0 <= offset(x, y, d, i, j) <= k {
        Cells::EmptyCell
    } else {
        bg.cells[i][j]
    } by {
        lemma_cleared_at(b, ms, n, i, j);
        if on_line(x, y, d, i, j) && 0 <= offset(x, y, d, i, j) <= k {
            let o = offset(x, y, d, i, j);
            lemma_along(x, y, d, o);
            assert((i, j) == along(x, y, d, o));
            assert(leaves(ms, n, along(x, y, d, o).0 as usize, along(x, y, d, o).1 as usize));
        } else {
            assert(b.at(i, j) == bg.cells[i][j]);
            if leaves(ms, n, i as usize, j as usize) {
                let q = lemma_leaves_back(ms, n, i as usize, j as usize);
                assert(train_move(x, y, d, k, ms[q]));
            }
        }
    }
    let r = c.placed(b, ms, n);
    assert(r.spawned(b, b.plan_spawns(), 0) == r);
    assert(b.stepped() == r);
    assert forall|i: int, j: int| 0 <= i < w && 0 <= j < h implies r.cells[i][j] == b2.cells[i][j] by {
        lemma_train_placed(w, h, x, y, d, kinds, bg, c, n, i, j);
        assert(c.in_bounds(i, j));
        assert(r.at(i, j) == r.cells[i][j]);
        assert(bg.cells[i][j] is EmptyCell || bg.cells[i][j] is PushCell);
        let o = offset(x, y, d, i, j);
        if on_line(x, y, d, i, j) && 1 <= o <= k + 1 {
            lemma_along(x, y, d, o - 1);
            lemma_along_in_bounds(b, x, y, d, k, o - 1);
            assert(leaves(ms, n, along(x, y, d, o - 1).0 as usize, along(x, y, d, o - 1).1 as usize));
        }
    }
    lemma_train_placed(w, h, x, y, d, kinds, bg, c, n, 0, 0);
    assert(r.cells =~~= b2.cells);
}

/// A train whose way is barred by a Generator facing `e`, standing on the
/// slot just beyond it.
pub open spec fn barred_train(
    w: nat,
    h: nat,
    x: int,
    y: int,
    d: Directions,
    kinds: Seq<Cells>,
    bg: Board,
    e: Directions,
) -> Board {
    train(w, h, x, y, d, kinds, bg).put(
        along(x, y, d, kinds.len() + 1int).0,
        along(x, y, d, kinds.len() + 1int).1,
        Cells::GeneratorCell(e),
    )
}

proof fn lemma_barred_run(
    w: nat,
    h: nat,
    x: int,
    y: int,
    d: Directions,
    kinds: Seq<Cells>,
    bg: Board,
    e: Directions,
    t: int,
)
    requires
        train_fits(w, h, x, y, d, kinds.len() as int),
        quiet_background(w, h, x, y, d, kinds.len() as int, bg),
        carried(kinds, d),
        1 <= t <= kinds.len() + 1,
    ensures
        !barred_train(w, h, x, y, d, kinds, bg, e).chain_ok(along(x, y, d, t).0, along(x, y, d, t).1, d),
    decreases kinds.len() + 1 - t,
{
    let k = kinds.len() as int;
    let b0 = train(w, h, x, y, d, kinds, bg);
    let g = along(x, y, d, k + 1);
    let b = barred_train(w, h, x, y, d, kinds, bg, e);
    let p = along(x, y, d, t);
    assert(b0.wf());
    lemma_along(x, y, d, t);
    lemma_along(x, y, d, k + 1);
    lemma_along_in_bounds(b0, x, y, d, k, t);
    lemma_put_at(b0, g.0, g.1, Cells::GeneratorCell(e), p.0, p.1);
    if t <= k {
        assert(p != g);
        assert(b.at(p.0, p.1) == kinds[t - 1]);
        lemma_barred_run(w, h, x, y, d, kinds, bg, e, t + 1);
        lemma_along(x, y, d, t + 1);
    }
}

/// A Mover pushing a line of Pushers and Movers facing its own way, whose
/// slot just beyond the line holds a Generator with an Empty slot (or the
/// grid's edge) behind it, moves nothing: the tick leaves the board, Pushers
/// elsewhere included, as it was.
#[verifier::rlimit(40)]
pub proof fn lemma_barred_chain_stays(
    w: nat,
    h: nat,
    x: int,
    y: int,
    d: Directions,
    kinds: Seq<Cells>,
    bg: Board,
    e: Directions,
)
    requires
        train_fits(w, h, x, y, d, kinds.len() as int),
        quiet_background(w, h, x, y, d, kinds.len() as int, bg),
        carried(kinds, d),
        !train(w, h, x, y, d, kinds, bg).in_bounds(
            along(x, y, d, kinds.len() + 1int).0 - e.dx(),
            along(x, y, d, kinds.len() + 1int).1 - e.dy(),
        ) || train(w, h, x, y, d, kinds, bg).at(
            along(x, y, d, kinds.len() + 1int).0 - e.dx(),
            along(x, y, d, kinds.len() + 1int).1 - e.dy(),
        ) is EmptyCell,
    ensures
        barred_train(w, h, x, y, d, kinds, bg, e).stepped() == barred_train(w, h, x, y, d, kinds, bg, e),
{
    let k = kinds.len() as int;
    let b0 = train(w, h, x, y, d, kinds, bg);
    let g = along(x, y, d, k + 1);
    let b = barred_train(w, h, x, y, d, kinds, bg, e);
    assert(b0.wf());
    lemma_put_keeps_shape(b0, g.0, g.1, Cells::GeneratorCell(e));
    lemma_along(x, y, d, k + 1);
    assert forall|i: int, j: int| #[trigger] b.in_bounds(i, j) implies b.cell_moves(i, j) == Seq::<
        Move,
    >::empty() && b.cell_spawns(i, j) == Seq::<Move>::empty() by {
        lemma_put_at(b0, g.0, g.1, Cells::GeneratorCell(e), i, j);
        if b.at(i, j) is MoverCell {
            let t = offset(x, y, d, i, j);
            assert((i, j) != g);
            assert(on_line(x, y, d, i, j) && 0 <= t <= k);
            lemma_along(x, y, d, t);
            assert((i, j) == along(x, y, d, t));
            assert(b.at(i, j) == Cells::MoverCell(d));
            lemma_along(x, y, d, t + 1);
            lemma_barred_run(w, h, x, y, d, kinds, bg, e, t + 1);
        }
        if b.at(i, j) is GeneratorCell {
            assert((i, j) == g);
            let bx = i - e.dx();
            let by = j - e.dy();
            if b.in_bounds(bx, by) {
                lemma_put_at(b0, g.0, g.1, Cells::GeneratorCell(e), bx, by);
                assert(b.at(bx, by) == Cells::EmptyCell);
            }
        }
    }
    assert(b.in_bounds(x, y));
    assert(b.cell_moves(x, y) == Seq::<Move>::empty());
    assert(b.cell_spawns(x, y) == Seq::<Move>::empty());
    lemma_plan_single(b, x, y);
    assert(b.plan_moves() == Seq::<Move>::empty());
    assert(b.cleared(b.plan_moves()) == b);
    assert(b.placed(b, b.plan_moves(), 0) == b);
    assert(b.spawned(b, b.plan_spawns(), 0) == b);
}

/// Whether no two moves of `ms` leave one slot and no two enter one slot.
pub open spec fn distinct_moves(ms: Seq<Move>) -> bool {
    forall|i: int, j: int|
        0 <= i < j < ms.len() ==> !(#[trigger] ms[i].from_x == #[trigger] ms[j].from_x && ms[i].from_y
            == ms[j].from_y) && !(ms[i].to_x == ms[j].to_x && ms[i].to_y == ms[j].to_y)
}

/// The run from offset `t` along `d`: its moves, farthest first, each from
/// one slot of the run to the next, all inside the grid.
proof fn lemma_chain_shape(b: Board, x: int, y: int, d: Directions, t: int)
    requires
        b.wf(),
        b.chain_ok(along(x, y, d, t).0, along(x, y, d, t).1, d),
    ensures
        forall|i: int|
            0 <= i <= b.chain_moves(along(x, y, d, t).0, along(x, y, d, t).1, d).len() ==> b.in_bounds(
                #[trigger] along(x, y, d, t + i).0,
                along(x, y, d, t + i).1,
            ) && (i < b.chain_moves(along(x, y, d, t).0, along(x, y, d, t).1, d).len() ==> b.at(
                along(x, y, d, t + i).0,
                along(x, y, d, t + i).1,
            ).pushable()) && (i == b.chain_moves(along(x, y, d, t).0, along(x, y, d, t).1, d).len()
                ==> b.at(along(x, y, d, t + i).0, along(x, y, d, t + i).1) is EmptyCell),
        forall|j: int|
            0 <= j < b.chain_moves(along(x, y, d, t).0, along(x, y, d, t).1, d).len() ==> #[trigger] b.chain_moves(
                along(x, y, d, t).0,
                along(x, y, d, t).1,
                d,
            )[j] == mv(
                along(x, y, d, t + b.chain_moves(along(x, y, d, t).0, along(x, y, d, t).1, d).len() - 1 - j).0,
                along(x, y, d, t + b.chain_moves(along(x, y, d, t).0, along(x, y, d, t).1, d).len() - 1 - j).1,
                along(x, y, d, t + b.chain_moves(along(x, y, d, t).0, along(x, y, d, t).1, d).len() - j).0,
                along(x, y, d, t + b.chain_moves(along(x, y, d, t).0, along(x, y, d, t).1, d).len() - j).1,
            ),
    decreases b.room(along(x, y, d, t).0, along(x, y, d, t).1, d),
{
    let p = along(x, y, d, t);
    let q = along(x, y, d, t + 1);
    lemma_along(x, y, d, t);
    lemma_along(x, y, d, t + 1);
    let cm = b.chain_moves(p.0, p.1, d);
    if b.in_bounds(p.0, p.1) && b.at(p.0, p.1).pushable() {
        assert(b.chain_ok(q.0, q.1, d));
        lemma_chain_shape(b, x, y, d, t + 1);
        let rest = b.chain_moves(q.0, q.1, d);
        let l = rest.len() as int;
        assert(cm == rest.push(mv(p.0, p.1, q.0, q.1)));
        assert forall|i: int| 0 <= i <= cm.len() implies b.in_bounds(
            #[trigger] along(x, y, d, t + i).0,
            along(x, y, d, t + i).1,
        ) && (i < cm.len() ==> b.at(along(x, y, d, t + i).0, along(x, y, d, t + i).1).pushable()) && (i
            == cm.len() ==> b.at(along(x, y, d, t + i).0, along(x, y, d, t + i).1) is EmptyCell) by {
            if i > 0 {
                assert(along(x, y, d, (t + 1) + (i - 1)) == along(x, y, d, t + i));
            }
        }
        assert forall|j: int| 0 <= j < cm.len() implies #[trigger] cm[j] == mv(
            along(x, y, d, t + cm.len() - 1 - j).0,
            along(x, y, d, t + cm.len() - 1 - j).1,
            along(x, y, d, t + cm.len() - j).0,
            along(x, y, d, t + cm.len() - j).1,
        ) by {
            if j < l {
                assert(cm[j] == rest[j]);
            }
        }
    } else {
        assert(cm =~= Seq::<Move>::empty());
        assert(along(x, y, d, t + 0) == p);
    }
}

/// A Mover's walk never leaves one slot twice nor enters one slot twice.
proof fn lemma_walk_distinct(b: Board, x: int, y: int)
    requires
        b.wf(),
        b.in_bounds(x, y),
    ensures
        distinct_moves(b.cell_moves(x, y)),
{
    if let Cells::MoverCell(d) = b.at(x, y) {
        lemma_along(x, y, d, 0);
        lemma_along(x, y, d, 1);
        let q = along(x, y, d, 1);
        if b.chain_ok(q.0, q.1, d) {
            lemma_chain_shape(b, x, y, d, 1);
            let chain = b.chain_moves(q.0, q.1, d);
            let l = chain.len() as int;
            let cm = b.cell_moves(x, y);
            assert(cm == seq![mv(x, y, q.0, q.1)] + chain);
            assert forall|j: int| 0 <= j < cm.len() implies #[trigger] cm[j] == mv(
                along(x, y, d, if j == 0 { 0 } else { l + 1 - j }).0,
                along(x, y, d, if j == 0 { 0 } else { l + 1 - j }).1,
                along(x, y, d, if j == 0 { 1 } else { l + 2 - j }).0,
                along(x, y, d, if j == 0 { 1 } else { l + 2 - j }).1,
            ) && b.in_bounds(
                along(x, y, d, if j == 0 { 0 } else { l + 1 - j }).0,
                along(x, y, d, if j == 0 { 0 } else { l + 1 - j }).1,
            ) && b.in_bounds(
                along(x, y, d, if j == 0 { 1 } else { l + 2 - j }).0,
                along(x, y, d, if j == 0 { 1 } else { l + 2 - j }).1,
            ) by {
                if j > 0 {
                    assert(cm[j] == chain[j - 1]);
                    assert(b.in_bounds(along(x, y, d, 1 + (l - j)).0, along(x, y, d, 1 + (l - j)).1));
                    assert(b.in_bounds(along(x, y, d, 1 + (l + 1 - j)).0, along(x, y, d, 1 + (l + 1 - j)).1));
                }
            }
            assert forall|i: int, j: int| 0 <= i < j < cm.len() implies !(#[trigger] cm[i].from_x
                == #[trigger] cm[j].from_x && cm[i].from_y == cm[j].from_y) && !(cm[i].to_x == cm[j].to_x
                && cm[i].to_y == cm[j].to_y) by {
                let si = if i == 0 { 0 } else { l + 1 - i };
                let sj = l + 1 - j;
                lemma_along(x, y, d, si);
                lemma_along(x, y, d, sj);
                lemma_along(x, y, d, si + 1);
                lemma_along(x, y, d, sj + 1);
                assert(cm[i] == mv(along(x, y, d, si).0, along(x, y, d, si).1, along(x, y, d, si + 1).0, along(x, y, d, si + 1).1));
                assert(cm[j] == mv(along(x, y, d, sj).0, along(x, y, d, sj).1, along(x, y, d, sj + 1).0, along(x, y, d, sj + 1).1));
            }
        }
    }
}

proof fn lemma_enters_some(ms: Seq<Move>, n: int, j: int)
    requires
        0 <= j < n <= ms.len(),
    ensures
        enters(ms, n, ms[j].to_x, ms[j].to_y),
    decreases n,
{
    if j < n - 1 {
        lemma_enters_some(ms, n - 1, j);
    }
}

proof fn lemma_extended_distinct(plan: Seq<Move>, walk: Seq<Move>, n: int)
    requires
        0 <= n <= walk.len(),
        distinct_moves(plan),
        distinct_moves(walk),
        walk_fits(plan, walk),
    ensures
        distinct_moves(extended(plan, walk, n)),
        extended(plan, walk, n).len() >= plan.len(),
        forall|i: int| 0 <= i < plan.len() ==> #[trigger] extended(plan, walk, n)[i] == plan[i],
        forall|i: int|
            plan.len() <= i < extended(plan, walk, n).len() ==> exists|j: int|
                0 <= j < n && #[trigger] extended(plan, walk, n)[i] == walk[j] && !recorded(plan, walk[j]),
    decreases n,
{
    if n > 0 {
        lemma_extended_distinct(plan, walk, n - 1);
        let e = extended(plan, walk, n - 1);
        let m = walk[n - 1];
        if !recorded(plan, m) {
            assert(fits(plan, walk[n - 1]));
            let r = e.push(m);
            assert forall|i: int, j: int| 0 <= i < j < r.len() implies !(#[trigger] r[i].from_x
                == #[trigger] r[j].from_x && r[i].from_y == r[j].from_y) && !(r[i].to_x == r[j].to_x
                && r[i].to_y == r[j].to_y) by {
                if j == e.len() {
                    if i < plan.len() {
                        assert(r[i] == plan[i]);
                        if r[i].from_x == m.from_x && r[i].from_y == m.from_y {
                            lemma_dest_of_some(plan, plan.len() as int, i);
                        }
                        if r[i].to_x == m.to_x && r[i].to_y == m.to_y {
                            lemma_enters_some(plan, plan.len() as int, i);
                        }
                    } else {
                        assert(r[i] == e[i]);
                        let k = choose|k: int| 0 <= k < n - 1 && #[trigger] e[i] == walk[k] && !recorded(plan, walk[k]);
                        assert(walk[k] == e[i]);
                    }
                } else {
                    assert(r[i] == e[i] && r[j] == e[j]);
                }
            }
            assert forall|i: int| plan.len() <= i < r.len() implies exists|j: int|
                0 <= j < n && #[trigger] r[i] == walk[j] && !recorded(plan, walk[j]) by {
                if i == e.len() {
                    assert(r[i] == walk[n - 1]);
                } else {
                    assert(r[i] == e[i]);
                    let k = choose|k: int| 0 <= k < n - 1 && #[trigger] e[i] == walk[k] && !recorded(plan, walk[k]);
                    assert(r[i] == walk[k]);
                }
            }
        }
    }
}

proof fn lemma_take_walk_distinct(b: Board, plan: Seq<Move>, x: int, y: int)
    requires
        b.wf(),
        b.in_bounds(x, y),
        distinct_moves(plan),
    ensures
        distinct_moves(take_walk(plan, b.cell_moves(x, y))),
{
    let walk = b.cell_moves(x, y);
    if walk_fits(plan, walk) {
        lemma_walk_distinct(b, x, y);
        lemma_extended_distinct(plan, walk, walk.len() as int);
    }
}

proof fn lemma_column_distinct(b: Board, a: int, n: int, start: Seq<Move>)
    requires
        b.wf(),
        0 <= a < b.width,
        0 <= n <= b.height,
        distinct_moves(start),
    ensures
        distinct_moves(b.column_moves(a, n, start)),
    decreases n,
{
    if n > 0 {
        lemma_column_distinct(b, a, n - 1, start);
        lemma_take_walk_distinct(b, b.column_moves(a, n - 1, start), a, n - 1);
    }
}

proof fn lemma_columns_distinct(b: Board, n: int)
    requires
        b.wf(),
        0 <= n <= b.width,
    ensures
        distinct_moves(b.columns_moves(n)),
    decreases n,
{
    if n > 0 {
        lemma_columns_distinct(b, n - 1);
        lemma_column_distinct(b, n - 1, b.height as int, b.columns_moves(n - 1));
    }
}

/// No two moves of a tick leave the same slot, and no two enter the same slot.
pub proof fn lemma_plan_moves_distinct(b: Board)
    requires
        b.wf(),
    ensures
        distinct_moves(b.plan_moves()),
{
    lemma_columns_distinct(b, b.width as int);
}

/// Move `m` of plan `ms` leaves a non-Empty slot of `b` and enters a slot
/// that is Empty in `b` or that a move of `ms` leaves, both inside the grid.
pub open spec fn move_sound(b: Board, ms: Seq<Move>, m: Move) -> bool {
    &&& b.in_bounds(m.from_x as int, m.from_y as int)
    &&& b.in_bounds(m.to_x as int, m.to_y as int)
    &&& !(b.at(m.from_x as int, m.from_y as int) is EmptyCell)
    &&& (b.at(m.to_x as int, m.to_y as int) is EmptyCell || leaves(
        ms,
        ms.len() as int,
        m.to_x,
        m.to_y,
    ))
}

/// Every move of `ms` is sound on `b`.
pub open spec fn moves_sound(b: Board, ms: Seq<Move>) -> bool {
    forall|i: int| 0 <= i < ms.len() ==> move_sound(b, ms, #[trigger] ms[i])
}

/// Where the last of the first `n` moves of `ms` that enters slot (x, y)
/// comes from, if one does.
pub open spec fn source_into(ms: Seq<Move>, n: int, x: usize, y: usize) -> Option<(usize, usize)>
    decreases n,
{
    if n <= 0 {
        None
    } else if ms[n - 1].to_x == x && ms[n - 1].to_y == y {
        Some((ms[n - 1].from_x, ms[n - 1].from_y))
    } else {
        source_into(ms, n - 1, x, y)
    }
}

proof fn lemma_leaves_back(ms: Seq<Move>, n: int, a: usize, b: usize) -> (j: int)
    requires
        leaves(ms, n, a, b),
        n <= ms.len(),
    ensures
        0 <= j < n,
        ms[j].from_x == a && ms[j].from_y == b,
    decreases n,
{
    if ms[n - 1].from_x == a && ms[n - 1].from_y == b {
        n - 1
    } else {
        lemma_leaves_back(ms, n - 1, a, b)
    }
}

proof fn lemma_walk_sound(b: Board, x: int, y: int)
    requires
        b.wf(),
        b.in_bounds(x, y),
    ensures
        moves_sound(b, b.cell_moves(x, y)),
{
    let cm = b.cell_moves(x, y);
    if let Cells::MoverCell(d) = b.at(x, y) {
        lemma_along(x, y, d, 0);
        lemma_along(x, y, d, 1);
        let q = along(x, y, d, 1);
        if b.chain_ok(q.0, q.1, d) {
            lemma_chain_shape(b, x, y, d, 1);
            let chain = b.chain_moves(q.0, q.1, d);
            let l = chain.len() as int;
            assert(cm == seq![mv(x, y, q.0, q.1)] + chain);
            assert forall|j: int| 0 <= j < cm.len() implies move_sound(b, cm, #[trigger] cm[j]) by {
                let sj = if j == 0 { 0 } else { l + 1 - j };
                if j > 0 {
                    assert(cm[j] == chain[j - 1]);
                    assert(along(x, y, d, 1 + (l - j)) == along(x, y, d, sj));
                    assert(along(x, y, d, 1 + (l + 1 - j)) == along(x, y, d, sj + 1));
                }
                lemma_along(x, y, d, sj);
                lemma_along(x, y, d, sj + 1);
                assert(cm[j] == mv(along(x, y, d, sj).0, along(x, y, d, sj).1, along(x, y, d, sj + 1).0, along(x, y, d, sj + 1).1));
                assert(b.in_bounds(along(x, y, d, 1 + (sj - 1)).0, along(x, y, d, 1 + (sj - 1)).1) || sj == 0);
                assert(b.in_bounds(along(x, y, d, 1 + sj).0, along(x, y, d, 1 + sj).1));
                if sj > 0 {
                    assert(b.at(along(x, y, d, 1 + (sj - 1)).0, along(x, y, d, 1 + (sj - 1)).1).pushable());
                }
                if sj < l {
                    let jj = l - sj;
                    assert(cm[jj] == chain[jj - 1]);
                    assert(along(x, y, d, 1 + (l - jj)) == along(x, y, d, sj + 1));
                    lemma_leaves_witness(cm, cm.len() as int, jj);
                } else {
                    assert(b.at(along(x, y, d, 1 + l).0, along(x, y, d, 1 + l).1) is EmptyCell);
                }
            }
        } else {
            assert(cm =~= Seq::<Move>::empty());
        }
    } else {
        assert(cm =~= Seq::<Move>::empty());
    }
}

proof fn lemma_extended_leaves(plan: Seq<Move>, walk: Seq<Move>, n: int)
    requires
        0 <= n <= walk.len(),
    ensures
        forall|a: usize, c: usize|
            #![trigger leaves(extended(plan, walk, n), extended(plan, walk, n).len() as int, a, c)]
            leaves(plan, plan.len() as int, a, c) ==> leaves(
                extended(plan, walk, n),
                extended(plan, walk, n).len() as int,
                a,
                c,
            ),
        forall|j: int|
            0 <= j < n ==> #[trigger] leaves(
                extended(plan, walk, n),
                extended(plan, walk, n).len() as int,
                walk[j].from_x,
                walk[j].from_y,
            ) || recorded(plan, walk[j]),
    decreases n,
{
    if n > 0 {
        lemma_extended_leaves(plan, walk, n - 1);
        let e = extended(plan, walk, n - 1);
        if !recorded(plan, walk[n - 1]) {
            let m = walk[n - 1];
            assert forall|a: usize, c: usize| leaves(e, e.len() as int, a, c) implies #[trigger] leaves(
                e.push(m),
                e.len() + 1int,
                a,
                c,
            ) by {
                lemma_leaves_push(e, m, e.len() as int, a, c);
            }
            assert(leaves(e.push(m), e.len() + 1int, m.from_x, m.from_y));
        }
    }
}

proof fn lemma_take_walk_sound(b: Board, plan: Seq<Move>, x: int, y: int)
    requires
        b.wf(),
        b.in_bounds(x, y),
        distinct_moves(plan),
        moves_sound(b, plan),
    ensures
        moves_sound(b, take_walk(plan, b.cell_moves(x, y))),
{
    let walk = b.cell_moves(x, y);
    if walk_fits(plan, walk) {
        let n = walk.len() as int;
        lemma_walk_distinct(b, x, y);
        lemma_walk_sound(b, x, y);
        lemma_extended_distinct(plan, walk, n);
        lemma_extended_leaves(plan, walk, n);
        let e = extended(plan, walk, n);
        assert forall|i: int| 0 <= i < e.len() implies move_sound(b, e, #[trigger] e[i]) by {
            if i < plan.len() {
                assert(e[i] == plan[i]);
                assert(move_sound(b, plan, plan[i]));
                if !(b.at(e[i].to_x as int, e[i].to_y as int) is EmptyCell) {
                    assert(leaves(e, e.len() as int, e[i].to_x, e[i].to_y));
                }
            } else {
                let j = choose|j: int| 0 <= j < n && #[trigger] e[i] == walk[j] && !recorded(plan, walk[j]);
                assert(move_sound(b, walk, walk[j]));
                if !(b.at(e[i].to_x as int, e[i].to_y as int) is EmptyCell) {
                    let jj = lemma_leaves_back(walk, n, walk[j].to_x, walk[j].to_y);
                    assert(leaves(e, e.len() as int, walk[jj].from_x, walk[jj].from_y) || recorded(plan, walk[jj]));
                    if recorded(plan, walk[jj]) {
                        lemma_dest_of_leaves(plan, plan.len() as int, walk[jj].from_x, walk[jj].from_y);
                    }
                }
            }
        }
    }
}

proof fn lemma_column_sound(b: Board, a: int, n: int, start: Seq<Move>)
    requires
        b.wf(),
        0 <= a < b.width,
        0 <= n <= b.height,
        distinct_moves(start),
        moves_sound(b, start),
    ensures
        distinct_moves(b.column_moves(a, n, start)),
        moves_sound(b, b.column_moves(a, n, start)),
    decreases n,
{
    if n > 0 {
        lemma_column_sound(b, a, n - 1, start);
        lemma_take_walk_distinct(b, b.column_moves(a, n - 1, start), a, n - 1);
        lemma_take_walk_sound(b, b.column_moves(a, n - 1, start), a, n - 1);
    }
}

proof fn lemma_columns_sound(b: Board, n: int)
    requires
        b.wf(),
        0 <= n <= b.width,
    ensures
        distinct_moves(b.columns_moves(n)),
        moves_sound(b, b.columns_moves(n)),
    decreases n,
{
    if n > 0 {
        lemma_columns_sound(b, n - 1);
        lemma_column_sound(b, n - 1, b.height as int, b.columns_moves(n - 1));
    }
}

proof fn lemma_placed_at(c: Board, snap: Board, ms: Seq<Move>, n: int, i: int, j: int)
    requires
        c.wf(),
        snap.wf(),
        c.width == snap.width,
        c.height == snap.height,
        0 <= n <= ms.len(),
        distinct_moves(ms),
        moves_sound(snap, ms),
        c.in_bounds(i, j),
    ensures
        c.placed(snap, ms, n).wf(),
        c.placed(snap, ms, n).width == c.width,
        c.placed(snap, ms, n).height == c.height,
        c.placed(snap, ms, n).at(i, j) == match source_into(ms, n, i as usize, j as usize) {
            Some(p) => snap.at(p.0 as int, p.1 as int),
            None => c.at(i, j),
        },
    decreases n,
{
    if n > 0 {
        lemma_placed_at(c, snap, ms, n - 1, i, j);
        let g = c.placed(snap, ms, n - 1);
        let m = ms[n - 1];
        assert(move_sound(snap, ms, m));
        if leaves(ms, n - 1, m.from_x, m.from_y) {
            let k = lemma_leaves_back(ms, n - 1, m.from_x, m.from_y);
            assert(ms[k].from_x == ms[n - 1].from_x);
        }
        assert(first_from(ms, n - 1));
        let v = snap.at(m.from_x as int, m.from_y as int);
        lemma_put_keeps_shape(g, m.to_x as int, m.to_y as int, v);
        lemma_put_at(g, m.to_x as int, m.to_y as int, v, i, j);
    }
}

proof fn lemma_source_into_move(ms: Seq<Move>, n: int, k: int)
    requires
        0 <= k < n <= ms.len(),
        distinct_moves(ms),
    ensures
        source_into(ms, n, ms[k].to_x, ms[k].to_y) == Some((ms[k].from_x, ms[k].from_y)),
    decreases n,
{
    if k < n - 1 {
        assert(ms[k].from_x == ms[n - 1].from_x || ms[k].from_x != ms[n - 1].from_x);
        lemma_source_into_move(ms, n - 1, k);
    }
}

proof fn lemma_source_into_none(ms: Seq<Move>, n: int, a: usize, c: usize)
    requires
        !enters(ms, n, a, c),
    ensures
        source_into(ms, n, a, c) is None,
    decreases n,
{
    if n > 0 {
        lemma_source_into_none(ms, n - 1, a, c);
    }
}

proof fn lemma_spawns_none(b: Board, n: int)
    requires
        b.wf(),
        0 <= n <= b.width,
        forall|i: int, j: int| #[trigger] b.in_bounds(i, j) ==> !(b.at(i, j) is GeneratorCell),
    ensures
        b.columns_spawns(n) == Seq::<Move>::empty(),
    decreases n,
{
    if n > 0 {
        lemma_spawns_none(b, n - 1);
        assert forall|m: int| 0 <= m <= b.height implies #[trigger] b.column_spawns(n - 1, m) == Seq::<
            Move,
        >::empty() by {
            lemma_column_spawns_none(b, n - 1, m);
        }
        assert(b.columns_spawns(n) =~= Seq::<Move>::empty());
    } else {
        assert(b.columns_spawns(n) =~= Seq::<Move>::empty());
    }
}

proof fn lemma_column_spawns_none(b: Board, a: int, m: int)
    requires
        b.wf(),
        0 <= a < b.width,
        0 <= m <= b.height,
        forall|i: int, j: int| #[trigger] b.in_bounds(i, j) ==> !(b.at(i, j) is GeneratorCell),
    ensures
        b.column_spawns(a, m) == Seq::<Move>::empty(),
    decreases m,
{
    if m > 0 {
        lemma_column_spawns_none(b, a, m - 1);
        assert(b.in_bounds(a, m - 1));
        assert(b.column_spawns(a, m) =~= Seq::<Move>::empty());
    } else {
        assert(b.column_spawns(a, m) =~= Seq::<Move>::empty());
    }
}

/// On a board without Generators a tick neither loses nor duplicates a
/// cell. No two moves leave one slot and no two enter one slot; every move
/// leaves a non-Empty slot and enters one that is Empty or is itself left;
/// each moving cell arrives unchanged at its destination; and a slot that no
/// move enters is Empty if a move leaves it and keeps its cell otherwise.
pub proof fn lemma_step_conserves_cells(b: Board)
    requires
        b.wf(),
        forall|i: int, j: int| #[trigger] b.in_bounds(i, j) ==> !(b.at(i, j) is GeneratorCell),
    ensures
        distinct_moves(b.plan_moves()),
        moves_sound(b, b.plan_moves()),
        forall|k: int|
            0 <= k < b.plan_moves().len() ==> b.stepped().at(
                (#[trigger] b.plan_moves()[k]).to_x as int,
                b.plan_moves()[k].to_y as int,
            ) == b.at(b.plan_moves()[k].from_x as int, b.plan_moves()[k].from_y as int),
        forall|i: int, j: int|
            #![trigger b.stepped().at(i, j)]
            b.in_bounds(i, j) && !enters(b.plan_moves(), b.plan_moves().len() as int, i as usize, j as usize)
                ==> b.stepped().at(i, j) == if leaves(
                b.plan_moves(),
                b.plan_moves().len() as int,
                i as usize,
                j as usize,
            ) {
                Cells::EmptyCell
            } else {
                b.at(i, j)
            },
{
    let ms = b.plan_moves();
    let n = ms.len() as int;
    lemma_columns_sound(b, b.width as int);
    lemma_spawns_none(b, b.width as int);
    assert(ms.take(n) =~= ms);
    let c = b.cleared(ms);
    lemma_cleared_keeps_shape(b, ms);
    let r = c.placed(b, ms, n);
    assert(r.spawned(b, b.plan_spawns(), 0) == r);
    assert(b.stepped() == r);
    assert forall|k: int| 0 <= k < n implies r.at(
        (#[trigger] ms[k]).to_x as int,
        ms[k].to_y as int,
    ) == b.at(ms[k].from_x as int, ms[k].from_y as int) by {
        assert(move_sound(b, ms, ms[k]));
        lemma_placed_at(c, b, ms, n, ms[k].to_x as int, ms[k].to_y as int);
        lemma_source_into_move(ms, n, k);
    }
    assert forall|i: int, j: int|
        b.in_bounds(i, j) && !enters(ms, n, i as usize, j as usize) implies #[trigger] r.at(i, j) == if leaves(
        ms,
        n,
        i as usize,
        j as usize,
    ) {
        Cells::EmptyCell
    } else {
        b.at(i, j)
    } by {
        lemma_placed_at(c, b, ms, n, i, j);
        lemma_source_into_none(ms, n, i as usize, j as usize);
        lemma_cleared_at(b, ms, n, i, j);
    }
}

} // verus!
