use cell_machine::cells::Cells;
use cell_machine::directions::Directions;
use cell_machine::grid::{Grid, GridError};

fn running(w: u32, h: u32) -> Grid {
    let mut g = Grid::new(w, h);
    g.set_paused(false);
    g
}

fn row(g: &Grid, y: u32) -> Vec<Cells> {
    (0..g.width() as u32).map(|x| g.get_cell(x, y).unwrap()).collect()
}

#[test]
fn new_grid_is_empty_and_paused() {
    let g = Grid::new(3, 2);
    assert_eq!(g.width(), 3);
    assert_eq!(g.height(), 2);
    assert!(g.is_paused());
    assert_eq!(g.draw_offset(), (0, 0));
    for x in 0..3 {
        for y in 0..2 {
            assert_eq!(g.get_cell(x, y), Ok(Cells::EmptyCell));
        }
    }
}

#[test]
fn set_cell_out_of_bounds_fails() {
    let mut g = Grid::new(3, 2);
    assert_eq!(g.set_cell(3, 0, Cells::PushCell), Err(GridError::OutOfBounds));
    assert_eq!(g.set_cell(0, 2, Cells::PushCell), Err(GridError::OutOfBounds));
    assert_eq!(g.get_cell(0, 2), Err(GridError::OutOfBounds));
    assert_eq!(g.set_cell(2, 1, Cells::PushCell), Ok(()));
    assert_eq!(g.get_cell(2, 1), Ok(Cells::PushCell));
    assert_eq!(g.set_cell(2, 1, Cells::MoverCell(Directions::Up)), Ok(()));
    assert_eq!(g.get_cell(2, 1), Ok(Cells::MoverCell(Directions::Up)));
}

#[test]
fn mover_walks_to_the_edge_and_stops() {
    let mut g = running(5, 1);
    g.set_cell(0, 0, Cells::MoverCell(Directions::Right)).unwrap();
    g.update(0);
    assert_eq!(g.get_cell(0, 0), Ok(Cells::EmptyCell));
    assert_eq!(g.get_cell(1, 0), Ok(Cells::MoverCell(Directions::Right)));
    for k in 1..5 {
        g.update(10 * k);
    }
    assert_eq!(g.get_cell(4, 0), Ok(Cells::MoverCell(Directions::Right)));
    for x in 0..4 {
        assert_eq!(g.get_cell(x, 0), Ok(Cells::EmptyCell));
    }
    g.update(50);
    g.update(60);
    assert_eq!(g.get_cell(4, 0), Ok(Cells::MoverCell(Directions::Right)));
    assert_eq!(g.get_cell(3, 0), Ok(Cells::EmptyCell));
}

#[test]
fn mover_moves_up_and_down() {
    let mut g = running(1, 3);
    g.set_cell(0, 2, Cells::MoverCell(Directions::Up)).unwrap();
    g.update(0);
    assert_eq!(g.get_cell(0, 1), Ok(Cells::MoverCell(Directions::Up)));
    g.update(10);
    assert_eq!(g.get_cell(0, 0), Ok(Cells::MoverCell(Directions::Up)));
    g.update(20);
    assert_eq!(g.get_cell(0, 0), Ok(Cells::MoverCell(Directions::Up)));
}

#[test]
fn mover_at_edge_does_not_move() {
    let mut g = running(3, 1);
    g.set_cell(0, 0, Cells::MoverCell(Directions::Left)).unwrap();
    g.update(0);
    assert_eq!(
        row(&g, 0),
        vec![Cells::MoverCell(Directions::Left), Cells::EmptyCell, Cells::EmptyCell]
    );
}

#[test]
fn off_tick_or_paused_leaves_grid_unchanged() {
    let mut g = running(3, 1);
    g.set_cell(0, 0, Cells::MoverCell(Directions::Right)).unwrap();
    g.update(7);
    assert_eq!(g.get_cell(0, 0), Ok(Cells::MoverCell(Directions::Right)));
    g.toggle_paused();
    assert!(g.is_paused());
    g.update(20);
    assert_eq!(g.get_cell(0, 0), Ok(Cells::MoverCell(Directions::Right)));
    assert_eq!(g.get_cell(1, 0), Ok(Cells::EmptyCell));
}

#[test]
fn chain_of_pushers_shifts_together() {
    let mut g = running(5, 1);
    g.set_cell(0, 0, Cells::MoverCell(Directions::Right)).unwrap();
    g.set_cell(1, 0, Cells::PushCell).unwrap();
    g.set_cell(2, 0, Cells::PushCell).unwrap();
    g.update(0);
    assert_eq!(
        row(&g, 0),
        vec![
            Cells::EmptyCell,
            Cells::MoverCell(Directions::Right),
            Cells::PushCell,
            Cells::PushCell,
            Cells::EmptyCell
        ]
    );
    g.update(10);
    assert_eq!(
        row(&g, 0),
        vec![
            Cells::EmptyCell,
            Cells::EmptyCell,
            Cells::MoverCell(Directions::Right),
            Cells::PushCell,
            Cells::PushCell
        ]
    );
    g.update(20);
    assert_eq!(
        row(&g, 0),
        vec![
            Cells::EmptyCell,
            Cells::EmptyCell,
            Cells::MoverCell(Directions::Right),
            Cells::PushCell,
            Cells::PushCell
        ]
    );
}

#[test]
fn chain_of_movers_shifts_together() {
    let mut g = running(4, 1);
    g.set_cell(0, 0, Cells::MoverCell(Directions::Right)).unwrap();
    g.set_cell(1, 0, Cells::MoverCell(Directions::Right)).unwrap();
    g.set_cell(2, 0, Cells::PushCell).unwrap();
    g.update(0);
    assert_eq!(
        row(&g, 0),
        vec![
            Cells::EmptyCell,
            Cells::MoverCell(Directions::Right),
            Cells::MoverCell(Directions::Right),
            Cells::PushCell
        ]
    );
}

#[test]
fn chain_blocked_by_generator_does_not_move() {
    let mut g = running(4, 1);
    g.set_cell(0, 0, Cells::MoverCell(Directions::Right)).unwrap();
    g.set_cell(1, 0, Cells::PushCell).unwrap();
    g.set_cell(2, 0, Cells::GeneratorCell(Directions::Up)).unwrap();
    g.update(0);
    assert_eq!(
        row(&g, 0),
        vec![
            Cells::MoverCell(Directions::Right),
            Cells::PushCell,
            Cells::GeneratorCell(Directions::Up),
            Cells::EmptyCell
        ]
    );
}

#[test]
fn chain_against_the_edge_does_not_move() {
    let mut g = running(3, 1);
    g.set_cell(0, 0, Cells::MoverCell(Directions::Right)).unwrap();
    g.set_cell(1, 0, Cells::PushCell).unwrap();
    g.set_cell(2, 0, Cells::PushCell).unwrap();
    g.update(0);
    assert_eq!(
        row(&g, 0),
        vec![Cells::MoverCell(Directions::Right), Cells::PushCell, Cells::PushCell]
    );
}

#[test]
fn generator_duplicates_and_overwrites() {
    let mut g = running(3, 1);
    g.set_cell(0, 0, Cells::PushCell).unwrap();
    g.set_cell(1, 0, Cells::GeneratorCell(Directions::Right)).unwrap();
    g.set_cell(2, 0, Cells::MoverCell(Directions::Left)).unwrap();
    g.update(0);
    assert_eq!(
        row(&g, 0),
        vec![Cells::EmptyCell, Cells::GeneratorCell(Directions::Right), Cells::PushCell]
    );
}

#[test]
fn generator_copies_facing() {
    let mut g = running(1, 3);
    g.set_cell(0, 2, Cells::MoverCell(Directions::Up)).unwrap();
    g.set_cell(0, 1, Cells::GeneratorCell(Directions::Up)).unwrap();
    g.update(0);
    assert_eq!(g.get_cell(0, 2), Ok(Cells::EmptyCell));
    assert_eq!(g.get_cell(0, 1), Ok(Cells::GeneratorCell(Directions::Up)));
    assert_eq!(g.get_cell(0, 0), Ok(Cells::MoverCell(Directions::Up)));
}

#[test]
fn generator_with_nothing_behind_stays_idle() {
    let mut g = running(3, 1);
    g.set_cell(1, 0, Cells::GeneratorCell(Directions::Right)).unwrap();
    g.set_cell(2, 0, Cells::PushCell).unwrap();
    g.update(0);
    assert_eq!(
        row(&g, 0),
        vec![Cells::EmptyCell, Cells::GeneratorCell(Directions::Right), Cells::PushCell]
    );
}

#[test]
fn generator_at_edge_stays_idle() {
    let mut g = running(2, 1);
    g.set_cell(0, 0, Cells::PushCell).unwrap();
    g.set_cell(1, 0, Cells::GeneratorCell(Directions::Right)).unwrap();
    g.update(0);
    assert_eq!(row(&g, 0), vec![Cells::PushCell, Cells::GeneratorCell(Directions::Right)]);
}

#[test]
fn movers_meeting_head_on_lose_no_cell() {
    let mut g = running(3, 1);
    g.set_cell(0, 0, Cells::MoverCell(Directions::Right)).unwrap();
    g.set_cell(2, 0, Cells::MoverCell(Directions::Left)).unwrap();
    g.update(0);
    assert_eq!(
        row(&g, 0),
        vec![Cells::EmptyCell, Cells::MoverCell(Directions::Right), Cells::MoverCell(Directions::Left)]
    );
}

#[test]
fn push_and_move_into_one_slot_lose_no_cell() {
    let mut g = running(3, 3);
    g.set_cell(0, 2, Cells::MoverCell(Directions::Right)).unwrap();
    g.set_cell(1, 2, Cells::PushCell).unwrap();
    g.set_cell(2, 1, Cells::MoverCell(Directions::Down)).unwrap();
    g.update(0);
    assert_eq!(g.get_cell(0, 2), Ok(Cells::EmptyCell));
    assert_eq!(g.get_cell(1, 2), Ok(Cells::MoverCell(Directions::Right)));
    assert_eq!(g.get_cell(2, 2), Ok(Cells::PushCell));
    assert_eq!(g.get_cell(2, 1), Ok(Cells::MoverCell(Directions::Down)));
}

#[test]
fn crossing_pushes_into_one_slot_lose_no_cell() {
    let mut g = running(3, 3);
    g.set_cell(0, 1, Cells::MoverCell(Directions::Right)).unwrap();
    g.set_cell(1, 1, Cells::PushCell).unwrap();
    g.set_cell(1, 2, Cells::MoverCell(Directions::Up)).unwrap();
    g.update(0);
    assert_eq!(
        row(&g, 1),
        vec![Cells::EmptyCell, Cells::MoverCell(Directions::Right), Cells::PushCell]
    );
    assert_eq!(g.get_cell(1, 2), Ok(Cells::MoverCell(Directions::Up)));
    assert_eq!(g.get_cell(1, 0), Ok(Cells::EmptyCell));
}

#[test]
fn leftward_chain_of_movers_shifts_together() {
    let mut g = running(4, 1);
    g.set_cell(1, 0, Cells::PushCell).unwrap();
    g.set_cell(2, 0, Cells::MoverCell(Directions::Left)).unwrap();
    g.set_cell(3, 0, Cells::MoverCell(Directions::Left)).unwrap();
    g.update(0);
    assert_eq!(
        row(&g, 0),
        vec![
            Cells::PushCell,
            Cells::MoverCell(Directions::Left),
            Cells::MoverCell(Directions::Left),
            Cells::EmptyCell
        ]
    );
}

#[test]
fn step_keeps_dimensions() {
    let mut g = running(4, 3);
    g.set_cell(0, 0, Cells::MoverCell(Directions::Right)).unwrap();
    g.set_cell(3, 2, Cells::GeneratorCell(Directions::Left)).unwrap();
    g.set_cell(1, 1, Cells::PushCell).unwrap();
    for k in 0..10 {
        g.update(10 * k);
    }
    assert_eq!(g.width(), 4);
    assert_eq!(g.height(), 3);
    for x in 0..4 {
        for y in 0..3 {
            assert!(g.get_cell(x, y).is_ok());
        }
    }
}

#[test]
fn draw_offset_is_cosmetic() {
    let mut g = running(3, 1);
    g.set_cell(0, 0, Cells::MoverCell(Directions::Right)).unwrap();
    g.set_draw_offset(-12, 40);
    assert_eq!(g.draw_offset(), (-12, 40));
    g.update(0);
    assert_eq!(g.get_cell(1, 0), Ok(Cells::MoverCell(Directions::Right)));
}

#[test]
fn chain_blocked_by_generator_facing_back_does_not_move() {
    let mut g = running(5, 1);
    g.set_cell(0, 0, Cells::MoverCell(Directions::Right)).unwrap();
    g.set_cell(1, 0, Cells::MoverCell(Directions::Right)).unwrap();
    g.set_cell(2, 0, Cells::PushCell).unwrap();
    g.set_cell(3, 0, Cells::GeneratorCell(Directions::Left)).unwrap();
    g.update(0);
    assert_eq!(
        row(&g, 0),
        vec![
            Cells::MoverCell(Directions::Right),
            Cells::MoverCell(Directions::Right),
            Cells::PushCell,
            Cells::GeneratorCell(Directions::Left),
            Cells::EmptyCell
        ]
    );
}

#[test]
fn generator_at_chain_end_still_emits() {
    let mut g = running(4, 1);
    g.set_cell(0, 0, Cells::MoverCell(Directions::Right)).unwrap();
    g.set_cell(1, 0, Cells::PushCell).unwrap();
    g.set_cell(2, 0, Cells::GeneratorCell(Directions::Right)).unwrap();
    g.update(0);
    assert_eq!(
        row(&g, 0),
        vec![
            Cells::MoverCell(Directions::Right),
            Cells::EmptyCell,
            Cells::GeneratorCell(Directions::Right),
            Cells::PushCell
        ]
    );
}

#[test]
fn chain_push_leaves_other_pushers_in_place() {
    let mut g = running(4, 2);
    g.set_cell(0, 0, Cells::MoverCell(Directions::Right)).unwrap();
    g.set_cell(1, 0, Cells::PushCell).unwrap();
    g.set_cell(0, 1, Cells::PushCell).unwrap();
    g.set_cell(3, 1, Cells::PushCell).unwrap();
    g.update(0);
    assert_eq!(
        row(&g, 0),
        vec![
            Cells::EmptyCell,
            Cells::MoverCell(Directions::Right),
            Cells::PushCell,
            Cells::EmptyCell
        ]
    );
    assert_eq!(
        row(&g, 1),
        vec![Cells::PushCell, Cells::EmptyCell, Cells::EmptyCell, Cells::PushCell]
    );
}
