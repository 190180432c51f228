use cell_machine::cells::Cells;
use cell_machine::directions::Directions;
use cell_machine::fps::FpsHistory;
use cell_machine::menu::TitleMenu;

#[test]
fn directions_unit_vectors() {
    assert_eq!(Directions::Up.delta(), (0, -1));
    assert_eq!(Directions::Down.delta(), (0, 1));
    assert_eq!(Directions::Left.delta(), (-1, 0));
    assert_eq!(Directions::Right.delta(), (1, 0));
}

#[test]
fn directions_turns() {
    assert_eq!(Directions::Up.rotate_clockwise(), Directions::Right);
    assert_eq!(Directions::Left.rotate_clockwise(), Directions::Up);
    assert_eq!(Directions::Up.rotate_counter_clockwise(), Directions::Left);
    assert_eq!(Directions::Right.rotate_counter_clockwise(), Directions::Up);
    assert_eq!(Directions::Down.opposite(), Directions::Up);
    assert_eq!(Directions::Left.opposite(), Directions::Right);
}

#[test]
fn directions_degrees_and_names() {
    assert_eq!(Directions::Right.rotation_degrees(), 0);
    assert_eq!(Directions::Down.rotation_degrees(), 90);
    assert_eq!(Directions::Left.rotation_degrees(), 180);
    assert_eq!(Directions::Up.rotation_degrees(), 270);
    assert_eq!(Directions::Left.name(), "Left");
    assert_eq!(format!("{:?}", Directions::Up), "Up");
}

#[test]
fn cells_kinds() {
    assert!(Cells::EmptyCell.is_empty());
    assert!(!Cells::PushCell.is_empty());
    assert!(Cells::PushCell.is_pushable());
    assert!(Cells::MoverCell(Directions::Up).is_pushable());
    assert!(!Cells::GeneratorCell(Directions::Up).is_pushable());
    assert_eq!(Cells::GeneratorCell(Directions::Left).facing(), Some(Directions::Left));
    assert_eq!(Cells::PushCell.facing(), None);
}

#[test]
fn cells_palette_cycles() {
    let d = Directions::Down;
    assert_eq!(Cells::MoverCell(Directions::Up).next_kind(d), Cells::GeneratorCell(d));
    assert_eq!(Cells::GeneratorCell(Directions::Up).next_kind(d), Cells::PushCell);
    assert_eq!(Cells::PushCell.next_kind(d), Cells::MoverCell(d));
    assert_eq!(Cells::MoverCell(Directions::Up).previous_kind(d), Cells::PushCell);
    assert_eq!(Cells::PushCell.previous_kind(d), Cells::GeneratorCell(d));
    assert_eq!(Cells::GeneratorCell(Directions::Up).previous_kind(d), Cells::MoverCell(d));
    assert_eq!(Cells::EmptyCell.next_kind(d), Cells::MoverCell(d));
    assert_eq!(Cells::MoverCell(Directions::Up).oriented(d), Cells::MoverCell(d));
    assert_eq!(Cells::PushCell.oriented(d), Cells::PushCell);
}

#[test]
fn menu_wraps_both_ways() {
    let mut m = TitleMenu::new(3);
    assert_eq!(m.selected(), 0);
    m.select_previous();
    assert_eq!(m.selected(), 2);
    m.select_next();
    assert_eq!(m.selected(), 0);
    m.select_next();
    m.select_next();
    assert_eq!(m.selected(), 2);
}

#[test]
fn fps_history_shifts() {
    let mut h = FpsHistory::new(3);
    assert_eq!(h.len(), 3);
    assert_eq!(h.latest(), 0);
    h.record(60);
    h.record(59);
    assert_eq!(h.sample(0), 0);
    assert_eq!(h.sample(1), 60);
    assert_eq!(h.sample(2), 59);
    h.record(58);
    h.record(57);
    assert_eq!(h.sample(0), 59);
    assert_eq!(h.latest(), 57);
    let mut e = FpsHistory::new(0);
    e.record(5);
    assert_eq!(e.len(), 0);
    assert_eq!(e.latest(), 0);
}
