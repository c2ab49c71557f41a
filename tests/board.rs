use battleship::grid::{TargetBoard, BOARD_SIZE, SHIP_LENGTHS, TOTAL_SHIP_HEALTH};

fn sorted(v: &Vec<u32>) -> Vec<u32> {
    let mut s = v.clone();
    s.sort();
    s
}

fn occupied_cells(b: &TargetBoard) -> Vec<usize> {
    (0..BOARD_SIZE).filter(|c| b.check_hit(*c)).collect()
}

#[test]
fn new_board_is_empty_and_requires_fleet() {
    let b = TargetBoard::new();
    assert_eq!(b.occupied_count(), 0);
    assert!(occupied_cells(&b).is_empty());
    assert_eq!(sorted(b.required_lengths()), vec![2, 3, 3, 4, 5]);
    assert!(!b.all_ships_placed());
}

#[test]
fn vertical_ship_covers_its_column() {
    let mut b = TargetBoard::new();
    b.place_ship(3, 2, 4, true);
    assert_eq!(occupied_cells(&b), vec![23, 33, 43, 53]);
    assert_eq!(b.occupied_count(), 4);
    assert_eq!(sorted(b.required_lengths()), vec![2, 3, 3, 5]);
}

#[test]
fn horizontal_ship_covers_its_row() {
    let mut b = TargetBoard::new();
    b.place_ship(5, 9, 5, false);
    assert_eq!(occupied_cells(&b), vec![95, 96, 97, 98, 99]);
    assert_eq!(sorted(b.required_lengths()), vec![2, 3, 3, 4]);
}

#[test]
fn length_not_required_is_rejected() {
    let mut b = TargetBoard::new();
    b.place_ship(0, 0, 5, true);
    let before_required = sorted(b.required_lengths());
    let before_cells = occupied_cells(&b);
    b.place_ship(2, 0, 6, true);
    assert_eq!(sorted(b.required_lengths()), before_required);
    assert_eq!(occupied_cells(&b), before_cells);
    // a second ship of length 5 is no longer required either
    b.place_ship(4, 0, 5, true);
    assert_eq!(sorted(b.required_lengths()), before_required);
    assert_eq!(occupied_cells(&b), before_cells);
}

#[test]
fn ship_off_the_board_is_rejected() {
    let mut b = TargetBoard::new();
    b.place_ship(0, 9, 5, true);
    b.place_ship(8, 0, 3, false);
    b.place_ship(10, 0, 2, true);
    b.place_ship(0, 10, 2, false);
    assert_eq!(b.occupied_count(), 0);
    assert_eq!(sorted(b.required_lengths()), vec![2, 3, 3, 4, 5]);
}

#[test]
fn overlapping_ship_is_rejected() {
    let mut b = TargetBoard::new();
    b.place_ship(2, 0, 5, true);
    b.place_ship(0, 3, 4, false);
    assert_eq!(occupied_cells(&b), vec![2, 12, 22, 32, 42]);
    assert_eq!(sorted(b.required_lengths()), vec![2, 3, 3, 4]);
    b.place_ship(3, 3, 4, false);
    assert_eq!(occupied_cells(&b), vec![2, 12, 22, 32, 33, 34, 35, 36, 42]);
}

#[test]
fn full_fleet_covers_total_health() {
    let mut b = TargetBoard::new();
    for (i, len) in SHIP_LENGTHS.iter().enumerate() {
        b.place_ship(0, 2 * i as u32, *len, false);
    }
    assert!(b.all_ships_placed());
    assert_eq!(b.occupied_count(), TOTAL_SHIP_HEALTH as usize);
    assert_eq!(occupied_cells(&b).len(), 17);
}
