use battleship::game::{resolve_shot, AimingBoard, GameError};
use battleship::grid::{TargetBoard, BOARD_SIZE, TOTAL_SHIP_HEALTH};

fn full_board() -> TargetBoard {
    let mut b = TargetBoard::new();
    b.place_ship(0, 0, 5, true);
    b.place_ship(1, 0, 4, true);
    b.place_ship(2, 0, 3, true);
    b.place_ship(3, 0, 3, true);
    b.place_ship(4, 0, 2, true);
    b
}

#[test]
fn fresh_aiming_board() {
    let a = AimingBoard::new();
    assert_eq!(a.get_hits().len(), BOARD_SIZE);
    assert!(a.get_hits().iter().all(|h| !*h));
    assert!(a.get_misses().iter().all(|m| !*m));
    assert!(a.get_targetable().iter().all(|t| *t));
}

#[test]
fn shot_that_hits() {
    let target = full_board();
    let mut aim = AimingBoard::new();
    let mut left = TOTAL_SHIP_HEALTH;
    assert_eq!(resolve_shot(&mut aim, &target, &mut left, 10), Ok(true));
    assert_eq!(left, 16);
    assert!(aim.get_hits()[10]);
    assert!(!aim.get_misses()[10]);
    assert!(!aim.get_targetable()[10]);
}

#[test]
fn shot_that_misses() {
    let target = full_board();
    let mut aim = AimingBoard::new();
    let mut left = TOTAL_SHIP_HEALTH;
    assert_eq!(resolve_shot(&mut aim, &target, &mut left, 99), Ok(false));
    assert_eq!(left, 17);
    assert!(!aim.get_hits()[99]);
    assert!(aim.get_misses()[99]);
    assert!(!aim.get_targetable()[99]);
}

#[test]
fn shot_off_the_board() {
    let target = full_board();
    let mut aim = AimingBoard::new();
    let mut left = TOTAL_SHIP_HEALTH;
    assert_eq!(resolve_shot(&mut aim, &target, &mut left, 100), Err(GameError::IndexOutOfRange));
    assert_eq!(left, 17);
    assert!(aim.get_targetable().iter().all(|t| *t));
}

#[test]
fn shot_at_a_cell_fired_upon() {
    let target = full_board();
    let mut aim = AimingBoard::new();
    let mut left = TOTAL_SHIP_HEALTH;
    assert_eq!(resolve_shot(&mut aim, &target, &mut left, 0), Ok(true));
    assert_eq!(resolve_shot(&mut aim, &target, &mut left, 0), Err(GameError::AlreadyTargeted));
    assert_eq!(left, 16);
}

#[test]
fn sinking_every_ship_takes_every_hit_point() {
    let target = full_board();
    let mut aim = AimingBoard::new();
    let mut left = TOTAL_SHIP_HEALTH;
    for c in 0..BOARD_SIZE {
        resolve_shot(&mut aim, &target, &mut left, c).unwrap();
    }
    assert_eq!(left, 0);
    assert_eq!(aim.get_hits().iter().filter(|h| **h).count(), 17);
    assert_eq!(aim.get_misses().iter().filter(|m| **m).count(), 83);
    assert!(aim.get_targetable().iter().all(|t| !*t));
}
