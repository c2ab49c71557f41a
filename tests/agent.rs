use battleship::ai_player::{AIPlayer, BASE_WEIGHT, INITIAL_WEIGHT, MATRIX_SIZE};
use battleship::game::{resolve_shot, AimingBoard, GameError, Player};
use battleship::grid::{TargetBoard, BOARD_SIZE, TOTAL_SHIP_HEALTH};

fn empty_target() -> TargetBoard {
    TargetBoard::new()
}

#[test]
fn fresh_agent_weights() {
    let p = AIPlayer::new();
    assert_eq!(p.base_weights(), &vec![BASE_WEIGHT; BOARD_SIZE]);
    assert_eq!(p.hits_weights(), &vec![INITIAL_WEIGHT; MATRIX_SIZE]);
    assert_eq!(p.misses_weights(), &vec![INITIAL_WEIGHT; MATRIX_SIZE]);
    assert_eq!(p.decision_count(), 0);
}

#[test]
fn scores_on_a_fresh_board_are_the_base_weights() {
    let p = AIPlayer::new();
    let aim = AimingBoard::new();
    assert_eq!(p.shot_weights(&aim), vec![100_000; BOARD_SIZE]);
}

#[test]
fn scores_add_hit_and_miss_weights_and_skip_fired_cells() {
    let p = AIPlayer::new();
    let mut target = TargetBoard::new();
    target.place_ship(0, 0, 2, true);
    let mut aim = AimingBoard::new();
    let mut left = 2;
    assert_eq!(resolve_shot(&mut aim, &target, &mut left, 0), Ok(true));
    assert_eq!(resolve_shot(&mut aim, &target, &mut left, 5), Ok(false));
    let w = p.shot_weights(&aim);
    assert_eq!(w[0], 0);
    assert_eq!(w[5], 0);
    assert_eq!(w[1], 100_000 + 1_000_000 + 1_000_000);
    assert_eq!(w[99], 2_100_000);
}

#[test]
fn shot_is_a_cell_not_fired_upon() {
    let mut p = AIPlayer::new();
    let target = empty_target();
    let mut aim = AimingBoard::new();
    let mut left = TOTAL_SHIP_HEALTH;
    for c in 0..BOARD_SIZE - 1 {
        resolve_shot(&mut aim, &target, &mut left, c).unwrap();
    }
    p.new_game();
    for _ in 0..20 {
        assert_eq!(p.take_shot(&aim), Ok(BOARD_SIZE - 1));
    }
    assert_eq!(p.decision_count(), 20);
}

#[test]
fn no_cell_left_is_invalid_distribution() {
    let mut p = AIPlayer::new();
    let target = empty_target();
    let mut aim = AimingBoard::new();
    let mut left = TOTAL_SHIP_HEALTH;
    for c in 0..BOARD_SIZE {
        resolve_shot(&mut aim, &target, &mut left, c).unwrap();
    }
    assert_eq!(p.take_shot(&aim), Err(GameError::InvalidDistribution));
    assert_eq!(p.decision_count(), 0);
}

#[test]
fn winning_raises_the_chosen_cells() {
    let mut p = AIPlayer::new();
    let target = empty_target();
    let mut aim = AimingBoard::new();
    let mut left = TOTAL_SHIP_HEALTH;
    for c in 0..BOARD_SIZE - 1 {
        resolve_shot(&mut aim, &target, &mut left, c).unwrap();
    }
    p.new_game();
    p.take_shot(&aim).unwrap();
    p.take_shot(&aim).unwrap();
    p.game_finish(true);
    assert_eq!(p.base_weights()[99], BASE_WEIGHT + 2);
    assert_eq!(p.base_weights()[98], BASE_WEIGHT);
    assert_eq!(p.hits_weights()[99 * 100 + 7], INITIAL_WEIGHT + 20);
    assert_eq!(p.hits_weights()[98 * 100 + 7], INITIAL_WEIGHT);
    assert_eq!(p.misses_weights()[99 * 100 + 7], INITIAL_WEIGHT);
}

#[test]
fn losing_lowers_the_chosen_cells() {
    let mut p = AIPlayer::new();
    let target = empty_target();
    let mut aim = AimingBoard::new();
    let mut left = TOTAL_SHIP_HEALTH;
    for c in 1..BOARD_SIZE {
        resolve_shot(&mut aim, &target, &mut left, c).unwrap();
    }
    p.new_game();
    p.take_shot(&aim).unwrap();
    p.game_finish(false);
    assert_eq!(p.base_weights()[0], BASE_WEIGHT - 1);
    assert_eq!(p.hits_weights()[42], INITIAL_WEIGHT - 10);
    assert_eq!(p.hits_weights()[100], INITIAL_WEIGHT);
}

#[test]
fn new_game_forgets_decisions() {
    let mut p = AIPlayer::new();
    let aim = AimingBoard::new();
    p.take_shot(&aim).unwrap();
    assert_eq!(p.decision_count(), 1);
    p.new_game();
    assert_eq!(p.decision_count(), 0);
    p.game_finish(true);
    assert_eq!(p.base_weights(), &vec![BASE_WEIGHT; BOARD_SIZE]);
}

#[test]
fn placement_is_complete_and_repeatable() {
    let mut p = AIPlayer::new();
    p.new_game();
    let first = p.place_ships();
    p.new_game();
    let mut second = p.place_ships();
    assert!(first.all_ships_placed());
    assert!(second.all_ships_placed());
    assert_eq!(first.occupied_count(), TOTAL_SHIP_HEALTH as usize);
    assert_eq!(second.occupied_count(), first.occupied_count());
    // the two boards are independent values
    second.place_ship(9, 9, 1, true);
    for c in 0..BOARD_SIZE {
        assert_eq!(first.check_hit(c), second.check_hit(c));
    }
    let expected: Vec<usize> = vec![0, 1, 2, 3, 4, 10, 11, 12, 13, 14, 20, 21, 22, 23, 30, 31, 40];
    let cells: Vec<usize> = (0..BOARD_SIZE).filter(|c| first.check_hit(*c)).collect();
    assert_eq!(cells, expected);
}

fn trained_agent(won: bool, shots: usize) -> AIPlayer {
    let mut p = AIPlayer::new();
    let target = empty_target();
    let mut aim = AimingBoard::new();
    let mut left = TOTAL_SHIP_HEALTH;
    for c in 0..BOARD_SIZE - 1 {
        resolve_shot(&mut aim, &target, &mut left, c).unwrap();
    }
    for _ in 0..shots {
        p.take_shot(&aim).unwrap();
    }
    p.game_finish(won);
    p
}

#[test]
fn merge_takes_the_mean() {
    let mut a = trained_agent(true, 3);
    let b = trained_agent(false, 4);
    a.merge(&b);
    assert_eq!(a.base_weights()[99], (BASE_WEIGHT + 3 + BASE_WEIGHT - 4) / 2);
    assert_eq!(a.base_weights()[0], BASE_WEIGHT);
    assert_eq!(a.hits_weights()[9900], (INITIAL_WEIGHT + 30 + INITIAL_WEIGHT - 40) / 2);
}

#[test]
fn merge_with_an_equal_model_changes_nothing() {
    let mut a = trained_agent(true, 5);
    let b = trained_agent(true, 5);
    let before = a.base_weights().clone();
    let before_hits = a.hits_weights().clone();
    a.merge(&b);
    assert_eq!(a.base_weights(), &before);
    assert_eq!(a.hits_weights(), &before_hits);
}

#[test]
fn merge_then_adopt_makes_models_identical() {
    let mut a = trained_agent(true, 3);
    let mut b = trained_agent(false, 6);
    a.merge(&b);
    b.adopt(&a);
    assert_eq!(a.base_weights(), b.base_weights());
    assert_eq!(a.hits_weights(), b.hits_weights());
    assert_eq!(a.misses_weights(), b.misses_weights());
    assert_eq!(a.base_weights()[99], (BASE_WEIGHT + 3 + BASE_WEIGHT - 6) / 2);
}

#[test]
fn merge_is_the_same_either_way() {
    let a0 = trained_agent(true, 3);
    let b0 = trained_agent(false, 7);
    let mut a = a0.clone();
    a.merge(&b0);
    let mut b = b0.clone();
    b.merge(&a0);
    assert_eq!(a.base_weights(), b.base_weights());
    assert_eq!(a.hits_weights(), b.hits_weights());
    assert_eq!(a.misses_weights(), b.misses_weights());
}

#[test]
fn cloned_aiming_board_is_independent() {
    let target = empty_target();
    let mut aim = AimingBoard::new();
    let copy = aim.clone();
    let mut left = TOTAL_SHIP_HEALTH;
    resolve_shot(&mut aim, &target, &mut left, 4).unwrap();
    assert!(copy.get_targetable()[4]);
    assert!(!aim.get_targetable()[4]);
}
