use battleship::ai_player::{AIPlayer, BASE_WEIGHT};
use battleship::game::{BattleshipGame, Winner};
use battleship::grid::BOARD_SIZE;
use battleship::training::synchronize;

fn base_mass(p: &AIPlayer) -> i64 {
    p.base_weights().iter().map(|w| *w as i64).sum()
}

#[test]
fn one_game_has_exactly_one_winner() {
    let mut game = BattleshipGame::new(AIPlayer::new(), AIPlayer::new());
    let winner = game.run_game().unwrap();
    let (left_a, left_b) = game.remaining_hits();
    assert!((left_a == 0) != (left_b == 0));
    match winner {
        Winner::PlayerA => assert_eq!(left_b, 0),
        Winner::PlayerB => assert_eq!(left_a, 0),
    }
    assert_eq!(game.games_played(), 1);
    let turns = game.turns_taken();
    assert_eq!(turns.len(), 1);
    assert!(turns[0] >= 17 && turns[0] <= BOARD_SIZE);
}

#[test]
fn many_games_stay_within_the_board() {
    let mut game = BattleshipGame::new(AIPlayer::new(), AIPlayer::new());
    assert_eq!(game.average_turns(), None);
    game.run_multiple(20).unwrap();
    assert_eq!(game.games_played(), 20);
    assert_eq!(game.turns_taken().len(), 20);
    assert!(game.turns_taken().iter().all(|t| *t >= 17 && *t <= BOARD_SIZE));
    let mean = game.turns_taken().iter().sum::<usize>() / 20;
    assert_eq!(game.average_turns(), Some(mean));
}

#[test]
fn synchronized_agents_share_one_model() {
    let mut game = BattleshipGame::new(AIPlayer::new(), AIPlayer::new());
    game.run_multiple(3).unwrap();
    game.synchronize_agents();
    assert_eq!(game.player_a().base_weights(), game.player_b().base_weights());
    assert_eq!(game.player_a().hits_weights(), game.player_b().hits_weights());
    assert_eq!(game.player_a().misses_weights(), game.player_b().misses_weights());
    assert_eq!(game.games_played(), 3);
}

#[test]
fn synchronize_fuses_every_game() {
    let mut games = vec![
        BattleshipGame::new(AIPlayer::new(), AIPlayer::new()),
        BattleshipGame::new(AIPlayer::new(), AIPlayer::new()),
    ];
    games[0].run_multiple(2).unwrap();
    games[1].run_multiple(1).unwrap();
    let a0 = games[0].player_a().base_weights().clone();
    let b0 = games[0].player_b().base_weights().clone();
    let a1 = games[1].player_a().base_weights().clone();
    let b1 = games[1].player_b().base_weights().clone();
    synchronize(&mut games);
    let expected: Vec<u64> = (0..BOARD_SIZE)
        .map(|i| {
            let m = (a0[i] + b0[i]) / 2;
            let m = (m + a1[i]) / 2;
            (m + b1[i]) / 2
        })
        .collect();
    for g in &games {
        assert_eq!(g.player_a().base_weights(), &expected);
        assert_eq!(g.player_b().base_weights(), &expected);
    }
    assert_eq!(games[0].games_played(), 2);
    assert_eq!(games[1].games_played(), 1);
}

#[test]
fn thousand_games_bound_the_drift_of_base_mass() {
    let mut games = vec![BattleshipGame::new(AIPlayer::new(), AIPlayer::new())];
    let initial = base_mass(games[0].player_a());
    assert_eq!(initial, BASE_WEIGHT as i64 * BOARD_SIZE as i64);
    for _ in 0..10 {
        games[0].run_multiple(100).unwrap();
        synchronize(&mut games);
    }
    assert_eq!(games[0].games_played(), 1000);
    assert!(games[0].turns_taken().iter().all(|t| *t <= BOARD_SIZE));
    let last = base_mass(games[0].player_a());
    assert_eq!(last, base_mass(games[0].player_b()));
    // one game at a learning step of one unit per decision
    assert!((last - initial).abs() <= 1000);
}
