//! The game: each player's aiming board, the agent interface, and the
//! turn-by-turn state machine that plays one game to its end.

use vstd::prelude::*;

use crate::ai_player::{merged, AIPlayer};
use crate::grid::{
    count_true, lemma_count_true_bound, lemma_count_true_none, lemma_count_true_set,
    lemma_count_true_subset, lemma_coverage_is_fleet_length, TargetBoard, BOARD_SIZE,
    TOTAL_SHIP_HEALTH,
};

verus! {

/// Why a game, or one shot of it, could not go on.
#[derive(Clone, Copy, Debug, PartialEq, Eq, Structural)]
pub enum GameError {
    /// A cell index outside the board.
    IndexOutOfRange,
    /// A shot at a cell that the same player has already fired upon.
    AlreadyTargeted,
    /// A target board without the whole fleet on it.
    InvalidPlacement,
    /// No cell could be drawn: no remaining cell had a positive score.
    InvalidDistribution,
}

/// The player who won a game.
#[derive(Clone, Copy, Debug, PartialEq, Eq, Structural)]
pub enum Winner {
    /// The player who fires first.
    PlayerA,
    /// The player who fires second.
    PlayerB,
}

/// What one player has learned by firing: which cells were hits, which were
/// misses, and which may still be fired upon.
#[derive(Clone)]
pub struct AimingBoard {
    hits: Vec<bool>,
    misses: Vec<bool>,
    targetable: Vec<bool>,
}

/// The number of shots fired on an aiming board whose targetable cells are `t`.
pub open spec fn shots_fired(t: Seq<bool>) -> int {
    BOARD_SIZE - count_true(t)
}

impl AimingBoard {
    /// The cells that were hits.
    pub closed spec fn hits(self) -> Seq<bool> {
        self.hits@
    }

    /// The cells that were misses.
    pub closed spec fn misses(self) -> Seq<bool> {
        self.misses@
    }

    /// The cells that may still be fired upon.
    pub closed spec fn targetable(self) -> Seq<bool> {
        self.targetable@
    }

    /// One entry per cell; a cell is a hit or a miss exactly when it has been
    /// fired upon, and never both.
    pub open spec fn wf(self) -> bool {
        &&& self.hits().len() == BOARD_SIZE
        &&& self.misses().len() == BOARD_SIZE
        &&& self.targetable().len() == BOARD_SIZE
        &&& forall|c: int|
            0 <= c < BOARD_SIZE ==> {
                &&& #[trigger] self.hits()[c] ==> !self.targetable()[c]
                &&& self.misses()[c] ==> !self.targetable()[c]
                &&& !(self.hits()[c] && self.misses()[c])
                &&& !self.targetable()[c] ==> (self.hits()[c] || self.misses()[c])
            }
    }

    /// A board on which nothing has been fired yet.
    pub fn new() -> (r: Self)
        ensures
            r.wf(),
            r.hits() == Seq::new(BOARD_SIZE as nat, |c: int| false),
            r.misses() == Seq::new(BOARD_SIZE as nat, |c: int| false),
            r.targetable() == Seq::new(BOARD_SIZE as nat, |c: int| true),
    {
        let mut hits: Vec<bool> = Vec::new();
        let mut misses: Vec<bool> = Vec::new();
        let mut targetable: Vec<bool> = Vec::new();
        let mut i: usize = 0;
        while i < BOARD_SIZE
            invariant
                i <= BOARD_SIZE,
                hits@ == Seq::new(i as nat, |c: int| false),
                misses@ == Seq::new(i as nat, |c: int| false),
                targetable@ == Seq::new(i as nat, |c: int| true),
            decreases BOARD_SIZE - i,
        {
            hits.push(false);
            misses.push(false);
            targetable.push(true);
            i = i + 1;
        }
        Self { hits, misses, targetable }
    }

    /// The cells that were hits.
    pub fn get_hits(&self) -> (r: &Vec<bool>)
        ensures
            r@ == self.hits(),
    {
        &self.hits
    }

    /// The cells that were misses.
    pub fn get_misses(&self) -> (r: &Vec<bool>)
        ensures
            r@ == self.misses(),
    {
        &self.misses
    }

    /// The cells that may still be fired upon.
    pub fn get_targetable(&self) -> (r: &Vec<bool>)
        ensures
            r@ == self.targetable(),
    {
        &self.targetable
    }

    /// Records the outcome of a shot at a cell not fired upon before.
    pub fn record_shot(&mut self, cell: usize, hit: bool)
        requires
            old(self).wf(),
            cell < BOARD_SIZE,
            old(self).targetable()[cell as int],
        ensures
            final(self).wf(),
            final(self).hits() == old(self).hits().update(cell as int, hit),
            final(self).misses() == old(self).misses().update(cell as int, !hit),
            final(self).targetable() == old(self).targetable().update(cell as int, false),
            count_true(final(self).targetable()) + 1 == count_true(old(self).targetable()),
    {
        proof {
            let t = self.targetable@;
            assert(t.update(cell as int, false).update(cell as int, true) =~= t);
            lemma_count_true_set(t.update(cell as int, false), cell as int);
        }
        self.hits[cell] = hit;
        self.misses[cell] = !hit;
        self.targetable[cell] = false;
    }
}

/// Whether the aiming board `aim` of one player agrees with the target board
/// of the other player, who has `hits_left` hit-points: every hit is an
/// occupied cell, every miss an empty one, and the hit-points left are the
/// occupied cells not yet hit.
pub open spec fn consistent(aim: AimingBoard, target: TargetBoard, hits_left: u32) -> bool {
    &&& aim.wf()
    &&& target@.len() == BOARD_SIZE
    &&& forall|c: int| 0 <= c < BOARD_SIZE && #[trigger] aim.hits()[c] ==> target@[c]
    &&& forall|c: int| 0 <= c < BOARD_SIZE && #[trigger] aim.misses()[c] ==> !target@[c]
    &&& hits_left + count_true(aim.hits()) == target.coverage()
}

/// Resolves a shot at `cell` by the player whose aiming board is `aim` against
/// the other player's `target`, who has `hits_left` hit-points. A cell off the
/// board or already fired upon is refused and nothing changes. Otherwise
/// returns whether the shot hit, records it, and on a hit takes one hit-point.
pub fn resolve_shot(aim: &mut AimingBoard, target: &TargetBoard, hits_left: &mut u32, cell: usize) -> (r: Result<bool, GameError>)
    requires
        consistent(*old(aim), *target, *old(hits_left)),
    ensures
        consistent(*final(aim), *target, *final(hits_left)),
        cell >= BOARD_SIZE ==> r == Err::<bool, GameError>(GameError::IndexOutOfRange),
        cell < BOARD_SIZE && !old(aim).targetable()[cell as int] ==> r == Err::<bool, GameError>(GameError::AlreadyTargeted),
        r is Err ==> *final(aim) == *old(aim) && *final(hits_left) == *old(hits_left),
        cell < BOARD_SIZE && old(aim).targetable()[cell as int] ==> {
            let hit = target@[cell as int];
            &&& r == Ok::<bool, GameError>(hit)
            &&& final(aim).hits() == old(aim).hits().update(cell as int, hit)
            &&& final(aim).misses() == old(aim).misses().update(cell as int, !hit)
            &&& final(aim).targetable() == old(aim).targetable().update(cell as int, false)
            &&& *final(hits_left) == if hit { *old(hits_left) - 1 } else { *old(hits_left) as int }
            &&& count_true(final(aim).targetable()) + 1 == count_true(old(aim).targetable())
        },
{
    if cell >= BOARD_SIZE {
        return Err(GameError::IndexOutOfRange);
    }
    if !aim.get_targetable()[cell] {
        return Err(GameError::AlreadyTargeted);
    }
    let hit = target.check_hit(cell);
    let ghost before = aim.hits();
    proof {
        if hit {
            lemma_count_true_set(before, cell as int);
            lemma_count_true_subset(before.update(cell as int, true), target@);
        }
    }
    aim.record_shot(cell, hit);
    if hit {
        *hits_left = *hits_left - 1;
    }
    proof {
        if !hit {
            assert(aim.hits() =~= before);
        }
        assert forall|c: int| 0 <= c < BOARD_SIZE && #[trigger] aim.hits()[c] implies target@[c] by {
            if c != cell {
                assert(aim.hits()[c] == before[c]);
            }
        }
    }
    Ok(hit)
}

/// A player of the game: places its fleet and chooses where to fire.
pub trait Player: Sized {
    /// The player's own invariant, kept by every call.
    spec fn wf(&self) -> bool;

    /// Whether the player keeps to the rules: it lays out the whole fleet and
    /// only fires at cells it has not fired upon, failing to choose only when
    /// no such cell is left. Every call keeps it.
    spec fn reliable(&self) -> bool;

    /// Whether this state is what learning the outcome `won` makes of the
    /// state `before`.
    spec fn finished(&self, before: Self, won: bool) -> bool;

    /// Prepares for a new game.
    fn new_game(&mut self)
        requires
            old(self).wf(),
        ensures
            final(self).wf(),
            old(self).reliable() ==> final(self).reliable(),
    ;

    /// Lays out the player's fleet on a fresh target board.
    fn place_ships(&mut self) -> (r: TargetBoard)
        requires
            old(self).wf(),
        ensures
            final(self).wf(),
            old(self).reliable() ==> r.is_complete() && final(self).reliable(),
    ;

    /// Chooses a cell to fire upon, seeing only the player's own aiming board.
    fn take_shot(&mut self, aiming_board: &AimingBoard) -> (r: Result<usize, GameError>)
        requires
            old(self).wf(),
            aiming_board.wf(),
        ensures
            final(self).wf(),
            old(self).reliable() ==> {
                &&& final(self).reliable()
                &&& r matches Ok(c) ==> c < BOARD_SIZE && aiming_board.targetable()[c as int]
                &&& r is Err ==> forall|c: int| 0 <= c < BOARD_SIZE ==> !#[trigger] aiming_board.targetable()[c]
            },
    ;

    /// Learns the outcome of the game.
    fn game_finish(&mut self, won: bool)
        requires
            old(self).wf(),
        ensures
            final(self).wf(),
            final(self).finished(*old(self), won),
            old(self).reliable() ==> final(self).reliable(),
    ;
}

/// One seat of a game: the agent, its hit-points left, its aiming board and
/// its own target board.
struct InternalPlayer<T: Player> {
    player: T,
    hits_left: u32,
    aiming_board: AimingBoard,
    target_board: TargetBoard,
}

impl<T: Player> InternalPlayer<T> {
    fn new(p: T) -> (r: Self)
        requires
            p.wf(),
        ensures
            r.player.wf(),
            r.hits_left == TOTAL_SHIP_HEALTH,
            r.aiming_board.wf(),
            r.aiming_board.hits() == Seq::new(BOARD_SIZE as nat, |c: int| false),
            r.aiming_board.misses() == Seq::new(BOARD_SIZE as nat, |c: int| false),
            r.aiming_board.targetable() == Seq::new(BOARD_SIZE as nat, |c: int| true),
            p.reliable() ==> r.player.reliable() && r.target_board.is_complete(),
    {
        let mut p = p;
        let target_board = p.place_ships();
        Self { player: p, hits_left: TOTAL_SHIP_HEALTH, aiming_board: AimingBoard::new(), target_board }
    }

    /// Starts a new game: the agent lays out a fresh fleet and nothing has
    /// been fired yet.
    fn reset(&mut self)
        requires
            old(self).player.wf(),
        ensures
            final(self).player.wf(),
            final(self).hits_left == TOTAL_SHIP_HEALTH,
            final(self).aiming_board.wf(),
            final(self).aiming_board.hits() == Seq::new(BOARD_SIZE as nat, |c: int| false),
            final(self).aiming_board.misses() == Seq::new(BOARD_SIZE as nat, |c: int| false),
            final(self).aiming_board.targetable() == Seq::new(BOARD_SIZE as nat, |c: int| true),
            old(self).player.reliable() ==> final(self).player.reliable() && final(self).target_board.is_complete(),
    {
        self.player.new_game();
        self.target_board = self.player.place_ships();
        self.hits_left = TOTAL_SHIP_HEALTH;
        self.aiming_board = AimingBoard::new();
    }

    fn take_shot(&mut self) -> (r: Result<usize, GameError>)
        requires
            old(self).player.wf(),
            old(self).aiming_board.wf(),
        ensures
            final(self).player.wf(),
            final(self).aiming_board == old(self).aiming_board,
            final(self).target_board == old(self).target_board,
            final(self).hits_left == old(self).hits_left,
            old(self).player.reliable() ==> {
                &&& final(self).player.reliable()
                &&& r matches Ok(c) ==> c < BOARD_SIZE && old(self).aiming_board.targetable()[c as int]
                &&& r is Err ==> forall|c: int|
                    0 <= c < BOARD_SIZE ==> !#[trigger] old(self).aiming_board.targetable()[c]
            },
    {
        self.player.take_shot(&self.aiming_board)
    }
}

/// A game between two agents, which may be played again and again; it keeps
/// the number of games played and, for each, the number of turns taken.
pub struct BattleshipGame<A: Player, B: Player> {
    player_a: InternalPlayer<A>,
    player_b: InternalPlayer<B>,
    played: usize,
    turns_taken: Vec<usize>,
}

impl<A: Player, B: Player> BattleshipGame<A, B> {
    /// Both agents are well formed, as are both aiming boards.
    pub closed spec fn wf(self) -> bool {
        &&& self.player_a.player.wf()
        &&& self.player_b.player.wf()
        &&& self.player_a.aiming_board.wf()
        &&& self.player_b.aiming_board.wf()
    }

    /// The agent who fires first.
    pub closed spec fn agent_a(self) -> A {
        self.player_a.player
    }

    /// The agent who fires second.
    pub closed spec fn agent_b(self) -> B {
        self.player_b.player
    }

    /// Hit-points left to the first player.
    pub closed spec fn hits_left_a(self) -> u32 {
        self.player_a.hits_left
    }

    /// Hit-points left to the second player.
    pub closed spec fn hits_left_b(self) -> u32 {
        self.player_b.hits_left
    }

    /// The first player's aiming board.
    pub closed spec fn aiming_a(self) -> AimingBoard {
        self.player_a.aiming_board
    }

    /// The second player's aiming board.
    pub closed spec fn aiming_b(self) -> AimingBoard {
        self.player_b.aiming_board
    }

    /// The first player's target board.
    pub closed spec fn target_a(self) -> TargetBoard {
        self.player_a.target_board
    }

    /// The second player's target board.
    pub closed spec fn target_b(self) -> TargetBoard {
        self.player_b.target_board
    }

    /// The number of games played to their end.
    pub closed spec fn played(self) -> usize {
        self.played
    }

    /// The turns taken in each game played, in order.
    pub closed spec fn turns(self) -> Seq<usize> {
        self.turns_taken@
    }

    /// A game between `p1`, who fires first, and `p2`.
    pub fn new(p1: A, p2: B) -> (r: Self)
        requires
            p1.wf(),
            p2.wf(),
        ensures
            r.wf(),
            r.played() == 0,
            r.turns().len() == 0,
            r.hits_left_a() == TOTAL_SHIP_HEALTH,
            r.hits_left_b() == TOTAL_SHIP_HEALTH,
            r.aiming_a().hits() == Seq::new(BOARD_SIZE as nat, |c: int| false),
            r.aiming_a().misses() == Seq::new(BOARD_SIZE as nat, |c: int| false),
            r.aiming_a().targetable() == Seq::new(BOARD_SIZE as nat, |c: int| true),
            r.aiming_b().hits() == Seq::new(BOARD_SIZE as nat, |c: int| false),
            r.aiming_b().misses() == Seq::new(BOARD_SIZE as nat, |c: int| false),
            r.aiming_b().targetable() == Seq::new(BOARD_SIZE as nat, |c: int| true),
            p1.reliable() ==> r.agent_a().reliable() && r.target_a().is_complete(),
            p2.reliable() ==> r.agent_b().reliable() && r.target_b().is_complete(),
    {
        Self {
            player_a: InternalPlayer::new(p1),
            player_b: InternalPlayer::new(p2),
            played: 0,
            turns_taken: Vec::new(),
        }
    }

    /// Plays one game to its end. Both agents lay out their fleets, then fire
    /// in turn, the first player first, each on its own aiming board against
    /// the other's target board, until one player has no hit-points left; the
    /// loser and the winner then learn the outcome. A fleet that is not
    /// complete, or a shot off the board or at a cell fired upon before, ends
    /// the game with an error and nothing is counted; between agents that keep
    /// to the rules the game always ends with a winner.
    pub fn run_game(&mut self) -> (r: Result<Winner, GameError>)
        requires
            old(self).wf(),
            old(self).played() < usize::MAX,
        ensures
            final(self).wf(),
            old(self).agent_a().reliable() ==> final(self).agent_a().reliable(),
            old(self).agent_b().reliable() ==> final(self).agent_b().reliable(),
            old(self).agent_a().reliable() && old(self).agent_b().reliable() ==> r is Ok,
            r is Err ==> final(self).played() == old(self).played() && final(self).turns() == old(self).turns(),
            r matches Ok(w) ==> {
                &&& (final(self).hits_left_a() == 0) != (final(self).hits_left_b() == 0)
                &&& (w == Winner::PlayerA) == (final(self).hits_left_b() == 0)
                &&& w == Winner::PlayerA ==> exists|a: A| #[trigger] final(self).agent_a().finished(a, true)
                &&& w == Winner::PlayerA ==> exists|b: B| #[trigger] final(self).agent_b().finished(b, false)
                &&& w == Winner::PlayerB ==> exists|a: A| #[trigger] final(self).agent_a().finished(a, false)
                &&& w == Winner::PlayerB ==> exists|b: B| #[trigger] final(self).agent_b().finished(b, true)
                &&& consistent(final(self).aiming_a(), final(self).target_b(), final(self).hits_left_b())
                &&& consistent(final(self).aiming_b(), final(self).target_a(), final(self).hits_left_a())
                &&& final(self).target_a().is_complete()
                &&& final(self).target_b().is_complete()
                &&& final(self).target_a().coverage() == TOTAL_SHIP_HEALTH
                &&& final(self).target_b().coverage() == TOTAL_SHIP_HEALTH
                &&& TOTAL_SHIP_HEALTH <= shots_fired(final(self).aiming_a().targetable()) <= BOARD_SIZE
                &&& shots_fired(final(self).aiming_b().targetable()) <= shots_fired(final(self).aiming_a().targetable())
                &&& (shots_fired(final(self).aiming_a().targetable()) == shots_fired(final(self).aiming_b().targetable()) + 1)
                    == (w == Winner::PlayerA)
                &&& final(self).turns() == old(self).turns().push(
                    shots_fired(final(self).aiming_a().targetable()) as usize,
                )
                &&& final(self).played() == old(self).played() + 1
            },
    {
        let ghost reliable_a = self.player_a.player.reliable();
        let ghost reliable_b = self.player_b.player.reliable();
        self.player_a.reset();
        self.player_b.reset();
        if !self.player_a.target_board.all_ships_placed() || !self.player_b.target_board.all_ships_placed() {
            return Err(GameError::InvalidPlacement);
        }
        proof {
            use_type_invariant(&self.player_a.target_board);
            use_type_invariant(&self.player_b.target_board);
            lemma_coverage_is_fleet_length(self.player_a.target_board);
            lemma_coverage_is_fleet_length(self.player_b.target_board);
            lemma_count_true_none(self.player_a.aiming_board.hits());
            lemma_count_true_none(self.player_b.aiming_board.hits());
            assert(count_true(self.player_a.aiming_board.targetable()) == BOARD_SIZE) by {
                lemma_all_true_count(self.player_a.aiming_board.targetable());
            }
            assert(count_true(self.player_b.aiming_board.targetable()) == BOARD_SIZE) by {
                lemma_all_true_count(self.player_b.aiming_board.targetable());
            }
        }
        let mut current_player_id: usize = 0;
        let mut turns_taken: usize = 0;
        while self.player_a.hits_left > 0 && self.player_b.hits_left > 0
            invariant
                self.wf(),
                self.played == old(self).played,
                self.turns_taken@ == old(self).turns_taken@,
                reliable_a == old(self).player_a.player.reliable(),
                reliable_b == old(self).player_b.player.reliable(),
                reliable_a ==> self.player_a.player.reliable(),
                reliable_b ==> self.player_b.player.reliable(),
                self.player_a.target_board.is_complete(),
                self.player_b.target_board.is_complete(),
                self.player_a.target_board.coverage() == TOTAL_SHIP_HEALTH,
                self.player_b.target_board.coverage() == TOTAL_SHIP_HEALTH,
                consistent(self.player_a.aiming_board, self.player_b.target_board, self.player_b.hits_left),
                consistent(self.player_b.aiming_board, self.player_a.target_board, self.player_a.hits_left),
                current_player_id < 2,
                current_player_id == 0 ==> self.player_b.hits_left > 0,
                current_player_id == 1 ==> self.player_a.hits_left > 0,
                turns_taken == shots_fired(self.player_a.aiming_board.targetable()),
                current_player_id == 0 ==> shots_fired(self.player_b.aiming_board.targetable()) == turns_taken,
                current_player_id == 1 ==> shots_fired(self.player_b.aiming_board.targetable()) + 1 == turns_taken,
                current_player_id == 1 ==> turns_taken > 0,
            decreases count_true(self.player_a.aiming_board.targetable()) + count_true(self.player_b.aiming_board.targetable()),
        {
            proof {
                lemma_count_true_bound(self.player_a.aiming_board.targetable());
                lemma_count_true_bound(self.player_b.aiming_board.targetable());
            }
            if current_player_id == 0 {
                let shot = self.player_a.take_shot();
                let cell = match shot {
                    Ok(c) => c,
                    Err(e) => {
                        proof {
                            if reliable_a {
                                lemma_exhausted_board_sinks_fleet(
                                    self.player_a.aiming_board,
                                    self.player_b.target_board,
                                    self.player_b.hits_left,
                                );
                            }
                        }
                        return Err(e);
                    },
                };
                let outcome = resolve_shot(
                    &mut self.player_a.aiming_board,
                    &self.player_b.target_board,
                    &mut self.player_b.hits_left,
                    cell,
                );
                if let Err(e) = outcome {
                    return Err(e);
                }
                turns_taken = turns_taken + 1;
                current_player_id = 1;
            } else {
                let shot = self.player_b.take_shot();
                let cell = match shot {
                    Ok(c) => c,
                    Err(e) => {
                        proof {
                            if reliable_b {
                                lemma_exhausted_board_sinks_fleet(
                                    self.player_b.aiming_board,
                                    self.player_a.target_board,
                                    self.player_a.hits_left,
                                );
                            }
                        }
                        return Err(e);
                    },
                };
                let outcome = resolve_shot(
                    &mut self.player_b.aiming_board,
                    &self.player_a.target_board,
                    &mut self.player_a.hits_left,
                    cell,
                );
                if let Err(e) = outcome {
                    return Err(e);
                }
                current_player_id = 0;
            }
        }
        proof {
            lemma_count_true_bound(self.player_a.aiming_board.targetable());
            lemma_hits_within_shots(self.player_a.aiming_board);
            lemma_hits_within_shots(self.player_b.aiming_board);
        }
        let ghost agent_a = self.player_a.player;
        let ghost agent_b = self.player_b.player;
        let winner = if self.player_a.hits_left == 0 {
            self.player_a.player.game_finish(false);
            self.player_b.player.game_finish(true);
            Winner::PlayerB
        } else {
            self.player_a.player.game_finish(true);
            self.player_b.player.game_finish(false);
            Winner::PlayerA
        };
        self.played = self.played + 1;
        self.turns_taken.push(turns_taken);
        proof {
            let sa = shots_fired(self.player_a.aiming_board.targetable());
            let sb = shots_fired(self.player_b.aiming_board.targetable());
            assert(TOTAL_SHIP_HEALTH <= sa);
            assert((sa == sb + 1) == (winner == Winner::PlayerA));
            if winner == Winner::PlayerA {
                assert(self.agent_a().finished(agent_a, true));
                assert(self.agent_b().finished(agent_b, false));
            } else {
                assert(self.agent_a().finished(agent_a, false));
                assert(self.agent_b().finished(agent_b, true));
            }
        }
        Ok(winner)
    }

    /// Plays `count` games one after the other, stopping at the first that
    /// ends in an error; between agents that keep to the rules every game
    /// ends normally.
    pub fn run_multiple(&mut self, count: usize) -> (r: Result<(), GameError>)
        requires
            old(self).wf(),
            old(self).played() + count <= usize::MAX,
        ensures
            final(self).wf(),
            final(self).turns().len() - old(self).turns().len() == final(self).played() - old(self).played(),
            final(self).turns().take(old(self).turns().len() as int) == old(self).turns(),
            forall|i: int|
                old(self).turns().len() <= i < final(self).turns().len() ==> #[trigger] final(self).turns()[i] <= BOARD_SIZE,
            r is Ok ==> final(self).played() == old(self).played() + count,
            r is Err ==> final(self).played() < old(self).played() + count,
            old(self).agent_a().reliable() ==> final(self).agent_a().reliable(),
            old(self).agent_b().reliable() ==> final(self).agent_b().reliable(),
            old(self).agent_a().reliable() && old(self).agent_b().reliable() ==> r is Ok,
    {
        let mut k: usize = 0;
        while k < count
            invariant
                self.wf(),
                k <= count,
                self.played() == old(self).played() + k,
                old(self).played() + count <= usize::MAX,
                old(self).agent_a().reliable() ==> self.agent_a().reliable(),
                old(self).agent_b().reliable() ==> self.agent_b().reliable(),
                self.turns().len() - old(self).turns().len() == k,
                self.turns().take(old(self).turns().len() as int) == old(self).turns(),
                forall|i: int|
                    old(self).turns().len() <= i < self.turns().len() ==> #[trigger] self.turns()[i] <= BOARD_SIZE,
            decreases count - k,
        {
            let ghost before = self.turns();
            let outcome = self.run_game();
            proof {
                if outcome is Ok {
                    assert(self.turns().take(old(self).turns().len() as int) =~= before.take(old(self).turns().len() as int));
                    assert forall|i: int|
                        old(self).turns().len() <= i < self.turns().len() implies #[trigger] self.turns()[i] <= BOARD_SIZE by {
                        if i < before.len() {
                            assert(self.turns()[i] == before[i]);
                        }
                    }
                }
            }
            if let Err(e) = outcome {
                return Err(e);
            }
            k = k + 1;
        }
        Ok(())
    }

    /// The mean number of turns per game played, rounded down; `None` before
    /// the first game.
    pub fn average_turns(&self) -> (r: Option<usize>)
        ensures
            self.turns().len() == 0 ==> r is None,
            self.turns().len() > 0 ==> r == Some((turns_sum(self.turns()) / self.turns().len() as nat) as usize),
    {
        let n = self.turns_taken.len();
        if n == 0 {
            return None;
        }
        let mut total: u128 = 0;
        let mut i: usize = 0;
        while i < n
            invariant
                i <= n,
                n == self.turns_taken@.len(),
                total == turns_sum(self.turns_taken@.take(i as int)),
                total <= i * (usize::MAX as nat),
            decreases n - i,
        {
            proof {
                let s = self.turns_taken@;
                assert(s.take(i as int + 1).drop_last() =~= s.take(i as int));
                assert(total + s[i as int] <= (i + 1) * (usize::MAX as nat)) by (nonlinear_arith)
                    requires
                        total <= i * (usize::MAX as nat),
                        s[i as int] <= usize::MAX,
                ;
                assert((i + 1) * (usize::MAX as nat) <= u128::MAX) by (nonlinear_arith)
                    requires
                        i < usize::MAX,
                        usize::MAX <= u64::MAX,
                ;
            }
            total = total + self.turns_taken[i] as u128;
            i = i + 1;
        }
        proof {
            assert(self.turns_taken@.take(n as int) =~= self.turns_taken@);
            assert((total as nat) / (n as nat) <= usize::MAX) by (nonlinear_arith)
                requires
                    total <= n * (usize::MAX as nat),
                    n > 0,
            ;
        }
        Some((total / n as u128) as usize)
    }

    /// The agent who fires first.
    pub fn player_a(&self) -> (r: &A)
        ensures
            *r == self.agent_a(),
            self.wf() ==> r.wf(),
    {
        &self.player_a.player
    }

    /// The agent who fires second.
    pub fn player_b(&self) -> (r: &B)
        ensures
            *r == self.agent_b(),
            self.wf() ==> r.wf(),
    {
        &self.player_b.player
    }

    /// The hit-points left to the first and to the second player.
    pub fn remaining_hits(&self) -> (r: (u32, u32))
        ensures
            r == (self.hits_left_a(), self.hits_left_b()),
    {
        (self.player_a.hits_left, self.player_b.hits_left)
    }

    /// The number of games played to their end.
    pub fn games_played(&self) -> (r: usize)
        ensures
            r == self.played(),
    {
        self.played
    }

    /// The turns taken in each game played, in order.
    pub fn turns_taken(&self) -> (r: &Vec<usize>)
        ensures
            r@ == self.turns(),
    {
        &self.turns_taken
    }
}

impl BattleshipGame<AIPlayer, AIPlayer> {
    /// Replaces the first agent's model with the mean of both agents'
    /// models, then lets the second agent adopt it: afterwards both hold the
    /// same model.
    pub fn synchronize_agents(&mut self)
        requires
            old(self).wf(),
        ensures
            final(self).wf(),
            final(self).agent_a()@ == merged(old(self).agent_a()@, old(self).agent_b()@),
            final(self).agent_b()@ == final(self).agent_a()@,
            final(self).played() == old(self).played(),
            final(self).turns() == old(self).turns(),
    {
        self.player_a.player.merge(&self.player_b.player);
        self.player_b.player.adopt(&self.player_a.player);
    }

    /// Merges the model of each agent of this game, first then second, into
    /// `acc`.
    pub fn merge_agents_into(&self, acc: &mut AIPlayer)
        requires
            self.wf(),
            old(acc).inv(),
        ensures
            final(acc).inv(),
            final(acc)@ == merged(merged(old(acc)@, self.agent_a()@), self.agent_b()@),
    {
        acc.merge(&self.player_a.player);
        acc.merge(&self.player_b.player);
    }

    /// Lets both agents of this game adopt the model of `model`.
    pub fn adopt_model(&mut self, model: &AIPlayer)
        requires
            old(self).wf(),
            model.inv(),
        ensures
            final(self).wf(),
            final(self).agent_a()@ == model@,
            final(self).agent_b()@ == model@,
            final(self).played() == old(self).played(),
            final(self).turns() == old(self).turns(),
    {
        self.player_a.player.adopt(model);
        self.player_b.player.adopt(model);
    }
}

/// The sum of a sequence of turn counts.
pub open spec fn turns_sum(s: Seq<usize>) -> nat
    decreases s.len(),
{
    if s.len() == 0 {
        0
    } else {
        turns_sum(s.drop_last()) + s.last() as nat
    }
}

/// An aiming board on which every cell has been fired upon has hit every
/// occupied cell of a target board it agrees with.
proof fn lemma_exhausted_board_sinks_fleet(aim: AimingBoard, target: TargetBoard, hits_left: u32)
    requires
        consistent(aim, target, hits_left),
        forall|c: int| 0 <= c < BOARD_SIZE ==> !#[trigger] aim.targetable()[c],
    ensures
        hits_left == 0,
{
    assert forall|c: int| 0 <= c < BOARD_SIZE implies #[trigger] aim.hits()[c] == target@[c] by {
        assert(!aim.targetable()[c]);
    }
    assert(aim.hits() =~= target@);
}

/// No more cells were hits than were fired upon.
proof fn lemma_hits_within_shots(aim: AimingBoard)
    requires
        aim.wf(),
    ensures
        count_true(aim.hits()) <= shots_fired(aim.targetable()),
{
    lemma_count_true_disjoint(aim.hits(), aim.targetable());
}

/// Two sequences never `true` at the same place count at most their length.
proof fn lemma_count_true_disjoint(a: Seq<bool>, b: Seq<bool>)
    requires
        a.len() == b.len(),
        forall|i: int| 0 <= i < a.len() && #[trigger] a[i] ==> !b[i],
    ensures
        count_true(a) + count_true(b) <= a.len(),
    decreases a.len(),
{
    if a.len() > 0 {
        lemma_count_true_disjoint(a.drop_last(), b.drop_last());
    }
}

/// An all-`true` sequence counts its length.
proof fn lemma_all_true_count(s: Seq<bool>)
    requires
        forall|i: int| 0 <= i < s.len() ==> #[trigger] s[i],
    ensures
        count_true(s) == s.len(),
    decreases s.len(),
{
    if s.len() > 0 {
        lemma_all_true_count(s.drop_last());
    }
}

} // verus!
