//! Training across many games: the agents of every game are fused into one
//! model, which every agent then adopts.

use vstd::prelude::*;

use crate::ai_player::{merged, AIPlayer, WeightsView};
use crate::game::BattleshipGame;

verus! {

/// The model obtained by starting from the first agent of the first game and
/// merging into it, game by game, the first and then the second agent of each
/// of the first `n` games.
pub open spec fn pooled_model(games: Seq<BattleshipGame<AIPlayer, AIPlayer>>, n: int) -> WeightsView
    decreases n,
{
    if n <= 0 {
        games[0].agent_a()@
    } else {
        merged(
            merged(pooled_model(games, n - 1), games[n - 1].agent_a()@),
            games[n - 1].agent_b()@,
        )
    }
}

/// Fuses the models of every agent of `games` into one, as `pooled_model`
/// says, and lets every agent adopt it. Each game's record of games played
/// and turns taken is kept.
pub fn synchronize(games: &mut Vec<BattleshipGame<AIPlayer, AIPlayer>>)
    requires
        forall|i: int| 0 <= i < old(games)@.len() ==> #[trigger] old(games)@[i].wf(),
    ensures
        final(games)@.len() == old(games)@.len(),
        forall|i: int|
            0 <= i < final(games)@.len() ==> {
                &&& #[trigger] final(games)@[i].wf()
                &&& final(games)@[i].agent_a()@ == pooled_model(old(games)@, old(games)@.len() as int)
                &&& final(games)@[i].agent_b()@ == pooled_model(old(games)@, old(games)@.len() as int)
                &&& final(games)@[i].played() == old(games)@[i].played()
                &&& final(games)@[i].turns() == old(games)@[i].turns()
            },
{
    let n = games.len();
    if n == 0 {
        return;
    }
    let mut acc = AIPlayer::new();
    acc.adopt(games[0].player_a());
    let mut i: usize = 0;
    while i < n
        invariant
            i <= n,
            n == games@.len(),
            games@ == old(games)@,
            forall|k: int| 0 <= k < games@.len() ==> #[trigger] games@[k].wf(),
            acc.inv(),
            acc@ == pooled_model(old(games)@, i as int),
        decreases n - i,
    {
        games[i].merge_agents_into(&mut acc);
        i = i + 1;
    }
    let mut j: usize = 0;
    while j < n
        invariant
            j <= n,
            n == games@.len(),
            n == old(games)@.len(),
            acc.inv(),
            acc@ == pooled_model(old(games)@, n as int),
            forall|k: int| j <= k < n ==> #[trigger] games@[k] == old(games)@[k],
            forall|k: int|
                0 <= k < n ==> #[trigger] old(games)@[k].wf(),
            forall|k: int|
                0 <= k < j ==> {
                    &&& #[trigger] games@[k].wf()
                    &&& games@[k].agent_a()@ == acc@
                    &&& games@[k].agent_b()@ == acc@
                    &&& games@[k].played() == old(games)@[k].played()
                    &&& games@[k].turns() == old(games)@[k].turns()
                },
        decreases n - j,
    {
        games[j].adopt_model(&acc);
        j = j + 1;
    }
}

} // verus!
