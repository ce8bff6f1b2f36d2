//! Adding up what was recorded of many games.

use vstd::prelude::*;
use crate::game::{GameStats, TurnStats};

verus! {

/// One of the numbers recorded of a turn.
#[derive(Debug, Clone, Copy, PartialEq, Eq, Structural)]
pub enum Column {
    CardsDrawn,
    CardsPlayed,
    CardsInHand,
    LandsPlayed,
    LandsCheated,
    ManaAvailable,
    ManaSpent,
}

/// The number that a column holds of a turn.
pub open spec fn entry(stats: TurnStats, column: Column) -> u32 {
    match column {
        Column::CardsDrawn => stats.cards_drawn,
        Column::CardsPlayed => stats.cards_played,
        Column::CardsInHand => stats.cards_in_hand,
        Column::LandsPlayed => stats.lands_played,
        Column::LandsCheated => stats.lands_cheated,
        Column::ManaAvailable => stats.mana_available,
        Column::ManaSpent => stats.mana_spent,
    }
}

/// The numbers of a column, added up over the turn of the given place of
/// each game.
pub open spec fn column_sum(games: Seq<GameStats>, turn: int, column: Column) -> nat
    decreases games.len(),
{
    if games.len() == 0 {
        0
    } else {
        column_sum(games.drop_last(), turn, column) + entry(
            games.last().turns_stats@[turn],
            column,
        ) as nat
    }
}

/// The numbers of a column, added up over the turns of a game.
pub open spec fn game_sum(turns: Seq<TurnStats>, column: Column) -> nat
    decreases turns.len(),
{
    if turns.len() == 0 {
        0
    } else {
        game_sum(turns.drop_last(), column) + entry(turns.last(), column) as nat
    }
}

/// The number of games in which the commander was played in the given turn;
/// zero stands for the games in which it was not played.
pub open spec fn arrivals(games: Seq<GameStats>, turn: int) -> nat
    decreases games.len(),
{
    if games.len() == 0 {
        0
    } else {
        arrivals(games.drop_last(), turn) + if games.last().turn_commander_played == turn {
            1nat
        } else {
            0nat
        }
    }
}

/// The turns in which the commander was played, added up over the games.
pub open spec fn arrival_sum(games: Seq<GameStats>) -> nat
    decreases games.len(),
{
    if games.len() == 0 {
        0
    } else {
        arrival_sum(games.drop_last()) + games.last().turn_commander_played as nat
    }
}

/// The number that a column holds of a turn.
pub fn entry_of(stats: &TurnStats, column: Column) -> (r: u32)
    ensures
        r == entry(*stats, column),
{
    match column {
        Column::CardsDrawn => stats.cards_drawn,
        Column::CardsPlayed => stats.cards_played,
        Column::CardsInHand => stats.cards_in_hand,
        Column::LandsPlayed => stats.lands_played,
        Column::LandsCheated => stats.lands_cheated,
        Column::ManaAvailable => stats.mana_available,
        Column::ManaSpent => stats.mana_spent,
    }
}

/// The numbers of a column, added up over the turn of the given place of
/// each game.
pub fn sum_of_turn(games: &Vec<GameStats>, turn: usize, column: Column) -> (r: u64)
    requires
        games@.len() <= u32::MAX,
        forall|i: int| 0 <= i < games@.len() ==> turn < (#[trigger] games@[i]).turns_stats@.len(),
    ensures
        r == column_sum(games@, turn as int, column),
{
    let mut sum: u64 = 0;
    let mut i: usize = 0;
    while i < games.len()
        invariant
            i <= games@.len() <= u32::MAX,
            forall|k: int| 0 <= k < games@.len()
                ==> turn < (#[trigger] games@[k]).turns_stats@.len(),
            sum == column_sum(games@.take(i as int), turn as int, column),
            sum <= i * u32::MAX,
        decreases games@.len() - i,
    {
        proof {
            assert(games@.take(i + 1).drop_last() == games@.take(i as int));
            assert(i * u32::MAX + u32::MAX == (i + 1) * u32::MAX) by (nonlinear_arith);
            assert((i + 1) * u32::MAX <= u32::MAX * u32::MAX) by (nonlinear_arith)
                requires
                    i + 1 <= u32::MAX,
            ;
        }
        sum += entry_of(&games[i].turns_stats[turn], column) as u64;
        i += 1;
    }
    proof {
        assert(games@.take(i as int) == games@);
    }
    sum
}

/// The numbers of a column, added up over the turns of a game.
pub fn sum_of_game(game: &GameStats, column: Column) -> (r: u64)
    requires
        game.turns_stats@.len() <= u32::MAX,
    ensures
        r == game_sum(game.turns_stats@, column),
{
    let mut sum: u64 = 0;
    let mut i: usize = 0;
    while i < game.turns_stats.len()
        invariant
            i <= game.turns_stats@.len() <= u32::MAX,
            sum == game_sum(game.turns_stats@.take(i as int), column),
            sum <= i * u32::MAX,
        decreases game.turns_stats@.len() - i,
    {
        proof {
            assert(game.turns_stats@.take(i + 1).drop_last() == game.turns_stats@.take(i as int));
            assert(i * u32::MAX + u32::MAX == (i + 1) * u32::MAX) by (nonlinear_arith);
            assert((i + 1) * u32::MAX <= u32::MAX * u32::MAX) by (nonlinear_arith)
                requires
                    i + 1 <= u32::MAX,
            ;
        }
        sum += entry_of(&game.turns_stats[i], column) as u64;
        i += 1;
    }
    proof {
        assert(game.turns_stats@.take(i as int) == game.turns_stats@);
    }
    sum
}

/// The number of games in which the commander was played in the given turn;
/// zero stands for the games in which it was not played.
pub fn count_arrivals(games: &Vec<GameStats>, turn: u32) -> (r: usize)
    ensures
        r == arrivals(games@, turn as int),
{
    let mut count: usize = 0;
    let mut i: usize = 0;
    while i < games.len()
        invariant
            i <= games@.len(),
            count == arrivals(games@.take(i as int), turn as int),
            count <= i,
        decreases games@.len() - i,
    {
        proof {
            assert(games@.take(i + 1).drop_last() == games@.take(i as int));
        }
        if games[i].turn_commander_played == turn {
            count += 1;
        }
        i += 1;
    }
    proof {
        assert(games@.take(i as int) == games@);
    }
    count
}

/// The turns in which the commander was played, added up over the games.
pub fn sum_of_arrivals(games: &Vec<GameStats>) -> (r: u64)
    requires
        games@.len() <= u32::MAX,
    ensures
        r == arrival_sum(games@),
{
    let mut sum: u64 = 0;
    let mut i: usize = 0;
    while i < games.len()
        invariant
            i <= games@.len() <= u32::MAX,
            sum == arrival_sum(games@.take(i as int)),
            sum <= i * u32::MAX,
        decreases games@.len() - i,
    {
        proof {
            assert(games@.take(i + 1).drop_last() == games@.take(i as int));
            assert(i * u32::MAX + u32::MAX == (i + 1) * u32::MAX) by (nonlinear_arith);
            assert((i + 1) * u32::MAX <= u32::MAX * u32::MAX) by (nonlinear_arith)
                requires
                    i + 1 <= u32::MAX,
            ;
        }
        sum += games[i].turn_commander_played as u64;
        i += 1;
    }
    proof {
        assert(games@.take(i as int) == games@);
    }
    sum
}

} // verus!
