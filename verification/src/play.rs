//! Playing: one turn from untap to the record of it, and a game from the
//! opening hand to its last turn.

use vstd::prelude::*;
use vstd::multiset::Multiset;
use rand::rngs::StdRng;
use crate::actions::{acted_through, action_failed, land_choice};
use crate::card::{Card, Effect, Types};
use crate::game::{
    drawn, lemma_drawn, lemma_drawn_from, Fault, Game, MulliganType, Settings, TurnStats,
};
use crate::pool::PoolView;
use crate::search::{
    land_in_hand, mana_in_order, nothing_usable, searched, sure_to_be_found, Found, Purpose,
};
use crate::turn::{
    effect_done, effect_fails, effect_is_sure, lemma_failing_effect_is_not_sure,
    lemma_replenished_again, lemma_replenished_same, raised, replenished, Turn,
};
use crate::order::{sorted_by, SortKey};
use crate::zone::{
    data_ok, exchanged, id_bag, lemma_numbered, lemma_numbers_joined, lemma_pile_empty, numbers,
    of_type, rolls_for, Zone,
};

verus! {

/// The pool with the mana of each of the sources that adds mana poured in,
/// one source after the other.
pub open spec fn gathered<'db>(pool: PoolView, sources: Seq<Found<'db>>) -> PoolView
    decreases sources.len(),
{
    if sources.len() == 0 {
        pool
    } else {
        match sources.last().it().effect {
            Effect::ProduceMana(mana) => gathered(pool, sources.drop_last()).merged(mana@),
            _ => gathered(pool, sources.drop_last()),
        }
    }
}

/// The numbers with those of the cards of the sources that add mana.
pub open spec fn counted<'db>(ids: Set<u32>, sources: Seq<Found<'db>>) -> Set<u32>
    decreases sources.len(),
{
    if sources.len() == 0 {
        ids
    } else {
        match sources.last().it().effect {
            Effect::ProduceMana(_) => counted(ids, sources.drop_last()).insert(
                sources.last().card.id,
            ),
            _ => counted(ids, sources.drop_last()),
        }
    }
}

/// Mana gathered from some of the sources is no more than mana gathered from
/// all of them.
pub proof fn lemma_gathered_grows<'db>(pool: PoolView, sources: Seq<Found<'db>>, k: int)
    requires
        0 <= k <= sources.len(),
    ensures
        gathered(pool, sources.take(k)).total() <= gathered(pool, sources).total(),
    decreases sources.len() - k,
{
    if k == sources.len() {
        assert(sources.take(k) == sources);
    } else {
        lemma_gathered_grows(pool, sources, k + 1);
        assert(sources.take(k + 1).drop_last() == sources.take(k));
    }
}

/// What holds once the abilities found for the upkeep have taken effect,
/// one after the other: each effect took place in the game and the turn as
/// the effects before it had left them.
pub open spec fn upkept<'db>(
    before_game: Game<'db>,
    before_turn: Turn,
    sources: Seq<Found<'db>>,
    after_game: Game<'db>,
    after_turn: Turn,
) -> bool
    decreases sources.len(),
{
    if sources.len() == 0 {
        after_game == before_game && after_turn == before_turn
    } else {
        exists|mid_game: Game<'db>, mid_turn: Turn|
            upkept(before_game, before_turn, sources.drop_last(), mid_game, mid_turn)
                && #[trigger] effect_done(
                mid_game,
                mid_turn,
                sources.last().card,
                sources.last().it().effect,
                after_game,
                after_turn,
            )
    }
}

/// Whether `fault` is the fault of an upkeep: of the abilities found, those
/// before the place `at` took effect and left the game and the turn as
/// `mid_game` and `mid_turn`, and `fault` is a fault of the effect at `at`.
pub open spec fn upkeep_failed<'db>(
    game: Game<'db>,
    turn: Turn,
    sources: Seq<Found<'db>>,
    at: int,
    mid_game: Game<'db>,
    mid_turn: Turn,
    fault: Fault,
) -> bool {
    &&& searched(turn, game, Purpose::Upkeep, sources)
    &&& 0 <= at < sources.len()
    &&& upkept(game, turn, sources.take(at), mid_game, mid_turn)
    &&& effect_fails(mid_turn, mid_game, sources[at].it().effect, fault)
}

/// What holds of a game once its battlefield was untapped: each card of the
/// battlefield is untapped and otherwise as it was, and nothing else has
/// changed.
pub open spec fn untapped<'db>(before: Game<'db>, after: Game<'db>) -> bool {
    &&& after.library == before.library
    &&& after.hand == before.hand
    &&& after.command == before.command
    &&& after.graveyard == before.graveyard
    &&& after.game_stats == before.game_stats
    &&& after.battlefield.name == before.battlefield.name
    &&& after.battlefield.cards@.len() == before.battlefield.cards@.len()
    &&& forall|i: int|
        0 <= i < before.battlefield.cards@.len() ==> #[trigger] after.battlefield.cards@[i]
            == (Card { tapped: false, ..before.battlefield.cards@[i] })
}

/// What holds of a turn once the mana of the sources was gathered: the
/// sources are what a search of the battlefield for mana can give, the mana
/// of each is poured into the mana at hand, and their cards are noted as
/// counted.
pub open spec fn mana_gathered<'db>(
    before: Turn,
    game: Game<'db>,
    sources: Seq<Found<'db>>,
    after: Turn,
) -> bool {
    &&& searched(before, game, Purpose::Mana, sources)
    &&& after.mana_pool@ == gathered(before.mana_pool@, sources)
    &&& after.cards_in_mana_pool@ == counted(before.cards_in_mana_pool@, sources)
    &&& after.mana_spent == before.mana_spent
    &&& after.lands_played == before.lands_played
    &&& after.land_limit == before.land_limit
    &&& after.turn_stats == before.turn_stats
    &&& after.turn_number == before.turn_number
}

/// What holds once the card of the turn was drawn: where one is drawn, the
/// top card of the library lies on top of the hand and counts as a card
/// drawn; where none is drawn, nothing has changed.
pub open spec fn turn_card_drawn<'db>(
    before_game: Game<'db>,
    before_turn: Turn,
    settings: Settings,
    after_game: Game<'db>,
    after_turn: Turn,
) -> bool {
    if before_turn.draws(settings) {
        &&& before_game.library.cards@.len() > 0
        &&& after_game.library.cards@ == before_game.library.cards@.drop_last()
        &&& after_game.hand.cards@ == before_game.hand.cards@.push(
            before_game.library.cards@.last(),
        )
        &&& after_game.battlefield == before_game.battlefield
        &&& after_game.command == before_game.command
        &&& after_game.graveyard == before_game.graveyard
        &&& after_game.game_stats == before_game.game_stats
        &&& after_turn.same_account(before_turn)
        &&& before_turn.turn_stats.cards_drawn < u32::MAX
        &&& after_turn.turn_stats == (TurnStats {
            cards_drawn: (before_turn.turn_stats.cards_drawn + 1) as u32,
            ..before_turn.turn_stats
        })
    } else {
        after_game == before_game && after_turn == before_turn
    }
}

/// What holds once the turn was recorded: the mana at hand, the mana spent
/// and the size of the hand are noted, and nothing else has changed.
pub open spec fn recorded<'db>(before: Turn, game: Game<'db>, after: Turn) -> bool {
    &&& after.same_account(before)
    &&& after.turn_stats == (TurnStats {
        mana_available: before.mana_pool@.total() as u32,
        mana_spent: before.mana_spent@.total() as u32,
        cards_in_hand: game.hand.cards@.len() as u32,
        ..before.turn_stats
    })
}

/// What holds once a turn was played, with the game and the turn as they
/// were in between: the battlefield was untapped (`fresh`); the mana of the
/// sources `mana` was gathered (`rich`); the abilities `upkeep` took effect
/// (`kept_game`, `kept_turn`); the card of the turn was drawn (`drawn_game`,
/// `drawn_turn`); `count` actions were done, after which the turn was at
/// rest (`rested`); and the turn was recorded.
pub open spec fn turn_played<'db>(
    before_game: Game<'db>,
    before_turn: Turn,
    settings: Settings,
    fresh: Game<'db>,
    mana: Seq<Found<'db>>,
    rich: Turn,
    upkeep: Seq<Found<'db>>,
    kept_game: Game<'db>,
    kept_turn: Turn,
    drawn_game: Game<'db>,
    drawn_turn: Turn,
    count: nat,
    rested: Turn,
    after_game: Game<'db>,
    after_turn: Turn,
) -> bool {
    &&& untapped(before_game, fresh)
    &&& mana_gathered(before_turn, fresh, mana, rich)
    &&& searched(rich, fresh, Purpose::Upkeep, upkeep)
    &&& upkept(fresh, rich, upkeep, kept_game, kept_turn)
    &&& turn_card_drawn(kept_game, kept_turn, settings, drawn_game, drawn_turn)
    &&& acted_through(drawn_game, drawn_turn, count, after_game, rested)
    &&& rested.at_rest(after_game)
    &&& recorded(rested, after_game, after_turn)
}

/// Whether `fault` is the fault of a turn, with the game and the turn as
/// they were before the step that failed: an ability that is tapped for
/// mana misses mana that should be in the pool; or the mana gathered
/// outgrows the pool; or an effect of the upkeep fails; or no card is there
/// to be drawn or counted as drawn; or an action fails.
pub open spec fn turn_failed<'db>(
    before_game: Game<'db>,
    before_turn: Turn,
    settings: Settings,
    fresh: Game<'db>,
    mana: Seq<Found<'db>>,
    rich: Turn,
    upkeep: Seq<Found<'db>>,
    kept_game: Game<'db>,
    kept_turn: Turn,
    drawn_game: Game<'db>,
    drawn_turn: Turn,
    fault: Fault,
) -> bool {
    &&& untapped(before_game, fresh)
    &&& {
        ||| fault == Fault::ManaMissing && !mana_in_order(before_turn, fresh, Purpose::Mana)
        ||| fault == Fault::TooMany && searched(before_turn, fresh, Purpose::Mana, mana)
            && gathered(before_turn.mana_pool@, mana).total() > u32::MAX
        ||| mana_gathered(before_turn, fresh, mana, rich) && exists|
            sources: Seq<Found<'db>>,
            at: int,
            mid_game: Game<'db>,
            mid_turn: Turn,
        | #[trigger] upkeep_failed(fresh, rich, sources, at, mid_game, mid_turn, fault)
        ||| mana_gathered(before_turn, fresh, mana, rich) && searched(
            rich,
            fresh,
            Purpose::Upkeep,
            upkeep,
        ) && upkept(fresh, rich, upkeep, kept_game, kept_turn) && kept_turn.draws(settings) && ((
        fault == Fault::TooMany && kept_turn.turn_stats.cards_drawn == u32::MAX) || (fault
            == Fault::LibraryEmpty && kept_game.library.cards@.len() == 0))
        ||| mana_gathered(before_turn, fresh, mana, rich) && searched(
            rich,
            fresh,
            Purpose::Upkeep,
            upkeep,
        ) && upkept(fresh, rich, upkeep, kept_game, kept_turn) && turn_card_drawn(
            kept_game,
            kept_turn,
            settings,
            drawn_game,
            drawn_turn,
        ) && exists|count: nat, mid_game: Game<'db>, mid_turn: Turn| #[trigger]
            acted_through(drawn_game, drawn_turn, count, mid_game, mid_turn) && action_failed(
                mid_game,
                mid_turn,
                fault,
            )
    }
}

/// Whether no card of a pile has an ability.
pub open spec fn bare<'db>(cards: Seq<Card<'db>>) -> bool {
    forall|i: int| 0 <= i < cards.len() ==> (#[trigger] cards[i]).data.all_abilities().len() == 0
}

/// On a battlefield without abilities there is none to use, and none that
/// misses mana.
pub proof fn lemma_bare_battlefield<'db>(turn: Turn, game: Game<'db>, purpose: Purpose)
    requires
        bare(game.battlefield.cards@),
        !purpose.in_hand(),
    ensures
        nothing_usable(turn, game, purpose),
        mana_in_order(turn, game, purpose),
{
    assert forall|found: Found<'db>| !#[trigger] found.usable(turn, game, purpose) by {
        if found.usable(turn, game, purpose) {
            assert(game.battlefield.cards@[found.at as int].data.all_abilities().len() == 0);
        }
    }
    assert forall|at: int, ability: int|
        0 <= at < game.battlefield.cards@.len() && 0 <= ability
            < game.battlefield.cards@[at].data.all_abilities().len() implies !turn.misses_mana(
        purpose,
        game.battlefield.cards@[at],
        #[trigger] game.battlefield.cards@[at].data.all_abilities()[ability],
        land_in_hand(game),
    ) by {
        assert(game.battlefield.cards@[at].data.all_abilities().len() == 0);
    }
}

/// Whether a turn has come to rest does not hang on what is recorded of it.
pub proof fn lemma_rest_whatever_recorded<'db>(turn: Turn, other: Turn, game: Game<'db>)
    requires
        turn.at_rest(game),
        other.same_account(turn),
    ensures
        other.at_rest(game),
{
    assert forall|at: int, ability: int| !#[trigger] sure_to_be_found(
        other,
        game,
        Purpose::Ramp,
        at,
        ability,
    ) by {
        assert(!sure_to_be_found(turn, game, Purpose::Ramp, at, ability));
    }
    assert forall|at: int, ability: int| !#[trigger] sure_to_be_found(
        other,
        game,
        Purpose::Draw,
        at,
        ability,
    ) by {
        assert(!sure_to_be_found(turn, game, Purpose::Draw, at, ability));
    }
    assert forall|at: int, ability: int| !#[trigger] sure_to_be_found(
        other,
        game,
        Purpose::DrawSpell,
        at,
        ability,
    ) by {
        assert(!sure_to_be_found(turn, game, Purpose::DrawSpell, at, ability));
    }
    assert forall|found: Found<'db>| !#[trigger] found.usable(other, game, Purpose::RampSpell) by {
        assert(!found.usable(turn, game, Purpose::RampSpell));
    }
    assert forall|j: int| 0 <= j < game.hand.cards@.len() implies !other.is_spare(
        #[trigger] game.hand.cards@[j],
    ) by {
        assert(!turn.is_spare(game.hand.cards@[j]));
    }
}

/// A turn has nothing to do where the battlefield has no abilities, no card
/// of the hand can be played, and the commander cannot be played.
pub proof fn lemma_nothing_to_do<'db>(turn: Turn, game: Game<'db>)
    requires
        bare(game.battlefield.cards@),
        forall|i: int|
            0 <= i < game.hand.cards@.len() ==> turn.cannot_play(#[trigger] game.hand.cards@[i]),
        turn.no_commander(game),
    ensures
        turn.idle(game),
{
    let hand = game.hand.cards@;
    lemma_bare_battlefield(turn, game, Purpose::Ramp);
    lemma_bare_battlefield(turn, game, Purpose::Draw);
    assert(hand.all(|card: Card<'db>| !of_type(Types::Land)(card))) by {
        assert forall|i: int| 0 <= i < hand.len() implies !of_type(Types::Land)(
            #[trigger] hand[i],
        ) by {
            assert(turn.cannot_play(hand[i]));
        }
    }
    hand.lemma_all_neg_filter_empty(of_type(Types::Land));
    assert(land_choice(hand, turn.mana_pool@) is None);
    assert forall|found: Found<'db>| !#[trigger] found.usable(turn, game, Purpose::RampSpell) by {
        if found.usable(turn, game, Purpose::RampSpell) {
            assert(turn.cannot_play(hand[found.at as int]));
        }
    }
    assert forall|found: Found<'db>| !#[trigger] found.usable(turn, game, Purpose::DrawSpell) by {
        if found.usable(turn, game, Purpose::DrawSpell) {
            assert(turn.cannot_play(hand[found.at as int]));
        }
    }
    assert forall|j: int| 0 <= j < hand.len() implies !turn.is_spare(#[trigger] hand[j]) by {
        assert(turn.cannot_play(hand[j]));
    }
}

impl Turn {
    /// Whether a card cannot be played from the hand, whatever it does: it
    /// is no land, and the mana at hand does not pay its cost on top of what
    /// is spent.
    pub open spec fn cannot_play<'db>(self, card: Card<'db>) -> bool {
        !card.data.types.has(Types::Land) && match card.data.mana_cost {
            Some(cost) => !self.mana_pool@.covers(self.mana_spent@.merged(cost@)),
            None => false,
        }
    }

    /// Whether the turn is played without fault whatever is rolled: no
    /// ability that is tapped for mana misses mana; whatever sources are
    /// found, their mana fits the pool; whatever abilities are found for the
    /// upkeep, each effect is sure to take place after those before it; a
    /// card is there to be drawn and counted if one is drawn; and every
    /// action is done for sure.
    pub open spec fn plays_surely<'db>(self, game: Game<'db>, settings: Settings) -> bool {
        forall|fresh: Game<'db>| #[trigger]
            untapped(game, fresh) ==> {
                &&& mana_in_order(self, fresh, Purpose::Mana)
                &&& forall|mana: Seq<Found<'db>>| #[trigger]
                    searched(self, fresh, Purpose::Mana, mana) ==> gathered(
                        self.mana_pool@,
                        mana,
                    ).total() <= u32::MAX
                &&& forall|mana: Seq<Found<'db>>, rich: Turn| #[trigger]
                    mana_gathered(self, fresh, mana, rich) ==> {
                        &&& forall|
                            upkeep: Seq<Found<'db>>,
                            at: int,
                            mid_game: Game<'db>,
                            mid_turn: Turn,
                        |
                            searched(rich, fresh, Purpose::Upkeep, upkeep) && 0 <= at
                                < upkeep.len() && #[trigger] upkept(
                                fresh,
                                rich,
                                upkeep.take(at),
                                mid_game,
                                mid_turn,
                            ) ==> effect_is_sure(mid_turn, mid_game, upkeep[at].it().effect)
                        &&& forall|upkeep: Seq<Found<'db>>, kept_game: Game<'db>, kept_turn: Turn|
                            searched(rich, fresh, Purpose::Upkeep, upkeep) && #[trigger] upkept(
                                fresh,
                                rich,
                                upkeep,
                                kept_game,
                                kept_turn,
                            ) ==> {
                                &&& kept_turn.draws(settings) ==> kept_game.library.cards@.len() > 0
                                    && kept_turn.turn_stats.cards_drawn < u32::MAX
                                &&& forall|drawn_game: Game<'db>, drawn_turn: Turn| #[trigger]
                                    turn_card_drawn(
                                        kept_game,
                                        kept_turn,
                                        settings,
                                        drawn_game,
                                        drawn_turn,
                                    ) ==> drawn_turn.acts_surely(drawn_game)
                            }
                    }
            }
    }

    /// Whether this is the account of a turn at its start: no mana, no land
    /// played, one land allowed, nothing recorded but its number.
    pub open spec fn is_new(self, number: u32) -> bool {
        &&& self.wf()
        &&& self.turn_number == number
        &&& self.lands_played == 0
        &&& self.land_limit == 1
        &&& self.mana_pool@ == PoolView::empty()
        &&& self.mana_spent@ == PoolView::empty()
        &&& self.cards_in_mana_pool@ == Set::<u32>::empty()
        &&& self.turn_stats == (TurnStats {
            turn_number: number,
            lands_played: 0,
            lands_cheated: 0,
            cards_drawn: 0,
            cards_played: 0,
            cards_in_hand: 0,
            mana_available: 0,
            mana_spent: 0,
        })
    }

    /// Whether a card is drawn for the turn: in every turn but the first,
    /// and in the first if the settings say so.
    pub open spec fn draws(self, settings: Settings) -> bool {
        self.turn_number > 1 || settings.draw_card_on_turn_one
    }

    /// Whether the turn is sure to pass with nothing done: the battlefield
    /// has no abilities, no card of the hand can be played, nor can the card
    /// that is drawn, which is there to be drawn, nor the commander.
    pub open spec fn calm<'db>(self, game: Game<'db>, settings: Settings) -> bool {
        &&& bare(game.battlefield.cards@)
        &&& forall|i: int|
            0 <= i < game.hand.cards@.len() ==> self.cannot_play(#[trigger] game.hand.cards@[i])
        &&& self.draws(settings) ==> game.library.cards@.len() > 0 && self.cannot_play(
            game.library.cards@.last(),
        ) && self.turn_stats.cards_drawn < u32::MAX
        &&& self.no_commander(game)
    }

    /// What a turn leaves behind in which nothing was done: the battlefield
    /// untapped, the top card of the library drawn, if one is drawn, and the
    /// record of the turn.
    pub open spec fn passed_calmly<'db>(
        self,
        game: Game<'db>,
        settings: Settings,
        after: Turn,
        after_game: Game<'db>,
    ) -> bool {
        let drawn = if self.draws(settings) {
            1int
        } else {
            0int
        };
        &&& after_game.battlefield.cards@.len() == game.battlefield.cards@.len()
        &&& forall|i: int|
            0 <= i < game.battlefield.cards@.len() ==> #[trigger] after_game.battlefield.cards@[i]
                == (Card { tapped: false, ..game.battlefield.cards@[i] })
        &&& after_game.hand.cards@ == if self.draws(settings) {
            game.hand.cards@.push(game.library.cards@.last())
        } else {
            game.hand.cards@
        }
        &&& after_game.library.cards@ == if self.draws(settings) {
            game.library.cards@.drop_last()
        } else {
            game.library.cards@
        }
        &&& after_game.command == game.command
        &&& after_game.graveyard == game.graveyard
        &&& after_game.game_stats == game.game_stats
        &&& after.mana_pool@ == self.mana_pool@
        &&& after.mana_spent == self.mana_spent
        &&& after.cards_in_mana_pool@ == self.cards_in_mana_pool@
        &&& after.lands_played == self.lands_played
        &&& after.land_limit == self.land_limit
        &&& after.turn_stats == (TurnStats {
            cards_drawn: (self.turn_stats.cards_drawn + drawn) as u32,
            mana_available: self.mana_pool@.total() as u32,
            mana_spent: self.mana_spent@.total() as u32,
            cards_in_hand: (game.hand.cards@.len() + drawn) as u32,
            ..self.turn_stats
        })
    }

    /// Taps the sources for mana: the mana of each in turn is added to the
    /// mana at hand, and its card is noted as counted. Nothing is added
    /// where the mana, all of it, would outgrow the counters of the pool.
    pub fn tap_for_mana<'db>(&mut self, sources: &Vec<Found<'db>>) -> (r: Result<(), Fault>)
        requires
            old(self).wf(),
            forall|k: int|
                0 <= k < sources@.len() ==> (#[trigger] sources@[k]).ability
                    < sources@[k].card.data.all_abilities().len() && sources@[k].card.data.wf(),
        ensures
            final(self).mana_spent == old(self).mana_spent,
            final(self).lands_played == old(self).lands_played,
            final(self).land_limit == old(self).land_limit,
            final(self).turn_stats == old(self).turn_stats,
            final(self).turn_number == old(self).turn_number,
            match r {
                Ok(_) => {
                    &&& final(self).wf()
                    &&& final(self).mana_pool@ == gathered(old(self).mana_pool@, sources@)
                    &&& final(self).cards_in_mana_pool@ == counted(
                        old(self).cards_in_mana_pool@,
                        sources@,
                    )
                },
                Err(fault) => fault == Fault::TooMany && gathered(
                    old(self).mana_pool@,
                    sources@,
                ).total() > u32::MAX && *final(self) == *old(self),
            },
    {
        // nothing is added unless all of it can be
        let mut total: u64 = self.mana_pool.cmc() as u64;
        let mut k: usize = 0;
        proof {
            assert(sources@.take(0) =~= Seq::<Found<'db>>::empty());
        }
        while k < sources.len()
            invariant
                k <= sources@.len(),
                *self == *old(self),
                self.wf(),
                total == gathered(self.mana_pool@, sources@.take(k as int)).total(),
                total <= u32::MAX,
                forall|j: int|
                    0 <= j < sources@.len() ==> (#[trigger] sources@[j]).ability
                        < sources@[j].card.data.all_abilities().len() && sources@[j].card.data.wf(),
            decreases sources@.len() - k,
        {
            let source = sources[k];
            assert(source.card.data.wf());
            let ability = source.card.data.ability(source.ability);
            assert(ability.wf());
            proof {
                assert(sources@.take(k + 1).drop_last() == sources@.take(k as int));
            }
            match &ability.effect {
                Effect::ProduceMana(mana) => {
                    total = total + mana.cmc() as u64;
                    if total > u32::MAX as u64 {
                        proof {
                            lemma_gathered_grows(self.mana_pool@, sources@, k + 1);
                        }
                        return Err(Fault::TooMany);
                    }
                },
                _ => {},
            }
            k += 1;
        }
        proof {
            assert(sources@.take(k as int) == sources@);
            assert(sources@.take(0) =~= Seq::<Found<'db>>::empty());
        }
        let mut k: usize = 0;
        while k < sources.len()
            invariant
                k <= sources@.len(),
                self.wf(),
                self.mana_pool@ == gathered(old(self).mana_pool@, sources@.take(k as int)),
                self.cards_in_mana_pool@ == counted(
                    old(self).cards_in_mana_pool@,
                    sources@.take(k as int),
                ),
                gathered(old(self).mana_pool@, sources@).total() <= u32::MAX,
                self.mana_spent == old(self).mana_spent,
                self.lands_played == old(self).lands_played,
                self.land_limit == old(self).land_limit,
                self.turn_stats == old(self).turn_stats,
                self.turn_number == old(self).turn_number,
                forall|j: int|
                    0 <= j < sources@.len() ==> (#[trigger] sources@[j]).ability
                        < sources@[j].card.data.all_abilities().len() && sources@[j].card.data.wf(),
            decreases sources@.len() - k,
        {
            let source = sources[k];
            assert(source.card.data.wf());
            let ability = source.card.data.ability(source.ability);
            assert(ability.wf());
            proof {
                assert(sources@.take(k + 1).drop_last() == sources@.take(k as int));
                lemma_gathered_grows(old(self).mana_pool@, sources@, k + 1);
            }
            match &ability.effect {
                Effect::ProduceMana(mana) => {
                    self.mana_pool.add_pool(mana);
                    self.cards_in_mana_pool.insert(source.card.id);
                },
                _ => {},
            }
            k += 1;
        }
        proof {
            assert(sources@.take(k as int) == sources@);
        }
        Ok(())
    }

    /// Gathers the mana of the turn: each ability on the battlefield that
    /// is tapped for mana, finds its card untapped and is there this time
    /// adds its mana to the mana at hand, and its card is noted as counted.
    pub fn gather_mana_pool<'db>(&mut self, game: &Game<'db>, rng: &mut StdRng) -> (r: Result<
        (),
        Fault,
    >)
        requires
            old(self).wf(),
            game.wf(),
        ensures
            final(self).mana_spent == old(self).mana_spent,
            final(self).lands_played == old(self).lands_played,
            final(self).land_limit == old(self).land_limit,
            final(self).turn_stats == old(self).turn_stats,
            final(self).turn_number == old(self).turn_number,
            match r {
                Ok(_) => {
                    &&& final(self).wf()
                    &&& exists|sources: Seq<Found<'db>>|
                        #![trigger searched(*old(self), *game, Purpose::Mana, sources)]
                        {
                            &&& searched(*old(self), *game, Purpose::Mana, sources)
                            &&& final(self).mana_pool@ == gathered(old(self).mana_pool@, sources)
                            &&& final(self).cards_in_mana_pool@ == counted(
                                old(self).cards_in_mana_pool@,
                                sources,
                            )
                        }
                },
                Err(fault) => *final(self) == *old(self) && if fault == Fault::ManaMissing {
                    !mana_in_order(*old(self), *game, Purpose::Mana)
                } else {
                    fault == Fault::TooMany && exists|sources: Seq<Found<'db>>|
                        #![trigger searched(*old(self), *game, Purpose::Mana, sources)]
                        searched(*old(self), *game, Purpose::Mana, sources) && gathered(
                            old(self).mana_pool@,
                            sources,
                        ).total() > u32::MAX
                },
            },
    {
        let sources = match self.find(game, Purpose::Mana, rng) {
            Ok(sources) => sources,
            Err(fault) => {
                return Err(fault);
            },
        };
        proof {
            assert forall|k: int| 0 <= k < sources@.len() implies (#[trigger] sources@[k]).ability
                < sources@[k].card.data.all_abilities().len() && sources@[k].card.data.wf() by {
                assert(sources@[k].usable(*self, *game, Purpose::Mana));
            }
        }
        self.tap_for_mana(&sources)
    }

    /// Lets the abilities take effect that do so each turn at no cost and
    /// are there this time, one after the other in the order of the
    /// battlefield: mana is added to the mana at hand, lands are fetched,
    /// cards are drawn. A fault is the fault of the first effect that cannot
    /// take place.
    pub fn upkeep<'db>(&mut self, game: &mut Game<'db>, rng: &mut StdRng) -> (r: Result<(), Fault>)
        requires
            old(self).wf(),
            old(game).wf(),
        ensures
            match r {
                Ok(_) => {
                    &&& final(self).wf()
                    &&& replenished(*old(game), *final(game))
                    &&& final(self).mana_pool@.total() >= old(self).mana_pool@.total()
                    &&& final(self).mana_spent == old(self).mana_spent
                    &&& final(self).lands_played == old(self).lands_played
                    &&& final(self).land_limit == old(self).land_limit
                    &&& final(self).turn_number == old(self).turn_number
                    &&& final(self).turn_stats.turn_number == old(self).turn_stats.turn_number
                    &&& exists|sources: Seq<Found<'db>>|
                        searched(*old(self), *old(game), Purpose::Upkeep, sources)
                            && #[trigger] upkept(
                            *old(game),
                            *old(self),
                            sources,
                            *final(game),
                            *final(self),
                        )
                },
                Err(fault) => exists|
                    sources: Seq<Found<'db>>,
                    at: int,
                    mid_game: Game<'db>,
                    mid_turn: Turn,
                | #[trigger]
                    upkeep_failed(*old(game), *old(self), sources, at, mid_game, mid_turn, fault),
            },
            nothing_usable(*old(self), *old(game), Purpose::Upkeep) ==> r is Ok && *final(game)
                == *old(game) && *final(self) == *old(self),
    {
        proof {
            assert(mana_in_order(*self, *game, Purpose::Upkeep));
        }
        let abilities = match self.find(game, Purpose::Upkeep, rng) {
            Ok(abilities) => abilities,
            Err(fault) => {
                return Err(fault);
            },
        };
        proof {
            if nothing_usable(*self, *game, Purpose::Upkeep) && abilities@.len() > 0 {
                assert(abilities@[0].usable(*self, *game, Purpose::Upkeep));
            }
        }
        proof {
            lemma_replenished_same(*game);
            assert forall|j: int| 0 <= j < abilities@.len()
                implies (#[trigger] abilities@[j]).ability
                < abilities@[j].card.data.all_abilities().len() && abilities@[j].card.data.wf() by {
                assert(abilities@[j].usable(*self, *game, Purpose::Upkeep));
            }
        }
        let mut k: usize = 0;
        proof {
            assert(abilities@.take(0) =~= Seq::<Found<'db>>::empty());
        }
        while k < abilities.len()
            invariant
                k <= abilities@.len(),
                self.wf(),
                old(game).wf(),
                replenished(*old(game), *game),
                self.mana_pool@.total() >= old(self).mana_pool@.total(),
                self.mana_spent == old(self).mana_spent,
                self.lands_played == old(self).lands_played,
                self.land_limit == old(self).land_limit,
                self.turn_number == old(self).turn_number,
                self.turn_stats.turn_number == old(self).turn_stats.turn_number,
                k == 0 ==> *game == *old(game) && *self == *old(self),
                nothing_usable(*old(self), *old(game), Purpose::Upkeep) ==> abilities@.len() == 0,
                searched(*old(self), *old(game), Purpose::Upkeep, abilities@),
                upkept(*old(game), *old(self), abilities@.take(k as int), *game, *self),
                forall|j: int|
                    0 <= j < abilities@.len() ==> (#[trigger] abilities@[j]).ability
                        < abilities@[j].card.data.all_abilities().len()
                        && abilities@[j].card.data.wf(),
            decreases abilities@.len() - k,
        {
            let source = abilities[k];
            assert(source.card.data.wf());
            let ability = source.card.data.ability(source.ability);
            assert(ability.wf());
            let ghost before = *game;
            let ghost account = *self;
            match self.take_effect(game, &source.card, &ability.effect, rng) {
                Ok(_) => {},
                Err(fault) => {
                    proof {
                        assert(upkeep_failed(
                            *old(game),
                            *old(self),
                            abilities@,
                            k as int,
                            before,
                            account,
                            fault,
                        ));
                    }
                    return Err(fault);
                },
            }
            proof {
                lemma_replenished_again(*old(game), before, *game);
                assert(abilities@.take(k + 1).drop_last() == abilities@.take(k as int));
                assert(abilities@.take(k + 1).last() == source);
                assert(effect_done(
                    before,
                    account,
                    source.card,
                    source.it().effect,
                    *game,
                    *self,
                ));
            }
            k += 1;
        }
        proof {
            assert(abilities@.take(k as int) == abilities@);
        }
        Ok(())
    }

    /// Plays the turn: untaps the battlefield, gathers the mana of the turn,
    /// lets the abilities of the upkeep take effect, draws the card of the
    /// turn, unless this is the first turn and none is drawn in it, does
    /// what can be done, and records the turn.
    ///
    /// The turn ends at rest. A calm turn is played without fault, and
    /// leaves behind just an untapped battlefield and the card drawn. A
    /// fault is the fault of the first step that fails, and there is none
    /// where every step is sure to be done.
    pub fn play<'db>(&mut self, game: &mut Game<'db>, settings: &Settings, rng: &mut StdRng) -> (r:
        Result<(), Fault>)
        requires
            old(self).wf(),
            old(game).wf(),
        ensures
            r is Ok ==> {
                &&& final(self).wf()
                &&& final(game).wf()
                &&& final(game).all_ids() == old(game).all_ids()
                &&& final(game).card_count() == old(game).card_count()
                &&& final(game).game_stats.turns_stats == old(game).game_stats.turns_stats
                &&& final(game).game_stats.mulligan_count == old(game).game_stats.mulligan_count
                &&& final(self).turn_number == old(self).turn_number
                &&& final(self).turn_stats.turn_number == old(self).turn_stats.turn_number
                &&& old(self).lands_played <= old(self).land_limit ==> final(self).lands_played
                    <= final(self).land_limit
                &&& final(self).turn_stats.mana_available == final(self).mana_pool@.total()
                &&& final(self).turn_stats.mana_spent == final(self).mana_spent@.total()
                &&& final(self).turn_stats.cards_in_hand == final(game).hand.cards@.len()
                &&& final(self).at_rest(*final(game))
                &&& exists|
                    fresh: Game<'db>,
                    mana: Seq<Found<'db>>,
                    rich: Turn,
                    upkeep: Seq<Found<'db>>,
                    kept_game: Game<'db>,
                    kept_turn: Turn,
                    drawn_game: Game<'db>,
                    drawn_turn: Turn,
                    count: nat,
                    rested: Turn,
                | #[trigger]
                    turn_played(
                        *old(game),
                        *old(self),
                        *settings,
                        fresh,
                        mana,
                        rich,
                        upkeep,
                        kept_game,
                        kept_turn,
                        drawn_game,
                        drawn_turn,
                        count,
                        rested,
                        *final(game),
                        *final(self),
                    )
            },
            r matches Err(fault) ==> exists|
                fresh: Game<'db>,
                mana: Seq<Found<'db>>,
                rich: Turn,
                upkeep: Seq<Found<'db>>,
                kept_game: Game<'db>,
                kept_turn: Turn,
                drawn_game: Game<'db>,
                drawn_turn: Turn,
            | #[trigger]
                turn_failed(
                    *old(game),
                    *old(self),
                    *settings,
                    fresh,
                    mana,
                    rich,
                    upkeep,
                    kept_game,
                    kept_turn,
                    drawn_game,
                    drawn_turn,
                    fault,
                ),
            old(self).calm(*old(game), *settings) ==> r is Ok && old(self).passed_calmly(
                *old(game),
                *settings,
                *final(self),
                *final(game),
            ),
            old(self).plays_surely(*old(game), *settings) ==> r is Ok,
    {
        let ghost calm = self.calm(*game, *settings);
        game.battlefield.untap_all();
        proof {
            assert(data_ok(game.battlefield.cards@)) by {
                assert forall|k: int| 0 <= k < game.battlefield.cards@.len() implies (
                #[trigger] game.battlefield.cards@[k]).data.wf() by {
                    assert(old(game).battlefield.cards@[k].data.wf());
                }
            }
        }
        let ghost fresh = *game;
        proof {
            if calm {
                assert(bare(game.battlefield.cards@)) by {
                    assert forall|i: int| 0 <= i < game.battlefield.cards@.len() implies (
                    #[trigger] game.battlefield.cards@[i]).data.all_abilities().len() == 0 by {
                        assert(old(game).battlefield.cards@[i].data.all_abilities().len() == 0);
                    }
                }
                lemma_bare_battlefield(*self, *game, Purpose::Mana);
            }
        }
        proof {
            assert(untapped(*old(game), fresh));
        }
        match self.gather_mana_pool(game, rng) {
            Ok(_) => {},
            Err(fault) => {
                proof {
                    if fault == Fault::ManaMissing {
                        assert(turn_failed(
                            *old(game),
                            *old(self),
                            *settings,
                            fresh,
                            Seq::empty(),
                            *self,
                            Seq::empty(),
                            fresh,
                            *self,
                            fresh,
                            *self,
                            fault,
                        ));
                    } else {
                        let sources = choose|sources: Seq<Found<'db>>|
                            #![trigger searched(*old(self), *game, Purpose::Mana, sources)]
                            searched(*old(self), *game, Purpose::Mana, sources) && gathered(
                                old(self).mana_pool@,
                                sources,
                            ).total() > u32::MAX;
                        assert(turn_failed(
                            *old(game),
                            *old(self),
                            *settings,
                            fresh,
                            sources,
                            *self,
                            Seq::empty(),
                            fresh,
                            *self,
                            fresh,
                            *self,
                            fault,
                        ));
                    }
                    if calm && fault != Fault::ManaMissing {
                        let sources = choose|sources: Seq<Found<'db>>|
                            #![trigger searched(*old(self), *game, Purpose::Mana, sources)]
                            searched(*old(self), *game, Purpose::Mana, sources) && gathered(
                                old(self).mana_pool@,
                                sources,
                            ).total() > u32::MAX;
                        if sources.len() > 0 {
                            assert(sources[0].usable(*old(self), *game, Purpose::Mana));
                        }
                    }
                }
                return Err(fault);
            },
        }
        let ghost mana = choose|sources: Seq<Found<'db>>|
            #![trigger searched(*old(self), *game, Purpose::Mana, sources)]
            {
                &&& searched(*old(self), *game, Purpose::Mana, sources)
                &&& self.mana_pool@ == gathered(old(self).mana_pool@, sources)
                &&& self.cards_in_mana_pool@ == counted(old(self).cards_in_mana_pool@, sources)
            };
        let ghost rich = *self;
        proof {
            assert(mana_gathered(*old(self), fresh, mana, rich));
            if calm {
                if mana.len() > 0 {
                    assert(mana[0].usable(*old(self), *game, Purpose::Mana));
                }
                lemma_bare_battlefield(*self, *game, Purpose::Upkeep);
            }
        }
        match self.upkeep(game, rng) {
            Ok(_) => {},
            Err(fault) => {
                proof {
                    let (sources, at, mid_game, mid_turn) = choose|
                        sources: Seq<Found<'db>>,
                        at: int,
                        mid_game: Game<'db>,
                        mid_turn: Turn,
                    | #[trigger] upkeep_failed(fresh, rich, sources, at, mid_game, mid_turn, fault);
                    lemma_failing_effect_is_not_sure(
                        mid_turn,
                        mid_game,
                        sources[at].it().effect,
                        fault,
                    );
                    assert(turn_failed(
                        *old(game),
                        *old(self),
                        *settings,
                        fresh,
                        mana,
                        rich,
                        Seq::empty(),
                        fresh,
                        rich,
                        fresh,
                        rich,
                        fault,
                    ));
                }
                return Err(fault);
            },
        }
        let ghost upkeep = choose|sources: Seq<Found<'db>>|
            searched(rich, fresh, Purpose::Upkeep, sources) && #[trigger] upkept(
                fresh,
                rich,
                sources,
                *game,
                *self,
            );
        let ghost kept_game = *game;
        let ghost kept_turn = *self;
        if self.turn_number > 1 || settings.draw_card_on_turn_one {
            let total = match raised(self.turn_stats.cards_drawn, 1) {
                Ok(total) => total,
                Err(fault) => {
                    proof {
                        assert(turn_failed(
                            *old(game),
                            *old(self),
                            *settings,
                            fresh,
                            mana,
                            rich,
                            upkeep,
                            kept_game,
                            kept_turn,
                            kept_game,
                            kept_turn,
                            fault,
                        ));
                    }
                    return Err(fault);
                },
            };
            let ghost library = game.library.cards@;
            match game.draw_cards(1) {
                Ok(_) => {},
                Err(fault) => {
                    proof {
                        assert(turn_failed(
                            *old(game),
                            *old(self),
                            *settings,
                            fresh,
                            mana,
                            rich,
                            upkeep,
                            kept_game,
                            kept_turn,
                            kept_game,
                            kept_turn,
                            fault,
                        ));
                    }
                    return Err(fault);
                },
            }
            proof {
                lemma_drawn(library, 1);
                crate::game::lemma_drawn_more(library, 0);
                assert(drawn(library, 0) =~= Seq::<Card<'db>>::empty());
                assert(game.hand.cards@ =~= kept_game.hand.cards@.push(library.last()));
                assert(game.library.cards@ =~= library.drop_last());
            }
            self.turn_stats.cards_drawn = total;
        }
        let ghost drawn_game = *game;
        let ghost drawn_turn = *self;
        proof {
            assert(turn_card_drawn(kept_game, kept_turn, *settings, drawn_game, drawn_turn));
        }
        proof {
            if calm {
                if old(self).draws(*settings) {
                    assert(game.hand.cards@ =~= old(game).hand.cards@.push(
                        old(game).library.cards@.last(),
                    ));
                }
                assert forall|i: int| 0 <= i < game.hand.cards@.len() implies self.cannot_play(
                    #[trigger] game.hand.cards@[i],
                ) by {
                    if i < old(game).hand.cards@.len() {
                        assert(old(self).cannot_play(old(game).hand.cards@[i]));
                    } else {
                        assert(old(self).cannot_play(old(game).library.cards@.last()));
                    }
                }
                lemma_nothing_to_do(*self, *game);
            }
        }
        let actions = match self.take_actions(game, rng) {
            Ok(actions) => actions,
            Err(fault) => {
                proof {
                    assert(turn_failed(
                        *old(game),
                        *old(self),
                        *settings,
                        fresh,
                        mana,
                        rich,
                        upkeep,
                        kept_game,
                        kept_turn,
                        drawn_game,
                        drawn_turn,
                        fault,
                    ));
                }
                return Err(fault);
            },
        };
        let ghost rested = *self;
        let ghost count = choose|count: nat|
            (actions == count || (actions == u32::MAX && count > u32::MAX))
                && #[trigger] acted_through(drawn_game, drawn_turn, count, *game, rested);
        self.turn_stats.mana_available = self.mana_pool.cmc();
        self.turn_stats.mana_spent = self.mana_spent.cmc();
        self.turn_stats.cards_in_hand = game.hand.size();
        proof {
            lemma_rest_whatever_recorded(rested, *self, *game);
            assert(turn_played(
                *old(game),
                *old(self),
                *settings,
                fresh,
                mana,
                rich,
                upkeep,
                kept_game,
                kept_turn,
                drawn_game,
                drawn_turn,
                count,
                rested,
                *game,
                *self,
            ));
        }
        Ok(())
    }
}

/// Whether a card cannot be played without mana: it is no land, and costs
/// a unit of mana at least.
pub open spec fn costly<'db>(card: Card<'db>) -> bool {
    !card.data.types.has(Types::Land) && match card.data.mana_cost {
        Some(cost) => cost@.total() > 0,
        None => false,
    }
}

/// Whether no card of a pile can be played without mana.
pub open spec fn all_costly<'db>(cards: Seq<Card<'db>>) -> bool {
    forall|i: int| 0 <= i < cards.len() ==> costly(#[trigger] cards[i])
}

/// How many cards are drawn for the turn in so many turns.
pub open spec fn draws_in(settings: Settings, turns: int) -> int {
    if turns <= 0 {
        0
    } else if settings.draw_card_on_turn_one {
        turns
    } else {
        turns - 1
    }
}

/// Cards dealt from cards that cannot be played without mana cannot be
/// played without mana.
pub proof fn lemma_dealt_costly<'db>(
    all: Seq<Card<'db>>,
    left: Seq<Card<'db>>,
    dealt: Seq<Card<'db>>,
)
    requires
        left.to_multiset().add(dealt.to_multiset()) == all.to_multiset(),
        all_costly(all),
    ensures
        all_costly(left),
        all_costly(dealt),
{
    assert forall|i: int| 0 <= i < left.len() implies costly(#[trigger] left[i]) by {
        let card = left[i];
        assert(left.contains(card));
        vstd::seq_lib::to_multiset_contains(left, card);
        vstd::seq_lib::to_multiset_contains(all, card);
        let j = choose|j: int| 0 <= j < all.len() && all[j] == card;
        assert(costly(all[j]));
    }
    assert forall|i: int| 0 <= i < dealt.len() implies costly(#[trigger] dealt[i]) by {
        let card = dealt[i];
        assert(dealt.contains(card));
        vstd::seq_lib::to_multiset_contains(dealt, card);
        vstd::seq_lib::to_multiset_contains(all, card);
        let j = choose|j: int| 0 <= j < all.len() && all[j] == card;
        assert(costly(all[j]));
    }
}

/// What holds once a hand was dealt from the pile `full`: for some rolls
/// of a shuffle, the pile was shuffled by them, its seven top cards are the
/// hand, and the rest is the library; nothing else has changed but,
/// possibly, the count of mulligans.
pub open spec fn dealt<'db>(full: Seq<Card<'db>>, before: Game<'db>, after: Game<'db>) -> bool {
    &&& full.len() >= 7
    &&& exists|rolls: Seq<int>|
        rolls_for(rolls, full.len()) && after.hand.cards@ == drawn(
            #[trigger] exchanged(full, rolls),
            7,
        ) && after.library.cards@ == exchanged(full, rolls).take(full.len() - 7)
    &&& after.command == before.command
    &&& after.battlefield == before.battlefield
    &&& after.graveyard == before.graveyard
    &&& after.hand.name == before.hand.name
    &&& after.game_stats.turns_stats == before.game_stats.turns_stats
    &&& after.game_stats.turn_commander_played == before.game_stats.turn_commander_played
}

/// What holds once the opening hand was dealt and given back `count` times:
/// the first hand was dealt from the library; each hand that was given back
/// held fewer than three lands, and the next was dealt from the library as
/// it was at first, which raised the count of mulligans by one.
pub open spec fn mulliganed<'db>(before: Game<'db>, count: nat, after: Game<'db>) -> bool
    decreases count,
{
    if count == 0 {
        dealt(before.library.cards@, before, after) && after.game_stats.mulligan_count
            == before.game_stats.mulligan_count
    } else {
        exists|mid: Game<'db>|
            mulliganed(before, (count - 1) as nat, mid) && mid.lands_in_hand() < 3
                && #[trigger] dealt(before.library.cards@, mid, after)
                && after.game_stats.mulligan_count == mid.game_stats.mulligan_count + 1
    }
}

/// What holds of a game once it was set up: the cards of the command zone
/// lie the cheaper first, and the cards are numbered from one on, those of
/// the command zone before those of the library; nothing else has changed.
pub open spec fn set_up<'db>(before: Game<'db>, after: Game<'db>) -> bool {
    let command = sorted_by(before.command.cards@, SortKey::Cost);
    &&& after.command.cards@.len() == command.len()
    &&& forall|k: int|
        0 <= k < command.len() ==> #[trigger] after.command.cards@[k] == (Card {
            id: (1 + k) as u32,
            ..command[k]
        })
    &&& after.library.cards@.len() == before.library.cards@.len()
    &&& forall|k: int|
        0 <= k < before.library.cards@.len() ==> #[trigger] after.library.cards@[k] == (Card {
            id: (1 + command.len() + k) as u32,
            ..before.library.cards@[k]
        })
    &&& after.hand == before.hand
    &&& after.battlefield == before.battlefield
    &&& after.graveyard == before.graveyard
    &&& after.game_stats == before.game_stats
}

/// What holds once one turn of a game was played and recorded: the turn
/// with the number `number` started as `start`, was played and left the game
/// as `left` and itself as `turn`, and what is recorded of it stands last
/// among the turns of the game.
pub open spec fn game_turn_played<'db>(
    before: Game<'db>,
    settings: Settings,
    number: nat,
    start: Turn,
    left: Game<'db>,
    turn: Turn,
    after: Game<'db>,
) -> bool {
    &&& number <= u32::MAX
    &&& start.is_new(number as u32)
    &&& exists|
        fresh: Game<'db>,
        mana: Seq<Found<'db>>,
        rich: Turn,
        upkeep: Seq<Found<'db>>,
        kept_game: Game<'db>,
        kept_turn: Turn,
        drawn_game: Game<'db>,
        drawn_turn: Turn,
        count: nat,
        rested: Turn,
    | #[trigger]
        turn_played(
            before,
            start,
            settings,
            fresh,
            mana,
            rich,
            upkeep,
            kept_game,
            kept_turn,
            drawn_game,
            drawn_turn,
            count,
            rested,
            left,
            turn,
        )
    &&& after.game_stats.turns_stats@ == left.game_stats.turns_stats@.push(turn.turn_stats)
    &&& after.game_stats.mulligan_count == left.game_stats.mulligan_count
    &&& after.game_stats.turn_commander_played == left.game_stats.turn_commander_played
    &&& after.library == left.library
    &&& after.hand == left.hand
    &&& after.command == left.command
    &&& after.battlefield == left.battlefield
    &&& after.graveyard == left.graveyard
}

/// What holds once so many turns of a game were played and recorded, one
/// after the other, numbered from one on.
pub open spec fn turns_played<'db>(
    before: Game<'db>,
    settings: Settings,
    count: nat,
    after: Game<'db>,
) -> bool
    decreases count,
{
    if count == 0 {
        after == before
    } else {
        exists|mid: Game<'db>, start: Turn, left: Game<'db>, turn: Turn|
            turns_played(before, settings, (count - 1) as nat, mid) && #[trigger] game_turn_played(
                mid,
                settings,
                count,
                start,
                left,
                turn,
                after,
            )
    }
}

/// What holds once a game was played, with the game as it was set up
/// (`numbered`) and as it stood with the opening hand (`opened`): the game
/// was set up; the opening hand was dealt, and given back `mulligans` times;
/// and the turns were played.
pub open spec fn game_played<'db>(
    before: Game<'db>,
    settings: Settings,
    numbered: Game<'db>,
    mulligans: nat,
    opened: Game<'db>,
    after: Game<'db>,
) -> bool {
    &&& set_up(before, numbered)
    &&& mulliganed(numbered, mulligans, opened)
    &&& opened.game_stats.mulligan_count == before.game_stats.mulligan_count + mulligans
    &&& settings.mulligan is Keep ==> mulligans == 0
    &&& settings.mulligan is ThreeLands ==> opened.lands_in_hand() >= 3
    &&& turns_played(opened, settings, settings.turn_count as nat, after)
}

/// Whether a game has come, without fault, to the start of a turn: it was
/// set up (`numbered`), the first hand was dealt and kept (`opened`), and
/// `turns` turns, fewer than are to be played, have left it as `mid`, where
/// the next turn starts as `start`.
pub open spec fn reached<'db>(
    before: Game<'db>,
    settings: Settings,
    numbered: Game<'db>,
    opened: Game<'db>,
    turns: nat,
    mid: Game<'db>,
    start: Turn,
) -> bool {
    &&& set_up(before, numbered)
    &&& mulliganed(numbered, 0, opened)
    &&& turns < settings.turn_count
    &&& turns_played(opened, settings, turns, mid)
    &&& start.is_new((turns + 1) as u32)
}

/// Whether `fault` is the fault of a game, with the game as it was set up
/// (`numbered`) and as the opening hands left it (`opened`): the library
/// holds no seven cards; or a hand with fewer than three lands cannot be
/// given back because the count of mulligans has no room; or, `turns` turns
/// having left the game as `mid`, the next turn, which starts as `start`,
/// fails.
pub open spec fn game_failed<'db>(
    before: Game<'db>,
    settings: Settings,
    numbered: Game<'db>,
    opened: Game<'db>,
    turns: nat,
    mid: Game<'db>,
    start: Turn,
    fault: Fault,
) -> bool {
    &&& set_up(before, numbered)
    &&& {
        ||| fault == Fault::LibraryEmpty && before.library.cards@.len() < 7
        ||| fault == Fault::TooMany && settings.mulligan is ThreeLands && opened.lands_in_hand() < 3
            && opened.game_stats.mulligan_count == u32::MAX && exists|mulligans: nat| #[trigger]
            mulliganed(numbered, mulligans, opened)
        ||| turns < settings.turn_count && turns_played(opened, settings, turns, mid)
            && start.is_new((turns + 1) as u32) && (exists|mulligans: nat| #[trigger]
            mulliganed(numbered, mulligans, opened)) && exists|
            fresh: Game<'db>,
            mana: Seq<Found<'db>>,
            rich: Turn,
            upkeep: Seq<Found<'db>>,
            kept_game: Game<'db>,
            kept_turn: Turn,
            drawn_game: Game<'db>,
            drawn_turn: Turn,
        | #[trigger]
            turn_failed(
                mid,
                start,
                settings,
                fresh,
                mana,
                rich,
                upkeep,
                kept_game,
                kept_turn,
                drawn_game,
                drawn_turn,
                fault,
            )
    }
}

/// How many turns are recorded of a game.
pub open spec fn recorded_before<'db>(game: Game<'db>) -> int {
    game.game_stats.turns_stats@.len() as int
}

impl<'db> Game<'db> {
    /// Whether the deck is one with which nothing can be done: no card of
    /// the library or of the command zone can be played without mana, the
    /// first hand is kept, and the library holds a card for every draw.
    pub open spec fn barren(self, settings: Settings) -> bool {
        &&& settings.mulligan is Keep
        &&& self.library.cards@.len() >= 7 + settings.turn_count
        &&& all_costly(self.library.cards@)
        &&& all_costly(self.command.cards@)
    }

    /// What is recorded of the turn at the given place of a game in which
    /// nothing can be done: the card drawn and the size of the hand.
    pub open spec fn barren_turn(settings: Settings, at: int) -> TurnStats {
        TurnStats {
            turn_number: (at + 1) as u32,
            lands_played: 0,
            lands_cheated: 0,
            cards_drawn: (draws_in(settings, at + 1) - draws_in(settings, at)) as u32,
            cards_played: 0,
            cards_in_hand: (7 + draws_in(settings, at + 1)) as u32,
            mana_available: 0,
            mana_spent: 0,
        }
    }

    /// What a game leaves behind in which nothing could be done: seven
    /// cards and one more for each draw in the hand, nothing on the
    /// battlefield, and turns in which a card was drawn at most.
    pub open spec fn played_out(self, settings: Settings, after: Game<'db>) -> bool {
        &&& after.battlefield.cards@.len() == 0
        &&& after.graveyard.cards@.len() == 0
        &&& after.command.cards@.len() == self.command.cards@.len()
        &&& after.hand.cards@.len() == 7 + draws_in(settings, settings.turn_count as int)
        &&& after.library.cards@.len() + after.hand.cards@.len() == self.library.cards@.len()
        &&& after.game_stats.mulligan_count == self.game_stats.mulligan_count
        &&& after.game_stats.turn_commander_played == self.game_stats.turn_commander_played
        &&& forall|i: int|
            0 <= i < settings.turn_count
                ==> #[trigger] after.game_stats.turns_stats@[recorded_before(self) + i]
                == Game::barren_turn(settings, i)
    }

    /// How many lands the hand holds.
    pub open spec fn lands_in_hand(self) -> nat {
        self.hand.cards@.filter(of_type(Types::Land)).len()
    }

    /// Whether the game is played without fault whatever is rolled: the
    /// library holds seven cards, the first hand is kept, and each turn is
    /// sure to be played, whatever the turns before it have left.
    pub open spec fn plays_surely(self, settings: Settings) -> bool {
        &&& self.library.cards@.len() >= 7
        &&& settings.mulligan is Keep
        &&& forall|
            numbered: Game<'db>,
            opened: Game<'db>,
            turns: nat,
            mid: Game<'db>,
            start: Turn,
        | #[trigger]
            reached(self, settings, numbered, opened, turns, mid, start) ==> start.plays_surely(
                mid,
                settings,
            )
    }

    /// Whether the pile `full` holds the cards of the library and of the
    /// hand: as many cards, with the same numbers, all of them in order.
    pub open spec fn deals_from(self, full: Seq<Card<'db>>) -> bool {
        &&& data_ok(full)
        &&& full.len() == self.library.cards@.len() + self.hand.cards@.len()
        &&& id_bag(full).add(id_bag(self.command.cards@)).add(
            id_bag(self.battlefield.cards@),
        ).add(id_bag(self.graveyard.cards@)) == self.all_ids()
    }

    /// Whether the hand is kept: always where the settings ask for no
    /// mulligan, else where it holds three lands.
    pub fn keeps_hand(&self, settings: &Settings) -> (r: bool)
        ensures
            r == (settings.mulligan is Keep || self.lands_in_hand() >= 3),
    {
        match settings.mulligan {
            MulliganType::Keep => true,
            MulliganType::ThreeLands => self.hand.query(Types::Land).len() >= 3,
        }
    }

    /// Deals a hand from the pile `full`, which holds the cards of the
    /// library and of the hand: the library is set up as `full` and
    /// shuffled, the hand is emptied, and seven cards are drawn. With fewer
    /// than seven cards in `full` none is drawn.
    pub fn deal_hand(&mut self, full: &Zone<'db>, rng: &mut StdRng) -> (r: Result<(), Fault>)
        requires
            old(self).wf(),
            old(self).deals_from(full.cards@),
        ensures
            match r {
                Ok(_) => {
                    &&& dealt(full.cards@, *old(self), *final(self))
                    &&& final(self).game_stats == old(self).game_stats
                    &&& final(self).wf()
                    &&& final(self).deals_from(full.cards@)
                    &&& final(self).all_ids() == old(self).all_ids()
                    &&& final(self).hand.cards@.len() == 7
                    &&& final(self).library.cards@.len() + 7 == full.cards@.len()
                    &&& final(self).library.cards@.to_multiset().add(
                        final(self).hand.cards@.to_multiset(),
                    ) == full.cards@.to_multiset()
                },
                Err(fault) => fault == Fault::LibraryEmpty && full.cards@.len() < 7,
            },
            full.cards@.len() >= 7 ==> r is Ok,
    {
        self.library = full.duplicate();
        self.library.shuffle(rng);
        self.hand.clear();
        let ghost shuffled = self.library.cards@;
        proof {
            lemma_pile_empty(self.hand.cards@);
            assert(self.all_ids() =~= old(self).all_ids());
        }
        match self.draw_cards(7) {
            Ok(_) => {},
            Err(fault) => {
                return Err(fault);
            },
        }
        proof {
            lemma_drawn(shuffled, 7);
            lemma_drawn_from(shuffled, 7);
            assert(self.hand.cards@ =~= drawn(shuffled, 7));
        }
        Ok(())
    }

    /// Gives the hand back and deals another from the pile `full`, which
    /// counts as one mulligan. Nothing is done where the count of mulligans
    /// has no room for it.
    pub fn mulligan(&mut self, full: &Zone<'db>, rng: &mut StdRng) -> (r: Result<(), Fault>)
        requires
            old(self).wf(),
            old(self).deals_from(full.cards@),
        ensures
            match r {
                Ok(_) => {
                    &&& dealt(full.cards@, *old(self), *final(self))
                    &&& final(self).game_stats.mulligan_count
                        == old(self).game_stats.mulligan_count + 1
                    &&& final(self).wf()
                    &&& final(self).deals_from(full.cards@)
                    &&& final(self).all_ids() == old(self).all_ids()
                    &&& final(self).hand.cards@.len() == 7
                    &&& final(self).library.cards@.len() + 7 == full.cards@.len()
                    &&& final(self).library.cards@.to_multiset().add(
                        final(self).hand.cards@.to_multiset(),
                    ) == full.cards@.to_multiset()
                },
                Err(fault) => *final(self) == *old(self) && if fault == Fault::TooMany {
                    old(self).game_stats.mulligan_count == u32::MAX
                } else {
                    fault == Fault::LibraryEmpty && full.cards@.len() < 7
                },
            },
            r is Ok <==> old(self).game_stats.mulligan_count < u32::MAX && full.cards@.len() >= 7,
    {
        let count = match raised(self.game_stats.mulligan_count, 1) {
            Ok(count) => count,
            Err(fault) => {
                return Err(fault);
            },
        };
        if full.cards.len() < 7 {
            return Err(Fault::LibraryEmpty);
        }
        match self.deal_hand(full, rng) {
            Ok(_) => {},
            Err(_) => vstd::pervasive::unreached(),
        }
        self.game_stats.mulligan_count = count;
        Ok(())
    }

    /// Draws the opening hand of seven cards from the shuffled library.
    ///
    /// Where the settings say so, a hand with fewer than three lands is
    /// given back: the library is set up again as it was, shuffled, and
    /// seven cards are drawn anew, which counts as one mulligan; and so on
    /// until the hand holds three lands. The count of mulligans grows by
    /// the number of hands given back; where it has no room for one more,
    /// the hand stays as it is.
    pub fn draw_and_mulligan(&mut self, settings: &Settings, rng: &mut StdRng) -> (r: Result<
        (),
        Fault,
    >)
        requires
            old(self).wf(),
            old(self).hand.cards@.len() == 0,
        ensures
            match r {
                Ok(_) => {
                    &&& final(self).wf()
                    &&& final(self).hand.cards@.len() == 7
                    &&& final(self).library.cards@.len() + 7 == old(self).library.cards@.len()
                    &&& final(self).all_ids() == old(self).all_ids()
                    &&& final(self).command == old(self).command
                    &&& final(self).battlefield == old(self).battlefield
                    &&& final(self).graveyard == old(self).graveyard
                    &&& final(self).game_stats.turns_stats == old(self).game_stats.turns_stats
                    &&& final(self).game_stats.turn_commander_played
                        == old(self).game_stats.turn_commander_played
                    &&& final(self).game_stats.mulligan_count >= old(self).game_stats.mulligan_count
                    &&& settings.mulligan is Keep ==> final(self).game_stats.mulligan_count
                        == old(self).game_stats.mulligan_count
                    &&& settings.mulligan is ThreeLands ==> final(self).lands_in_hand() >= 3
                    &&& final(self).library.cards@.to_multiset().add(
                        final(self).hand.cards@.to_multiset(),
                    ) == old(self).library.cards@.to_multiset()
                    &&& exists|count: nat|
                        final(self).game_stats.mulligan_count == old(self).game_stats.mulligan_count
                            + count && (settings.mulligan is Keep ==> count == 0)
                            && #[trigger] mulliganed(*old(self), count, *final(self))
                },
                Err(fault) => (fault == Fault::LibraryEmpty && old(self).library.cards@.len() < 7)
                    || (fault == Fault::TooMany && settings.mulligan is ThreeLands
                        && old(self).library.cards@.len() >= 7
                        && final(self).game_stats.mulligan_count == u32::MAX
                        && final(self).lands_in_hand() < 3 && exists|count: nat|
                        final(self).game_stats.mulligan_count == old(self).game_stats.mulligan_count
                            + count && #[trigger] mulliganed(*old(self), count, *final(self))),
            },
            old(self).library.cards@.len() < 7 ==> r is Err,
            settings.mulligan is Keep && old(self).library.cards@.len() >= 7 ==> r is Ok,
    {
        proof {
            lemma_pile_empty(old(self).hand.cards@);
            assert(self.all_ids() =~= id_bag(self.library.cards@).add(
                id_bag(self.command.cards@),
            ).add(id_bag(self.battlefield.cards@)).add(id_bag(self.graveyard.cards@)));
        }
        let full_library = self.library.duplicate();
        match self.deal_hand(&full_library, rng) {
            Ok(_) => {},
            Err(fault) => {
                return Err(fault);
            },
        }
        let ghost mut count: nat = 0;
        proof {
            assert(mulliganed(*old(self), 0, *self));
        }
        match settings.mulligan {
            MulliganType::ThreeLands => {
                while !self.keeps_hand(settings)
                    invariant
                        self.wf(),
                        old(self).wf(),
                        settings.mulligan is ThreeLands,
                        full_library.cards@ == old(self).library.cards@,
                        self.deals_from(full_library.cards@),
                        self.hand.cards@.len() == 7,
                        self.library.cards@.len() + 7 == old(self).library.cards@.len(),
                        self.all_ids() == old(self).all_ids(),
                        self.command == old(self).command,
                        self.battlefield == old(self).battlefield,
                        self.graveyard == old(self).graveyard,
                        self.game_stats.turns_stats == old(self).game_stats.turns_stats,
                        self.game_stats.turn_commander_played
                            == old(self).game_stats.turn_commander_played,
                        self.game_stats.mulligan_count == old(self).game_stats.mulligan_count
                            + count,
                        mulliganed(*old(self), count, *self),
                        self.library.cards@.to_multiset().add(self.hand.cards@.to_multiset())
                            == old(self).library.cards@.to_multiset(),
                    decreases u32::MAX - self.game_stats.mulligan_count,
                {
                    let ghost given_back = *self;
                    match self.mulligan(&full_library, rng) {
                        Ok(_) => {},
                        Err(fault) => {
                            return Err(fault);
                        },
                    }
                    proof {
                        assert(mulliganed(*old(self), count, given_back));
                        assert(dealt(old(self).library.cards@, given_back, *self));
                        count = count + 1;
                    }
                }
            },
            MulliganType::Keep => {},
        }
        Ok(())
    }

    /// Plays the game: puts the cheapest commander first, numbers the cards
    /// from one on, those of the command zone before those of the library,
    /// draws the opening hand, and plays the turns, recording each.
    ///
    /// A library of fewer than seven cards gives no opening hand. A game
    /// without turns whose first hand is kept is played without fault, and
    /// so is a game with a barren deck, in which each turn draws its card
    /// and nothing else is done. A fault is the fault of the first step that
    /// fails, and there is none where the first hand is kept and every turn
    /// is sure to be played.
    pub fn play(&mut self, settings: &Settings, rng: &mut StdRng) -> (r: Result<(), Fault>)
        requires
            old(self).wf(),
            old(self).library.cards@.len() > 0,
            old(self).hand.cards@.len() == 0,
            old(self).battlefield.cards@.len() == 0,
            old(self).graveyard.cards@.len() == 0,
        ensures
            r is Ok ==> {
                &&& final(self).wf()
                &&& final(self).card_count() == old(self).card_count()
                &&& final(self).game_stats.turns_stats@.len()
                    == old(self).game_stats.turns_stats@.len() + settings.turn_count
                &&& forall|i: int|
                    0 <= i < settings.turn_count
                        ==> (#[trigger] final(self).game_stats.turns_stats@[recorded_before(
                        *old(self),
                    ) + i]).turn_number == i + 1
                &&& final(self).game_stats.mulligan_count >= old(self).game_stats.mulligan_count
                &&& settings.mulligan is Keep ==> final(self).game_stats.mulligan_count
                    == old(self).game_stats.mulligan_count
                &&& final(self).all_ids() == numbers(1, old(self).card_count())
                &&& exists|numbered: Game<'db>, mulligans: nat, opened: Game<'db>| #[trigger]
                    game_played(*old(self), *settings, numbered, mulligans, opened, *final(self))
            },
            r matches Err(fault) ==> exists|
                numbered: Game<'db>,
                opened: Game<'db>,
                turns: nat,
                mid: Game<'db>,
                start: Turn,
            | #[trigger]
                game_failed(*old(self), *settings, numbered, opened, turns, mid, start, fault),
            old(self).plays_surely(*settings) ==> r is Ok,
            old(self).library.cards@.len() < 7 ==> r == Err::<(), Fault>(Fault::LibraryEmpty),
            settings.turn_count == 0 && settings.mulligan is Keep && old(self).library.cards@.len()
                >= 7 ==> r is Ok,
            old(self).barren(*settings) ==> r is Ok && old(self).played_out(
                *settings,
                *final(self),
            ),
    {
        let ghost barren = self.barren(*settings);
        self.command.sort_by_cmc();
        proof {
            crate::order::lemma_sorted_by(old(self).command.cards@, crate::order::SortKey::Cost);
            assert(data_ok(self.command.cards@)) by {
                assert forall|k: int| 0 <= k < self.command.cards@.len() implies (
                #[trigger] self.command.cards@[k]).data.wf() by {
                    let card = self.command.cards@[k];
                    assert(self.command.cards@.contains(card));
                    vstd::seq_lib::to_multiset_contains(self.command.cards@, card);
                    vstd::seq_lib::to_multiset_contains(old(self).command.cards@, card);
                    let j = choose|j: int|
                        0 <= j < old(self).command.cards@.len() && old(self).command.cards@[j]
                            == card;
                    assert(old(self).command.cards@[j].data.wf());
                }
            }
        }
        proof {
            if barren {
                assert(Seq::<Card<'db>>::empty().to_multiset().add(
                    self.command.cards@.to_multiset(),
                ) =~= old(self).command.cards@.to_multiset()) by {
                    Seq::<Card<'db>>::empty().to_multiset_ensures();
                    assert(Seq::<Card<'db>>::empty().to_multiset() =~= Multiset::<
                        Card<'db>,
                    >::empty());
                }
                lemma_dealt_costly(
                    old(self).command.cards@,
                    Seq::<Card<'db>>::empty(),
                    self.command.cards@,
                );
            }
        }
        let ghost sorted = *self;
        let id = self.command.assign_ids(1);
        self.library.assign_ids(id);
        proof {
            if barren {
                assert(all_costly(self.command.cards@)) by {
                    assert forall|k: int| 0 <= k < self.command.cards@.len() implies costly(
                        #[trigger] self.command.cards@[k],
                    ) by {
                        assert(costly(sorted.command.cards@[k]));
                    }
                }
                assert(all_costly(self.library.cards@)) by {
                    assert forall|k: int| 0 <= k < self.library.cards@.len() implies costly(
                        #[trigger] self.library.cards@[k],
                    ) by {
                        assert(costly(old(self).library.cards@[k]));
                    }
                }
            }
        }
        let ghost numbered = *self;
        proof {
            let in_command = self.command.cards@.len();
            let in_library = self.library.cards@.len();
            lemma_numbered(self.command.cards@, 1);
            lemma_numbered(self.library.cards@, 1 + in_command as int);
            lemma_numbers_joined(1, in_command, in_library);
            lemma_pile_empty(self.hand.cards@);
            lemma_pile_empty(self.battlefield.cards@);
            lemma_pile_empty(self.graveyard.cards@);
            assert(self.all_ids() =~= numbers(1, old(self).card_count()));
        }
        proof {
            assert(data_ok(self.command.cards@)) by {
                assert forall|k: int| 0 <= k < self.command.cards@.len() implies (
                #[trigger] self.command.cards@[k]).data.wf() by {
                    assert(sorted.command.cards@[k].data.wf());
                }
            }
            assert(data_ok(self.library.cards@)) by {
                assert forall|k: int| 0 <= k < self.library.cards@.len() implies (
                #[trigger] self.library.cards@[k]).data.wf() by {
                    assert(old(self).library.cards@[k].data.wf());
                }
            }
        }

        proof {
            assert(set_up(*old(self), numbered));
        }
        match self.draw_and_mulligan(settings, rng) {
            Ok(_) => {},
            Err(fault) => {
                proof {
                    assert(game_failed(
                        *old(self),
                        *settings,
                        numbered,
                        *self,
                        0,
                        *self,
                        arbitrary(),
                        fault,
                    ));
                }
                return Err(fault);
            },
        }
        let ghost opened = *self;
        let ghost mulligans = choose|count: nat|
            opened.game_stats.mulligan_count == numbered.game_stats.mulligan_count + count && (
            settings.mulligan is Keep ==> count == 0) && #[trigger] mulliganed(
                numbered,
                count,
                opened,
            );
        proof {
            if barren {
                lemma_dealt_costly(
                    numbered.library.cards@,
                    self.library.cards@,
                    self.hand.cards@,
                );
            }
        }

        let mut i: u32 = 0;
        while i < settings.turn_count
            invariant
                i <= settings.turn_count,
                self.wf(),
                old(self).library.cards@.len() >= 7,
                self.all_ids() == numbers(1, old(self).card_count()),
                barren == old(self).barren(*settings),
                barren ==> {
                    &&& settings.mulligan is Keep
                    &&& old(self).library.cards@.len() >= 7 + settings.turn_count
                    &&& self.battlefield.cards@.len() == 0
                    &&& self.graveyard.cards@.len() == 0
                    &&& self.command.cards@.len() == old(self).command.cards@.len()
                    &&& all_costly(self.library.cards@)
                    &&& all_costly(self.hand.cards@)
                    &&& all_costly(self.command.cards@)
                    &&& self.hand.cards@.len() == 7 + draws_in(*settings, i as int)
                    &&& self.library.cards@.len() + self.hand.cards@.len()
                        == old(self).library.cards@.len()
                    &&& self.game_stats.turn_commander_played
                        == old(self).game_stats.turn_commander_played
                    &&& forall|k: int|
                        0 <= k < i ==> #[trigger] self.game_stats.turns_stats@[recorded_before(
                            *old(self),
                        ) + k] == Game::barren_turn(*settings, k)
                },
                self.card_count() == old(self).card_count(),
                self.game_stats.turns_stats@.len() == old(self).game_stats.turns_stats@.len() + i,
                forall|k: int|
                    0 <= k < i
                        ==> (#[trigger] self.game_stats.turns_stats@[recorded_before(*old(self))
                        + k]).turn_number == k + 1,
                self.game_stats.mulligan_count >= old(self).game_stats.mulligan_count,
                settings.mulligan is Keep ==> self.game_stats.mulligan_count
                    == old(self).game_stats.mulligan_count,
                set_up(*old(self), numbered),
                mulliganed(numbered, mulligans, opened),
                settings.mulligan is Keep ==> mulligans == 0,
                turns_played(opened, *settings, i as nat, *self),
            decreases settings.turn_count - i,
        {
            let mut turn = Turn::new(i + 1);
            let ghost fresh = turn;
            let ghost started = *self;
            proof {
                assert(fresh.is_new((i + 1) as u32));
                if settings.mulligan is Keep {
                    assert(reached(
                        *old(self),
                        *settings,
                        numbered,
                        opened,
                        i as nat,
                        started,
                        fresh,
                    ));
                }
            }
            proof {
                if barren {
                    assert forall|k: int| 0 <= k < self.hand.cards@.len() implies turn.cannot_play(
                        #[trigger] self.hand.cards@[k],
                    ) by {
                        assert(costly(self.hand.cards@[k]));
                    }
                    assert(costly(self.library.cards@[self.library.cards@.len() - 1]));
                    if self.command.cards@.len() > 0 {
                        assert(costly(self.command.cards@[0]));
                    }
                    assert(bare(self.battlefield.cards@));
                    assert(turn.calm(*self, *settings));
                }
            }
            match turn.play(self, settings, rng) {
                Ok(_) => {},
                Err(fault) => {
                    proof {
                        assert(game_failed(
                            *old(self),
                            *settings,
                            numbered,
                            opened,
                            i as nat,
                            started,
                            fresh,
                            fault,
                        ));
                    }
                    return Err(fault);
                },
            }
            let ghost before = self.game_stats.turns_stats@;
            let ghost played = *self;
            self.game_stats.turns_stats.push(turn.turn_stats);
            proof {
                assert(game_turn_played(
                    started,
                    *settings,
                    (i + 1) as nat,
                    fresh,
                    played,
                    turn,
                    *self,
                ));
                assert(turns_played(opened, *settings, (i + 1) as nat, *self));
                if barren {
                    assert(fresh.passed_calmly(started, *settings, turn, played));
                    assert(all_costly(self.hand.cards@)) by {
                        assert forall|k: int| 0 <= k < self.hand.cards@.len() implies costly(
                            #[trigger] self.hand.cards@[k],
                        ) by {
                            if k < started.hand.cards@.len() {
                                assert(costly(started.hand.cards@[k]));
                            }
                        }
                    }
                    assert(all_costly(self.library.cards@)) by {
                        assert forall|k: int| 0 <= k < self.library.cards@.len() implies costly(
                            #[trigger] self.library.cards@[k],
                        ) by {
                            assert(costly(started.library.cards@[k]));
                        }
                    }
                    assert(turn.turn_stats == Game::barren_turn(*settings, i as int));
                    let first = recorded_before(*old(self));
                    assert forall|k: int| 0 <= k < i + 1 implies (
                    #[trigger] self.game_stats.turns_stats@[first + k]) == Game::barren_turn(
                        *settings,
                        k,
                    ) by {
                        if k < i {
                            assert(before[first + k] == Game::barren_turn(*settings, k));
                        }
                    }
                }
                let start = recorded_before(*old(self));
                assert forall|k: int| 0 <= k < i + 1 implies (
                #[trigger] self.game_stats.turns_stats@[start + k]).turn_number == k + 1 by {
                    if k < i {
                        assert(before[start + k].turn_number == k + 1);
                    }
                }
            }
            i += 1;
        }
        proof {
            assert(game_played(*old(self), *settings, numbered, mulligans, opened, *self));
        }
        Ok(())
    }
}

} // verus!
