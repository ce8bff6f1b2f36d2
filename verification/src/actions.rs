//! The actions of a turn: what is tried, in which order, and what each does.

use vstd::prelude::*;
use rand::rngs::StdRng;
use crate::card::{Ability, Card, Types};
use crate::game::{Fault, Game, TurnStats};
use crate::mana::Color;
use crate::order::{lemma_sorted_by, sort_cards_on_colors_produced, sorted_by, SortKey};
use crate::pips::{PipCounts, MAX_COUNTED_CARDS};
use crate::pool::{ManaPool, PoolView};
use crate::search::{mana_in_order, nothing_usable, searched, sure_to_be_found, Found, Purpose};
use crate::seqs::{
    first_index, first_least, is_first_least, lemma_first_index, lemma_first_index_is,
};
use crate::turn::{
    cards_on_entry, counted_on_entry, draws_on_entry, effect_done, effect_fails, effect_is_sure,
    entered, lands_on_entry, lemma_entry_keeps_paying, limit_on_entry, one_land, played,
    quiet_on_entry, raised, replenished, used, Turn,
};
use crate::zone::{data_ok, has_id, lemma_pile_push, lemma_pile_remove, of_type, Zone};

verus! {

/// Whether a card makes mana of `color` when tapped.
pub open spec fn makes<'db>(color: Color) -> spec_fn(Card<'db>) -> bool {
    |card: Card<'db>|
        match card.data.produced_mana {
            Some(mana) => mana.has(color),
            None => false,
        }
}

/// The land to play for the colors wanted: for the first wanted color that
/// some land makes, the first land that makes it.
pub open spec fn land_for_colors<'db>(lands: Seq<Card<'db>>, wanted: Seq<Color>) -> Option<
    Card<'db>,
>
    decreases wanted.len(),
{
    if wanted.len() == 0 {
        None
    } else if first_index(lands, makes(wanted[0])) < lands.len() {
        Some(lands[first_index(lands, makes(wanted[0]))])
    } else {
        land_for_colors(lands, wanted.drop_first())
    }
}

/// The colors of which the mana at hand falls short of what the costs of the
/// cards in hand ask for, the most wanted first; `None` where those costs ask
/// for no color.
pub open spec fn desired_colors<'db>(hand: Seq<Card<'db>>, pool: PoolView) -> Option<Seq<Color>> {
    if PipCounts::of_costs(hand).sum() > 0 {
        Some(PipCounts::of_costs(hand).in_demand(PipCounts::of_pool(pool)))
    } else {
        None
    }
}

/// The land of the hand to play next, if it holds one: of the lands, those
/// that make mana of more colors first, the first that makes the most
/// wanted color that any of them makes; the first of them where none makes
/// a wanted color.
pub open spec fn land_choice<'db>(hand: Seq<Card<'db>>, pool: PoolView) -> Option<Card<'db>> {
    let lands = sorted_by(hand.filter(of_type(Types::Land)), SortKey::ColorsMade);
    if lands.len() == 0 {
        None
    } else {
        match desired_colors(hand, pool) {
            Some(wanted) => match land_for_colors(lands, wanted) {
                Some(land) => Some(land),
                None => Some(lands[0]),
            },
            None => Some(lands[0]),
        }
    }
}

/// Whether an action has used something up: a card has left the library,
/// the hand or the command zone for good; or else a card has left the
/// battlefield or was tapped; or else mana was spent.
pub open spec fn advanced<'db>(
    before_game: Game<'db>,
    before_turn: Turn,
    after_game: Game<'db>,
    after_turn: Turn,
) -> bool {
    ||| after_game.unsettled() < before_game.unsettled()
    ||| (after_game.unsettled() == before_game.unsettled() && after_game.standing()
        < before_game.standing())
    ||| (after_game.unsettled() == before_game.unsettled() && after_game.standing()
        == before_game.standing() && after_turn.mana_left() < before_turn.mana_left())
}

/// What holds of an action that was tried: the game stays a game of the
/// same cards, with no more lands played than may be; if nothing was done,
/// nothing has changed, and if something was done, something was used up.
pub open spec fn tried<'db>(
    before_game: Game<'db>,
    before_turn: Turn,
    after_game: Game<'db>,
    after_turn: Turn,
    acted: bool,
) -> bool {
    &&& after_game.wf()
    &&& after_turn.wf()
    &&& after_game.all_ids() == before_game.all_ids()
    &&& after_game.card_count() == before_game.card_count()
    &&& after_turn.turn_number == before_turn.turn_number
    &&& after_turn.turn_stats.turn_number == before_turn.turn_stats.turn_number
    &&& after_game.game_stats.turns_stats == before_game.game_stats.turns_stats
    &&& after_game.game_stats.mulligan_count == before_game.game_stats.mulligan_count
    &&& before_turn.lands_played <= before_turn.land_limit ==> after_turn.lands_played
        <= after_turn.land_limit
    &&& acted ==> advanced(before_game, before_turn, after_game, after_turn)
    &&& !acted ==> after_game == before_game && after_turn == before_turn
}

/// What holds once the card at the place `at` of the hand was played: it
/// has left the hand and lies on top of the battlefield, or of the graveyard
/// if it does not stay in play, tapped if it enters tapped; it counts as a
/// land or as a card played; its abilities have raised the land limit and
/// added their mana; its cost is spent; and lands were fetched and cards
/// drawn by no more than its abilities allow.
pub open spec fn hand_card_played<'db>(
    before_game: Game<'db>,
    before_turn: Turn,
    at: int,
    after_game: Game<'db>,
    after_turn: Turn,
) -> bool {
    let card = before_game.hand.cards@[at];
    &&& 0 <= at < before_game.hand.cards@.len()
    &&& tried(before_game, before_turn, after_game, after_turn, true)
    &&& after_game.unsettled() < before_game.unsettled()
    &&& after_game.command == before_game.command
    &&& after_game.game_stats == before_game.game_stats
    &&& after_turn.lands_played == before_turn.lands_played + one_land(card)
    &&& after_turn.turn_stats.lands_played == before_turn.turn_stats.lands_played + one_land(card)
    &&& after_turn.turn_stats.cards_played == before_turn.turn_stats.cards_played + 1 - one_land(
        card,
    )
    &&& after_turn.land_limit == before_turn.land_limit + limit_on_entry(
        card.data.all_abilities(),
    )
    &&& after_turn.mana_pool@ == before_turn.pool_with(card)
    &&& after_game.hand.cards@.len() >= before_game.hand.cards@.len() - 1
    &&& after_game.hand.cards@.take(before_game.hand.cards@.len() - 1)
        == before_game.hand.cards@.remove(at)
    &&& after_game.battlefield.cards@.len() >= before_game.battlefield.cards@.len()
    &&& after_game.battlefield.cards@.take(before_game.battlefield.cards@.len() as int)
        == before_game.battlefield.cards@
    &&& if card.data.is_permanent() {
        after_game.battlefield.cards@.len() > before_game.battlefield.cards@.len()
            && after_game.battlefield.cards@.last() == entered(card) && after_game.graveyard.cards@
            == before_game.graveyard.cards@
    } else {
        after_game.graveyard.cards@ == before_game.graveyard.cards@.push(entered(card))
    }
    &&& match card.data.mana_cost {
        Some(cost) => after_turn.mana_pool@.covers(after_turn.mana_spent@)
            && after_turn.mana_spent@ == before_turn.mana_spent@.merged(cost@),
        None => after_turn.mana_spent == before_turn.mana_spent,
    }
    &&& before_turn.turn_stats.lands_cheated <= after_turn.turn_stats.lands_cheated
        <= before_turn.turn_stats.lands_cheated + lands_on_entry(card.data.all_abilities())
    &&& before_turn.turn_stats.cards_drawn <= after_turn.turn_stats.cards_drawn
        <= before_turn.turn_stats.cards_drawn + draws_on_entry(card.data.all_abilities())
    &&& after_game.library.cards@.len() + cards_on_entry(card.data.all_abilities())
        >= before_game.library.cards@.len()
    &&& after_turn.cards_in_mana_pool@ == counted_on_entry(
        before_turn.cards_in_mana_pool@,
        card.id,
        card.data.all_abilities(),
        card.data.is_permanent(),
        entered(card).tapped,
    )
    &&& quiet_on_entry(card.data.all_abilities()) ==> {
        &&& after_game.library == before_game.library
        &&& after_game.hand.cards@ == before_game.hand.cards@.remove(at)
        &&& after_turn.turn_stats.lands_cheated == before_turn.turn_stats.lands_cheated
        &&& after_turn.turn_stats.cards_drawn == before_turn.turn_stats.cards_drawn
        &&& if card.data.is_permanent() {
            after_game.battlefield.cards@ == before_game.battlefield.cards@.push(entered(card))
        } else {
            after_game.battlefield == before_game.battlefield
        }
    }
}

/// Whether `fault` is a fault of playing the card: a counter without room,
/// a library with fewer cards than the card can take, or a cost that the
/// mana at hand does not pay.
pub open spec fn fails_to_play<'db>(turn: Turn, game: Game<'db>, card: Card<'db>, fault: Fault)
    -> bool {
    ||| fault == Fault::TooMany && !turn.has_room_for(card)
    ||| fault == Fault::LibraryEmpty && game.library.cards@.len() < cards_on_entry(
        card.data.all_abilities(),
    )
    ||| fault == Fault::CannotPay && !turn.pays_for(card)
}

/// Where the land lies that is to be played: the first place of the hand
/// with a card of the number of the land chosen.
pub open spec fn land_place<'db>(hand: Seq<Card<'db>>, pool: PoolView) -> int {
    first_index(hand, has_id(land_choice(hand, pool)->Some_0.id))
}

/// What holds once the land of the hand was played that was to be played:
/// what holds of a card of the hand that was played holds of the card at
/// the place of the land chosen.
pub open spec fn land_was_played<'db>(
    before_game: Game<'db>,
    before_turn: Turn,
    after_game: Game<'db>,
    after_turn: Turn,
) -> bool {
    hand_card_played(
        before_game,
        before_turn,
        land_place(before_game.hand.cards@, before_turn.mana_pool@),
        after_game,
        after_turn,
    )
}

/// What holds once the spell at the place `pick` of the spells found for a
/// purpose was cast: the spells found are what a search of the hand can
/// give, the spell is the cheapest of them, the first if several cost as
/// little, and its card was played from the hand.
pub open spec fn spell_was_cast<'db>(
    before_game: Game<'db>,
    before_turn: Turn,
    purpose: Purpose,
    found: Seq<Found<'db>>,
    pick: int,
    after_game: Game<'db>,
    after_turn: Turn,
) -> bool {
    &&& searched(before_turn, before_game, purpose, found)
    &&& is_first_least(card_costs(found), pick)
    &&& hand_card_played(before_game, before_turn, found[pick].at as int, after_game, after_turn)
}

/// Whether `fault` is the fault of casting the spell at the place `pick` of
/// the spells found for a purpose, the cheapest of them.
pub open spec fn spell_failed<'db>(
    game: Game<'db>,
    turn: Turn,
    purpose: Purpose,
    found: Seq<Found<'db>>,
    pick: int,
    fault: Fault,
) -> bool {
    &&& searched(turn, game, purpose, found)
    &&& is_first_least(card_costs(found), pick)
    &&& fails_to_play(turn, game, found[pick].card, fault)
}

/// What holds once an ability found on the battlefield was activated, with
/// the game and the turn as they were in between: first the effect took
/// place; then the card left its place to pay the cost and, tapped if the
/// cost taps it, went back on top of the battlefield, or to the graveyard
/// if the cost gives it up; the mana that the cost asks for was spent, and
/// the mana of a card given up or paid with was taken out of the mana at
/// hand.
pub open spec fn activated<'db>(
    before_game: Game<'db>,
    before_turn: Turn,
    pick: Found<'db>,
    mid_game: Game<'db>,
    mid_turn: Turn,
    after_game: Game<'db>,
    after_turn: Turn,
) -> bool {
    let cost = pick.it().cost;
    let cleared = mid_game.battlefield.cards@.remove(pick.at as int);
    &&& effect_done(before_game, before_turn, pick.card, pick.it().effect, mid_game, mid_turn)
    &&& after_game.library == mid_game.library
    &&& after_game.hand == mid_game.hand
    &&& after_game.command == before_game.command
    &&& after_game.game_stats == before_game.game_stats
    &&& after_turn.turn_stats == mid_turn.turn_stats
    &&& after_turn.lands_played == before_turn.lands_played
    &&& after_turn.land_limit == before_turn.land_limit
    &&& if cost.sacrifices() {
        after_game.battlefield.cards@ == cleared && after_game.graveyard.cards@
            == before_game.graveyard.cards@.push(used(pick.card, cost))
    } else {
        after_game.battlefield.cards@ == cleared.push(used(pick.card, cost))
            && after_game.graveyard == before_game.graveyard
    }
    &&& match cost.mana() {
        Some(asked) => after_turn.mana_spent@ == before_turn.mana_spent@.merged(asked@)
            && after_turn.mana_pool@.covers(after_turn.mana_spent@),
        None => after_turn.mana_spent == before_turn.mana_spent,
    }
    &&& if before_turn.gives_mana_back(pick.card, cost) {
        Some(after_turn.mana_pool@) == before_turn.mana_without(pick.card)
            && after_turn.cards_in_mana_pool@ == before_turn.cards_in_mana_pool@.remove(
            pick.card.id,
        )
    } else {
        after_turn.mana_pool == before_turn.mana_pool && after_turn.cards_in_mana_pool
            == before_turn.cards_in_mana_pool
    }
}

/// Whether `fault` is a fault of activating the ability: a fault of its
/// effect or of paying its cost.
pub open spec fn fails_to_activate<'db>(
    turn: Turn,
    game: Game<'db>,
    pick: Found<'db>,
    fault: Fault,
) -> bool {
    effect_fails(turn, game, pick.it().effect, fault) || turn.fault_of_paying(
        pick.card,
        pick.it().cost,
    ) == Some(fault)
}

/// Whether the ability is activated whatever is rolled: its effect is sure
/// to take place and nothing stands against paying its cost.
pub open spec fn sure_to_activate<'db>(turn: Turn, game: Game<'db>, pick: Found<'db>) -> bool {
    effect_is_sure(turn, game, pick.it().effect) && turn.fault_of_paying(
        pick.card,
        pick.it().cost,
    ) is None
}

/// What holds once the ability at the place `pick` of the abilities found
/// for a purpose was activated: the abilities found are what a search of
/// the battlefield can give, the ability is the one of them that costs
/// least mana, the first if several cost as little, and it was activated.
pub open spec fn ability_was_activated<'db>(
    before_game: Game<'db>,
    before_turn: Turn,
    purpose: Purpose,
    found: Seq<Found<'db>>,
    pick: int,
    mid_game: Game<'db>,
    mid_turn: Turn,
    after_game: Game<'db>,
    after_turn: Turn,
) -> bool {
    &&& searched(before_turn, before_game, purpose, found)
    &&& is_first_least(activation_costs(found), pick)
    &&& activated(
        before_game,
        before_turn,
        found[pick],
        mid_game,
        mid_turn,
        after_game,
        after_turn,
    )
}

/// Whether `fault` is the fault of activating the ability at the place
/// `pick` of the abilities found for a purpose, the cheapest of them.
pub open spec fn activation_failed<'db>(
    game: Game<'db>,
    turn: Turn,
    purpose: Purpose,
    found: Seq<Found<'db>>,
    pick: int,
    fault: Fault,
) -> bool {
    &&& searched(turn, game, purpose, found)
    &&& is_first_least(activation_costs(found), pick)
    &&& fails_to_activate(turn, game, found[pick], fault)
}

/// Whether, of the abilities that a search of the battlefield for a purpose
/// can give, the cheapest was activated.
pub open spec fn some_ability_activated<'db>(
    before_game: Game<'db>,
    before_turn: Turn,
    purpose: Purpose,
    after_game: Game<'db>,
    after_turn: Turn,
) -> bool {
    exists|found: Seq<Found<'db>>, pick: int, mid_game: Game<'db>, mid_turn: Turn| #[trigger]
        ability_was_activated(
            before_game,
            before_turn,
            purpose,
            found,
            pick,
            mid_game,
            mid_turn,
            after_game,
            after_turn,
        )
}

/// Whether, of the spells that a search of the hand for a purpose can give,
/// the cheapest was cast.
pub open spec fn some_spell_cast<'db>(
    before_game: Game<'db>,
    before_turn: Turn,
    purpose: Purpose,
    after_game: Game<'db>,
    after_turn: Turn,
) -> bool {
    exists|found: Seq<Found<'db>>, pick: int| #[trigger]
        spell_was_cast(before_game, before_turn, purpose, found, pick, after_game, after_turn)
}

/// What holds once an action was done: the land that was to be played was
/// played; or else the commander was; or else, of the actions that follow,
/// one was done before which none was sure to be done: an ability that
/// fetches lands was activated, a spell that adds mana or lands was cast, an
/// ability that draws cards was activated, a spell that draws cards was
/// cast, or the dearest spare card was played.
pub open spec fn action_done<'db>(
    before_game: Game<'db>,
    before_turn: Turn,
    after_game: Game<'db>,
    after_turn: Turn,
) -> bool {
    let bg = before_game;
    let bt = before_turn;
    &&& tried(bg, bt, after_game, after_turn, true)
    &&& if bt.has_land_to_play(bg) {
        land_was_played(bg, bt, after_game, after_turn)
    } else if bt.has_commander_to_play(bg) {
        commander_was_played(bg, bt, after_game, after_turn)
    } else {
        ||| some_ability_activated(bg, bt, Purpose::Ramp, after_game, after_turn)
        ||| bt.nothing_sure(bg, Purpose::Ramp) && some_spell_cast(
            bg,
            bt,
            Purpose::RampSpell,
            after_game,
            after_turn,
        )
        ||| bt.nothing_sure(bg, Purpose::Ramp) && nothing_usable(bt, bg, Purpose::RampSpell)
            && some_ability_activated(bg, bt, Purpose::Draw, after_game, after_turn)
        ||| bt.nothing_sure(bg, Purpose::Ramp) && nothing_usable(bt, bg, Purpose::RampSpell)
            && bt.nothing_sure(bg, Purpose::Draw) && some_spell_cast(
            bg,
            bt,
            Purpose::DrawSpell,
            after_game,
            after_turn,
        )
        ||| bt.nothing_sure(bg, Purpose::Ramp) && nothing_usable(bt, bg, Purpose::RampSpell)
            && bt.nothing_sure(bg, Purpose::Draw) && bt.nothing_sure(bg, Purpose::DrawSpell)
            && exists|at: int|
            bt.is_dearest_spare(bg, at) && #[trigger] hand_card_played(
                bg,
                bt,
                at,
                after_game,
                after_turn,
            )
    }
}

/// Whether `fault` is a fault of the action that is tried first: of playing
/// the land that is to be played; or else of a commander without a cost, or
/// of one for which the count of cards played has no room; or else of
/// finding, activating, casting or playing what is tried while nothing
/// before it was sure to be done.
pub open spec fn action_failed<'db>(game: Game<'db>, turn: Turn, fault: Fault) -> bool {
    if turn.has_land_to_play(game) {
        fails_to_play(
            turn,
            game,
            game.hand.cards@[land_place(game.hand.cards@, turn.mana_pool@)],
            fault,
        )
    } else if game.command.cards@.len() > 0 && game.command.cards@[0].data.mana_cost is None {
        fault == Fault::CommanderWithoutCost
    } else if turn.has_commander_to_play(game) {
        fault == Fault::TooMany && turn.turn_stats.cards_played == u32::MAX
    } else {
        ||| fault == Fault::ManaMissing && !mana_in_order(turn, game, Purpose::Ramp)
        ||| exists|found: Seq<Found<'db>>, pick: int| #[trigger]
            activation_failed(game, turn, Purpose::Ramp, found, pick, fault)
        ||| exists|found: Seq<Found<'db>>, pick: int| #[trigger]
            spell_failed(game, turn, Purpose::RampSpell, found, pick, fault)
        ||| fault == Fault::ManaMissing && !mana_in_order(turn, game, Purpose::Draw)
        ||| exists|found: Seq<Found<'db>>, pick: int| #[trigger]
            activation_failed(game, turn, Purpose::Draw, found, pick, fault)
        ||| exists|found: Seq<Found<'db>>, pick: int| #[trigger]
            spell_failed(game, turn, Purpose::DrawSpell, found, pick, fault)
        ||| fault == Fault::TooMany && turn.turn_stats.cards_played == u32::MAX && !turn.no_spare(
            game,
        )
    }
}

/// What holds once so many actions were done, one after the other.
pub open spec fn acted_through<'db>(
    before_game: Game<'db>,
    before_turn: Turn,
    count: nat,
    after_game: Game<'db>,
    after_turn: Turn,
) -> bool
    decreases count,
{
    if count == 0 {
        after_game == before_game && after_turn == before_turn
    } else {
        exists|mid_game: Game<'db>, mid_turn: Turn|
            acted_through(before_game, before_turn, (count - 1) as nat, mid_game, mid_turn)
                && #[trigger] action_done(mid_game, mid_turn, after_game, after_turn)
    }
}

/// What holds once the commander was played: the first card of the command
/// zone lies on top of the battlefield as it was, its cost is spent, and the
/// turn is noted as the turn of the commander.
pub open spec fn commander_was_played<'db>(
    before_game: Game<'db>,
    before_turn: Turn,
    after_game: Game<'db>,
    after_turn: Turn,
) -> bool {
    let commander = before_game.command.cards@[0];
    &&& after_game.command.cards@ == before_game.command.cards@.remove(0)
    &&& after_game.battlefield.cards@ == before_game.battlefield.cards@.push(commander)
    &&& after_game.library == before_game.library
    &&& after_game.hand == before_game.hand
    &&& after_game.graveyard == before_game.graveyard
    &&& after_game.game_stats.turn_commander_played == before_turn.turn_number
    &&& after_turn.mana_spent@ == before_turn.mana_spent@.merged(
        commander.data.mana_cost->Some_0@,
    )
    &&& after_turn.mana_pool == before_turn.mana_pool
    &&& after_turn.cards_in_mana_pool == before_turn.cards_in_mana_pool
    &&& after_turn.lands_played == before_turn.lands_played
    &&& after_turn.land_limit == before_turn.land_limit
    &&& before_turn.turn_stats.cards_played < u32::MAX
    &&& after_turn.turn_stats == (TurnStats {
        cards_played: (before_turn.turn_stats.cards_played + 1) as u32,
        ..before_turn.turn_stats
    })
}

/// Whether a card makes mana of `color` when tapped.
pub fn makes_color<'db>(card: &Card<'db>, color: Color) -> (r: bool)
    ensures
        r == makes(color)(*card),
{
    match &card.data.produced_mana {
        Some(mana) => mana.contains(color),
        None => false,
    }
}

impl Turn {
    /// The colors of which the mana at hand falls short of what the costs
    /// of the cards of a pile ask for, the most wanted first; `None` where
    /// those costs ask for no color.
    pub fn evaluate_desired_mana_colors<'db>(zone: &Zone<'db>, mana_pool: &ManaPool) -> (r: Option<
        Vec<Color>,
    >)
        requires
            zone.cards@.len() <= MAX_COUNTED_CARDS,
            data_ok(zone.cards@),
            mana_pool.wf(),
        ensures
            r is Some == desired_colors(zone.cards@, mana_pool@) is Some,
            r matches Some(colors) ==> Some(colors@) == desired_colors(zone.cards@, mana_pool@),
    {
        let pips_in_zone = zone.count_pips_in_mana_costs();
        let mut pips_in_mana_pool = PipCounts::new();
        pips_in_mana_pool.count_in_pool(mana_pool);
        if pips_in_zone.has_any() {
            Some(pips_in_zone.prioritized_delta(&pips_in_mana_pool))
        } else {
            None
        }
    }

    /// The land of the hand to play next, if it holds one.
    pub fn choose_land<'db>(&self, game: &Game<'db>) -> (r: Option<Card<'db>>)
        requires
            self.wf(),
            game.wf(),
        ensures
            r == land_choice(game.hand.cards@, self.mana_pool@),
            r matches Some(land) ==> game.hand.cards@.contains(land) && land.data.types.has(
                Types::Land,
            ),
    {
        let mut lands_in_hand = game.hand.query(Types::Land);
        if lands_in_hand.len() == 0 {
            return None;
        }
        let ghost unsorted = lands_in_hand@;
        sort_cards_on_colors_produced(&mut lands_in_hand);
        let ghost lands = lands_in_hand@;
        proof {
            lemma_sorted_by(unsorted, SortKey::ColorsMade);
            assert forall|k: int| 0 <= k < lands.len() implies game.hand.cards@.contains(
                #[trigger] lands[k],
            ) && lands[k].data.types.has(Types::Land) by {
                assert(lands.contains(lands[k]));
                vstd::seq_lib::to_multiset_contains(lands, lands[k]);
                vstd::seq_lib::to_multiset_contains(unsorted, lands[k]);
                game.hand.cards@.lemma_filter_contains_rev(of_type(Types::Land), lands[k]);
                let j = choose|j: int| 0 <= j < unsorted.len() && unsorted[j] == lands[k];
                game.hand.cards@.lemma_filter_pred(of_type(Types::Land), j);
            }
        }
        match Self::evaluate_desired_mana_colors(&game.hand, &self.mana_pool) {
            Some(wanted_color) => {
                let mut w: usize = 0;
                proof {
                    assert(wanted_color@.skip(0) == wanted_color@);
                }
                while w < wanted_color.len()
                    invariant
                        w <= wanted_color@.len(),
                        lands == lands_in_hand@,
                        lands.len() > 0,
                        lands == sorted_by(
                            game.hand.cards@.filter(of_type(Types::Land)),
                            SortKey::ColorsMade,
                        ),
                        Some(wanted_color@) == desired_colors(game.hand.cards@, self.mana_pool@),
                        forall|k: int|
                            0 <= k < lands.len() ==> game.hand.cards@.contains(#[trigger] lands[k])
                                && lands[k].data.types.has(Types::Land),
                        land_for_colors(lands, wanted_color@) == land_for_colors(
                            lands,
                            wanted_color@.skip(w as int),
                        ),
                    decreases wanted_color@.len() - w,
                {
                    let color = wanted_color[w];
                    let mut at: usize = 0;
                    while at < lands_in_hand.len() && !makes_color(&lands_in_hand[at], color)
                        invariant
                            at <= lands_in_hand@.len(),
                            forall|j: int| 0 <= j < at
                                ==> !makes(color)(#[trigger] lands_in_hand@[j]),
                        decreases lands_in_hand@.len() - at,
                    {
                        at += 1;
                    }
                    proof {
                        lemma_first_index_is(lands, makes(color), at as int);
                        assert(wanted_color@.skip(w as int)[0] == color);
                        assert(wanted_color@.skip(w as int).drop_first() == wanted_color@.skip(
                            w + 1,
                        ));
                    }
                    if at < lands_in_hand.len() {
                        return Some(lands_in_hand[at]);
                    }
                    w += 1;
                }
            },
            None => {},
        }
        Some(lands_in_hand[0])
    }

    /// Takes the card at the place `at` out of the hand and plays it; a
    /// land only while a land may still be played. The card is played
    /// wherever the counters have room, the library holds what the card can
    /// take, and its cost is paid.
    pub fn play_from_hand<'db>(&mut self, game: &mut Game<'db>, at: usize, rng: &mut StdRng) -> (r:
        Result<(), Fault>)
        requires
            old(self).wf(),
            old(game).wf(),
            at < old(game).hand.cards@.len(),
            old(game).hand.cards@[at as int].data.types.has(Types::Land) ==> old(self).lands_played
                < old(self).land_limit,
        ensures
            match r {
                Ok(_) => hand_card_played(
                    *old(game),
                    *old(self),
                    at as int,
                    *final(game),
                    *final(self),
                ),
                Err(fault) => fails_to_play(
                    *old(self),
                    *old(game),
                    old(game).hand.cards@[at as int],
                    fault,
                ),
            },
            old(self).fault_of_playing(*old(game), old(game).hand.cards@[at as int]) is None
                ==> r is Ok,
            old(self).fault_of_playing(*old(game), old(game).hand.cards@[at as int]) == Some(
                Fault::CannotPay,
            ) ==> r == Err::<(), Fault>(Fault::CannotPay),
    {
        proof {
            lemma_pile_remove(game.hand.cards@, at as int);
            assert(game.hand.cards@[at as int].data.wf());
        }
        let card = game.hand.take_at(at);
        let ghost taken = *game;
        proof {
            assert(data_ok(game.hand.cards@)) by {
                assert forall|k: int| 0 <= k < game.hand.cards@.len() implies (
                #[trigger] game.hand.cards@[k]).data.wf() by {
                    if k < at {
                        assert(old(game).hand.cards@[k].data.wf());
                    } else {
                        assert(old(game).hand.cards@[k + 1].data.wf());
                    }
                }
            }
        }
        match self.play_card(game, card, rng) {
            Ok(_) => {
                proof {
                    assert(played(taken, *game, card));
                    assert(game.all_ids() =~= old(game).all_ids());
                }
                Ok(())
            },
            Err(fault) => Err(fault),
        }
    }

    /// Plays a land from the hand, if one may be played and the hand holds
    /// one: the land that `land_choice` names, or rather the first card of
    /// the hand with its number. The land is played wherever nothing stands
    /// against playing it.
    pub fn try_to_play_land<'db>(&mut self, game: &mut Game<'db>, rng: &mut StdRng) -> (r: Result<
        bool,
        Fault,
    >)
        requires
            old(self).wf(),
            old(game).wf(),
        ensures
            match r {
                Ok(acted) => {
                    &&& tried(*old(game), *old(self), *final(game), *final(self), acted)
                    &&& acted == old(self).has_land_to_play(*old(game))
                    &&& acted ==> land_was_played(
                        *old(game),
                        *old(self),
                        *final(game),
                        *final(self),
                    )
                },
                Err(fault) => old(self).has_land_to_play(*old(game)) && fails_to_play(
                    *old(self),
                    *old(game),
                    old(game).hand.cards@[land_place(old(game).hand.cards@, old(self).mana_pool@)],
                    fault,
                ),
            },
            !old(self).has_land_to_play(*old(game)) ==> r == Ok::<bool, Fault>(false),
            old(self).has_land_to_play(*old(game)) && old(self).fault_of_playing(
                *old(game),
                old(game).hand.cards@[land_place(old(game).hand.cards@, old(self).mana_pool@)],
            ) is None ==> r == Ok::<bool, Fault>(true),
    {
        if self.lands_played >= self.land_limit {
            return Ok(false);
        }
        let land = match self.choose_land(game) {
            Some(land) => land,
            None => {
                return Ok(false);
            },
        };
        let at = game.hand.position(land.id);
        proof {
            lemma_first_index(game.hand.cards@, has_id(land.id));
            let j = choose|j: int| 0 <= j < game.hand.cards@.len() && game.hand.cards@[j] == land;
            assert(has_id(land.id)(game.hand.cards@[j]));
        }
        match self.play_from_hand(game, at, rng) {
            Ok(_) => Ok(true),
            Err(fault) => Err(fault),
        }
    }

    /// Plays the commander from the command zone, if there is one and the
    /// mana at hand pays its cost on top of what is spent: the card goes to
    /// the battlefield as it is, and the turn is noted as the turn of the
    /// commander.
    pub fn try_to_play_commander<'db>(&mut self, game: &mut Game<'db>) -> (r: Result<bool, Fault>)
        requires
            old(self).wf(),
            old(game).wf(),
        ensures
            match r {
                Ok(acted) => {
                    &&& tried(*old(game), *old(self), *final(game), *final(self), acted)
                    &&& acted == old(self).has_commander_to_play(*old(game))
                    &&& acted ==> commander_was_played(
                        *old(game),
                        *old(self),
                        *final(game),
                        *final(self),
                    )
                },
                Err(fault) => old(game).command.cards@.len() > 0
                    && match old(game).command.cards@[0].data.mana_cost {
                    None => fault == Fault::CommanderWithoutCost,
                    Some(cost) => fault == Fault::TooMany && old(self).turn_stats.cards_played
                        == u32::MAX && old(self).mana_pool@.covers(
                        old(self).mana_spent@.merged(cost@),
                    ),
                },
            },
            old(game).command.cards@.len() > 0 && old(game).command.cards@[0].data.mana_cost
                is None ==> r is Err,
            old(self).no_commander(*old(game)) ==> r == Ok::<bool, Fault>(false),
            old(self).turn_stats.cards_played < u32::MAX && (old(game).command.cards@.len() > 0
                ==> old(game).command.cards@[0].data.mana_cost is Some) ==> r is Ok,
    {
        if game.command.cards.len() == 0 {
            return Ok(false);
        }
        let commander = game.command.cards[0];
        assert(commander.data.wf());
        let commander_cost = match &commander.data.mana_cost {
            Some(cost) => cost,
            None => {
                return Err(Fault::CommanderWithoutCost);
            },
        };
        match self.mana_pool.can_also_pay_for(&self.mana_spent, commander_cost) {
            Some(spent) => {
                let cards_played = match raised(self.turn_stats.cards_played, 1) {
                    Ok(count) => count,
                    Err(fault) => {
                        return Err(fault);
                    },
                };
                game.game_stats.turn_commander_played = self.turn_number;
                self.turn_stats.cards_played = cards_played;
                self.mana_spent = spent;
                proof {
                    lemma_pile_remove(game.command.cards@, 0);
                    lemma_pile_push(game.battlefield.cards@, commander);
                }
                let card = game.command.take_at(0);
                game.battlefield.add(card);
                proof {
                    assert(game.all_ids() =~= old(game).all_ids());
                    assert(data_ok(game.command.cards@)) by {
                        assert forall|k: int| 0 <= k < game.command.cards@.len() implies (
                        #[trigger] game.command.cards@[k]).data.wf() by {
                            assert(old(game).command.cards@[k + 1].data.wf());
                        }
                    }
                }
                Ok(true)
            },
            None => Ok(false),
        }
    }
}

impl Turn {
    /// Whether a card of the hand can be played for want of anything better
    /// to do: it is no land, has no abilities, and the mana at hand pays its
    /// cost on top of what is spent.
    pub open spec fn is_spare<'db>(self, card: Card<'db>) -> bool {
        &&& !card.data.types.has(Types::Land)
        &&& card.data.abilities is None
        &&& card.data.mana_cost matches Some(cost) ==> self.mana_pool@.covers(
            self.mana_spent@.merged(cost@),
        )
    }

    /// Whether the hand holds no spare card.
    pub open spec fn no_spare<'db>(self, game: Game<'db>) -> bool {
        forall|j: int|
            0 <= j < game.hand.cards@.len() ==> !self.is_spare(#[trigger] game.hand.cards@[j])
    }

    /// Whether the commander cannot be played: there is none in the command
    /// zone, or the mana at hand does not pay its cost on top of what is
    /// spent.
    pub open spec fn no_commander<'db>(self, game: Game<'db>) -> bool {
        game.command.cards@.len() > 0 ==> match game.command.cards@[0].data.mana_cost {
            Some(cost) => !self.mana_pool@.covers(self.mana_spent@.merged(cost@)),
            None => false,
        }
    }

    /// Whether a land is to be played: one may still be played, and the
    /// hand holds one.
    pub open spec fn has_land_to_play<'db>(self, game: Game<'db>) -> bool {
        self.lands_played < self.land_limit && land_choice(game.hand.cards@, self.mana_pool@)
            is Some
    }

    /// Whether the commander is to be played: there is one in the command
    /// zone, and the mana at hand pays its cost on top of what is spent.
    pub open spec fn has_commander_to_play<'db>(self, game: Game<'db>) -> bool {
        game.command.cards@.len() > 0 && match game.command.cards@[0].data.mana_cost {
            Some(cost) => self.mana_pool@.covers(self.mana_spent@.merged(cost@)),
            None => false,
        }
    }

    /// Whether every spell that the turn can cast for a purpose is played
    /// for sure once it is picked.
    pub open spec fn casts_surely<'db>(self, game: Game<'db>, purpose: Purpose) -> bool {
        forall|found: Found<'db>| #[trigger]
            found.usable(self, game, purpose) ==> self.fault_of_playing(game, found.card) is None
    }

    /// Whether every ability that the turn can use for a purpose is
    /// activated for sure once it is picked.
    pub open spec fn activates_surely<'db>(self, game: Game<'db>, purpose: Purpose) -> bool {
        forall|found: Found<'db>| #[trigger]
            found.usable(self, game, purpose) ==> sure_to_activate(self, game, found)
    }

    /// Whether the action that is tried first is done whatever is rolled: the
    /// land that is to be played is played for sure; or else the commander
    /// has a cost and the cards played have room for it; or else whatever
    /// ability or spell is picked is activated or cast for sure, and the
    /// cards played have room for a spare card.
    pub open spec fn action_is_sure<'db>(self, game: Game<'db>) -> bool {
        if self.has_land_to_play(game) {
            self.fault_of_playing(
                game,
                game.hand.cards@[land_place(game.hand.cards@, self.mana_pool@)],
            ) is None
        } else if game.command.cards@.len() > 0 && game.command.cards@[0].data.mana_cost is None {
            false
        } else if self.has_commander_to_play(game) {
            self.turn_stats.cards_played < u32::MAX
        } else {
            &&& mana_in_order(self, game, Purpose::Ramp)
            &&& self.activates_surely(game, Purpose::Ramp)
            &&& self.casts_surely(game, Purpose::RampSpell)
            &&& mana_in_order(self, game, Purpose::Draw)
            &&& self.activates_surely(game, Purpose::Draw)
            &&& self.casts_surely(game, Purpose::DrawSpell)
            &&& self.no_spare(game) || self.turn_stats.cards_played < u32::MAX
        }
    }

    /// Whether every action is done for sure, whatever was done before it
    /// and whatever is rolled.
    pub open spec fn acts_surely<'db>(self, game: Game<'db>) -> bool {
        forall|count: nat, mid_game: Game<'db>, mid_turn: Turn| #[trigger]
            acted_through(game, self, count, mid_game, mid_turn) ==> mid_turn.action_is_sure(
                mid_game,
            )
    }

    /// Whether no ability is sure to be found for a purpose.
    pub open spec fn nothing_sure<'db>(self, game: Game<'db>, purpose: Purpose) -> bool {
        forall|at: int, ability: int| !#[trigger] sure_to_be_found(self, game, purpose, at, ability)
    }

    /// Whether the turn has come to rest: there is no land to play and no
    /// commander to play, no ability to activate and no spell that draws
    /// cards is sure to be found, and there is no other spell to cast and no
    /// spare card to play.
    pub open spec fn at_rest<'db>(self, game: Game<'db>) -> bool {
        &&& !self.has_land_to_play(game)
        &&& self.no_commander(game)
        &&& self.nothing_sure(game, Purpose::Ramp)
        &&& nothing_usable(self, game, Purpose::RampSpell)
        &&& self.nothing_sure(game, Purpose::Draw)
        &&& self.nothing_sure(game, Purpose::DrawSpell)
        &&& self.no_spare(game)
    }

    /// Whether the turn has nothing to do: no land to play, no commander to
    /// play, no ability to activate, no spell to cast and no spare card to
    /// play.
    pub open spec fn idle<'db>(self, game: Game<'db>) -> bool {
        &&& !(self.lands_played < self.land_limit && land_choice(
            game.hand.cards@,
            self.mana_pool@,
        ) is Some)
        &&& self.no_commander(game)
        &&& mana_in_order(self, game, Purpose::Ramp)
        &&& nothing_usable(self, game, Purpose::Ramp)
        &&& nothing_usable(self, game, Purpose::RampSpell)
        &&& mana_in_order(self, game, Purpose::Draw)
        &&& nothing_usable(self, game, Purpose::Draw)
        &&& nothing_usable(self, game, Purpose::DrawSpell)
        &&& self.no_spare(game)
    }

    /// Whether the spare card that costs most lies at the place `at` of the
    /// hand, the first of them if several cost as much.
    pub open spec fn is_dearest_spare<'db>(self, game: Game<'db>, at: int) -> bool {
        &&& 0 <= at < game.hand.cards@.len()
        &&& self.is_spare(game.hand.cards@[at])
        &&& forall|j: int|
            0 <= j < game.hand.cards@.len() && self.is_spare(#[trigger] game.hand.cards@[j])
                ==> game.hand.cards@[j].data.cmc <= game.hand.cards@[at].data.cmc
        &&& forall|j: int|
            0 <= j < at && self.is_spare(#[trigger] game.hand.cards@[j])
                ==> game.hand.cards@[j].data.cmc < game.hand.cards@[at].data.cmc
    }

    /// Where the spare card lies that costs most, the first of them if
    /// several cost as much; `None` where the hand holds no spare card.
    pub fn choose_spare<'db>(&self, game: &Game<'db>) -> (r: Option<usize>)
        requires
            self.wf(),
            game.wf(),
        ensures
            match r {
                Some(at) => {
                    &&& at < game.hand.cards@.len()
                    &&& self.is_spare(game.hand.cards@[at as int])
                    &&& forall|j: int|
                        0 <= j < game.hand.cards@.len() && self.is_spare(
                            #[trigger] game.hand.cards@[j],
                        ) ==> game.hand.cards@[j].data.cmc <= game.hand.cards@[at as int].data.cmc
                    &&& forall|j: int|
                        0 <= j < at && self.is_spare(#[trigger] game.hand.cards@[j])
                            ==> game.hand.cards@[j].data.cmc < game.hand.cards@[at as int].data.cmc
                },
                None => forall|j: int|
                    0 <= j < game.hand.cards@.len() ==> !self.is_spare(
                        #[trigger] game.hand.cards@[j],
                    ),
            },
    {
        let mut best: Option<usize> = None;
        let mut i: usize = 0;
        while i < game.hand.cards.len()
            invariant
                i <= game.hand.cards@.len(),
                self.wf(),
                game.wf(),
                match best {
                    Some(at) => {
                        &&& at < i
                        &&& self.is_spare(game.hand.cards@[at as int])
                        &&& forall|j: int|
                            0 <= j < i && self.is_spare(#[trigger] game.hand.cards@[j])
                                ==> game.hand.cards@[j].data.cmc
                                <= game.hand.cards@[at as int].data.cmc
                        &&& forall|j: int|
                            0 <= j < at && self.is_spare(#[trigger] game.hand.cards@[j])
                                ==> game.hand.cards@[j].data.cmc
                                < game.hand.cards@[at as int].data.cmc
                    },
                    None => forall|j: int|
                        0 <= j < i ==> !self.is_spare(#[trigger] game.hand.cards@[j]),
                },
            decreases game.hand.cards@.len() - i,
        {
            let card = game.hand.cards[i];
            assert(card.data.wf());
            let mut spare = !card.is_type(Types::Land) && card.data.abilities.is_none();
            if spare {
                spare = match &card.data.mana_cost {
                    Some(cost) => self.mana_pool.can_also_pay_for(&self.mana_spent, cost).is_some(),
                    None => true,
                };
            }
            if spare {
                best = match best {
                    Some(at) => if card.data.cmc > game.hand.cards[at].data.cmc {
                        Some(i)
                    } else {
                        Some(at)
                    },
                    None => Some(i),
                };
            }
            i += 1;
        }
        best
    }

    /// Plays from the hand the spare card that costs most, the first of
    /// them if several cost as much, if the hand holds a spare card. It
    /// fails only where the count of cards played has no room.
    pub fn try_to_empty_hand<'db>(&mut self, game: &mut Game<'db>, rng: &mut StdRng) -> (r: Result<
        bool,
        Fault,
    >)
        requires
            old(self).wf(),
            old(game).wf(),
        ensures
            match r {
                Ok(acted) => {
                    &&& tried(*old(game), *old(self), *final(game), *final(self), acted)
                    &&& acted == !old(self).no_spare(*old(game))
                    &&& acted ==> exists|at: int|
                        old(self).is_dearest_spare(*old(game), at) && #[trigger] hand_card_played(
                            *old(game),
                            *old(self),
                            at,
                            *final(game),
                            *final(self),
                        )
                },
                Err(fault) => fault == Fault::TooMany && old(self).turn_stats.cards_played
                    == u32::MAX && !old(self).no_spare(*old(game)),
            },
            old(self).no_spare(*old(game)) ==> r == Ok::<bool, Fault>(false),
            !old(self).no_spare(*old(game)) && old(self).turn_stats.cards_played < u32::MAX
                ==> r == Ok::<bool, Fault>(true),
    {
        match self.choose_spare(game) {
            Some(at) => {
                proof {
                    let card = game.hand.cards@[at as int];
                    assert(card.data.all_abilities() =~= Seq::<Ability>::empty());
                    assert(self.is_dearest_spare(*game, at as int));
                }
                match self.play_from_hand(game, at, rng) {
                    Ok(_) => Ok(true),
                    Err(fault) => Err(fault),
                }
            },
            None => Ok(false),
        }
    }

    /// Casts from the hand the cheapest of the spells that serve `purpose`,
    /// the first of them if several cost as little, if there is one.
    ///
    /// A spell is cast if one is sure to be found, and only if one can be
    /// cast.
    pub fn try_to_cast<'db>(&mut self, game: &mut Game<'db>, purpose: Purpose,
        rng: &mut StdRng) -> (r:
        Result<bool, Fault>)
        requires
            old(self).wf(),
            old(game).wf(),
            purpose.in_hand(),
        ensures
            match r {
                Ok(acted) => {
                    &&& tried(*old(game), *old(self), *final(game), *final(self), acted)
                    &&& acted ==> exists|found: Found<'db>| #[trigger]
                        found.usable(*old(self), *old(game), purpose)
                    &&& acted ==> exists|found: Seq<Found<'db>>, pick: int| #[trigger]
                        spell_was_cast(
                            *old(game),
                            *old(self),
                            purpose,
                            found,
                            pick,
                            *final(game),
                            *final(self),
                        )
                    &&& !acted ==> forall|at: int, ability: int|
                        !#[trigger] sure_to_be_found(*old(self), *old(game), purpose, at, ability)
                },
                Err(fault) => fault != Fault::CannotPay && exists|
                    found: Seq<Found<'db>>,
                    pick: int,
                | #[trigger] spell_failed(*old(game), *old(self), purpose, found, pick, fault),
            },
            old(self).casts_surely(*old(game), purpose) ==> r is Ok,
            nothing_usable(*old(self), *old(game), purpose) ==> r == Ok::<bool, Fault>(false),
    {
        let candidates = self.find_spells_in_hand(game, purpose, rng);
        if candidates.len() == 0 {
            return Ok(false);
        }
        let place = cheapest_spell(&candidates);
        let pick = candidates[place];
        assert(pick.usable(*self, *game, purpose));
        proof {
            match &pick.card.data.mana_cost {
                Some(cost) => {
                    lemma_entry_keeps_paying(
                        self.mana_pool@,
                        pick.card.data.all_abilities(),
                        pick.card.data.is_permanent(),
                        entered(pick.card).tapped,
                        self.mana_spent@.merged(cost@),
                    );
                },
                None => {},
            }
        }
        match self.play_from_hand(game, pick.at, rng) {
            Ok(_) => {
                proof {
                    assert(spell_was_cast(
                        *old(game),
                        *old(self),
                        purpose,
                        candidates@,
                        place as int,
                        *game,
                        *self,
                    ));
                }
                Ok(true)
            },
            Err(fault) => {
                proof {
                    assert(spell_failed(
                        *old(game),
                        *old(self),
                        purpose,
                        candidates@,
                        place as int,
                        fault,
                    ));
                }
                Err(fault)
            },
        }
    }

    /// Casts the cheapest spell of the hand that adds mana, fetches lands
    /// or, with a land in hand, allows more lands, if there is one.
    pub fn try_to_play_ramp_spell<'db>(&mut self, game: &mut Game<'db>, rng: &mut StdRng) -> (r:
        Result<bool, Fault>)
        requires
            old(self).wf(),
            old(game).wf(),
        ensures
            match r {
                Ok(acted) => {
                    &&& tried(*old(game), *old(self), *final(game), *final(self), acted)
                    &&& acted == exists|found: Found<'db>| #[trigger]
                        found.usable(*old(self), *old(game), Purpose::RampSpell)
                    &&& acted ==> exists|found: Seq<Found<'db>>, pick: int| #[trigger]
                        spell_was_cast(
                            *old(game),
                            *old(self),
                            Purpose::RampSpell,
                            found,
                            pick,
                            *final(game),
                            *final(self),
                        )
                },
                Err(fault) => fault != Fault::CannotPay && exists|
                    found: Seq<Found<'db>>,
                    pick: int,
                | #[trigger]
                    spell_failed(*old(game), *old(self), Purpose::RampSpell, found, pick, fault),
            },
            old(self).casts_surely(*old(game), Purpose::RampSpell) ==> r is Ok,
            nothing_usable(*old(self), *old(game), Purpose::RampSpell) ==> r == Ok::<bool, Fault>(
                false,
            ),
    {
        let acted = self.try_to_cast(game, Purpose::RampSpell, rng);
        proof {
            if acted == Ok::<bool, Fault>(false) {
                assert forall|found: Found<'db>| !#[trigger] found.usable(
                    *old(self),
                    *old(game),
                    Purpose::RampSpell,
                ) by {
                    if found.usable(*old(self), *old(game), Purpose::RampSpell) {
                        assert(sure_to_be_found(
                            *old(self),
                            *old(game),
                            Purpose::RampSpell,
                            found.at as int,
                            found.ability as int,
                        ));
                    }
                }
            }
        }
        acted
    }

    /// Casts the cheapest spell of the hand that draws cards and is there
    /// this time, if there is one.
    pub fn try_to_play_draw_spell<'db>(&mut self, game: &mut Game<'db>, rng: &mut StdRng) -> (r:
        Result<bool, Fault>)
        requires
            old(self).wf(),
            old(game).wf(),
        ensures
            match r {
                Ok(acted) => {
                    &&& tried(*old(game), *old(self), *final(game), *final(self), acted)
                    &&& acted ==> exists|found: Found<'db>| #[trigger]
                        found.usable(*old(self), *old(game), Purpose::DrawSpell)
                    &&& !acted ==> forall|at: int, ability: int|
                        !#[trigger] sure_to_be_found(
                            *old(self),
                            *old(game),
                            Purpose::DrawSpell,
                            at,
                            ability,
                        )
                    &&& acted ==> exists|found: Seq<Found<'db>>, pick: int| #[trigger]
                        spell_was_cast(
                            *old(game),
                            *old(self),
                            Purpose::DrawSpell,
                            found,
                            pick,
                            *final(game),
                            *final(self),
                        )
                },
                Err(fault) => fault != Fault::CannotPay && exists|
                    found: Seq<Found<'db>>,
                    pick: int,
                | #[trigger]
                    spell_failed(*old(game), *old(self), Purpose::DrawSpell, found, pick, fault),
            },
            old(self).casts_surely(*old(game), Purpose::DrawSpell) ==> r is Ok,
            nothing_usable(*old(self), *old(game), Purpose::DrawSpell) ==> r == Ok::<bool, Fault>(
                false,
            ),
    {
        self.try_to_cast(game, Purpose::DrawSpell, rng)
    }

    /// Activates an ability found on the battlefield: the ability takes
    /// effect, fetching lands or drawing cards, and its card leaves its
    /// place to pay the cost: tapped if the cost taps it, it goes back on
    /// top of the battlefield, or to the graveyard if the cost gives it up.
    #[verifier::rlimit(80)]
    pub fn activate<'db>(
        &mut self,
        game: &mut Game<'db>,
        pick: Found<'db>,
        purpose: Purpose,
        rng: &mut StdRng,
    ) -> (r: Result<(), Fault>)
        requires
            old(self).wf(),
            old(game).wf(),
            purpose is Ramp || purpose is Draw,
            pick.usable(*old(self), *old(game), purpose),
        ensures
            match r {
                Ok(_) => {
                    let cost = pick.it().cost;
                    let count = old(game).battlefield.cards@.len() as int;
                    &&& tried(*old(game), *old(self), *final(game), *final(self), true)
                    &&& final(game).command == old(game).command
                    &&& final(game).game_stats == old(game).game_stats
                    &&& final(game).hand.cards@.take(old(game).hand.cards@.len() as int)
                        == old(game).hand.cards@
                    &&& final(game).battlefield.cards@.len() >= count - 1
                    &&& final(game).battlefield.cards@.take(count - 1)
                        == old(game).battlefield.cards@.remove(pick.at as int)
                    &&& if cost.sacrifices() {
                        final(game).graveyard.cards@ == old(game).graveyard.cards@.push(
                            used(pick.card, cost),
                        )
                    } else {
                        final(game).battlefield.cards@.last() == used(pick.card, cost)
                            && final(game).graveyard == old(game).graveyard
                    }
                    &&& match cost.mana() {
                        Some(asked) => final(self).mana_spent@ == old(self).mana_spent@.merged(
                            asked@,
                        ) && final(self).mana_pool@.covers(final(self).mana_spent@),
                        None => final(self).mana_spent == old(self).mana_spent,
                    }
                    &&& final(self).lands_played == old(self).lands_played
                    &&& final(self).land_limit == old(self).land_limit
                    &&& exists|mid_game: Game<'db>, mid_turn: Turn| #[trigger]
                        activated(
                            *old(game),
                            *old(self),
                            pick,
                            mid_game,
                            mid_turn,
                            *final(game),
                            *final(self),
                        )
                },
                Err(fault) => fails_to_activate(*old(self), *old(game), pick, fault),
            },
            sure_to_activate(*old(self), *old(game), pick) ==> r is Ok,
    {
        assert(pick.card.data.wf());
        let ability = pick.card.data.ability(pick.ability);
        assert(ability.wf());
        assert(ability.effect is FetchLand || ability.effect is Draw);
        match self.take_effect(game, &pick.card, &ability.effect, rng) {
            Ok(_) => {},
            Err(fault) => {
                return Err(fault);
            },
        }
        let ghost fetched = *game;
        let ghost mid = *self;
        let ghost count = old(game).battlefield.cards@.len() as int;
        proof {
            assert(replenished(*old(game), fetched));
            assert(fetched.battlefield.cards@[pick.at as int] == fetched.battlefield.cards@.take(
                count,
            )[pick.at as int]);
            lemma_pile_remove(fetched.battlefield.cards@, pick.at as int);
        }
        let card = game.battlefield.take_at(pick.at);
        proof {
            assert(card == pick.card);
            assert(data_ok(game.battlefield.cards@)) by {
                assert forall|j: int| 0 <= j < game.battlefield.cards@.len() implies (
                #[trigger] game.battlefield.cards@[j]).data.wf() by {
                    if j < pick.at {
                        assert(fetched.battlefield.cards@[j].data.wf());
                    } else {
                        assert(fetched.battlefield.cards@[j + 1].data.wf());
                    }
                }
            }
            let taken_out = old(game).battlefield.cards@.remove(pick.at as int);
            assert(game.battlefield.cards@.take(count - 1) =~= taken_out);
        }
        let ghost taken = game.battlefield.cards@;
        match self.pay_activation_cost(game, card, &ability.cost) {
            Ok(_) => {},
            Err(fault) => {
                return Err(fault);
            },
        }
        proof {
            assert(game.all_ids() =~= old(game).all_ids());
            assert(game.battlefield.cards@.take(count - 1) =~= taken.take(count - 1));
            let cost = ability.cost;
            if game.unsettled() == old(game).unsettled() {
                assert(fetched.battlefield.cards@ =~= old(game).battlefield.cards@);
                let before = old(game).battlefield.cards@;
                if cost.sacrifices() {
                    assert(game.standing() < old(game).standing());
                } else {
                    lemma_pile_push(before.remove(pick.at as int), used(card, cost));
                    if cost.taps() {
                        assert(game.standing() < old(game).standing());
                    } else {
                        assert(used(card, cost) == card);
                        assert(game.standing() == old(game).standing());
                        assert(cost.value() > 0);
                        assert(self.mana_left() < old(self).mana_left());
                    }
                }
            }
            assert(activated(*old(game), *old(self), pick, fetched, mid, *game, *self));
        }
        Ok(())
    }

    /// Activates the cheapest of the abilities on the battlefield that
    /// serve `purpose`, the first of them if several cost as little, if
    /// there is one.
    ///
    /// An ability is activated if one is sure to be found, and only if one
    /// can be used.
    pub fn try_to_activate<'db>(&mut self, game: &mut Game<'db>, purpose: Purpose,
        rng: &mut StdRng) -> (r:
        Result<bool, Fault>)
        requires
            old(self).wf(),
            old(game).wf(),
            purpose is Ramp || purpose is Draw,
        ensures
            match r {
                Ok(acted) => {
                    &&& tried(*old(game), *old(self), *final(game), *final(self), acted)
                    &&& acted ==> exists|found: Found<'db>| #[trigger]
                        found.usable(*old(self), *old(game), purpose)
                    &&& acted ==> exists|
                        found: Seq<Found<'db>>,
                        pick: int,
                        mid_game: Game<'db>,
                        mid_turn: Turn,
                    | #[trigger]
                        ability_was_activated(
                            *old(game),
                            *old(self),
                            purpose,
                            found,
                            pick,
                            mid_game,
                            mid_turn,
                            *final(game),
                            *final(self),
                        )
                    &&& !acted ==> forall|at: int, ability: int|
                        !#[trigger] sure_to_be_found(*old(self), *old(game), purpose, at, ability)
                },
                Err(fault) => (fault == Fault::ManaMissing && !mana_in_order(
                    *old(self),
                    *old(game),
                    purpose,
                )) || exists|found: Seq<Found<'db>>, pick: int| #[trigger]
                    activation_failed(*old(game), *old(self), purpose, found, pick, fault),
            },
            mana_in_order(*old(self), *old(game), purpose) && old(self).activates_surely(
                *old(game),
                purpose,
            ) ==> r is Ok,
            mana_in_order(*old(self), *old(game), purpose) && nothing_usable(
                *old(self),
                *old(game),
                purpose,
            ) ==> r == Ok::<bool, Fault>(false),
    {
        let abilities = match self.find_abilities_on_battlefield(game, purpose, rng) {
            Ok(abilities) => abilities,
            Err(fault) => {
                return Err(fault);
            },
        };
        if abilities.len() == 0 {
            return Ok(false);
        }
        let place = cheapest_ability(&abilities);
        let pick = abilities[place];
        assert(pick.usable(*self, *game, purpose));
        match self.activate(game, pick, purpose, rng) {
            Ok(_) => {
                proof {
                    let (mid_game, mid_turn) = choose|mid_game: Game<'db>, mid_turn: Turn|
                        #[trigger] activated(
                            *old(game),
                            *old(self),
                            pick,
                            mid_game,
                            mid_turn,
                            *game,
                            *self,
                        );
                    assert(ability_was_activated(
                        *old(game),
                        *old(self),
                        purpose,
                        abilities@,
                        place as int,
                        mid_game,
                        mid_turn,
                        *game,
                        *self,
                    ));
                }
                Ok(true)
            },
            Err(fault) => {
                proof {
                    assert(activation_failed(
                        *old(game),
                        *old(self),
                        purpose,
                        abilities@,
                        place as int,
                        fault,
                    ));
                }
                Err(fault)
            },
        }
    }

    /// Activates the cheapest ability on the battlefield that fetches
    /// lands, can be paid for and is there this time, if there is one.
    pub fn try_to_activate_ramp_ability<'db>(&mut self, game: &mut Game<'db>,
        rng: &mut StdRng) -> (r:
        Result<bool, Fault>)
        requires
            old(self).wf(),
            old(game).wf(),
        ensures
            match r {
                Ok(acted) => {
                    &&& tried(*old(game), *old(self), *final(game), *final(self), acted)
                    &&& acted ==> exists|found: Found<'db>| #[trigger]
                        found.usable(*old(self), *old(game), Purpose::Ramp)
                    &&& !acted ==> forall|at: int, ability: int|
                        !#[trigger] sure_to_be_found(
                            *old(self),
                            *old(game),
                            Purpose::Ramp,
                            at,
                            ability,
                        )
                    &&& acted ==> exists|
                        found: Seq<Found<'db>>,
                        pick: int,
                        mid_game: Game<'db>,
                        mid_turn: Turn,
                    | #[trigger]
                        ability_was_activated(
                            *old(game),
                            *old(self),
                            Purpose::Ramp,
                            found,
                            pick,
                            mid_game,
                            mid_turn,
                            *final(game),
                            *final(self),
                        )
                },
                Err(fault) => (fault == Fault::ManaMissing && !mana_in_order(
                    *old(self),
                    *old(game),
                    Purpose::Ramp,
                )) || exists|found: Seq<Found<'db>>, pick: int| #[trigger]
                    activation_failed(*old(game), *old(self), Purpose::Ramp, found, pick, fault),
            },
            mana_in_order(*old(self), *old(game), Purpose::Ramp) && old(self).activates_surely(
                *old(game),
                Purpose::Ramp,
            ) ==> r is Ok,
            mana_in_order(*old(self), *old(game), Purpose::Ramp) && nothing_usable(
                *old(self),
                *old(game),
                Purpose::Ramp,
            ) ==> r == Ok::<bool, Fault>(false),
    {
        self.try_to_activate(game, Purpose::Ramp, rng)
    }

    /// Activates the cheapest ability on the battlefield that draws cards,
    /// can be paid for and is there this time, if there is one. An ability
    /// that gives its card up is passed over once a land was played this
    /// turn.
    pub fn try_to_activate_draw_spell<'db>(&mut self, game: &mut Game<'db>, rng: &mut StdRng) -> (r:
        Result<bool, Fault>)
        requires
            old(self).wf(),
            old(game).wf(),
        ensures
            match r {
                Ok(acted) => {
                    &&& tried(*old(game), *old(self), *final(game), *final(self), acted)
                    &&& acted ==> exists|found: Found<'db>| #[trigger]
                        found.usable(*old(self), *old(game), Purpose::Draw)
                    &&& !acted ==> forall|at: int, ability: int|
                        !#[trigger] sure_to_be_found(
                            *old(self),
                            *old(game),
                            Purpose::Draw,
                            at,
                            ability,
                        )
                    &&& acted ==> exists|
                        found: Seq<Found<'db>>,
                        pick: int,
                        mid_game: Game<'db>,
                        mid_turn: Turn,
                    | #[trigger]
                        ability_was_activated(
                            *old(game),
                            *old(self),
                            Purpose::Draw,
                            found,
                            pick,
                            mid_game,
                            mid_turn,
                            *final(game),
                            *final(self),
                        )
                },
                Err(fault) => (fault == Fault::ManaMissing && !mana_in_order(
                    *old(self),
                    *old(game),
                    Purpose::Draw,
                )) || exists|found: Seq<Found<'db>>, pick: int| #[trigger]
                    activation_failed(*old(game), *old(self), Purpose::Draw, found, pick, fault),
            },
            mana_in_order(*old(self), *old(game), Purpose::Draw) && old(self).activates_surely(
                *old(game),
                Purpose::Draw,
            ) ==> r is Ok,
            mana_in_order(*old(self), *old(game), Purpose::Draw) && nothing_usable(
                *old(self),
                *old(game),
                Purpose::Draw,
            ) ==> r == Ok::<bool, Fault>(false),
    {
        self.try_to_activate(game, Purpose::Draw, rng)
    }

    /// Tries the actions of a turn in their fixed order and does the first
    /// that can be done: play a land; play the commander; activate an
    /// ability that fetches lands; cast a spell that adds mana or lands;
    /// activate an ability that draws cards; cast a spell that draws cards;
    /// play a spare card.
    ///
    /// A land that is to be played is played before anything else, and the
    /// commander before anything but a land. Nothing is done only where the
    /// turn has come to rest. An action that is sure to be done is done.
    pub fn try_action<'db>(&mut self, game: &mut Game<'db>, rng: &mut StdRng) -> (r: Result<
        bool,
        Fault,
    >)
        requires
            old(self).wf(),
            old(game).wf(),
        ensures
            r matches Ok(acted) ==> tried(*old(game), *old(self), *final(game), *final(self),
                acted),
            old(self).idle(*old(game)) ==> r == Ok::<bool, Fault>(false),
            r == Ok::<bool, Fault>(false) ==> old(self).at_rest(*old(game)),
            old(self).has_land_to_play(*old(game)) ==> (r is Ok ==> land_was_played(
                *old(game),
                *old(self),
                *final(game),
                *final(self),
            )) && (r matches Err(fault) ==> fault != Fault::CommanderWithoutCost && fault
                != Fault::ManaMissing),
            !old(self).has_land_to_play(*old(game)) && old(self).has_commander_to_play(
                *old(game),
            ) ==> (r is Ok ==> commander_was_played(
                *old(game),
                *old(self),
                *final(game),
                *final(self),
            )) && (r matches Err(fault) ==> fault == Fault::TooMany
                && old(self).turn_stats.cards_played == u32::MAX),
            r == Ok::<bool, Fault>(true) ==> action_done(
                *old(game),
                *old(self),
                *final(game),
                *final(self),
            ),
            r matches Err(fault) ==> action_failed(*old(game), *old(self), fault),
            old(self).action_is_sure(*old(game)) ==> r is Ok,
    {
        match self.try_to_play_land(game, rng) {
            Ok(false) => {},
            other => {
                return other;
            },
        }
        match self.try_to_play_commander(game) {
            Ok(false) => {},
            other => {
                return other;
            },
        }
        match self.try_to_activate_ramp_ability(game, rng) {
            Ok(false) => {},
            other => {
                return other;
            },
        }
        match self.try_to_play_ramp_spell(game, rng) {
            Ok(false) => {},
            other => {
                return other;
            },
        }
        match self.try_to_activate_draw_spell(game, rng) {
            Ok(false) => {},
            other => {
                return other;
            },
        }
        match self.try_to_play_draw_spell(game, rng) {
            Ok(false) => {},
            other => {
                return other;
            },
        }
        self.try_to_empty_hand(game, rng)
    }

    /// Does one action after the other until none can be done, and says how
    /// many were done, the largest number standing for itself and for any
    /// above it: the turn has then come to rest. A fault is the fault of the
    /// first action that fails.
    ///
    /// This comes to an end because each action uses something up: a card
    /// of the library, the hand or the command zone; or else a card, or an
    /// untapped card, of the battlefield; or else unspent mana.
    pub fn take_actions<'db>(&mut self, game: &mut Game<'db>, rng: &mut StdRng) -> (r: Result<
        u32,
        Fault,
    >)
        requires
            old(self).wf(),
            old(game).wf(),
        ensures
            r matches Ok(actions) ==> {
                &&& final(self).wf()
                &&& final(game).wf()
                &&& final(game).all_ids() == old(game).all_ids()
                &&& final(game).card_count() == old(game).card_count()
                &&& final(self).turn_number == old(self).turn_number
                &&& final(self).turn_stats.turn_number == old(self).turn_stats.turn_number
                &&& final(game).game_stats.turns_stats == old(game).game_stats.turns_stats
                &&& final(game).game_stats.mulligan_count == old(game).game_stats.mulligan_count
                &&& old(self).lands_played <= old(self).land_limit ==> final(self).lands_played
                    <= final(self).land_limit
                &&& actions == 0 ==> *final(game) == *old(game) && *final(self) == *old(self)
                &&& final(self).at_rest(*final(game))
                &&& actions > 0 ==> advanced(*old(game), *old(self), *final(game), *final(self))
                &&& exists|count: nat|
                    (actions == count || (actions == u32::MAX && count > u32::MAX))
                        && #[trigger] acted_through(
                        *old(game),
                        *old(self),
                        count,
                        *final(game),
                        *final(self),
                    )
            },
            r matches Err(fault) ==> exists|count: nat, mid_game: Game<'db>, mid_turn: Turn|
                #[trigger] acted_through(*old(game), *old(self), count, mid_game, mid_turn)
                    && action_failed(mid_game, mid_turn, fault),
            old(self).idle(*old(game)) ==> r == Ok::<u32, Fault>(0),
            !old(self).at_rest(*old(game)) ==> r != Ok::<u32, Fault>(0),
            old(self).acts_surely(*old(game)) ==> r is Ok,
    {
        let mut actions: u32 = 0;
        let ghost mut count: nat = 0;
        loop
            invariant
                actions == count || (actions == u32::MAX && count > u32::MAX),
                acted_through(*old(game), *old(self), count, *game, *self),
                self.wf(),
                game.wf(),
                game.all_ids() == old(game).all_ids(),
                game.card_count() == old(game).card_count(),
                self.turn_number == old(self).turn_number,
                self.turn_stats.turn_number == old(self).turn_stats.turn_number,
                game.game_stats.turns_stats == old(game).game_stats.turns_stats,
                game.game_stats.mulligan_count == old(game).game_stats.mulligan_count,
                old(self).lands_played <= old(self).land_limit ==> self.lands_played
                    <= self.land_limit,
                actions == 0 ==> *game == *old(game) && *self == *old(self),
                old(self).idle(*old(game)) ==> actions == 0,
                actions > 0 ==> advanced(*old(game), *old(self), *game, *self),
            decreases game.unsettled(), game.standing(), self.mana_left(),
        {
            let ghost before_game = *game;
            let ghost before_turn = *self;
            let acted = match self.try_action(game, rng) {
                Ok(acted) => acted,
                Err(fault) => {
                    return Err(fault);
                },
            };
            if !acted {
                return Ok(actions);
            }
            if actions < u32::MAX {
                actions += 1;
            }
            proof {
                assert(acted_through(*old(game), *old(self), count, before_game, before_turn));
                assert(action_done(before_game, before_turn, *game, *self));
                count = count + 1;
            }
        }
    }
}

/// What the abilities found cost to activate, one number for each.
pub open spec fn activation_costs<'db>(found: Seq<Found<'db>>) -> Seq<u32> {
    Seq::new(found.len(), |k: int| found[k].it().cost.value() as u32)
}

/// What the cards of the abilities found cost, one number for each.
pub open spec fn card_costs<'db>(found: Seq<Found<'db>>) -> Seq<u32> {
    Seq::new(found.len(), |k: int| found[k].card.data.cmc)
}

/// Where the ability stands, among those found, that costs least mana to
/// activate; the first of them if several cost as little.
pub fn cheapest_ability<'db>(found: &Vec<Found<'db>>) -> (r: usize)
    requires
        found@.len() > 0,
        forall|k: int|
            0 <= k < found@.len() ==> (#[trigger] found@[k]).ability
                < found@[k].card.data.all_abilities().len() && found@[k].card.data.wf(),
    ensures
        is_first_least(activation_costs(found@), r as int),
{
    let mut costs: Vec<u32> = Vec::new();
    let mut k: usize = 0;
    while k < found.len()
        invariant
            k <= found@.len(),
            costs@ == activation_costs(found@).take(k as int),
            forall|j: int|
                0 <= j < found@.len() ==> (#[trigger] found@[j]).ability
                    < found@[j].card.data.all_abilities().len() && found@[j].card.data.wf(),
        decreases found@.len() - k,
    {
        let candidate = found[k];
        assert(candidate.card.data.wf());
        let ability = candidate.card.data.ability(candidate.ability);
        assert(ability.wf());
        costs.push(ability.cost.mana_value());
        proof {
            assert(costs@ =~= activation_costs(found@).take(k + 1));
        }
        k += 1;
    }
    proof {
        assert(activation_costs(found@).take(k as int) == activation_costs(found@));
    }
    first_least(&costs)
}

/// Where the spell stands, among those found, whose card costs least; the
/// first of them if several cost as little.
pub fn cheapest_spell<'db>(found: &Vec<Found<'db>>) -> (r: usize)
    requires
        found@.len() > 0,
    ensures
        is_first_least(card_costs(found@), r as int),
{
    let mut costs: Vec<u32> = Vec::new();
    let mut k: usize = 0;
    while k < found.len()
        invariant
            k <= found@.len(),
            costs@ == card_costs(found@).take(k as int),
        decreases found@.len() - k,
    {
        costs.push(found[k].card.data.cmc);
        proof {
            assert(costs@ =~= card_costs(found@).take(k + 1));
        }
        k += 1;
    }
    proof {
        assert(card_costs(found@).take(k as int) == card_costs(found@));
    }
    first_least(&costs)
}

impl PipCounts {
    /// Whether any color was counted.
    pub fn has_any(&self) -> (r: bool)
        requires
            self.wf(),
        ensures
            r == (self.sum() > 0),
    {
        self.count(Color::Black) > 0 || self.count(Color::Blue) > 0 || self.count(Color::Green) > 0
            || self.count(Color::Red) > 0 || self.count(Color::White) > 0
    }
}

} // verus!
