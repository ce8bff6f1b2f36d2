//! Looking for what can be done: the abilities on the battlefield and the
//! spells in the hand that a turn can use.

use vstd::prelude::*;
use rand::rngs::StdRng;
use crate::card::{first_produced, Ability, Card, Cost, Effect, Types, ALWAYS};
use crate::chance::happens;
use crate::game::{Fault, Game};
use crate::pool::{ManaPool, PoolView};
use crate::seqs::first_index;
use crate::turn::{lemma_first_produced_wf, Turn};
use crate::zone::{data_ok, of_type, Zone};

verus! {

/// What is looked for.
#[derive(Debug, Clone, Copy, PartialEq, Eq, Structural)]
pub enum Purpose {
    /// On the battlefield: abilities that add mana when they are activated
    /// by tapping the card, or at no cost on an untapped card.
    Mana,
    /// On the battlefield: abilities that take effect each turn at no cost.
    Upkeep,
    /// On the battlefield: abilities to activate that fetch lands. An
    /// ability whose cost uses nothing up (no tap, no mana, no sacrifice) is
    /// passed over: it could be activated without end.
    Ramp,
    /// On the battlefield: abilities to activate that draw cards. An ability
    /// whose cost uses nothing up is passed over here too.
    Draw,
    /// In the hand: spells that add mana, fetch lands or, with a land in
    /// hand, allow more lands.
    RampSpell,
    /// In the hand: spells that draw cards.
    DrawSpell,
}

/// An ability that was found: the place of its card in its pile, the card,
/// and the place of the ability among the abilities of the card.
#[derive(Debug, Clone, Copy)]
pub struct Found<'db> {
    pub at: usize,
    pub card: Card<'db>,
    pub ability: usize,
}

impl Purpose {
    /// Whether the hand is searched, not the battlefield.
    pub open spec fn in_hand(self) -> bool {
        self is RampSpell || self is DrawSpell
    }

    /// Whether what is found is there only as often as its availability
    /// says.
    pub open spec fn by_chance(self) -> bool {
        !(self is RampSpell)
    }

    /// Whether the hand is searched, not the battlefield.
    pub fn searches_hand(&self) -> (r: bool)
        ensures
            r == self.in_hand(),
    {
        match self {
            Purpose::RampSpell => true,
            Purpose::DrawSpell => true,
            _ => false,
        }
    }
}

/// Whether one ability stands before another: on an earlier card, or earlier
/// on the same card.
pub open spec fn stands_before(at: int, ability: int, other_at: int, other_ability: int) -> bool {
    at < other_at || (at == other_at && ability < other_ability)
}

/// Whether an ability of the cost needs its card untapped: one that taps
/// it, and, where mana is gathered, one that asks for nothing.
pub open spec fn wants_untapped(purpose: Purpose, cost: Cost) -> bool {
    cost.taps() || (purpose is Mana && cost is Free)
}

/// Whether an ability of the cost needs its card untapped.
pub fn needs_untapped(purpose: Purpose, cost: &Cost) -> (r: bool)
    ensures
        r == wants_untapped(purpose, *cost),
{
    cost.is_tap() || (match purpose {
        Purpose::Mana => true,
        _ => false,
    } && cost.is_none())
}

/// Whether paying the cost uses something up: it taps the card, gives it up,
/// or asks for mana.
pub open spec fn uses_up(cost: Cost) -> bool {
    cost.taps() || cost.sacrifices() || cost.value() > 0
}

/// Whether the hand of a game holds a land.
pub open spec fn land_in_hand<'db>(game: Game<'db>) -> bool {
    first_index(game.hand.cards@, of_type(Types::Land)) < game.hand.cards@.len()
}

/// The pile that is searched for a purpose.
pub open spec fn searched_pile<'db>(game: Game<'db>, purpose: Purpose) -> Seq<Card<'db>> {
    if purpose.in_hand() {
        game.hand.cards@
    } else {
        game.battlefield.cards@
    }
}

impl<'db> Found<'db> {
    /// The ability that was found.
    pub open spec fn it(self) -> Ability {
        self.card.data.all_abilities()[self.ability as int]
    }

    /// Whether this is an ability of a card of the pile searched for
    /// `purpose` that the turn can use for it.
    pub open spec fn usable(self, turn: Turn, game: Game<'db>, purpose: Purpose) -> bool {
        &&& self.at < searched_pile(game, purpose).len()
        &&& self.card == searched_pile(game, purpose)[self.at as int]
        &&& self.ability < self.card.data.all_abilities().len()
        &&& turn.can_use(purpose, self.card, self.it(), land_in_hand(game))
    }
}

/// Whether the ability at the given place of the card at the given place can
/// be used and is there whenever it is looked for.
pub open spec fn sure_to_be_found<'db>(
    turn: Turn,
    game: Game<'db>,
    purpose: Purpose,
    at: int,
    ability: int,
) -> bool {
    let pile = searched_pile(game, purpose);
    &&& 0 <= at < pile.len()
    &&& 0 <= ability < pile[at].data.all_abilities().len()
    &&& turn.can_use(purpose, pile[at], pile[at].data.all_abilities()[ability], land_in_hand(game))
    &&& pile[at].data.all_abilities()[ability].availability >= ALWAYS || !purpose.by_chance()
}

/// Whether no ability on the battlefield that is looked at for a purpose
/// misses mana that should be in the pool.
pub open spec fn mana_in_order<'db>(turn: Turn, game: Game<'db>, purpose: Purpose) -> bool {
    forall|at: int, ability: int|
        0 <= at < game.battlefield.cards@.len() && 0 <= ability
            < game.battlefield.cards@[at].data.all_abilities().len() ==> !turn.misses_mana(
            purpose,
            game.battlefield.cards@[at],
            #[trigger] game.battlefield.cards@[at].data.all_abilities()[ability],
            land_in_hand(game),
        )
}

/// Whether the turn can use no ability for a purpose.
pub open spec fn nothing_usable<'db>(turn: Turn, game: Game<'db>, purpose: Purpose) -> bool {
    forall|found: Found<'db>| !#[trigger] found.usable(turn, game, purpose)
}

/// What holds of the abilities found for a purpose: each can be used and is
/// not one that is never there; they stand in the order of the pile; and
/// every ability that is sure to be found is among them.
pub open spec fn searched<'db>(
    turn: Turn,
    game: Game<'db>,
    purpose: Purpose,
    found: Seq<Found<'db>>,
) -> bool {
    &&& forall|k: int|
        0 <= k < found.len() ==> (#[trigger] found[k]).usable(turn, game, purpose) && (
        purpose.by_chance() ==> found[k].it().availability > 0)
    &&& forall|k: int, l: int|
        0 <= k < l < found.len() ==> stands_before(
            (#[trigger] found[k]).at as int,
            found[k].ability as int,
            (#[trigger] found[l]).at as int,
            found[l].ability as int,
        )
    &&& forall|at: int, ability: int| #[trigger]
        sure_to_be_found(turn, game, purpose, at, ability) ==> exists|k: int|
            0 <= k < found.len() && (#[trigger] found[k]).at == at && found[k].ability == ability
}

impl Turn {
    /// Whether the ability is of the kind looked for.
    pub open spec fn looks_for(self, purpose: Purpose, ability: Ability,
        land_in_hand: bool) -> bool {
        match purpose {
            Purpose::Mana => ability.trigger is Activated && (ability.cost.taps()
                || ability.cost is Free) && ability.effect is ProduceMana,
            Purpose::Upkeep => ability.trigger is Upkeep && ability.cost is Free,
            Purpose::Ramp => ability.trigger is Activated && ability.effect is FetchLand && uses_up(
                ability.cost,
            ),
            Purpose::Draw => ability.trigger is Activated && ability.effect is Draw && (
            !ability.cost.sacrifices() || self.lands_played == 0) && uses_up(ability.cost),
            Purpose::RampSpell => ability.effect is FetchLand || ability.effect is ProduceMana || (
            ability.effect is LandLimit && land_in_hand),
            Purpose::DrawSpell => ability.effect is Draw,
        }
    }

    /// The mana at hand without the mana that `card` made, if that is
    /// counted in it; `None` where mana that should be there is not.
    pub open spec fn mana_without<'db>(self, card: Card<'db>) -> Option<PoolView> {
        if self.cards_in_mana_pool@.contains(card.id) {
            match first_produced(card.data.all_abilities()) {
                Some(made) => if self.mana_pool@.holds(made@) {
                    Some(self.mana_pool@.without(made@))
                } else {
                    None
                },
                None => Some(self.mana_pool@),
            }
        } else {
            Some(self.mana_pool@)
        }
    }

    /// Whether mana that should be in the pool is missing when the cost of
    /// the ability is looked at.
    pub open spec fn misses_mana<'db>(
        self,
        purpose: Purpose,
        card: Card<'db>,
        ability: Ability,
        land_in_hand: bool,
    ) -> bool {
        &&& !purpose.in_hand()
        &&& self.looks_for(purpose, ability, land_in_hand)
        &&& !(wants_untapped(purpose, ability.cost) && card.tapped)
        &&& ability.cost.mana() is Some
        &&& self.mana_without(card) is None
    }

    /// Whether the turn can use the ability of the card: it is of the kind
    /// looked for and can be paid for. On the battlefield, an ability that
    /// taps needs its card untapped, and its mana is paid on top of what is
    /// spent from the mana at hand without that of the card itself. In the
    /// hand, the card is no land, and its cost is paid on top of what is
    /// spent.
    pub open spec fn can_use<'db>(
        self,
        purpose: Purpose,
        card: Card<'db>,
        ability: Ability,
        land_in_hand: bool,
    ) -> bool {
        &&& self.looks_for(purpose, ability, land_in_hand)
        &&& if purpose.in_hand() {
            &&& !card.data.types.has(Types::Land)
            &&& card.data.mana_cost matches Some(cost) ==> self.mana_pool@.covers(
                self.mana_spent@.merged(cost@),
            )
        } else {
            &&& !(wants_untapped(purpose, ability.cost) && card.tapped)
            &&& ability.cost.mana() matches Some(asked) ==> (self.mana_without(card) matches Some(
                pool,
            ) && pool.covers(self.mana_spent@.merged(asked@)))
        }
    }

    /// Whether the ability is of the kind looked for.
    pub fn wants(&self, purpose: Purpose, ability: &Ability, land_in_hand: bool) -> (r: bool)
        requires
            ability.wf(),
        ensures
            r == self.looks_for(purpose, *ability, land_in_hand),
    {
        match purpose {
            Purpose::Mana => ability.trigger.is_activated() && (ability.cost.is_tap()
                || ability.cost.is_none()) && ability.effect.is_produce_mana(),
            Purpose::Upkeep => ability.trigger.is_upkeep() && ability.cost.is_none(),
            Purpose::Ramp => ability.trigger.is_activated() && ability.effect.is_fetch_land() && (
            ability.cost.is_tap() || ability.cost.is_sacrifice() || ability.cost.mana_value() > 0),
            Purpose::Draw => ability.trigger.is_activated() && ability.effect.is_draw() && (
            !ability.cost.is_sacrifice() || self.lands_played == 0) && (ability.cost.is_tap()
                || ability.cost.is_sacrifice() || ability.cost.mana_value() > 0),
            Purpose::RampSpell => match &ability.effect {
                Effect::FetchLand { to_hand: _, to_battlefield: _ } => true,
                Effect::ProduceMana(_) => true,
                Effect::LandLimit(_) => land_in_hand,
                _ => false,
            },
            Purpose::DrawSpell => ability.effect.is_draw(),
        }
    }

    /// Whether the mana at hand, without the mana that `card` made if that
    /// is counted in it, pays `asked` on top of what is spent.
    pub fn affords_activation<'db>(&self, card: &Card<'db>, asked: &ManaPool) -> (r: Result<
        bool,
        Fault,
    >)
        requires
            self.wf(),
            card.data.wf(),
            asked.wf(),
        ensures
            match self.mana_without(*card) {
                Some(pool) => r == Ok::<bool, Fault>(pool.covers(self.mana_spent@.merged(asked@))),
                None => r == Err::<bool, Fault>(Fault::ManaMissing),
            },
    {
        broadcast use vstd::std_specs::hash::group_hash_axioms;

        if self.cards_in_mana_pool.contains(&card.id) {
            match card.produced_mana() {
                Some(made) => {
                    assert(made.wf()) by {
                        lemma_first_produced_wf(card.data.all_abilities());
                    }
                    let mut pool = self.mana_pool.duplicate();
                    if !pool.contains_pool(&made) {
                        return Err(Fault::ManaMissing);
                    }
                    pool.remove_exact_pool(&made);
                    return Ok(pool.can_also_pay_for(&self.mana_spent, asked).is_some());
                },
                None => {},
            }
        }
        Ok(self.mana_pool.can_also_pay_for(&self.mana_spent, asked).is_some())
    }

    /// Looks through a pile, card by card and ability by ability, for the
    /// abilities that the turn can use for `purpose`.
    ///
    /// What comes back is in the order of the pile. Each ability found can
    /// be used; one that can be used and is always available is found; one
    /// that is never available is not; any other is found or not, as chance
    /// has it.
    pub fn find<'db>(&self, game: &Game<'db>, purpose: Purpose, rng: &mut StdRng) -> (r: Result<
        Vec<Found<'db>>,
        Fault,
    >)
        requires
            self.wf(),
            game.wf(),
        ensures
            match r {
                Ok(found) => searched(*self, *game, purpose, found@),
                Err(fault) => fault == Fault::ManaMissing && exists|at: int, ability: int|
                    0 <= at < game.battlefield.cards@.len() && 0 <= ability
                        < game.battlefield.cards@[at].data.all_abilities().len()
                        && self.misses_mana(
                        purpose,
                        game.battlefield.cards@[at],
                        #[trigger] game.battlefield.cards@[at].data.all_abilities()[ability],
                        first_index(game.hand.cards@, of_type(Types::Land))
                            < game.hand.cards@.len(),
                    ),
            },
            mana_in_order(*self, *game, purpose) ==> r is Ok,
    {
        let in_hand = purpose.searches_hand();
        let zone: &Zone<'db> = if in_hand {
            &game.hand
        } else {
            &game.battlefield
        };
        let land_in_hand = game.hand.position_of_type(Types::Land) < game.hand.cards.len();
        let mut found: Vec<Found<'db>> = Vec::new();
        let mut at: usize = 0;
        let ghost pile = zone.cards@;
        while at < zone.cards.len()
            invariant
                at <= pile.len(),
                pile == zone.cards@,
                pile == if purpose.in_hand() {
                    game.hand.cards@
                } else {
                    game.battlefield.cards@
                },
                in_hand == purpose.in_hand(),
                data_ok(pile),
                self.wf(),
                land_in_hand == (first_index(game.hand.cards@, of_type(Types::Land))
                    < game.hand.cards@.len()),
                forall|k: int|
                    0 <= k < found@.len() ==> {
                        &&& (#[trigger] found@[k]).at < at
                        &&& found@[k].card == pile[found@[k].at as int]
                        &&& found@[k].ability < found@[k].card.data.all_abilities().len()
                        &&& self.can_use(
                            purpose,
                            found@[k].card,
                            found@[k].card.data.all_abilities()[found@[k].ability as int],
                            land_in_hand,
                        )
                        &&& purpose.by_chance()
                            ==> found@[k].it().availability > 0
                    },
                forall|k: int, l: int|
                    0 <= k < l < found@.len() ==> stands_before(
                        (#[trigger] found@[k]).at as int,
                        found@[k].ability as int,
                        (#[trigger] found@[l]).at as int,
                        found@[l].ability as int,
                    ),
                forall|c: int, a: int|
                    0 <= c < at && 0 <= a < pile[c].data.all_abilities().len() && self.can_use(
                        purpose,
                        pile[c],
                        #[trigger] pile[c].data.all_abilities()[a],
                        land_in_hand,
                    ) && (pile[c].data.all_abilities()[a].availability >= ALWAYS
                        || !purpose.by_chance()) ==> exists|k: int|
                        0 <= k < found@.len() && (#[trigger] found@[k]).at == c
                            && found@[k].ability == a,
            decreases pile.len() - at,
        {
            let card = zone.cards[at];
            assert(card.data.wf());
            let count = card.data.ability_count();
            let mut ai: usize = 0;
            while ai < count
                invariant
                    at < pile.len(),
                    ai <= count == card.data.all_abilities().len(),
                    card == pile[at as int],
                    card.data.wf(),
                    pile == zone.cards@,
                    pile == if purpose.in_hand() {
                        game.hand.cards@
                    } else {
                        game.battlefield.cards@
                    },
                    in_hand == purpose.in_hand(),
                    data_ok(pile),
                    self.wf(),
                    land_in_hand == (first_index(game.hand.cards@, of_type(Types::Land))
                        < game.hand.cards@.len()),
                    forall|k: int|
                        0 <= k < found@.len() ==> {
                            &&& stands_before(
                                (#[trigger] found@[k]).at as int,
                                found@[k].ability as int,
                                at as int,
                                ai as int,
                            )
                            &&& found@[k].card == pile[found@[k].at as int]
                            &&& found@[k].ability < found@[k].card.data.all_abilities().len()
                            &&& self.can_use(
                                purpose,
                                found@[k].card,
                                found@[k].card.data.all_abilities()[found@[k].ability as int],
                                land_in_hand,
                            )
                            &&& purpose.by_chance()
                                ==> found@[k].it().availability > 0
                        },
                    forall|k: int, l: int|
                        0 <= k < l < found@.len() ==> stands_before(
                            (#[trigger] found@[k]).at as int,
                            found@[k].ability as int,
                            (#[trigger] found@[l]).at as int,
                            found@[l].ability as int,
                        ),
                    forall|c: int, a: int|
                        0 <= c <= at && 0 <= a < pile[c].data.all_abilities().len() && (c < at
                            || a < ai) && self.can_use(
                            purpose,
                            pile[c],
                            #[trigger] pile[c].data.all_abilities()[a],
                            land_in_hand,
                        ) && (pile[c].data.all_abilities()[a].availability >= ALWAYS
                            || !purpose.by_chance()) ==> exists|k: int|
                            0 <= k < found@.len() && (#[trigger] found@[k]).at == c
                                && found@[k].ability == a,
                decreases count - ai,
            {
                let ability = card.data.ability(ai);
                assert(ability.wf());
                let ghost before = found@;
                let mut usable = false;
                if self.wants(purpose, ability, land_in_hand) {
                    if in_hand {
                        if !card.is_type(Types::Land) {
                            usable = match &card.data.mana_cost {
                                Some(cost) => self.mana_pool.can_also_pay_for(
                                    &self.mana_spent,
                                    cost,
                                ).is_some(),
                                None => true,
                            };
                        }
                    } else if !(needs_untapped(purpose, &ability.cost) && card.tapped) {
                        usable = match ability.cost.is_mana() {
                            Some(asked) => match self.affords_activation(&card, asked) {
                                Ok(affordable) => affordable,
                                Err(fault) => {
                                    proof {
                                        assert(self.misses_mana(
                                            purpose,
                                            card,
                                            *ability,
                                            land_in_hand,
                                        ));
                                    }
                                    return Err(fault);
                                },
                            },
                            None => true,
                        };
                    }
                }
                assert(usable == self.can_use(purpose, card, *ability, land_in_hand));
                if usable {
                    let there = match purpose {
                        Purpose::RampSpell => true,
                        _ => happens(ability.availability, rng),
                    };
                    if there {
                        found.push(Found { at, card, ability: ai });
                    }
                }
                proof {
                    assert forall|c: int, a: int|
                        0 <= c <= at && 0 <= a < pile[c].data.all_abilities().len() && (c < at || a
                            < ai + 1) && self.can_use(
                            purpose,
                            pile[c],
                            #[trigger] pile[c].data.all_abilities()[a],
                            land_in_hand,
                        ) && (pile[c].data.all_abilities()[a].availability >= ALWAYS
                            || !purpose.by_chance()) implies exists|k: int|
                        0 <= k < found@.len() && (#[trigger] found@[k]).at == c
                            && found@[k].ability == a by {
                        if c < at || a < ai {
                            let k = choose|k: int|
                                0 <= k < before.len() && (#[trigger] before[k]).at == c
                                    && before[k].ability == a;
                            assert(found@[k].at == c && found@[k].ability == a);
                        } else {
                            let k = found@.len() - 1;
                            assert(found@[k].at == c && found@[k].ability == a);
                        }
                    }
                }
                ai += 1;
            }
            at += 1;
        }
        proof {
            assert forall|c: int, a: int| #[trigger]
                sure_to_be_found(*self, *game, purpose, c, a) implies exists|k: int|
                0 <= k < found@.len() && (#[trigger] found@[k]).at == c && found@[k].ability
                    == a by {
                assert(self.can_use(
                    purpose,
                    pile[c],
                    pile[c].data.all_abilities()[a],
                    land_in_hand,
                ));
            }
        }
        Ok(found)
    }

    /// The abilities on the battlefield that the turn can use for
    /// `purpose`, in the order of the battlefield.
    pub fn find_abilities_on_battlefield<'db>(
        &self,
        game: &Game<'db>,
        purpose: Purpose,
        rng: &mut StdRng,
    ) -> (r: Result<Vec<Found<'db>>, Fault>)
        requires
            self.wf(),
            game.wf(),
            !purpose.in_hand(),
        ensures
            r matches Ok(found) ==> searched(*self, *game, purpose, found@),
            r matches Err(fault) ==> fault == Fault::ManaMissing,
            mana_in_order(*self, *game, purpose) ==> r is Ok,
    {
        self.find(game, purpose, rng)
    }

    /// The spells in the hand that the turn can cast for `purpose`, in the
    /// order of the hand: a card once for each ability of it that serves.
    pub fn find_spells_in_hand<'db>(&self, game: &Game<'db>, purpose: Purpose,
        rng: &mut StdRng) -> (r:
        Vec<Found<'db>>)
        requires
            self.wf(),
            game.wf(),
            purpose.in_hand(),
        ensures
            searched(*self, *game, purpose, r@),
    {
        match self.find(game, purpose, rng) {
            Ok(found) => found,
            Err(_) => vstd::pervasive::unreached(),
        }
    }
}

impl<'db> Zone<'db> {
    /// Where the first card of the type `t` lies; the size of the pile if
    /// none is of it.
    pub fn position_of_type(&self, t: Types) -> (r: usize)
        ensures
            r == first_index(self.cards@, of_type(t)),
            r <= self.cards@.len(),
    {
        let mut i: usize = 0;
        while i < self.cards.len() && !self.cards[i].is_type(t)
            invariant
                i <= self.cards@.len(),
                forall|j: int| 0 <= j < i ==> !of_type(t)(#[trigger] self.cards@[j]),
            decreases self.cards@.len() - i,
        {
            i += 1;
        }
        proof {
            crate::seqs::lemma_first_index_is(self.cards@, of_type(t), i as int);
        }
        i
    }
}

} // verus!
