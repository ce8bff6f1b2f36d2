//! One turn of a game: the mana gathered and spent, the lands played, and the
//! steps that move cards.

use vstd::prelude::*;
use std::collections::HashSet;
use rand::rngs::StdRng;
use crate::card::{Ability, Card, Cost, Effect, Types};
use crate::chance::roll_below;
use crate::game::{drawn, lemma_drawn, Fault, Game, TurnStats};
use crate::pips::MAX_COUNTED_CARDS;
use crate::pool::{ManaPool, PoolView};
use crate::zone::{lemma_pile_push, lemma_pile_remove, type_line_holds, untapped_count};
use crate::seqs::{first_index, lemma_first_index};

verus! {

/// What one turn keeps account of.
pub struct Turn {
    pub turn_number: u32,
    pub lands_played: u32,
    pub land_limit: u32,
    /// The mana at hand this turn.
    pub mana_pool: ManaPool,
    /// The mana spent this turn.
    pub mana_spent: ManaPool,
    pub turn_stats: TurnStats,
    /// The numbers of the cards whose mana is counted in the pool.
    pub cards_in_mana_pool: HashSet<u32>,
}

/// What holds of a game after cards were fetched or drawn from its library:
/// the cards that left the library lie on top of the hand or, tapped, of the
/// battlefield, and nothing else has moved.
pub open spec fn replenished<'db>(before: Game<'db>, after: Game<'db>) -> bool {
    &&& after.command == before.command
    &&& after.graveyard == before.graveyard
    &&& after.game_stats == before.game_stats
    &&& after.library.name == before.library.name
    &&& after.hand.name == before.hand.name
    &&& after.battlefield.name == before.battlefield.name
    &&& after.battlefield.cards@.len() >= before.battlefield.cards@.len()
    &&& after.battlefield.cards@.take(before.battlefield.cards@.len() as int)
        == before.battlefield.cards@
    &&& untapped_count(after.battlefield.cards@) == untapped_count(before.battlefield.cards@)
    &&& after.hand.cards@.len() >= before.hand.cards@.len()
    &&& after.hand.cards@.take(before.hand.cards@.len() as int) == before.hand.cards@
    &&& after.library.cards@.len() + after.hand.cards@.len() + after.battlefield.cards@.len()
        == before.library.cards@.len() + before.hand.cards@.len() + before.battlefield.cards@.len()
    &&& after.all_ids() == before.all_ids()
    &&& before.wf() ==> after.wf()
}

/// Fetching or drawing again after fetching or drawing is fetching or
/// drawing.
pub proof fn lemma_replenished_again<'db>(a: Game<'db>, b: Game<'db>, c: Game<'db>)
    requires
        replenished(a, b),
        replenished(b, c),
    ensures
        replenished(a, c),
{
    let n = a.battlefield.cards@.len() as int;
    let m = b.battlefield.cards@.len() as int;
    assert(c.battlefield.cards@.take(n) == c.battlefield.cards@.take(m).take(n));
    let h = a.hand.cards@.len() as int;
    let k = b.hand.cards@.len() as int;
    assert(c.hand.cards@.take(h) == c.hand.cards@.take(k).take(h));
}

/// A game is what it is after nothing was fetched or drawn.
pub proof fn lemma_replenished_same<'db>(a: Game<'db>)
    ensures
        replenished(a, a),
{
    assert(a.battlefield.cards@.take(a.battlefield.cards@.len() as int) == a.battlefield.cards@);
    assert(a.hand.cards@.take(a.hand.cards@.len() as int) == a.hand.cards@);
}

/// The largest entry of a list, and 0 for an empty one.
pub open spec fn most(entries: Seq<u32>) -> nat
    decreases entries.len(),
{
    if entries.len() == 0 {
        0
    } else if entries.last() > most(entries.drop_last()) {
        entries.last() as nat
    } else {
        most(entries.drop_last())
    }
}

/// No entry of a list is larger than its largest.
pub proof fn lemma_most(entries: Seq<u32>, at: int)
    requires
        0 <= at < entries.len(),
    ensures
        entries[at] <= most(entries),
    decreases entries.len(),
{
    if at < entries.len() - 1 {
        lemma_most(entries.drop_last(), at);
    }
}

/// A counter raised by `by`, or the fault of its running over.
pub fn raised(counter: u32, by: u32) -> (r: Result<u32, Fault>)
    ensures
        match r {
            Ok(value) => value == counter + by,
            Err(fault) => fault == Fault::TooMany && counter + by > u32::MAX,
        },
{
    if by <= u32::MAX - counter {
        Ok(counter + by)
    } else {
        Err(Fault::TooMany)
    }
}

impl<'db> Game<'db> {
    /// Fetches to the hand the first card of the library whose type line
    /// holds `type_line`, and says whether there was one.
    pub fn fetch_to_hand(&mut self, type_line: &str) -> (found: bool)
        ensures
            replenished(*old(self), *final(self)),
            final(self).battlefield == old(self).battlefield,
            found == (first_index(old(self).library.cards@,
                type_line_holds(type_line@)) < old(self).library.cards@.len()),
            found ==> final(self).hand.cards@ == old(self).hand.cards@.push(
                old(self).library.cards@[first_index(
                    old(self).library.cards@,
                    type_line_holds(type_line@),
                )],
            ) && final(self).library.cards@ == old(self).library.cards@.remove(
                first_index(old(self).library.cards@, type_line_holds(type_line@)),
            ),
            !found ==> *final(self) == *old(self),
    {
        proof {
            lemma_replenished_same(*self);
        }
        match self.library.take_land(type_line) {
            Some(card) => {
                proof {
                    let at = first_index(old(self).library.cards@, type_line_holds(type_line@));
                    lemma_first_index(old(self).library.cards@, type_line_holds(type_line@));
                    lemma_pile_remove(old(self).library.cards@, at);
                    lemma_pile_push(self.hand.cards@, card);
                    assert(old(self).library.cards@[at].data.wf() || !old(self).wf());
                }
                self.hand.add(card);
                proof {
                    assert(self.hand.cards@.take(old(self).hand.cards@.len() as int)
                        == old(self).hand.cards@);
                    assert(self.battlefield.cards@.take(self.battlefield.cards@.len() as int)
                        == self.battlefield.cards@);
                    assert(self.all_ids() =~= old(self).all_ids());
                }
                true
            },
            None => false,
        }
    }

    /// Fetches to the battlefield, tapped, the first card of the library
    /// whose type line holds `type_line`, and says whether there was one.
    pub fn fetch_to_battlefield(&mut self, type_line: &str) -> (found: bool)
        ensures
            replenished(*old(self), *final(self)),
            final(self).hand == old(self).hand,
            found == (first_index(old(self).library.cards@,
                type_line_holds(type_line@)) < old(self).library.cards@.len()),
            found ==> final(self).battlefield.cards@ == old(self).battlefield.cards@.push(
                Card {
                    tapped: true,
                    ..old(self).library.cards@[first_index(
                        old(self).library.cards@,
                        type_line_holds(type_line@),
                    )]
                },
            ) && final(self).library.cards@ == old(self).library.cards@.remove(
                first_index(old(self).library.cards@, type_line_holds(type_line@)),
            ),
            !found ==> *final(self) == *old(self),
    {
        proof {
            lemma_replenished_same(*self);
        }
        match self.library.take_land(type_line) {
            Some(card) => {
                let mut card = card;
                card.tapped = true;
                proof {
                    let at = first_index(old(self).library.cards@, type_line_holds(type_line@));
                    lemma_first_index(old(self).library.cards@, type_line_holds(type_line@));
                    lemma_pile_remove(old(self).library.cards@, at);
                    lemma_pile_push(self.battlefield.cards@, card);
                    assert(old(self).library.cards@[at].data.wf() || !old(self).wf());
                }
                self.battlefield.add(card);
                proof {
                    assert(self.battlefield.cards@.take(old(self).battlefield.cards@.len() as int)
                        == old(self).battlefield.cards@);
                    assert(self.hand.cards@.take(self.hand.cards@.len() as int)
                        == self.hand.cards@);
                    assert(self.all_ids() =~= old(self).all_ids());
                }
                true
            },
            None => false,
        }
    }

    /// Shuffles the library.
    pub fn shuffle_library(&mut self, rng: &mut StdRng)
        ensures
            replenished(*old(self), *final(self)),
            final(self).hand == old(self).hand,
            final(self).battlefield == old(self).battlefield,
            final(self).library.cards@.to_multiset() == old(self).library.cards@.to_multiset(),
    {
        proof {
            lemma_replenished_same(*self);
        }
        self.library.shuffle(rng);
    }
}

/// The library and the hand once lands were fetched to the hand: for each
/// type line in turn, the first card of the library whose type line holds
/// it has left the library for the top of the hand.
pub open spec fn fetched_to_hand<'db>(
    library: Seq<Card<'db>>,
    hand: Seq<Card<'db>>,
    types: Seq<Seq<char>>,
) -> (Seq<Card<'db>>, Seq<Card<'db>>)
    decreases types.len(),
{
    if types.len() == 0 {
        (library, hand)
    } else {
        let (rest, held) = fetched_to_hand(library, hand, types.drop_last());
        let at = first_index(rest, type_line_holds(types.last()));
        if at < rest.len() {
            (rest.remove(at), held.push(rest[at]))
        } else {
            (rest, held)
        }
    }
}

/// The library and the battlefield once lands were fetched to the
/// battlefield: for each type line in turn, the first card of the library
/// whose type line holds it has left the library and lies, tapped, on top
/// of the battlefield.
pub open spec fn fetched_to_battlefield<'db>(
    library: Seq<Card<'db>>,
    battlefield: Seq<Card<'db>>,
    types: Seq<Seq<char>>,
) -> (Seq<Card<'db>>, Seq<Card<'db>>)
    decreases types.len(),
{
    if types.len() == 0 {
        (library, battlefield)
    } else {
        let (rest, lying) = fetched_to_battlefield(library, battlefield, types.drop_last());
        let at = first_index(rest, type_line_holds(types.last()));
        if at < rest.len() {
            (rest.remove(at), lying.push(Card { tapped: true, ..rest[at] }))
        } else {
            (rest, lying)
        }
    }
}

impl Turn {
    /// The mana kept account of is two pools in order.
    pub open spec fn wf(self) -> bool {
        self.mana_pool.wf() && self.mana_spent.wf()
    }

    /// How much of the mana at hand is not spent yet.
    pub open spec fn mana_left(self) -> nat {
        if self.mana_pool@.total() >= self.mana_spent@.total() {
            (self.mana_pool@.total() - self.mana_spent@.total()) as nat
        } else {
            0
        }
    }

    /// The account of a turn at its start: no mana, no land played, one land
    /// allowed.
    pub fn new(turn: u32) -> (r: Turn)
        ensures
            r.wf(),
            r.turn_number == turn,
            r.lands_played == 0,
            r.land_limit == 1,
            r.mana_pool@ == PoolView::empty(),
            r.mana_spent@ == PoolView::empty(),
            r.cards_in_mana_pool@ == Set::<u32>::empty(),
            r.turn_stats == (TurnStats {
                turn_number: turn,
                lands_played: 0,
                lands_cheated: 0,
                cards_drawn: 0,
                cards_played: 0,
                cards_in_hand: 0,
                mana_available: 0,
                mana_spent: 0,
            }),
    {
        Turn {
            turn_number: turn,
            lands_played: 0,
            land_limit: 1,
            mana_pool: ManaPool::new(),
            mana_spent: ManaPool::new(),
            turn_stats: TurnStats {
                turn_number: turn,
                lands_played: 0,
                lands_cheated: 0,
                cards_drawn: 0,
                cards_played: 0,
                cards_in_hand: 0,
                mana_available: 0,
                mana_spent: 0,
            },
            cards_in_mana_pool: HashSet::new(),
        }
    }

    /// Adds the mana that a card makes to the mana at hand, and notes the
    /// card as counted.
    pub fn add_to_mana_pool<'db>(&mut self, card: &Card<'db>, mana_produced: &ManaPool) -> (r:
        Result<(), Fault>)
        requires
            old(self).wf(),
            mana_produced.wf(),
        ensures
            match r {
                Ok(_) => {
                    &&& final(self).wf()
                    &&& final(self).mana_pool@ == old(self).mana_pool@.merged(mana_produced@)
                    &&& final(self).cards_in_mana_pool@ == old(self).cards_in_mana_pool@.insert(
                        card.id,
                    )
                    &&& final(self).mana_spent == old(self).mana_spent
                    &&& final(self).lands_played == old(self).lands_played
                    &&& final(self).land_limit == old(self).land_limit
                    &&& final(self).turn_stats == old(self).turn_stats
                    &&& final(self).turn_number == old(self).turn_number
                },
                Err(fault) => fault == Fault::TooMany && old(self).mana_pool@.total()
                    + mana_produced@.total() > u32::MAX,
            },
    {
        if mana_produced.cmc() > u32::MAX - self.mana_pool.cmc() {
            return Err(Fault::TooMany);
        }
        self.mana_pool.add_pool(mana_produced);
        self.cards_in_mana_pool.insert(card.id);
        Ok(())
    }

    /// Whether the two accounts differ in nothing but what is recorded of
    /// the turn.
    pub open spec fn same_account(self, other: Turn) -> bool {
        &&& self.turn_number == other.turn_number
        &&& self.lands_played == other.lands_played
        &&& self.land_limit == other.land_limit
        &&& self.mana_pool == other.mana_pool
        &&& self.mana_spent == other.mana_spent
        &&& self.cards_in_mana_pool == other.cards_in_mana_pool
    }

    /// Fetches lands from the library: for each type line of
    /// `types_to_hand` the first card that holds it, to the hand; then for
    /// each type line of `types_to_battlefield` the first card that holds
    /// it, tapped, to the battlefield. A type line that no card holds is
    /// passed over. The lands brought to the battlefield are counted as
    /// cheated, and the library is shuffled at the end. The step fails, the
    /// cards fetched, exactly where that count would run over.
    pub fn fetch_lands<'db>(
        &mut self,
        game: &mut Game<'db>,
        types_to_hand: &Vec<String>,
        types_to_battlefield: &Vec<String>,
        rng: &mut StdRng,
    ) -> (r: Result<(), Fault>)
        ensures
            match r {
                Ok(_) => {
                    &&& replenished(*old(game), *final(game))
                    &&& final(self).same_account(*old(self))
                    &&& final(game).hand.cards@.len() <= old(game).hand.cards@.len()
                        + types_to_hand@.len()
                    &&& final(self).turn_stats == (TurnStats {
                        lands_cheated: (old(self).turn_stats.lands_cheated
                            + final(game).battlefield.cards@.len()
                            - old(game).battlefield.cards@.len()) as u32,
                        ..old(self).turn_stats
                    })
                    &&& {
                        let (rest, held) = fetched_to_hand(
                            old(game).library.cards@,
                            old(game).hand.cards@,
                            types_to_hand.deep_view(),
                        );
                        let (left, lying) = fetched_to_battlefield(
                            rest,
                            old(game).battlefield.cards@,
                            types_to_battlefield.deep_view(),
                        );
                        &&& final(game).hand.cards@ == held
                        &&& final(game).battlefield.cards@ == lying
                        &&& final(game).library.cards@.to_multiset() == left.to_multiset()
                    }
                    &&& final(game).battlefield.cards@.len() <= old(game).battlefield.cards@.len()
                        + types_to_battlefield@.len()
                    &&& final(game).library.cards@.len() + types_to_hand@.len()
                        + types_to_battlefield@.len() >= old(game).library.cards@.len()
                },
                Err(fault) => fault == Fault::TooMany,
            },
            r is Ok <==> old(self).turn_stats.lands_cheated + fetched_to_battlefield(
                fetched_to_hand(
                    old(game).library.cards@,
                    old(game).hand.cards@,
                    types_to_hand.deep_view(),
                ).0,
                old(game).battlefield.cards@,
                types_to_battlefield.deep_view(),
            ).1.len() - old(game).battlefield.cards@.len() <= u32::MAX,
            old(self).turn_stats.lands_cheated + types_to_battlefield@.len() <= u32::MAX
                ==> r is Ok,
    {
        proof {
            lemma_replenished_same(*game);
        }
        let ghost to_hand = types_to_hand.deep_view();
        let ghost to_battlefield = types_to_battlefield.deep_view();
        let mut i: usize = 0;
        proof {
            assert(to_hand.take(0) =~= Seq::<Seq<char>>::empty());
        }
        while i < types_to_hand.len()
            invariant
                i <= types_to_hand@.len(),
                to_hand == types_to_hand.deep_view(),
                to_hand.len() == types_to_hand@.len(),
                replenished(*old(game), *game),
                game.battlefield == old(game).battlefield,
                game.hand.cards@.len() <= old(game).hand.cards@.len() + i,
                (game.library.cards@, game.hand.cards@) == fetched_to_hand(
                    old(game).library.cards@,
                    old(game).hand.cards@,
                    to_hand.take(i as int),
                ),
                *self == *old(self),
            decreases types_to_hand@.len() - i,
        {
            let ghost before = *game;
            proof {
                assert(to_hand.take(i + 1).drop_last() == to_hand.take(i as int));
                assert(to_hand.take(i + 1).last() == types_to_hand@[i as int]@);
                lemma_first_index(
                    game.library.cards@,
                    type_line_holds(types_to_hand@[i as int]@),
                );
            }
            let found = game.fetch_to_hand(types_to_hand[i].as_str());
            proof {
                lemma_replenished_again(*old(game), before, *game);
            }
            i += 1;
        }
        let ghost fetched = *game;
        let mut j: usize = 0;
        let mut cheated: usize = 0;
        proof {
            assert(to_hand.take(i as int) == to_hand);
            assert(to_battlefield.take(0) =~= Seq::<Seq<char>>::empty());
        }
        while j < types_to_battlefield.len()
            invariant
                j <= types_to_battlefield@.len(),
                to_battlefield == types_to_battlefield.deep_view(),
                to_battlefield.len() == types_to_battlefield@.len(),
                replenished(*old(game), *game),
                game.hand.cards@.len() <= old(game).hand.cards@.len() + types_to_hand@.len(),
                game.hand == fetched.hand,
                fetched.battlefield == old(game).battlefield,
                (game.library.cards@, game.battlefield.cards@) == fetched_to_battlefield(
                    fetched.library.cards@,
                    fetched.battlefield.cards@,
                    to_battlefield.take(j as int),
                ),
                *self == *old(self),
                cheated <= j,
                cheated == game.battlefield.cards@.len() - old(game).battlefield.cards@.len(),
            decreases types_to_battlefield@.len() - j,
        {
            let ghost before = *game;
            proof {
                assert(to_battlefield.take(j + 1).drop_last() == to_battlefield.take(j as int));
                assert(to_battlefield.take(j + 1).last() == types_to_battlefield@[j as int]@);
                lemma_first_index(
                    game.library.cards@,
                    type_line_holds(types_to_battlefield@[j as int]@),
                );
            }
            let found = game.fetch_to_battlefield(types_to_battlefield[j].as_str());
            proof {
                lemma_replenished_again(*old(game), before, *game);
            }
            if found {
                cheated += 1;
            }
            j += 1;
        }
        proof {
            assert(to_battlefield.take(j as int) == to_battlefield);
        }
        if cheated > u32::MAX as usize {
            return Err(Fault::TooMany);
        }
        match raised(self.turn_stats.lands_cheated, cheated as u32) {
            Ok(count) => {
                self.turn_stats.lands_cheated = count;
            },
            Err(fault) => {
                return Err(fault);
            },
        }
        let ghost before = *game;
        game.shuffle_library(rng);
        proof {
            lemma_replenished_again(*old(game), before, *game);
        }
        Ok(())
    }

    /// Draws cards: as many as the entry of `ratios` says that is drawn at
    /// random; none where the list is empty. Where the count of cards drawn
    /// would run over with that entry, or the library holds fewer cards,
    /// nothing is drawn.
    pub fn draw_cards<'db>(&mut self, game: &mut Game<'db>, ratios: &Vec<u32>,
        rng: &mut StdRng) -> (r:
        Result<(), Fault>)
        requires
            old(game).wf(),
        ensures
            match r {
                Ok(_) => {
                    &&& replenished(*old(game), *final(game))
                    &&& final(game).battlefield == old(game).battlefield
                    &&& final(self).same_account(*old(self))
                    &&& ratios@.len() == 0 ==> *final(game) == *old(game) && *final(self)
                        == *old(self)
                    &&& ratios@.len() > 0 ==> exists|at: int|
                        0 <= at < ratios@.len() && #[trigger] ratios@[at]
                            <= old(game).library.cards@.len() && final(game).hand.cards@
                                == old(game).hand.cards@
                            + drawn(old(game).library.cards@, ratios@[at] as int)
                                && final(game).library.cards@ == old(game).library.cards@.take(
                            old(game).library.cards@.len() - ratios@[at],
                        ) && old(self).turn_stats.cards_drawn + ratios@[at] <= u32::MAX
                            && final(self).turn_stats == (TurnStats {
                            cards_drawn: (old(self).turn_stats.cards_drawn + ratios@[at]) as u32,
                            ..old(self).turn_stats
                        })
                    &&& final(self).turn_stats.cards_drawn <= old(self).turn_stats.cards_drawn
                        + most(ratios@)
                    &&& final(game).library.cards@.len() + most(ratios@)
                        >= old(game).library.cards@.len()
                },
                Err(fault) => {
                    &&& *final(game) == *old(game)
                    &&& *final(self) == *old(self)
                    &&& exists|at: int|
                        0 <= at < ratios@.len() && ((fault == Fault::TooMany
                            && old(self).turn_stats.cards_drawn + #[trigger] ratios@[at]
                            > u32::MAX) || (fault == Fault::LibraryEmpty && ratios@[at]
                            > old(game).library.cards@.len()))
                },
            },
            most(ratios@) <= old(game).library.cards@.len() && old(self).turn_stats.cards_drawn
                + most(ratios@) <= u32::MAX ==> r is Ok,
    {
        proof {
            lemma_replenished_same(*game);
        }
        if ratios.len() == 0 {
            return Ok(());
        }
        let index = roll_below(rng, ratios.len());
        let count = ratios[index];
        proof {
            lemma_most(ratios@, index as int);
        }
        let total = match raised(self.turn_stats.cards_drawn, count) {
            Ok(total) => total,
            Err(fault) => {
                return Err(fault);
            },
        };
        match game.draw_cards(count) {
            Ok(_) => {},
            Err(fault) => {
                return Err(fault);
            },
        }
        self.turn_stats.cards_drawn = total;
        proof {
            lemma_drawn(old(game).library.cards@, count as int);
            assert(game.hand.cards@.take(old(game).hand.cards@.len() as int)
                == old(game).hand.cards@);
        }
        Ok(())
    }
}

/// What holds once lands were fetched: for each type line of `to_hand` in
/// turn the first card of the library that holds it lies on top of the
/// hand, then for each of `to_battlefield` the first that holds it lies,
/// tapped, on top of the battlefield and is counted as cheated; the library
/// holds the rest in some order.
pub open spec fn lands_fetched<'db>(
    before_game: Game<'db>,
    before_turn: Turn,
    to_hand: Seq<Seq<char>>,
    to_battlefield: Seq<Seq<char>>,
    after_game: Game<'db>,
    after_turn: Turn,
) -> bool {
    let (rest, held) = fetched_to_hand(
        before_game.library.cards@,
        before_game.hand.cards@,
        to_hand,
    );
    let (left, lying) = fetched_to_battlefield(
        rest,
        before_game.battlefield.cards@,
        to_battlefield,
    );
    &&& replenished(before_game, after_game)
    &&& after_turn.same_account(before_turn)
    &&& after_game.hand.cards@ == held
    &&& after_game.battlefield.cards@ == lying
    &&& after_game.library.cards@.to_multiset() == left.to_multiset()
    &&& before_turn.turn_stats.lands_cheated + lying.len() - before_game.battlefield.cards@.len()
        <= u32::MAX
    &&& after_turn.turn_stats == (TurnStats {
        lands_cheated: (before_turn.turn_stats.lands_cheated + lying.len()
            - before_game.battlefield.cards@.len()) as u32,
        ..before_turn.turn_stats
    })
}

/// What holds once cards were drawn by a list of counts: nothing has changed
/// where the list is empty; else, for one of its entries, that many cards
/// have left the top of the library for the hand and are counted as drawn.
pub open spec fn cards_drawn<'db>(
    before_game: Game<'db>,
    before_turn: Turn,
    ratios: Seq<u32>,
    after_game: Game<'db>,
    after_turn: Turn,
) -> bool {
    &&& replenished(before_game, after_game)
    &&& after_game.battlefield == before_game.battlefield
    &&& after_turn.same_account(before_turn)
    &&& ratios.len() == 0 ==> after_game == before_game && after_turn == before_turn
    &&& ratios.len() > 0 ==> exists|at: int|
        0 <= at < ratios.len() && #[trigger] ratios[at] <= before_game.library.cards@.len()
            && after_game.hand.cards@ == before_game.hand.cards@ + drawn(
            before_game.library.cards@,
            ratios[at] as int,
        ) && after_game.library.cards@ == before_game.library.cards@.take(
            before_game.library.cards@.len() - ratios[at],
        ) && before_turn.turn_stats.cards_drawn + ratios[at] <= u32::MAX && after_turn.turn_stats
            == (TurnStats {
            cards_drawn: (before_turn.turn_stats.cards_drawn + ratios[at]) as u32,
            ..before_turn.turn_stats
        })
}

/// What holds once an effect of a card has taken place: its mana is poured
/// into the mana at hand and the card noted as counted; or its lands are
/// fetched; or its cards are drawn. A raised land limit changes nothing
/// here.
pub open spec fn effect_done<'db>(
    before_game: Game<'db>,
    before_turn: Turn,
    card: Card<'db>,
    effect: Effect,
    after_game: Game<'db>,
    after_turn: Turn,
) -> bool {
    match effect {
        Effect::ProduceMana(mana) => {
            &&& after_game == before_game
            &&& after_turn.mana_pool@ == before_turn.mana_pool@.merged(mana@)
            &&& after_turn.cards_in_mana_pool@ == before_turn.cards_in_mana_pool@.insert(card.id)
            &&& after_turn.mana_spent == before_turn.mana_spent
            &&& after_turn.lands_played == before_turn.lands_played
            &&& after_turn.land_limit == before_turn.land_limit
            &&& after_turn.turn_stats == before_turn.turn_stats
            &&& after_turn.turn_number == before_turn.turn_number
        },
        Effect::FetchLand { to_hand, to_battlefield } => lands_fetched(
            before_game,
            before_turn,
            to_hand.deep_view(),
            to_battlefield.deep_view(),
            after_game,
            after_turn,
        ),
        Effect::Draw(ratios) => cards_drawn(
            before_game,
            before_turn,
            ratios@,
            after_game,
            after_turn,
        ),
        Effect::LandLimit(_) => after_game == before_game && after_turn == before_turn,
    }
}

/// Whether `fault` is a fault of an effect: the mana at hand, the lands
/// cheated or the cards drawn have no room for what it adds, or one of its
/// counts of cards asks for more than the library holds.
pub open spec fn effect_fails<'db>(turn: Turn, game: Game<'db>, effect: Effect, fault: Fault)
    -> bool {
    match effect {
        Effect::ProduceMana(mana) => fault == Fault::TooMany && turn.mana_pool@.total()
            + mana@.total() > u32::MAX,
        Effect::FetchLand { to_hand, to_battlefield } => fault == Fault::TooMany
            && turn.turn_stats.lands_cheated + to_battlefield@.len() > u32::MAX,
        Effect::Draw(ratios) => exists|at: int|
            0 <= at < ratios@.len() && ((fault == Fault::TooMany && turn.turn_stats.cards_drawn
                + #[trigger] ratios@[at] > u32::MAX) || (fault == Fault::LibraryEmpty && ratios@[at]
                > game.library.cards@.len())),
        Effect::LandLimit(_) => false,
    }
}

/// Whether an effect takes place whatever is rolled: there is room for the
/// most that it adds, and the library holds the most that it draws.
pub open spec fn effect_is_sure<'db>(turn: Turn, game: Game<'db>, effect: Effect) -> bool {
    match effect {
        Effect::ProduceMana(mana) => turn.mana_pool@.total() + mana@.total() <= u32::MAX,
        Effect::FetchLand { to_hand, to_battlefield } => turn.turn_stats.lands_cheated
            + to_battlefield@.len() <= u32::MAX,
        Effect::Draw(ratios) => most(ratios@) <= game.library.cards@.len()
            && turn.turn_stats.cards_drawn + most(ratios@) <= u32::MAX,
        Effect::LandLimit(_) => true,
    }
}

/// An effect that can fail is not sure to take place.
pub proof fn lemma_failing_effect_is_not_sure<'db>(
    turn: Turn,
    game: Game<'db>,
    effect: Effect,
    fault: Fault,
)
    requires
        effect_fails(turn, game, effect, fault),
    ensures
        !effect_is_sure(turn, game, effect),
{
    match effect {
        Effect::Draw(ratios) => {
            let at = choose|at: int|
                0 <= at < ratios@.len() && ((fault == Fault::TooMany && turn.turn_stats.cards_drawn
                    + #[trigger] ratios@[at] > u32::MAX) || (fault == Fault::LibraryEmpty
                    && ratios@[at] > game.library.cards@.len()));
            lemma_most(ratios@, at);
        },
        _ => {},
    }
}

impl Turn {
    /// Lets an effect of a card take place: its mana is added to the mana
    /// at hand, its lands are fetched, or its cards are drawn. A raised land
    /// limit is left to the playing of the card.
    pub fn take_effect<'db>(
        &mut self,
        game: &mut Game<'db>,
        card: &Card<'db>,
        effect: &Effect,
        rng: &mut StdRng,
    ) -> (r: Result<(), Fault>)
        requires
            old(self).wf(),
            old(game).wf(),
            effect.wf(),
        ensures
            match r {
                Ok(_) => {
                    &&& effect_done(
                        *old(game),
                        *old(self),
                        *card,
                        *effect,
                        *final(game),
                        *final(self),
                    )
                    &&& replenished(*old(game), *final(game))
                    &&& final(self).wf()
                    &&& final(self).mana_pool@.total() >= old(self).mana_pool@.total()
                    &&& final(self).mana_spent == old(self).mana_spent
                    &&& final(self).lands_played == old(self).lands_played
                    &&& final(self).land_limit == old(self).land_limit
                    &&& final(self).turn_number == old(self).turn_number
                    &&& final(self).turn_stats.turn_number == old(self).turn_stats.turn_number
                },
                Err(fault) => effect_fails(*old(self), *old(game), *effect, fault),
            },
            effect_is_sure(*old(self), *old(game), *effect) ==> r is Ok,
    {
        proof {
            lemma_replenished_same(*game);
        }
        match effect {
            Effect::ProduceMana(mana) => self.add_to_mana_pool(card, mana),
            Effect::FetchLand { to_hand, to_battlefield } => self.fetch_lands(
                game,
                to_hand,
                to_battlefield,
                rng,
            ),
            Effect::Draw(ratios) => self.draw_cards(game, ratios, rng),
            Effect::LandLimit(_) => Ok(()),
        }
    }
}

/// The card as it is once played: tapped if it was, or if it enters tapped.
pub open spec fn entered<'db>(card: Card<'db>) -> Card<'db> {
    Card { tapped: card.tapped || card.data.enters_tapped, ..card }
}

/// The card as it is once the cost of an ability of it is paid: tapped if it
/// was, or if the cost taps it.
pub open spec fn used<'db>(card: Card<'db>, cost: Cost) -> Card<'db> {
    Card { tapped: card.tapped || cost.taps(), ..card }
}

/// What holds of a game once a card that lay in none of its piles was played
/// into it: the card lies on top of the battlefield, or of the graveyard if
/// it does not stay in play; cards may have been fetched or drawn before.
pub open spec fn played<'db>(before: Game<'db>, after: Game<'db>, card: Card<'db>) -> bool {
    &&& after.command == before.command
    &&& after.game_stats == before.game_stats
    &&& after.library.name == before.library.name
    &&& after.hand.name == before.hand.name
    &&& after.battlefield.name == before.battlefield.name
    &&& after.graveyard.name == before.graveyard.name
    &&& after.hand.cards@.len() >= before.hand.cards@.len()
    &&& after.hand.cards@.take(before.hand.cards@.len() as int) == before.hand.cards@
    &&& after.battlefield.cards@.take(before.battlefield.cards@.len() as int)
        == before.battlefield.cards@
    &&& after.unsettled() <= before.unsettled()
    &&& after.card_count() == before.card_count() + 1
    &&& after.all_ids() == before.all_ids().insert(card.id)
    &&& after.wf()
    &&& if card.data.is_permanent() {
        &&& after.battlefield.cards@.len() > before.battlefield.cards@.len()
        &&& after.battlefield.cards@.last() == entered(card)
        &&& after.graveyard.cards@ == before.graveyard.cards@
    } else {
        &&& after.battlefield.cards@.len() >= before.battlefield.cards@.len()
        &&& after.graveyard.cards@ == before.graveyard.cards@.push(entered(card))
    }
}

/// Whether an ability adds its mana when its card is played: an ability
/// that adds mana and either is activated, on a card that stays in play,
/// asks for no mana and, if it taps, finds the card untapped, or takes
/// effect on cast.
pub open spec fn adds_on_entry(ability: Ability, permanent: bool, tapped: bool) -> bool {
    ability.effect is ProduceMana && ((permanent && ability.trigger is Activated && (
    !ability.cost.taps() || !tapped) && ability.cost.mana() is None) || ability.trigger is Cast)
}

/// The pool with the mana poured in that the abilities add when their card
/// is played, one ability after the other.
pub open spec fn mana_on_entry(
    pool: PoolView,
    abilities: Seq<Ability>,
    permanent: bool,
    tapped: bool,
) -> PoolView
    decreases abilities.len(),
{
    if abilities.len() == 0 {
        pool
    } else {
        let before = mana_on_entry(pool, abilities.drop_last(), permanent, tapped);
        match abilities.last().effect {
            Effect::ProduceMana(mana) => if adds_on_entry(abilities.last(), permanent, tapped) {
                before.merged(mana@)
            } else {
                before
            },
            _ => before,
        }
    }
}

/// The numbers of the cards counted in the pool once the card with the
/// number `id` is played: its own is among them if one of its abilities adds
/// its mana on entry.
pub open spec fn counted_on_entry(
    ids: Set<u32>,
    id: u32,
    abilities: Seq<Ability>,
    permanent: bool,
    tapped: bool,
) -> Set<u32>
    decreases abilities.len(),
{
    if abilities.len() == 0 {
        ids
    } else if adds_on_entry(abilities.last(), permanent, tapped) {
        counted_on_entry(ids, id, abilities.drop_last(), permanent, tapped).insert(id)
    } else {
        counted_on_entry(ids, id, abilities.drop_last(), permanent, tapped)
    }
}

/// Whether no ability fetches lands or draws cards when its card is played.
pub open spec fn quiet_on_entry(abilities: Seq<Ability>) -> bool {
    forall|i: int|
        0 <= i < abilities.len() ==> !(acts_on_cast(#[trigger] abilities[i]) && (
        abilities[i].effect is FetchLand || abilities[i].effect is Draw))
}

/// By how much the abilities raise the land limit, all in all.
pub open spec fn limit_on_entry(abilities: Seq<Ability>) -> nat
    decreases abilities.len(),
{
    if abilities.len() == 0 {
        0
    } else {
        limit_on_entry(abilities.drop_last()) + match abilities.last().effect {
            Effect::LandLimit(increase) => increase as nat,
            _ => 0,
        }
    }
}

/// Whether the ability takes effect when its card is played, at no cost.
pub open spec fn acts_on_cast(ability: Ability) -> bool {
    ability.trigger is Cast && ability.cost is Free
}

/// How many lands, at most, the abilities bring to the battlefield when
/// their card is played: one for each type line that they look for there.
pub open spec fn lands_on_entry(abilities: Seq<Ability>) -> nat
    decreases abilities.len(),
{
    if abilities.len() == 0 {
        0
    } else {
        lands_on_entry(abilities.drop_last()) + match abilities.last().effect {
            Effect::FetchLand { to_hand, to_battlefield } => if acts_on_cast(abilities.last()) {
                to_battlefield@.len()
            } else {
                0
            },
            _ => 0,
        }
    }
}

/// How many cards, at most, the abilities draw when their card is played:
/// for each list of counts its largest.
pub open spec fn draws_on_entry(abilities: Seq<Ability>) -> nat
    decreases abilities.len(),
{
    if abilities.len() == 0 {
        0
    } else {
        draws_on_entry(abilities.drop_last()) + match abilities.last().effect {
            Effect::Draw(ratios) => if acts_on_cast(abilities.last()) {
                most(ratios@)
            } else {
                0
            },
            _ => 0,
        }
    }
}

/// How many cards, at most, leave the library when the card of the abilities
/// is played: those drawn, and one for each type line that a land is fetched
/// for.
pub open spec fn cards_on_entry(abilities: Seq<Ability>) -> nat
    decreases abilities.len(),
{
    if abilities.len() == 0 {
        0
    } else {
        cards_on_entry(abilities.drop_last()) + match abilities.last().effect {
            Effect::FetchLand { to_hand, to_battlefield } => if acts_on_cast(abilities.last()) {
                to_hand@.len() + to_battlefield@.len()
            } else {
                0
            },
            Effect::Draw(ratios) => if acts_on_cast(abilities.last()) {
                most(ratios@)
            } else {
                0
            },
            _ => 0,
        }
    }
}

/// The first abilities of a card add, raise, fetch and draw no more than all
/// of them.
pub proof fn lemma_entry_grows(
    pool: PoolView,
    abilities: Seq<Ability>,
    permanent: bool,
    tapped: bool,
    first: int,
)
    requires
        0 <= first <= abilities.len(),
    ensures
        limit_on_entry(abilities.take(first)) <= limit_on_entry(abilities),
        lands_on_entry(abilities.take(first)) <= lands_on_entry(abilities),
        draws_on_entry(abilities.take(first)) <= draws_on_entry(abilities),
        cards_on_entry(abilities.take(first)) <= cards_on_entry(abilities),
        mana_on_entry(pool, abilities.take(first), permanent, tapped).total() <= mana_on_entry(
            pool,
            abilities,
            permanent,
            tapped,
        ).total(),
    decreases abilities.len(),
{
    if first == abilities.len() {
        assert(abilities.take(first) == abilities);
    } else {
        lemma_entry_grows(pool, abilities.drop_last(), permanent, tapped, first);
        assert(abilities.drop_last().take(first) == abilities.take(first));
    }
}

/// A pool that pays a cost still pays it with the mana poured in that the
/// abilities of a card add when the card is played.
pub proof fn lemma_entry_keeps_paying(
    pool: PoolView,
    abilities: Seq<Ability>,
    permanent: bool,
    tapped: bool,
    cost: PoolView,
)
    requires
        pool.covers(cost),
        forall|i: int| 0 <= i < abilities.len() ==> (#[trigger] abilities[i]).wf(),
    ensures
        mana_on_entry(pool, abilities, permanent, tapped).covers(cost),
    decreases abilities.len(),
{
    if abilities.len() > 0 {
        let front = abilities.drop_last();
        assert forall|i: int| 0 <= i < front.len() implies (#[trigger] front[i]).wf() by {
            assert(abilities[i].wf());
        }
        lemma_entry_keeps_paying(pool, front, permanent, tapped, cost);
        assert(abilities[abilities.len() - 1].wf());
        match abilities.last().effect {
            Effect::ProduceMana(mana) => {
                crate::solver::lemma_more_mana_still_pays(
                    mana_on_entry(pool, front, permanent, tapped),
                    mana@,
                    cost,
                );
            },
            _ => {},
        }
    }
}

impl Turn {
    /// The mana at hand once the card is played: the mana that its
    /// abilities add on entry is poured in.
    pub open spec fn pool_with<'db>(self, card: Card<'db>) -> PoolView {
        mana_on_entry(
            self.mana_pool@,
            card.data.all_abilities(),
            card.data.is_permanent(),
            entered(card).tapped,
        )
    }

    /// Whether no counter of the turn can run over when the card is played:
    /// the lands and cards played, the land limit, the mana at hand, the
    /// lands cheated and the cards drawn, each with the most that the card
    /// can add to it.
    pub open spec fn has_room_for<'db>(self, card: Card<'db>) -> bool {
        &&& self.lands_played + one_land(card) <= u32::MAX
        &&& self.turn_stats.lands_played + one_land(card) <= u32::MAX
        &&& self.turn_stats.cards_played + 1 - one_land(card) <= u32::MAX
        &&& self.land_limit + limit_on_entry(card.data.all_abilities()) <= u32::MAX
        &&& self.pool_with(card).total() <= u32::MAX
        &&& self.turn_stats.lands_cheated + lands_on_entry(card.data.all_abilities()) <= u32::MAX
        &&& self.turn_stats.cards_drawn + draws_on_entry(card.data.all_abilities()) <= u32::MAX
    }

    /// Whether the mana at hand, with that of the card, pays the cost of the
    /// card on top of what is spent. A card without a cost is paid for.
    pub open spec fn pays_for<'db>(self, card: Card<'db>) -> bool {
        card.data.mana_cost matches Some(cost) ==> self.pool_with(card).covers(
            self.mana_spent@.merged(cost@),
        )
    }

    /// Why the card cannot be played, whatever is rolled: a counter has no
    /// room, the library holds fewer cards than the card can take from it, or
    /// the cost is not paid. Nothing where the card is played for sure.
    pub open spec fn fault_of_playing<'db>(self, game: Game<'db>, card: Card<'db>) -> Option<
        Fault,
    > {
        if !self.has_room_for(card) {
            Some(Fault::TooMany)
        } else if game.library.cards@.len() < cards_on_entry(card.data.all_abilities()) {
            Some(Fault::LibraryEmpty)
        } else if !self.pays_for(card) {
            Some(Fault::CannotPay)
        } else {
            None
        }
    }

    /// Plays a card that has left its pile; a land only while a land may
    /// still be played.
    ///
    /// The card enters tapped if it says so. A land counts as the land
    /// played, any other card as a card played. Each ability of the card in
    /// turn takes effect: mana is added to the mana at hand if the card
    /// stays in play and the ability is activated, asks for no mana and, if
    /// it taps, finds the card untapped, or if the ability takes effect on
    /// cast; lands are fetched and cards drawn by abilities that take effect
    /// on cast at no cost; a raised land limit is raised. Then the cost of
    /// the card is paid on top of what is spent, and the card goes to the
    /// battlefield, or to the graveyard if it does not stay in play.
    ///
    /// The card is played wherever the counters have room for the most that
    /// it can add, the library holds the most that it can take, and the cost
    /// is paid; with room and cards enough, an unpaid cost is the fault.
    pub fn play_card<'db>(&mut self, game: &mut Game<'db>, card: Card<'db>, rng: &mut StdRng) -> (r:
        Result<(), Fault>)
        requires
            old(self).wf(),
            old(game).wf(),
            old(game).card_count() < MAX_COUNTED_CARDS,
            card.data.wf(),
            card.data.types.has(Types::Land) ==> old(self).lands_played < old(self).land_limit,
        ensures
            match r {
                Ok(_) => {
                    &&& final(self).wf()
                    &&& played(*old(game), *final(game), card)
                    &&& final(self).turn_number == old(self).turn_number
                    &&& final(self).turn_stats.turn_number == old(self).turn_stats.turn_number
                    &&& final(self).lands_played == old(self).lands_played + one_land(card)
                    &&& final(self).turn_stats.lands_played == old(self).turn_stats.lands_played
                        + one_land(card)
                    &&& final(self).turn_stats.cards_played == old(self).turn_stats.cards_played
                        + 1 - one_land(card)
                    &&& final(self).land_limit == old(self).land_limit + limit_on_entry(
                        card.data.all_abilities(),
                    )
                    &&& final(self).mana_pool@ == old(self).pool_with(card)
                    &&& old(self).pays_for(card)
                    &&& card.data.mana_cost matches Some(cost) ==> final(self).mana_pool@.covers(
                        final(self).mana_spent@,
                    ) && final(self).mana_spent@ == old(self).mana_spent@.merged(cost@)
                    &&& card.data.mana_cost is None ==> final(self).mana_spent
                        == old(self).mana_spent
                    &&& final(self).turn_stats.lands_cheated
                        >= old(self).turn_stats.lands_cheated
                    &&& final(self).turn_stats.lands_cheated
                        <= old(self).turn_stats.lands_cheated + lands_on_entry(
                        card.data.all_abilities(),
                    )
                    &&& final(self).turn_stats.cards_drawn >= old(self).turn_stats.cards_drawn
                    &&& final(self).turn_stats.cards_drawn <= old(self).turn_stats.cards_drawn
                        + draws_on_entry(card.data.all_abilities())
                    &&& final(game).library.cards@.len() + cards_on_entry(
                        card.data.all_abilities(),
                    ) >= old(game).library.cards@.len()
                    &&& final(self).cards_in_mana_pool@ == counted_on_entry(
                        old(self).cards_in_mana_pool@,
                        card.id,
                        card.data.all_abilities(),
                        card.data.is_permanent(),
                        entered(card).tapped,
                    )
                    &&& quiet_on_entry(card.data.all_abilities()) ==> {
                        &&& final(game).library == old(game).library
                        &&& final(game).hand == old(game).hand
                        &&& final(self).turn_stats.lands_cheated
                            == old(self).turn_stats.lands_cheated
                        &&& final(self).turn_stats.cards_drawn == old(self).turn_stats.cards_drawn
                        &&& if card.data.is_permanent() {
                            final(game).battlefield.cards@ == old(game).battlefield.cards@.push(
                                entered(card),
                            )
                        } else {
                            final(game).battlefield == old(game).battlefield
                        }
                    }
                },
                Err(fault) => {
                    &&& fault == Fault::TooMany ==> !old(self).has_room_for(card)
                    &&& fault == Fault::LibraryEmpty ==> old(game).library.cards@.len()
                        < cards_on_entry(card.data.all_abilities())
                    &&& fault == Fault::CannotPay ==> !old(self).pays_for(card)
                    &&& fault == Fault::TooMany || fault == Fault::LibraryEmpty || fault
                        == Fault::CannotPay
                },
            },
            old(self).fault_of_playing(*old(game), card) is None ==> r is Ok,
            old(self).fault_of_playing(*old(game), card) == Some(Fault::CannotPay) ==> r == Err::<
                (),
                Fault,
            >(Fault::CannotPay),
    {
        let mut entering = card;
        let ghost given = card;
        if entering.data.enters_tapped {
            entering.tapped = true;
        }
        if entering.is_type(Types::Land) {
            self.lands_played = match raised(self.lands_played, 1) {
                Ok(count) => count,
                Err(fault) => {
                    return Err(fault);
                },
            };
            self.turn_stats.lands_played = match raised(self.turn_stats.lands_played, 1) {
                Ok(count) => count,
                Err(fault) => {
                    return Err(fault);
                },
            };
        } else {
            self.turn_stats.cards_played = match raised(self.turn_stats.cards_played, 1) {
                Ok(count) => count,
                Err(fault) => {
                    return Err(fault);
                },
            };
        }
        let permanent = !(entering.is_type(Types::Instant) || entering.is_type(Types::Sorcery));

        let count = entering.data.ability_count();
        let mut i: usize = 0;
        proof {
            lemma_replenished_same(*game);
            assert(entering.data.all_abilities().take(0) =~= Seq::<Ability>::empty());
        }
        while i < count
            invariant
                i <= count == entering.data.all_abilities().len(),
                entering.data.wf(),
                entering == entered(given),
                given == card,
                self.wf(),
                old(game).wf(),
                old(game).card_count() < MAX_COUNTED_CARDS,
                replenished(*old(game), *game),
                self.turn_number == old(self).turn_number,
                self.turn_stats.turn_number == old(self).turn_stats.turn_number,
                self.lands_played == old(self).lands_played + one_land(given),
                self.turn_stats.lands_played == old(self).turn_stats.lands_played + one_land(given),
                self.turn_stats.cards_played == old(self).turn_stats.cards_played + 1 - one_land(
                    given,
                ),
                permanent == given.data.is_permanent(),
                self.land_limit == old(self).land_limit + limit_on_entry(
                    entering.data.all_abilities().take(i as int),
                ),
                self.mana_pool@ == mana_on_entry(
                    old(self).mana_pool@,
                    entering.data.all_abilities().take(i as int),
                    permanent,
                    entering.tapped,
                ),
                self.mana_spent == old(self).mana_spent,
                self.cards_in_mana_pool@ == counted_on_entry(
                    old(self).cards_in_mana_pool@,
                    card.id,
                    entering.data.all_abilities().take(i as int),
                    permanent,
                    entering.tapped,
                ),
                quiet_on_entry(card.data.all_abilities()) ==> *game == *old(game)
                    && self.turn_stats.lands_cheated == old(self).turn_stats.lands_cheated
                    && self.turn_stats.cards_drawn == old(self).turn_stats.cards_drawn,
                old(self).turn_stats.lands_cheated <= self.turn_stats.lands_cheated
                    <= old(self).turn_stats.lands_cheated + lands_on_entry(
                    entering.data.all_abilities().take(i as int),
                ),
                old(self).turn_stats.cards_drawn <= self.turn_stats.cards_drawn
                    <= old(self).turn_stats.cards_drawn + draws_on_entry(
                    entering.data.all_abilities().take(i as int),
                ),
                game.library.cards@.len() + cards_on_entry(
                    entering.data.all_abilities().take(i as int),
                ) >= old(game).library.cards@.len(),
            decreases count - i,
        {
            let ability = entering.data.ability(i);
            assert(ability.wf());
            let ghost before = *game;
            proof {
                let all = entering.data.all_abilities();
                assert(all.take(i + 1).drop_last() == all.take(i as int));
                assert(all.take(i + 1).last() == *ability);
                lemma_entry_grows(old(self).mana_pool@, all, permanent, entering.tapped, i + 1);
            }
            match &ability.effect {
                Effect::ProduceMana(pool) => {
                    if permanent && ability.trigger.is_activated() && (!ability.cost.is_tap()
                        || !entering.tapped) && !ability.cost.is_mana().is_some() {
                        match self.add_to_mana_pool(&entering, pool) {
                            Ok(_) => {},
                            Err(fault) => {
                                return Err(fault);
                            },
                        }
                    } else if ability.trigger.is_cast() {
                        match self.add_to_mana_pool(&entering, pool) {
                            Ok(_) => {},
                            Err(fault) => {
                                return Err(fault);
                            },
                        }
                    }
                },
                Effect::FetchLand { to_hand: types_to_hand,
                    to_battlefield: types_to_battlefield } => {
                    if ability.trigger.is_cast() && ability.cost.is_none() {
                        match self.fetch_lands(game, types_to_hand, types_to_battlefield, rng) {
                            Ok(_) => {},
                            Err(fault) => {
                                return Err(fault);
                            },
                        }
                    }
                },
                Effect::LandLimit(increase) => {
                    self.land_limit = match raised(self.land_limit, *increase) {
                        Ok(limit) => limit,
                        Err(fault) => {
                            return Err(fault);
                        },
                    };
                },
                Effect::Draw(ratios) => {
                    if ability.trigger.is_cast() && ability.cost.is_none() {
                        match self.draw_cards(game, ratios, rng) {
                            Ok(_) => {},
                            Err(fault) => {
                                proof {
                                    let at = choose|at: int|
                                        0 <= at < ratios@.len() && ((fault == Fault::TooMany
                                            && self.turn_stats.cards_drawn
                                            + #[trigger] ratios@[at] > u32::MAX) || (fault
                                            == Fault::LibraryEmpty && ratios@[at]
                                            > game.library.cards@.len()));
                                    lemma_most(ratios@, at);
                                }
                                return Err(fault);
                            },
                        }
                    }
                },
            }
            proof {
                lemma_replenished_same(before);
                lemma_replenished_again(*old(game), before, *game);
            }
            i += 1;
        }
        proof {
            assert(entering.data.all_abilities().take(i as int) == entering.data.all_abilities());
        }

        match &entering.data.mana_cost {
            Some(mana_cost) => {
                match self.mana_pool.can_also_pay_for(&self.mana_spent, mana_cost) {
                    Some(new_mana_spent) => {
                        self.mana_spent = new_mana_spent;
                    },
                    None => {
                        return Err(Fault::CannotPay);
                    },
                }
            },
            None => {},
        }

        let ghost before = *game;
        if permanent {
            proof {
                lemma_pile_push(game.battlefield.cards@, entering);
            }
            game.battlefield.add(entering);
            proof {
                assert(game.battlefield.cards@.take(old(game).battlefield.cards@.len() as int)
                    == before.battlefield.cards@.take(old(game).battlefield.cards@.len() as int));
            }
        } else {
            proof {
                lemma_pile_push(game.graveyard.cards@, entering);
            }
            game.graveyard.add(entering);
        }
        proof {
            assert(game.all_ids() =~= old(game).all_ids().insert(entering.id));
        }
        Ok(())
    }

    /// Whether paying the cost takes the mana of the card out of the mana
    /// at hand: the mana is counted in it, and the cost gives the card up or
    /// asks for mana.
    pub open spec fn gives_mana_back<'db>(self, card: Card<'db>, cost: Cost) -> bool {
        self.cards_in_mana_pool@.contains(card.id) && (cost.sacrifices() || cost.mana() is Some)
    }

    /// Why the cost of an ability of the card cannot be paid, if it cannot:
    /// mana of the card that should be taken out of the pool is not there;
    /// or what is spent outgrows its counters; or the mana at hand, once
    /// that of the card is taken out, does not pay what is spent.
    pub open spec fn fault_of_paying<'db>(self, card: Card<'db>, cost: Cost) -> Option<Fault> {
        let left = if self.gives_mana_back(card, cost) {
            self.mana_without(card)
        } else {
            Some(self.mana_pool@)
        };
        match left {
            None => Some(Fault::ManaMissing),
            Some(pool) => match cost.mana() {
                Some(asked) => if self.mana_spent@.total() + asked@.total() > u32::MAX {
                    Some(Fault::TooMany)
                } else if !pool.covers(self.mana_spent@.merged(asked@)) {
                    Some(Fault::CannotPay)
                } else {
                    None
                },
                None => None,
            },
        }
    }

    /// Whether paying the cost takes the mana of the card out of the mana
    /// at hand.
    pub fn takes_mana_back<'db>(&self, card: &Card<'db>, cost: &Cost) -> (r: bool)
        ensures
            r == self.gives_mana_back(*card, *cost),
    {
        broadcast use vstd::std_specs::hash::group_hash_axioms;

        self.cards_in_mana_pool.contains(&card.id) && (cost.is_sacrifice()
            || cost.is_mana().is_some())
    }

    /// Pays the cost of an ability of a card that has left the battlefield
    /// for it.
    ///
    /// A cost that taps, taps the card. A cost that gives the card up sends
    /// it to the graveyard, and the mana it made, if it is counted in the
    /// mana at hand, is taken out of it again; otherwise the card goes back
    /// on top of the battlefield. The mana that the cost asks for is added to
    /// what is spent, which the mana at hand must pay.
    pub fn pay_activation_cost<'db>(&mut self, game: &mut Game<'db>, card: Card<'db>,
        cost: &Cost) -> (r:
        Result<(), Fault>)
        requires
            old(self).wf(),
            old(game).wf(),
            old(game).card_count() < MAX_COUNTED_CARDS,
            card.data.wf(),
            cost.wf(),
        ensures
            match r {
                Ok(_) => {
                    &&& final(self).wf()
                    &&& final(game).wf()
                    &&& final(game).library == old(game).library
                    &&& final(game).hand == old(game).hand
                    &&& final(game).command == old(game).command
                    &&& final(game).game_stats == old(game).game_stats
                    &&& final(game).battlefield.name == old(game).battlefield.name
                    &&& final(game).graveyard.name == old(game).graveyard.name
                    &&& final(game).all_ids() == old(game).all_ids().insert(card.id)
                    &&& if cost.sacrifices() {
                        &&& final(game).graveyard.cards@ == old(game).graveyard.cards@.push(
                            used(card, *cost),
                        )
                        &&& final(game).battlefield == old(game).battlefield
                    } else {
                        &&& final(game).battlefield.cards@ == old(game).battlefield.cards@.push(
                            used(card, *cost),
                        )
                        &&& final(game).graveyard == old(game).graveyard
                    }
                    &&& final(self).turn_number == old(self).turn_number
                    &&& final(self).lands_played == old(self).lands_played
                    &&& final(self).land_limit == old(self).land_limit
                    &&& final(self).turn_stats == old(self).turn_stats
                    &&& !old(self).gives_mana_back(card, *cost) ==> final(self).mana_pool
                        == old(self).mana_pool && final(self).cards_in_mana_pool
                            == old(self).cards_in_mana_pool
                    &&& old(self).gives_mana_back(card, *cost) ==> final(self).cards_in_mana_pool@
                        == old(self).cards_in_mana_pool@.remove(card.id) && Some(
                        final(self).mana_pool@,
                    ) == old(self).mana_without(card) && final(self).mana_pool@.total()
                        <= old(self).mana_pool@.total()
                    &&& match cost.mana() {
                        Some(asked) => final(self).mana_spent@ == old(self).mana_spent@.merged(
                            asked@,
                        ) && final(self).mana_pool@.covers(final(self).mana_spent@),
                        None => final(self).mana_spent == old(self).mana_spent,
                    }
                },
                Err(fault) => old(self).fault_of_paying(card, *cost) == Some(fault),
            },
            r is Ok == old(self).fault_of_paying(card, *cost) is None,
    {
        broadcast use vstd::std_specs::hash::group_hash_axioms;

        let mut card = card;
        if cost.is_tap() {
            card.tapped = true;
        }
        if self.takes_mana_back(&card, cost) {
            match card.produced_mana() {
                Some(mana_produced) => {
                    assert(mana_produced.wf()) by {
                        lemma_first_produced_wf(card.data.all_abilities());
                    }
                    if !self.mana_pool.contains_pool(&mana_produced) {
                        return Err(Fault::ManaMissing);
                    }
                    self.mana_pool.remove_exact_pool(&mana_produced);
                    proof {
                        crate::pool::lemma_struck(
                            old(self).mana_pool@.multi,
                            mana_produced@.multi,
                        );
                    }
                },
                None => {},
            }
            self.cards_in_mana_pool.remove(&card.id);
        }
        if cost.is_sacrifice() {
            proof {
                lemma_pile_push(game.graveyard.cards@, card);
            }
            game.graveyard.add(card);
        } else {
            proof {
                lemma_pile_push(game.battlefield.cards@, card);
            }
            game.battlefield.add(card);
        }
        proof {
            assert(game.all_ids() =~= old(game).all_ids().insert(card.id));
        }
        match cost.is_mana() {
            Some(mana_cost) => {
                if mana_cost.cmc() > u32::MAX - self.mana_spent.cmc() {
                    return Err(Fault::TooMany);
                }
                self.mana_spent.add_pool(mana_cost);
                if !self.mana_pool.can_pay_for(&self.mana_spent) {
                    return Err(Fault::CannotPay);
                }
            },
            None => {},
        }
        Ok(())
    }
}

/// One for a land, nothing for any other card.
pub open spec fn one_land<'db>(card: Card<'db>) -> int {
    if card.data.types.has(Types::Land) {
        1
    } else {
        0
    }
}

/// The mana of the first ability that adds mana is a pool in order where all
/// the abilities are.
pub proof fn lemma_first_produced_wf(abilities: Seq<Ability>)
    requires
        forall|i: int| 0 <= i < abilities.len() ==> (#[trigger] abilities[i]).wf(),
    ensures
        crate::card::first_produced(abilities) matches Some(pool) ==> pool.wf(),
    decreases abilities.len(),
{
    if abilities.len() > 0 {
        assert(abilities[0].wf());
        match abilities[0].effect {
            Effect::ProduceMana(pool) => {},
            _ => {
                assert forall|i: int| 0 <= i < abilities.drop_first().len() implies (
                #[trigger] abilities.drop_first()[i]).wf() by {
                    assert(abilities[i + 1].wf());
                }
                lemma_first_produced_wf(abilities.drop_first());
            },
        }
    }
}

} // verus!
