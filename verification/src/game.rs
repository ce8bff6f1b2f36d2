//! A game: its five piles of cards and what is recorded of it.

use vstd::prelude::*;
use vstd::multiset::Multiset;
use crate::card::{Card, CardData};
use crate::pips::MAX_COUNTED_CARDS;
use crate::zone::{data_ok, id_bag, lemma_pile_empty, lemma_pile_push, untapped_count, Zone};

verus! {

/// When a starting hand is given back for another.
#[derive(Debug, Clone, Copy, PartialEq, Eq, Structural)]
pub enum MulliganType {
    /// Never: the first hand is kept.
    Keep,
    /// As long as the hand holds fewer than three lands.
    ThreeLands,
}

/// How a game is to be played.
#[derive(Debug, Clone, Copy)]
pub struct Settings {
    pub draw_card_on_turn_one: bool,
    pub turn_count: u32,
    pub mulligan: MulliganType,
}

/// What is recorded of one turn.
#[derive(Debug, Clone, Copy, PartialEq, Eq, Structural)]
pub struct TurnStats {
    pub turn_number: u32,
    pub lands_played: u32,
    pub lands_cheated: u32,
    pub cards_drawn: u32,
    pub cards_played: u32,
    pub cards_in_hand: u32,
    pub mana_available: u32,
    pub mana_spent: u32,
}

/// What is recorded of one game.
#[derive(Debug, Clone)]
pub struct GameStats {
    pub mulligan_count: u32,
    /// The turn in which the commander was played; zero while it was not.
    pub turn_commander_played: u32,
    pub turns_stats: Vec<TurnStats>,
}

/// Why a game cannot go on: what is found wrong is a mistake in the cards or
/// in the bookkeeping of the turn, not a state of play.
#[derive(Debug, Clone, Copy, PartialEq, Eq, Structural)]
pub enum Fault {
    /// A card was to be drawn from an empty library.
    LibraryEmpty,
    /// A card was played whose cost the mana of the turn does not pay.
    CannotPay,
    /// Mana was to be taken out of the pool that is not there.
    ManaMissing,
    /// A count outgrew its counter.
    TooMany,
    /// The commander has no mana cost.
    CommanderWithoutCost,
}

/// A game in progress.
#[derive(Debug, Clone)]
pub struct Game<'db> {
    pub library: Zone<'db>,
    pub hand: Zone<'db>,
    pub command: Zone<'db>,
    pub battlefield: Zone<'db>,
    pub graveyard: Zone<'db>,
    pub game_stats: GameStats,
}

/// The cards that `count` draws take off the top of a pile, in the order in
/// which they are drawn.
pub open spec fn drawn<'db>(library: Seq<Card<'db>>, count: int) -> Seq<Card<'db>>
    recommends
        0 <= count <= library.len(),
    decreases count,
{
    if count <= 0 || library.len() == 0 {
        Seq::empty()
    } else {
        seq![library.last()] + drawn(library.drop_last(), count - 1)
    }
}

/// As many cards are drawn as were asked for, and all of them from the pile.
pub proof fn lemma_drawn<'db>(library: Seq<Card<'db>>, count: int)
    requires
        0 <= count <= library.len(),
    ensures
        drawn(library, count).len() == count,
        data_ok(library) ==> data_ok(drawn(library, count)),
        id_bag(library) == id_bag(library.take(library.len() - count)).add(
            id_bag(drawn(library, count)),
        ),
    decreases count,
{
    if count > 0 {
        let rest = library.drop_last();
        lemma_drawn(rest, count - 1);
        let tail = drawn(rest, count - 1);
        assert(rest.take(rest.len() - (count - 1)) == library.take(library.len() - count));
        lemma_bag_concat(seq![library.last()], tail);
        lemma_pile_push(Seq::empty(), library.last());
        lemma_pile_empty(Seq::<Card<'db>>::empty());
        assert(Seq::<Card<'db>>::empty().push(library.last()) == seq![library.last()]);
        lemma_pile_push(rest, library.last());
        assert(rest.push(library.last()) == library);
        if data_ok(library) {
            assert forall|i: int| 0 <= i < rest.len() implies (#[trigger] rest[i]).data.wf() by {
                assert(library[i].data.wf());
            }
            assert(library[library.len() - 1].data.wf());
        }
        assert(id_bag(library) =~= id_bag(library.take(library.len() - count)).add(
            id_bag(drawn(library, count)),
        ));
    } else {
        assert(library.take(library.len() - count) == library);
        lemma_pile_empty(drawn(library, count));
        assert(id_bag(library) =~= id_bag(library).add(Multiset::empty()));
    }
}

/// The cards drawn and the cards left are the cards of the pile.
pub proof fn lemma_drawn_from<'db>(library: Seq<Card<'db>>, count: int)
    requires
        0 <= count <= library.len(),
    ensures
        library.to_multiset() == library.take(library.len() - count).to_multiset().add(
            drawn(library, count).to_multiset(),
        ),
    decreases count,
{
    if count > 0 {
        let rest = library.drop_last();
        let top = library.last();
        let tail = drawn(rest, count - 1);
        lemma_drawn_from(rest, count - 1);
        assert(rest.take(rest.len() - (count - 1)) == library.take(library.len() - count));
        assert(rest.push(top) == library);
        vstd::seq_lib::to_multiset_build(rest, top);
        vstd::seq_lib::lemma_multiset_commutative(seq![top], tail);
        assert(Seq::<Card<'db>>::empty().push(top) == seq![top]);
        vstd::seq_lib::to_multiset_build(Seq::<Card<'db>>::empty(), top);
        Seq::<Card<'db>>::empty().to_multiset_ensures();
        assert(Seq::<Card<'db>>::empty().to_multiset() =~= Multiset::<Card<'db>>::empty());
        assert(library.to_multiset() =~= library.take(library.len() - count).to_multiset().add(
            drawn(library, count).to_multiset(),
        ));
    } else {
        assert(library.take(library.len() - count) == library);
        drawn(library, count).to_multiset_ensures();
        assert(drawn(library, count).to_multiset() =~= Multiset::<Card<'db>>::empty());
        assert(library.to_multiset() =~= library.to_multiset().add(
            Multiset::<Card<'db>>::empty(),
        ));
    }
}

/// The numbers of two piles laid together are those of the one and those of
/// the other.
pub proof fn lemma_bag_concat<'db>(a: Seq<Card<'db>>, b: Seq<Card<'db>>)
    ensures
        id_bag(a + b) == id_bag(a).add(id_bag(b)),
        untapped_count(a + b) == untapped_count(a) + untapped_count(b),
    decreases b.len(),
{
    if b.len() == 0 {
        assert(a + b == a);
        lemma_pile_empty(b);
        assert(id_bag(a) =~= id_bag(a).add(Multiset::empty()));
    } else {
        lemma_bag_concat(a, b.drop_last());
        assert(a + b == (a + b.drop_last()).push(b.last()));
        lemma_pile_push(a + b.drop_last(), b.last());
        lemma_pile_push(b.drop_last(), b.last());
        assert(b.drop_last().push(b.last()) == b);
        assert(id_bag(a + b) =~= id_bag(a).add(id_bag(b)));
    }
}

impl<'db> Game<'db> {
    /// How many cards the game holds.
    pub open spec fn card_count(self) -> nat {
        self.library.cards@.len() + self.hand.cards@.len() + self.command.cards@.len()
            + self.battlefield.cards@.len() + self.graveyard.cards@.len()
    }

    /// The numbers of the cards of the game, wherever they lie.
    pub open spec fn all_ids(self) -> Multiset<u32> {
        id_bag(self.library.cards@).add(id_bag(self.hand.cards@)).add(
            id_bag(self.command.cards@),
        ).add(id_bag(self.battlefield.cards@)).add(id_bag(self.graveyard.cards@))
    }

    /// The invariant of a game: the pools of its cards are in order, and it
    /// holds no more cards than can be counted.
    pub open spec fn wf(self) -> bool {
        &&& data_ok(self.library.cards@)
        &&& data_ok(self.hand.cards@)
        &&& data_ok(self.command.cards@)
        &&& data_ok(self.battlefield.cards@)
        &&& data_ok(self.graveyard.cards@)
        &&& self.card_count() <= MAX_COUNTED_CARDS
    }

    /// How many cards are yet to be played: those in the library, in the
    /// hand and in the command zone.
    pub open spec fn unsettled(self) -> nat {
        self.library.cards@.len() + self.hand.cards@.len() + self.command.cards@.len()
    }

    /// What stands ready on the battlefield: its cards, the untapped ones
    /// counted twice.
    pub open spec fn standing(self) -> nat {
        self.battlefield.cards@.len() + untapped_count(self.battlefield.cards@)
    }

    /// A game without cards.
    pub fn new() -> (r: Self)
        ensures
            r.wf(),
            r.card_count() == 0,
            r.game_stats.mulligan_count == 0,
            r.game_stats.turn_commander_played == 0,
            r.game_stats.turns_stats@.len() == 0,
    {
        Game {
            library: Zone::new("Library"),
            hand: Zone::new("Hand"),
            command: Zone::new("Command"),
            battlefield: Zone::new("Battlefield"),
            graveyard: Zone::new("Graveyard"),
            game_stats: GameStats {
                mulligan_count: 0,
                turn_commander_played: 0,
                turns_stats: Vec::new(),
            },
        }
    }

    /// Puts copies of a card into the deck: one into the command zone if
    /// the card is the commander, else `count` onto the library. Says
    /// whether that was done: nothing is done for a commander of which
    /// there is not just one copy, nor with more cards than can be counted.
    pub fn add_to_deck(&mut self, data: &'db CardData, count: u32, commander: bool) -> (done: bool)
        requires
            old(self).wf(),
            data.wf(),
        ensures
            final(self).wf(),
            final(self).hand == old(self).hand,
            final(self).battlefield == old(self).battlefield,
            final(self).graveyard == old(self).graveyard,
            final(self).game_stats == old(self).game_stats,
            done == (old(self).card_count() + count <= MAX_COUNTED_CARDS && (commander ==> count
                == 1)),
            !done ==> *final(self) == *old(self),
            done && commander ==> final(self).command.cards@ == old(self).command.cards@.push(
                Card { id: 0, data, tapped: false },
            ) && final(self).library == old(self).library,
            done && !commander ==> final(self).library.cards@ == old(self).library.cards@
                + Seq::new(count as nat, |i: int| Card { id: 0, data, tapped: false })
                && final(self).command == old(self).command,
    {
        if count as usize > MAX_COUNTED_CARDS || self.library.cards.len() > MAX_COUNTED_CARDS
            - count as usize || self.hand.cards.len() > MAX_COUNTED_CARDS - count as usize
            - self.library.cards.len() || self.command.cards.len() > MAX_COUNTED_CARDS
            - count as usize - self.library.cards.len() - self.hand.cards.len()
            || self.battlefield.cards.len() > MAX_COUNTED_CARDS - count as usize
            - self.library.cards.len() - self.hand.cards.len() - self.command.cards.len()
            || self.graveyard.cards.len() > MAX_COUNTED_CARDS - count as usize
            - self.library.cards.len() - self.hand.cards.len() - self.command.cards.len()
            - self.battlefield.cards.len() {
            return false;
        }
        if commander {
            if count != 1 {
                return false;
            }
            self.command.add(Card::new(data));
            return true;
        }
        let mut i: u32 = 0;
        proof {
            assert(self.library.cards@ =~= old(self).library.cards@ + Seq::new(
                0,
                |i: int| Card { id: 0, data, tapped: false },
            ));
        }
        while i < count
            invariant
                i <= count,
                data.wf(),
                data_ok(self.library.cards@),
                self.library.cards@ == old(self).library.cards@ + Seq::new(
                    i as nat,
                    |k: int| Card { id: 0, data, tapped: false },
                ),
                self.library.name == old(self).library.name,
                self.hand == old(self).hand,
                self.command == old(self).command,
                self.battlefield == old(self).battlefield,
                self.graveyard == old(self).graveyard,
                self.game_stats == old(self).game_stats,
            decreases count - i,
        {
            self.library.add(Card::new(data));
            i += 1;
            proof {
                assert(self.library.cards@ =~= old(self).library.cards@ + Seq::new(
                    i as nat,
                    |k: int| Card { id: 0, data, tapped: false },
                ));
            }
        }
        true
    }

    /// Draws `count` cards: each in turn leaves the top of the library for
    /// the hand. Where the library holds fewer cards, none is drawn.
    pub fn draw_cards(&mut self, count: u32) -> (r: Result<(), Fault>)
        requires
            old(self).wf(),
        ensures
            match r {
                Ok(_) => {
                    &&& count <= old(self).library.cards@.len()
                    &&& final(self).library.cards@ == old(self).library.cards@.take(
                        old(self).library.cards@.len() - count,
                    )
                    &&& final(self).hand.cards@ == old(self).hand.cards@ + drawn(
                        old(self).library.cards@,
                        count as int,
                    )
                    &&& final(self).command == old(self).command
                    &&& final(self).battlefield == old(self).battlefield
                    &&& final(self).graveyard == old(self).graveyard
                    &&& final(self).game_stats == old(self).game_stats
                    &&& final(self).library.name == old(self).library.name
                    &&& final(self).hand.name == old(self).hand.name
                    &&& final(self).wf()
                    &&& final(self).all_ids() == old(self).all_ids()
                },
                Err(fault) => fault == Fault::LibraryEmpty && count > old(self).library.cards@.len()
                    && *final(self) == *old(self),
            },
    {
        if count as usize > self.library.cards.len() {
            return Err(Fault::LibraryEmpty);
        }
        let mut i: u32 = 0;
        proof {
            assert(self.library.cards@.take(self.library.cards@.len() - 0) == self.library.cards@);
            assert(self.hand.cards@ + drawn(self.library.cards@, 0) == self.hand.cards@);
        }
        while i < count
            invariant
                i <= count <= old(self).library.cards@.len(),
                self.library.cards@ == old(self).library.cards@.take(
                    old(self).library.cards@.len() - i,
                ),
                self.hand.cards@ == old(self).hand.cards@ + drawn(
                    old(self).library.cards@,
                    i as int,
                ),
                self.command == old(self).command,
                self.battlefield == old(self).battlefield,
                self.graveyard == old(self).graveyard,
                self.game_stats == old(self).game_stats,
                self.library.name == old(self).library.name,
                self.hand.name == old(self).hand.name,
            decreases count - i,
        {
            proof {
                lemma_drawn_more(old(self).library.cards@, i as int);
            }
            match self.library.draw() {
                Some(card) => {
                    self.hand.add(card);
                },
                None => {},
            }
            i += 1;
        }
        proof {
            let library = old(self).library.cards@;
            lemma_drawn(library, count as int);
            lemma_bag_concat(old(self).hand.cards@, drawn(library, count as int));
            assert(self.all_ids() =~= old(self).all_ids());
            assert(data_ok(self.library.cards@));
            assert(data_ok(self.hand.cards@)) by {
                assert forall|k: int| 0 <= k < self.hand.cards@.len() implies (
                #[trigger] self.hand.cards@[k]).data.wf() by {
                    if k < old(self).hand.cards@.len() {
                        assert(old(self).hand.cards@[k].data.wf());
                    } else {
                        assert(drawn(library,
                            count as int)[k - old(self).hand.cards@.len()].data.wf());
                    }
                }
            }
        }
        Ok(())
    }
}

/// One more card drawn is the card under those drawn before.
pub proof fn lemma_drawn_more<'db>(library: Seq<Card<'db>>, count: int)
    requires
        0 <= count < library.len(),
    ensures
        drawn(library, count + 1) == drawn(library, count).push(
            library[library.len() - 1 - count],
        ),
    decreases count,
{
    if count > 0 {
        lemma_drawn_more(library.drop_last(), count - 1);
        assert(drawn(library, count + 1) == seq![library.last()] + drawn(
            library.drop_last(),
            count,
        ));
        assert(drawn(library, count) == seq![library.last()] + drawn(
            library.drop_last(),
            count - 1,
        ));
        assert(drawn(library, count + 1) =~= drawn(library, count).push(
            library[library.len() - 1 - count],
        ));
    } else {
        assert(drawn(library.drop_last(), 0) == Seq::<Card<'db>>::empty());
        assert(drawn(library, 1) =~= drawn(library, 0).push(library[library.len() - 1]));
    }
}

} // verus!
