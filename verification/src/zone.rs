//! Zones: the ordered piles of cards of a game.

use vstd::prelude::*;
use vstd::string::*;
use vstd::multiset::Multiset;
use rand::rngs::StdRng;
use crate::card::{Card, Types};
use crate::chance::roll_below;
use crate::mana::{one_if, Color, Mana};
use crate::seqs::{first_index, lemma_first_index_is};
use crate::text::{contains_chars, chars_of, holds_text, lowercase_of, to_lowercase};

verus! {

/// An ordered pile of cards with a name: the library, the hand, the
/// battlefield and so on. The last card is the top of the pile.
#[derive(Debug, Clone)]
pub struct Zone<'db> {
    pub name: String,
    pub cards: Vec<Card<'db>>,
}

/// The numbers of the cards, in their order.
pub open spec fn ids<'db>(cards: Seq<Card<'db>>) -> Seq<u32> {
    cards.map_values(|card: Card<'db>| card.id)
}

/// The numbers of the cards, whatever their order.
pub open spec fn id_bag<'db>(cards: Seq<Card<'db>>) -> Multiset<u32> {
    ids(cards).to_multiset()
}

/// How many of the cards are untapped.
pub open spec fn untapped_count<'db>(cards: Seq<Card<'db>>) -> nat
    decreases cards.len(),
{
    if cards.len() == 0 {
        0
    } else {
        untapped_count(cards.drop_last()) + one_if(!cards.last().tapped)
    }
}

/// Whether the pools of every card are pools in order.
pub open spec fn data_ok<'db>(cards: Seq<Card<'db>>) -> bool {
    forall|i: int| 0 <= i < cards.len() ==> (#[trigger] cards[i]).data.wf()
}

/// Whether a card has the number `id`.
pub open spec fn has_id<'db>(id: u32) -> spec_fn(Card<'db>) -> bool {
    |card: Card<'db>| card.id == id
}

/// Whether a card is of the type `t`.
pub open spec fn of_type<'db>(t: Types) -> spec_fn(Card<'db>) -> bool {
    |card: Card<'db>| card.data.types.has(t)
}

/// Whether a card is a land that makes mana of `color` when tapped.
pub open spec fn makes_as_land<'db>(color: Color) -> spec_fn(Card<'db>) -> bool {
    |card: Card<'db>|
        card.data.types.has(Types::Land) && match card.data.produced_mana {
            Some(mana) => mana.has(color),
            None => false,
        }
}

/// Whether the type line of a card holds `words`, whatever the case.
pub open spec fn type_line_holds<'db>(words: Seq<char>) -> spec_fn(Card<'db>) -> bool {
    |card: Card<'db>| holds_text(lowercase_of(card.data.type_string@), lowercase_of(words))
}

/// A pile without cards has no numbers.
pub proof fn lemma_pile_empty<'db>(cards: Seq<Card<'db>>)
    requires
        cards.len() == 0,
    ensures
        id_bag(cards) == Multiset::<u32>::empty(),
        untapped_count(cards) == 0,
{
    assert(ids(cards).len() == 0);
    ids(cards).to_multiset_ensures();
    assert(id_bag(cards) =~= Multiset::<u32>::empty());
}

/// The pile once each place in turn, as far as there are rolls, has changed
/// cards with the place that its roll names.
pub open spec fn exchanged<'db>(cards: Seq<Card<'db>>, rolls: Seq<int>) -> Seq<Card<'db>>
    decreases rolls.len(),
{
    if rolls.len() == 0 {
        cards
    } else {
        let before = exchanged(cards, rolls.drop_last());
        let place = rolls.len() - 1;
        before.update(place, before[rolls.last()]).update(rolls.last(), before[place])
    }
}

/// Whether there is one roll for each place of a pile of the given size,
/// each naming the place itself or a later one.
pub open spec fn rolls_for(rolls: Seq<int>, size: nat) -> bool {
    rolls.len() == size && forall|k: int| 0 <= k < rolls.len() ==> k <= #[trigger] rolls[k] < size
}

/// The numbers from `first` on, `count` of them.
pub open spec fn numbers(first: int, count: nat) -> Multiset<u32>
    decreases count,
{
    if count == 0 {
        Multiset::empty()
    } else {
        numbers(first, (count - 1) as nat).insert((first + count - 1) as u32)
    }
}

/// Cards numbered in their order from `first` on carry the numbers from
/// `first` on.
pub proof fn lemma_numbered<'db>(cards: Seq<Card<'db>>, first: int)
    requires
        forall|i: int| 0 <= i < cards.len() ==> (#[trigger] cards[i]).id == (first + i) as u32,
    ensures
        id_bag(cards) == numbers(first, cards.len()),
    decreases cards.len(),
{
    if cards.len() == 0 {
        lemma_pile_empty(cards);
    } else {
        let front = cards.drop_last();
        assert forall|i: int| 0 <= i < front.len() implies (#[trigger] front[i]).id == (first
            + i) as u32 by {
            assert(cards[i].id == (first + i) as u32);
        }
        lemma_numbered(front, first);
        lemma_pile_push(front, cards.last());
        assert(front.push(cards.last()) == cards);
    }
}

/// So many numbers from `first` on and so many more after them are the
/// numbers from `first` on, as many as both.
pub proof fn lemma_numbers_joined(first: int, count: nat, more: nat)
    ensures
        numbers(first, count).add(numbers(first + count, more)) == numbers(first, count + more),
    decreases more,
{
    if more == 0 {
        assert(numbers(first, count).add(Multiset::<u32>::empty()) =~= numbers(first, count));
    } else {
        lemma_numbers_joined(first, count, (more - 1) as nat);
        assert(numbers(first, count).add(numbers(first + count, more)) =~= numbers(
            first,
            count + more,
        ));
    }
}

/// The numbers and the untapped cards of a pile with one more card on top.
pub proof fn lemma_pile_push<'db>(cards: Seq<Card<'db>>, card: Card<'db>)
    ensures
        id_bag(cards.push(card)) == id_bag(cards).insert(card.id),
        untapped_count(cards.push(card)) == untapped_count(cards) + one_if(!card.tapped),
{
    assert(ids(cards.push(card)) == ids(cards).push(card.id));
    vstd::seq_lib::to_multiset_build(ids(cards), card.id);
    assert(cards.push(card).drop_last() == cards);
}

/// The numbers and the untapped cards of a pile with one card taken out.
pub proof fn lemma_pile_remove<'db>(cards: Seq<Card<'db>>, at: int)
    requires
        0 <= at < cards.len(),
    ensures
        id_bag(cards.remove(at)) == id_bag(cards).remove(cards[at].id),
        id_bag(cards).count(cards[at].id) > 0,
        untapped_count(cards.remove(at)) + one_if(!cards[at].tapped) == untapped_count(cards),
    decreases cards.len(),
{
    assert(ids(cards.remove(at)) == ids(cards).remove(at));
    vstd::seq_lib::to_multiset_remove(ids(cards), at);
    ids(cards).to_multiset_ensures();
    assert(ids(cards)[at] == cards[at].id);
    if at == cards.len() - 1 {
        assert(cards.remove(at) == cards.drop_last());
    } else {
        lemma_pile_remove(cards.drop_last(), at);
        assert(cards.remove(at).drop_last() == cards.drop_last().remove(at));
    }
}

/// The numbers and the untapped cards of a pile with one card put in the
/// place of another.
pub proof fn lemma_pile_update<'db>(cards: Seq<Card<'db>>, at: int, card: Card<'db>)
    requires
        0 <= at < cards.len(),
    ensures
        id_bag(cards.update(at, card)) == id_bag(cards).insert(card.id).remove(cards[at].id),
        untapped_count(cards.update(at, card)) + one_if(!cards[at].tapped) == untapped_count(cards)
            + one_if(!card.tapped),
    decreases cards.len(),
{
    assert(ids(cards.update(at, card)) == ids(cards).update(at, card.id));
    vstd::seq_lib::to_multiset_update(ids(cards), at, card.id);
    if at == cards.len() - 1 {
        assert(cards.update(at, card).drop_last() == cards.drop_last());
    } else {
        lemma_pile_update(cards.drop_last(), at, card);
        assert(cards.update(at, card).drop_last() == cards.drop_last().update(at, card));
    }
}

/// Two cards of a pile changing places leave the cards, their numbers and
/// the number of untapped cards as they were.
pub proof fn lemma_pile_swap<'db>(cards: Seq<Card<'db>>, i: int, j: int)
    requires
        0 <= i < cards.len(),
        0 <= j < cards.len(),
    ensures
        cards.update(i, cards[j]).update(j, cards[i]).to_multiset() == cards.to_multiset(),
        id_bag(cards.update(i, cards[j]).update(j, cards[i])) == id_bag(cards),
        untapped_count(cards.update(i, cards[j]).update(j, cards[i])) == untapped_count(cards),
{
    let half = cards.update(i, cards[j]);
    lemma_pile_update(cards, i, cards[j]);
    lemma_pile_update(half, j, cards[i]);
    vstd::seq_lib::to_multiset_update(cards, i, cards[j]);
    vstd::seq_lib::to_multiset_update(half, j, cards[i]);
    lemma_pile_remove(cards, i);
    lemma_pile_remove(cards, j);
    cards.to_multiset_ensures();
    assert(cards.to_multiset().count(cards[i]) > 0);
    assert(cards.to_multiset().count(cards[j]) > 0);
    assert(half.update(j, cards[i]).to_multiset() =~= cards.to_multiset());
    assert(id_bag(half.update(j, cards[i])) =~= id_bag(cards));
}

impl<'db> Zone<'db> {
    /// An empty pile of the given name.
    pub fn new(name: &str) -> (r: Self)
        ensures
            r.name@ == name@,
            r.cards@.len() == 0,
    {
        Zone { name: String::from_str(name), cards: Vec::new() }
    }

    /// The number of cards in the pile.
    pub fn size(&self) -> (r: u32)
        requires
            self.cards@.len() <= u32::MAX,
        ensures
            r == self.cards@.len(),
    {
        self.cards.len() as u32
    }

    /// Takes every card out of the pile.
    pub fn clear(&mut self)
        ensures
            final(self).cards@.len() == 0,
            final(self).name == old(self).name,
    {
        self.cards.clear();
    }

    /// Whether a card with the number of `card` is in the pile.
    pub fn contains(&self, card: &Card<'db>) -> (r: bool)
        ensures
            r == (first_index(self.cards@, has_id(card.id)) < self.cards@.len()),
    {
        self.position(card.id) < self.cards.len()
    }

    /// Where the first card with the number `id` lies; the size of the pile
    /// if none has it.
    pub fn position(&self, id: u32) -> (r: usize)
        ensures
            r == first_index(self.cards@, has_id(id)),
            r <= self.cards@.len(),
    {
        let mut i: usize = 0;
        while i < self.cards.len() && self.cards[i].id != id
            invariant
                i <= self.cards@.len(),
                forall|j: int| 0 <= j < i ==> !has_id(id)(#[trigger] self.cards@[j]),
            decreases self.cards@.len() - i,
        {
            i += 1;
        }
        proof {
            lemma_first_index_is(self.cards@, has_id(id), i as int);
        }
        i
    }

    /// Numbers the cards from `first_id` on, in their order, and gives back
    /// the number after the last.
    pub fn assign_ids(&mut self, first_id: u32) -> (r: u32)
        requires
            first_id + old(self).cards@.len() <= u32::MAX,
        ensures
            r == first_id + old(self).cards@.len(),
            final(self).name == old(self).name,
            final(self).cards@.len() == old(self).cards@.len(),
            forall|i: int|
                0 <= i < old(self).cards@.len() ==> #[trigger] final(self).cards@[i] == (Card {
                    id: (first_id + i) as u32,
                    ..old(self).cards@[i]
                }),
    {
        let mut id = first_id;
        let mut i: usize = 0;
        let n = self.cards.len();
        while i < n
            invariant
                i <= n == self.cards@.len() == old(self).cards@.len(),
                first_id + n <= u32::MAX,
                id == first_id + i,
                self.name == old(self).name,
                forall|j: int|
                    0 <= j < i ==> #[trigger] self.cards@[j] == (Card {
                        id: (first_id + j) as u32,
                        ..old(self).cards@[j]
                    }),
                forall|j: int| i <= j < n ==> #[trigger] self.cards@[j] == old(self).cards@[j],
            decreases n - i,
        {
            let mut card = self.cards[i];
            card.id = id;
            self.cards.set(i, card);
            id += 1;
            i += 1;
        }
        id
    }

    /// Puts a card on top of the pile.
    pub fn add(&mut self, card: Card<'db>)
        ensures
            final(self).cards@ == old(self).cards@.push(card),
            final(self).name == old(self).name,
    {
        self.cards.push(card);
    }

    /// Shuffles the pile: each place in turn, from the first on, changes
    /// cards with a place drawn at random among itself and the later ones,
    /// so that every order of the cards comes from one run of rolls.
    pub fn shuffle(&mut self, rng: &mut StdRng)
        ensures
            exists|rolls: Seq<int>|
                rolls_for(rolls, old(self).cards@.len()) && final(self).cards@
                    == #[trigger] exchanged(old(self).cards@, rolls),
            final(self).name == old(self).name,
            final(self).cards@.len() == old(self).cards@.len(),
            final(self).cards@.to_multiset() == old(self).cards@.to_multiset(),
            id_bag(final(self).cards@) == id_bag(old(self).cards@),
            untapped_count(final(self).cards@) == untapped_count(old(self).cards@),
            data_ok(old(self).cards@) ==> data_ok(final(self).cards@),
    {
        let n = self.cards.len();
        let mut i: usize = 0;
        let ghost mut rolls: Seq<int> = Seq::empty();
        while i < n
            invariant
                i <= n == self.cards@.len() == old(self).cards@.len(),
                self.name == old(self).name,
                rolls.len() == i,
                forall|k: int| 0 <= k < rolls.len() ==> k <= #[trigger] rolls[k] < n,
                self.cards@ == exchanged(old(self).cards@, rolls),
                self.cards@.to_multiset() == old(self).cards@.to_multiset(),
                id_bag(self.cards@) == id_bag(old(self).cards@),
                untapped_count(self.cards@) == untapped_count(old(self).cards@),
                data_ok(old(self).cards@) ==> data_ok(self.cards@),
            decreases n - i,
        {
            let pos = i + roll_below(rng, n - i);
            self.swap(i, pos);
            proof {
                let longer = rolls.push(pos as int);
                assert(longer.drop_last() == rolls);
                rolls = longer;
            }
            i += 1;
        }
        proof {
            assert(rolls_for(rolls, old(self).cards@.len()));
        }
    }

    /// Lets the cards at two places change places.
    pub fn swap(&mut self, i: usize, j: usize)
        requires
            i < old(self).cards@.len(),
            j < old(self).cards@.len(),
        ensures
            final(self).name == old(self).name,
            final(self).cards@ == old(self).cards@.update(i as int,
                old(self).cards@[j as int]).update(
                j as int,
                old(self).cards@[i as int],
            ),
            final(self).cards@.to_multiset() == old(self).cards@.to_multiset(),
            id_bag(final(self).cards@) == id_bag(old(self).cards@),
            untapped_count(final(self).cards@) == untapped_count(old(self).cards@),
            data_ok(old(self).cards@) ==> data_ok(final(self).cards@),
    {
        proof {
            lemma_pile_swap(self.cards@, i as int, j as int);
        }
        let a = self.cards[i];
        let b = self.cards[j];
        self.cards.set(i, b);
        self.cards.set(j, a);
    }

    /// Untaps every card of the pile.
    pub fn untap_all(&mut self)
        ensures
            final(self).name == old(self).name,
            final(self).cards@.len() == old(self).cards@.len(),
            forall|i: int|
                0 <= i < old(self).cards@.len() ==> #[trigger] final(self).cards@[i] == (Card {
                    tapped: false,
                    ..old(self).cards@[i]
                }),
            ids(final(self).cards@) == ids(old(self).cards@),
    {
        let n = self.cards.len();
        let mut i: usize = 0;
        while i < n
            invariant
                i <= n == self.cards@.len() == old(self).cards@.len(),
                self.name == old(self).name,
                forall|j: int|
                    0 <= j < i ==> #[trigger] self.cards@[j] == (Card {
                        tapped: false,
                        ..old(self).cards@[j]
                    }),
                forall|j: int| i <= j < n ==> #[trigger] self.cards@[j] == old(self).cards@[j],
            decreases n - i,
        {
            let mut card = self.cards[i];
            card.tapped = false;
            self.cards.set(i, card);
            i += 1;
        }
        proof {
            assert(ids(self.cards@) =~= ids(old(self).cards@));
        }
    }

    /// Takes the top card off the pile, if there is one.
    pub fn draw(&mut self) -> (r: Option<Card<'db>>)
        ensures
            final(self).name == old(self).name,
            old(self).cards@.len() == 0 ==> r is None && final(self).cards@ == old(self).cards@,
            old(self).cards@.len() > 0 ==> r == Some(old(self).cards@.last()) && final(self).cards@
                == old(self).cards@.drop_last(),
    {
        self.cards.pop()
    }

    /// Takes the first card with the number `id` out of the pile, if there
    /// is one; the other cards keep their order.
    pub fn take(&mut self, id: u32) -> (r: Option<Card<'db>>)
        ensures
            final(self).name == old(self).name,
            match r {
                Some(card) => {
                    let at = first_index(old(self).cards@, has_id(id));
                    at < old(self).cards@.len() && card == old(self).cards@[at] && card.id == id
                        && final(self).cards@ == old(self).cards@.remove(at)
                },
                None => first_index(old(self).cards@, has_id(id)) == old(self).cards@.len()
                    && *final(self) == *old(self),
            },
    {
        let at = self.position(id);
        if at < self.cards.len() {
            proof {
                crate::seqs::lemma_first_index(self.cards@, has_id(id));
            }
            Some(self.cards.remove(at))
        } else {
            None
        }
    }

    /// Takes the card at the place `at` out of the pile; the other cards
    /// keep their order.
    pub fn take_at(&mut self, at: usize) -> (r: Card<'db>)
        requires
            at < old(self).cards@.len(),
        ensures
            final(self).name == old(self).name,
            r == old(self).cards@[at as int],
            final(self).cards@ == old(self).cards@.remove(at as int),
    {
        self.cards.remove(at)
    }

    /// A copy of the pile.
    pub fn duplicate(&self) -> (r: Zone<'db>)
        ensures
            r.name@ == self.name@,
            r.cards@ == self.cards@,
    {
        let mut cards: Vec<Card<'db>> = Vec::new();
        let mut i: usize = 0;
        while i < self.cards.len()
            invariant
                i <= self.cards@.len(),
                cards@ == self.cards@.take(i as int),
            decreases self.cards@.len() - i,
        {
            cards.push(self.cards[i]);
            proof {
                assert(self.cards@.take(i + 1) == self.cards@.take(i as int).push(
                    self.cards@[i as int],
                ));
            }
            i += 1;
        }
        proof {
            assert(self.cards@.take(i as int) == self.cards@);
        }
        Zone { name: self.name.clone(), cards }
    }

    /// The cards of the type `card_type`, in their order; the pile stays as
    /// it is.
    pub fn query(&self, card_type: Types) -> (r: Vec<Card<'db>>)
        ensures
            r@ == self.cards@.filter(of_type(card_type)),
    {
        let mut found: Vec<Card<'db>> = Vec::new();
        let mut i: usize = 0;
        proof {
            reveal(Seq::filter);
            assert(self.cards@.take(0) == Seq::<Card<'db>>::empty());
        }
        while i < self.cards.len()
            invariant
                i <= self.cards@.len(),
                found@ == self.cards@.take(i as int).filter(of_type(card_type)),
            decreases self.cards@.len() - i,
        {
            proof {
                reveal(Seq::filter);
                assert(self.cards@.take(i + 1).drop_last() == self.cards@.take(i as int));
            }
            if self.cards[i].is_type(card_type) {
                found.push(self.cards[i]);
            }
            i += 1;
        }
        proof {
            assert(self.cards@.take(i as int) == self.cards@);
        }
        found
    }

    /// The colors of which the lands of the pile make mana when tapped.
    pub fn find_produced_colors(&self) -> (r: Mana)
        ensures
            r.valid(),
            forall|color: Color| #[trigger]
                r.has(color) == exists|i: int|
                    0 <= i < self.cards@.len() && makes_as_land(color)(#[trigger] self.cards@[i]),
    {
        let mut colors_in_zone = Mana::new();
        let mut i: usize = 0;
        while i < self.cards.len()
            invariant
                i <= self.cards@.len(),
                colors_in_zone.valid(),
                forall|color: Color| #[trigger]
                    colors_in_zone.has(color) == exists|k: int|
                        0 <= k < i && makes_as_land(color)(#[trigger] self.cards@[k]),
            decreases self.cards@.len() - i,
        {
            let ghost before = colors_in_zone;
            if self.cards[i].is_type(Types::Land) {
                match &self.cards[i].data.produced_mana {
                    Some(colors) => colors_in_zone.unite(colors),
                    None => {},
                }
            }
            proof {
                assert forall|color: Color| #[trigger]
                    colors_in_zone.has(color) == exists|k: int|
                        0 <= k < i + 1 && makes_as_land(color)(#[trigger] self.cards@[k]) by {
                    if colors_in_zone.has(color) {
                        if before.has(color) {
                            let k = choose|k: int|
                                0 <= k < i && makes_as_land(color)(#[trigger] self.cards@[k]);
                            assert(makes_as_land(color)(self.cards@[k]));
                        } else {
                            assert(makes_as_land(color)(self.cards@[i as int]));
                        }
                    }
                    if exists|k: int|
                        0 <= k < i + 1 && makes_as_land(color)(#[trigger] self.cards@[k]) {
                        let k = choose|k: int|
                            0 <= k < i + 1 && makes_as_land(color)(#[trigger] self.cards@[k]);
                        if k < i {
                            assert(before.has(color));
                        }
                    }
                }
            }
            i += 1;
        }
        colors_in_zone
    }

    /// Takes out of the pile the first card whose type line holds
    /// `type_string`, whatever the case, if there is one.
    pub fn take_land(&mut self, type_string: &str) -> (r: Option<Card<'db>>)
        ensures
            final(self).name == old(self).name,
            match r {
                Some(card) => {
                    let at = first_index(old(self).cards@, type_line_holds(type_string@));
                    at < old(self).cards@.len() && card == old(self).cards@[at]
                        && final(self).cards@ == old(self).cards@.remove(at)
                },
                None => first_index(old(self).cards@, type_line_holds(type_string@))
                    == old(self).cards@.len() && *final(self) == *old(self),
            },
    {
        let lower = to_lowercase(type_string);
        let wanted = chars_of(lower.as_str());
        let mut i: usize = 0;
        while i < self.cards.len()
            invariant
                i <= self.cards@.len(),
                *self == *old(self),
                wanted@ == lowercase_of(type_string@),
                forall|j: int|
                    0 <= j < i ==> !type_line_holds(type_string@)(#[trigger] self.cards@[j]),
            decreases self.cards@.len() - i,
        {
            let line = to_lowercase(self.cards[i].data.type_string.as_str());
            if contains_chars(&chars_of(line.as_str()), &wanted) {
                proof {
                    lemma_first_index_is(self.cards@, type_line_holds(type_string@), i as int);
                }
                return Some(self.cards.remove(i));
            }
            i += 1;
        }
        proof {
            lemma_first_index_is(self.cards@, type_line_holds(type_string@), i as int);
        }
        None
    }
}

} // verus!
