//! Putting cards in order: a stable sort by a rank.

use vstd::prelude::*;
use crate::card::Card;
use crate::seqs::{first_index, lemma_first_index, lemma_first_index_is};
use crate::zone::{id_bag, ids, Zone};

verus! {

/// What cards are put in order by.
#[derive(Debug, Clone, Copy, PartialEq, Eq, Structural)]
pub enum SortKey {
    /// The more colors a card makes mana of, the earlier it comes.
    ColorsMade,
    /// The less a card costs, the earlier it comes.
    Cost,
}

/// The rank of a card under a key: a card of lower rank comes first.
pub open spec fn rank<'db>(card: Card<'db>, key: SortKey) -> int {
    match key {
        SortKey::ColorsMade => 5 - card.data.colors_made(),
        SortKey::Cost => card.data.cmc as int,
    }
}

/// Whether a card ranks above `card`.
pub open spec fn ranks_above<'db>(card: Card<'db>, key: SortKey) -> spec_fn(Card<'db>) -> bool {
    |other: Card<'db>| rank(other, key) > rank(card, key)
}

/// `sorted` with `card` put in before the first card that ranks above it.
pub open spec fn put_in<'db>(sorted: Seq<Card<'db>>, card: Card<'db>, key: SortKey) -> Seq<
    Card<'db>,
> {
    sorted.insert(first_index(sorted, ranks_above(card, key)), card)
}

/// The cards in the order of their rank, cards of one rank in the order in
/// which they stood.
pub open spec fn sorted_by<'db>(cards: Seq<Card<'db>>, key: SortKey) -> Seq<Card<'db>>
    decreases cards.len(),
{
    if cards.len() == 0 {
        cards
    } else {
        put_in(sorted_by(cards.drop_last(), key), cards.last(), key)
    }
}

/// Whether no card stands before one of lower rank.
pub open spec fn in_order<'db>(cards: Seq<Card<'db>>, key: SortKey) -> bool {
    forall|a: int, b: int| 0 <= a < b < cards.len() ==> rank(cards[a], key) <= rank(cards[b], key)
}

/// Putting a card into cards in order leaves them in order, with that card
/// among them.
pub proof fn lemma_put_in<'db>(sorted: Seq<Card<'db>>, card: Card<'db>, key: SortKey)
    requires
        in_order(sorted, key),
    ensures
        in_order(put_in(sorted, card, key), key),
        put_in(sorted, card, key).len() == sorted.len() + 1,
        put_in(sorted, card, key).to_multiset() == sorted.to_multiset().insert(card),
        id_bag(put_in(sorted, card, key)) == id_bag(sorted).insert(card.id),
{
    let at = first_index(sorted, ranks_above(card, key));
    lemma_first_index(sorted, ranks_above(card, key));
    let result = put_in(sorted, card, key);
    vstd::seq_lib::to_multiset_insert(sorted, at, card);
    assert(ids(result) == ids(sorted).insert(at, card.id));
    vstd::seq_lib::to_multiset_insert(ids(sorted), at, card.id);
    assert forall|a: int, b: int| 0 <= a < b < result.len() implies rank(result[a], key) <= rank(
        result[b],
        key,
    ) by {
        if a < at {
            assert(!ranks_above(card, key)(sorted[a]));
        }
        if at < sorted.len() {
            assert(ranks_above(card, key)(sorted[at]));
        }
        if b > at {
            assert(rank(sorted[at], key) <= rank(sorted[b - 1], key) || b - 1 == at);
        }
    }
}

/// Cards put in order are in order, and are the cards that were there.
pub proof fn lemma_sorted_by<'db>(cards: Seq<Card<'db>>, key: SortKey)
    ensures
        in_order(sorted_by(cards, key), key),
        sorted_by(cards, key).len() == cards.len(),
        sorted_by(cards, key).to_multiset() == cards.to_multiset(),
        id_bag(sorted_by(cards, key)) == id_bag(cards),
    decreases cards.len(),
{
    if cards.len() > 0 {
        let front = cards.drop_last();
        lemma_sorted_by(front, key);
        lemma_put_in(sorted_by(front, key), cards.last(), key);
        assert(cards == front.push(cards.last()));
        vstd::seq_lib::to_multiset_build(front, cards.last());
        assert(ids(cards) == ids(front).push(cards.last().id));
        vstd::seq_lib::to_multiset_build(ids(front), cards.last().id);
    }
}

/// The rank of a card under a key.
pub fn rank_of<'db>(card: &Card<'db>, key: SortKey) -> (r: u32)
    ensures
        r == rank(*card, key),
{
    match key {
        SortKey::ColorsMade => 5 - card.data.produced_color_count(),
        SortKey::Cost => card.data.cmc,
    }
}

/// Puts the cards in the order of their rank; cards of one rank keep the
/// order in which they stood.
pub fn sort_cards<'db>(cards: &mut Vec<Card<'db>>, key: SortKey)
    ensures
        final(cards)@ == sorted_by(old(cards)@, key),
        in_order(final(cards)@, key),
        final(cards)@.len() == old(cards)@.len(),
        final(cards)@.to_multiset() == old(cards)@.to_multiset(),
        id_bag(final(cards)@) == id_bag(old(cards)@),
{
    let mut sorted: Vec<Card<'db>> = Vec::new();
    let mut i: usize = 0;
    proof {
        assert(cards@.take(0) == Seq::<Card<'db>>::empty());
    }
    while i < cards.len()
        invariant
            i <= cards@.len(),
            cards@ == old(cards)@,
            sorted@ == sorted_by(cards@.take(i as int), key),
        decreases cards@.len() - i,
    {
        let card = cards[i];
        let mine = rank_of(&card, key);
        let mut at: usize = 0;
        proof {
            lemma_sorted_by(cards@.take(i as int), key);
        }
        while at < sorted.len() && rank_of(&sorted[at], key) <= mine
            invariant
                at <= sorted@.len(),
                mine == rank(card, key),
                forall|j: int| 0 <= j < at ==> !ranks_above(card, key)(#[trigger] sorted@[j]),
            decreases sorted@.len() - at,
        {
            at += 1;
        }
        proof {
            lemma_first_index_is(sorted@, ranks_above(card, key), at as int);
            assert(cards@.take(i + 1).drop_last() == cards@.take(i as int));
        }
        sorted.insert(at, card);
        i += 1;
    }
    proof {
        assert(cards@.take(i as int) == cards@);
        lemma_sorted_by(cards@, key);
    }
    *cards = sorted;
}

/// Puts the cards that make mana of more colors first; cards that make mana
/// of as many colors keep the order in which they stood.
pub fn sort_cards_on_colors_produced<'db>(cards: &mut Vec<Card<'db>>)
    ensures
        final(cards)@ == sorted_by(old(cards)@, SortKey::ColorsMade),
        in_order(final(cards)@, SortKey::ColorsMade),
        final(cards)@.to_multiset() == old(cards)@.to_multiset(),
{
    sort_cards(cards, SortKey::ColorsMade);
}

impl<'db> Zone<'db> {
    /// Puts the cheaper cards of the pile first; cards of one cost keep the
    /// order in which they lay.
    pub fn sort_by_cmc(&mut self)
        ensures
            final(self).name == old(self).name,
            final(self).cards@ == sorted_by(old(self).cards@, SortKey::Cost),
            in_order(final(self).cards@, SortKey::Cost),
            final(self).cards@.len() == old(self).cards@.len(),
            final(self).cards@.to_multiset() == old(self).cards@.to_multiset(),
            id_bag(final(self).cards@) == id_bag(old(self).cards@),
    {
        sort_cards(&mut self.cards, SortKey::Cost);
    }
}

} // verus!
