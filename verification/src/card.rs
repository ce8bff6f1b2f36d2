//! Cards: what a card of a given name is and does, and the single copies of
//! it that move through a game.

use vstd::prelude::*;
use crate::mana::Mana;
use crate::pool::{ManaPool, PoolView};
use crate::text::{chars_of, contains_chars, holds_text, lowercase_of, to_lowercase};

verus! {

/// The types a card can have.
#[derive(Debug, Clone, Copy, PartialEq, Eq, Structural)]
pub enum Types {
    Land,
    Creature,
    Planeswalker,
    Artifact,
    Enchantment,
    Sorcery,
    Instant,
}

impl Types {
    /// The bit that stands for this type in a set of types.
    pub open spec fn bit(self) -> u8 {
        match self {
            Types::Land => 0x01u8,
            Types::Creature => 0x02u8,
            Types::Planeswalker => 0x04u8,
            Types::Artifact => 0x08u8,
            Types::Enchantment => 0x10u8,
            Types::Sorcery => 0x20u8,
            Types::Instant => 0x40u8,
        }
    }

    /// The bit that stands for this type in a set of types.
    pub fn mask(self) -> (r: u8)
        ensures
            r == self.bit(),
    {
        match self {
            Types::Land => 0x01u8,
            Types::Creature => 0x02u8,
            Types::Planeswalker => 0x04u8,
            Types::Artifact => 0x08u8,
            Types::Enchantment => 0x10u8,
            Types::Sorcery => 0x20u8,
            Types::Instant => 0x40u8,
        }
    }

    /// The word by which a type line names this type, in lower case.
    pub open spec fn word(self) -> Seq<char> {
        match self {
            Types::Land => "land"@,
            Types::Creature => "creature"@,
            Types::Planeswalker => "planeswalker"@,
            Types::Artifact => "artifact"@,
            Types::Enchantment => "enchantment"@,
            Types::Sorcery => "sorcery"@,
            Types::Instant => "instant"@,
        }
    }
}

/// A set of card types.
#[derive(Debug, Clone, Copy, PartialEq, Eq, Structural)]
pub struct TypeSet {
    bits: u8,
}

proof fn lemma_type_bits(bits: u8, a: u8, b: u8)
    by (bit_vector)
    requires
        a == 1 || a == 2 || a == 4 || a == 8 || a == 16 || a == 32 || a == 64,
        b == 1 || b == 2 || b == 4 || b == 8 || b == 16 || b == 32 || b == 64,
    ensures
        ((bits | a) & b != 0) == ((bits & b != 0) || a == b),
        0u8 & b == 0,
{
}

impl TypeSet {
    /// Whether `t` is in the set.
    pub closed spec fn has(self, t: Types) -> bool {
        self.bits & t.bit() != 0
    }

    /// The set of no types.
    pub fn empty() -> (r: TypeSet)
        ensures
            forall|t: Types| !(#[trigger] r.has(t)),
    {
        proof {
            assert forall|t: Types| 0u8 & #[trigger] t.bit() == 0 by {
                lemma_type_bits(0u8, 1u8, t.bit());
            }
        }
        TypeSet { bits: 0u8 }
    }

    /// The set with `t` in it as well.
    pub fn with(self, t: Types) -> (r: TypeSet)
        ensures
            forall|other: Types| #[trigger] r.has(other) == (self.has(other) || other == t),
    {
        let r = TypeSet { bits: self.bits | t.mask() };
        proof {
            assert forall|other: Types| #[trigger] r.has(other) == (self.has(other) || other
                == t) by {
                lemma_type_bits(self.bits, t.bit(), other.bit());
            }
        }
        r
    }

    /// Whether `t` is in the set.
    pub fn contains(&self, t: Types) -> (r: bool)
        ensures
            r == self.has(t),
    {
        self.bits & t.mask() != 0
    }
}

/// The types that a type line names: each type whose word stands in the
/// line, whatever the case.
pub fn parse_types(types: &str) -> (r: TypeSet)
    ensures
        forall|t: Types| #[trigger] r.has(t) == holds_text(lowercase_of(types@), t.word()),
{
    let lower_cased = to_lowercase(types);
    let line = chars_of(lower_cased.as_str());
    let mut flags = TypeSet::empty();
    if contains_chars(&line, &chars_of("land")) {
        flags = flags.with(Types::Land);
    }
    if contains_chars(&line, &chars_of("creature")) {
        flags = flags.with(Types::Creature);
    }
    if contains_chars(&line, &chars_of("planeswalker")) {
        flags = flags.with(Types::Planeswalker);
    }
    if contains_chars(&line, &chars_of("artifact")) {
        flags = flags.with(Types::Artifact);
    }
    if contains_chars(&line, &chars_of("enchantment")) {
        flags = flags.with(Types::Enchantment);
    }
    if contains_chars(&line, &chars_of("sorcery")) {
        flags = flags.with(Types::Sorcery);
    }
    if contains_chars(&line, &chars_of("instant")) {
        flags = flags.with(Types::Instant);
    }
    flags
}

/// What an ability does.
#[derive(Debug, PartialEq)]
pub enum Effect {
    /// Adds mana to what is at hand this turn.
    ProduceMana(ManaPool),
    /// Fetches a land from the library for each type line named: to the hand,
    /// or to the battlefield.
    FetchLand { to_hand: Vec<String>, to_battlefield: Vec<String> },
    /// Allows that many more lands to be played this turn.
    LandLimit(u32),
    /// Draws cards: as many as one entry of the list says, each entry as
    /// likely as the next.
    Draw(Vec<u32>),
}

/// When an ability takes effect.
#[derive(Debug, Clone, Copy, PartialEq, Eq, Structural)]
pub enum Trigger {
    Cast,
    Activated,
    Upkeep,
}

/// What it takes to use an ability.
#[derive(Debug, PartialEq)]
pub enum Cost {
    /// Nothing is asked.
    Free,
    Tap,
    Sacrifice,
    Mana(ManaPool),
    TapSacrifice,
    TapMana(ManaPool),
    TapManaSacrifice(ManaPool),
}

/// The availability of an ability that is there whenever it is looked for.
pub const ALWAYS: u32 = 1000;

/// Something a card does, when, and at what cost.
#[derive(Debug)]
pub struct Ability {
    pub trigger: Trigger,
    pub cost: Cost,
    pub effect: Effect,
    /// In how many cases of a thousand the ability is there when it is
    /// looked for.
    pub availability: u32,
}

/// What every copy of a card of one name has in common.
#[derive(Debug)]
pub struct CardData {
    pub name: String,
    pub cmc: u32,
    pub mana_cost: Option<ManaPool>,
    pub type_string: String,
    pub types: TypeSet,
    pub produced_mana: Option<Mana>,
    pub enters_tapped: bool,
    pub abilities: Option<Vec<Ability>>,
}

/// One copy of a card in a game.
#[derive(Debug, Clone, Copy)]
pub struct Card<'db> {
    pub id: u32,
    pub data: &'db CardData,
    pub tapped: bool,
}

/// A cost, its mana as plain numbers.
pub enum CostView {
    Free,
    Tap,
    Sacrifice,
    Mana(PoolView),
    TapSacrifice,
    TapMana(PoolView),
    TapManaSacrifice(PoolView),
}

/// An effect, its mana as plain numbers and its lists as sequences.
pub enum EffectView {
    ProduceMana(PoolView),
    FetchLand { to_hand: Seq<Seq<char>>, to_battlefield: Seq<Seq<char>> },
    LandLimit(u32),
    Draw(Seq<u32>),
}

/// An ability as plain values.
pub struct AbilityView {
    pub trigger: Trigger,
    pub cost: CostView,
    pub effect: EffectView,
    pub availability: u32,
}

impl View for Cost {
    type V = CostView;

    open spec fn view(&self) -> CostView {
        match *self {
            Cost::Free => CostView::Free,
            Cost::Tap => CostView::Tap,
            Cost::Sacrifice => CostView::Sacrifice,
            Cost::Mana(pool) => CostView::Mana(pool@),
            Cost::TapSacrifice => CostView::TapSacrifice,
            Cost::TapMana(pool) => CostView::TapMana(pool@),
            Cost::TapManaSacrifice(pool) => CostView::TapManaSacrifice(pool@),
        }
    }
}

impl View for Effect {
    type V = EffectView;

    open spec fn view(&self) -> EffectView {
        match *self {
            Effect::ProduceMana(pool) => EffectView::ProduceMana(pool@),
            Effect::FetchLand { to_hand, to_battlefield } => EffectView::FetchLand {
                to_hand: to_hand.deep_view(),
                to_battlefield: to_battlefield.deep_view(),
            },
            Effect::LandLimit(count) => EffectView::LandLimit(count),
            Effect::Draw(ratios) => EffectView::Draw(ratios@),
        }
    }
}

impl View for Ability {
    type V = AbilityView;

    open spec fn view(&self) -> AbilityView {
        AbilityView {
            trigger: self.trigger,
            cost: self.cost@,
            effect: self.effect@,
            availability: self.availability,
        }
    }
}

impl Cost {
    /// The mana that the cost asks for, if it asks for any.
    pub open spec fn mana(self) -> Option<ManaPool> {
        match self {
            Cost::Mana(pool) => Some(pool),
            Cost::TapMana(pool) => Some(pool),
            Cost::TapManaSacrifice(pool) => Some(pool),
            _ => None,
        }
    }

    /// Whether the cost taps the card: `Tap`, `TapMana`, `TapSacrifice` and
    /// `TapManaSacrifice` do.
    pub open spec fn taps(self) -> bool {
        self is Tap || self is TapMana || self is TapSacrifice || self is TapManaSacrifice
    }

    /// Whether the cost gives the card up: `Sacrifice`, `TapSacrifice` and
    /// `TapManaSacrifice` do.
    pub open spec fn sacrifices(self) -> bool {
        self is Sacrifice || self is TapSacrifice || self is TapManaSacrifice
    }

    /// The mana that the cost asks for is a pool in order.
    pub open spec fn wf(self) -> bool {
        self.mana() matches Some(pool) ==> pool.wf()
    }

    /// Whether nothing is asked.
    pub fn is_none(&self) -> (r: bool)
        ensures
            r == (*self is Free),
    {
        match self {
            Cost::Free => true,
            _ => false,
        }
    }

    /// Whether the cost taps the card.
    pub fn is_tap(&self) -> (r: bool)
        ensures
            r == self.taps(),
    {
        match self {
            Cost::Tap => true,
            Cost::TapMana(_) => true,
            Cost::TapSacrifice => true,
            Cost::TapManaSacrifice(_) => true,
            _ => false,
        }
    }

    /// The mana that the cost asks for, if it asks for any.
    pub fn is_mana(&self) -> (r: Option<&ManaPool>)
        ensures
            r is Some == self.mana() is Some,
            r matches Some(pool) ==> self.mana() == Some(*pool),
    {
        match self {
            Cost::Mana(pool) => Some(pool),
            Cost::TapMana(pool) => Some(pool),
            Cost::TapManaSacrifice(pool) => Some(pool),
            _ => None,
        }
    }

    /// Whether the cost gives the card up.
    pub fn is_sacrifice(&self) -> (r: bool)
        ensures
            r == self.sacrifices(),
    {
        match self {
            Cost::Sacrifice => true,
            Cost::TapSacrifice => true,
            Cost::TapManaSacrifice(_) => true,
            _ => false,
        }
    }

    /// How much mana the cost asks for.
    pub open spec fn value(self) -> nat {
        match self.mana() {
            Some(pool) => pool@.total(),
            None => 0,
        }
    }

    /// How much mana the cost asks for.
    pub fn mana_value(&self) -> (r: u32)
        requires
            self.wf(),
        ensures
            r == self.value(),
    {
        match self.is_mana() {
            Some(pool) => pool.cmc(),
            None => 0,
        }
    }
}

impl Trigger {
    /// Whether the ability takes effect when the card is cast.
    pub fn is_cast(&self) -> (r: bool)
        ensures
            r == (*self is Cast),
    {
        match self {
            Trigger::Cast => true,
            _ => false,
        }
    }

    /// Whether the ability takes effect when it is activated.
    pub fn is_activated(&self) -> (r: bool)
        ensures
            r == (*self is Activated),
    {
        match self {
            Trigger::Activated => true,
            _ => false,
        }
    }

    /// Whether the ability takes effect at the start of each turn.
    pub fn is_upkeep(&self) -> (r: bool)
        ensures
            r == (*self is Upkeep),
    {
        match self {
            Trigger::Upkeep => true,
            _ => false,
        }
    }
}

impl Effect {
    /// The mana that the effect adds is a pool in order.
    pub open spec fn wf(self) -> bool {
        self matches Effect::ProduceMana(pool) ==> pool.wf()
    }

    /// Whether the effect adds mana.
    pub fn is_produce_mana(&self) -> (r: bool)
        ensures
            r == (*self is ProduceMana),
    {
        match self {
            Effect::ProduceMana(_) => true,
            _ => false,
        }
    }

    /// Whether the effect draws cards.
    pub fn is_draw(&self) -> (r: bool)
        ensures
            r == (*self is Draw),
    {
        match self {
            Effect::Draw(_) => true,
            _ => false,
        }
    }

    /// Whether the effect fetches lands.
    pub fn is_fetch_land(&self) -> (r: bool)
        ensures
            r == (*self is FetchLand),
    {
        match self {
            Effect::FetchLand { to_hand: _, to_battlefield: _ } => true,
            _ => false,
        }
    }
}

impl Ability {
    /// The pools of the ability are pools in order.
    pub open spec fn wf(self) -> bool {
        self.cost.wf() && self.effect.wf()
    }
}

/// The abilities that `abilities` lists.
pub open spec fn abilities_of(abilities: Option<Vec<Ability>>) -> Seq<Ability> {
    match abilities {
        Some(list) => list@,
        None => Seq::empty(),
    }
}

/// The mana of the first ability of `abilities` that adds mana.
pub open spec fn first_produced(abilities: Seq<Ability>) -> Option<ManaPool>
    decreases abilities.len(),
{
    if abilities.len() == 0 {
        None
    } else {
        match abilities[0].effect {
            Effect::ProduceMana(pool) => Some(pool),
            _ => first_produced(abilities.drop_first()),
        }
    }
}

impl CardData {
    /// The abilities of the card, none where it lists none.
    pub open spec fn all_abilities(self) -> Seq<Ability> {
        abilities_of(self.abilities)
    }

    /// The pools of the card are pools in order.
    pub open spec fn wf(self) -> bool {
        &&& self.mana_cost matches Some(pool) ==> pool.wf()
        &&& forall|i: int|
            0 <= i < self.all_abilities().len() ==> (#[trigger] self.all_abilities()[i]).wf()
    }

    /// Whether every copy of the card stays in play once played: a card that
    /// is neither an instant nor a sorcery.
    pub open spec fn is_permanent(self) -> bool {
        !self.types.has(Types::Instant) && !self.types.has(Types::Sorcery)
    }

    /// The number of abilities of the card.
    pub fn ability_count(&self) -> (r: usize)
        ensures
            r == self.all_abilities().len(),
    {
        match &self.abilities {
            Some(list) => list.len(),
            None => 0,
        }
    }

    /// One of the abilities of the card.
    pub fn ability(&self, at: usize) -> (r: &Ability)
        requires
            at < self.all_abilities().len(),
        ensures
            *r == self.all_abilities()[at as int],
    {
        match &self.abilities {
            Some(list) => &list[at],
            None => vstd::pervasive::unreached(),
        }
    }

    /// How many colors the card makes mana of when tapped.
    pub open spec fn colors_made(self) -> nat {
        match self.produced_mana {
            Some(mana) => mana.count(),
            None => 0,
        }
    }

    /// How many colors the card makes mana of when tapped.
    pub fn produced_color_count(&self) -> (r: u32)
        ensures
            r == self.colors_made(),
            r <= 5,
    {
        match &self.produced_mana {
            Some(mana) => mana.color_count(),
            None => 0,
        }
    }
}

impl<'db> Card<'db> {
    /// A copy of the card `data`, untapped and without a number yet.
    pub fn new(data: &'db CardData) -> (r: Self)
        ensures
            r.id == 0,
            r.data == data,
            !r.tapped,
    {
        Card { id: 0, data: data, tapped: false }
    }

    /// A copy of the card `data`, untapped, with the number `the_id`.
    pub fn new_with_id(the_id: u32, data: &'db CardData) -> (r: Self)
        ensures
            r.id == the_id,
            r.data == data,
            !r.tapped,
    {
        let mut card = Card::new(data);
        card.id = the_id;
        card
    }

    /// Whether the card is of the type `t`.
    pub fn is_type(&self, t: Types) -> (r: bool)
        ensures
            r == self.data.types.has(t),
    {
        self.data.types.contains(t)
    }

    /// A copy of the mana of the first ability of the card that adds mana.
    pub fn produced_mana(&self) -> (r: Option<ManaPool>)
        ensures
            r is Some == first_produced(self.data.all_abilities()) is Some,
            r matches Some(pool) ==> pool@ == first_produced(self.data.all_abilities())->Some_0@
                && (first_produced(self.data.all_abilities())->Some_0.wf() ==> pool.wf()),
    {
        let count = self.data.ability_count();
        let ghost all = self.data.all_abilities();
        let mut i: usize = 0;
        proof {
            assert(all.skip(0) == all);
        }
        while i < count
            invariant
                i <= count == all.len(),
                all == self.data.all_abilities(),
                first_produced(all) == first_produced(all.skip(i as int)),
            decreases count - i,
        {
            let ability = self.data.ability(i);
            proof {
                assert(all.skip(i as int)[0] == all[i as int]);
                assert(all.skip(i as int).drop_first() == all.skip(i + 1));
            }
            match &ability.effect {
                Effect::ProduceMana(mana) => {
                    return Some(mana.duplicate());
                },
                _ => {},
            }
            i += 1;
        }
        None
    }
}

} // verus!
