//! Reading the rules text of a card for the abilities that a turn can
//! activate.

use vstd::prelude::*;
use vstd::string::*;
use crate::card::{Ability, AbilityView, Cost, CostView, Effect, EffectView, Trigger, ALWAYS};
use crate::mana::{bad_symbol_message, symbol_color, Mana};
use crate::notation::{mana_cost, MANA_PATTERN};
use crate::patterns::{captures, is_match, regex_captures, regex_find_all, regex_is_match};
use crate::pool::{ManaPool, PoolView};
use crate::seqs::first_index;
use crate::text::{chars_of, find_char, lines_of, same_text, split_lines, trimmed, trimmed_of};

verus! {

/// A rules text and the name of the card it belongs to.
#[derive(Debug, Clone, Copy)]
pub struct Context<'a> {
    pub text: &'a str,
    pub card_name: &'a str,
}

/// What a card asks for on top of its cost when it is played.
#[derive(Debug, Clone, Copy, PartialEq, Eq, Structural)]
pub enum AdditionalCost {
    ReturnLandToHand,
}

/// The cost to tap the card.
pub const TAP: &'static str = "^\\{T\\}$";

/// The cost to tap the card and pay mana.
pub const TAP_MANA: &'static str = "^(\\{.*\\}), \\{T\\}$";

/// The cost to give a card up.
pub const SACRIFICE: &'static str = "^Sacrifice (.+)$";

/// The cost to tap a card, pay mana and give the card up.
pub const TAP_MANA_SACRIFICE: &'static str = "^\\{(.+)\\}, \\{T\\}, Sacrifice (.+)$";

/// The effect that adds the mana written.
pub const ADD_MANA_X: &'static str = "^Add ((\\{\\w\\})+)\\.";

/// The effect that adds mana of one of two kinds.
pub const ADD_MANA_X_OR_Y: &'static str = "^Add \\{(\\w)\\} or \\{(\\w)\\}.";

/// The effect that adds mana of any color of the commander.
pub const ADD_MANA_COMMANDER: &'static str =
    "Add one mana of any color in your commander's color identity.";

/// The effect that draws a card.
pub const DRAW_A_CARD: &'static str = "^Draw a card.";

/// The effect that draws two cards.
pub const DRAW_TWO_CARDS: &'static str = "^Draw two cards.";

/// The effect that draws three cards.
pub const DRAW_THREE_CARDS: &'static str = "^Draw three cards.";

/// The line that asks for a land to be returned when the card enters.
pub const RETURN_LAND_TO_HAND: &'static str =
    "^When (.*) enters the battlefield, return a land you control to its owner's hand.$";

/// The availability of an ability that draws cards at the price of a card
/// that makes mana, in parts of a thousand.
pub const SELDOM: u32 = 200;

/// The text of a captured group; the empty text for a group that is not
/// there or took no part.
pub open spec fn group_text(groups: Seq<Option<Seq<char>>>, at: int) -> Seq<char> {
    if 0 <= at < groups.len() {
        match groups[at] {
            Some(text) => text,
            None => Seq::empty(),
        }
    } else {
        Seq::empty()
    }
}

/// The mana cost that a text writes.
pub open spec fn written_cost(text: Seq<char>) -> Result<PoolView, Seq<char>> {
    mana_cost(regex_find_all(MANA_PATTERN@, text), text)
}

/// The cost that a text states, given what the patterns of costs found in
/// it: nothing but tapping; giving up the card of the name; mana and
/// tapping; mana, tapping and giving up the card of the name. A text that
/// states none of these, or names another card, states no cost; mana that
/// cannot be read is refused.
pub open spec fn cost_of_matches(
    tap: Option<bool>,
    sacrifice: Option<Option<Seq<Option<Seq<char>>>>>,
    tap_mana: Option<Option<Seq<Option<Seq<char>>>>>,
    tap_mana_sacrifice: Option<Option<Seq<Option<Seq<char>>>>>,
    card_name: Seq<char>,
) -> Result<Option<CostView>, Seq<char>> {
    if tap == Some(true) {
        Ok(Some(CostView::Tap))
    } else {
        match sacrifice {
            Some(Some(groups)) => if group_text(groups, 1) == card_name {
                Ok(Some(CostView::Sacrifice))
            } else {
                Ok(None)
            },
            _ => match tap_mana {
                Some(Some(groups)) => match written_cost(group_text(groups, 1)) {
                    Ok(pool) => Ok(Some(CostView::TapMana(pool))),
                    Err(message) => Err(message),
                },
                _ => match tap_mana_sacrifice {
                    Some(Some(groups)) => if group_text(groups, 2) != card_name {
                        Ok(None)
                    } else {
                        match written_cost(group_text(groups, 1)) {
                            Ok(pool) => Ok(Some(CostView::TapManaSacrifice(pool))),
                            Err(message) => Err(message),
                        }
                    },
                    _ => Ok(None),
                },
            },
        }
    }
}

/// The unit that either of two symbols pays, or the message that refuses
/// the first of them that is no symbol.
pub open spec fn unit_of_two(first: Seq<char>, second: Seq<char>) -> Result<Mana, Seq<char>> {
    match symbol_color(first) {
        None => Err(bad_symbol_message(first)),
        Some(a) => match symbol_color(second) {
            None => Err(bad_symbol_message(second)),
            Some(b) => {
                let one = match a {
                    Some(color) => Mana::blank().with(color),
                    None => Mana::blank(),
                };
                Ok(
                    match b {
                        Some(color) => one.with(color),
                        None => one,
                    },
                )
            },
        },
    }
}

/// The effect that a text states, given what the patterns of effects found
/// in it: the mana written; mana of one of two kinds; mana of any color;
/// one, two or three cards drawn. A text that states none of these states no
/// effect; mana that cannot be read is refused.
pub open spec fn effect_of_matches(
    add_mana: Option<Option<Seq<Option<Seq<char>>>>>,
    add_either: Option<Option<Seq<Option<Seq<char>>>>>,
    add_any: Option<bool>,
    draw_one: Option<bool>,
    draw_two: Option<bool>,
    draw_three: Option<bool>,
) -> Result<Option<EffectView>, Seq<char>> {
    match add_mana {
        Some(Some(groups)) => match written_cost(group_text(groups, 1)) {
            Ok(pool) => Ok(Some(EffectView::ProduceMana(pool))),
            Err(message) => Err(message),
        },
        _ => match add_either {
            Some(Some(groups)) => match unit_of_two(group_text(groups, 1), group_text(groups, 2)) {
                Ok(unit) => Ok(Some(EffectView::ProduceMana(PoolView::empty().added(unit)))),
                Err(message) => Err(message),
            },
            _ => if add_any == Some(true) {
                Ok(Some(EffectView::ProduceMana(PoolView { all: 1, ..PoolView::empty() })))
            } else if draw_one == Some(true) {
                Ok(Some(EffectView::Draw(seq![1u32])))
            } else if draw_two == Some(true) {
                Ok(Some(EffectView::Draw(seq![2u32])))
            } else if draw_three == Some(true) {
                Ok(Some(EffectView::Draw(seq![3u32])))
            } else {
                Ok(None)
            },
        },
    }
}

/// The cost that a text states for an ability of the card of the name.
pub open spec fn cost_of_text(text: Seq<char>, card_name: Seq<char>) -> Result<
    Option<CostView>,
    Seq<char>,
> {
    cost_of_matches(
        regex_is_match(TAP@, text),
        regex_captures(SACRIFICE@, text),
        regex_captures(TAP_MANA@, text),
        regex_captures(TAP_MANA_SACRIFICE@, text),
        card_name,
    )
}

/// The effect that a text states.
pub open spec fn effect_of_text(text: Seq<char>) -> Result<Option<EffectView>, Seq<char>> {
    effect_of_matches(
        regex_captures(ADD_MANA_X@, text),
        regex_captures(ADD_MANA_X_OR_Y@, text),
        regex_is_match(ADD_MANA_COMMANDER@, text),
        regex_is_match(DRAW_A_CARD@, text),
        regex_is_match(DRAW_TWO_CARDS@, text),
        regex_is_match(DRAW_THREE_CARDS@, text),
    )
}

/// Whether a character is a colon.
pub open spec fn is_colon() -> spec_fn(char) -> bool {
    |c: char| c == ':'
}

/// The ability that a line of rules text states, if it states one: a line
/// with a colon, a cost before the colon and an effect after it.
pub open spec fn ability_of_line(line: Seq<char>, card_name: Seq<char>) -> Result<
    Option<AbilityView>,
    Seq<char>,
> {
    let colon = first_index(line, is_colon());
    if colon >= line.len() {
        Ok(None)
    } else {
        match cost_of_text(trimmed_of(line.take(colon)), card_name) {
            Err(message) => Err(message),
            Ok(cost) => match effect_of_text(trimmed_of(line.skip(colon + 1))) {
                Err(message) => Err(message),
                Ok(effect) => match (cost, effect) {
                    (Some(cost), Some(effect)) => Ok(
                        Some(
                            AbilityView {
                                trigger: Trigger::Activated,
                                cost,
                                effect,
                                availability: ALWAYS,
                            },
                        ),
                    ),
                    _ => Ok(None),
                },
            },
        }
    }
}

/// The abilities that the lines state, in the order of the lines, or the
/// message of the first line that is refused.
pub open spec fn abilities_of_lines(lines: Seq<Seq<char>>, card_name: Seq<char>) -> Result<
    Seq<AbilityView>,
    Seq<char>,
>
    decreases lines.len(),
{
    if lines.len() == 0 {
        Ok(Seq::empty())
    } else {
        match abilities_of_lines(lines.drop_last(), card_name) {
            Err(message) => Err(message),
            Ok(abilities) => match ability_of_line(lines.last(), card_name) {
                Err(message) => Err(message),
                Ok(Some(ability)) => Ok(abilities.push(ability)),
                Ok(None) => Ok(abilities),
            },
        }
    }
}

/// Whether one of the abilities adds mana.
pub open spec fn makes_mana(abilities: Seq<AbilityView>) -> bool {
    exists|i: int| 0 <= i < abilities.len() && (#[trigger] abilities[i]).effect is ProduceMana
}

/// Whether a cost gives the card up.
pub open spec fn gives_up(cost: CostView) -> bool {
    cost is Sacrifice || cost is TapSacrifice || cost is TapManaSacrifice
}

/// Whether one of the abilities draws cards at the price of the card.
pub open spec fn gives_up_for_cards(abilities: Seq<AbilityView>) -> bool {
    exists|i: int|
        0 <= i < abilities.len() && (#[trigger] abilities[i]).effect is Draw && gives_up(
            abilities[i].cost,
        )
}

/// The abilities as they are used: on a card that makes mana and can be
/// given up for cards, the abilities that draw cards are seldom there.
pub open spec fn weighed(abilities: Seq<AbilityView>) -> Seq<AbilityView> {
    if makes_mana(abilities) && gives_up_for_cards(abilities) {
        Seq::new(
            abilities.len(),
            |i: int|
                if abilities[i].effect is Draw {
                    AbilityView { availability: SELDOM, ..abilities[i] }
                } else {
                    abilities[i]
                },
        )
    } else {
        abilities
    }
}

/// What a rules text is read as: the abilities of its lines, weighed;
/// `None` where it states none.
pub open spec fn abilities_of_text(text: Seq<char>, card_name: Seq<char>) -> Result<
    Option<Seq<AbilityView>>,
    Seq<char>,
> {
    match abilities_of_lines(lines_of(text), card_name) {
        Err(message) => Err(message),
        Ok(abilities) => if abilities.len() == 0 {
            Ok(None)
        } else {
            Ok(Some(weighed(abilities)))
        },
    }
}

/// The views of the abilities.
pub open spec fn views_of(abilities: Seq<Ability>) -> Seq<AbilityView> {
    Seq::new(abilities.len(), |i: int| abilities[i]@)
}

/// The text of a captured group; the empty text for a group that is not
/// there or took no part.
pub fn group<'a>(groups: &'a Vec<Option<String>>, at: usize) -> (r: &'a str)
    ensures
        r@ == group_text(groups.deep_view(), at as int),
{
    if at < groups.len() {
        match &groups[at] {
            Some(text) => text.as_str(),
            None => {
                proof {
                    reveal_strlit("");
                }
                ""
            },
        }
    } else {
        proof {
            reveal_strlit("");
        }
        ""
    }
}

/// Reads a written mana cost for an ability.
fn read_pool(text: &str) -> (r: Result<ManaPool, String>)
    ensures
        match written_cost(text@) {
            Ok(pool) => r is Ok && r->Ok_0.wf() && r->Ok_0@ == pool,
            Err(message) => r is Err && r->Err_0@ == message,
        },
{
    ManaPool::new_from_string(text)
}

/// The cost that a text states, given what the patterns of costs found in
/// it.
pub fn cost_from_matches(
    tap: Option<bool>,
    sacrifice: &Option<Option<Vec<Option<String>>>>,
    tap_mana: &Option<Option<Vec<Option<String>>>>,
    tap_mana_sacrifice: &Option<Option<Vec<Option<String>>>>,
    card_name: &str,
) -> (r: Result<Option<Cost>, String>)
    ensures
        match cost_of_matches(
            tap,
            sacrifice.deep_view(),
            tap_mana.deep_view(),
            tap_mana_sacrifice.deep_view(),
            card_name@,
        ) {
            Ok(Some(cost)) => r is Ok && r->Ok_0 is Some && r->Ok_0->Some_0@ == cost
                && r->Ok_0->Some_0.wf(),
            Ok(None) => r is Ok && r->Ok_0 is None,
            Err(message) => r is Err && r->Err_0@ == message,
        },
{
    if let Some(true) = tap {
        return Ok(Some(Cost::Tap));
    }
    if let Some(Some(groups)) = sacrifice {
        if same_text(group(groups, 1), card_name) {
            return Ok(Some(Cost::Sacrifice));
        }
        return Ok(None);
    }
    if let Some(Some(groups)) = tap_mana {
        return match read_pool(group(groups, 1)) {
            Ok(mana) => Ok(Some(Cost::TapMana(mana))),
            Err(message) => Err(message),
        };
    }
    if let Some(Some(groups)) = tap_mana_sacrifice {
        if !same_text(group(groups, 2), card_name) {
            return Ok(None);
        }
        return match read_pool(group(groups, 1)) {
            Ok(mana) => Ok(Some(Cost::TapManaSacrifice(mana))),
            Err(message) => Err(message),
        };
    }
    Ok(None)
}

/// The unit that either of two symbols pays.
pub fn unit_from_two(first: &str, second: &str) -> (r: Result<Mana, String>)
    ensures
        match unit_of_two(first@, second@) {
            Ok(unit) => r == Ok::<Mana, String>(unit) && unit.valid(),
            Err(message) => r is Err && r->Err_0@ == message,
        },
{
    let mut mana = Mana::new();
    match mana.set_from_string(first) {
        Ok(_) => {},
        Err(message) => {
            return Err(message);
        },
    }
    match mana.set_from_string(second) {
        Ok(_) => {},
        Err(message) => {
            return Err(message);
        },
    }
    Ok(mana)
}

/// The effect that a text states, given what the patterns of effects found
/// in it.
pub fn effect_from_matches(
    add_mana: &Option<Option<Vec<Option<String>>>>,
    add_either: &Option<Option<Vec<Option<String>>>>,
    add_any: Option<bool>,
    draw_one: Option<bool>,
    draw_two: Option<bool>,
    draw_three: Option<bool>,
) -> (r: Result<Option<Effect>, String>)
    ensures
        match effect_of_matches(
            add_mana.deep_view(),
            add_either.deep_view(),
            add_any,
            draw_one,
            draw_two,
            draw_three,
        ) {
            Ok(Some(effect)) => r is Ok && r->Ok_0 is Some && r->Ok_0->Some_0@ == effect
                && r->Ok_0->Some_0.wf(),
            Ok(None) => r is Ok && r->Ok_0 is None,
            Err(message) => r is Err && r->Err_0@ == message,
        },
{
    if let Some(Some(groups)) = add_mana {
        return match read_pool(group(groups, 1)) {
            Ok(pool) => Ok(Some(Effect::ProduceMana(pool))),
            Err(message) => Err(message),
        };
    }
    if let Some(Some(groups)) = add_either {
        return match unit_from_two(group(groups, 1), group(groups, 2)) {
            Ok(mana) => Ok(Some(Effect::ProduceMana(ManaPool::new_from_single(&mana)))),
            Err(message) => Err(message),
        };
    }
    if let Some(true) = add_any {
        let pool = ManaPool::new_from_single(&Mana::any());
        return Ok(Some(Effect::ProduceMana(pool)));
    }
    if let Some(true) = draw_one {
        let counts: Vec<u32> = vec![1];
        assert(counts@ =~= seq![1u32]);
        return Ok(Some(Effect::Draw(counts)));
    }
    if let Some(true) = draw_two {
        let counts: Vec<u32> = vec![2];
        assert(counts@ =~= seq![2u32]);
        return Ok(Some(Effect::Draw(counts)));
    }
    if let Some(true) = draw_three {
        let counts: Vec<u32> = vec![3];
        assert(counts@ =~= seq![3u32]);
        return Ok(Some(Effect::Draw(counts)));
    }
    Ok(None)
}

/// The cost that a text states for an ability of the card of the context.
pub fn parse_cost(cost_string: &str, ctx: &Context) -> (r: Result<Option<Cost>, String>)
    ensures
        match cost_of_text(cost_string@, ctx.card_name@) {
            Ok(Some(cost)) => r is Ok && r->Ok_0 is Some && r->Ok_0->Some_0@ == cost
                && r->Ok_0->Some_0.wf(),
            Ok(None) => r is Ok && r->Ok_0 is None,
            Err(message) => r is Err && r->Err_0@ == message,
        },
{
    let tap = is_match(TAP, cost_string);
    let sacrifice = captures(SACRIFICE, cost_string);
    let tap_mana = captures(TAP_MANA, cost_string);
    let tap_mana_sacrifice = captures(TAP_MANA_SACRIFICE, cost_string);
    cost_from_matches(tap, &sacrifice, &tap_mana, &tap_mana_sacrifice, ctx.card_name)
}

/// The effect that a text states.
pub fn parse_effect(effect_string: &str) -> (r: Result<Option<Effect>, String>)
    ensures
        match effect_of_text(effect_string@) {
            Ok(Some(effect)) => r is Ok && r->Ok_0 is Some && r->Ok_0->Some_0@ == effect
                && r->Ok_0->Some_0.wf(),
            Ok(None) => r is Ok && r->Ok_0 is None,
            Err(message) => r is Err && r->Err_0@ == message,
        },
{
    let add_mana = captures(ADD_MANA_X, effect_string);
    let add_either = captures(ADD_MANA_X_OR_Y, effect_string);
    let add_any = is_match(ADD_MANA_COMMANDER, effect_string);
    let draw_one = is_match(DRAW_A_CARD, effect_string);
    let draw_two = is_match(DRAW_TWO_CARDS, effect_string);
    let draw_three = is_match(DRAW_THREE_CARDS, effect_string);
    effect_from_matches(&add_mana, &add_either, add_any, draw_one, draw_two, draw_three)
}

/// The ability that a line of rules text states, if it states one.
pub fn parse_line(line: &str, ctx: &Context) -> (r: Result<Option<Ability>, String>)
    ensures
        match ability_of_line(line@, ctx.card_name@) {
            Ok(Some(ability)) => r is Ok && r->Ok_0 is Some && r->Ok_0->Some_0@ == ability
                && r->Ok_0->Some_0.wf(),
            Ok(None) => r is Ok && r->Ok_0 is None,
            Err(message) => r is Err && r->Err_0@ == message,
        },
{
    let chars = chars_of(line);
    let colon = find_char(&chars, 0, ':');
    proof {
        assert(line@.skip(0) == line@);
        assert((|c: char| c == ':') =~= is_colon());
    }
    if colon >= chars.len() {
        return Ok(None);
    }
    proof {
        assert(line@.take(colon as int) == line@.subrange(0, colon as int));
        assert(line@.skip(colon + 1) == line@.subrange(colon + 1, line@.len() as int));
    }
    let lhs = trimmed(line.substring_char(0, colon));
    let rhs = trimmed(line.substring_char(colon + 1, chars.len()));
    let cost = match parse_cost(lhs, ctx) {
        Ok(cost) => cost,
        Err(message) => {
            return Err(message);
        },
    };
    let effect = match parse_effect(rhs) {
        Ok(effect) => effect,
        Err(message) => {
            return Err(message);
        },
    };
    match cost {
        Some(cost) => match effect {
            Some(effect) => Ok(
                Some(Ability { trigger: Trigger::Activated, cost, effect, availability: ALWAYS }),
            ),
            None => Ok(None),
        },
        None => Ok(None),
    }
}

/// Reads the rules text of a card for the abilities that can be activated:
/// one for each line that states a cost the card can pay and an effect that
/// a turn can use, in the order of the lines. On a card that makes mana and
/// can be given up for cards, the abilities that draw cards are seldom
/// there. A text that states no ability gives `None`; a line whose mana
/// cannot be read is refused with a message.
pub fn parse(ctx: &Context) -> (r: Result<Option<Vec<Ability>>, String>)
    ensures
        match abilities_of_text(ctx.text@, ctx.card_name@) {
            Ok(Some(abilities)) => r is Ok && r->Ok_0 is Some && views_of(r->Ok_0->Some_0@)
                == abilities && forall|i: int|
                0 <= i < r->Ok_0->Some_0@.len() ==> (#[trigger] r->Ok_0->Some_0@[i]).wf(),
            Ok(None) => r is Ok && r->Ok_0 is None,
            Err(message) => r is Err && r->Err_0@ == message,
        },
{
    let lines = split_lines(ctx.text);
    let ghost texts = lines.deep_view();
    let mut abilities: Vec<Ability> = Vec::new();
    let mut is_mana_producer = false;
    let mut is_sac_for_cards = false;
    let mut i: usize = 0;
    proof {
        assert(texts.take(0) == Seq::<Seq<char>>::empty());
        assert(views_of(abilities@) =~= Seq::<AbilityView>::empty());
    }
    while i < lines.len()
        invariant
            i <= lines@.len(),
            texts == lines.deep_view(),
            texts == lines_of(ctx.text@),
            texts.len() == lines@.len(),
            abilities_of_lines(texts.take(i as int), ctx.card_name@) == Ok::<
                Seq<AbilityView>,
                Seq<char>,
            >(views_of(abilities@)),
            forall|k: int| 0 <= k < abilities@.len() ==> (#[trigger] abilities@[k]).wf(),
            is_mana_producer == makes_mana(views_of(abilities@)),
            is_sac_for_cards == gives_up_for_cards(views_of(abilities@)),
        decreases lines@.len() - i,
    {
        let ghost before = views_of(abilities@);
        proof {
            assert(texts.take(i + 1).drop_last() == texts.take(i as int));
            assert(texts.take(i + 1).last() == lines@[i as int]@);
        }
        match parse_line(lines[i], ctx) {
            Err(message) => {
                proof {
                    assert(abilities_of_lines(texts.take(i + 1), ctx.card_name@) == Err::<
                        Seq<AbilityView>,
                        Seq<char>,
                    >(message@));
                    lemma_refused_line(texts, ctx.card_name@, i as int);
                }
                return Err(message);
            },
            Ok(None) => {},
            Ok(Some(ability)) => {
                let makes = ability.effect.is_produce_mana();
                let draws_for_card = ability.effect.is_draw() && ability.cost.is_sacrifice();
                is_mana_producer = is_mana_producer || makes;
                is_sac_for_cards = is_sac_for_cards || draws_for_card;
                abilities.push(ability);
                proof {
                    let after = views_of(abilities@);
                    assert(after =~= before.push(ability@));
                    assert(gives_up(ability@.cost) == ability.cost.sacrifices());
                    assert(makes_mana(after) == (makes_mana(before) || makes)) by {
                        if makes_mana(before) {
                            let k = choose|k: int|
                                0 <= k < before.len() && (#[trigger] before[k]).effect
                                    is ProduceMana;
                            assert(after[k].effect is ProduceMana);
                        }
                        if makes {
                            assert(after[after.len() - 1].effect is ProduceMana);
                        }
                        if makes_mana(after) {
                            let k = choose|k: int|
                                0 <= k < after.len() && (#[trigger] after[k]).effect is ProduceMana;
                            if k < before.len() {
                                assert(before[k].effect is ProduceMana);
                            }
                        }
                    }
                    assert(gives_up_for_cards(after) == (gives_up_for_cards(before)
                        || draws_for_card)) by {
                        if gives_up_for_cards(before) {
                            let k = choose|k: int|
                                0 <= k < before.len() && (#[trigger] before[k]).effect is Draw
                                    && gives_up(before[k].cost);
                            assert(after[k].effect is Draw && gives_up(after[k].cost));
                        }
                        if draws_for_card {
                            assert(after[after.len() - 1].effect is Draw && gives_up(
                                after[after.len() - 1].cost,
                            ));
                        }
                        if gives_up_for_cards(after) {
                            let k = choose|k: int|
                                0 <= k < after.len() && (#[trigger] after[k]).effect is Draw
                                    && gives_up(after[k].cost);
                            if k < before.len() {
                                assert(before[k].effect is Draw && gives_up(before[k].cost));
                            }
                        }
                    }
                }
            },
        }
        i += 1;
    }
    proof {
        assert(texts.take(i as int) == texts);
    }
    if abilities.len() == 0 {
        return Ok(None);
    }
    let ghost read = views_of(abilities@);
    if is_mana_producer && is_sac_for_cards {
        let mut k: usize = 0;
        while k < abilities.len()
            invariant
                k <= abilities@.len() == read.len(),
                forall|j: int| 0 <= j < abilities@.len() ==> (#[trigger] abilities@[j]).wf(),
                forall|j: int| 0 <= j < k ==> (#[trigger] abilities@[j])@ == weighed(read)[j],
                forall|j: int| k <= j < read.len() ==> (#[trigger] abilities@[j])@ == read[j],
                makes_mana(read) && gives_up_for_cards(read),
            decreases abilities@.len() - k,
        {
            if abilities[k].effect.is_draw() {
                let ghost before = abilities@;
                set_availability(&mut abilities, k, SELDOM);
            }
            k += 1;
        }
    }
    proof {
        assert(views_of(abilities@) =~= weighed(read));
    }
    Ok(Some(abilities))
}

/// Sets the availability of one ability of a list.
fn set_availability(abilities: &mut Vec<Ability>, at: usize, availability: u32)
    requires
        at < old(abilities)@.len(),
    ensures
        final(abilities)@.len() == old(abilities)@.len(),
        forall|j: int|
            0 <= j < old(abilities)@.len() && j != at ==> #[trigger] final(abilities)@[j]
                == old(abilities)@[j],
        final(abilities)@[at as int]@ == (AbilityView {
            availability,
            ..old(abilities)@[at as int]@
        }),
        final(abilities)@[at as int].wf() == old(abilities)@[at as int].wf(),
{
    let mut rest = abilities.split_off(at);
    let mut ability = rest.remove(0);
    ability.availability = availability;
    abilities.push(ability);
    abilities.append(&mut rest);
}

/// Once a line is refused, so is every text that starts with the lines up to
/// it.
proof fn lemma_refused_line(lines: Seq<Seq<char>>, card_name: Seq<char>, at: int)
    requires
        0 <= at < lines.len(),
        abilities_of_lines(lines.take(at + 1), card_name) is Err,
    ensures
        abilities_of_lines(lines, card_name) == abilities_of_lines(lines.take(at + 1), card_name),
    decreases lines.len(),
{
    if at + 1 == lines.len() {
        assert(lines.take(at + 1) == lines);
    } else {
        assert(lines.drop_last().take(at + 1) == lines.take(at + 1));
        lemma_refused_line(lines.drop_last(), card_name, at);
    }
}

/// What the card of the context asks for on top of its cost, if its rules
/// text has a line that says so of the card by its name.
pub fn parse_additional_cost(ctx: &Context) -> (r: Option<AdditionalCost>)
    ensures
        r is Some == exists|i: int|
            0 <= i < lines_of(ctx.text@).len() && asks_for_land(
                #[trigger] lines_of(ctx.text@)[i],
                ctx.card_name@,
            ),
{
    let lines = split_lines(ctx.text);
    let ghost texts = lines.deep_view();
    let mut i: usize = 0;
    while i < lines.len()
        invariant
            i <= lines@.len(),
            texts == lines.deep_view(),
            texts == lines_of(ctx.text@),
            forall|k: int| 0 <= k < i ==> !asks_for_land(#[trigger] texts[k], ctx.card_name@),
        decreases lines@.len() - i,
    {
        let line = trimmed(lines[i]);
        proof {
            assert(texts[i as int] == lines@[i as int]@);
        }
        match captures(RETURN_LAND_TO_HAND, line) {
            Some(Some(groups)) => {
                if same_text(group(&groups, 1), ctx.card_name) {
                    return Some(AdditionalCost::ReturnLandToHand);
                }
            },
            _ => {},
        }
        i += 1;
    }
    None
}

/// Whether a line says of the card of the name that a land is returned to
/// the hand when it enters.
pub open spec fn asks_for_land(line: Seq<char>, card_name: Seq<char>) -> bool {
    match regex_captures(RETURN_LAND_TO_HAND@, trimmed_of(line)) {
        Some(Some(groups)) => group_text(groups, 1) == card_name,
        _ => false,
    }
}

} // verus!
