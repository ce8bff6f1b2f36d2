//! Reading the entries of a card catalog: the words by which its records
//! name costs, triggers and effects, and what they stand for.

use vstd::prelude::*;
use vstd::string::*;
use crate::card::{Cost, CostView, Effect, EffectView, Trigger};
use crate::game::MulliganType;
use crate::notation::{generic_of_symbol, mana_cost, read_generic, MANA_PATTERN};
use crate::oracle::{group, group_text};
use crate::patterns::{captures, regex_captures, regex_find_all};
use crate::pool::ManaPool;
use crate::text::{
    chars_of, contains_text, holds_text, lowercase_of, same_text, to_lowercase, trimmed, trimmed_of,
};

verus! {

/// The character that stands for `c` in the name of a file: `_` for `/`.
pub open spec fn in_file_name(c: char) -> char {
    if c == '/' {
        '_'
    } else {
        c
    }
}

/// The file that holds the record of the card of the name.
pub fn name_to_file(name: &str) -> (r: String)
    ensures
        r@ == "cards.db/"@ + name@.map_values(|c: char| in_file_name(c)) + ".json"@,
{
    let chars = chars_of(name);
    let mut file = String::from_str("cards.db/");
    let mut i: usize = 0;
    proof {
        assert(name@.take(0).map_values(|c: char| in_file_name(c)) =~= Seq::<char>::empty());
        assert(file@ =~= "cards.db/"@ + name@.take(0).map_values(|c: char| in_file_name(c)));
    }
    while i < chars.len()
        invariant
            i <= chars@.len(),
            chars@ == name@,
            file@ == "cards.db/"@ + name@.take(i as int).map_values(|c: char| in_file_name(c)),
        decreases chars@.len() - i,
    {
        if chars[i] == '/' {
            proof {
                reveal_strlit("_");
            }
            file.append("_");
        } else {
            file.append(name.substring_char(i, i + 1));
        }
        proof {
            assert(name@.take(i + 1).map_values(|c: char| in_file_name(c)) =~= name@.take(
                i as int,
            ).map_values(|c: char| in_file_name(c)).push(in_file_name(name@[i as int])));
            assert(file@ =~= "cards.db/"@ + name@.take(i + 1).map_values(
                |c: char| in_file_name(c),
            ));
        }
        i += 1;
    }
    proof {
        assert(name@.take(i as int) == name@);
    }
    file.append(".json");
    file
}

/// Whether the rules text says of the card of the name that it enters the
/// battlefield tapped: the lower case of the text holds the name, as it is
/// given, followed by the words.
pub fn parse_enters_tapped(name: &str, oracle_text: &str) -> (r: bool)
    ensures
        r == holds_text(lowercase_of(oracle_text@), name@ + " enters the battlefield tapped."@),
{
    let pattern = String::from_str(name).concat(" enters the battlefield tapped.");
    let lower = to_lowercase(oracle_text);
    contains_text(lower.as_str(), pattern.as_str())
}

/// The cost that a word names: `tap`, `tap-sacrifice` or `none`.
pub open spec fn cost_named(word: Seq<char>) -> Option<CostView> {
    if word == "tap"@ {
        Some(CostView::Tap)
    } else if word == "tap-sacrifice"@ {
        Some(CostView::TapSacrifice)
    } else if word == "none"@ {
        Some(CostView::Free)
    } else {
        None
    }
}

/// The cost that a word names, or the message that refuses the word.
pub fn parse_cost_string(string: &str) -> (r: Result<Cost, String>)
    ensures
        match cost_named(string@) {
            Some(cost) => r is Ok && r->Ok_0@ == cost,
            None => r is Err && r->Err_0@ == "invalid 'cost' string!"@,
        },
{
    if same_text(string, "tap") {
        Ok(Cost::Tap)
    } else if same_text(string, "tap-sacrifice") {
        Ok(Cost::TapSacrifice)
    } else if same_text(string, "none") {
        Ok(Cost::Free)
    } else {
        Err(String::from_str("invalid 'cost' string!"))
    }
}

/// The cost that a record with a type and, for some types, mana states: the
/// types are those that a word names, and `tap-mana-sacrifice`, which asks
/// for the mana written.
pub open spec fn cost_of_record(kind: Option<Seq<char>>, mana: Option<Seq<char>>) -> Result<
    CostView,
    Seq<char>,
> {
    match kind {
        None => Err("invalid 'cost::type' value..."@),
        Some(word) => if word == "tap-mana-sacrifice"@ {
            match mana {
                None => Err("invalid 'mana::produce' value"@),
                Some(written) => match mana_cost(regex_find_all(MANA_PATTERN@, written), written) {
                    Ok(pool) => Ok(CostView::TapManaSacrifice(pool)),
                    Err(message) => Err(message),
                },
            }
        } else {
            match cost_named(word) {
                Some(cost) => Ok(cost),
                None => Err("invalid 'cost::type' value..."@),
            }
        },
    }
}

/// The cost that a record with a type and, for some types, mana states.
pub fn parse_cost_record(kind: Option<&str>, mana: Option<&str>) -> (r: Result<Cost, String>)
    ensures
        match cost_of_record(
            match kind {
                Some(word) => Some(word@),
                None => None,
            },
            match mana {
                Some(written) => Some(written@),
                None => None,
            },
        ) {
            Ok(cost) => r is Ok && r->Ok_0@ == cost && r->Ok_0.wf(),
            Err(message) => r is Err && r->Err_0@ == message,
        },
{
    let word = match kind {
        Some(word) => word,
        None => {
            return Err(String::from_str("invalid 'cost::type' value..."));
        },
    };
    if same_text(word, "tap-mana-sacrifice") {
        return match mana {
            None => Err(String::from_str("invalid 'mana::produce' value")),
            Some(written) => match ManaPool::new_from_string(written) {
                Ok(pool) => Ok(Cost::TapManaSacrifice(pool)),
                Err(message) => Err(message),
            },
        };
    }
    match parse_cost_string(word) {
        Ok(cost) => Ok(cost),
        Err(_) => Err(String::from_str("invalid 'cost::type' value...")),
    }
}

/// The trigger that a word names: `activated`, `upkeep` or `cast`.
pub open spec fn trigger_named(word: Seq<char>) -> Option<Trigger> {
    if word == "activated"@ {
        Some(Trigger::Activated)
    } else if word == "upkeep"@ {
        Some(Trigger::Upkeep)
    } else if word == "cast"@ {
        Some(Trigger::Cast)
    } else {
        None
    }
}

/// The trigger that a word names, or the message that refuses the word.
pub fn parse_trigger_string(string: &str) -> (r: Result<Trigger, String>)
    ensures
        match trigger_named(string@) {
            Some(trigger) => r == Ok::<Trigger, String>(trigger),
            None => r is Err && r->Err_0@ == "invalid 'trigger' string"@,
        },
{
    if same_text(string, "activated") {
        Ok(Trigger::Activated)
    } else if same_text(string, "upkeep") {
        Ok(Trigger::Upkeep)
    } else if same_text(string, "cast") {
        Ok(Trigger::Cast)
    } else {
        Err(String::from_str("invalid 'trigger' string"))
    }
}

/// The parts of the record of an effect, as far as the record has them.
pub struct EffectRecord {
    /// The type of the effect.
    pub kind: Option<String>,
    /// For `mana`: the mana added, as written.
    pub produce: Option<String>,
    /// For `land-fetch`: the type lines of the lands fetched to the hand.
    pub to_hand: Vec<String>,
    /// For `land-fetch`: the type lines of the lands fetched to the
    /// battlefield.
    pub to_battlefield: Vec<String>,
    /// For `draw`: the numbers of cards drawn.
    pub count: Option<Vec<u32>>,
    /// For `land-limit`: the number of lands allowed on top.
    pub increase: Option<u32>,
}

/// The effect that a record states: `mana` adds the mana written,
/// `land-fetch` fetches lands, `draw` draws cards, `land-limit` allows more
/// lands. A record of another type, or without what its type needs, is
/// refused.
pub open spec fn effect_of_record(record: EffectRecord) -> Result<EffectView, Seq<char>> {
    match record.kind {
        None => Err("invalid 'effect::type' string"@),
        Some(kind) => if kind@ == "mana"@ {
            match record.produce {
                None => Err("invalid 'mana::produce' value"@),
                Some(written) => match mana_cost(
                    regex_find_all(MANA_PATTERN@, written@),
                    written@,
                ) {
                    Ok(pool) => Ok(EffectView::ProduceMana(pool)),
                    Err(message) => Err(message),
                },
            }
        } else if kind@ == "land-fetch"@ {
            Ok(
                EffectView::FetchLand {
                    to_hand: record.to_hand.deep_view(),
                    to_battlefield: record.to_battlefield.deep_view(),
                },
            )
        } else if kind@ == "draw"@ {
            match record.count {
                Some(counts) => Ok(EffectView::Draw(counts@)),
                None => Err("failed to parse 'draw' effect!"@),
            }
        } else if kind@ == "land-limit"@ {
            match record.increase {
                Some(increase) => Ok(EffectView::LandLimit(increase)),
                None => Err("invalid 'increase' in land-limit"@),
            }
        } else {
            Err("invalid 'effect::type' string"@)
        },
    }
}

/// The effect that a record states.
pub fn parse_effect_record(record: EffectRecord) -> (r: Result<Effect, String>)
    ensures
        match effect_of_record(record) {
            Ok(effect) => r is Ok && r->Ok_0@ == effect && r->Ok_0.wf(),
            Err(message) => r is Err && r->Err_0@ == message,
        },
{
    let kind = match &record.kind {
        Some(kind) => kind.as_str(),
        None => {
            return Err(String::from_str("invalid 'effect::type' string"));
        },
    };
    if same_text(kind, "mana") {
        match &record.produce {
            None => Err(String::from_str("invalid 'mana::produce' value")),
            Some(written) => match ManaPool::new_from_string(written.as_str()) {
                Ok(pool) => Ok(Effect::ProduceMana(pool)),
                Err(message) => Err(message),
            },
        }
    } else if same_text(kind, "land-fetch") {
        Ok(Effect::FetchLand { to_hand: record.to_hand, to_battlefield: record.to_battlefield })
    } else if same_text(kind, "draw") {
        match record.count {
            Some(counts) => Ok(Effect::Draw(counts)),
            None => Err(String::from_str("failed to parse 'draw' effect!")),
        }
    } else if same_text(kind, "land-limit") {
        match record.increase {
            Some(increase) => Ok(Effect::LandLimit(increase)),
            None => Err(String::from_str("invalid 'increase' in land-limit")),
        }
    } else {
        Err(String::from_str("invalid 'effect::type' string"))
    }
}

/// The mulligan that a word names: `3-lands` or `none`; no word names none.
pub open spec fn mulligan_named(word: Option<Seq<char>>) -> Option<MulliganType> {
    match word {
        None => Some(MulliganType::Keep),
        Some(text) => if text == "3-lands"@ {
            Some(MulliganType::ThreeLands)
        } else if text == "none"@ {
            Some(MulliganType::Keep)
        } else {
            None
        },
    }
}

/// The mulligan that a word names, if it names one.
pub fn read_mulligan(txt: &Option<String>) -> (r: Option<MulliganType>)
    ensures
        r == mulligan_named(
            match *txt {
                Some(text) => Some(text@),
                None => None,
            },
        ),
{
    match txt {
        Some(text) => {
            if same_text(text.as_str(), "3-lands") {
                Some(MulliganType::ThreeLands)
            } else if same_text(text.as_str(), "none") {
                Some(MulliganType::Keep)
            } else {
                None
            }
        },
        None => Some(MulliganType::Keep),
    }
}

/// The mulligan that a word names.
pub fn parse_mulligan(txt: &Option<String>) -> (r: MulliganType)
    requires
        mulligan_named(
            match *txt {
                Some(text) => Some(text@),
                None => None,
            },
        ) is Some,
    ensures
        Some(r) == mulligan_named(
            match *txt {
                Some(text) => Some(text@),
                None => None,
            },
        ),
{
    match read_mulligan(txt) {
        Some(mulligan) => mulligan,
        None => vstd::pervasive::unreached(),
    }
}

/// One line of a deck list: so many copies of the card of a name.
#[derive(Debug)]
pub struct DeckListEntry {
    pub count: u32,
    pub name: String,
}

/// The pattern of a line of a deck list: a number, an `x`, and a name.
pub const DECK_LINE: &'static str = "^(\\d+)x\\s+([\\w\\s',\\-\\\\/]+)";

/// The number and the name that a line of a deck list states, given what
/// the pattern of such lines found in it: the number that the digits of the
/// first group write, and the second group, trimmed, in lower case. A line
/// that the pattern does not find, or whose number no counter holds, states
/// nothing.
pub open spec fn entry_of_groups(groups: Option<Option<Seq<Option<Seq<char>>>>>) -> Option<
    (nat, Seq<char>),
> {
    match groups {
        Some(Some(found)) => match generic_of_symbol(group_text(found, 1)) {
            Some(count) => Some((count, lowercase_of(trimmed_of(group_text(found, 2))))),
            None => None,
        },
        _ => None,
    }
}

/// The entry that a line of a deck list states, given what the pattern of
/// such lines found in it.
pub fn entry_from_groups(groups: &Option<Option<Vec<Option<String>>>>) -> (r: Option<
    DeckListEntry,
>)
    ensures
        match entry_of_groups(groups.deep_view()) {
            Some((count, name)) => r is Some && r->Some_0.count == count && r->Some_0.name@
                == name,
            None => r is None,
        },
{
    match groups {
        Some(Some(found)) => match read_generic(group(found, 1)) {
            Some(count) => Some(
                DeckListEntry { count, name: to_lowercase(trimmed(group(found, 2))) },
            ),
            None => None,
        },
        _ => None,
    }
}

/// The entry that a line of a deck list states, if it states one.
pub fn parse_deck_line(line: &str) -> (r: Option<DeckListEntry>)
    ensures
        match entry_of_groups(regex_captures(DECK_LINE@, line@)) {
            Some((count, name)) => r is Some && r->Some_0.count == count && r->Some_0.name@
                == name,
            None => r is None,
        },
{
    let groups = captures(DECK_LINE, line);
    entry_from_groups(&groups)
}

} // verus!
