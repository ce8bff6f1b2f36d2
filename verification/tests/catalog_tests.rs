use decksim::card::{Card, CardData, Cost, Effect, Trigger, TypeSet, Types};
use decksim::catalog::{
    entry_from_groups, name_to_file, parse_cost_record, parse_cost_string, parse_deck_line,
    parse_effect_record, parse_enters_tapped, parse_mulligan, parse_trigger_string, read_mulligan,
    EffectRecord,
};
use decksim::chance::{decide, happens};
use decksim::game::{Game, GameStats, MulliganType, TurnStats};
use decksim::mana::{Color, Mana};
use decksim::pool::ManaPool;
use decksim::tally::{count_arrivals, sum_of_arrivals, sum_of_game, sum_of_turn, Column};
use decksim::zone::Zone;
use rand::rngs::StdRng;
use rand::SeedableRng;

#[test]
fn name_to_file_replaces_slashes() {
    assert_eq!(name_to_file("sol ring"), "cards.db/sol ring.json");
    assert_eq!(name_to_file("fire // ice"), "cards.db/fire __ ice.json");
    assert_eq!(name_to_file(""), "cards.db/.json");
}

#[test]
fn enters_tapped_is_read_from_the_lower_case_text() {
    assert!(parse_enters_tapped(
        "jungle hollow",
        "Jungle Hollow enters the battlefield tapped.\nWhen Jungle Hollow enters..."
    ));
    assert!(!parse_enters_tapped("jungle hollow", "{T}: Add {B} or {G}."));
    // the name is taken as it is given
    assert!(!parse_enters_tapped("Jungle Hollow", "Jungle Hollow enters the battlefield tapped."));
}

#[test]
fn costs_by_name() {
    assert_eq!(parse_cost_string("tap"), Ok(Cost::Tap));
    assert_eq!(parse_cost_string("tap-sacrifice"), Ok(Cost::TapSacrifice));
    assert_eq!(parse_cost_string("none"), Ok(Cost::Free));
    assert_eq!(parse_cost_string("Tap"), Err("invalid 'cost' string!".to_string()));
    assert_eq!(parse_cost_record(Some("tap"), None), Ok(Cost::Tap));
    assert_eq!(
        parse_cost_record(Some("tap-mana-sacrifice"), Some("{2}{G}")),
        Ok(Cost::TapManaSacrifice(ManaPool::new_from_string("{2}{G}").unwrap()))
    );
    assert_eq!(
        parse_cost_record(Some("tap-mana-sacrifice"), None),
        Err("invalid 'mana::produce' value".to_string())
    );
    assert_eq!(
        parse_cost_record(Some("tap-mana-sacrifice"), Some("{}")),
        Err("invalid mana cost... \"{}\"".to_string())
    );
    assert_eq!(parse_cost_record(Some("mana"), None), Err("invalid 'cost::type' value...".to_string()));
    assert_eq!(parse_cost_record(None, None), Err("invalid 'cost::type' value...".to_string()));
}

#[test]
fn cost_predicates() {
    let pool = || ManaPool::new_from_string("{1}").unwrap();
    assert!(Cost::Free.is_none());
    assert!(!Cost::Tap.is_none());
    for (cost, tap, sacrifice, mana) in [
        (Cost::Free, false, false, false),
        (Cost::Tap, true, false, false),
        (Cost::Sacrifice, false, true, false),
        (Cost::Mana(pool()), false, false, true),
        (Cost::TapSacrifice, true, true, false),
        (Cost::TapMana(pool()), true, false, true),
        (Cost::TapManaSacrifice(pool()), true, true, true),
    ] {
        assert_eq!(cost.is_tap(), tap);
        assert_eq!(cost.is_sacrifice(), sacrifice);
        assert_eq!(cost.is_mana().is_some(), mana);
        assert_eq!(cost.mana_value(), if mana { 1 } else { 0 });
    }
    assert!(Trigger::Cast.is_cast() && !Trigger::Cast.is_activated() && !Trigger::Cast.is_upkeep());
    assert!(Trigger::Activated.is_activated() && !Trigger::Activated.is_cast());
    assert!(Trigger::Upkeep.is_upkeep() && !Trigger::Upkeep.is_activated());
    assert!(Effect::Draw(vec![1]).is_draw() && !Effect::Draw(vec![1]).is_produce_mana());
    assert!(Effect::ProduceMana(pool()).is_produce_mana() && !Effect::LandLimit(1).is_fetch_land());
    assert!(Effect::FetchLand { to_hand: vec![], to_battlefield: vec![] }.is_fetch_land());
}

#[test]
fn triggers_by_name() {
    assert_eq!(parse_trigger_string("activated"), Ok(Trigger::Activated));
    assert_eq!(parse_trigger_string("upkeep"), Ok(Trigger::Upkeep));
    assert_eq!(parse_trigger_string("cast"), Ok(Trigger::Cast));
    assert_eq!(parse_trigger_string(""), Err("invalid 'trigger' string".to_string()));
}

fn record(kind: &str) -> EffectRecord {
    EffectRecord {
        kind: Some(kind.to_string()),
        produce: None,
        to_hand: vec![],
        to_battlefield: vec![],
        count: None,
        increase: None,
    }
}

#[test]
fn effects_by_record() {
    let mut mana = record("mana");
    assert_eq!(parse_effect_record(mana), Err("invalid 'mana::produce' value".to_string()));
    mana = record("mana");
    mana.produce = Some("{B/G/R/W/U}".to_string());
    assert_eq!(parse_effect_record(mana), Ok(Effect::ProduceMana(ManaPool::new_from_single(&Mana::any()))));
    let mut fetch = record("land-fetch");
    fetch.to_battlefield = vec!["basic land".to_string()];
    assert_eq!(
        parse_effect_record(fetch),
        Ok(Effect::FetchLand { to_hand: vec![], to_battlefield: vec!["basic land".to_string()] })
    );
    let mut draw = record("draw");
    assert_eq!(parse_effect_record(draw), Err("failed to parse 'draw' effect!".to_string()));
    draw = record("draw");
    draw.count = Some(vec![0, 1, 2]);
    assert_eq!(parse_effect_record(draw), Ok(Effect::Draw(vec![0, 1, 2])));
    let mut limit = record("land-limit");
    assert_eq!(parse_effect_record(limit), Err("invalid 'increase' in land-limit".to_string()));
    limit = record("land-limit");
    limit.increase = Some(2);
    assert_eq!(parse_effect_record(limit), Ok(Effect::LandLimit(2)));
    assert_eq!(parse_effect_record(record("scry")), Err("invalid 'effect::type' string".to_string()));
    let mut nothing = record("");
    nothing.kind = None;
    assert_eq!(parse_effect_record(nothing), Err("invalid 'effect::type' string".to_string()));
}

#[test]
fn mulligan_by_name() {
    assert_eq!(parse_mulligan(&Some("3-lands".to_string())), MulliganType::ThreeLands);
    assert_eq!(parse_mulligan(&Some("none".to_string())), MulliganType::Keep);
    assert_eq!(parse_mulligan(&None), MulliganType::Keep);
    assert_eq!(read_mulligan(&Some("nona".to_string())), None);
    assert_eq!(read_mulligan(&None), Some(MulliganType::Keep));
}

#[test]
fn deck_lines() {
    let entry = parse_deck_line("12x Snow-Covered Forest").unwrap();
    assert_eq!(entry.count, 12);
    assert_eq!(entry.name, "snow-covered forest");
    let entry = parse_deck_line("1x  Kozilek, Butcher of Truth  (extra)").unwrap();
    assert_eq!((entry.count, entry.name.as_str()), (1, "kozilek, butcher of truth"));
    assert!(parse_deck_line("Forest").is_none());
    assert!(parse_deck_line("x Forest").is_none());
    assert!(parse_deck_line("99999999999x Forest").is_none());
    let groups = Some(Some(vec![Some("7x A".to_string()), Some("7".to_string()), Some(" A ".to_string())]));
    let entry = entry_from_groups(&groups).unwrap();
    assert_eq!((entry.count, entry.name.as_str()), (7, "a"));
    assert!(entry_from_groups(&Some(None)).is_none());
    assert!(entry_from_groups(&None).is_none());
    assert!(entry_from_groups(&Some(Some(vec![Some("x".to_string()), None, None]))).is_none());
}

#[test]
fn chance_decides_by_the_roll() {
    assert!(decide(1000, 999));
    assert!(decide(200, 199));
    assert!(!decide(200, 200));
    assert!(!decide(0, 0));
    let mut rng = StdRng::seed_from_u64(3);
    let mut hits = 0;
    for _ in 0..2000 {
        assert!(happens(1000, &mut rng));
        assert!(happens(4000, &mut rng));
        assert!(!happens(0, &mut rng));
        if happens(500, &mut rng) {
            hits += 1;
        }
    }
    assert!(hits > 800 && hits < 1200);
}

fn land(name: &str, made: Option<Mana>) -> CardData {
    CardData {
        name: name.to_string(),
        cmc: 0,
        mana_cost: None,
        type_string: "Land".to_string(),
        types: TypeSet::empty().with(Types::Land),
        produced_mana: made,
        enters_tapped: false,
        abilities: None,
    }
}

#[test]
fn produced_colors_of_the_lands() {
    let swamp = land("Swamp", Some(Mana::black()));
    let hollow = land("Hollow", Some(Mana::make_dual(Color::Black, Color::Green)));
    let waste = land("Waste", None);
    let mut rock = land("Rock", Some(Mana::red()));
    rock.types = TypeSet::empty().with(Types::Artifact);
    let mut zone = Zone::new("Battlefield");
    assert!(zone.find_produced_colors().is_colorless());
    zone.add(Card::new(&swamp));
    zone.add(Card::new(&rock));
    zone.add(Card::new(&waste));
    assert_eq!(zone.find_produced_colors(), Mana::black());
    zone.add(Card::new(&hollow));
    assert_eq!(zone.find_produced_colors(), Mana::make_dual(Color::Green, Color::Black));
    let mut unit = Mana::white();
    unit.unite(&Mana::make_dual(Color::Blue, Color::White));
    assert_eq!(unit, Mana::make_dual(Color::White, Color::Blue));
}

#[test]
fn add_to_deck_fills_library_and_command_zone() {
    let swamp = land("Swamp", Some(Mana::black()));
    let mut game = Game::new();
    assert!(game.add_to_deck(&swamp, 3, false));
    assert!(game.add_to_deck(&swamp, 1, true));
    assert!(!game.add_to_deck(&swamp, 2, true));
    assert!(game.add_to_deck(&swamp, 0, false));
    assert!(!game.add_to_deck(&swamp, u32::MAX, false));
    assert_eq!(game.library.size(), 3);
    assert_eq!(game.command.size(), 1);
    assert!(game.library.cards.iter().all(|card| card.id == 0 && !card.tapped));
}

fn turn(number: u32, drawn: u32, spent: u32) -> TurnStats {
    TurnStats {
        turn_number: number,
        lands_played: 1,
        lands_cheated: 0,
        cards_drawn: drawn,
        cards_played: 2,
        cards_in_hand: 5,
        mana_available: number,
        mana_spent: spent,
    }
}

#[test]
fn tallies_add_up() {
    let games = vec![
        GameStats { mulligan_count: 0, turn_commander_played: 2, turns_stats: vec![turn(1, 1, 0), turn(2, 3, 2)] },
        GameStats { mulligan_count: 1, turn_commander_played: 0, turns_stats: vec![turn(1, 1, 1), turn(2, 1, 1)] },
        GameStats { mulligan_count: 0, turn_commander_played: 2, turns_stats: vec![turn(1, 2, 1), turn(2, 1, 2)] },
    ];
    assert_eq!(sum_of_turn(&games, 0, Column::CardsDrawn), 4);
    assert_eq!(sum_of_turn(&games, 1, Column::CardsDrawn), 5);
    assert_eq!(sum_of_turn(&games, 1, Column::ManaSpent), 5);
    assert_eq!(sum_of_turn(&games, 1, Column::ManaAvailable), 6);
    assert_eq!(sum_of_turn(&games, 0, Column::LandsPlayed), 3);
    assert_eq!(sum_of_turn(&games, 0, Column::LandsCheated), 0);
    assert_eq!(sum_of_turn(&games, 0, Column::CardsPlayed), 6);
    assert_eq!(sum_of_turn(&games, 0, Column::CardsInHand), 15);
    assert_eq!(sum_of_game(&games[0], Column::CardsDrawn), 4);
    assert_eq!(count_arrivals(&games, 0), 1);
    assert_eq!(count_arrivals(&games, 2), 2);
    assert_eq!(count_arrivals(&games, 1), 0);
    assert_eq!(sum_of_arrivals(&games), 4);
    assert_eq!(sum_of_turn(&vec![], 0, Column::CardsDrawn), 0);
}
