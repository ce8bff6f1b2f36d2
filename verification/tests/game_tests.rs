use decksim::card::{parse_types, Ability, Card, CardData, Cost, Effect, Trigger, TypeSet, Types, ALWAYS};
use decksim::game::{Fault, Game, MulliganType, Settings};
use decksim::mana::{Color, Mana};
use decksim::order::sort_cards_on_colors_produced;
use decksim::pips::PipCounts;
use decksim::pool::ManaPool;
use decksim::search::Purpose;
use decksim::turn::Turn;
use decksim::zone::Zone;
use rand::rngs::StdRng;
use rand::{Rng, SeedableRng};

fn tap_for(name: &str, type_line: &str, types: TypeSet, made: Mana, units: Vec<Mana>) -> CardData {
    CardData {
        name: name.to_string(),
        cmc: 0,
        mana_cost: None,
        type_string: type_line.to_string(),
        types,
        produced_mana: Some(made),
        enters_tapped: false,
        abilities: Some(vec![Ability {
            trigger: Trigger::Activated,
            cost: Cost::Tap,
            effect: Effect::ProduceMana(ManaPool::new_from_sequence(&units)),
            availability: ALWAYS,
        }]),
    }
}

fn make_sol_ring_data() -> CardData {
    let mut data = tap_for(
        "Sol Ring",
        "Artifact",
        TypeSet::empty().with(Types::Artifact),
        Mana::colorless(),
        vec![Mana::colorless(), Mana::colorless()],
    );
    data.cmc = 1;
    data.mana_cost = Some(ManaPool::new_from_sequence(&vec![Mana::colorless()]));
    data
}

fn make_commanders_sphere_data() -> CardData {
    let mut data = tap_for(
        "Commander's Sphere",
        "Artifact",
        TypeSet::empty().with(Types::Artifact),
        Mana::any(),
        vec![Mana::any()],
    );
    data.cmc = 1;
    data.mana_cost = Some(ManaPool::new_from_sequence(&vec![
        Mana::colorless(),
        Mana::colorless(),
        Mana::colorless(),
    ]));
    data
}

fn make_plains_data() -> CardData {
    tap_for("Plains", "Basic Land", TypeSet::empty().with(Types::Land), Mana::white(), vec![Mana::white()])
}

fn make_swamp_data() -> CardData {
    tap_for("Swamp", "Basic Land", TypeSet::empty().with(Types::Land), Mana::black(), vec![Mana::black()])
}

fn make_command_tower_data() -> CardData {
    tap_for("Command Tower", "Land", TypeSet::empty().with(Types::Land), Mana::any(), vec![Mana::any()])
}

fn make_jungle_hollow_data() -> CardData {
    let dual = Mana::make_dual(Color::Black, Color::Green);
    let mut data =
        tap_for("Jungle Hollow", "Land", TypeSet::empty().with(Types::Land), dual, vec![dual]);
    data.enters_tapped = true;
    data
}

fn make_elk_data() -> CardData {
    CardData {
        name: "Just an Elk".to_string(),
        cmc: 3,
        mana_cost: Some(ManaPool::new_from_sequence(&vec![
            Mana::colorless(),
            Mana::colorless(),
            Mana::green(),
        ])),
        type_string: "Creature".to_string(),
        types: TypeSet::empty().with(Types::Creature),
        produced_mana: None,
        enters_tapped: false,
        abilities: None,
    }
}

fn spell(name: &str, cmc: u32, cost: &str, type_line: &str, types: TypeSet, abilities: Vec<Ability>) -> CardData {
    CardData {
        name: name.to_string(),
        cmc,
        mana_cost: Some(ManaPool::new_from_string(cost).unwrap()),
        type_string: type_line.to_string(),
        types,
        produced_mana: None,
        enters_tapped: false,
        abilities: Some(abilities),
    }
}

fn ids_of(zone: &Zone) -> Vec<u32> {
    zone.cards.iter().map(|card| card.id).collect()
}

fn all_ids_sorted(game: &Game) -> Vec<u32> {
    let mut ids = Vec::new();
    ids.extend(ids_of(&game.library));
    ids.extend(ids_of(&game.hand));
    ids.extend(ids_of(&game.command));
    ids.extend(ids_of(&game.battlefield));
    ids.extend(ids_of(&game.graveyard));
    ids.sort();
    ids
}

#[test]
fn test_carddata_parse_types() {
    let only = |t: Types| TypeSet::empty().with(t);
    assert_eq!(parse_types("something land something"), only(Types::Land));
    assert_eq!(parse_types("something creature something"), only(Types::Creature));
    assert_eq!(parse_types("something artifact something"), only(Types::Artifact));
    assert_eq!(parse_types("something planeswalker something"), only(Types::Planeswalker));
    assert_eq!(parse_types("something enchantment something"), only(Types::Enchantment));
    assert_eq!(parse_types("something sorcery something"), only(Types::Sorcery));
    assert_eq!(parse_types("something instant something"), only(Types::Instant));
    assert_eq!(parse_types("land creature - angel"), only(Types::Land).with(Types::Creature));
    assert_eq!(parse_types("legendary artifact - equipment"), only(Types::Artifact));
    assert_eq!(parse_types("something land something"), only(Types::Land));
    assert_eq!(
        parse_types("legendary enchantment creature"),
        only(Types::Creature).with(Types::Enchantment)
    );
}

#[test]
fn parse_types_ignores_case() {
    assert_eq!(parse_types("Basic LAND"), TypeSet::empty().with(Types::Land));
    assert_eq!(parse_types("Tribal"), TypeSet::empty());
}

#[test]
fn test_turn_gather_mana_pool() {
    let sol_ring_data = make_sol_ring_data();
    let swamp_data = make_swamp_data();
    let command_tower_data = make_command_tower_data();
    let commanders_sphere_data = make_commanders_sphere_data();
    let elk_data = make_elk_data();

    let mut game: Game = Game::new();
    game.battlefield.add(Card::new_with_id(1, &command_tower_data));
    game.battlefield.add(Card::new_with_id(2, &sol_ring_data));
    game.battlefield.add(Card::new_with_id(3, &swamp_data));
    game.battlefield.add(Card::new_with_id(4, &commanders_sphere_data));
    game.battlefield.add(Card::new_with_id(5, &elk_data));

    let mut rng = StdRng::seed_from_u64(42);
    let mut turn = Turn::new(42);
    turn.gather_mana_pool(&game, &mut rng).unwrap();
    assert_eq!(turn.mana_pool.colorless, 2);
    assert_eq!(turn.mana_pool.all, 2);
    assert_eq!(turn.mana_pool.black, 1);
    assert_eq!(turn.mana_pool.cmc(), 5);
    assert!(turn.cards_in_mana_pool.contains(&1));
    assert!(turn.cards_in_mana_pool.contains(&4));
    assert!(!turn.cards_in_mana_pool.contains(&5));
}

#[test]
fn gather_passes_over_tapped_cards() {
    let swamp_data = make_swamp_data();
    let plains_data = make_plains_data();
    let mut game: Game = Game::new();
    let mut tapped = Card::new_with_id(1, &swamp_data);
    tapped.tapped = true;
    game.battlefield.add(tapped);
    game.battlefield.add(Card::new_with_id(2, &plains_data));
    let mut rng = StdRng::seed_from_u64(1);
    let mut turn = Turn::new(1);
    turn.gather_mana_pool(&game, &mut rng).unwrap();
    assert_eq!(turn.mana_pool.black, 0);
    assert_eq!(turn.mana_pool.white, 1);
}

#[test]
fn test_game_sort_cards_on_colors_produced() {
    let swamp_data = make_swamp_data();
    let command_tower_data = make_command_tower_data();
    let jungle_hollow_data = make_jungle_hollow_data();
    let elk_data = make_elk_data();

    let mut cards = vec![
        Card::new_with_id(1, &swamp_data),
        Card::new_with_id(2, &elk_data),
        Card::new_with_id(3, &command_tower_data),
        Card::new_with_id(4, &jungle_hollow_data),
    ];

    sort_cards_on_colors_produced(&mut cards);
    assert_eq!(cards[0].id, 3); // command tower
    assert_eq!(cards[1].id, 4); // jungle hollow
    assert_eq!(cards[2].id, 1); // swamp
    assert_eq!(cards[3].id, 2); // elk
}

#[test]
fn sort_keeps_the_order_of_equals() {
    let swamp_data = make_swamp_data();
    let plains_data = make_plains_data();
    let mut cards = vec![
        Card::new_with_id(7, &swamp_data),
        Card::new_with_id(3, &plains_data),
        Card::new_with_id(5, &swamp_data),
    ];
    sort_cards_on_colors_produced(&mut cards);
    assert_eq!(cards.iter().map(|c| c.id).collect::<Vec<u32>>(), vec![7, 3, 5]);
}

#[test]
fn test_pipcount_prioritized_delta() {
    let hand = PipCounts::from_counts(35, 10, 20, 30, 5);
    assert_eq!(
        hand.prioritized_delta(&PipCounts::from_counts(100, 0, 0, 0, 0)),
        vec![Color::Red, Color::Green, Color::Blue, Color::White]
    );
    assert_eq!(
        hand.prioritized_delta(&PipCounts::from_counts(40, 0, 30, 30, 0)),
        vec![Color::Blue, Color::White]
    );
    assert_eq!(
        hand.prioritized_delta(&PipCounts::from_counts(20, 20, 20, 20, 20)),
        vec![Color::Black, Color::Red]
    );
}

#[test]
fn prioritized_delta_against_nothing_orders_by_count() {
    let hand = PipCounts::from_counts(1, 3, 0, 3, 2);
    assert_eq!(
        hand.prioritized_delta(&PipCounts::new()),
        vec![Color::Blue, Color::Red, Color::White, Color::Black]
    );
    assert_eq!(PipCounts::new().prioritized_delta(&hand), Vec::<Color>::new());
}

#[test]
fn prioritized_delta_compares_shares_not_counts() {
    // 1 of 2 is a larger share than 40 of 100
    let hand = PipCounts::from_counts(1, 1, 0, 0, 0);
    let pool = PipCounts::from_counts(40, 60, 0, 0, 0);
    assert_eq!(hand.prioritized_delta(&pool), vec![Color::Black]);
}

#[test]
fn zone_take_and_draw() {
    let swamp_data = make_swamp_data();
    let elk_data = make_elk_data();
    let mut zone = Zone::new("Hand");
    zone.add(Card::new_with_id(1, &swamp_data));
    zone.add(Card::new_with_id(2, &elk_data));
    zone.add(Card::new_with_id(3, &swamp_data));
    assert_eq!(zone.size(), 3);
    assert!(zone.contains(&Card::new_with_id(2, &swamp_data)));
    assert!(!zone.contains(&Card::new_with_id(9, &swamp_data)));
    assert!(zone.take(9).is_none());
    assert_eq!(zone.take(2).unwrap().id, 2);
    assert_eq!(ids_of(&zone), vec![1, 3]);
    assert_eq!(zone.draw().unwrap().id, 3);
    assert_eq!(zone.draw().unwrap().id, 1);
    assert!(zone.draw().is_none());
}

#[test]
fn zone_take_land_ignores_case() {
    let swamp_data = make_swamp_data();
    let tower_data = make_command_tower_data();
    let elk_data = make_elk_data();
    let mut zone = Zone::new("Library");
    zone.add(Card::new_with_id(1, &elk_data));
    zone.add(Card::new_with_id(2, &tower_data));
    zone.add(Card::new_with_id(3, &swamp_data));
    assert_eq!(zone.take_land("BASIC land").unwrap().id, 3);
    assert_eq!(zone.take_land("land").unwrap().id, 2);
    assert!(zone.take_land("land").is_none());
    assert_eq!(ids_of(&zone), vec![1]);
}

#[test]
fn zone_assign_ids_and_untap() {
    let swamp_data = make_swamp_data();
    let mut zone = Zone::new("Library");
    for _ in 0..3 {
        let mut card = Card::new(&swamp_data);
        card.tapped = true;
        zone.add(card);
    }
    assert_eq!(zone.assign_ids(5), 8);
    assert_eq!(ids_of(&zone), vec![5, 6, 7]);
    zone.untap_all();
    assert!(zone.cards.iter().all(|card| !card.tapped));
    assert_eq!(zone.query(Types::Land).len(), 3);
    assert_eq!(zone.query(Types::Creature).len(), 0);
    zone.clear();
    assert_eq!(zone.size(), 0);
}

#[test]
fn zone_shuffle_keeps_the_cards() {
    let swamp_data = make_swamp_data();
    let mut zone = Zone::new("Library");
    for id in 0..20 {
        zone.add(Card::new_with_id(id, &swamp_data));
    }
    let mut rng = StdRng::seed_from_u64(7);
    zone.shuffle(&mut rng);
    let mut ids = ids_of(&zone);
    assert_ne!(ids, (0..20).collect::<Vec<u32>>());
    ids.sort();
    assert_eq!(ids, (0..20).collect::<Vec<u32>>());
    let mut empty = Zone::new("Empty");
    empty.shuffle(&mut rng);
    assert_eq!(empty.size(), 0);
}

#[test]
fn zone_sort_by_cmc_is_stable() {
    let ring = make_sol_ring_data();
    let elk = make_elk_data();
    let sphere = make_commanders_sphere_data();
    let mut zone = Zone::new("Command");
    zone.add(Card::new_with_id(1, &elk));
    zone.add(Card::new_with_id(2, &ring));
    zone.add(Card::new_with_id(3, &sphere));
    zone.sort_by_cmc();
    assert_eq!(ids_of(&zone), vec![2, 3, 1]);
}

#[test]
fn count_pips_counts_colors_of_costs() {
    let elk = make_elk_data();
    let ring = make_sol_ring_data();
    let gold = spell("Gold", 3, "{1}{B/G}{B/G/R/U/W}", "Creature", TypeSet::empty().with(Types::Creature), vec![]);
    let mut zone = Zone::new("Hand");
    zone.add(Card::new_with_id(1, &elk));
    zone.add(Card::new_with_id(2, &ring));
    zone.add(Card::new_with_id(3, &gold));
    let pips = zone.count_pips_in_mana_costs();
    assert_eq!(pips.count(Color::Black), 2);
    assert_eq!(pips.count(Color::Blue), 1);
    assert_eq!(pips.count(Color::Green), 3);
    assert_eq!(pips.count(Color::Red), 1);
    assert_eq!(pips.count(Color::White), 1);
}

#[test]
fn game_draw_cards_moves_the_top_cards() {
    let swamp_data = make_swamp_data();
    let mut game = Game::new();
    for id in 1..=5 {
        game.library.add(Card::new_with_id(id, &swamp_data));
    }
    assert_eq!(game.draw_cards(2), Ok(()));
    assert_eq!(ids_of(&game.library), vec![1, 2, 3]);
    assert_eq!(ids_of(&game.hand), vec![5, 4]);
    assert_eq!(game.draw_cards(4), Err(Fault::LibraryEmpty));
    assert_eq!(ids_of(&game.library), vec![1, 2, 3]);
    assert_eq!(ids_of(&game.hand), vec![5, 4]);
}

#[test]
fn land_choice_prefers_the_color_in_demand() {
    let swamp_data = make_swamp_data();
    let plains_data = make_plains_data();
    let elk_data = make_elk_data();
    let mut game = Game::new();
    game.hand.add(Card::new_with_id(1, &plains_data));
    game.hand.add(Card::new_with_id(2, &swamp_data));
    game.hand.add(Card::new_with_id(3, &elk_data));
    let turn = Turn::new(1);
    // the elk asks for green, which no land makes: the first land is played
    assert_eq!(turn.choose_land(&game).unwrap().id, 1);

    let black = spell("Black", 2, "{B}{B}", "Creature", TypeSet::empty().with(Types::Creature), vec![]);
    game.hand.add(Card::new_with_id(4, &black));
    assert_eq!(turn.choose_land(&game).unwrap().id, 2);

    let tower = make_command_tower_data();
    game.hand.add(Card::new_with_id(5, &tower));
    // lands that make mana of more colors come first
    assert_eq!(turn.choose_land(&game).unwrap().id, 5);
}

#[test]
fn try_to_play_land_plays_one_land_only() {
    let swamp_data = make_swamp_data();
    let mut game = Game::new();
    game.hand.add(Card::new_with_id(1, &swamp_data));
    game.hand.add(Card::new_with_id(2, &swamp_data));
    let mut rng = StdRng::seed_from_u64(3);
    let mut turn = Turn::new(1);
    assert_eq!(turn.try_to_play_land(&mut game, &mut rng), Ok(true));
    assert_eq!(ids_of(&game.hand), vec![2]);
    assert_eq!(ids_of(&game.battlefield), vec![1]);
    assert_eq!(turn.lands_played, 1);
    assert_eq!(turn.turn_stats.lands_played, 1);
    assert_eq!(turn.mana_pool.black, 1);
    assert_eq!(turn.try_to_play_land(&mut game, &mut rng), Ok(false));
    assert_eq!(ids_of(&game.hand), vec![2]);
}

#[test]
fn land_that_enters_tapped_adds_no_mana() {
    let hollow = make_jungle_hollow_data();
    let mut game = Game::new();
    game.hand.add(Card::new_with_id(1, &hollow));
    let mut rng = StdRng::seed_from_u64(3);
    let mut turn = Turn::new(1);
    assert_eq!(turn.try_to_play_land(&mut game, &mut rng), Ok(true));
    assert!(game.battlefield.cards[0].tapped);
    assert_eq!(turn.mana_pool.cmc(), 0);
}

#[test]
fn try_to_play_commander_pays_its_cost() {
    let elk = make_elk_data();
    let mut game = Game::new();
    game.command.add(Card::new_with_id(1, &elk));
    let mut turn = Turn::new(4);
    assert_eq!(turn.try_to_play_commander(&mut game), Ok(false));
    turn.mana_pool = ManaPool::new_from_string("{G}{G}{R}").unwrap();
    assert_eq!(turn.try_to_play_commander(&mut game), Ok(true));
    assert_eq!(game.command.size(), 0);
    assert_eq!(ids_of(&game.battlefield), vec![1]);
    assert_eq!(game.game_stats.turn_commander_played, 4);
    assert_eq!(turn.mana_spent.cmc(), 3);
    assert_eq!(turn.turn_stats.cards_played, 1);
    assert_eq!(turn.try_to_play_commander(&mut game), Ok(false));
}

#[test]
fn commander_without_cost_is_a_fault() {
    let swamp = make_swamp_data();
    let mut game = Game::new();
    game.command.add(Card::new_with_id(1, &swamp));
    let mut turn = Turn::new(1);
    assert_eq!(turn.try_to_play_commander(&mut game), Err(Fault::CommanderWithoutCost));
}

#[test]
fn ramp_spell_fetches_lands() {
    let swamp = make_swamp_data();
    let plains = make_plains_data();
    let cultivate = spell(
        "Cultivate",
        3,
        "{2}{G}",
        "Sorcery",
        TypeSet::empty().with(Types::Sorcery),
        vec![Ability {
            trigger: Trigger::Cast,
            cost: Cost::Free,
            effect: Effect::FetchLand {
                to_hand: vec!["basic land".to_string()],
                to_battlefield: vec!["basic land".to_string()],
            },
            availability: ALWAYS,
        }],
    );
    let mut game = Game::new();
    game.library.add(Card::new_with_id(1, &swamp));
    game.library.add(Card::new_with_id(2, &plains));
    game.library.add(Card::new_with_id(3, &swamp));
    game.hand.add(Card::new_with_id(4, &cultivate));
    let before = all_ids_sorted(&game);
    let mut rng = StdRng::seed_from_u64(11);
    let mut turn = Turn::new(3);
    assert_eq!(turn.try_to_play_ramp_spell(&mut game, &mut rng), Ok(false));
    turn.mana_pool = ManaPool::new_from_string("{G}{G}{G}").unwrap();
    assert_eq!(turn.try_to_play_ramp_spell(&mut game, &mut rng), Ok(true));
    assert_eq!(ids_of(&game.hand), vec![1]);
    assert_eq!(ids_of(&game.battlefield), vec![2]);
    assert!(game.battlefield.cards[0].tapped);
    assert_eq!(ids_of(&game.library), vec![3]);
    assert_eq!(ids_of(&game.graveyard), vec![4]);
    assert_eq!(turn.turn_stats.lands_cheated, 1);
    assert_eq!(turn.turn_stats.cards_played, 1);
    assert_eq!(turn.mana_spent.cmc(), 3);
    assert_eq!(all_ids_sorted(&game), before);
}

#[test]
fn draw_ability_with_sacrifice_takes_its_mana_back() {
    let mut sphere = make_commanders_sphere_data();
    sphere.abilities.as_mut().unwrap().push(Ability {
        trigger: Trigger::Activated,
        cost: Cost::Sacrifice,
        effect: Effect::Draw(vec![1]),
        availability: ALWAYS,
    });
    let swamp = make_swamp_data();
    let mut game = Game::new();
    game.library.add(Card::new_with_id(1, &swamp));
    game.battlefield.add(Card::new_with_id(2, &sphere));
    let mut rng = StdRng::seed_from_u64(5);
    let mut turn = Turn::new(2);
    turn.gather_mana_pool(&game, &mut rng).unwrap();
    assert_eq!(turn.mana_pool.all, 1);
    assert_eq!(turn.try_to_activate_draw_spell(&mut game, &mut rng), Ok(true));
    assert_eq!(turn.mana_pool.all, 0);
    assert!(!turn.cards_in_mana_pool.contains(&2));
    assert_eq!(ids_of(&game.graveyard), vec![2]);
    assert_eq!(ids_of(&game.hand), vec![1]);
    assert_eq!(turn.turn_stats.cards_drawn, 1);
    assert_eq!(turn.try_to_activate_draw_spell(&mut game, &mut rng), Ok(false));
}

#[test]
fn sacrifice_for_cards_waits_once_a_land_was_played() {
    let mut sphere = make_commanders_sphere_data();
    sphere.abilities.as_mut().unwrap().push(Ability {
        trigger: Trigger::Activated,
        cost: Cost::Sacrifice,
        effect: Effect::Draw(vec![1]),
        availability: ALWAYS,
    });
    let swamp = make_swamp_data();
    let mut game = Game::new();
    game.library.add(Card::new_with_id(1, &swamp));
    game.battlefield.add(Card::new_with_id(2, &sphere));
    let mut rng = StdRng::seed_from_u64(5);
    let mut turn = Turn::new(2);
    turn.lands_played = 1;
    assert_eq!(turn.try_to_activate_draw_spell(&mut game, &mut rng), Ok(false));
    assert_eq!(ids_of(&game.battlefield), vec![2]);
}

#[test]
fn tap_ability_cannot_be_used_twice() {
    let wilds = CardData {
        name: "Evolving Wilds".to_string(),
        cmc: 0,
        mana_cost: None,
        type_string: "Land".to_string(),
        types: TypeSet::empty().with(Types::Land),
        produced_mana: None,
        enters_tapped: false,
        abilities: Some(vec![Ability {
            trigger: Trigger::Activated,
            cost: Cost::Tap,
            effect: Effect::FetchLand { to_hand: vec![], to_battlefield: vec!["basic".to_string()] },
            availability: ALWAYS,
        }]),
    };
    let swamp = make_swamp_data();
    let mut game = Game::new();
    game.library.add(Card::new_with_id(1, &swamp));
    game.library.add(Card::new_with_id(2, &swamp));
    game.battlefield.add(Card::new_with_id(3, &wilds));
    let mut rng = StdRng::seed_from_u64(5);
    let mut turn = Turn::new(2);
    assert_eq!(turn.try_to_activate_ramp_ability(&mut game, &mut rng), Ok(true));
    assert_eq!(game.battlefield.size(), 2);
    assert!(game.battlefield.cards.iter().all(|card| card.tapped));
    assert_eq!(turn.try_to_activate_ramp_ability(&mut game, &mut rng), Ok(false));
    assert_eq!(game.library.size(), 1);
}

#[test]
fn ability_that_costs_nothing_is_left_alone() {
    let fount = CardData {
        name: "Fount".to_string(),
        cmc: 0,
        mana_cost: None,
        type_string: "Artifact".to_string(),
        types: TypeSet::empty().with(Types::Artifact),
        produced_mana: None,
        enters_tapped: false,
        abilities: Some(vec![Ability {
            trigger: Trigger::Activated,
            cost: Cost::Free,
            effect: Effect::Draw(vec![1]),
            availability: ALWAYS,
        }]),
    };
    let swamp = make_swamp_data();
    let mut game = Game::new();
    game.library.add(Card::new_with_id(1, &swamp));
    game.battlefield.add(Card::new_with_id(2, &fount));
    let mut rng = StdRng::seed_from_u64(5);
    let mut turn = Turn::new(2);
    assert_eq!(turn.try_to_activate_draw_spell(&mut game, &mut rng), Ok(false));
    assert_eq!(turn.take_actions(&mut game, &mut rng), Ok(0));
    assert_eq!(game.library.size(), 1);
}

#[test]
fn try_to_empty_hand_plays_the_most_expensive_first() {
    let elk = make_elk_data();
    let bear = CardData {
        name: "Bear".to_string(),
        cmc: 2,
        mana_cost: Some(ManaPool::new_from_string("{1}{G}").unwrap()),
        type_string: "Creature".to_string(),
        types: TypeSet::empty().with(Types::Creature),
        produced_mana: None,
        enters_tapped: false,
        abilities: None,
    };
    let mut game = Game::new();
    game.hand.add(Card::new_with_id(1, &bear));
    game.hand.add(Card::new_with_id(2, &elk));
    game.hand.add(Card::new_with_id(3, &elk));
    let mut rng = StdRng::seed_from_u64(5);
    let mut turn = Turn::new(2);
    turn.mana_pool = ManaPool::new_from_string("{G}{G}{G}{G}{G}").unwrap();
    assert_eq!(turn.choose_spare(&game), Some(1));
    assert_eq!(turn.try_to_empty_hand(&mut game, &mut rng), Ok(true));
    assert_eq!(ids_of(&game.hand), vec![1, 3]);
    assert_eq!(turn.try_to_empty_hand(&mut game, &mut rng), Ok(true));
    assert_eq!(ids_of(&game.hand), vec![3]);
    assert_eq!(ids_of(&game.battlefield), vec![2, 1]);
    assert_eq!(turn.try_to_empty_hand(&mut game, &mut rng), Ok(false));
    assert_eq!(turn.mana_spent.cmc(), 5);
}

#[test]
fn action_loop_stops_at_once_with_nothing_to_play() {
    let elk = make_elk_data();
    let mut game = Game::new();
    for id in 1..=4 {
        game.hand.add(Card::new_with_id(id, &elk));
    }
    game.battlefield.add(Card::new_with_id(5, &elk));
    let mut rng = StdRng::seed_from_u64(9);
    let mut turn = Turn::new(1);
    assert_eq!(turn.take_actions(&mut game, &mut rng), Ok(0));
    assert_eq!(ids_of(&game.hand), vec![1, 2, 3, 4]);
    assert_eq!(ids_of(&game.battlefield), vec![5]);
    assert_eq!(turn.mana_spent.cmc(), 0);
    assert_eq!(turn.turn_stats.cards_played, 0);
}

#[test]
fn action_loop_plays_land_then_spells() {
    let swamp = make_swamp_data();
    let ring = make_sol_ring_data();
    let elk = make_elk_data();
    let mut game = Game::new();
    game.hand.add(Card::new_with_id(1, &elk));
    game.hand.add(Card::new_with_id(2, &ring));
    game.hand.add(Card::new_with_id(3, &swamp));
    let before = all_ids_sorted(&game);
    let mut rng = StdRng::seed_from_u64(9);
    let mut turn = Turn::new(1);
    // the land, then the ring, paid for by the land; the ring makes two more
    assert_eq!(turn.take_actions(&mut game, &mut rng), Ok(2));
    assert_eq!(ids_of(&game.battlefield), vec![3, 2]);
    assert_eq!(ids_of(&game.hand), vec![1]);
    assert_eq!(turn.mana_pool.cmc(), 3);
    assert_eq!(turn.mana_spent.cmc(), 1);
    assert_eq!(all_ids_sorted(&game), before);
}

#[test]
fn find_lists_usable_abilities_in_order() {
    let swamp = make_swamp_data();
    let ring = make_sol_ring_data();
    let elk = make_elk_data();
    let mut game = Game::new();
    game.battlefield.add(Card::new_with_id(1, &elk));
    game.battlefield.add(Card::new_with_id(2, &ring));
    game.battlefield.add(Card::new_with_id(3, &swamp));
    let mut rng = StdRng::seed_from_u64(9);
    let turn = Turn::new(1);
    let found = turn.find_abilities_on_battlefield(&game, Purpose::Mana, &mut rng).unwrap();
    assert_eq!(found.iter().map(|f| (f.at, f.card.id, f.ability)).collect::<Vec<_>>(), vec![(1, 2, 0), (2, 3, 0)]);
    assert!(turn.find_abilities_on_battlefield(&game, Purpose::Ramp, &mut rng).unwrap().is_empty());
    assert!(turn.find_spells_in_hand(&game, Purpose::RampSpell, &mut rng).is_empty());
}

fn deck<'db>(lands: &'db CardData, others: &'db CardData, commander: &'db CardData) -> Game<'db> {
    let mut game = Game::new();
    for _ in 0..12 {
        game.library.add(Card::new(lands));
    }
    for _ in 0..18 {
        game.library.add(Card::new(others));
    }
    game.command.add(Card::new(commander));
    game
}

#[test]
fn mulligan_until_three_lands() {
    let swamp = make_swamp_data();
    let elk = make_elk_data();
    let settings = Settings { draw_card_on_turn_one: true, turn_count: 0, mulligan: MulliganType::ThreeLands };
    let mut with_mulligan = 0;
    for seed in 0..40u64 {
        let mut game = deck(&swamp, &elk, &elk);
        game.library.assign_ids(1);
        let mut rng = StdRng::seed_from_u64(seed);
        assert_eq!(game.draw_and_mulligan(&settings, &mut rng), Ok(()));
        assert_eq!(game.hand.size(), 7);
        assert_eq!(game.library.size(), 23);
        assert!(game.hand.query(Types::Land).len() >= 3);
        assert_eq!(all_ids_sorted(&game).len(), 31);

        // the same shuffles, done by hand, and counted
        let mut again = deck(&swamp, &elk, &elk);
        again.library.assign_ids(1);
        let mut rng = StdRng::seed_from_u64(seed);
        let full = again.library.clone();
        let mut reshuffles = 0;
        loop {
            again.library = full.clone();
            again.library.shuffle(&mut rng);
            again.hand.clear();
            again.draw_cards(7).unwrap();
            if again.hand.query(Types::Land).len() >= 3 {
                break;
            }
            reshuffles += 1;
        }
        assert_eq!(game.game_stats.mulligan_count, reshuffles);
        assert_eq!(ids_of(&game.hand), ids_of(&again.hand));
        if reshuffles > 0 {
            with_mulligan += 1;
        }
    }
    assert!(with_mulligan > 0);
}

#[test]
fn no_mulligan_keeps_the_first_hand() {
    let swamp = make_swamp_data();
    let elk = make_elk_data();
    let settings = Settings { draw_card_on_turn_one: true, turn_count: 0, mulligan: MulliganType::Keep };
    let mut game = deck(&swamp, &elk, &elk);
    let mut rng = StdRng::seed_from_u64(2);
    assert_eq!(game.draw_and_mulligan(&settings, &mut rng), Ok(()));
    assert_eq!(game.hand.size(), 7);
    assert_eq!(game.game_stats.mulligan_count, 0);
    let mut small = Game::new();
    small.library.add(Card::new(&swamp));
    assert_eq!(small.draw_and_mulligan(&settings, &mut rng), Err(Fault::LibraryEmpty));
}

#[test]
fn game_play_records_each_turn() {
    let swamp = make_swamp_data();
    let elk = make_elk_data();
    let settings = Settings { draw_card_on_turn_one: true, turn_count: 6, mulligan: MulliganType::ThreeLands };
    for seed in 0..10u64 {
        let mut game = deck(&swamp, &elk, &elk);
        let mut rng = StdRng::seed_from_u64(seed);
        assert_eq!(game.play(&settings, &mut rng), Ok(()));
        let stats = &game.game_stats;
        assert_eq!(stats.turns_stats.len(), 6);
        let mut lands = 0;
        for (i, turn) in stats.turns_stats.iter().enumerate() {
            assert_eq!(turn.turn_number, i as u32 + 1);
            assert_eq!(turn.cards_drawn, 1);
            assert!(turn.lands_played <= 1);
            assert!(turn.mana_spent <= turn.mana_available);
            lands += turn.lands_played;
            assert_eq!(turn.mana_available, lands);
        }
        assert!(lands >= 3);
        // three swamps and more pay for no green elk
        assert_eq!(stats.turn_commander_played, 0);
        let ids = all_ids_sorted(&game);
        assert_eq!(ids, (1..=31).collect::<Vec<u32>>());
        assert_eq!(game.command.cards[0].id, 1);
    }
}

#[test]
fn game_play_runs_out_of_cards() {
    let swamp = make_swamp_data();
    let mut game = Game::new();
    for _ in 0..8 {
        game.library.add(Card::new(&swamp));
    }
    let settings = Settings { draw_card_on_turn_one: true, turn_count: 5, mulligan: MulliganType::Keep };
    let mut rng = StdRng::seed_from_u64(1);
    assert_eq!(game.play(&settings, &mut rng), Err(Fault::LibraryEmpty));
}

#[test]
fn no_card_on_the_first_turn_if_so_set() {
    let swamp = make_swamp_data();
    let elk = make_elk_data();
    let settings = Settings { draw_card_on_turn_one: false, turn_count: 2, mulligan: MulliganType::Keep };
    let mut game = deck(&swamp, &elk, &elk);
    let mut rng = StdRng::seed_from_u64(1);
    assert_eq!(game.play(&settings, &mut rng), Ok(()));
    assert_eq!(game.game_stats.turns_stats[0].cards_drawn, 0);
    assert_eq!(game.game_stats.turns_stats[1].cards_drawn, 1);
}

#[test]
fn cheapest_ability_is_the_first_of_the_cheapest() {
    let pool = |cost: &str| ManaPool::new_from_string(cost).unwrap();
    let draw = |cost: Cost| Ability { trigger: Trigger::Activated, cost, effect: Effect::Draw(vec![1]), availability: ALWAYS };
    let mut tome = make_elk_data();
    tome.abilities = Some(vec![
        draw(Cost::TapMana(pool("{3}"))),
        draw(Cost::Mana(pool("{1}"))),
        draw(Cost::TapMana(pool("{1}"))),
    ]);
    let card = Card::new_with_id(1, &tome);
    let found: Vec<decksim::search::Found> = (0..3).map(|ability| decksim::search::Found { at: 0, card, ability }).collect();
    assert_eq!(decksim::actions::cheapest_ability(&found), 1);
    let elk = make_elk_data();
    let ring = make_sol_ring_data();
    let spells = vec![
        decksim::search::Found { at: 0, card: Card::new_with_id(1, &elk), ability: 0 },
        decksim::search::Found { at: 1, card: Card::new_with_id(2, &ring), ability: 0 },
        decksim::search::Found { at: 2, card: Card::new_with_id(3, &ring), ability: 0 },
    ];
    assert_eq!(decksim::actions::cheapest_spell(&spells), 1);
}

#[test]
fn activation_for_mana_spends_it() {
    let tome = CardData {
        name: "Tome".to_string(),
        cmc: 2,
        mana_cost: None,
        type_string: "Artifact".to_string(),
        types: TypeSet::empty().with(Types::Artifact),
        produced_mana: None,
        enters_tapped: false,
        abilities: Some(vec![Ability {
            trigger: Trigger::Activated,
            cost: Cost::Mana(ManaPool::new_from_string("{2}").unwrap()),
            effect: Effect::Draw(vec![1]),
            availability: ALWAYS,
        }]),
    };
    let swamp = make_swamp_data();
    let mut game = Game::new();
    for id in 1..=5 {
        game.library.add(Card::new_with_id(id, &swamp));
    }
    game.battlefield.add(Card::new_with_id(6, &swamp));
    game.battlefield.add(Card::new_with_id(7, &tome));
    let mut rng = StdRng::seed_from_u64(1);
    let mut turn = Turn::new(3);
    turn.mana_pool = ManaPool::new_from_string("{B}{B}{B}{B}{B}").unwrap();
    // the ability is paid for twice, then the mana runs out
    assert_eq!(turn.try_to_activate_draw_spell(&mut game, &mut rng), Ok(true));
    assert_eq!(ids_of(&game.battlefield), vec![6, 7]);
    assert!(!game.battlefield.cards[1].tapped);
    assert_eq!(turn.try_to_activate_draw_spell(&mut game, &mut rng), Ok(true));
    assert_eq!(turn.try_to_activate_draw_spell(&mut game, &mut rng), Ok(false));
    assert_eq!(turn.mana_spent.cmc(), 4);
    assert_eq!(game.hand.size(), 2);
    assert_eq!(turn.turn_stats.cards_drawn, 2);
}

#[test]
fn tap_for_mana_adds_source_by_source() {
    let tower = make_command_tower_data();
    let ring = make_sol_ring_data();
    let found = vec![
        decksim::search::Found { at: 0, card: Card::new_with_id(4, &tower), ability: 0 },
        decksim::search::Found { at: 1, card: Card::new_with_id(9, &ring), ability: 0 },
    ];
    let mut turn = Turn::new(1);
    assert_eq!(turn.tap_for_mana(&found), Ok(()));
    assert_eq!(turn.mana_pool, ManaPool::new_from_sequence(&vec![Mana::any(), Mana::colorless(), Mana::colorless()]));
    assert!(turn.cards_in_mana_pool.contains(&4) && turn.cards_in_mana_pool.contains(&9));
    turn.mana_pool.colorless = u32::MAX - 3;
    assert_eq!(turn.tap_for_mana(&found), Err(Fault::TooMany));
    assert_eq!(turn.mana_pool.all, 1);
}

#[test]
fn upkeep_abilities_take_effect() {
    let arena = CardData {
        name: "Arena".to_string(),
        cmc: 3,
        mana_cost: None,
        type_string: "Enchantment".to_string(),
        types: TypeSet::empty().with(Types::Enchantment),
        produced_mana: None,
        enters_tapped: false,
        abilities: Some(vec![
            Ability { trigger: Trigger::Upkeep, cost: Cost::Free, effect: Effect::Draw(vec![1]), availability: ALWAYS },
            Ability { trigger: Trigger::Upkeep, cost: Cost::Free, effect: Effect::ProduceMana(ManaPool::new_from_string("{G}").unwrap()), availability: ALWAYS },
            Ability { trigger: Trigger::Upkeep, cost: Cost::Free, effect: Effect::Draw(vec![5]), availability: 0 },
        ]),
    };
    let swamp = make_swamp_data();
    let mut game = Game::new();
    for id in 1..=3 {
        game.library.add(Card::new_with_id(id, &swamp));
    }
    game.battlefield.add(Card::new_with_id(4, &arena));
    let mut rng = StdRng::seed_from_u64(1);
    let mut turn = Turn::new(2);
    assert_eq!(turn.upkeep(&mut game, &mut rng), Ok(()));
    assert_eq!(ids_of(&game.hand), vec![3]);
    assert_eq!(turn.mana_pool.green, 1);
    assert_eq!(turn.turn_stats.cards_drawn, 1);
    let settings = Settings { draw_card_on_turn_one: true, turn_count: 1, mulligan: MulliganType::Keep };
    let mut turn = Turn::new(2);
    assert_eq!(turn.play(&mut game, &settings, &mut rng), Ok(()));
    assert_eq!(turn.turn_stats.cards_drawn, 2);
    assert_eq!(turn.turn_stats.lands_played, 1);
    assert_eq!(turn.turn_stats.mana_available, 2);
    assert_eq!(turn.turn_stats.cards_in_hand, 2);
    assert_eq!(game.library.size(), 0);
    let mut turn = Turn::new(3);
    assert_eq!(turn.play(&mut game, &settings, &mut rng), Err(Fault::LibraryEmpty));
}

#[test]
fn land_limit_spell_needs_a_land_in_hand() {
    let explore = spell(
        "Explore",
        2,
        "{1}{G}",
        "Sorcery",
        TypeSet::empty().with(Types::Sorcery),
        vec![Ability { trigger: Trigger::Cast, cost: Cost::Free, effect: Effect::LandLimit(1), availability: ALWAYS }],
    );
    let swamp = make_swamp_data();
    let mut game = Game::new();
    game.hand.add(Card::new_with_id(1, &explore));
    let mut rng = StdRng::seed_from_u64(1);
    let mut turn = Turn::new(2);
    turn.mana_pool = ManaPool::new_from_string("{G}{G}").unwrap();
    assert_eq!(turn.try_to_play_ramp_spell(&mut game, &mut rng), Ok(false));
    game.hand.add(Card::new_with_id(2, &swamp));
    game.hand.add(Card::new_with_id(3, &swamp));
    turn.lands_played = 1;
    assert_eq!(turn.take_actions(&mut game, &mut rng), Ok(2));
    assert_eq!(turn.land_limit, 2);
    assert_eq!(ids_of(&game.graveyard), vec![1]);
    assert_eq!(ids_of(&game.battlefield), vec![2]);
    assert_eq!(ids_of(&game.hand), vec![3]);
}

#[test]
fn playing_what_cannot_be_paid_is_a_fault() {
    let elk = make_elk_data();
    let mut game = Game::new();
    let mut rng = StdRng::seed_from_u64(1);
    let mut turn = Turn::new(2);
    assert_eq!(turn.play_card(&mut game, Card::new_with_id(1, &elk), &mut rng), Err(Fault::CannotPay));
    let mut sphere = make_commanders_sphere_data();
    sphere.abilities.as_mut().unwrap()[0].cost = Cost::TapManaSacrifice(ManaPool::new_from_string("{1}").unwrap());
    let card = Card::new_with_id(2, &sphere);
    turn.cards_in_mana_pool.insert(2);
    assert_eq!(
        turn.pay_activation_cost(&mut game, card, &sphere.abilities.as_ref().unwrap()[0].cost),
        Err(Fault::ManaMissing)
    );
}

#[test]
fn gather_takes_free_mana_of_untapped_cards_only() {
    let mut moss = make_elk_data();
    moss.abilities = Some(vec![Ability {
        trigger: Trigger::Activated,
        cost: Cost::Free,
        effect: Effect::ProduceMana(ManaPool::new_from_string("{G}").unwrap()),
        availability: ALWAYS,
    }]);
    let mut game = Game::new();
    game.battlefield.add(Card::new_with_id(1, &moss));
    let mut tapped = Card::new_with_id(2, &moss);
    tapped.tapped = true;
    game.battlefield.add(tapped);
    let mut rng = StdRng::seed_from_u64(1);
    let mut turn = Turn::new(2);
    turn.gather_mana_pool(&game, &mut rng).unwrap();
    assert_eq!(turn.mana_pool.green, 1);
    assert!(turn.cards_in_mana_pool.contains(&1) && !turn.cards_in_mana_pool.contains(&2));
}

#[test]
fn a_card_does_not_pay_for_its_own_ability() {
    let mut rock = make_sol_ring_data();
    rock.abilities.as_mut().unwrap().push(Ability {
        trigger: Trigger::Activated,
        cost: Cost::TapMana(ManaPool::new_from_string("{2}").unwrap()),
        effect: Effect::Draw(vec![1]),
        availability: ALWAYS,
    });
    let swamp = make_swamp_data();
    let mut game = Game::new();
    game.library.add(Card::new_with_id(1, &swamp));
    game.library.add(Card::new_with_id(2, &swamp));
    game.battlefield.add(Card::new_with_id(3, &rock));
    let mut rng = StdRng::seed_from_u64(1);
    let mut turn = Turn::new(2);
    turn.gather_mana_pool(&game, &mut rng).unwrap();
    assert_eq!(turn.mana_pool.colorless, 2);
    // its own two mana do not pay for it
    assert_eq!(turn.try_to_activate_draw_spell(&mut game, &mut rng), Ok(false));
    game.battlefield.add(Card::new_with_id(4, &swamp));
    game.battlefield.add(Card::new_with_id(5, &swamp));
    let mut turn = Turn::new(3);
    turn.gather_mana_pool(&game, &mut rng).unwrap();
    assert_eq!(turn.mana_pool.cmc(), 4);
    assert_eq!(turn.try_to_activate_draw_spell(&mut game, &mut rng), Ok(true));
    // the mana of the rock has left the pool with the rock tapped
    assert_eq!(turn.mana_pool.colorless, 0);
    assert_eq!(turn.mana_pool.black, 2);
    assert_eq!(turn.mana_spent.cmc(), 2);
    assert!(!turn.cards_in_mana_pool.contains(&3));
    assert!(game.battlefield.cards.iter().any(|card| card.id == 3 && card.tapped));
    assert_eq!(game.hand.size(), 1);
}

#[test]
fn mana_on_entry_is_added_to_the_pool() {
    let ritual = spell(
        "Ritual",
        1,
        "{B}",
        "Instant",
        TypeSet::empty().with(Types::Instant),
        vec![Ability {
            trigger: Trigger::Cast,
            cost: Cost::Free,
            effect: Effect::ProduceMana(ManaPool::new_from_string("{B}{B}{B}").unwrap()),
            availability: ALWAYS,
        }],
    );
    let mut game = Game::new();
    game.hand.add(Card::new_with_id(1, &ritual));
    let mut rng = StdRng::seed_from_u64(1);
    let mut turn = Turn::new(2);
    turn.mana_pool = ManaPool::new_from_string("{B}").unwrap();
    assert_eq!(turn.take_actions(&mut game, &mut rng), Ok(1));
    assert_eq!(turn.mana_pool.black, 4);
    assert_eq!(turn.mana_spent.black, 1);
    assert_eq!(ids_of(&game.graveyard), vec![1]);
}

#[test]
fn calm_turn_untaps_and_draws() {
    let elk = make_elk_data();
    let mut game = Game::new();
    for id in 1..=3 {
        game.library.add(Card::new_with_id(id, &elk));
    }
    game.hand.add(Card::new_with_id(4, &elk));
    let mut tapped = Card::new_with_id(5, &elk);
    tapped.tapped = true;
    game.battlefield.add(tapped);
    game.command.add(Card::new_with_id(6, &elk));
    let settings = Settings { draw_card_on_turn_one: false, turn_count: 1, mulligan: MulliganType::Keep };
    let mut rng = StdRng::seed_from_u64(4);
    let mut turn = Turn::new(1);
    assert_eq!(turn.play(&mut game, &settings, &mut rng), Ok(()));
    assert_eq!(ids_of(&game.hand), vec![4]);
    assert_eq!(ids_of(&game.library), vec![1, 2, 3]);
    assert!(!game.battlefield.cards[0].tapped);
    assert_eq!(turn.turn_stats.cards_drawn, 0);
    assert_eq!(turn.turn_stats.cards_in_hand, 1);
    let mut turn = Turn::new(2);
    assert_eq!(turn.play(&mut game, &settings, &mut rng), Ok(()));
    assert_eq!(ids_of(&game.hand), vec![4, 3]);
    assert_eq!(ids_of(&game.library), vec![1, 2]);
    assert_eq!(ids_of(&game.command), vec![6]);
    assert_eq!(ids_of(&game.battlefield), vec![5]);
    assert_eq!(turn.turn_stats.cards_drawn, 1);
    assert_eq!(turn.turn_stats.cards_in_hand, 2);
    assert_eq!(turn.turn_stats.cards_played, 0);
    assert_eq!(turn.turn_stats.mana_available, 0);
    assert_eq!(turn.turn_stats.mana_spent, 0);
    assert_eq!(turn.mana_pool.cmc(), 0);
}

#[test]
fn barren_game_only_draws() {
    let elk = make_elk_data();
    for draw_first in [true, false] {
        let mut game = Game::new();
        assert!(game.add_to_deck(&elk, 12, false));
        assert!(game.add_to_deck(&elk, 1, true));
        let settings = Settings { draw_card_on_turn_one: draw_first, turn_count: 5, mulligan: MulliganType::Keep };
        let mut rng = StdRng::seed_from_u64(8);
        assert_eq!(game.play(&settings, &mut rng), Ok(()));
        let draws = if draw_first { 5 } else { 4 };
        assert_eq!(game.hand.size(), 7 + draws);
        assert_eq!(game.library.size(), 12 - 7 - draws);
        assert_eq!(game.battlefield.size(), 0);
        assert_eq!(game.graveyard.size(), 0);
        assert_eq!(game.command.size(), 1);
        assert_eq!(game.game_stats.mulligan_count, 0);
        assert_eq!(game.game_stats.turn_commander_played, 0);
        let mut in_hand = 7;
        for (i, turn) in game.game_stats.turns_stats.iter().enumerate() {
            let drawn = if i == 0 && !draw_first { 0 } else { 1 };
            in_hand += drawn;
            assert_eq!(turn.turn_number, i as u32 + 1);
            assert_eq!(turn.cards_drawn, drawn);
            assert_eq!(turn.cards_in_hand, in_hand);
            assert_eq!(
                (turn.lands_played, turn.lands_cheated, turn.cards_played, turn.mana_available, turn.mana_spent),
                (0, 0, 0, 0, 0)
            );
        }
    }
}

#[test]
fn game_without_an_opening_hand_fails() {
    let elk = make_elk_data();
    let mut game = Game::new();
    assert!(game.add_to_deck(&elk, 6, false));
    let settings = Settings { draw_card_on_turn_one: true, turn_count: 0, mulligan: MulliganType::ThreeLands };
    let mut rng = StdRng::seed_from_u64(8);
    assert_eq!(game.play(&settings, &mut rng), Err(Fault::LibraryEmpty));
    let mut game = Game::new();
    assert!(game.add_to_deck(&elk, 7, false));
    let settings = Settings { draw_card_on_turn_one: true, turn_count: 0, mulligan: MulliganType::Keep };
    assert_eq!(game.play(&settings, &mut rng), Ok(()));
    assert_eq!(game.hand.size(), 7);
    assert!(game.game_stats.turns_stats.is_empty());
}

#[test]
fn land_comes_before_the_commander() {
    let swamp = make_swamp_data();
    let ring = make_sol_ring_data();
    let mut game = Game::new();
    game.hand.add(Card::new_with_id(1, &swamp));
    game.command.add(Card::new_with_id(2, &ring));
    let mut rng = StdRng::seed_from_u64(8);
    let mut turn = Turn::new(3);
    turn.mana_pool = ManaPool::new_from_string("{C}").unwrap();
    assert_eq!(turn.try_action(&mut game, &mut rng), Ok(true));
    assert_eq!(ids_of(&game.battlefield), vec![1]);
    assert_eq!(ids_of(&game.command), vec![2]);
    assert_eq!(turn.lands_played, 1);
    assert_eq!(turn.try_action(&mut game, &mut rng), Ok(true));
    assert_eq!(ids_of(&game.battlefield), vec![1, 2]);
    assert_eq!(game.game_stats.turn_commander_played, 3);
    assert_eq!(turn.try_action(&mut game, &mut rng), Ok(false));
}

#[test]
fn actions_end_at_rest() {
    let swamp = make_swamp_data();
    let ring = make_sol_ring_data();
    let elk = make_elk_data();
    for seed in 0..5u64 {
        let mut game = Game::new();
        game.hand.add(Card::new_with_id(1, &elk));
        game.hand.add(Card::new_with_id(2, &ring));
        game.hand.add(Card::new_with_id(3, &swamp));
        game.hand.add(Card::new_with_id(4, &swamp));
        game.command.add(Card::new_with_id(5, &ring));
        let mut rng = StdRng::seed_from_u64(seed);
        let mut turn = Turn::new(1);
        let done = turn.take_actions(&mut game, &mut rng).unwrap();
        assert_eq!(done, 2);
        let hand = ids_of(&game.hand);
        let spent = turn.mana_spent.cmc();
        // nothing more can be done
        assert_eq!(turn.try_action(&mut game, &mut rng), Ok(false));
        assert_eq!(turn.take_actions(&mut game, &mut rng), Ok(0));
        assert_eq!(ids_of(&game.hand), hand);
        assert_eq!(turn.mana_spent.cmc(), spent);
    }
}

#[test]
fn turn_play_gathers_the_mana_of_the_battlefield() {
    let sol_ring_data = make_sol_ring_data();
    let swamp_data = make_swamp_data();
    let command_tower_data = make_command_tower_data();
    let commanders_sphere_data = make_commanders_sphere_data();
    let elk_data = make_elk_data();
    let mut game = Game::new();
    game.battlefield.add(Card::new_with_id(1, &command_tower_data));
    game.battlefield.add(Card::new_with_id(2, &sol_ring_data));
    game.battlefield.add(Card::new_with_id(3, &swamp_data));
    game.battlefield.add(Card::new_with_id(4, &commanders_sphere_data));
    game.battlefield.add(Card::new_with_id(5, &elk_data));
    let settings =
        Settings { draw_card_on_turn_one: false, turn_count: 1, mulligan: MulliganType::Keep };
    let mut rng = StdRng::seed_from_u64(42);
    let mut turn = Turn::new(1);
    assert_eq!(turn.play(&mut game, &settings, &mut rng), Ok(()));
    assert_eq!(turn.mana_pool.colorless, 2);
    assert_eq!(turn.mana_pool.all, 2);
    assert_eq!(turn.mana_pool.black, 1);
    assert_eq!(turn.turn_stats.mana_available, 5);
    assert_eq!(turn.turn_stats.mana_spent, 0);
    assert_eq!(turn.turn_stats.cards_drawn, 0);
    assert_eq!(turn.turn_stats.cards_in_hand, 0);
    assert_eq!(ids_of(&game.battlefield), vec![1, 2, 3, 4, 5]);
}

#[test]
fn turn_play_draws_the_card_of_the_turn() {
    let sol_ring_data = make_sol_ring_data();
    let swamp_data = make_swamp_data();
    let elk_data = make_elk_data();
    let mut game = Game::new();
    game.battlefield.add(Card::new_with_id(1, &swamp_data));
    game.battlefield.add(Card::new_with_id(2, &sol_ring_data));
    game.library.add(Card::new_with_id(3, &elk_data));
    let settings =
        Settings { draw_card_on_turn_one: false, turn_count: 2, mulligan: MulliganType::Keep };
    let mut rng = StdRng::seed_from_u64(42);
    let mut turn = Turn::new(2);
    assert_eq!(turn.play(&mut game, &settings, &mut rng), Ok(()));
    assert_eq!(turn.turn_stats.cards_drawn, 1);
    assert_eq!(turn.turn_stats.cards_in_hand, 1);
    assert_eq!(turn.turn_stats.mana_available, 3);
    assert_eq!(turn.turn_stats.cards_played, 0);
    assert_eq!(turn.turn_stats.lands_played, 0);
    assert_eq!(ids_of(&game.hand), vec![3]);
    assert_eq!(ids_of(&game.battlefield), vec![1, 2]);
    assert_eq!(game.library.size(), 0);
    // the library is empty now: the next turn has no card to draw
    let mut turn = Turn::new(3);
    assert_eq!(turn.play(&mut game, &settings, &mut rng), Err(Fault::LibraryEmpty));
}

#[test]
fn the_land_of_more_colors_is_played_first() {
    let swamp = make_swamp_data();
    let tower = make_command_tower_data();
    let mut game = Game::new();
    game.hand.add(Card::new_with_id(1, &swamp));
    game.hand.add(Card::new_with_id(2, &tower));
    let mut rng = StdRng::seed_from_u64(3);
    let mut turn = Turn::new(1);
    assert_eq!(turn.try_to_play_land(&mut game, &mut rng), Ok(true));
    assert_eq!(ids_of(&game.battlefield), vec![2]);
    assert!(!game.battlefield.cards[0].tapped);
    assert_eq!(ids_of(&game.hand), vec![1]);
    assert_eq!(turn.mana_pool.all, 1);
    assert_eq!(turn.mana_pool.cmc(), 1);
    assert_eq!(turn.turn_stats.lands_played, 1);
    assert_eq!(turn.turn_stats.cards_played, 0);
    // a counter without room is the fault
    let mut game = Game::new();
    game.hand.add(Card::new_with_id(1, &swamp));
    let mut turn = Turn::new(1);
    turn.turn_stats.lands_played = u32::MAX;
    assert_eq!(turn.try_to_play_land(&mut game, &mut rng), Err(Fault::TooMany));
}

#[test]
fn fetch_lands_counts_the_lands_cheated() {
    let swamp = make_swamp_data();
    let plains = make_plains_data();
    let tower = make_command_tower_data();
    let set_up = || {
        let mut game = Game::new();
        game.library.add(Card::new_with_id(1, &tower));
        game.library.add(Card::new_with_id(2, &swamp));
        game.library.add(Card::new_with_id(3, &plains));
        game.library.add(Card::new_with_id(4, &swamp));
        game
    };
    let to_hand = vec!["basic".to_string(), "forest".to_string()];
    let to_battlefield = vec!["LAND".to_string(), "basic land".to_string()];
    let mut game = set_up();
    let mut rng = StdRng::seed_from_u64(9);
    let mut turn = Turn::new(1);
    assert_eq!(turn.fetch_lands(&mut game, &to_hand, &to_battlefield, &mut rng), Ok(()));
    assert_eq!(ids_of(&game.hand), vec![2]);
    assert_eq!(ids_of(&game.battlefield), vec![1, 3]);
    assert!(game.battlefield.cards.iter().all(|card| card.tapped));
    assert_eq!(ids_of(&game.library), vec![4]);
    assert_eq!(turn.turn_stats.lands_cheated, 2);
    assert_eq!(turn.mana_pool.cmc(), 0);
    // no room for the second land
    let mut game = set_up();
    let mut turn = Turn::new(1);
    turn.turn_stats.lands_cheated = u32::MAX - 1;
    assert_eq!(
        turn.fetch_lands(&mut game, &to_hand, &to_battlefield, &mut rng),
        Err(Fault::TooMany)
    );
    // room for the one land that is there
    let mut game = set_up();
    let mut turn = Turn::new(1);
    turn.turn_stats.lands_cheated = u32::MAX - 1;
    let one = vec!["basic".to_string(), "island".to_string()];
    assert_eq!(turn.fetch_lands(&mut game, &Vec::new(), &one, &mut rng), Ok(()));
    assert_eq!(turn.turn_stats.lands_cheated, u32::MAX);
}

#[test]
fn draw_cards_draws_one_of_the_counts_or_nothing() {
    let swamp = make_swamp_data();
    let mut game = Game::new();
    for id in 1..=4 {
        game.library.add(Card::new_with_id(id, &swamp));
    }
    let mut rng = StdRng::seed_from_u64(13);
    let mut turn = Turn::new(1);
    assert_eq!(turn.draw_cards(&mut game, &Vec::new(), &mut rng), Ok(()));
    assert_eq!(game.hand.size(), 0);
    assert_eq!(turn.draw_cards(&mut game, &vec![5], &mut rng), Err(Fault::LibraryEmpty));
    assert_eq!(ids_of(&game.library), vec![1, 2, 3, 4]);
    assert_eq!(turn.turn_stats.cards_drawn, 0);
    assert_eq!(turn.draw_cards(&mut game, &vec![2, 2, 2], &mut rng), Ok(()));
    assert_eq!(ids_of(&game.hand), vec![4, 3]);
    assert_eq!(ids_of(&game.library), vec![1, 2]);
    assert_eq!(turn.turn_stats.cards_drawn, 2);
    turn.turn_stats.cards_drawn = u32::MAX;
    assert_eq!(turn.draw_cards(&mut game, &vec![1], &mut rng), Err(Fault::TooMany));
    assert_eq!(ids_of(&game.hand), vec![4, 3]);
    assert_eq!(turn.draw_cards(&mut game, &vec![0], &mut rng), Ok(()));
    assert_eq!(turn.turn_stats.cards_drawn, u32::MAX);
    // one of the counts, whichever is rolled
    for seed in 0..20u64 {
        let mut game = Game::new();
        for id in 1..=4 {
            game.library.add(Card::new_with_id(id, &swamp));
        }
        let mut rng = StdRng::seed_from_u64(seed);
        let mut turn = Turn::new(1);
        assert_eq!(turn.draw_cards(&mut game, &vec![1, 3], &mut rng), Ok(()));
        let drawn = turn.turn_stats.cards_drawn;
        assert!(drawn == 1 || drawn == 3);
        assert_eq!(game.hand.size(), drawn);
    }
}

#[test]
fn take_effect_does_what_the_effect_says() {
    let swamp = make_swamp_data();
    let ring = make_sol_ring_data();
    let mut game = Game::new();
    game.library.add(Card::new_with_id(1, &swamp));
    game.library.add(Card::new_with_id(2, &swamp));
    let card = Card::new_with_id(7, &ring);
    let mut rng = StdRng::seed_from_u64(1);
    let mut turn = Turn::new(1);
    let mana = Effect::ProduceMana(ManaPool::new_from_string("{B}{1}").unwrap());
    assert_eq!(turn.take_effect(&mut game, &card, &mana, &mut rng), Ok(()));
    assert_eq!(turn.mana_pool, ManaPool::new_from_string("{B}{1}").unwrap());
    assert!(turn.cards_in_mana_pool.contains(&7));
    assert_eq!(turn.take_effect(&mut game, &card, &Effect::LandLimit(2), &mut rng), Ok(()));
    assert_eq!(turn.land_limit, 1);
    assert_eq!(turn.take_effect(&mut game, &card, &Effect::Draw(vec![1]), &mut rng), Ok(()));
    assert_eq!(ids_of(&game.hand), vec![2]);
    let fetch = Effect::FetchLand { to_hand: vec![], to_battlefield: vec!["land".to_string()] };
    assert_eq!(turn.take_effect(&mut game, &card, &fetch, &mut rng), Ok(()));
    assert_eq!(ids_of(&game.battlefield), vec![1]);
    assert_eq!(turn.turn_stats.lands_cheated, 1);
    assert_eq!(turn.turn_stats.cards_drawn, 1);
    assert_eq!(
        turn.take_effect(&mut game, &card, &Effect::Draw(vec![1]), &mut rng),
        Err(Fault::LibraryEmpty)
    );
}

#[test]
fn play_card_names_its_fault() {
    let elk = make_elk_data();
    let divination = spell(
        "Divination",
        3,
        "{2}{U}",
        "Sorcery",
        TypeSet::empty().with(Types::Sorcery),
        vec![Ability {
            trigger: Trigger::Cast,
            cost: Cost::Free,
            effect: Effect::Draw(vec![2]),
            availability: ALWAYS,
        }],
    );
    let mut rng = StdRng::seed_from_u64(1);
    // the library holds fewer cards than are drawn
    let mut game = Game::new();
    game.library.add(Card::new_with_id(1, &elk));
    let mut turn = Turn::new(2);
    turn.mana_pool = ManaPool::new_from_string("{U}{U}{U}").unwrap();
    assert_eq!(
        turn.play_card(&mut game, Card::new_with_id(2, &divination), &mut rng),
        Err(Fault::LibraryEmpty)
    );
    // the count of cards played has no room
    let mut game = Game::new();
    let mut turn = Turn::new(2);
    turn.mana_pool = ManaPool::new_from_string("{G}{G}{G}").unwrap();
    turn.turn_stats.cards_played = u32::MAX;
    assert_eq!(
        turn.play_card(&mut game, Card::new_with_id(1, &elk), &mut rng),
        Err(Fault::TooMany)
    );
    // room, cards and mana enough
    let mut game = Game::new();
    game.library.add(Card::new_with_id(1, &elk));
    game.library.add(Card::new_with_id(2, &elk));
    let mut turn = Turn::new(2);
    turn.mana_pool = ManaPool::new_from_string("{U}{U}{U}").unwrap();
    assert_eq!(turn.play_card(&mut game, Card::new_with_id(3, &divination), &mut rng), Ok(()));
    assert_eq!(ids_of(&game.hand), vec![2, 1]);
    assert_eq!(ids_of(&game.graveyard), vec![3]);
    assert_eq!(turn.turn_stats.cards_drawn, 2);
    assert_eq!(turn.turn_stats.cards_played, 1);
    assert_eq!(turn.mana_spent.cmc(), 3);
}

#[test]
fn the_cheapest_spell_is_cast_first() {
    let swamp = make_swamp_data();
    let fetch = |name: &str, cmc: u32, cost: &str| {
        spell(
            name,
            cmc,
            cost,
            "Sorcery",
            TypeSet::empty().with(Types::Sorcery),
            vec![Ability {
                trigger: Trigger::Cast,
                cost: Cost::Free,
                effect: Effect::FetchLand {
                    to_hand: vec!["land".to_string()],
                    to_battlefield: vec![],
                },
                availability: ALWAYS,
            }],
        )
    };
    let dear = fetch("Dear", 3, "{3}");
    let cheap = fetch("Cheap", 1, "{1}");
    let mut game = Game::new();
    game.library.add(Card::new_with_id(1, &swamp));
    game.library.add(Card::new_with_id(2, &swamp));
    game.hand.add(Card::new_with_id(3, &dear));
    game.hand.add(Card::new_with_id(4, &cheap));
    game.hand.add(Card::new_with_id(5, &cheap));
    let mut rng = StdRng::seed_from_u64(1);
    let mut turn = Turn::new(2);
    turn.lands_played = 1;
    turn.mana_pool = ManaPool::new_from_string("{4}").unwrap();
    assert_eq!(turn.try_to_cast(&mut game, Purpose::RampSpell, &mut rng), Ok(true));
    assert_eq!(ids_of(&game.graveyard), vec![4]);
    assert_eq!(turn.mana_spent.cmc(), 1);
    assert_eq!(turn.try_to_cast(&mut game, Purpose::RampSpell, &mut rng), Ok(true));
    assert_eq!(ids_of(&game.graveyard), vec![4, 5]);
    assert_eq!(turn.try_to_cast(&mut game, Purpose::RampSpell, &mut rng), Ok(false));
    assert_eq!(game.hand.size(), 3);
    assert_eq!(turn.turn_stats.cards_played, 2);
}

#[test]
fn a_cost_that_taps_and_gives_up_needs_the_card_untapped() {
    let mut relic = make_sol_ring_data();
    relic.abilities = Some(vec![Ability {
        trigger: Trigger::Activated,
        cost: Cost::TapSacrifice,
        effect: Effect::Draw(vec![1]),
        availability: ALWAYS,
    }]);
    let swamp = make_swamp_data();
    let mut game = Game::new();
    game.library.add(Card::new_with_id(1, &swamp));
    game.library.add(Card::new_with_id(2, &swamp));
    let mut tapped = Card::new_with_id(3, &relic);
    tapped.tapped = true;
    game.battlefield.add(tapped);
    let mut rng = StdRng::seed_from_u64(5);
    let mut turn = Turn::new(2);
    assert_eq!(turn.try_to_activate_draw_spell(&mut game, &mut rng), Ok(false));
    assert_eq!(ids_of(&game.battlefield), vec![3]);
    game.battlefield.untap_all();
    assert_eq!(turn.try_to_activate_draw_spell(&mut game, &mut rng), Ok(true));
    assert_eq!(ids_of(&game.graveyard), vec![3]);
    assert!(game.graveyard.cards[0].tapped);
    assert_eq!(ids_of(&game.hand), vec![2]);
    assert_eq!(game.battlefield.size(), 0);
}

#[test]
fn one_mulligan_counts_one() {
    let swamp = make_swamp_data();
    let elk = make_elk_data();
    let keep = Settings { draw_card_on_turn_one: true, turn_count: 0, mulligan: MulliganType::Keep };
    let lands =
        Settings { draw_card_on_turn_one: true, turn_count: 0, mulligan: MulliganType::ThreeLands };
    let mut game = deck(&swamp, &elk, &elk);
    game.library.assign_ids(1);
    let full = game.library.duplicate();
    let mut rng = StdRng::seed_from_u64(21);
    assert_eq!(game.deal_hand(&full, &mut rng), Ok(()));
    assert_eq!(game.hand.size(), 7);
    assert_eq!(game.library.size(), 23);
    assert_eq!(game.game_stats.mulligan_count, 0);
    assert!(game.keeps_hand(&keep));
    assert_eq!(game.keeps_hand(&lands), game.hand.query(Types::Land).len() >= 3);
    let first = ids_of(&game.hand);
    assert_eq!(game.mulligan(&full, &mut rng), Ok(()));
    assert_eq!(game.game_stats.mulligan_count, 1);
    assert_eq!(game.hand.size(), 7);
    assert_eq!(game.library.size(), 23);
    let mut ids = all_ids_sorted(&game);
    ids.retain(|id| *id != 0);
    assert_eq!(ids, (1..=30).collect::<Vec<u32>>());
    assert_ne!(ids_of(&game.hand), first);
    // no room for one more
    game.game_stats.mulligan_count = u32::MAX;
    let held = ids_of(&game.hand);
    assert_eq!(game.mulligan(&full, &mut rng), Err(Fault::TooMany));
    assert_eq!(ids_of(&game.hand), held);
    assert_eq!(game.game_stats.mulligan_count, u32::MAX);
    // a hand without lands cannot be given back then
    let mut game = Game::new();
    for id in 1..=7 {
        game.library.add(Card::new_with_id(id, &elk));
    }
    game.game_stats.mulligan_count = u32::MAX;
    assert_eq!(game.draw_and_mulligan(&lands, &mut rng), Err(Fault::TooMany));
    assert_eq!(game.game_stats.mulligan_count, u32::MAX);
    assert_eq!(game.hand.size(), 7);
    // too few cards to deal a hand from
    let mut small = Game::new();
    small.library.add(Card::new_with_id(1, &swamp));
    let few = small.library.duplicate();
    assert_eq!(small.deal_hand(&few, &mut rng), Err(Fault::LibraryEmpty));
    assert_eq!(small.mulligan(&few, &mut rng), Err(Fault::LibraryEmpty));
}

#[test]
fn shuffle_rolls_among_the_places_that_follow() {
    let swamp_data = make_swamp_data();
    for seed in 0..10u64 {
        let mut zone = Zone::new("Library");
        for id in 0..12 {
            zone.add(Card::new_with_id(id, &swamp_data));
        }
        let mut rng = StdRng::seed_from_u64(seed);
        zone.shuffle(&mut rng);
        let mut by_hand: Vec<u32> = (0..12).collect();
        let mut rng = StdRng::seed_from_u64(seed);
        for i in 0..12usize {
            let pos = i + rng.gen_range(0..12 - i);
            by_hand.swap(i, pos);
        }
        assert_eq!(ids_of(&zone), by_hand);
    }
}

#[test]
fn the_dearest_spare_card_fails_only_for_want_of_room() {
    let elk = make_elk_data();
    let mut game = Game::new();
    game.hand.add(Card::new_with_id(1, &elk));
    let mut rng = StdRng::seed_from_u64(1);
    let mut turn = Turn::new(2);
    turn.mana_pool = ManaPool::new_from_string("{G}{G}{G}").unwrap();
    turn.turn_stats.cards_played = u32::MAX;
    assert_eq!(turn.try_to_empty_hand(&mut game, &mut rng), Err(Fault::TooMany));
    let mut game = Game::new();
    game.hand.add(Card::new_with_id(1, &elk));
    turn.turn_stats.cards_played = 0;
    assert_eq!(turn.try_to_empty_hand(&mut game, &mut rng), Ok(true));
    assert_eq!(ids_of(&game.battlefield), vec![1]);
    assert_eq!(turn.turn_stats.cards_played, 1);
    assert_eq!(turn.mana_spent.cmc(), 3);
}
