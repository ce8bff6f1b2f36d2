use decksim::card::{Cost, Effect, Trigger, ALWAYS};
use decksim::mana::{Color, Mana};
use decksim::oracle::{
    cost_from_matches, effect_from_matches, parse, parse_additional_cost, AdditionalCost, Context,
    SELDOM,
};
use decksim::pool::ManaPool;

#[test]
fn test_oracle_parse_thran_dynamo() {
    let thran_dynamo_text = "{T}: Add {C}{C}{C}.";
    match parse(&Context { text: thran_dynamo_text, card_name: "Thran Dynamo" }).unwrap() {
        None => assert!(false),
        Some(abilities) => {
            assert_eq!(abilities.len(), 1);
            let ability = &abilities[0];
            assert_eq!(ability.trigger, Trigger::Activated);
            assert_eq!(ability.cost, Cost::Tap);
            assert_eq!(
                ability.effect,
                Effect::ProduceMana(ManaPool::new_from_sequence(&vec![
                    Mana::colorless(),
                    Mana::colorless(),
                    Mana::colorless()
                ]))
            );
        }
    }
}

#[test]
fn test_oracle_parse_boros_cluestone() {
    let boros_cluestone_text = "{T}: Add {R} or {W}.";
    match parse(&Context { text: boros_cluestone_text, card_name: "Boros Cluestone" }).unwrap() {
        None => assert!(false),
        Some(abilities) => {
            assert_eq!(abilities.len(), 1);
            let ability = &abilities[0];
            assert_eq!(ability.trigger, Trigger::Activated);
            assert_eq!(ability.cost, Cost::Tap);
            assert_eq!(
                ability.effect,
                Effect::ProduceMana(ManaPool::new_from_single(&Mana::make_dual(
                    Color::White,
                    Color::Red
                )))
            );
        }
    }
}

#[test]
fn test_oracle_parse_boros_signet() {
    let boros_cluestone_text = "{1}, {T}: Add {R}{W}.";
    match parse(&Context { text: boros_cluestone_text, card_name: "Boros Signet" }).unwrap() {
        None => assert!(false),
        Some(abilities) => {
            assert_eq!(abilities.len(), 1);
            let ability = &abilities[0];
            assert_eq!(ability.trigger, Trigger::Activated);
            assert_eq!(ability.cost, Cost::TapMana(ManaPool::new_from_single(&Mana::colorless())));
            assert_eq!(
                ability.effect,
                Effect::ProduceMana(ManaPool::new_from_sequence(&vec![Mana::red(), Mana::white()]))
            );
        }
    }
}

#[test]
fn test_oracle_parse_commanders_sphere() {
    let commanders_sphere_text = "{T}: Add one mana of any color in your commander's color identity.\nSacrifice Commander's Sphere: Draw a card.";
    match parse(&Context { text: commanders_sphere_text, card_name: "Commander's Sphere" }).unwrap()
    {
        None => assert!(false),
        Some(abilities) => {
            assert_eq!(abilities.len(), 2);
            let mana_ability = &abilities[0];
            assert_eq!(mana_ability.trigger, Trigger::Activated);
            assert_eq!(mana_ability.cost, Cost::Tap);
            assert_eq!(
                mana_ability.effect,
                Effect::ProduceMana(ManaPool::new_from_single(&Mana::any()))
            );
            let draw_ability = &abilities[1];
            assert_eq!(draw_ability.trigger, Trigger::Activated);
            assert_eq!(draw_ability.cost, Cost::Sacrifice);
            assert_eq!(draw_ability.effect, Effect::Draw(vec![1]));
        }
    }
}

#[test]
fn test_oracle_parse_hedron_archive() {
    let hedron_archive_text = "{T}: Add {C}{C}.\n{2}, {T}, Sacrifice Hedron Archive: Draw two cards.";
    match parse(&Context { text: hedron_archive_text, card_name: "Hedron Archive" }).unwrap() {
        None => assert!(false),
        Some(abilities) => {
            assert_eq!(abilities.len(), 2);
            let mana_ability = &abilities[0];
            assert_eq!(mana_ability.trigger, Trigger::Activated);
            assert_eq!(mana_ability.cost, Cost::Tap);
            assert_eq!(
                mana_ability.effect,
                Effect::ProduceMana(ManaPool::new_from_sequence(&vec![
                    Mana::colorless(),
                    Mana::colorless()
                ]))
            );
            let draw_ability = &abilities[1];
            assert_eq!(draw_ability.trigger, Trigger::Activated);
            assert_eq!(
                draw_ability.cost,
                Cost::TapManaSacrifice(ManaPool::new_from_sequence(&vec![
                    Mana::colorless(),
                    Mana::colorless()
                ]))
            );
            assert_eq!(draw_ability.effect, Effect::Draw(vec![2]));
        }
    }
}

#[test]
fn draw_abilities_of_mana_rocks_are_seldom_there() {
    let text = "{T}: Add {C}{C}.\n{2}, {T}, Sacrifice Hedron Archive: Draw two cards.";
    let abilities = parse(&Context { text, card_name: "Hedron Archive" }).unwrap().unwrap();
    assert_eq!(abilities[0].availability, ALWAYS);
    assert_eq!(abilities[1].availability, SELDOM);
    let text = "{T}: Draw three cards.";
    let abilities = parse(&Context { text, card_name: "Library" }).unwrap().unwrap();
    assert_eq!(abilities[0].availability, ALWAYS);
    assert_eq!(abilities[0].effect, Effect::Draw(vec![3]));
}

#[test]
fn lines_without_an_ability_are_passed_over() {
    assert_eq!(parse(&Context { text: "Flying", card_name: "Bird" }).unwrap().map(|a| a.len()), None);
    assert_eq!(parse(&Context { text: "", card_name: "Bird" }).unwrap().map(|a| a.len()), None);
    // a cost that names another card, and an effect that is not known
    let text = "Sacrifice Another Card: Draw a card.\n{T}: Destroy target creature.\n  {T} :  Draw a card.  ";
    let abilities = parse(&Context { text, card_name: "Bird" }).unwrap().unwrap();
    assert_eq!(abilities.len(), 1);
    assert_eq!(abilities[0].cost, Cost::Tap);
    assert_eq!(abilities[0].effect, Effect::Draw(vec![1]));
}

#[test]
fn unreadable_mana_is_refused() {
    let refused = parse(&Context { text: "{T}: Add {X} or {W}.", card_name: "Stone" });
    assert_eq!(refused.unwrap_err(), "bad mana string 'X'");
    let refused = parse(&Context { text: "{X}, {T}: Draw a card.", card_name: "Stone" });
    assert_eq!(refused.unwrap_err(), "invalid mana cost... \"{X}\"");
}

#[test]
fn cost_from_matches_follows_the_order_of_the_patterns() {
    let groups = |texts: &[&str]| Some(Some(texts.iter().map(|t| Some(t.to_string())).collect::<Vec<_>>()));
    let none = Some(None);
    assert_eq!(cost_from_matches(Some(true), &groups(&["x", "Card"]), &none, &none, "Card"), Ok(Some(Cost::Tap)));
    assert_eq!(cost_from_matches(Some(false), &groups(&["x", "Card"]), &none, &none, "Card"), Ok(Some(Cost::Sacrifice)));
    assert_eq!(cost_from_matches(Some(false), &groups(&["x", "Other"]), &groups(&["y", "{1}"]), &none, "Card"), Ok(None));
    assert_eq!(
        cost_from_matches(Some(false), &none, &groups(&["y", "{1}{B}"]), &none, "Card"),
        Ok(Some(Cost::TapMana(ManaPool::new_from_sequence(&vec![Mana::colorless(), Mana::black()]))))
    );
    assert_eq!(cost_from_matches(Some(false), &none, &none, &groups(&["z", "2", "Other"]), "Card"), Ok(None));
    assert_eq!(
        cost_from_matches(Some(false), &none, &none, &groups(&["z", "2", "Card"]), "Card"),
        Ok(Some(Cost::TapManaSacrifice(ManaPool::new_from_sequence(&vec![Mana::colorless(), Mana::colorless()]))))
    );
    assert_eq!(cost_from_matches(None, &None, &None, &None, "Card"), Ok(None));
}

#[test]
fn effect_from_matches_follows_the_order_of_the_patterns() {
    let groups = |texts: &[&str]| Some(Some(texts.iter().map(|t| Some(t.to_string())).collect::<Vec<_>>()));
    let none = Some(None);
    let no = Some(false);
    assert_eq!(
        effect_from_matches(&groups(&["x", "{G}{G}", "{G}"]), &none, Some(true), no, no, no),
        Ok(Some(Effect::ProduceMana(ManaPool::new_from_sequence(&vec![Mana::green(), Mana::green()]))))
    );
    assert_eq!(
        effect_from_matches(&none, &groups(&["x", "C", "U"]), no, no, no, no),
        Ok(Some(Effect::ProduceMana(ManaPool::new_from_single(&Mana::blue()))))
    );
    assert_eq!(
        effect_from_matches(&none, &none, Some(true), Some(true), no, no),
        Ok(Some(Effect::ProduceMana(ManaPool::new_from_single(&Mana::any()))))
    );
    assert_eq!(effect_from_matches(&none, &none, no, no, Some(true), Some(true)), Ok(Some(Effect::Draw(vec![2]))));
    assert_eq!(effect_from_matches(&none, &none, no, no, no, no), Ok(None));
}

#[test]
fn additional_cost_names_the_card() {
    let text = "Flying\nWhen Azorius Chancery enters the battlefield, return a land you control to its owner's hand.\n{T}: Add {W}{U}.";
    assert_eq!(
        parse_additional_cost(&Context { text, card_name: "Azorius Chancery" }),
        Some(AdditionalCost::ReturnLandToHand)
    );
    assert_eq!(parse_additional_cost(&Context { text, card_name: "Simic Growth Chamber" }), None);
    assert_eq!(parse_additional_cost(&Context { text: "", card_name: "" }), None);
}
