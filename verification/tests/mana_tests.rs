use decksim::mana::{unit_of_letters, Color, Mana};
use decksim::pool::ManaPool;
use std::time::Instant;

#[test]
fn test_mana_can_pay_for() {
    assert!(Mana::colorless().can_pay_for(&Mana::colorless()));
    assert!(Mana::black().can_pay_for(&Mana::black()));
    assert!(Mana::blue().can_pay_for(&Mana::blue()));
    assert!(Mana::green().can_pay_for(&Mana::green()));
    assert!(Mana::red().can_pay_for(&Mana::red()));
    assert!(Mana::white().can_pay_for(&Mana::white()));

    assert!(!Mana::colorless().can_pay_for(&Mana::black()));
    assert!(!Mana::colorless().can_pay_for(&Mana::blue()));
    assert!(!Mana::colorless().can_pay_for(&Mana::green()));
    assert!(!Mana::colorless().can_pay_for(&Mana::red()));
    assert!(!Mana::colorless().can_pay_for(&Mana::white()));

    assert!(Mana::black().can_pay_for(&Mana::colorless()));
    assert!(Mana::blue().can_pay_for(&Mana::colorless()));
    assert!(Mana::green().can_pay_for(&Mana::colorless()));
    assert!(Mana::red().can_pay_for(&Mana::colorless()));
    assert!(Mana::white().can_pay_for(&Mana::colorless()));

    assert!(Mana::any().can_pay_for(&Mana::black()));
    assert!(Mana::any().can_pay_for(&Mana::blue()));
    assert!(Mana::any().can_pay_for(&Mana::green()));
    assert!(Mana::any().can_pay_for(&Mana::red()));
    assert!(Mana::any().can_pay_for(&Mana::white()));

    let selesnya = Mana::make_dual(Color::White, Color::Green);
    assert!(!selesnya.can_pay_for(&Mana::black()));
    assert!(!selesnya.can_pay_for(&Mana::blue()));
    assert!(selesnya.can_pay_for(&Mana::green()));
    assert!(!selesnya.can_pay_for(&Mana::red()));
    assert!(selesnya.can_pay_for(&Mana::white()));
}

#[test]
fn test_mana_can_pay_for_exactly() {
    assert!(Mana::colorless().can_pay_for_exactly(&Mana::colorless()));
    assert!(Mana::black().can_pay_for_exactly(&Mana::black()));
    assert!(Mana::blue().can_pay_for_exactly(&Mana::blue()));
    assert!(Mana::green().can_pay_for_exactly(&Mana::green()));
    assert!(Mana::red().can_pay_for_exactly(&Mana::red()));
    assert!(Mana::white().can_pay_for_exactly(&Mana::white()));

    assert!(!Mana::colorless().can_pay_for_exactly(&Mana::black()));
    assert!(!Mana::colorless().can_pay_for_exactly(&Mana::blue()));
    assert!(!Mana::colorless().can_pay_for_exactly(&Mana::green()));
    assert!(!Mana::colorless().can_pay_for_exactly(&Mana::red()));
    assert!(!Mana::colorless().can_pay_for_exactly(&Mana::white()));

    assert!(!Mana::black().can_pay_for_exactly(&Mana::colorless()));
    assert!(!Mana::blue().can_pay_for_exactly(&Mana::colorless()));
    assert!(!Mana::green().can_pay_for_exactly(&Mana::colorless()));
    assert!(!Mana::red().can_pay_for_exactly(&Mana::colorless()));
    assert!(!Mana::white().can_pay_for_exactly(&Mana::colorless()));

    assert!(!Mana::any().can_pay_for_exactly(&Mana::black()));
    assert!(!Mana::any().can_pay_for_exactly(&Mana::blue()));
    assert!(!Mana::any().can_pay_for_exactly(&Mana::green()));
    assert!(!Mana::any().can_pay_for_exactly(&Mana::red()));
    assert!(!Mana::any().can_pay_for_exactly(&Mana::white()));

    let selesnya = Mana::make_dual(Color::White, Color::Green);
    assert!(!selesnya.can_pay_for_exactly(&Mana::black()));
    assert!(!selesnya.can_pay_for_exactly(&Mana::blue()));
    assert!(!selesnya.can_pay_for_exactly(&Mana::green()));
    assert!(!selesnya.can_pay_for_exactly(&Mana::red()));
    assert!(!selesnya.can_pay_for_exactly(&Mana::white()));
}

#[test]
fn test_mana_is_colorless() {
    assert!(Mana::colorless().is_colorless());
    assert!(!Mana::black().is_colorless());
    assert!(!Mana::blue().is_colorless());
    assert!(!Mana::green().is_colorless());
    assert!(!Mana::red().is_colorless());
    assert!(!Mana::white().is_colorless());
}

#[test]
fn test_mana_is_monocolored() {
    assert!(!Mana::colorless().is_monocolor());
    assert!(Mana::black().is_monocolor());
    assert!(Mana::blue().is_monocolor());
    assert!(Mana::green().is_monocolor());
    assert!(Mana::red().is_monocolor());
    assert!(Mana::white().is_monocolor());
}

#[test]
fn test_mana_contains() {
    assert!(Mana::any().contains(Color::Black));
    assert!(Mana::any().contains(Color::Blue));
    assert!(Mana::any().contains(Color::Green));
    assert!(Mana::any().contains(Color::Red));
    assert!(Mana::any().contains(Color::White));
    assert!(!Mana::white().contains(Color::Black));
    assert!(!Mana::white().contains(Color::Blue));
    assert!(!Mana::white().contains(Color::Green));
    assert!(!Mana::white().contains(Color::Red));
    assert!(Mana::white().contains(Color::White));
}

#[test]
fn test_manapool_can_pay_for() {
    let one_of_each_color = ManaPool::new_from_sequence(&vec![
        Mana::black(),
        Mana::blue(),
        Mana::green(),
        Mana::red(),
        Mana::white(),
    ]);
    let green_plus_2 =
        ManaPool::new_from_sequence(&vec![Mana::colorless(), Mana::colorless(), Mana::green()]);
    let black_plus_1 = ManaPool::new_from_sequence(&vec![Mana::colorless(), Mana::black()]);
    let red_white_and_2 = ManaPool::new_from_sequence(&vec![
        Mana::colorless(),
        Mana::colorless(),
        Mana::red(),
        Mana::white(),
    ]);
    let colorless_times_5 = ManaPool::new_from_sequence(&vec![
        Mana::colorless(),
        Mana::colorless(),
        Mana::colorless(),
        Mana::colorless(),
        Mana::colorless(),
    ]);
    let any_x_2_plus_3 = ManaPool::new_from_sequence(&vec![
        Mana::any(),
        Mana::any(),
        Mana::colorless(),
        Mana::colorless(),
        Mana::colorless(),
    ]);

    assert!(one_of_each_color.can_pay_for(&green_plus_2));
    assert!(one_of_each_color.can_pay_for(&one_of_each_color));
    assert!(one_of_each_color.can_pay_for(&black_plus_1));
    assert!(one_of_each_color.can_pay_for(&red_white_and_2));
    assert!(one_of_each_color.can_pay_for(&colorless_times_5));

    assert!(!one_of_each_color
        .can_pay_for(&ManaPool::new_from_sequence(&vec![Mana::black(), Mana::black()])));
    assert!(!one_of_each_color
        .can_pay_for(&ManaPool::new_from_sequence(&vec![Mana::blue(), Mana::blue()])));
    assert!(!one_of_each_color
        .can_pay_for(&ManaPool::new_from_sequence(&vec![Mana::green(), Mana::green()])));
    assert!(!one_of_each_color
        .can_pay_for(&ManaPool::new_from_sequence(&vec![Mana::red(), Mana::red()])));
    assert!(!one_of_each_color
        .can_pay_for(&ManaPool::new_from_sequence(&vec![Mana::white(), Mana::white()])));

    assert!(any_x_2_plus_3
        .can_pay_for(&ManaPool::new_from_sequence(&vec![Mana::black(), Mana::black()])));
    assert!(any_x_2_plus_3
        .can_pay_for(&ManaPool::new_from_sequence(&vec![Mana::blue(), Mana::blue()])));
    assert!(any_x_2_plus_3
        .can_pay_for(&ManaPool::new_from_sequence(&vec![Mana::green(), Mana::green()])));
    assert!(any_x_2_plus_3
        .can_pay_for(&ManaPool::new_from_sequence(&vec![Mana::red(), Mana::red()])));
    assert!(any_x_2_plus_3
        .can_pay_for(&ManaPool::new_from_sequence(&vec![Mana::white(), Mana::white()])));

    let rakdos = ManaPool::new_from_sequence(&vec![Mana::make_dual(Color::Red, Color::Black)]);
    assert!(rakdos.can_pay_for(&ManaPool::new_from_sequence(&vec![Mana::black()])));
    assert!(!rakdos.can_pay_for(&ManaPool::new_from_sequence(&vec![Mana::blue()])));
    assert!(!rakdos.can_pay_for(&ManaPool::new_from_sequence(&vec![Mana::green()])));
    assert!(rakdos.can_pay_for(&ManaPool::new_from_sequence(&vec![Mana::red()])));
    assert!(!rakdos.can_pay_for(&ManaPool::new_from_sequence(&vec![Mana::white()])));
}

#[test]
fn test_manapool_remove_exact_pool() {
    let mut rakdos = ManaPool::new_from_sequence(&vec![Mana::make_dual(Color::Red, Color::Black)]);
    rakdos.remove_exact_pool(&rakdos.clone());
    assert!(rakdos.multi.is_none());
    assert_eq!(rakdos.cmc(), 0);

    let mut a_bit_of_each = ManaPool::new_from_sequence(&vec![
        Mana::black(),
        Mana::blue(),
        Mana::green(),
        Mana::red(),
        Mana::white(),
        Mana::any(),
        Mana::colorless(),
        Mana::colorless(),
    ]);
    a_bit_of_each.remove_exact_pool(&a_bit_of_each.clone());
    assert_eq!(a_bit_of_each.cmc(), 0);
}

#[test]
fn test_manapool_perf() {
    let now = Instant::now();
    let pool = ManaPool::new_from_sequence(&vec![
        Mana::make_triple(Color::Black, Color::Blue, Color::Green),
        Mana::make_triple(Color::Black, Color::Blue, Color::Red),
        Mana::make_triple(Color::Black, Color::Blue, Color::White),
        Mana::make_triple(Color::Black, Color::Green, Color::Red),
        Mana::make_triple(Color::Black, Color::Green, Color::White),
        Mana::make_triple(Color::Black, Color::Red, Color::White),
        Mana::make_triple(Color::Blue, Color::Green, Color::Red),
        Mana::make_triple(Color::Blue, Color::Green, Color::White),
        Mana::make_triple(Color::Blue, Color::Red, Color::White),
        Mana::make_triple(Color::Green, Color::Red, Color::White),
    ]);
    let ur_dragon_cost = ManaPool::new_from_sequence(&vec![
        Mana::colorless(),
        Mana::colorless(),
        Mana::colorless(),
        Mana::colorless(),
        Mana::black(),
        Mana::blue(),
        Mana::green(),
        Mana::red(),
        Mana::white(),
    ]);
    assert!(pool.can_pay_for(&ur_dragon_cost));
    let elapsed = now.elapsed();
    println!("Elapsed (manapool): {:.2?}", elapsed);
}

#[test]
fn test_manapool_new_from_string() {
    let pool_2x_all = ManaPool::new_from_string("{B/G/R/U/W}{B/G/R/U/W}").unwrap();
    assert_eq!(pool_2x_all.all, 2);
    assert_eq!(pool_2x_all.cmc(), 2);
    assert_eq!(pool_2x_all.black, 0);
    assert_eq!(pool_2x_all.blue, 0);
    assert_eq!(pool_2x_all.green, 0);
    assert_eq!(pool_2x_all.red, 0);
    assert_eq!(pool_2x_all.white, 0);
    assert_eq!(pool_2x_all.colorless, 0);
    assert!(pool_2x_all.multi.is_none());

    let ur_dragon_cost = ManaPool::new_from_string("{4}{B}{G}{R}{W}{U}").unwrap();
    assert_eq!(ur_dragon_cost.all, 0);
    assert_eq!(ur_dragon_cost.cmc(), 9);
    assert_eq!(ur_dragon_cost.black, 1);
    assert_eq!(ur_dragon_cost.blue, 1);
    assert_eq!(ur_dragon_cost.green, 1);
    assert_eq!(ur_dragon_cost.red, 1);
    assert_eq!(ur_dragon_cost.white, 1);
    assert_eq!(ur_dragon_cost.colorless, 4);
    assert!(ur_dragon_cost.multi.is_none());

    let obzedat_cost = ManaPool::new_from_string("{1}{B}{B}{W}{W}").unwrap();
    assert_eq!(obzedat_cost.all, 0);
    assert_eq!(obzedat_cost.cmc(), 5);
    assert_eq!(obzedat_cost.black, 2);
    assert_eq!(obzedat_cost.blue, 0);
    assert_eq!(obzedat_cost.green, 0);
    assert_eq!(obzedat_cost.red, 0);
    assert_eq!(obzedat_cost.white, 2);
    assert_eq!(obzedat_cost.colorless, 1);
    assert!(obzedat_cost.multi.is_none());

    let many_black = ManaPool::new_from_string("{B}{B}{B}{B}{B}{B}{B}{B}").unwrap();
    assert_eq!(many_black.all, 0);
    assert_eq!(many_black.cmc(), 8);
    assert_eq!(many_black.black, 8);
    assert_eq!(many_black.blue, 0);
    assert_eq!(many_black.green, 0);
    assert_eq!(many_black.red, 0);
    assert_eq!(many_black.white, 0);
    assert_eq!(many_black.colorless, 0);
    assert!(many_black.multi.is_none());
}

#[test]
fn test_manapool_display() {
    let one_of_each_color = ManaPool::new_from_sequence(&vec![
        Mana::black(),
        Mana::blue(),
        Mana::green(),
        Mana::red(),
        Mana::white(),
        Mana::colorless(),
        Mana::any(),
    ]);
    println!(" - one of each: {}", one_of_each_color.to_text());
    assert_eq!(one_of_each_color.to_text(), "{1}{B}{U}{G}{R}{W}{B/U/G/R/W}");

    let many_black = ManaPool::new_from_sequence(&vec![
        Mana::black(),
        Mana::black(),
        Mana::black(),
        Mana::black(),
        Mana::black(),
        Mana::black(),
        Mana::black(),
        Mana::black(),
    ]);
    println!(" - 8 black: {}", many_black.to_text());
    assert_eq!(many_black.to_text(), "{B}{B}{B}{B}{B}{B}{B}{B}");
}

#[test]
fn written_forms() {
    assert_eq!(Mana::colorless().to_text(), "{1}");
    assert_eq!(Mana::red().to_text(), "{R}");
    assert_eq!(Mana::make_dual(Color::White, Color::Black).to_text(), "{B/W}");
    assert_eq!(Mana::any().to_text(), "{B/U/G/R/W}");
    assert_eq!(ManaPool::new().to_text(), "n/a");
    let pool = ManaPool::new_from_string("{12}{G/W}{U}{R/B}").unwrap();
    assert_eq!(pool.to_text(), "{12}{U}{G/W}{B/R}");
    assert_eq!(pool.cmc(), 15);
}

#[test]
fn new_from_string_refuses_what_it_cannot_read() {
    assert_eq!(ManaPool::new_from_string("").unwrap_err(), "invalid mana cost... \"\"");
    assert_eq!(ManaPool::new_from_string("{0}").unwrap_err(), "invalid mana cost... \"{0}\"");
    assert_eq!(ManaPool::new_from_string("{X}{T}").unwrap_err(), "invalid mana cost... \"{X}{T}\"");
    assert_eq!(ManaPool::new_from_string("{BG}").unwrap_err(), "bad mana string 'BG'");
    assert_eq!(ManaPool::new_from_string("{2/W}").unwrap_err(), "bad mana string '2/W'");
    assert_eq!(ManaPool::new_from_string("{B//G}").unwrap_err(), "bad mana string 'B//G'");
    assert_eq!(ManaPool::new_from_string("{4294967296}").unwrap_err(), "bad mana string '4294967296'");
    assert_eq!(
        ManaPool::new_from_string("{4294967295}{1}").unwrap_err(),
        "bad mana string '1'"
    );
    assert_eq!(ManaPool::new_from_string("{4294967295}").unwrap().colorless, 4294967295);
    assert_eq!(ManaPool::new_from_string("{C}{C/C}{B/B}").unwrap(), ManaPool::new_from_sequence(&vec![Mana::colorless(), Mana::colorless(), Mana::black()]));
}

#[test]
fn from_symbols_adds_symbol_by_symbol() {
    let symbols = |texts: &[&str]| texts.iter().map(|t| t.to_string()).collect::<Vec<String>>();
    let pool = ManaPool::from_symbols(&symbols(&["3", "G", "R/G", "B/G/R/U/W", "C"])).unwrap();
    assert_eq!(pool.colorless, 4);
    assert_eq!(pool.green, 1);
    assert_eq!(pool.all, 1);
    assert_eq!(pool.multi, Some(vec![Mana::make_dual(Color::Red, Color::Green)]));
    assert_eq!(ManaPool::from_symbols(&symbols(&[])).unwrap().cmc(), 0);
    assert_eq!(ManaPool::from_symbols(&symbols(&["G", "g"])).unwrap_err(), "bad mana string 'g'");
    assert_eq!(
        ManaPool::cost_of_symbols(None, "{G}").unwrap_err(),
        "mana cost pattern not accepted"
    );
}

#[test]
fn set_from_string_reads_one_letter() {
    let mut mana = Mana::new();
    assert_eq!(mana.set_from_string("C"), Ok(()));
    assert!(mana.is_colorless());
    assert_eq!(mana.set_from_string("U"), Ok(()));
    assert_eq!(mana.set_from_string("W"), Ok(()));
    assert_eq!(mana, Mana::make_dual(Color::Blue, Color::White));
    assert_eq!(mana.color_count(), 2);
    assert_eq!(mana.set_from_string("X"), Err("bad mana string 'X'".to_string()));
    assert_eq!(mana.set_from_string(""), Err("bad mana string ''".to_string()));
    assert_eq!(mana.set_from_string("UU"), Err("bad mana string 'UU'".to_string()));
    assert_eq!(mana, Mana::make_dual(Color::Blue, Color::White));
    assert_eq!(Mana::make_mono(Color::Green), Mana::green());
    assert_eq!(Mana::make_triple(Color::Green, Color::Red, Color::Green).color_count(), 2);
}

#[test]
fn total_value_is_the_sum_of_the_counts() {
    let pool = ManaPool::new_from_string("{3}{B}{U}{U}{G/W}{R/G}{B/G/R/U/W}").unwrap();
    let listed = pool.multi.as_ref().map_or(0, |units| units.len() as u32);
    assert_eq!(listed, 2);
    assert_eq!(
        pool.cmc(),
        pool.black + pool.blue + pool.green + pool.red + pool.white + pool.colorless + pool.all + listed
    );
    assert_eq!(pool.cmc(), 9);
}

#[test]
fn full_pool_pays_full_cost() {
    let pool = ManaPool::new_from_sequence(&vec![
        Mana::colorless(),
        Mana::colorless(),
        Mana::colorless(),
        Mana::colorless(),
        Mana::black(),
        Mana::green(),
        Mana::red(),
        Mana::white(),
        Mana::blue(),
    ]);
    assert_eq!(pool.cmc(), 9);
    let cost = ManaPool::new_from_string("{4}{B}{G}{R}{W}{U}").unwrap();
    assert_eq!(cost.cmc(), 9);
    assert!(pool.can_pay_for(&cost));
    assert!(!pool.can_pay_for(&ManaPool::new_from_string("{5}{B}{G}{R}{W}{U}").unwrap()));
    assert!(!pool.can_pay_for(&ManaPool::new_from_string("{3}{B}{B}{G}{R}{W}{U}").unwrap()));
}

#[test]
fn hybrid_units_find_the_one_choice_that_pays() {
    let pool = ManaPool::new_from_sequence(&vec![
        Mana::make_dual(Color::Black, Color::Green),
        Mana::make_dual(Color::Red, Color::White),
        Mana::green(),
        Mana::white(),
    ]);
    let cost = ManaPool::new_from_sequence(&vec![
        Mana::black(),
        Mana::green(),
        Mana::red(),
        Mana::white(),
    ]);
    assert!(pool.can_pay_for(&cost));
    let greedy = ManaPool::new_from_sequence(&vec![
        Mana::black(),
        Mana::black(),
        Mana::red(),
        Mana::white(),
    ]);
    assert!(!pool.can_pay_for(&greedy));
    // two hybrid units alone pay one unit of each pair, in each way
    let two = ManaPool::new_from_sequence(&vec![
        Mana::make_dual(Color::Black, Color::Green),
        Mana::make_dual(Color::Red, Color::White),
    ]);
    for (a, b, pays) in [
        (Mana::black(), Mana::red(), true),
        (Mana::green(), Mana::white(), true),
        (Mana::black(), Mana::green(), false),
        (Mana::red(), Mana::white(), false),
        (Mana::blue(), Mana::red(), false),
    ] {
        assert_eq!(two.can_pay_for(&ManaPool::new_from_sequence(&vec![a, b])), pays);
    }
}

#[test]
fn hybrid_costs_are_paid_by_either_color() {
    let cost = ManaPool::new_from_string("{R/W}{R/W}{1}").unwrap();
    assert!(ManaPool::new_from_string("{R}{W}{B}").unwrap().can_pay_for(&cost));
    assert!(ManaPool::new_from_string("{W}{W}{C}").unwrap().can_pay_for(&cost));
    assert!(!ManaPool::new_from_string("{R}{B}{B}").unwrap().can_pay_for(&cost));
    assert!(ManaPool::new_from_string("{B/U/G/R/W}{R}{B}").unwrap().can_pay_for(&cost));
    // hybrid units on both sides
    let pool = ManaPool::new_from_string("{B/R}{G/W}").unwrap();
    assert!(pool.can_pay_for(&ManaPool::new_from_string("{R/G}{G/U}").unwrap()));
    assert!(!pool.can_pay_for(&ManaPool::new_from_string("{U/G}{G/U}").unwrap()));
    // a unit of any color in a cost asks for no color
    assert!(ManaPool::new_from_string("{C}").unwrap().can_pay_for(&ManaPool::new_from_single(&Mana::any())));
}

#[test]
fn more_mana_still_pays() {
    let cost = ManaPool::new_from_string("{1}{B}{R/G}").unwrap();
    let pool = ManaPool::new_from_string("{B}{R}{W}").unwrap();
    assert!(pool.can_pay_for(&cost));
    for extra in ["{C}", "{U}", "{G/U}", "{B/U/G/R/W}", "{7}{W/B}{W/B}"] {
        let larger = pool.expanded(&ManaPool::new_from_string(extra).unwrap());
        assert!(larger.can_pay_for(&cost));
    }
}

#[test]
fn can_also_pay_for_gives_the_sum() {
    let pool = ManaPool::new_from_string("{B}{B}{G}{2}").unwrap();
    let spent = ManaPool::new_from_string("{B}{1}").unwrap();
    let total = pool.can_also_pay_for(&spent, &ManaPool::new_from_string("{G}{1}").unwrap()).unwrap();
    assert_eq!(total, ManaPool::new_from_string("{B}{2}{G}").unwrap());
    assert!(pool.can_pay_for(&total));
    // too much
    assert_eq!(pool.can_also_pay_for(&spent, &ManaPool::new_from_string("{4}").unwrap()), None);
    // the wrong color
    assert_eq!(pool.can_also_pay_for(&spent, &ManaPool::new_from_string("{R}").unwrap()), None);
    let exact = pool.can_also_pay_for(&spent, &ManaPool::new_from_string("{B}{G}{1}").unwrap());
    assert_eq!(exact.map(|total| total.cmc()), Some(5));
}

#[test]
fn remove_exact_pool_strikes_the_first_equal_unit() {
    let gw = Mana::make_dual(Color::Green, Color::White);
    let br = Mana::make_dual(Color::Black, Color::Red);
    let mut pool = ManaPool::new_from_sequence(&vec![gw, br, gw, Mana::red(), Mana::colorless()]);
    let out = ManaPool::new_from_sequence(&vec![gw, Mana::red()]);
    assert!(pool.contains_pool(&out));
    pool.remove_exact_pool(&out);
    assert_eq!(pool.multi, Some(vec![br, gw]));
    assert_eq!(pool.red, 0);
    assert_eq!(pool.cmc(), 3);
    assert!(!pool.contains_pool(&out));
    assert!(!pool.contains_pool(&ManaPool::new_from_sequence(&vec![gw, gw])));
    assert!(pool.contains_pool(&ManaPool::new()));
}

#[test]
fn exact_payment_asks_for_the_same_colors() {
    let gw = Mana::make_dual(Color::Green, Color::White);
    let wg = Mana::make_dual(Color::White, Color::Green);
    assert!(gw.can_pay_for_exactly(&wg));
    assert!(Mana::any().can_pay_for_exactly(&Mana::any()));
    assert!(Mana::colorless().can_pay_for_exactly(&Mana::colorless()));
    assert!(Mana::red().can_pay_for_exactly(&Mana::red()));
    assert!(!gw.can_pay_for_exactly(&Mana::green()));
    assert!(!Mana::green().can_pay_for_exactly(&gw));
    assert!(!Mana::colorless().can_pay_for_exactly(&Mana::red()));
}

#[test]
fn unit_of_letters_collects_the_colors_named() {
    let letters = |texts: &[&str]| texts.iter().map(|t| t.to_string()).collect::<Vec<String>>();
    assert_eq!(unit_of_letters(&letters(&[])), Mana::colorless());
    assert_eq!(unit_of_letters(&letters(&["C"])), Mana::colorless());
    assert_eq!(unit_of_letters(&letters(&["B", "G"])), Mana::make_dual(Color::Black, Color::Green));
    assert_eq!(unit_of_letters(&letters(&["W", "x", "WU", "U", "W"])),
        Mana::make_dual(Color::White, Color::Blue));
    assert_eq!(unit_of_letters(&letters(&["B", "U", "G", "R", "W"])), Mana::any());
}
