use keygen::layout::finger_at;
use keygen::layout::hand_at;
use keygen::layout::Finger;
use keygen::layout::KeyPress;
use keygen::layout::Layout;
use keygen::penalty::base_penalty;
use keygen::penalty::calculate_penalty;
use keygen::penalty::calculate_same_finger_penalty;
use keygen::penalty::calculate_same_key_penalty;
use keygen::penalty::calculate_stretch_penalty;
use keygen::penalty::index_pair_listed;
use keygen::penalty::init;
use keygen::penalty::is_covered;
use keygen::penalty::quartad_is_covered;
use keygen::penalty::is_roll_in;
use keygen::penalty::is_roll_out;
use keygen::penalty::penalize;
use keygen::penalty::penalty_for_quartad;
use keygen::penalty::prepare_quartad_list;
use keygen::penalty::KeyPenaltyResult;
use keygen::presets::colemak_layout;
use keygen::presets::dvorak_layout;
use keygen::presets::init_layout;
use keygen::presets::qwerty_layout;
use keygen::quartad::Quartad;
use keygen::tally::Tally;

const NAMES: [&str; 12] = [
    "base",
    "alternating hand",
    "same finger",
    "stretch",
    "same hand",
    "roll reversal",
    "roll out",
    "roll in",
    "long jump sandwich",
    "twist",
    "pinky/ring alternation",
    "same key",
];

fn window(text: &str) -> Quartad {
    Quartad::from_chars(&text.chars().collect()).unwrap()
}

fn empty_results() -> Vec<KeyPenaltyResult<'static>> {
    NAMES.iter().map(|&name| KeyPenaltyResult { name, total: 0, high_keys: Tally::new() }).collect()
}

fn totals(results: &Vec<KeyPenaltyResult>) -> Vec<i128> {
    results.iter().map(|result| result.total).collect()
}

fn keys_of(result: &KeyPenaltyResult) -> Vec<(String, i128)> {
    (0..result.high_keys.len())
        .map(|i| (result.high_keys.key(i).to_string(), result.high_keys.sum(i)))
        .collect()
}

/// What typing `text` costs on `layout`, with the windows read on QWERTY.
fn score(text: &str, layout: &Layout, detailed: bool) -> (i128, Vec<i128>) {
    let quartads = prepare_quartad_list(text, &qwerty_layout().get_position_map());
    assert!(is_covered(&quartads, layout));
    let (total, results) = calculate_penalty(&quartads, layout, &init(), detailed);
    (total, totals(&results))
}

/// The layout with a blank on a key that has a cost of its own: the first.
fn with_blank(lower: &str, upper: &str) -> Layout {
    Layout::from_layers(lower, upper)
}

#[test]
fn the_rules_have_their_names_in_order() {
    let penalties = init();
    assert_eq!(penalties.len(), 12);
    for (penalty, name) in penalties.iter().zip(NAMES.iter()) {
        assert_eq!(penalty.name(), *name);
    }
}

#[test]
fn rolls_follow_the_order_of_the_fingers() {
    let fingers = [Finger::Thumb, Finger::Index, Finger::Middle, Finger::Ring, Finger::Pinky];
    for (i, &curr) in fingers.iter().enumerate() {
        for (j, &prev) in fingers.iter().enumerate() {
            assert_eq!(is_roll_out(curr, prev), j < i);
            assert_eq!(is_roll_in(curr, prev), j > i);
        }
    }
}

#[test]
fn a_key_by_itself_costs_what_the_table_says() {
    // In units, forty to the point, key by key.
    let costs: [i128; 34] = [
        140, 10, 10, 60, 100, 100, 60, 10, 10, 140, 180, 50, 0, 0, 0, 60, 60, 0, 0, 0, 50, 160, 120,
        80, 60, 40, 80, 80, 40, 60, 80, 120, 0, 0,
    ];
    for pos in 0..34 {
        assert_eq!(base_penalty(pos), costs[pos]);
    }
    // Three and a half points, a quarter, four and a half.
    assert_eq!(base_penalty(0), 140);
    assert_eq!(base_penalty(1), 10);
    assert_eq!(base_penalty(10), 180);
}

#[test]
fn stretches_cost_by_the_pair_of_keys() {
    let press = |pos: usize| KeyPress::new('x', pos);
    // The keys 2 and 25, either way round: one point.
    assert_eq!(calculate_stretch_penalty(&press(2), &press(25)), 40);
    assert_eq!(calculate_stretch_penalty(&press(25), &press(2)), 40);
    assert_eq!(calculate_stretch_penalty(&press(0), &press(4)), 40);
    // Two points, three, four, six, nine and ten.
    assert_eq!(calculate_stretch_penalty(&press(2), &press(4)), 80);
    assert_eq!(calculate_stretch_penalty(&press(13), &press(15)), 80);
    assert_eq!(calculate_stretch_penalty(&press(26), &press(0)), 120);
    assert_eq!(calculate_stretch_penalty(&press(3), &press(24)), 160);
    assert_eq!(calculate_stretch_penalty(&press(24), &press(4)), 240);
    assert_eq!(calculate_stretch_penalty(&press(9), &press(30)), 360);
    assert_eq!(calculate_stretch_penalty(&press(31), &press(8)), 400);
    // A pair that is not listed costs nothing.
    assert_eq!(calculate_stretch_penalty(&press(14), &press(15)), 0);
    assert_eq!(calculate_stretch_penalty(&press(3), &press(28)), 0);
    assert_eq!(calculate_stretch_penalty(&press(36), &press(4)), 0);
}

#[test]
fn the_index_finger_has_a_cost_for_the_pairs_listed() {
    // The pairs listed among the keys that the left index finger presses.
    let listed = [(16, 17, 0), (17, 28, 120), (5, 17, 400), (16, 28, 400), (5, 16, 600), (5, 28, 1000)];
    let press = |pos: usize| KeyPress::new('x', pos);
    for (a, b, cost) in listed {
        assert!(index_pair_listed(a, b));
        assert!(index_pair_listed(b, a));
        assert_eq!(calculate_same_finger_penalty(&press(a), &press(b)), cost);
        assert_eq!(calculate_same_finger_penalty(&press(b), &press(a)), cost);
    }
    // Pairs that are listed, though other fingers or hands press them.
    assert!(index_pair_listed(3, 4));
    assert!(index_pair_listed(14, 15));
    assert!(index_pair_listed(25, 26));
    assert!(index_pair_listed(6, 27));
    // Pairs that are not.
    assert!(!index_pair_listed(4, 5));
    assert!(!index_pair_listed(4, 16));
    assert!(!index_pair_listed(28, 29));
    assert!(!index_pair_listed(6, 7));
    assert!(!index_pair_listed(18, 19));
    assert!(!index_pair_listed(30, 31));
    assert!(!index_pair_listed(5, 5));
    assert_eq!((0..50).map(|a| (0..50).filter(|&b| index_pair_listed(a, b)).count()).sum::<usize>(), 60);
}

#[test]
fn other_fingers_on_two_keys_cost_by_rows_and_outer_keys() {
    let press = |pos: usize| KeyPress::new('x', pos);
    // Five points, fifteen over the home row, five more for each key in the
    // outermost column.
    assert_eq!(calculate_same_finger_penalty(&press(3), &press(15)), 200);
    assert_eq!(calculate_same_finger_penalty(&press(3), &press(27)), 600);
    assert_eq!(calculate_same_finger_penalty(&press(27), &press(3)), 600);
    assert_eq!(calculate_same_finger_penalty(&press(1), &press(13)), 200);
    assert_eq!(calculate_same_finger_penalty(&press(0), &press(13)), 400);
    assert_eq!(calculate_same_finger_penalty(&press(0), &press(12)), 600);
    assert_eq!(calculate_same_finger_penalty(&press(0), &press(24)), 1000);
    assert_eq!(calculate_same_finger_penalty(&press(35), &press(10)), 800);
    assert_eq!(calculate_same_finger_penalty(&press(36), &press(37)), 200);
    assert_eq!(calculate_same_finger_penalty(&press(46), &press(40)), 200);
}

#[test]
fn a_key_pressed_twice_costs_the_pinky_alone() {
    let press = |pos: usize| KeyPress::new('x', pos);
    assert_eq!(calculate_same_key_penalty(&press(1), &press(1)), 120);
    assert_eq!(calculate_same_key_penalty(&press(35), &press(35)), 120);
    assert_eq!(calculate_same_key_penalty(&press(2), &press(2)), 0);
    assert_eq!(calculate_same_key_penalty(&press(16), &press(16)), 0);
    assert_eq!(calculate_same_key_penalty(&press(42), &press(42)), 0);
}

#[test]
fn penalize_charges_one_key() {
    let mut results = empty_results();
    let curr = KeyPress::new('t', 5);
    let total = penalize(&window("t"), 3, &curr, &None, &None, &None, &mut results, true);
    assert_eq!(total, 300);
    assert_eq!(totals(&results), vec![300, 0, 0, 0, 0, 0, 0, 0, 0, 0, 0, 0]);
    assert_eq!(keys_of(&results[0]), vec![("t".to_string(), 300)]);
    for rule in 1..12 {
        assert_eq!(results[rule].high_keys.len(), 0);
    }
}

#[test]
fn penalize_without_details_leaves_the_results_alone() {
    let mut results = empty_results();
    let curr = KeyPress::new('t', 5);
    let old1 = Some(KeyPress::new('g', 17));
    let total = penalize(&window("gt"), 2, &curr, &old1, &None, &None, &mut results, false);
    // Base 2.5 points, same finger 10 points, twice.
    assert_eq!(total, 2 * (100 + 400));
    assert_eq!(totals(&results), vec![0; 12]);
    let mut none: Vec<KeyPenaltyResult> = Vec::new();
    let total = penalize(&window("gt"), 2, &curr, &old1, &None, &None, &mut none, false);
    assert_eq!(total, 1000);
}

#[test]
fn penalize_charges_two_keys() {
    let charge = |curr: usize, old1: usize| {
        let mut results = empty_results();
        let total = penalize(
            &window("ab"),
            1,
            &KeyPress::new('b', curr),
            &Some(KeyPress::new('a', old1)),
            &None,
            &None,
            &mut results,
            true,
        );
        assert_eq!(total, totals(&results).iter().sum::<i128>());
        totals(&results)
    };
    // The ring finger on key 2 after the pinky on key 25: a stretch, and a
    // roll towards the thumb.
    assert_eq!(charge(2, 25), vec![10, 0, 0, 40, 0, 0, 0, -5, 0, 0, 0, 0]);
    // The other way round: the same stretch, and a roll away from the thumb.
    assert_eq!(charge(25, 2), vec![40, 0, 0, 40, 0, 0, 5, 0, 0, 0, 0, 0]);
    // The index finger on key 5 after key 17, and back.
    assert_eq!(charge(5, 17), vec![100, 0, 400, 0, 0, 0, 0, 0, 0, 0, 0, 0]);
    assert_eq!(charge(17, 5), vec![0, 0, 400, 0, 0, 0, 0, 0, 0, 0, 0, 0]);
    assert_eq!(charge(28, 5), vec![40, 0, 1000, 0, 0, 0, 0, 0, 0, 0, 0, 0]);
    // Key 1 twice: the pinky on one key.
    assert_eq!(charge(1, 1), vec![10, 0, 0, 0, 0, 0, 0, 0, 0, 0, 0, 120]);
    // Key 3 twice costs nothing more.
    assert_eq!(charge(3, 3), vec![60, 0, 0, 0, 0, 0, 0, 0, 0, 0, 0, 0]);
    // Two hands: the key alone.
    assert_eq!(charge(3, 8), vec![60, 0, 0, 0, 0, 0, 0, 0, 0, 0, 0, 0]);
    // A stretch that is not listed: the roll alone.
    assert_eq!(charge(3, 28), vec![60, 0, 0, 0, 0, 0, 5, 0, 0, 0, 0, 0]);
}

#[test]
fn penalize_enters_only_what_costs_for_the_rules_that_look_up_a_pair() {
    let mut results = empty_results();
    // Key 16 after key 17: one finger, at no cost; key 14 after key 15: a
    // stretch that is not listed; key 3 twice.
    for (curr, old1) in [(16, 17), (14, 15), (3, 3)] {
        penalize(
            &window("ab"),
            1,
            &KeyPress::new('b', curr),
            &Some(KeyPress::new('a', old1)),
            &None,
            &None,
            &mut results,
            true,
        );
    }
    assert_eq!(results[2].high_keys.len(), 0);
    assert_eq!(results[3].high_keys.len(), 0);
    assert_eq!(results[11].high_keys.len(), 0);
    // The roll of key 14 after key 15 is entered, and the three keys.
    assert_eq!(keys_of(&results[6]), vec![("ab".to_string(), 5)]);
    assert_eq!(results[7].high_keys.len(), 0);
    assert_eq!(keys_of(&results[0]), vec![("b".to_string(), 120)]);
}

#[test]
fn penalize_charges_three_keys() {
    let charge = |curr: usize, old1: usize, old2: usize| {
        let mut results = empty_results();
        let total = penalize(
            &window("abc"),
            1,
            &KeyPress::new('c', curr),
            &Some(KeyPress::new('b', old1)),
            &Some(KeyPress::new('a', old2)),
            &None,
            &mut results,
            true,
        );
        assert_eq!(total, totals(&results).iter().sum::<i128>());
        for rule in [5, 8, 9, 10] {
            if results[rule].high_keys.len() > 0 {
                assert_eq!(results[rule].high_keys.key(0).to_string(), "abc");
            }
        }
        totals(&results)
    };
    // Ring, pinky, middle on the home row: a roll that turns back.
    assert_eq!(charge(15, 13, 14), vec![60, 0, 0, 80, 0, 800, 0, -5, 0, 0, 0, 0]);
    assert_eq!(charge(14, 13, 15), vec![0, 0, 0, 0, 0, 800, 0, -5, 0, 0, 0, 0]);
    // Ring, pinky, ring.
    assert_eq!(charge(14, 13, 14), vec![0, 0, 0, 0, 0, 0, 0, -5, 0, 0, 600, 0]);
    // Pinky, ring, pinky.
    assert_eq!(charge(13, 14, 13), vec![0, 0, 0, 0, 0, 0, 5, 0, 0, 0, 600, 0]);
    // Top, home, bottom, rolling towards the thumb.
    assert_eq!(charge(3, 14, 25), vec![60, 0, 0, 0, 0, 0, 0, -5, 0, 400, 0, 0]);
    // Bottom, home, top, rolling away from the thumb.
    assert_eq!(charge(25, 14, 3), vec![40, 0, 0, 0, 0, 0, 5, 0, 0, 400, 0, 0]);
    // A roll that changes its direction is no twist, but the ring finger
    // jumps over the home row.
    assert_eq!(charge(2, 15, 26), vec![10, 0, 0, 80, 0, 0, 5, 0, 120, 0, 0, 0]);
    // The middle finger from the bottom row to the top row around a key of
    // the other hand.
    assert_eq!(charge(3, 20, 27), vec![60, 0, 0, 0, 0, 0, 0, 0, 120, 0, 0, 0]);
    assert_eq!(charge(27, 20, 3), vec![80, 0, 0, 0, 0, 0, 0, 0, 120, 0, 0, 0]);
}

#[test]
fn penalize_charges_four_keys() {
    let charge = |curr: usize, old1: usize, old2: usize, old3: usize| {
        let mut results = empty_results();
        let total = penalize(
            &window("abcd"),
            1,
            &KeyPress::new('d', curr),
            &Some(KeyPress::new('c', old1)),
            &Some(KeyPress::new('b', old2)),
            &Some(KeyPress::new('a', old3)),
            &mut results,
            true,
        );
        assert_eq!(total, totals(&results).iter().sum::<i128>());
        totals(&results)
    };
    // Four keys of the left hand.
    assert_eq!(charge(14, 15, 14, 15), vec![0, 0, 0, 0, 4, 0, 5, 0, 0, 0, 0, 0]);
    // Hand after hand.
    assert_eq!(charge(14, 21, 14, 21), vec![0, 20, 0, 0, 0, 0, 0, 0, 0, 0, 0, 0]);
    // Neither.
    assert_eq!(charge(14, 21, 21, 14), vec![0, 0, 0, 0, 0, 0, 0, 0, 0, 0, 0, 0]);
}

#[test]
fn penalize_looks_no_further_than_a_missing_key() {
    let mut results = empty_results();
    // The press before the last is missing: the pinky and ring before it
    // do not count.
    let total = penalize(
        &window("abcd"),
        1,
        &KeyPress::new('d', 14),
        &None,
        &Some(KeyPress::new('b', 14)),
        &Some(KeyPress::new('a', 13)),
        &mut results,
        true,
    );
    assert_eq!(total, 0);
    assert_eq!(totals(&results), vec![0; 12]);
    let total = penalize(
        &window("abcd"),
        1,
        &KeyPress::new('d', 1),
        &Some(KeyPress::new('c', 1)),
        &None,
        &Some(KeyPress::new('a', 1)),
        &mut results,
        true,
    );
    assert_eq!(total, 10 + 120);
}

#[test]
fn a_window_costs_by_the_keys_of_its_characters() {
    let map = qwerty_layout().get_position_map();
    let mut results = empty_results();
    // "at" on QWERTY: t after a rolls towards the thumb.
    let total = penalty_for_quartad(&window("at"), 2, &map, &mut results, true);
    assert_eq!(total, 2 * (100 - 5));
    assert_eq!(keys_of(&results[7]), vec![("at".to_string(), -10)]);
    // A window whose last character has no key costs nothing.
    let total = penalty_for_quartad(&window("at1"), 2, &map, &mut results, true);
    assert_eq!(total, 0);
    assert_eq!(totals(&results), vec![200, 0, 0, 0, 0, 0, 0, -10, 0, 0, 0, 0]);
    // A character without a key before the last cuts the window short.
    let total = penalty_for_quartad(&window("a1t"), 1, &map, &mut results, false);
    assert_eq!(total, 100);
}

#[test]
fn a_window_has_a_cost_if_its_last_key_press_has_one() {
    let map = qwerty_layout().get_position_map();
    assert!(quartad_is_covered(&window("t"), &map));
    assert!(quartad_is_covered(&window("at"), &map));
    // The keys of f and g are a listed pair of the left index finger.
    assert!(quartad_is_covered(&window("fg"), &map));
    // The keys of r and t are not, nor those of b and r.
    assert!(!quartad_is_covered(&window("rt"), &map));
    assert!(!quartad_is_covered(&window("br"), &map));
    // The pair before the last press does not count.
    assert!(quartad_is_covered(&window("rta"), &map));
    // A blank is on a thumb key, which has no cost of its own.
    assert!(!quartad_is_covered(&window(" "), &map));
    assert!(!quartad_is_covered(&window("a "), &map));
    assert!(quartad_is_covered(&window(" a"), &map));
    // A character without a key: nothing to charge.
    assert!(quartad_is_covered(&window("a1"), &map));
    assert!(quartad_is_covered(&window("r1t"), &map));
}

#[test]
fn a_text_has_a_cost_if_all_its_windows_have() {
    let map = qwerty_layout().get_position_map();
    let covered = |text: &str, layout: &Layout| is_covered(&prepare_quartad_list(text, &map), layout);
    assert!(covered("the", &qwerty_layout()));
    assert!(covered("hello", &qwerty_layout()));
    assert!(covered("", &qwerty_layout()));
    assert!(!covered("the fox", &qwerty_layout()));
    assert!(!covered("thequickbrownfox", &qwerty_layout()));
    assert!(covered("thequickbrownfox", &dvorak_layout()));
    assert!(covered("thequickbrownfox", &colemak_layout()));
    // The layout that a search starts from holds e on a thumb key.
    assert!(!covered("the", &init_layout()));
    assert!(covered("lazydog", &init_layout()));
    assert!(!covered("lazydog", &dvorak_layout()));
}

#[test]
fn texts_on_four_layouts() {
    assert_eq!(score("the", &qwerty_layout(), true), (160, vec![160, 0, 0, 0, 0, 0, 0, 0, 0, 0, 0, 0]));
    assert_eq!(score("the", &dvorak_layout(), true), (105, vec![110, 0, 0, 0, 0, 0, 0, -5, 0, 0, 0, 0]));
    assert_eq!(score("the", &colemak_layout(), true), (115, vec![110, 0, 0, 0, 0, 0, 5, 0, 0, 0, 0, 0]));
    assert_eq!(
        score("thequickbrownfox", &dvorak_layout(), true),
        (1219, vec![800, 20, 0, 400, 4, 0, 15, -20, 0, 0, 0, 0])
    );
    assert_eq!(
        score("thequickbrownfox", &colemak_layout(), true),
        (1055, vec![900, 100, 0, 40, 0, 0, 15, 0, 0, 0, 0, 0])
    );
    assert_eq!(
        score("helloworld", &qwerty_layout(), true),
        (1250, vec![990, 60, 200, 0, 0, 0, 0, 0, 0, 0, 0, 0])
    );
    assert_eq!(
        score("helloworld", &dvorak_layout(), true),
        (1020, vec![740, 40, 0, 120, 0, 0, 5, -5, 0, 0, 0, 120])
    );
    assert_eq!(
        score("lazydog", &init_layout(), true),
        (375, vec![380, 0, 0, 0, 0, 0, 5, -10, 0, 0, 0, 0])
    );
    assert_eq!(
        score("quiz", &init_layout(), true),
        (774, vec![540, 0, 200, 40, 4, 0, 0, -10, 0, 0, 0, 0])
    );
}

#[test]
fn other_texts_on_qwerty() {
    assert_eq!(score("aaaa", &qwerty_layout(), true), (364, vec![0, 0, 0, 0, 4, 0, 0, 0, 0, 0, 0, 360]));
    assert_eq!(
        score("hello", &qwerty_layout(), true),
        (720, vec![520, 0, 200, 0, 0, 0, 0, 0, 0, 0, 0, 0])
    );
    assert_eq!(
        score("a\u{e9}cd", &qwerty_layout(), true),
        (340, vec![140, 0, 200, 0, 0, 0, 0, 0, 0, 0, 0, 0])
    );
    assert_eq!(
        score("zaqxswcde", &qwerty_layout(), true),
        (2034, vec![340, 0, 1200, 120, 24, 0, 0, -10, 360, 0, 0, 0])
    );
    assert_eq!(
        score("popsaslol", &qwerty_layout(), true),
        (2560, vec![960, 0, 400, 0, 0, 0, 10, -10, 0, 0, 1200, 0])
    );
    assert_eq!(
        score("wavexes", &qwerty_layout(), true),
        (276, vec![250, 0, 0, 0, 16, 0, 20, -10, 0, 0, 0, 0])
    );
    assert_eq!(score("", &qwerty_layout(), true), (0, vec![0; 12]));
}

#[test]
fn details_do_not_change_the_total_and_the_rules_add_up() {
    let texts = ["the", "helloworld", "popsaslol", "zaqxswcde", "aaaa", "pack", "wavexes"];
    let layouts = [qwerty_layout(), colemak_layout()];
    for text in texts {
        for layout in layouts.iter() {
            let (plain, none) = score(text, layout, false);
            let (detailed, rules) = score(text, layout, true);
            assert!(none.is_empty());
            assert_eq!(plain, detailed);
            assert_eq!(rules.len(), 12);
            assert_eq!(rules.iter().sum::<i128>(), detailed);
        }
    }
}

#[test]
fn a_layout_with_one_finger_on_the_frequent_letters_costs_more() {
    let text = "the quick brown fox";
    // Both layouts hold the blank on the first key, which has a cost of its
    // own. The first is the Colemak layout but for that.
    let spread = with_blank(
        " qwfpgjluy;-\0arstdhneio'\0zxcvbkm,./",
        " QWFPGJLUY:_\0ARSTDHNEIO\"\0ZXCVBKM<>?",
    );
    // The letters of "the", "own" and "uic" each on the keys of one finger.
    let crowded = with_blank(
        " qots,ykurp-\0awhfgdjib;'\0znevl.mcx/",
        " QOTS<YKURP_\0AWHFGDJIB:\"\0ZNEVL>MCX?",
    );
    let cost = |layout: &Layout| {
        let quartads = prepare_quartad_list(text, &layout.get_position_map());
        assert_eq!(quartads.total(), 19);
        assert!(is_covered(&quartads, layout));
        let (total, results) = calculate_penalty(&quartads, layout, &init(), true);
        (total, totals(&results))
    };
    let (spread_total, spread_rules) = cost(&spread);
    let (crowded_total, crowded_rules) = cost(&crowded);
    assert_eq!(spread_total, 1825);
    assert_eq!(spread_rules, vec![1320, 60, 400, 40, 0, 0, 15, -10, 0, 0, 0, 0]);
    assert_eq!(crowded_total, 3469);
    assert_eq!(crowded_rules, vec![1160, 0, 1800, 120, 24, 0, 15, -10, 360, 0, 0, 0]);
    assert!(spread_rules[2] + spread_rules[3] < crowded_rules[2] + crowded_rules[3]);
    assert!(spread_total < crowded_total);
    // The same holds of the costs for each character.
    let len = text.chars().count() as f64;
    assert!((spread_total as f64) / 40.0 / len < (crowded_total as f64) / 40.0 / len);
}

#[test]
fn each_rule_has_a_result_under_its_name() {
    let quartads = prepare_quartad_list("thequick", &qwerty_layout().get_position_map());
    let rules = init();
    let (total, results) = calculate_penalty(&quartads, &qwerty_layout(), &rules, true);
    assert_eq!(results.len(), 12);
    for (result, name) in results.iter().zip(NAMES.iter()) {
        assert_eq!(result.name, *name);
    }
    assert_eq!(total, results.iter().map(|result| result.total).sum::<i128>());
}

#[test]
fn the_windows_that_a_rule_charged_most_come_first() {
    let text = "popsaslolhelloworldzaqxswcdepopwavexes";
    let quartads = prepare_quartad_list(text, &qwerty_layout().get_position_map());
    assert_eq!(quartads.len(), 38);
    let (total, results) = calculate_penalty(&quartads, &qwerty_layout(), &init(), true);
    assert_eq!(total, 7228);
    assert_eq!(totals(&results), vec![3040, 60, 1800, 120, 48, 0, 40, -40, 360, 0, 1800, 0]);
    let top = |rule: usize, n: usize| -> Vec<(String, i128)> {
        results[rule].top_keys(n).iter().map(|(key, sum)| (key.to_string(), *sum)).collect()
    };
    let named = |pairs: &[(&str, i128)]| -> Vec<(String, i128)> {
        pairs.iter().map(|(key, sum)| (key.to_string(), *sum)).collect()
    };
    assert_eq!(results[0].high_keys.len(), 15);
    assert_eq!(top(0, 5), named(&[("l", 800), ("p", 720), ("o", 700), ("e", 240), ("x", 160)]));
    assert_eq!(
        top(2, 5),
        named(&[("lo", 400), ("ol", 200), ("za", 200), ("aq", 200), ("xs", 200)])
    );
    assert_eq!(top(3, 5), named(&[("qx", 120)]));
    assert_eq!(
        top(7, 5),
        named(&[("po", -10), ("as", -5), ("lh", -5), ("qx", -5), ("wc", -5)])
    );
    assert_eq!(top(10, 5), named(&[("pop", 1200), ("sas", 600)]));
    assert_eq!(top(7, 2), named(&[("po", -10), ("as", -5)]));
    assert_eq!(top(2, 0), named(&[]));
    assert_eq!(top(5, 5), named(&[]));
    assert_eq!(top(2, 1), named(&[("lo", 400)]));
    // No window comes twice.
    for rule in 0..12 {
        let all = top(rule, 100);
        assert_eq!(all.len(), results[rule].high_keys.len());
        for i in 0..all.len() {
            for j in 0..i {
                assert_ne!(all[i].0, all[j].0);
            }
        }
    }
}

#[test]
fn rewards_rank_by_how_far_they_lie_from_nothing() {
    let mut high_keys = Tally::new();
    high_keys.add(window("ab"), 10);
    high_keys.add(window("cd"), -30);
    high_keys.add(window("ef"), 30);
    high_keys.add(window("gh"), -20);
    let result = KeyPenaltyResult { name: "roll in", total: -10, high_keys };
    let top: Vec<(String, i128)> =
        result.top_keys(3).iter().map(|(key, sum)| (key.to_string(), *sum)).collect();
    assert_eq!(
        top,
        vec![("cd".to_string(), -30), ("ef".to_string(), 30), ("gh".to_string(), -20)]
    );
    assert_eq!(result.top_keys(9).len(), 4);
}

#[test]
fn the_tables_of_costs_as_a_whole() {
    // Each cost weighted by the place of its keys, summed over the board.
    let weight = |a: usize, b: usize| (a * 50 + b + 1) as i128;
    let mut stretches = 0;
    let mut listed = 0;
    let mut one_finger = 0;
    let mut pairs = 0;
    let mut index_pairs = 0;
    for a in 0..50 {
        for b in 0..50 {
            let (first, second) = (KeyPress::new('a', a), KeyPress::new('b', b));
            if hand_at(a) != hand_at(b) {
                continue;
            }
            if finger_at(a) != finger_at(b) {
                let cost = calculate_stretch_penalty(&first, &second);
                assert_eq!(cost, calculate_stretch_penalty(&second, &first));
                assert!(0 <= cost && cost <= 400 && cost % 40 == 0);
                stretches += cost * weight(a, b);
                if cost != 0 {
                    listed += 1;
                }
            } else if a != b {
                if finger_at(a) == Finger::Index {
                    if !index_pair_listed(a, b) {
                        continue;
                    }
                    index_pairs += 1;
                }
                let cost = calculate_same_finger_penalty(&first, &second);
                assert!(0 <= cost && cost <= 1000 && cost % 40 == 0);
                one_finger += cost * weight(a, b);
                pairs += 1;
            }
        }
    }
    assert_eq!(stretches, 5915040);
    assert_eq!(listed, 62);
    assert_eq!(one_finger, 74693640);
    assert_eq!(pairs, 180);
    assert_eq!(index_pairs, 12);
    assert_eq!((0..34).map(|pos| base_penalty(pos) * (pos as i128 + 1)).sum::<i128>(), 33550);
    assert_eq!((0..34).map(base_penalty).sum::<i128>(), 1960);
}
