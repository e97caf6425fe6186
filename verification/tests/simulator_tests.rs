use keygen::layout::Layout;
use keygen::penalty::calculate_penalty;
use keygen::penalty::is_covered;
use keygen::penalty::init;
use keygen::penalty::prepare_quartad_list;
use keygen::penalty::QuartadList;
use keygen::presets::dvorak_layout;
use keygen::presets::qwerty_layout;
use keygen::simulator::list_insert_ordered;
use keygen::simulator::refine;
use keygen::simulator::refine_round;
use keygen::simulator::simulate;
use keygen::simulator::simulate_with;
use keygen::simulator::swap_count_from;
use keygen::simulator::Annealing;
use keygen::simulator::BestLayouts;
use keygen::simulator::BestLayoutsEntry;
use keygen::simulator::SearchError;
use keygen::simulator::VisitedLayouts;
use std::cell::Cell;
use std::cmp::Ordering;

fn entry(mark: &str, penalty: i128) -> BestLayoutsEntry {
    BestLayoutsEntry { layout: Layout::from_layers(mark, ""), penalty }
}

fn marks(list: &Vec<BestLayoutsEntry>) -> Vec<(char, i128)> {
    list.iter().map(|entry| (entry.layout.lower().get(0), entry.penalty)).collect()
}

/// A text of one character, on a key of QWERTY that no swap moves.
fn dashes() -> QuartadList {
    prepare_quartad_list("----", &qwerty_layout().get_position_map())
}

/// A text that has a cost on QWERTY, but not on every layout a swap away.
fn the() -> QuartadList {
    prepare_quartad_list("the", &qwerty_layout().get_position_map())
}

fn cost(quartads: &QuartadList, layout: &Layout) -> i128 {
    calculate_penalty(quartads, layout, &init(), false).0
}

fn swapped(layout: &Layout, i: usize, j: usize) -> Layout {
    let mut layout = layout.clone();
    layout.swap(i, j);
    layout
}

#[test]
fn entries_stand_to_each_other_by_cost() {
    assert_eq!(entry("a", 1).cmp(&entry("b", 2)), Ordering::Less);
    assert_eq!(entry("a", 2).cmp(&entry("b", 2)), Ordering::Equal);
    assert_eq!(entry("a", 3).cmp(&entry("b", 2)), Ordering::Greater);
    assert_eq!(entry("a", -3).cmp(&entry("b", 2)), Ordering::Less);
}

#[test]
fn an_entry_goes_before_the_first_that_costs_no_less() {
    let mut list = Vec::new();
    list = list_insert_ordered(list, entry("a", 5));
    assert_eq!(marks(&list), vec![('a', 5)]);
    list = list_insert_ordered(list, entry("b", 7));
    assert_eq!(marks(&list), vec![('a', 5), ('b', 7)]);
    list = list_insert_ordered(list, entry("c", 3));
    assert_eq!(marks(&list), vec![('c', 3), ('a', 5), ('b', 7)]);
    list = list_insert_ordered(list, entry("d", 6));
    assert_eq!(marks(&list), vec![('c', 3), ('a', 5), ('d', 6), ('b', 7)]);
    // Among entries of one cost the latest comes first.
    list = list_insert_ordered(list, entry("e", 5));
    assert_eq!(marks(&list), vec![('c', 3), ('e', 5), ('a', 5), ('d', 6), ('b', 7)]);
    list = list_insert_ordered(list, entry("f", 7));
    assert_eq!(marks(&list), vec![('c', 3), ('e', 5), ('a', 5), ('d', 6), ('f', 7), ('b', 7)]);
    list = list_insert_ordered(list, entry("g", -1));
    assert_eq!(list[0].penalty, -1);
    assert_eq!(list.len(), 7);
}

#[test]
fn the_best_layouts_are_in_order_and_no_more_than_there_is_room_for() {
    let mut best = BestLayouts::new(3);
    let marks_of = |best: &BestLayouts| -> Vec<(char, i128)> {
        (0..best.len())
            .map(|i| (best.get(i).layout.lower().get(0), best.get(i).penalty))
            .collect()
    };
    let costs = [9, 4, 7, 4, 8, 1, 10, 4, 0, -3, 12];
    for (i, penalty) in costs.iter().enumerate() {
        best.insert(entry(&((b'a' + i as u8) as char).to_string(), *penalty));
        assert!(best.len() <= 3);
        assert_eq!(best.len(), (i + 1).min(3));
        for k in 1..best.len() {
            assert!(best.get(k - 1).penalty <= best.get(k).penalty);
        }
    }
    assert_eq!(marks_of(&best), vec![('j', -3), ('i', 0), ('f', 1)]);
    let mut best = BestLayouts::new(3);
    for (i, penalty) in [9, 4, 7, 4, 8].iter().enumerate() {
        best.insert(entry(&((b'a' + i as u8) as char).to_string(), *penalty));
    }
    assert_eq!(marks_of(&best), vec![('d', 4), ('b', 4), ('c', 7)]);
    assert_eq!(marks(&best.into_entries()), vec![('d', 4), ('b', 4), ('c', 7)]);
}

#[test]
fn a_list_without_room_stays_empty() {
    let mut best = BestLayouts::new(0);
    best.insert(entry("a", 1));
    best.insert(entry("b", 0));
    assert_eq!(best.len(), 0);
    let mut best = BestLayouts::new(1);
    best.insert(entry("a", 1));
    best.insert(entry("b", 1));
    best.insert(entry("c", 2));
    assert_eq!(best.len(), 1);
    assert_eq!(best.get(0).layout.lower().get(0), 'b');
}

#[test]
fn visited_layouts_are_told_by_what_their_keys_hold() {
    let mut visited = VisitedLayouts::new();
    assert!(!visited.contains(&qwerty_layout()));
    visited.insert(qwerty_layout());
    assert!(visited.contains(&qwerty_layout()));
    assert!(!visited.contains(&dvorak_layout()));
    assert!(!visited.contains(&swapped(&qwerty_layout(), 1, 2)));
    // A swap of two keys without a character gives the same layout.
    assert!(visited.contains(&swapped(&qwerty_layout(), 0, 12)));
    visited.insert(swapped(&qwerty_layout(), 1, 2));
    visited.insert(qwerty_layout());
    assert!(visited.contains(&swapped(&qwerty_layout(), 1, 2)));
    assert!(visited.contains(&qwerty_layout()));
    assert!(!visited.contains(&swapped(&qwerty_layout(), 1, 3)));
}

#[test]
fn a_round_keeps_the_best_of_the_layouts_one_swap_away() {
    let quartads = dashes();
    let mut visited = VisitedLayouts::new();
    let round =
        refine_round(&quartads, &qwerty_layout(), &init(), &mut visited, true, 3, 1).unwrap();
    // The text costs the same on every layout: the latest come first.
    assert_eq!(round.best.len(), 3);
    for entry in round.best.iter() {
        assert_eq!(entry.penalty, 564);
    }
    assert_eq!(round.best[0].layout, swapped(&qwerty_layout(), 49, 42));
    assert_eq!(round.best[1].layout, swapped(&qwerty_layout(), 48, 42));
    assert_eq!(round.best[2].layout, swapped(&qwerty_layout(), 47, 42));
    // Swaps of two keys without a character give one layout: it is scored
    // once, and the places of the others in the walk are passed over.
    assert_eq!(round.scored.len(), 1041);
    assert_eq!(round.places.len(), 1041);
    assert_eq!(round.scored[0].layout, swapped(&qwerty_layout(), 0, 1));
    assert_eq!(round.places[..6], [0, 1, 2, 3, 4, 5]);
    assert_eq!(round.places[20..26], [20, 21, 23, 24, 25, 26]);
    assert_eq!(round.places[1040], 1154);
    for scored in round.scored.iter() {
        assert!(visited.contains(&scored.layout));
        assert_eq!(scored.penalty, 564);
    }
    assert_eq!(round.scored[0].penalty, cost(&quartads, &round.scored[0].layout));
    // A second round from the same layout finds nothing new.
    let again =
        refine_round(&quartads, &qwerty_layout(), &init(), &mut visited, true, 3, 1).unwrap();
    assert_eq!(again.best.len(), 0);
    assert_eq!(again.scored.len(), 0);
    assert_eq!(again.places.len(), 0);
}

#[test]
fn a_round_without_debug_does_not_list_what_it_scored() {
    let quartads = dashes();
    let mut visited = VisitedLayouts::new();
    let round =
        refine_round(&quartads, &qwerty_layout(), &init(), &mut visited, false, 2, 1).unwrap();
    assert_eq!(round.best.len(), 2);
    assert_eq!(round.scored.len(), 0);
    assert_eq!(round.places.len(), 0);
    assert!(visited.contains(&swapped(&qwerty_layout(), 5, 30)));
}

#[test]
fn a_round_stops_at_the_first_layout_without_a_cost() {
    let quartads = the();
    let mut visited = VisitedLayouts::new();
    let round = refine_round(&quartads, &qwerty_layout(), &init(), &mut visited, true, 3, 1);
    // With e on the key of y, the right index finger presses the keys of h
    // and y in a row, which is no listed pair.
    let stop = swapped(&qwerty_layout(), 6, 3);
    assert!(!is_covered(&quartads, &stop));
    let found = match round {
        Err(found) => found,
        Ok(_) => panic!("the round went on"),
    };
    assert_eq!(found.layout, stop);
    // Every layout before it in the walk has a cost, and the round tells
    // each of them once, with its place.
    let mut permutations = keygen::layout::LayoutPermutations::new(&qwerty_layout(), 1);
    let mut met: Vec<Layout> = Vec::new();
    let mut places: Vec<usize> = Vec::new();
    for place in 0..143 {
        let layout = permutations.next().unwrap();
        assert!(is_covered(&quartads, &layout));
        if !met.contains(&layout) {
            met.push(layout);
            places.push(place);
        }
    }
    assert_eq!(permutations.next().unwrap(), stop);
    assert_eq!(found.before.places, places);
    assert_eq!(found.before.scored.len(), met.len());
    for (entry, layout) in found.before.scored.iter().zip(met.iter()) {
        assert_eq!(entry.layout, *layout);
        assert_eq!(entry.penalty, cost(&quartads, layout));
    }
    let mut costs: Vec<i128> = met.iter().map(|layout| cost(&quartads, layout)).collect();
    costs.sort();
    let best: Vec<i128> = found.before.best.iter().map(|entry| entry.penalty).collect();
    assert_eq!(best, costs[..3].to_vec());
    // The layouts told are the layouts looked at; the one without a cost is
    // not among them.
    for layout in met.iter() {
        assert!(visited.contains(layout));
    }
    assert!(!visited.contains(&stop));
}

#[test]
fn a_round_that_stops_tells_no_layouts_without_debug() {
    let quartads = the();
    let mut visited = VisitedLayouts::new();
    let found = refine_round(&quartads, &qwerty_layout(), &init(), &mut visited, false, 2, 1)
        .expect_err("the round went on");
    assert_eq!(found.layout, swapped(&qwerty_layout(), 6, 3));
    assert!(found.before.scored.is_empty());
    assert!(found.before.places.is_empty());
    assert_eq!(found.before.best.len(), 2);
}

#[test]
fn refine_ends_where_no_swap_makes_the_text_cheaper() {
    let quartads = dashes();
    let report = refine(&quartads, &qwerty_layout(), &init(), true, 3, 1).unwrap();
    assert_eq!(report.rounds.len(), 1);
    assert_eq!(report.winner, qwerty_layout());
    assert_eq!(report.penalty, 564);
    assert_eq!(report.penalty, cost(&quartads, &report.winner));
    let costs: Vec<i128> = report.rounds[0].best.iter().map(|entry| entry.penalty).collect();
    assert_eq!(costs, vec![564, 564, 564]);
    assert_eq!(report.rounds[0].scored.len(), 1041);
    // No layout one swap away is cheaper than the layout found.
    for scored in report.rounds[0].scored.iter() {
        assert!(scored.penalty >= report.penalty);
    }
    // From there the search makes one round again and stays.
    let again = refine(&quartads, &report.winner, &init(), false, 4, 1).unwrap();
    assert_eq!(again.rounds.len(), 1);
    assert_eq!(again.winner, report.winner);
    assert_eq!(again.penalty, report.penalty);
    assert_eq!(again.rounds[0].best.len(), 4);
    assert!(again.rounds[0].scored.is_empty());
}

#[test]
fn refine_on_a_text_without_a_key_stays_where_it_is() {
    let quartads = prepare_quartad_list("123", &qwerty_layout().get_position_map());
    let report = refine(&quartads, &qwerty_layout(), &init(), false, 2, 1).unwrap();
    assert_eq!(report.rounds.len(), 1);
    assert_eq!(report.winner, qwerty_layout());
    assert_eq!(report.penalty, 0);
}

#[test]
fn refine_stops_at_a_layout_without_a_cost() {
    let quartads = the();
    let found =
        refine(&quartads, &qwerty_layout(), &init(), true, 3, 1).expect_err("the search went on");
    assert_eq!(found.error, SearchError::Uncovered(swapped(&qwerty_layout(), 6, 3)));
    assert!(!is_covered(&quartads, &swapped(&qwerty_layout(), 6, 3)));
    // The search tells the round that it was in, cut short before that
    // layout.
    let mut visited = VisitedLayouts::new();
    let round = refine_round(&quartads, &qwerty_layout(), &init(), &mut visited, true, 3, 1)
        .expect_err("the round went on");
    assert_eq!(found.rounds.len(), 1);
    assert_eq!(found.rounds[0].scored, round.before.scored);
    assert_eq!(found.rounds[0].places, round.before.places);
    assert_eq!(found.rounds[0].best, round.before.best);
    assert_eq!(*found.rounds[0].places.last().unwrap(), 142);
    // The first layout itself: a blank is on a thumb key.
    let quartads = prepare_quartad_list("the fox", &qwerty_layout().get_position_map());
    let found =
        refine(&quartads, &qwerty_layout(), &init(), true, 3, 1).expect_err("the search went on");
    assert_eq!(found.error, SearchError::Uncovered(qwerty_layout()));
    assert!(found.rounds.is_empty());
}

#[test]
fn refine_without_a_layout_to_go_on_with_is_at_a_loss() {
    let quartads = dashes();
    // No room for a best layout: the round scores the layouts and keeps
    // none.
    let found =
        refine(&quartads, &qwerty_layout(), &init(), true, 0, 1).expect_err("the search went on");
    assert_eq!(found.error, SearchError::NothingFound);
    assert_eq!(found.rounds.len(), 1);
    assert!(found.rounds[0].best.is_empty());
    assert_eq!(found.rounds[0].scored.len(), 1041);
    // More swaps than there are pairs of keys: no layout to look at.
    let found =
        refine(&quartads, &qwerty_layout(), &init(), true, 3, 25).expect_err("the search went on");
    assert_eq!(found.error, SearchError::NothingFound);
    assert_eq!(found.rounds.len(), 1);
    assert!(found.rounds[0].best.is_empty());
    assert!(found.rounds[0].scored.is_empty());
}

#[test]
fn refine_without_a_swap_stays_where_it_is() {
    let quartads = dashes();
    let report = refine(&quartads, &qwerty_layout(), &init(), true, 3, 0).unwrap();
    assert_eq!(report.rounds.len(), 1);
    assert_eq!(report.rounds[0].best.len(), 1);
    assert_eq!(report.rounds[0].best[0].layout, qwerty_layout());
    assert_eq!(report.rounds[0].scored.len(), 1);
    assert_eq!(report.rounds[0].places, vec![0]);
    assert_eq!(report.winner, qwerty_layout());
    assert_eq!(report.penalty, 564);
}

#[test]
fn the_number_of_swaps_of_a_proposal_lies_between_one_and_the_most() {
    assert_eq!(swap_count_from(0, 1), 1);
    assert_eq!(swap_count_from(17, 1), 1);
    assert_eq!(swap_count_from(0, 3), 1);
    assert_eq!(swap_count_from(1, 3), 2);
    assert_eq!(swap_count_from(2, 3), 3);
    assert_eq!(swap_count_from(3, 3), 1);
    assert_eq!(swap_count_from(usize::MAX, usize::MAX), 1);
    assert_eq!(swap_count_from(usize::MAX - 1, usize::MAX), usize::MAX);
}

#[test]
fn annealing_starts_on_the_first_layout() {
    let search = Annealing::new(&qwerty_layout(), 1105, 3);
    assert_eq!(*search.accepted(), qwerty_layout());
    assert_eq!(search.accepted_penalty(), 1105);
    assert_eq!(search.best().len(), 1);
    assert_eq!(search.best().get(0).layout, qwerty_layout());
    assert_eq!(search.best().get(0).penalty, 1105);
    let search = Annealing::new(&qwerty_layout(), 1105, 0);
    assert_eq!(search.best().len(), 0);
    assert_eq!(*search.accepted(), qwerty_layout());
}

#[test]
fn annealing_moves_on_to_what_is_accepted_alone() {
    let mut search = Annealing::new(&qwerty_layout(), 1105, 2);
    search.decide(dvorak_layout(), 724, false);
    assert_eq!(*search.accepted(), qwerty_layout());
    assert_eq!(search.accepted_penalty(), 1105);
    assert_eq!(search.best().len(), 1);
    search.decide(dvorak_layout(), 724, true);
    assert_eq!(*search.accepted(), dvorak_layout());
    assert_eq!(search.accepted_penalty(), 724);
    assert_eq!(search.best().len(), 2);
    assert_eq!(search.best().get(0).layout, dvorak_layout());
    assert_eq!(search.best().get(1).layout, qwerty_layout());
    // A costlier layout that is accepted is stood on, but finds no room
    // among the best.
    let costly = swapped(&qwerty_layout(), 1, 2);
    search.decide(costly.clone(), 2000, true);
    assert_eq!(*search.accepted(), costly);
    assert_eq!(search.accepted_penalty(), 2000);
    assert_eq!(search.best().len(), 2);
    assert_eq!(search.best().get(1).layout, qwerty_layout());
    assert_eq!(search.into_best().len(), 2);
}

#[test]
fn a_proposal_is_some_swaps_away() {
    let base = Layout::from_layers(
        "abcdefghijklmnopqrstuvwxyz0123456789!#$%&()*+,-./:",
        "ABCDEFGHIJKLMNOPQRSTUVWXYZ;<=>?@[]^_`{|}~\"' \\\u{1}\u{2}\u{3}\u{4}\u{5}",
    );
    let search = Annealing::new(&base, 0, 1);
    for _ in 0..200 {
        let candidate = search.propose(1);
        let moved = (0..50).filter(|&p| candidate.lower().get(p) != base.lower().get(p)).count();
        assert_eq!(moved, 2);
        assert_eq!(candidate.lower().get(11), base.lower().get(11));
    }
    for _ in 0..200 {
        let candidate = search.propose(3);
        let moved = (0..50).filter(|&p| candidate.lower().get(p) != base.lower().get(p)).count();
        assert!(moved <= 6);
        let mut lower: Vec<char> = (0..50).map(|p| candidate.lower().get(p)).collect();
        let mut expected: Vec<char> = (0..50).map(|p| base.lower().get(p)).collect();
        lower.sort();
        expected.sort();
        assert_eq!(lower, expected);
    }
}

#[test]
fn simulate_that_accepts_nothing_keeps_the_first_layout() {
    let quartads = dashes();
    let steps = Cell::new(0usize);
    let report = simulate(&quartads, &qwerty_layout(), &init(), true, 3, 2, 1, 51, |_, step| {
        assert!(1 <= step && step < 51);
        steps.set(steps.get() + 1);
        false
    })
    .unwrap();
    assert_eq!(steps.get(), 50);
    assert_eq!(report.best.len(), 1);
    assert_eq!(report.best[0].layout, qwerty_layout());
    assert_eq!(report.best[0].penalty, 564);
    assert!(report.accepted.is_empty());
}

#[test]
fn simulate_that_accepts_all_keeps_the_latest_of_equal_cost() {
    let quartads = dashes();
    let deltas = Cell::new(0usize);
    let report = simulate(&quartads, &qwerty_layout(), &init(), true, 5, 1, 0, 40, |delta, _| {
        assert_eq!(delta, 0);
        deltas.set(deltas.get() + 1);
        true
    })
    .unwrap();
    assert_eq!(deltas.get(), 40);
    assert_eq!(report.best.len(), 5);
    for entry in report.best.iter() {
        assert_eq!(entry.penalty, 564);
        assert_eq!(entry.penalty, cost(&quartads, &entry.layout));
        // The layout holds the characters of the first layout.
        let mut lower: Vec<char> = (0..50).map(|p| entry.layout.lower().get(p)).collect();
        let mut expected: Vec<char> = (0..50).map(|p| qwerty_layout().lower().get(p)).collect();
        lower.sort();
        expected.sort();
        assert_eq!(lower, expected);
        assert_eq!(entry.layout.lower().get(11), '-');
    }
    let steps: Vec<usize> = report.accepted.iter().map(|(step, _)| *step).collect();
    assert_eq!(steps, (0..40).collect::<Vec<usize>>());
}

#[test]
fn simulate_without_debug_lists_no_steps() {
    let quartads = dashes();
    let report =
        simulate(&quartads, &qwerty_layout(), &init(), false, 2, 3, 10, 30, |_, _| true).unwrap();
    assert!(report.accepted.is_empty());
    assert_eq!(report.best.len(), 2);
    // No step at all.
    let report =
        simulate(&quartads, &qwerty_layout(), &init(), true, 2, 3, 30, 10, |_, _| true).unwrap();
    assert!(report.accepted.is_empty());
    assert_eq!(report.best.len(), 1);
    let report =
        simulate(&quartads, &qwerty_layout(), &init(), true, 0, 3, 0, 10, |_, _| true).unwrap();
    assert!(report.best.is_empty());
}

#[test]
fn simulate_stops_at_a_layout_without_a_cost() {
    let quartads = the();
    match simulate(&quartads, &qwerty_layout(), &init(), true, 3, 3, 0, 2000, |_, _| true) {
        Ok(report) => {
            for entry in report.best.iter() {
                assert_eq!(entry.penalty, cost(&quartads, &entry.layout));
            }
        },
        Err(found) => {
            assert!(!is_covered(&quartads, &found.layout));
            // Every step before was accepted, on a layout with a cost.
            let steps: Vec<usize> = found.accepted.iter().map(|(step, _)| *step).collect();
            assert_eq!(steps, (0..found.accepted.len()).collect::<Vec<usize>>());
            assert!(found.accepted.len() < 2000);
        },
    }
    let quartads = prepare_quartad_list("the fox", &qwerty_layout().get_position_map());
    let found = simulate(&quartads, &qwerty_layout(), &init(), true, 3, 3, 0, 20, |_, _| true)
        .expect_err("the search went on");
    assert_eq!(found.layout, qwerty_layout());
    assert!(found.accepted.is_empty());
}

#[test]
fn simulate_without_a_step_draws_nothing() {
    // With no step to make, no number of swaps is asked for.
    let quartads = dashes();
    let report = simulate(&quartads, &qwerty_layout(), &init(), true, 3, 0, 7, 7, |_, _| true)
        .expect("no layout is tried");
    assert_eq!(report.best.len(), 1);
    assert_eq!(report.best[0].layout, qwerty_layout());
    assert_eq!(report.best[0].penalty, 564);
    assert!(report.accepted.is_empty());
    let report = simulate(&quartads, &qwerty_layout(), &init(), true, 3, 0, 9, 2, |_, _| true)
        .expect("no layout is tried");
    assert_eq!(report.best.len(), 1);
    // The first layout must have a cost all the same.
    let quartads = prepare_quartad_list("the fox", &qwerty_layout().get_position_map());
    let found = simulate(&quartads, &qwerty_layout(), &init(), true, 3, 0, 7, 7, |_, _| true)
        .expect_err("the first layout has no cost");
    assert_eq!(found.layout, qwerty_layout());
}

fn proposals() -> Vec<Vec<(usize, usize)>> {
    vec![
        vec![(970, 154), (404, 666)],
        vec![(74, 840)],
        vec![(96, 374), (596, 59), (931, 519)],
        vec![(38, 88)],
        vec![(428, 71), (246, 92)],
        vec![(434, 60), (846, 579), (126, 970)],
        vec![(645, 642)],
        vec![(970, 63), (590, 599), (406, 50)],
        vec![(47, 570)],
        vec![(296, 429)],
        vec![(553, 120)],
        vec![(315, 573), (835, 698), (185, 105)],
        vec![(584, 654), (192, 381), (99, 560)],
        vec![(64, 577), (61, 633), (210, 508)],
        vec![(544, 437), (795, 321), (476, 599)],
        vec![(370, 306), (254, 813)],
        vec![(715, 798)],
        vec![(83, 588)],
        vec![(537, 506), (896, 351)],
        vec![(459, 294), (623, 74), (120, 524)],
        vec![(168, 775), (350, 155)],
        vec![(431, 40), (985, 684)],
        vec![(782, 571)],
        vec![(808, 896), (837, 321), (348, 711)],
        vec![(608, 508), (593, 816)],
        vec![(70, 860), (95, 967)],
        vec![(485, 713), (680, 66)],
        vec![(748, 718)],
        vec![(662, 591), (697, 841)],
        vec![(291, 733), (395, 908)],
        vec![(355, 23), (963, 472), (363, 172)],
        vec![(119, 505), (60, 223), (786, 294)],
        vec![(756, 253)],
        vec![(400, 938), (892, 508)],
        vec![(170, 459)],
        vec![(562, 284), (904, 140)],
        vec![(884, 563), (285, 723)],
        vec![(367, 699), (905, 389)],
        vec![(154, 84)],
        vec![(154, 237)],
    ]
}

#[test]
fn simulate_with_drawn_swaps_is_told_by_the_draws_and_the_answers() {
    let quartads = dashes();
    let asked: std::cell::RefCell<Vec<(i128, usize)>> = std::cell::RefCell::new(Vec::new());
    let six: Vec<Vec<(usize, usize)>> = proposals().into_iter().take(6).collect();
    let report =
        simulate_with(&quartads, &qwerty_layout(), &init(), true, 3, &six, 10, |delta, step| {
            asked.borrow_mut().push((delta, step));
            delta < 0 || step % 2 == 0
        })
        .unwrap();
    let expected: Vec<(i128, usize)> = (10..16).map(|step| (0, step)).collect();
    assert_eq!(*asked.borrow(), expected);
    assert_eq!(report.accepted, vec![(10, 564), (12, 564), (14, 564)]);
    let lowers: Vec<String> =
        report.best.iter().map(|entry| entry.layout.lower().to_string()).collect();
    let lower = |text: &str| Layout::from_layers(text, "").lower().to_string();
    assert_eq!(
        lowers,
        vec![
            lower("\0\0wertyu\0o\0-\0isdfghjkl;'\0zxcvbnm,./\0\0\0\0\0p\0 \0a\0q\0\0\0"),
            lower("\0qwertyu\0o\0-\0isdfghjkl;'\0zxcvbnm,./\0\0\0\0\0p\0 \0a\0\0\0\0\0"),
            lower("\0qwertyuio\0-\0\0sdfghjkl;'\0zxcvbnm,./\0\0\0\0\0p\0 \0a\0\0\0\0\0"),
        ]
    );
    for entry in report.best.iter() {
        assert_eq!(entry.penalty, 564);
        assert_eq!(entry.penalty, cost(&quartads, &entry.layout));
    }
}

#[test]
fn simulate_with_drawn_swaps_stops_at_a_layout_without_a_cost() {
    let quartads = the();
    let asked: std::cell::RefCell<Vec<(i128, usize)>> = std::cell::RefCell::new(Vec::new());
    let found =
        simulate_with(&quartads, &qwerty_layout(), &init(), true, 3, &proposals(), 0, |delta, step| {
            asked.borrow_mut().push((delta, step));
            true
        });
    // Fourteen steps have a cost; the swaps of the next put h and e on keys
    // of the left index finger that are no listed pair.
    let deltas: Vec<i128> = vec![0, 0, 0, 0, 0, -60, 0, 0, 0, 0, 0, 0, 0, 0];
    let expected: Vec<(i128, usize)> =
        deltas.iter().enumerate().map(|(step, delta)| (*delta, step)).collect();
    assert_eq!(*asked.borrow(), expected);
    let found = found.expect_err("the search went on");
    assert!(!is_covered(&quartads, &found.layout));
    assert_eq!(
        found.layout.lower().to_string(),
        Layout::from_layers(
            "\0pvsrytuk\0b-\0 en/ghj\0ld'\0wxc\0\0zq,.\0\0\0\0\0of\0\0\0a\0;mi\0",
            ""
        )
        .lower()
        .to_string()
    );
    // The steps accepted before are told, each with what the text costs
    // after it.
    let first = cost(&quartads, &qwerty_layout());
    let mut told: Vec<(usize, i128)> = Vec::new();
    let mut sum = first;
    for (step, delta) in deltas.iter().enumerate() {
        sum += delta;
        told.push((step, sum));
    }
    assert_eq!(found.accepted, told);
    // Without debug none is told.
    let found =
        simulate_with(&quartads, &qwerty_layout(), &init(), false, 3, &proposals(), 0, |_, _| true)
            .expect_err("the search went on");
    assert!(found.accepted.is_empty());
}

#[test]
fn simulate_with_no_swaps_keeps_the_first_layout() {
    let quartads = dashes();
    let report =
        simulate_with(&quartads, &qwerty_layout(), &init(), true, 3, &Vec::new(), 0, |_, _| true)
            .unwrap();
    assert_eq!(report.best.len(), 1);
    assert_eq!(report.best[0].layout, qwerty_layout());
    assert!(report.accepted.is_empty());
    let quartads = prepare_quartad_list("the fox", &qwerty_layout().get_position_map());
    let found =
        simulate_with(&quartads, &qwerty_layout(), &init(), true, 3, &proposals(), 0, |_, _| true)
            .expect_err("the first layout has no cost");
    assert_eq!(found.layout, qwerty_layout());
    assert!(found.accepted.is_empty());
}
