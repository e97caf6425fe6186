use keygen::corpus::prepare_quartad_list;
use keygen::corpus::QuartadList;
use keygen::layout::Layout;
use keygen::presets::qwerty_layout;
use keygen::quartad::Quartad;
use keygen::tally::Tally;

fn window(text: &str) -> Quartad {
    Quartad::from_chars(&text.chars().collect()).unwrap()
}

fn entries(quartads: &QuartadList) -> Vec<(String, usize)> {
    (0..quartads.len()).map(|i| (quartads.window(i).to_string(), quartads.count(i))).collect()
}

fn named(pairs: &[(&str, usize)]) -> Vec<(String, usize)> {
    pairs.iter().map(|(key, count)| (key.to_string(), *count)).collect()
}

#[test]
fn windows_of_the_quick_brown_fox() {
    let quartads = prepare_quartad_list("the quick brown fox", &qwerty_layout().get_position_map());
    assert_eq!(
        entries(&quartads),
        named(&[
            ("t", 1),
            ("th", 1),
            ("the", 1),
            ("the ", 1),
            ("he q", 1),
            ("e qu", 1),
            (" qui", 1),
            ("quic", 1),
            ("uick", 1),
            ("ick ", 1),
            ("ck b", 1),
            ("k br", 1),
            (" bro", 1),
            ("brow", 1),
            ("rown", 1),
            ("own ", 1),
            ("wn f", 1),
            ("n fo", 1),
            (" fox", 1),
        ])
    );
    assert_eq!(quartads.total(), 19);
}

#[test]
fn a_character_without_a_key_closes_the_window() {
    let map = qwerty_layout().get_position_map();
    let quartads = prepare_quartad_list("ab\u{e9}cd ab", &map);
    assert_eq!(
        entries(&quartads),
        named(&[("a", 1), ("ab", 1), ("c", 1), ("cd", 1), ("cd ", 1), ("cd a", 1), ("d ab", 1)])
    );
    assert_eq!(quartads.total(), 7);
    // No window holds the character without a key, nor reaches across it.
    assert_eq!(quartads.count_of(&window("abc")), 0);
    assert_eq!(quartads.count_of(&window("bc")), 0);
    let quartads = prepare_quartad_list("1a2b3", &map);
    assert_eq!(entries(&quartads), named(&[("a", 1), ("b", 1)]));
    let quartads = prepare_quartad_list("123\n\t", &map);
    assert_eq!(quartads.len(), 0);
    assert_eq!(quartads.total(), 0);
}

#[test]
fn windows_that_come_again_are_counted() {
    let map = qwerty_layout().get_position_map();
    let quartads = prepare_quartad_list("abab abab", &map);
    assert_eq!(
        entries(&quartads),
        named(&[
            ("a", 1),
            ("ab", 1),
            ("aba", 1),
            ("abab", 2),
            ("bab ", 1),
            ("ab a", 1),
            ("b ab", 1),
            (" aba", 1),
        ])
    );
    assert_eq!(quartads.count_of(&window("abab")), 2);
    assert_eq!(quartads.count_of(&window("a")), 1);
    assert_eq!(quartads.count_of(&window("b")), 0);
    assert_eq!(quartads.total(), 9);
    let quartads = prepare_quartad_list("aaaaaaaaaa", &map);
    assert_eq!(entries(&quartads), named(&[("a", 1), ("aa", 1), ("aaa", 1), ("aaaa", 7)]));
    let quartads = prepare_quartad_list("a1a1a1a", &map);
    assert_eq!(entries(&quartads), named(&[("a", 4)]));
}

#[test]
fn the_counts_add_up_to_the_characters_with_a_key() {
    let map = qwerty_layout().get_position_map();
    for text in ["", "a", "the quick brown fox", "ab\u{e9}cd ab", "Hello, World! 123", "a1a1a1a"] {
        let quartads = prepare_quartad_list(text, &map);
        let valid = text.chars().filter(|&c| map.get_key_position(c).is_some()).count();
        let sum: usize = (0..quartads.len()).map(|i| quartads.count(i)).sum();
        assert_eq!(sum, valid);
        assert_eq!(quartads.total(), valid);
        for i in 0..quartads.len() {
            let window = quartads.window(i);
            assert!(1 <= window.len() && window.len() <= 4);
            assert!(quartads.count(i) >= 1);
            assert!(window.chars().iter().all(|&c| map.get_key_position(c).is_some()));
            assert!(text.contains(&window.to_string()));
            assert_eq!(quartads.count_of(&window), quartads.count(i));
        }
    }
}

#[test]
fn windows_of_one_character_in_a_text_of_one_character() {
    let map = qwerty_layout().get_position_map();
    for text in ["", "a", "z"] {
        let quartads = prepare_quartad_list(text, &map);
        let singles: usize = (0..quartads.len())
            .filter(|&i| quartads.window(i).len() == 1)
            .map(|i| quartads.count(i))
            .sum();
        assert_eq!(singles, text.chars().count());
    }
}

#[test]
fn the_keys_are_those_of_the_layout_that_is_asked() {
    let layout = Layout::from_layers("xy", "");
    let quartads = prepare_quartad_list("xyz xy", &layout.get_position_map());
    assert_eq!(entries(&quartads), named(&[("x", 2), ("xy", 2)]));
}

#[test]
fn windows_slide_and_cut() {
    let empty = Quartad::empty();
    assert_eq!(empty.len(), 0);
    assert_eq!(empty.to_string(), "");
    let mut window = empty;
    for (c, expected) in [('a', "a"), ('b', "ab"), ('c', "abc"), ('d', "abcd"), ('e', "bcde")] {
        window = window.push(c);
        assert_eq!(window.to_string(), expected);
        assert_eq!(window.len(), expected.len());
    }
    assert_eq!(window.last(0), 'e');
    assert_eq!(window.last(1), 'd');
    assert_eq!(window.last(3), 'b');
    assert_eq!(window.suffix(0), Quartad::empty());
    assert_eq!(window.suffix(1).to_string(), "e");
    assert_eq!(window.suffix(3).to_string(), "cde");
    assert_eq!(window.suffix(4), window);
    assert_eq!(window.chars(), vec!['b', 'c', 'd', 'e']);
    assert_eq!(Quartad::empty().push('x').suffix(1), Quartad::empty().push('x'));
}

#[test]
fn windows_are_made_of_up_to_four_key_characters() {
    let of = |text: &str| Quartad::from_chars(&text.chars().collect());
    assert!(of("").is_some());
    assert!(of("abcd").is_some());
    assert!(of("abcde").is_none());
    assert!(of("a\0").is_none());
    assert!(of("\u{e9}").is_none());
    assert!(of("\u{80}").is_none());
    assert_eq!(of("\u{7f}\u{1}").unwrap().to_string(), "\u{7f}\u{1}");
    assert_eq!(of("ab").unwrap(), Quartad::empty().push('a').push('b'));
    assert_ne!(of("ab").unwrap(), of("ba").unwrap());
    assert_ne!(of("a").unwrap().code(), of("aa").unwrap().code());
    assert_ne!(of("ab").unwrap().code(), of("ba").unwrap().code());
    assert_eq!(of("abcd").unwrap().code(), ((97 * 128 + 98) * 128 + 99) * 128 + 100);
}

#[test]
fn a_tally_sums_up_by_window_in_the_order_of_first_use() {
    let mut tally = Tally::new();
    assert_eq!(tally.len(), 0);
    assert_eq!(tally.get(&window("a")), 0);
    tally.add(window("b"), 5);
    tally.add(window("a"), 7);
    tally.add(window("b"), -2);
    tally.add(window("ab"), 0);
    assert_eq!(tally.len(), 3);
    assert_eq!(tally.key(0), window("b"));
    assert_eq!(tally.sum(0), 3);
    assert_eq!(tally.key(1), window("a"));
    assert_eq!(tally.sum(1), 7);
    assert_eq!(tally.key(2), window("ab"));
    assert_eq!(tally.sum(2), 0);
    assert_eq!(tally.get(&window("b")), 3);
    assert_eq!(tally.get(&window("ab")), 0);
    assert_eq!(tally.get(&window("ba")), 0);
}
