use keygen::layout::center_at;
use keygen::layout::finger_at;
use keygen::layout::hand_at;
use keygen::layout::outer_at;
use keygen::layout::row_at;
use keygen::layout::swappable_position;
use keygen::layout::Finger;
use keygen::layout::Hand;
use keygen::layout::KeyMap;
use keygen::layout::KeyPress;
use keygen::layout::Layer;
use keygen::layout::Layout;
use keygen::layout::LayoutPermutations;
use keygen::layout::LayoutShuffleMask;
use keygen::layout::Row;
use keygen::presets::capewell_layout;
use keygen::presets::init_layout;
use keygen::presets::qwerty_layout;

fn letters_layout() -> Layout {
    // Fifty different characters in each layer.
    let lower = "abcdefghijklmnopqrstuvwxyz0123456789!#$%&()*+,-./:";
    let upper = "ABCDEFGHIJKLMNOPQRSTUVWXYZ;<=>?@[]^_`{|}~\"' \\\u{1}\u{2}\u{3}\u{4}\u{5}\u{6}";
    Layout::from_layers(lower, upper)
}

#[test]
fn short_text_leaves_the_other_keys_empty() {
    let layout = Layout::from_string("abc");
    assert_eq!(layout.lower().get(0), 'a');
    assert_eq!(layout.lower().get(1), 'b');
    assert_eq!(layout.lower().get(2), 'c');
    for pos in 3..50 {
        assert_eq!(layout.lower().get(pos), '\0');
    }
    for pos in 0..50 {
        assert_eq!(layout.upper().get(pos), '\0');
    }
}

#[test]
fn empty_text_gives_the_empty_layout() {
    let layout = Layout::from_string("");
    for pos in 0..50 {
        assert_eq!(layout.lower().get(pos), '\0');
        assert_eq!(layout.upper().get(pos), '\0');
    }
}

#[test]
fn text_places_skip_after_eighteen_and_thirty_keys() {
    // Eighty different characters: place i holds the character of code 48 + i.
    let text: String = (0..80u8).map(|i| (48 + i) as char).collect();
    let layout = Layout::from_string(&text);
    for pos in 0..18usize {
        assert_eq!(layout.lower().get(pos), (48 + pos as u8) as char);
    }
    for pos in 18..30usize {
        assert_eq!(layout.lower().get(pos), (48 + pos as u8 + 1) as char);
    }
    for pos in 30..34usize {
        assert_eq!(layout.lower().get(pos), (48 + pos as u8 + 2) as char);
    }
    for pos in 34..50usize {
        assert_eq!(layout.lower().get(pos), '\0');
        assert_eq!(layout.upper().get(pos), '\0');
    }
    // The shifted character stands forty places behind the unshifted one.
    assert_eq!(layout.upper().get(0), (48 + 40u8) as char);
    assert_eq!(layout.upper().get(17), (48 + 57u8) as char);
    assert_eq!(layout.upper().get(18), (48 + 59u8) as char);
    assert_eq!(layout.upper().get(29), (48 + 70u8) as char);
    assert_eq!(layout.upper().get(30), (48 + 72u8) as char);
    assert_eq!(layout.upper().get(33), (48 + 75u8) as char);
}

#[test]
fn text_that_ends_early_leaves_shifted_keys_empty() {
    let text: String = (0..45u8).map(|i| (48 + i) as char).collect();
    let layout = Layout::from_string(&text);
    assert_eq!(layout.lower().get(33), (48 + 35u8) as char);
    assert_eq!(layout.upper().get(0), (48 + 40u8) as char);
    assert_eq!(layout.upper().get(4), (48 + 44u8) as char);
    for pos in 5..50 {
        assert_eq!(layout.upper().get(pos), '\0');
    }
}

#[test]
fn from_layers_fills_the_keys_in_order() {
    let layout = Layout::from_layers("xyz", "XY");
    assert_eq!(layout.lower().get(0), 'x');
    assert_eq!(layout.lower().get(2), 'z');
    assert_eq!(layout.lower().get(3), '\0');
    assert_eq!(layout.upper().get(1), 'Y');
    assert_eq!(layout.upper().get(2), '\0');
    let layer = Layer::from_text("0123456789012345678901234567890123456789012345678901234");
    assert_eq!(layer.get(49), '9');
}

#[test]
fn topology_of_the_board() {
    let fingers = [
        Finger::Pinky,
        Finger::Pinky,
        Finger::Ring,
        Finger::Middle,
        Finger::Index,
        Finger::Index,
        Finger::Index,
        Finger::Index,
        Finger::Middle,
        Finger::Ring,
        Finger::Pinky,
        Finger::Pinky,
    ];
    for pos in 0..36 {
        assert_eq!(finger_at(pos), fingers[pos % 12]);
        assert_eq!(hand_at(pos), if pos % 12 < 6 { Hand::Left } else { Hand::Right });
        assert_eq!(center_at(pos), pos % 12 == 5 || pos % 12 == 6);
        assert_eq!(outer_at(pos), pos % 12 == 0 || pos % 12 == 11);
    }
    for pos in 0..12 {
        assert_eq!(row_at(pos), Row::Top);
        assert_eq!(row_at(pos + 12), Row::Home);
        assert_eq!(row_at(pos + 24), Row::Bottom);
    }
    for pos in 36..50 {
        assert_eq!(finger_at(pos), Finger::Thumb);
        assert!(!center_at(pos));
        assert!(!outer_at(pos));
    }
    for pos in 36..46 {
        assert_eq!(row_at(pos), Row::ThumbHome);
        assert_eq!(hand_at(pos), if pos < 41 { Hand::Left } else { Hand::Right });
    }
    for pos in 46..50 {
        assert_eq!(row_at(pos), Row::ThumbTop);
        assert_eq!(hand_at(pos), if pos < 48 { Hand::Left } else { Hand::Right });
    }
}

#[test]
fn key_press_takes_its_properties_from_its_position() {
    let press = KeyPress::new('x', 23);
    assert_eq!(
        press,
        KeyPress {
            kc: 'x',
            pos: 23,
            finger: Finger::Pinky,
            hand: Hand::Right,
            row: Row::Home,
            center: false,
            outer: true,
        }
    );
}

#[test]
fn position_map_knows_the_keys_of_qwerty() {
    let map = qwerty_layout().get_position_map();
    let e = map.get_key_position('e').unwrap();
    assert_eq!(e, KeyPress::new('e', 3));
    assert_eq!(e.finger, Finger::Middle);
    assert_eq!(e.hand, Hand::Left);
    assert_eq!(e.row, Row::Top);
    let colon = map.get_key_position(':').unwrap();
    assert_eq!(colon, KeyPress::new(':', 22));
    let space = map.get_key_position(' ').unwrap();
    assert_eq!(space, KeyPress::new(' ', 42));
    assert_eq!(space.finger, Finger::Thumb);
    assert_eq!(space.row, Row::ThumbHome);
}

#[test]
fn position_map_has_every_character_of_both_layers_but_null() {
    let layout = init_layout();
    let map = layout.get_position_map();
    for pos in 0..50 {
        for c in [layout.lower().get(pos), layout.upper().get(pos)] {
            if c == '\0' {
                continue;
            }
            let press = map.get_key_position(c).unwrap();
            assert_eq!(press.kc, c);
            assert!(layout.lower().get(press.pos) == c || layout.upper().get(press.pos) == c);
        }
    }
    assert!(map.get_key_position('\0').is_none());
    assert!(map.get_key_position('1').is_none());
    assert!(map.get_key_position('\u{e9}').is_none());
    assert!(map.get_key_position('\u{80}').is_none());
}

#[test]
fn position_map_leaves_out_characters_beyond_code_127() {
    let layout = Layout::from_layers("a\u{e9}b\u{7f}", "");
    let map = layout.get_position_map();
    assert_eq!(map.get_key_position('a').unwrap().pos, 0);
    assert_eq!(map.get_key_position('b').unwrap().pos, 2);
    assert_eq!(map.get_key_position('\u{7f}').unwrap().pos, 3);
    assert!(map.get_key_position('\u{e9}').is_none());
}

#[test]
fn position_map_takes_the_last_key_of_a_character_and_the_shifted_layer_first() {
    // The Capewell layout holds `w` on two keys of its unshifted layer.
    let map = capewell_layout().get_position_map();
    assert_eq!(map.get_key_position('w').unwrap().pos, 31);
    // A blank is on the same key in both layers.
    assert_eq!(map.get_key_position(' ').unwrap().pos, 42);
    let layout = Layout::from_layers("ab", "ba");
    let map = layout.get_position_map();
    assert_eq!(map.get_key_position('a').unwrap().pos, 1);
    assert_eq!(map.get_key_position('b').unwrap().pos, 0);
}

#[test]
fn swapping_twice_restores_the_layout() {
    let original = qwerty_layout();
    for (i, j) in [(1, 2), (1, 49), (13, 42), (7, 7)] {
        let mut layout = original.clone();
        layout.swap(i, j);
        if i != j {
            assert!(!layout.same(&original));
        }
        assert_eq!(layout.lower().get(i), original.lower().get(j));
        assert_eq!(layout.upper().get(i), original.upper().get(j));
        assert_eq!(layout.lower().get(j), original.lower().get(i));
        assert_eq!(layout.upper().get(j), original.upper().get(i));
        layout.swap(i, j);
        assert!(layout.same(&original));
        assert_eq!(layout, original);
    }
}

#[test]
fn layer_swap_exchanges_two_keys() {
    let mut layer = Layer::from_text("abcdef");
    layer.swap(1, 4);
    assert_eq!(layer.get(1), 'e');
    assert_eq!(layer.get(4), 'b');
    assert_eq!(layer.get(0), 'a');
    assert!(!layer.same(&Layer::from_text("abcdef")));
    assert!(layer.same(&Layer::from_text("aecdbf")));
}

#[test]
fn the_keys_that_may_move_are_all_but_one() {
    let mask = LayoutShuffleMask::new();
    let mut movable = Vec::new();
    for pos in 0..50 {
        if mask.allows(pos) {
            movable.push(pos);
        }
    }
    assert_eq!(movable.len(), 49);
    assert!(!mask.allows(11));
    for index in 0..49 {
        assert_eq!(swappable_position(index), movable[index]);
    }
}

#[test]
fn drawn_numbers_pick_two_different_keys() {
    assert_eq!(Layout::swap_pair_from(0, 0), (0, 1));
    assert_eq!(Layout::swap_pair_from(10, 9), (10, 9));
    assert_eq!(Layout::swap_pair_from(10, 10), (10, 12));
    assert_eq!(Layout::swap_pair_from(11, 10), (12, 10));
    assert_eq!(Layout::swap_pair_from(11, 11), (12, 13));
    assert_eq!(Layout::swap_pair_from(48, 47), (49, 48));
    assert_eq!(Layout::swap_pair_from(49, 48), (0, 1));
    assert_eq!(Layout::swap_pair_from(49 * 3 + 5, 48 * 7 + 5), (5, 6));
    assert_eq!(Layout::swap_pair_from(usize::MAX, usize::MAX), {
        let i = usize::MAX % 49;
        let rest = usize::MAX % 48;
        let j = if rest >= i { rest + 1 } else { rest };
        (if i < 11 { i } else { i + 1 }, if j < 11 { j } else { j + 1 })
    });
    for first in 0..200 {
        for second in 0..200 {
            let (i, j) = Layout::swap_pair_from(first, second);
            assert!(i != j && i != 11 && j != 11 && i < 50 && j < 50);
        }
    }
}

#[test]
fn random_pairs_are_two_different_keys_that_may_move() {
    for _ in 0..1000 {
        let (i, j) = Layout::shuffle_position();
        assert!(i != j && i != 11 && j != 11 && i < 50 && j < 50);
    }
}

#[test]
fn shuffle_with_makes_the_swaps_in_order() {
    let mut layout = qwerty_layout();
    layout.shuffle_with(&vec![(1, 1), (2, 0)]);
    // The first draw swaps the keys 1 and 2, the second the keys 2 and 0.
    let mut expected = qwerty_layout();
    expected.swap(1, 2);
    expected.swap(2, 0);
    assert_eq!(layout, expected);
    assert_eq!(layout.lower().get(0), 'q');
    assert_eq!(layout.lower().get(1), 'w');
    assert_eq!(layout.lower().get(2), '\0');
    let mut unchanged = qwerty_layout();
    unchanged.shuffle_with(&Vec::new());
    assert_eq!(unchanged, qwerty_layout());
}

#[test]
fn shuffle_moves_characters_around_and_keeps_both_layers_together() {
    let original = letters_layout();
    let mut layout = original.clone();
    layout.shuffle(25);
    let mut lower: Vec<char> = (0..50).map(|pos| layout.lower().get(pos)).collect();
    let mut expected: Vec<char> = (0..50).map(|pos| original.lower().get(pos)).collect();
    // The key that may not move holds what it held.
    assert_eq!(layout.lower().get(11), original.lower().get(11));
    assert_eq!(layout.upper().get(11), original.upper().get(11));
    // Each key holds the two characters of one key of the original.
    for pos in 0..50 {
        let from = expected.iter().position(|&c| c == layout.lower().get(pos)).unwrap();
        assert_eq!(layout.upper().get(pos), original.upper().get(from));
    }
    lower.sort();
    expected.sort();
    assert_eq!(lower, expected);
    let mut same = original.clone();
    same.shuffle(0);
    assert_eq!(same, original);
    let mut once = original.clone();
    once.shuffle(1);
    let moved = (0..50).filter(|&pos| once.lower().get(pos) != original.lower().get(pos)).count();
    assert_eq!(moved, 2);
}

#[test]
fn layout_text_has_the_shape_of_the_board() {
    let text = qwerty_layout().to_string();
    let expected = "\0 q w e r t | y u i o p -\n\
                    \0 a s d f g | h j k l ; '\n\
                    \0 z x c v b | n m , . / \0\n\
                    \n        \0 \0 | \0 \0\n  \0 \0 \0 \0 \0 | \0   \0 \0 \0";
    assert_eq!(text, expected);
    assert_eq!(qwerty_layout().lower().to_string(), expected);
    let upper = qwerty_layout().upper().to_string();
    assert!(upper.starts_with("\0 Q W E R T | Y U I O P _\n"));
    let init = init_layout().to_string();
    assert!(init.ends_with("\n  \0 \0 \0 e \0 | \0   \0 \0 \0"));
}

#[test]
fn one_swap_away_there_are_as_many_layouts_as_pairs_of_keys() {
    let base = letters_layout();
    let mut permutations = LayoutPermutations::new(&base, 1);
    let mut seen: Vec<Layout> = Vec::new();
    while let Some(layout) = permutations.next() {
        // One swap of two keys that may move, in both layers alike.
        let changed: Vec<usize> =
            (0..50).filter(|&pos| layout.lower().get(pos) != base.lower().get(pos)).collect();
        assert_eq!(changed.len(), 2);
        let (p, q) = (changed[0], changed[1]);
        assert!(p != 11 && q != 11);
        let mut expected = base.clone();
        expected.swap(p, q);
        assert_eq!(layout, expected);
        assert_ne!(layout, base);
        seen.push(layout);
    }
    assert_eq!(seen.len(), 49 * 48 / 2);
    for i in 0..seen.len() {
        for j in 0..i {
            assert_ne!(seen[i], seen[j]);
        }
    }
    // The walk is over for good.
    assert!(permutations.next().is_none());
    assert!(permutations.next().is_none());
}

#[test]
fn one_swap_away_the_layouts_come_in_a_fixed_order() {
    let base = letters_layout();
    let mut permutations = LayoutPermutations::new(&base, 1);
    let mut pairs = Vec::new();
    for _ in 0..50 {
        let layout = permutations.next().unwrap();
        let changed: Vec<usize> =
            (0..50).filter(|&pos| layout.lower().get(pos) != base.lower().get(pos)).collect();
        pairs.push((changed[0], changed[1]));
    }
    // The key 0 with every other key that may move, then the key 1.
    assert_eq!(pairs[0], (0, 1));
    assert_eq!(pairs[1], (0, 2));
    assert_eq!(pairs[9], (0, 10));
    assert_eq!(pairs[10], (0, 12));
    assert_eq!(pairs[47], (0, 49));
    assert_eq!(pairs[48], (1, 2));
    assert_eq!(pairs[49], (1, 3));
}

#[test]
fn no_swap_away_there_is_the_layout_itself() {
    let base = qwerty_layout();
    let mut permutations = LayoutPermutations::new(&base, 0);
    assert_eq!(permutations.next(), Some(qwerty_layout()));
    assert!(permutations.next().is_none());
    assert!(permutations.next().is_none());
}

#[test]
fn more_swaps_than_pairs_of_keys_give_no_layout() {
    let base = qwerty_layout();
    let mut permutations = LayoutPermutations::new(&base, 25);
    assert!(permutations.next().is_none());
    let mut permutations = LayoutPermutations::new(&base, usize::MAX);
    assert!(permutations.next().is_none());
}

#[test]
fn two_swaps_away_the_layouts_swap_two_pairs_of_keys() {
    let base = letters_layout();
    let mut permutations = LayoutPermutations::new(&base, 2);
    let mut count = 0;
    let mut first_pairs = Vec::new();
    while let Some(layout) = permutations.next() {
        let changed: Vec<usize> =
            (0..50).filter(|&pos| layout.lower().get(pos) != base.lower().get(pos)).collect();
        assert_eq!(changed.len(), 4);
        if count < 3 {
            first_pairs.push(changed);
        }
        count += 1;
        if count == 5000 {
            break;
        }
    }
    assert_eq!(count, 5000);
    // The keys 0 to 3 first, then the fourth key moves on.
    assert_eq!(first_pairs[0], vec![0, 1, 2, 3]);
    assert_eq!(first_pairs[1], vec![0, 1, 2, 4]);
    assert_eq!(first_pairs[2], vec![0, 1, 2, 5]);
    let mut permutations = LayoutPermutations::new(&base, 2);
    let first = permutations.next().unwrap();
    let mut expected = base.clone();
    expected.swap(3, 2);
    expected.swap(1, 0);
    assert_eq!(first, expected);
}

#[test]
fn twenty_four_swaps_use_all_keys_but_one() {
    let base = letters_layout();
    let mut permutations = LayoutPermutations::new(&base, 24);
    let first = permutations.next().unwrap();
    let changed = (0..50).filter(|&pos| first.lower().get(pos) != base.lower().get(pos)).count();
    assert_eq!(changed, 48);
    // Keys 11 and 49 stay: the first way to pick leaves out the last key.
    assert_eq!(first.lower().get(11), base.lower().get(11));
    assert_eq!(first.lower().get(49), base.lower().get(49));
    let second = permutations.next().unwrap();
    assert_ne!(second, first);
}

#[test]
fn a_key_map_is_copied_key_by_key() {
    let mut values = [0u8; 50];
    for (pos, value) in values.iter_mut().enumerate() {
        *value = pos as u8;
    }
    let map = KeyMap(values);
    let copy = map.clone();
    assert_eq!(copy, map);
    assert_eq!(copy.0[17], 17);
}

#[test]
fn layouts_that_hold_the_same_have_the_same_digest() {
    let layout = qwerty_layout();
    assert_eq!(layout.digest(), qwerty_layout().digest());
    assert_eq!(layout.digest(), layout.clone().digest());
    let mut other = qwerty_layout();
    other.swap(0, 12);
    assert_eq!(other.digest(), layout.digest());
    other.swap(1, 2);
    assert_ne!(other.digest(), layout.digest());
    assert!(layout.digest() < 4294967291);
    // The digest of the empty layout: a hundred nulls.
    assert_eq!(Layout::from_layers("", "").digest(), 0);
    // One character on the first key of the unshifted layer.
    let mut expected: u64 = 97;
    for _ in 0..99 {
        expected = expected * 131 % 4294967291;
    }
    assert_eq!(Layout::from_layers("a", "").digest(), expected);
}
