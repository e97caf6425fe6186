//! The board of fifty keys, its fingers and rows, and layouts over it.
//!
//! Positions count the keys row by row:
//!
//! ```text
//!       left hand      |     right hand
//!  0  1  2  3  4  5    |  6  7  8  9 10 11
//! 12 13 14 15 16 17    | 18 19 20 21 22 23
//! 24 25 26 27 28 29    | 30 31 32 33 34 35
//!    36 37 38 39 40    | 41 42 43 44 45
//!             46 47    | 48 49
//! ```
//!
//! The two rows at the bottom are thumb keys.

use vstd::prelude::*;
use crate::text::chars_of;
use crate::text::string_of;
use crate::combos::advanced;
use crate::combos::combination_pairs;
use crate::combos::combinations_from;
use crate::combos::first_combination;
use crate::combos::first_movable;
use crate::combos::is_combination;
use crate::combos::layouts_of;
use crate::combos::lemma_combinations_from;
use crate::combos::lemma_first_combination;
use crate::combos::lemma_first_movable;
use crate::combos::lemma_next_combination;
use crate::combos::movable;
use crate::combos::neighbors;
use crate::combos::next_combination;

verus! {

/// Number of physical keys.
pub const NUM_KEYS: usize = 50;

/// The finger that presses a key.
#[derive(Clone, Copy, PartialEq, Eq, Structural, Debug)]
pub enum Finger {
    Thumb,
    Index,
    Middle,
    Ring,
    Pinky,
}

/// The hand a key belongs to.
#[derive(Clone, Copy, PartialEq, Eq, Structural, Debug)]
pub enum Hand {
    Left,
    Right,
}

/// The row a key lies in.
#[derive(Clone, Copy, PartialEq, Eq, Structural, Debug)]
pub enum Row {
    Top,
    Home,
    Bottom,
    ThumbTop,
    ThumbHome,
}

/// Finger of the key at `pos`: the three letter rows have twelve columns
/// each, pinky to index on the left hand and back on the right; every key
/// below them is a thumb key.
#[verifier::opaque]
pub open spec fn key_finger(pos: int) -> Finger {
    if pos >= 36 {
        Finger::Thumb
    } else {
        let col = pos % 12;
        if col <= 1 || col >= 10 {
            Finger::Pinky
        } else if col == 2 || col == 9 {
            Finger::Ring
        } else if col == 3 || col == 8 {
            Finger::Middle
        } else {
            Finger::Index
        }
    }
}

/// The finger that presses the key at `pos`.
pub fn finger_at(pos: usize) -> (f: Finger)
    requires
        pos < NUM_KEYS,
    ensures
        f == key_finger(pos as int),
{
    reveal(key_finger);
    let fingers: [Finger; 50] = [
        Finger::Pinky, Finger::Pinky, Finger::Ring, Finger::Middle, Finger::Index, Finger::Index,
        Finger::Index, Finger::Index, Finger::Middle, Finger::Ring, Finger::Pinky, Finger::Pinky,
        Finger::Pinky, Finger::Pinky, Finger::Ring, Finger::Middle, Finger::Index, Finger::Index,
        Finger::Index, Finger::Index, Finger::Middle, Finger::Ring, Finger::Pinky, Finger::Pinky,
        Finger::Pinky, Finger::Pinky, Finger::Ring, Finger::Middle, Finger::Index, Finger::Index,
        Finger::Index, Finger::Index, Finger::Middle, Finger::Ring, Finger::Pinky, Finger::Pinky,
        Finger::Thumb, Finger::Thumb, Finger::Thumb, Finger::Thumb, Finger::Thumb,
        Finger::Thumb, Finger::Thumb, Finger::Thumb, Finger::Thumb, Finger::Thumb,
        Finger::Thumb, Finger::Thumb, Finger::Thumb, Finger::Thumb,
    ];
    fingers[pos]
}

/// Hand of the key at `pos`: the left half of each letter row and of each
/// thumb row is the left hand's.
#[verifier::opaque]
pub open spec fn key_hand(pos: int) -> Hand {
    if pos < 36 {
        if pos % 12 < 6 {
            Hand::Left
        } else {
            Hand::Right
        }
    } else if pos < 46 {
        if pos < 41 {
            Hand::Left
        } else {
            Hand::Right
        }
    } else if pos < 48 {
        Hand::Left
    } else {
        Hand::Right
    }
}

/// Row of the key at `pos`.
#[verifier::opaque]
pub open spec fn key_row(pos: int) -> Row {
    if pos < 12 {
        Row::Top
    } else if pos < 24 {
        Row::Home
    } else if pos < 36 {
        Row::Bottom
    } else if pos < 46 {
        Row::ThumbHome
    } else {
        Row::ThumbTop
    }
}

/// Whether the key at `pos` lies in one of the two columns between the hands.
#[verifier::opaque]
pub open spec fn key_center(pos: int) -> bool {
    pos < 36 && (pos % 12 == 5 || pos % 12 == 6)
}

/// Whether the key at `pos` lies in the outermost pinky column of its hand.
#[verifier::opaque]
pub open spec fn key_outer(pos: int) -> bool {
    pos < 36 && (pos % 12 == 0 || pos % 12 == 11)
}

/// The hand of the key at `pos`.
pub fn hand_at(pos: usize) -> (h: Hand)
    requires
        pos < NUM_KEYS,
    ensures
        h == key_hand(pos as int),
{
    reveal(key_hand);
    let hands: [Hand; 50] = [
        Hand::Left, Hand::Left, Hand::Left, Hand::Left, Hand::Left, Hand::Left,
        Hand::Right, Hand::Right, Hand::Right, Hand::Right, Hand::Right, Hand::Right,
        Hand::Left, Hand::Left, Hand::Left, Hand::Left, Hand::Left, Hand::Left,
        Hand::Right, Hand::Right, Hand::Right, Hand::Right, Hand::Right, Hand::Right,
        Hand::Left, Hand::Left, Hand::Left, Hand::Left, Hand::Left, Hand::Left,
        Hand::Right, Hand::Right, Hand::Right, Hand::Right, Hand::Right, Hand::Right,
        Hand::Left, Hand::Left, Hand::Left, Hand::Left, Hand::Left,
        Hand::Right, Hand::Right, Hand::Right, Hand::Right, Hand::Right,
        Hand::Left, Hand::Left, Hand::Right, Hand::Right,
    ];
    hands[pos]
}

/// The row of the key at `pos`.
pub fn row_at(pos: usize) -> (r: Row)
    requires
        pos < NUM_KEYS,
    ensures
        r == key_row(pos as int),
{
    reveal(key_row);
    let rows: [Row; 50] = [
        Row::Top, Row::Top, Row::Top, Row::Top, Row::Top, Row::Top,
        Row::Top, Row::Top, Row::Top, Row::Top, Row::Top, Row::Top,
        Row::Home, Row::Home, Row::Home, Row::Home, Row::Home, Row::Home,
        Row::Home, Row::Home, Row::Home, Row::Home, Row::Home, Row::Home,
        Row::Bottom, Row::Bottom, Row::Bottom, Row::Bottom, Row::Bottom, Row::Bottom,
        Row::Bottom, Row::Bottom, Row::Bottom, Row::Bottom, Row::Bottom, Row::Bottom,
        Row::ThumbHome, Row::ThumbHome, Row::ThumbHome, Row::ThumbHome, Row::ThumbHome,
        Row::ThumbHome, Row::ThumbHome, Row::ThumbHome, Row::ThumbHome, Row::ThumbHome,
        Row::ThumbTop, Row::ThumbTop, Row::ThumbTop, Row::ThumbTop,
    ];
    rows[pos]
}

/// Whether the key at `pos` lies in one of the two columns between the hands.
pub fn center_at(pos: usize) -> (c: bool)
    requires
        pos < NUM_KEYS,
    ensures
        c == key_center(pos as int),
{
    reveal(key_center);
    let centers: [bool; 50] = [
        false, false, false, false, false, true, true, false, false, false, false, false,
        false, false, false, false, false, true, true, false, false, false, false, false,
        false, false, false, false, false, true, true, false, false, false, false, false,
        false, false, false, false, false, false, false, false, false, false,
        false, false, false, false,
    ];
    centers[pos]
}

/// Whether the key at `pos` lies in the outermost pinky column of its hand.
pub fn outer_at(pos: usize) -> (o: bool)
    requires
        pos < NUM_KEYS,
    ensures
        o == key_outer(pos as int),
{
    reveal(key_outer);
    let outers: [bool; 50] = [
        true, false, false, false, false, false, false, false, false, false, false, true,
        true, false, false, false, false, false, false, false, false, false, false, true,
        true, false, false, false, false, false, false, false, false, false, false, true,
        false, false, false, false, false, false, false, false, false, false,
        false, false, false, false,
    ];
    outers[pos]
}

/// A character together with the key that types it.
#[derive(Clone, Copy, PartialEq, Eq, Structural, Debug)]
pub struct KeyPress {
    pub kc: char,
    pub pos: usize,
    pub finger: Finger,
    pub hand: Hand,
    pub row: Row,
    pub center: bool,
    pub outer: bool,
}

/// The key press of character `kc` on the key at `pos`.
pub open spec fn key_press(kc: char, pos: int) -> KeyPress {
    KeyPress {
        kc,
        pos: pos as usize,
        finger: key_finger(pos),
        hand: key_hand(pos),
        row: key_row(pos),
        center: key_center(pos),
        outer: key_outer(pos),
    }
}

impl KeyPress {
    /// The key is on the board and its properties are those of its position.
    pub open spec fn wf(&self) -> bool {
        &&& self.pos < NUM_KEYS
        &&& *self == key_press(self.kc, self.pos as int)
    }

    /// The press of `kc` on the key at `pos`.
    pub fn new(kc: char, pos: usize) -> (kp: KeyPress)
        requires
            pos < NUM_KEYS,
        ensures
            kp == key_press(kc, pos as int),
            kp.wf(),
    {
        KeyPress {
            kc,
            pos,
            finger: finger_at(pos),
            hand: hand_at(pos),
            row: row_at(pos),
            center: center_at(pos),
            outer: outer_at(pos),
        }
    }
}

/// One value for each key of the board.
#[derive(Debug, PartialEq, Eq, Hash)]
pub struct KeyMap<T>(pub [T; 50]);

impl<T: Copy> Clone for KeyMap<T> {
    fn clone(&self) -> (copy: KeyMap<T>)
        ensures
            copy.0@ == self.0@,
    {
        KeyMap(self.0)
    }
}

/// The characters that the keys type in one shift state, by position.
/// A key without a character holds the null character.
#[derive(Debug, PartialEq, Eq, Hash)]
pub struct Layer(KeyMap<char>);

/// The characters of both shift states: what the keys type by themselves,
/// and what they type with shift held.
#[derive(Debug, PartialEq, Eq, Hash)]
pub struct Layout(Layer, Layer);

/// The characters of a layout as two sequences of fifty.
pub struct Keys {
    pub lower: Seq<char>,
    pub upper: Seq<char>,
}

/// `keys` with the characters at `i` and `j` exchanged.
pub open spec fn swapped(keys: Seq<char>, i: int, j: int) -> Seq<char> {
    keys.update(i, keys[j]).update(j, keys[i])
}

impl Keys {
    /// Both layers hold one character for each key.
    pub open spec fn wf(self) -> bool {
        self.lower.len() == NUM_KEYS && self.upper.len() == NUM_KEYS
    }

    /// The keys at `i` and `j` exchanged, in both layers alike.
    pub open spec fn swap(self, i: int, j: int) -> Keys {
        Keys { lower: swapped(self.lower, i, j), upper: swapped(self.upper, i, j) }
    }

    /// The swaps of `pairs` made one after the other.
    pub open spec fn swap_all(self, pairs: Seq<(int, int)>) -> Keys
        decreases pairs.len(),
    {
        if pairs.len() == 0 {
            self
        } else {
            self.swap_all(pairs.drop_last()).swap(pairs.last().0, pairs.last().1)
        }
    }
}

impl View for Layer {
    type V = Seq<char>;

    closed spec fn view(&self) -> Seq<char> {
        self.0.0@
    }
}

impl Clone for Layer {
    fn clone(&self) -> (copy: Layer)
        ensures
            copy@ == self@,
    {
        Layer(KeyMap(self.0.0))
    }
}

impl View for Layout {
    type V = Keys;

    closed spec fn view(&self) -> Keys {
        Keys { lower: self.0@, upper: self.1@ }
    }
}

impl Clone for Layout {
    fn clone(&self) -> (copy: Layout)
        ensures
            copy@ == self@,
    {
        Layout(self.0.clone(), self.1.clone())
    }
}

impl Layer {
    /// The layer that holds `keys[i]` on the key at `i`.
    pub fn new(keys: [char; 50]) -> (layer: Layer)
        ensures
            layer@ == keys@,
    {
        Layer(KeyMap(keys))
    }

    /// The character on the key at `pos`.
    pub fn get(&self, pos: usize) -> (c: char)
        requires
            pos < NUM_KEYS,
        ensures
            c == self@[pos as int],
    {
        self.0.0[pos]
    }

    /// Exchanges the characters of the keys at `i` and `j`.
    pub fn swap(&mut self, i: usize, j: usize)
        requires
            i < NUM_KEYS,
            j < NUM_KEYS,
        ensures
            final(self)@ == swapped(old(self)@, i as int, j as int),
    {
        let temp = self.0.0[i];
        self.0.0[i] = self.0.0[j];
        self.0.0[j] = temp;
    }
}

/// Every layer holds one character for each key.
pub proof fn lemma_layer_len(layer: Layer)
    ensures
        layer@.len() == NUM_KEYS,
{
}

/// Exchanging the same two keys twice leaves every key as it was, in both
/// layers alike.
pub proof fn lemma_swap_twice(keys: Keys, i: int, j: int)
    requires
        keys.wf(),
        0 <= i < NUM_KEYS,
        0 <= j < NUM_KEYS,
    ensures
        keys.swap(i, j).swap(i, j) == keys,
{
    assert(swapped(swapped(keys.lower, i, j), i, j) =~= keys.lower);
    assert(swapped(swapped(keys.upper, i, j), i, j) =~= keys.upper);
}

/// Whether `c` can be looked up: any character below code 128 but null,
/// which stands for a key without a character.
pub open spec fn is_key_char(c: char) -> bool {
    0 < c as int && (c as int) < 128
}

/// The greatest position at which `keys` holds `c`.
pub open spec fn last_position(keys: Seq<char>, c: char) -> Option<int>
    decreases keys.len(),
{
    if keys.len() == 0 {
        None
    } else if keys.last() == c {
        Some(keys.len() - 1)
    } else {
        last_position(keys.drop_last(), c)
    }
}

/// `last_position` finds a position that holds `c`, and none beyond it does;
/// it finds nothing only where `c` does not occur.
pub proof fn lemma_last_position(keys: Seq<char>, c: char)
    ensures
        match last_position(keys, c) {
            Some(p) => 0 <= p < keys.len() && keys[p] == c && forall|q: int|
                p < q < keys.len() ==> keys[q] != c,
            None => !keys.contains(c),
        },
    decreases keys.len(),
{
    if keys.len() == 0 {
    } else if keys.last() == c {
    } else {
        let rest = keys.drop_last();
        lemma_last_position(rest, c);
        match last_position(rest, c) {
            Some(p) => {
                assert(rest[p] == keys[p]);
                assert forall|q: int| p < q < keys.len() implies keys[q] != c by {
                    if q < rest.len() {
                        assert(rest[q] == keys[q]);
                    }
                }
            },
            None => {
                assert forall|q: int| 0 <= q < keys.len() implies keys[q] != c by {
                    if q < rest.len() {
                        assert(rest[q] == keys[q]);
                        assert(rest.contains(rest[q]));
                    }
                }
            },
        }
    }
}

/// The key that types `c` on a layout: where several keys hold `c`, one in
/// the shifted layer goes before one in the unshifted layer, and within a
/// layer the key at the greatest position.
pub open spec fn layout_key(keys: Keys, c: char) -> Option<KeyPress> {
    if !is_key_char(c) {
        None
    } else {
        match last_position(keys.upper, c) {
            Some(p) => Some(key_press(c, p)),
            None => match last_position(keys.lower, c) {
                Some(p) => Some(key_press(c, p)),
                None => None,
            },
        }
    }
}

/// A character is the character of its code.
pub proof fn lemma_char_code(c: char)
    ensures
        (c as int) as char == c,
{
}

/// What the slot of character code `k` holds once the keys of one layer are
/// entered over `before`.
pub open spec fn entered(keys: Seq<char>, before: Seq<Option<KeyPress>>, k: int) -> Option<
    KeyPress,
> {
    if 0 < k < 128 {
        match last_position(keys, k as char) {
            Some(p) => Some(key_press(k as char, p)),
            None => before[k],
        }
    } else {
        before[k]
    }
}

/// The characters of a layout with the key that types each.
pub open spec fn position_map(keys: Keys) -> Map<char, KeyPress> {
    Map::new(|c: char| layout_key(keys, c) is Some, |c: char| layout_key(keys, c)->0)
}

/// Whether every key press in `map` is the press of the character that it
/// stands under, on a key of the board.
pub open spec fn map_wf(map: Map<char, KeyPress>) -> bool {
    forall|c: char| #[trigger]
        map.contains_key(c) ==> is_key_char(c) && map[c].kc == c && map[c].wf()
}

/// The position map of a layout holds a character exactly if it is a key
/// character that one of the two layers holds.
pub proof fn lemma_position_map_domain(keys: Keys, c: char)
    requires
        keys.wf(),
    ensures
        position_map(keys).contains_key(c) <==> is_key_char(c) && (keys.lower.contains(c)
            || keys.upper.contains(c)),
        !position_map(keys).contains_key(0 as char),
        map_wf(position_map(keys)),
{
    lemma_last_position(keys.upper, c);
    lemma_last_position(keys.lower, c);
    assert forall|d: char| #[trigger] position_map(keys).contains_key(d) implies is_key_char(d)
        && position_map(keys)[d].kc == d && position_map(keys)[d].wf() by {
        lemma_last_position(keys.upper, d);
        lemma_last_position(keys.lower, d);
    }
}

/// For each character, the key that types it.
pub struct LayoutPosMap([Option<KeyPress>; 128]);

impl View for LayoutPosMap {
    type V = Map<char, KeyPress>;

    closed spec fn view(&self) -> Map<char, KeyPress> {
        Map::new(
            |c: char| (c as int) < 128 && self.0@[c as int] is Some,
            |c: char| self.0@[c as int]->0,
        )
    }
}

impl LayoutPosMap {
    /// The key that types `kc`, if there is one. A character beyond the
    /// first 128 has none.
    pub fn get_key_position(&self, kc: char) -> (key: Option<KeyPress>)
        ensures
            key == if self@.contains_key(kc) { Some(self@[kc]) } else { None },
            (kc as u32) >= 128 ==> key is None,
    {
        if (kc as u32) < 128 {
            self.0[kc as usize]
        } else {
            None
        }
    }
}

impl Layer {
    /// Enters the keys of this layer into `map`, over what it holds.
    fn fill_position_map(&self, map: &mut [Option<KeyPress>; 128])
        ensures
            forall|k: int|
                0 <= k < 128 ==> #[trigger] final(map)@[k] == entered(self@, old(map)@, k),
    {
        let ghost before = map@;
        let mut i: usize = 0;
        while i < NUM_KEYS
            invariant
                i <= NUM_KEYS,
                self@.len() == NUM_KEYS,
                before.len() == 128,
                map@.len() == 128,
                forall|k: int|
                    0 <= k < 128 ==> #[trigger] map@[k] == entered(self@.take(i as int), before, k),
            decreases NUM_KEYS - i,
        {
            let c = self.0.0[i];
            proof {
                assert(self@.take(i + 1).drop_last() =~= self@.take(i as int));
                assert(self@.take(i + 1).last() == c);
            }
            if (c as u32) < 128 && c != '\0' {
                map[c as usize] = Some(KeyPress::new(c, i));
            }
            i += 1;
        }
        proof {
            assert(self@.take(NUM_KEYS as int) =~= self@);
        }
    }
}

impl Layout {
    /// The layout with the given unshifted and shifted layers.
    pub fn new(lower: Layer, upper: Layer) -> (layout: Layout)
        ensures
            layout@ == (Keys { lower: lower@, upper: upper@ }),
    {
        Layout(lower, upper)
    }

    /// The unshifted layer.
    pub fn lower(&self) -> (layer: &Layer)
        ensures
            layer@ == self@.lower,
    {
        &self.0
    }

    /// The shifted layer.
    pub fn upper(&self) -> (layer: &Layer)
        ensures
            layer@ == self@.upper,
    {
        &self.1
    }

    /// Exchanges the keys at `i` and `j`, with both their characters.
    pub fn swap(&mut self, i: usize, j: usize)
        requires
            i < NUM_KEYS,
            j < NUM_KEYS,
        ensures
            final(self)@ == old(self)@.swap(i as int, j as int),
    {
        self.0.swap(i, j);
        self.1.swap(i, j);
    }

    /// The key of each character that the layout holds. Null, which marks a
    /// key without a character, and characters from code 128 on have none.
    pub fn get_position_map(&self) -> (map: LayoutPosMap)
        ensures
            map@ == position_map(self@),
            map_wf(map@),
            forall|c: char|
                map@.contains_key(c) <==> is_key_char(c) && (self@.lower.contains(c)
                    || self@.upper.contains(c)),
    {
        let mut map: [Option<KeyPress>; 128] = [None; 128];
        let ghost empty_map = map@;
        self.0.fill_position_map(&mut map);
        let ghost lower_map = map@;
        self.1.fill_position_map(&mut map);
        let map = LayoutPosMap(map);
        proof {
            assert forall|c: char| (c as int) < 128 implies map.0@[c as int] == layout_key(
                self@,
                c,
            ) by {
                lemma_char_code(c);
                assert(empty_map[c as int] is None);
                assert(lower_map[c as int] == entered(self@.lower, empty_map, c as int));
                assert(map.0@[c as int] == entered(self@.upper, lower_map, c as int));
            }
            assert(map@ =~= position_map(self@));
            assert forall|c: char|
                map@.contains_key(c) <==> is_key_char(c) && (self@.lower.contains(c)
                    || self@.upper.contains(c)) by {
                lemma_position_map_domain(self@, c);
            }
            lemma_position_map_domain(self@, 'a');
        }
        map
    }
}

/// The number of keys that a swap may move: all but one.
pub const NUM_SWAPPABLE: usize = 49;

/// Whether the key at `pos` may be moved by a swap: every key but the one
/// at the right end of the top row.
pub open spec fn is_swappable(pos: int) -> bool {
    0 <= pos < NUM_KEYS && pos != 11
}

/// The position of the `index`-th key that a swap may move.
pub open spec fn swap_position(index: int) -> int {
    if index < 11 {
        index
    } else {
        index + 1
    }
}

/// Whether `pair` names two different keys that a swap may move.
pub open spec fn is_swap_pair(pair: (int, int)) -> bool {
    is_swappable(pair.0) && is_swappable(pair.1) && pair.0 != pair.1
}

/// The two keys that a swap exchanges when `first` and `second` are drawn:
/// `first` picks one of the keys that may move, and `second` one of the
/// others.
pub open spec fn drawn_pair(first: int, second: int) -> (int, int) {
    let i = first % (NUM_SWAPPABLE as int);
    let rest = second % (NUM_SWAPPABLE - 1);
    let j = if rest >= i {
        rest + 1
    } else {
        rest
    };
    (swap_position(i), swap_position(j))
}

/// The pairs of keys that the draws of `draws` pick, one pair to each draw.
pub open spec fn drawn_pairs(draws: Seq<(usize, usize)>) -> Seq<(int, int)> {
    Seq::new(draws.len(), |k: int| drawn_pair(draws[k].0 as int, draws[k].1 as int))
}

/// Whether `after` comes from `before` by `times` swaps, each of two
/// different keys that may move.
pub open spec fn swapped_times(before: Keys, after: Keys, times: int) -> bool {
    exists|pairs: Seq<(int, int)>|
        pairs.len() == times && (forall|k: int| 0 <= k < pairs.len() ==> is_swap_pair(#[trigger] pairs[k]))
            && after == before.swap_all(pairs)
}

/// The position of the `index`-th key that a swap may move.
pub fn swappable_position(index: usize) -> (pos: usize)
    requires
        index < NUM_SWAPPABLE,
    ensures
        pos == swap_position(index as int),
        is_swappable(pos as int),
{
    let offsets: [usize; 49] = [
        0, 0, 0, 0, 0, 0, 0, 0, 0, 0, 0,
        1, 1, 1, 1, 1, 1, 1, 1, 1, 1, 1, 1,
        1, 1, 1, 1, 1, 1, 1, 1, 1, 1, 1, 1,
        1, 1, 1, 1, 1, 1, 1, 1, 1, 1,
        1, 1, 1, 1,
    ];
    index + offsets[index]
}

/// A number that `rand::random` draws. Nothing is claimed of the number.
#[verifier::external_body]
pub(crate) fn random_number() -> usize {
    rand::random::<usize>()
}

impl Layout {
    /// The two keys to exchange when `first` and `second` are drawn.
    pub fn swap_pair_from(first: usize, second: usize) -> (pair: (usize, usize))
        ensures
            (pair.0 as int, pair.1 as int) == drawn_pair(first as int, second as int),
            is_swap_pair((pair.0 as int, pair.1 as int)),
    {
        let i = first % NUM_SWAPPABLE;
        let mut j = second % (NUM_SWAPPABLE - 1);
        if j >= i {
            j += 1;
        }
        (swappable_position(i), swappable_position(j))
    }

    /// Two different keys that may move, picked at random.
    pub fn shuffle_position() -> (pair: (usize, usize))
        ensures
            is_swap_pair((pair.0 as int, pair.1 as int)),
    {
        let first = random_number();
        let second = random_number();
        Layout::swap_pair_from(first, second)
    }

    /// Makes the swaps that `draws` pick, one after the other.
    pub fn shuffle_with(&mut self, draws: &Vec<(usize, usize)>)
        ensures
            final(self)@ == old(self)@.swap_all(drawn_pairs(draws@)),
    {
        let mut k: usize = 0;
        while k < draws.len()
            invariant
                k <= draws.len(),
                self@ == old(self)@.swap_all(drawn_pairs(draws@).take(k as int)),
            decreases draws.len() - k,
        {
            let (i, j) = Layout::swap_pair_from(draws[k].0, draws[k].1);
            self.swap(i, j);
            proof {
                let pairs = drawn_pairs(draws@);
                assert(pairs.take(k + 1).drop_last() =~= pairs.take(k as int));
                assert(pairs.take(k + 1).last() == (i as int, j as int));
            }
            k += 1;
        }
        proof {
            assert(drawn_pairs(draws@).take(draws.len() as int) =~= drawn_pairs(draws@));
        }
    }

    /// Makes `times` swaps, each of two different keys picked at random
    /// among those that may move.
    pub fn shuffle(&mut self, times: usize)
        ensures
            swapped_times(old(self)@, final(self)@, times as int),
    {
        let ghost mut pairs: Seq<(int, int)> = Seq::empty();
        let mut k: usize = 0;
        while k < times
            invariant
                k <= times,
                pairs.len() == k,
                forall|n: int| 0 <= n < pairs.len() ==> is_swap_pair(#[trigger] pairs[n]),
                self@ == old(self)@.swap_all(pairs),
            decreases times - k,
        {
            let (i, j) = Layout::shuffle_position();
            self.swap(i, j);
            proof {
                let longer = pairs.push((i as int, j as int));
                assert(longer.drop_last() =~= pairs);
                pairs = longer;
            }
            k += 1;
        }
    }
}

/// The place in a layout text of the character for the key at `pos`: the
/// text leaves one place unused behind the first eighteen keys, and one
/// more behind the first thirty.
pub open spec fn text_index(pos: int) -> int {
    if pos < 18 {
        pos
    } else if pos < 30 {
        pos + 1
    } else {
        pos + 2
    }
}

/// The number of keys that a layout text gives characters for.
pub const TEXT_KEYS: usize = 34;

/// How far behind the unshifted character of a key its shifted character
/// stands in a layout text.
pub const SHIFT_OFFSET: usize = 40;

/// The character at place `i` of `text`, or null beyond its end.
pub open spec fn char_or_null(text: Seq<char>, i: int) -> char {
    if 0 <= i < text.len() {
        text[i]
    } else {
        '\0'
    }
}

/// The layout that a layout text stands for. A key whose place lies beyond
/// the end of the text has no character, and neither has a key that the
/// text gives no place to.
pub open spec fn parsed(text: Seq<char>) -> Keys {
    Keys {
        lower: Seq::new(
            NUM_KEYS as nat,
            |pos: int|
                if pos < TEXT_KEYS {
                    char_or_null(text, text_index(pos))
                } else {
                    '\0'
                },
        ),
        upper: Seq::new(
            NUM_KEYS as nat,
            |pos: int|
                if pos < TEXT_KEYS {
                    char_or_null(text, text_index(pos) + SHIFT_OFFSET)
                } else {
                    '\0'
                },
        ),
    }
}

impl Layout {
    /// Reads a layout from a layout text.
    pub fn from_string(s: &str) -> (layout: Layout)
        ensures
            layout@ == parsed(s@),
    {
        let text = chars_of(s);
        let places: [usize; 34] = [
            0, 1, 2, 3, 4, 5, 6, 7, 8, 9, 10, 11,
            12, 13, 14, 15, 16, 17, 19, 20, 21, 22, 23, 24,
            25, 26, 27, 28, 29, 30, 32, 33, 34, 35,
        ];
        let mut lower: [char; 50] = ['\0'; 50];
        let mut upper: [char; 50] = ['\0'; 50];
        let mut i: usize = 0;
        while i < TEXT_KEYS
            invariant
                i <= TEXT_KEYS,
                text@ == s@,
                forall|k: int| 0 <= k < 34 ==> #[trigger] places@[k] == text_index(k),
                forall|k: int|
                    0 <= k < NUM_KEYS ==> #[trigger] lower@[k] == if k < i {
                        char_or_null(text@, text_index(k))
                    } else {
                        '\0'
                    },
                forall|k: int|
                    0 <= k < NUM_KEYS ==> #[trigger] upper@[k] == if k < i {
                        char_or_null(text@, text_index(k) + SHIFT_OFFSET)
                    } else {
                        '\0'
                    },
            decreases TEXT_KEYS - i,
        {
            let place = places[i];
            if place < text.len() {
                lower[i] = text[place];
            }
            if place + SHIFT_OFFSET < text.len() {
                upper[i] = text[place + SHIFT_OFFSET];
            }
            i += 1;
        }
        let layout = Layout(Layer(KeyMap(lower)), Layer(KeyMap(upper)));
        proof {
            assert(layout@.lower =~= parsed(s@).lower);
            assert(layout@.upper =~= parsed(s@).upper);
        }
        layout
    }
}

/// Walks through the layouts that come from one layout by a number of
/// swaps of keys that may move, no key in two swaps. Each call of `next`
/// gives the next of them, until none is left.
pub struct LayoutPermutations {
    orig_layout: Layout,
    swap_idx: Vec<usize>,
    started: bool,
}

/// The picks that a vector of indices holds.
pub open spec fn picks_of(indices: Seq<usize>) -> Seq<int> {
    Seq::new(indices.len(), |i: int| indices[i] as int)
}

impl LayoutPermutations {
    /// The picks are a way to pick once the walk has started; before that
    /// their number is what counts.
    pub closed spec fn wf(&self) -> bool {
        &&& self.swap_idx@.len() <= NUM_SWAPPABLE
        &&& self.started ==> is_combination(picks_of(self.swap_idx@))
    }

    /// The ways to pick that are still to come, in order.
    pub closed spec fn pending(&self) -> Seq<Seq<int>> {
        if self.started {
            match next_combination(picks_of(self.swap_idx@)) {
                None => Seq::empty(),
                Some(next) => combinations_from(next),
            }
        } else {
            combinations_from(first_combination(self.swap_idx@.len()))
        }
    }

    /// The layouts that are still to come, in order.
    pub closed spec fn remaining(&self) -> Seq<Keys> {
        layouts_of(self.orig_layout@, self.pending())
    }

    /// The walk through the layouts that come from `layout` by `depth`
    /// swaps. Without a swap that is `layout` itself; with more swaps than
    /// there are pairs of keys there is none.
    pub fn new(layout: &Layout, depth: usize) -> (permutations: LayoutPermutations)
        ensures
            permutations.wf(),
            permutations.remaining() == neighbors(layout@, depth as nat),
    {
        if depth > NUM_SWAPPABLE / 2 {
            let permutations = LayoutPermutations {
                orig_layout: layout.clone(),
                swap_idx: Vec::new(),
                started: true,
            };
            proof {
                assert(picks_of(permutations.swap_idx@) =~= Seq::<int>::empty());
                assert(first_movable(Seq::<int>::empty(), 0) == 0);
                assert(permutations.remaining() =~= neighbors(layout@, depth as nat));
            }
            return permutations;
        }
        let mut swaps: Vec<usize> = Vec::with_capacity(depth * 2);
        let mut i: usize = 0;
        while i < depth * 2
            invariant
                i <= depth * 2,
                depth <= NUM_SWAPPABLE / 2,
                swaps@.len() == i,
            decreases depth * 2 - i,
        {
            swaps.push(0);
            i += 1;
        }
        LayoutPermutations { orig_layout: layout.clone(), swap_idx: swaps, started: false }
    }

    /// The layout that comes next, or nothing once all have come.
    pub fn next(&mut self) -> (layout: Option<Layout>)
        requires
            old(self).wf(),
        ensures
            final(self).wf(),
            match layout {
                Some(next) => old(self).remaining().len() > 0 && next@ == old(
                    self,
                ).remaining()[0] && final(self).remaining() == old(self).remaining().drop_first(),
                None => old(self).remaining().len() == 0 && final(self).remaining().len() == 0,
            },
    {
        let mut some = false;
        let mut idx: usize = 0;
        let mut val: usize = 0;
        let ghost before = picks_of(self.swap_idx@);
        let len = self.swap_idx.len();

        if self.started {
            proof {
                lemma_first_movable(before, 0);
            }
            let mut i: usize = 0;
            while i < len
                invariant_except_break
                    i <= len,
                    !some,
                    forall|j: int| 0 <= j < i ==> !movable(before, j),
                    first_movable(before, 0) == first_movable(before, i as int),
                invariant
                    len == self.swap_idx@.len(),
                    len == before.len(),
                    len <= NUM_SWAPPABLE,
                    self.started,
                    is_combination(before),
                    self.orig_layout == old(self).orig_layout,
                    !some ==> picks_of(self.swap_idx@) == before,
                ensures
                    some ==> idx < len && idx == first_movable(before, 0) && val == before[idx as int]
                        + 1 && val + idx < NUM_SWAPPABLE && picks_of(self.swap_idx@)
                        == before.update(idx as int, val as int),
                    !some ==> first_movable(before, 0) == len,
                decreases len - i,
            {
                let e = self.swap_idx[i];
                assert(e == before[i as int]);
                if e + 1 < NUM_SWAPPABLE - i {
                    self.swap_idx[i] = e + 1;
                    some = true;
                    idx = i;
                    val = e + 1;
                    proof {
                        assert(picks_of(self.swap_idx@) =~= before.update(idx as int, val as int));
                    }
                    break ;
                }
                i += 1;
            }
        } else {
            self.started = true;
            if len > 0 {
                some = true;
                idx = len - 1;
                val = 0;
                self.swap_idx[idx] = 0;
            } else {
                proof {
                    assert(picks_of(self.swap_idx@) =~= first_combination(0));
                }
                let layout = self.orig_layout.clone();
                proof {
                    lemma_first_combination(0);
                    lemma_combinations_from(first_combination(0));
                    lemma_next_combination(first_combination(0));
                    assert(combination_pairs(first_combination(0)) =~= Seq::<(int, int)>::empty());
                    self.lemma_step(*old(self), first_combination(0));
                }
                return Some(layout);
            }
        }

        if some {
            let ghost mid = picks_of(self.swap_idx@);
            proof {
                assert(mid[idx as int] == val);
                assert forall|j: int| idx < j < len implies #[trigger] self.swap_idx@[j]
                    == before[j] by {
                    assert(mid[j] == self.swap_idx@[j]);
                    if !old(self).started {
                        assert(before[j] == old(self).swap_idx@[j]);
                    }
                }
            }
            let mut i: usize = 0;
            while i < idx
                invariant
                    i <= idx,
                    idx < len,
                    len == self.swap_idx@.len(),
                    len <= NUM_SWAPPABLE,
                    len == before.len(),
                    self.started,
                    self.orig_layout == old(self).orig_layout,
                    val + idx < NUM_SWAPPABLE,
                    self.swap_idx@[idx as int] == val,
                    forall|j: int| 0 <= j < i ==> #[trigger] self.swap_idx@[j] == val + idx - j,
                    forall|j: int| idx < j < len ==> #[trigger] self.swap_idx@[j] == before[j],
                decreases idx - i,
            {
                self.swap_idx[i] = val + idx - i;
                i += 1;
            }
            let ghost now = picks_of(self.swap_idx@);
            proof {
                if old(self).started {
                    assert(now =~= advanced(before, idx as int));
                    lemma_next_combination(before);
                } else {
                    assert(now =~= first_combination(len as nat)) by {
                        assert forall|j: int| 0 <= j < len implies now[j] == len - 1 - j by {
                            if j > idx {
                            }
                        }
                    }
                    lemma_first_combination(len as nat);
                }
                lemma_combinations_from(now);
                self.lemma_step(*old(self), now);
            }

            let mut layout = self.orig_layout.clone();
            let mut k: usize = 0;
            while 2 * k + 1 < len
                invariant
                    2 * k <= len,
                    len <= NUM_SWAPPABLE,
                    len == self.swap_idx@.len(),
                    now == picks_of(self.swap_idx@),
                    is_combination(now),
                    layout@ == self.orig_layout@.swap_all(combination_pairs(now).take(k as int)),
                decreases len - 2 * k,
            {
                proof {
                    assert(now[2 * k] == self.swap_idx@[2 * k]);
                    assert(now[2 * k + 1] == self.swap_idx@[2 * k + 1]);
                }
                let swap_left = swappable_position(self.swap_idx[2 * k]);
                let swap_right = swappable_position(self.swap_idx[2 * k + 1]);
                layout.swap(swap_left, swap_right);
                proof {
                    let pairs = combination_pairs(now);
                    assert(pairs.take(k + 1).drop_last() =~= pairs.take(k as int));
                    assert(pairs.take(k + 1).last() == (swap_left as int, swap_right as int));
                }
                k += 1;
            }
            proof {
                let pairs = combination_pairs(now);
                assert(pairs.take(k as int) =~= pairs);
            }
            Some(layout)
        } else {
            proof {
                assert(self.remaining() =~= Seq::<Keys>::empty());
            }
            None
        }
    }

    /// Once the walk has moved on to the way to pick `now`, which was the
    /// first still to come, what is still to come is what was, but `now`.
    proof fn lemma_step(&self, before: LayoutPermutations, now: Seq<int>)
        requires
            self.started,
            self.swap_idx@.len() <= NUM_SWAPPABLE,
            self.orig_layout == before.orig_layout,
            picks_of(self.swap_idx@) == now,
            is_combination(now),
            before.pending() == combinations_from(now),
        ensures
            self.wf(),
            before.remaining().len() > 0,
            before.remaining()[0] == self.orig_layout@.swap_all(combination_pairs(now)),
            self.remaining() == before.remaining().drop_first(),
    {
        lemma_combinations_from(now);
        lemma_next_combination(now);
        match next_combination(now) {
            None => {
                assert(self.remaining() =~= before.remaining().drop_first());
            },
            Some(next) => {
                assert(combinations_from(now) == seq![now] + combinations_from(next));
                assert(self.remaining() =~= before.remaining().drop_first());
            },
        }
    }
}

impl Layer {
    /// Whether this layer holds the characters of `other`, key by key.
    pub fn same(&self, other: &Layer) -> (same: bool)
        ensures
            same == (self@ == other@),
    {
        let mut i: usize = 0;
        while i < NUM_KEYS
            invariant
                i <= NUM_KEYS,
                forall|k: int| 0 <= k < i ==> self@[k] == other@[k],
            decreases NUM_KEYS - i,
        {
            if self.0.0[i] != other.0.0[i] {
                return false;
            }
            i += 1;
        }
        proof {
            assert(self@ =~= other@);
        }
        true
    }
}

impl Layout {
    /// Whether this layout holds the characters of `other`, key by key, in
    /// both layers.
    pub fn same(&self, other: &Layout) -> (same: bool)
        ensures
            same == (self@ == other@),
    {
        self.0.same(&other.0) && self.1.same(&other.1)
    }

    /// Both layers of a layout hold one character for each key.
    pub proof fn lemma_wf(&self)
        ensures
            self@.wf(),
    {
    }
}

/// Whether `after` comes from `before` by swaps, each of two different keys
/// that may move.
pub open spec fn reachable(before: Keys, after: Keys) -> bool {
    exists|times: int| 0 <= times && swapped_times(before, after, times)
}

/// Making the swaps of `first` and then those of `second` is making the
/// swaps of both in a row.
pub proof fn lemma_swap_all_add(keys: Keys, first: Seq<(int, int)>, second: Seq<(int, int)>)
    ensures
        keys.swap_all(first + second) == keys.swap_all(first).swap_all(second),
    decreases second.len(),
{
    if second.len() == 0 {
        assert(first + second =~= first);
    } else {
        lemma_swap_all_add(keys, first, second.drop_last());
        assert((first + second).drop_last() =~= first + second.drop_last());
    }
}

/// Swaps after swaps are swaps: what can be reached from a layout that can
/// be reached can be reached.
pub proof fn lemma_reachable(first: Keys, second: Keys, third: Keys)
    requires
        reachable(first, second),
        reachable(second, third),
    ensures
        reachable(first, third),
        reachable(first, first),
{
    let n = choose|times: int| 0 <= times && swapped_times(first, second, times);
    let m = choose|times: int| 0 <= times && swapped_times(second, third, times);
    let p = choose|pairs: Seq<(int, int)>|
        pairs.len() == n && (forall|k: int| 0 <= k < pairs.len() ==> is_swap_pair(#[trigger] pairs[k]))
            && second == first.swap_all(pairs);
    let q = choose|pairs: Seq<(int, int)>|
        pairs.len() == m && (forall|k: int| 0 <= k < pairs.len() ==> is_swap_pair(#[trigger] pairs[k]))
            && third == second.swap_all(pairs);
    lemma_swap_all_add(first, p, q);
    assert(swapped_times(first, third, n + m)) by {
        let both = p + q;
        assert(both.len() == n + m);
        assert forall|k: int| 0 <= k < both.len() implies is_swap_pair(#[trigger] both[k]) by {
            if k < p.len() {
                assert(both[k] == p[k]);
            } else {
                assert(both[k] == q[k - p.len()]);
            }
        }
    }
    lemma_reachable_self(first);
}

/// Every layout can be reached from itself, by no swap.
pub proof fn lemma_reachable_self(keys: Keys)
    ensures
        reachable(keys, keys),
{
    assert(swapped_times(keys, keys, 0)) by {
        let none = Seq::<(int, int)>::empty();
        assert(none.len() == 0);
        assert(keys == keys.swap_all(none));
    }
}

/// The characters of `keys` with a blank between each two.
pub open spec fn spaced(keys: Seq<char>) -> Seq<char>
    decreases keys.len(),
{
    if keys.len() == 0 {
        Seq::empty()
    } else if keys.len() == 1 {
        seq![keys[0]]
    } else {
        spaced(keys.drop_last()) + seq![' ', keys.last()]
    }
}

/// One row of keys as text: the keys from `from` up to `mid` for the left
/// hand, a bar, and the keys from `mid` up to `to` for the right hand.
pub open spec fn row_text(keys: Seq<char>, from: int, mid: int, to: int) -> Seq<char> {
    spaced(keys.subrange(from, mid)) + seq![' ', '|', ' '] + spaced(keys.subrange(mid, to))
}

/// A layer as text: the three letter rows, an empty line, and the two thumb
/// rows, the upper of them first, each moved in to stand below the middle
/// of the board.
pub open spec fn rendered(keys: Seq<char>) -> Seq<char> {
    row_text(keys, 0, 6, 12) + seq!['\n'] + row_text(keys, 12, 18, 24) + seq!['\n'] + row_text(
        keys,
        24,
        30,
        36,
    ) + seq!['\n', '\n'] + seq![' ', ' ', ' ', ' ', ' ', ' ', ' ', ' '] + row_text(keys, 46, 48, 50)
        + seq!['\n'] + seq![' ', ' '] + row_text(keys, 36, 41, 46)
}

impl Layer {
    /// Writes the keys from `from` up to `to` with a blank between each two.
    fn push_spaced(&self, out: &mut Vec<char>, from: usize, to: usize)
        requires
            from <= to <= NUM_KEYS,
        ensures
            final(out)@ == old(out)@ + spaced(self@.subrange(from as int, to as int)),
    {
        let mut i: usize = from;
        while i < to
            invariant
                from <= i <= to,
                to <= NUM_KEYS,
                out@ == old(out)@ + spaced(self@.subrange(from as int, i as int)),
            decreases to - i,
        {
            if i > from {
                out.push(' ');
            }
            out.push(self.0.0[i]);
            proof {
                let shorter = self@.subrange(from as int, i as int);
                let longer = self@.subrange(from as int, i + 1);
                assert(longer.drop_last() =~= shorter);
                assert(longer.last() == self@[i as int]);
                assert(out@ =~= old(out)@ + spaced(longer));
            }
            i += 1;
        }
    }

    /// Writes one row of keys: the left hand, a bar, the right hand.
    fn push_row(&self, out: &mut Vec<char>, from: usize, mid: usize, to: usize)
        requires
            from <= mid <= to <= NUM_KEYS,
        ensures
            final(out)@ == old(out)@ + row_text(self@, from as int, mid as int, to as int),
    {
        self.push_spaced(out, from, mid);
        out.push(' ');
        out.push('|');
        out.push(' ');
        self.push_spaced(out, mid, to);
        proof {
            assert(out@ =~= old(out)@ + row_text(self@, from as int, mid as int, to as int));
        }
    }

    /// The layer as text, in the shape of the board.
    pub fn to_string(&self) -> (text: String)
        ensures
            text@ == rendered(self@),
    {
        let mut out: Vec<char> = Vec::new();
        self.push_row(&mut out, 0, 6, 12);
        out.push('\n');
        self.push_row(&mut out, 12, 18, 24);
        out.push('\n');
        self.push_row(&mut out, 24, 30, 36);
        out.push('\n');
        out.push('\n');
        let mut i: usize = 0;
        let ghost before = out@;
        while i < 8
            invariant
                i <= 8,
                out@ == before + Seq::new(i as nat, |k: int| ' '),
            decreases 8 - i,
        {
            out.push(' ');
            proof {
                assert(out@ =~= before + Seq::new((i + 1) as nat, |k: int| ' '));
            }
            i += 1;
        }
        // The upper thumb row comes first, for a cleaner look.
        self.push_row(&mut out, 46, 48, 50);
        out.push('\n');
        out.push(' ');
        out.push(' ');
        self.push_row(&mut out, 36, 41, 46);
        proof {
            assert(Seq::new(8, |k: int| ' ') =~= seq![' ', ' ', ' ', ' ', ' ', ' ', ' ', ' ']);
            assert(out@ =~= rendered(self@));
        }
        string_of(&out)
    }
}

impl Layout {
    /// The layout as text: its unshifted layer in the shape of the board.
    pub fn to_string(&self) -> (text: String)
        ensures
            text@ == rendered(self@.lower),
    {
        self.0.to_string()
    }
}

/// For each key, whether a swap may move it.
pub struct LayoutShuffleMask(KeyMap<bool>);

impl View for LayoutShuffleMask {
    type V = Seq<bool>;

    closed spec fn view(&self) -> Seq<bool> {
        self.0.0@
    }
}

impl LayoutShuffleMask {
    /// The mask of the keys that a swap may move.
    pub fn new() -> (mask: LayoutShuffleMask)
        ensures
            mask@.len() == NUM_KEYS,
            forall|pos: int| 0 <= pos < NUM_KEYS ==> mask@[pos] == is_swappable(pos),
    {
        let mut keys: [bool; 50] = [true; 50];
        keys[11] = false;
        LayoutShuffleMask(KeyMap(keys))
    }

    /// Whether a swap may move the key at `pos`.
    pub fn allows(&self, pos: usize) -> (allowed: bool)
        requires
            pos < NUM_KEYS,
        ensures
            allowed == self@[pos as int],
    {
        self.0.0[pos]
    }
}

/// The first fifty characters of `text` by key, with null for a key beyond
/// the end of `text`.
pub open spec fn layer_of(text: Seq<char>) -> Seq<char> {
    Seq::new(NUM_KEYS as nat, |pos: int| char_or_null(text, pos))
}

/// The layout whose keys hold the characters of `lower` without shift and
/// those of `upper` with shift.
pub open spec fn layers_of(lower: Seq<char>, upper: Seq<char>) -> Keys {
    Keys { lower: layer_of(lower), upper: layer_of(upper) }
}

impl Layer {
    /// The layer whose keys hold the first fifty characters of `text`, one
    /// after the other. A key beyond the end of `text` has no character.
    pub fn from_text(text: &str) -> (layer: Layer)
        ensures
            layer@ == layer_of(text@),
    {
        let chars = chars_of(text);
        let mut keys: [char; 50] = ['\0'; 50];
        let mut i: usize = 0;
        while i < NUM_KEYS && i < chars.len()
            invariant
                i <= NUM_KEYS,
                chars@ == text@,
                forall|k: int|
                    0 <= k < NUM_KEYS ==> #[trigger] keys@[k] == if k < i {
                        char_or_null(text@, k)
                    } else {
                        '\0'
                    },
            decreases NUM_KEYS - i,
        {
            keys[i] = chars[i];
            i += 1;
        }
        let layer = Layer(KeyMap(keys));
        proof {
            assert(layer@ =~= layer_of(text@));
        }
        layer
    }
}

impl Layout {
    /// The layout whose keys hold the characters of `lower` without shift
    /// and those of `upper` with shift.
    pub fn from_layers(lower: &str, upper: &str) -> (layout: Layout)
        ensures
            layout@ == layers_of(lower@, upper@),
    {
        Layout(Layer::from_text(lower), Layer::from_text(upper))
    }
}

/// The greatest number that a digest of a layout takes, and one more.
pub const DIGEST_RANGE: u64 = 4294967291;

/// A number that stands for the characters `keys` after those that `seed`
/// stands for. Equal characters give equal numbers.
pub open spec fn digest_of(keys: Seq<char>, seed: int) -> int
    decreases keys.len(),
{
    if keys.len() == 0 {
        seed
    } else {
        (digest_of(keys.drop_last(), seed) * 131 + keys.last() as int) % (DIGEST_RANGE as int)
    }
}

impl Keys {
    /// A number that stands for the layout where layouts are looked up.
    pub open spec fn digest(self) -> int {
        digest_of(self.upper, digest_of(self.lower, 0))
    }
}

/// The code of a character.
fn code_of(c: char) -> (code: u64)
    ensures
        code == c as int,
        code <= 0x10FFFF,
{
    c as u64
}

impl Layer {
    /// The number that stands for the characters of this layer after those
    /// that `seed` stands for.
    fn digest(&self, seed: u64) -> (digest: u64)
        requires
            seed < DIGEST_RANGE,
        ensures
            digest == digest_of(self@, seed as int),
            digest < DIGEST_RANGE,
    {
        let mut digest = seed;
        let mut i: usize = 0;
        while i < NUM_KEYS
            invariant
                i <= NUM_KEYS,
                digest < DIGEST_RANGE,
                digest == digest_of(self@.take(i as int), seed as int),
            decreases NUM_KEYS - i,
        {
            proof {
                assert(self@.take(i + 1).drop_last() =~= self@.take(i as int));
                assert(self@.take(i + 1).last() == self@[i as int]);
            }
            digest = (digest * 131 + code_of(self.0.0[i])) % DIGEST_RANGE;
            i += 1;
        }
        proof {
            assert(self@.take(NUM_KEYS as int) =~= self@);
        }
        digest
    }
}

impl Layout {
    /// The number that stands for the layout where layouts are looked up.
    pub fn digest(&self) -> (digest: u64)
        ensures
            digest == self@.digest(),
    {
        self.1.digest(self.0.digest(0))
    }
}

} // verus!
