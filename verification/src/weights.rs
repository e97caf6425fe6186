//! The weights of the cost model: what a single key costs, and what it costs
//! to press two keys of one hand in a row. Each weight is stated as a table
//! and looked up by a function that is proved to give what the table says.
//!
//! The tables do not reach every key. Only the keys below `BASE_KEYS` have a
//! cost of their own, and the index finger has a cost only for the pairs of
//! keys listed. A press that the tables do not reach has no cost: the
//! functions that charge leave it out, and `presses_covered` tells it.
//!
//! Positions count the keys row by row:
//!
//! ```text
//!       left hand      |     right hand
//!  0  1  2  3  4  5    |  6  7  8  9 10 11
//! 12 13 14 15 16 17    | 18 19 20 21 22 23
//! 24 25 26 27 28 29    | 30 31 32 33 34 35
//!    36 37 38 39 40    | 41 42 43 44 45
//!             46 47    | 48 49
//! ```

use vstd::prelude::*;
use crate::layout::Finger;
use crate::layout::KeyPress;
use crate::layout::Row;
use crate::layout::key_finger;

verus! {

/// Units of cost in one point.
pub const UNITS_PER_POINT: i128 = 40;

/// The number of keys that have a cost of their own: the keys from 0 up to
/// this number.
pub const BASE_KEYS: usize = 34;

/// Cost in units of pressing the key at `pos` by itself, for a key below
/// `BASE_KEYS`. No other key has such a cost, and nothing is meant by the
/// value that stands for one here.
#[verifier::opaque]
pub open spec fn base_units(pos: int) -> int {
    if pos == 10 {
        180
    } else if pos == 21 {
        160
    } else if pos == 0 || pos == 9 {
        140
    } else if pos == 22 || pos == 31 {
        120
    } else if pos == 4 || pos == 5 {
        100
    } else if pos == 23 || pos == 26 || pos == 27 || pos == 30 {
        80
    } else if pos == 3 || pos == 6 || pos == 15 || pos == 16 || pos == 24 || pos == 29 {
        60
    } else if pos == 11 || pos == 20 {
        50
    } else if pos == 25 || pos == 28 {
        40
    } else if pos == 1 || pos == 2 || pos == 7 || pos == 8 {
        10
    } else {
        0
    }
}

/// Cost in points of stretching between two keys of one hand that different
/// fingers press, for the keys at `a` and `b` in either order. Pairs that are
/// not listed cost nothing.
#[verifier::opaque]
pub open spec fn stretch_points(a: int, b: int) -> int {
    let lo = if a <= b { a } else { b };
    let hi = if a <= b { b } else { a };
    if (lo == 2 && hi == 25) || (lo == 7 && hi == 28) || (lo == 1 && hi == 25) ||
        (lo == 8 && hi == 28) || (lo == 11 && hi == 26) || (lo == 20 && hi == 27) ||
        (lo == 0 && hi == 15) || (lo == 9 && hi == 16) || (lo == 22 && hi == 26) ||
        (lo == 27 && hi == 31) || (lo == 11 && hi == 15) || (lo == 16 && hi == 20) ||
        (lo == 0 && hi == 4) || (lo == 5 && hi == 9) || (lo == 7 && hi == 21) ||
        (lo == 6 && hi == 21) || (lo == 4 && hi == 11) || (lo == 5 && hi == 20) ||
        (lo == 15 && hi == 22) || (lo == 16 && hi == 31) || (lo == 12 && hi == 26) ||
        (lo == 19 && hi == 27) || (lo == 1 && hi == 15) || (lo == 8 && hi == 16) ||
        (lo == 23 && hi == 26) || (lo == 27 && hi == 30) || (lo == 12 && hi == 15) ||
        (lo == 16 && hi == 19) || (lo == 1 && hi == 4) || (lo == 5 && hi == 8) ||
        (lo == 10 && hi == 17) || (lo == 21 && hi == 28) || (lo == 8 && hi == 21) {
        1
    } else if (lo == 2 && hi == 22) || (lo == 7 && hi == 31) || (lo == 3 && hi == 22) ||
        (lo == 6 && hi == 31) || (lo == 13 && hi == 26) || (lo == 18 && hi == 27) ||
        (lo == 2 && hi == 15) || (lo == 7 && hi == 16) || (lo == 24 && hi == 26) ||
        (lo == 27 && hi == 29) || (lo == 13 && hi == 15) || (lo == 16 && hi == 18) ||
        (lo == 2 && hi == 4) || (lo == 5 && hi == 7) || (lo == 11 && hi == 23) ||
        (lo == 20 && hi == 30) || (lo == 0 && hi == 12) || (lo == 9 && hi == 19) ||
        (lo == 0 && hi == 25) || (lo == 9 && hi == 28) {
        2
    } else if (lo == 1 && hi == 26) || (lo == 8 && hi == 27) || (lo == 15 && hi == 23) ||
        (lo == 16 && hi == 30) || (lo == 4 && hi == 12) || (lo == 5 && hi == 19) ||
        (lo == 3 && hi == 23) || (lo == 6 && hi == 30) || (lo == 10 && hi == 28) ||
        (lo == 0 && hi == 26) || (lo == 9 && hi == 27) || (lo == 10 && hi == 18) ||
        (lo == 21 && hi == 29) || (lo == 21 && hi == 30) || (lo == 10 && hi == 19) ||
        (lo == 5 && hi == 10) || (lo == 16 && hi == 21) {
        3
    } else if (lo == 4 && hi == 22) || (lo == 5 && hi == 31) || (lo == 4 && hi == 13) ||
        (lo == 5 && hi == 18) || (lo == 15 && hi == 24) || (lo == 16 && hi == 29) ||
        (lo == 2 && hi == 23) || (lo == 7 && hi == 30) || (lo == 3 && hi == 24) ||
        (lo == 6 && hi == 29) || (lo == 1 && hi == 24) || (lo == 8 && hi == 29) ||
        (lo == 21 && hi == 27) || (lo == 10 && hi == 16) {
        4
    } else if (lo == 5 && hi == 21) || (lo == 4 && hi == 23) || (lo == 5 && hi == 30) {
        5
    } else if (lo == 4 && hi == 24) || (lo == 5 && hi == 29) {
        6
    } else if (lo == 2 && hi == 26) || (lo == 7 && hi == 27) || (lo == 0 && hi == 24) ||
        (lo == 9 && hi == 29) {
        7
    } else if (lo == 10 && hi == 27) {
        8
    } else if (lo == 0 && hi == 23) || (lo == 9 && hi == 30) || (lo == 10 && hi == 30) ||
        (lo == 10 && hi == 29) {
        9
    } else if (lo == 1 && hi == 22) || (lo == 8 && hi == 31) {
        10
    } else {
        0
    }
}

/// Cost in points of pressing the two index-finger keys at `a` and `b`, in
/// either order, one after the other; `None` for a pair that is not listed.
#[verifier::opaque]
pub open spec fn index_pair_points(a: int, b: int) -> Option<int> {
    let lo = if a <= b { a } else { b };
    let hi = if a <= b { b } else { a };
    if (lo == 14 && hi == 15) || (lo == 16 && hi == 17) || (lo == 3 && hi == 15) ||
        (lo == 6 && hi == 16) {
        Some(0)
    } else if (lo == 14 && hi == 26) || (lo == 17 && hi == 27) {
        Some(1)
    } else if (lo == 3 && hi == 4) || (lo == 5 && hi == 6) || (lo == 14 && hi == 25) ||
        (lo == 17 && hi == 28) {
        Some(3)
    } else if (lo == 3 && hi == 14) || (lo == 6 && hi == 17) {
        Some(4)
    } else if (lo == 3 && hi == 26) || (lo == 6 && hi == 27) {
        Some(6)
    } else if (lo == 25 && hi == 26) || (lo == 27 && hi == 28) {
        Some(7)
    } else if (lo == 3 && hi == 25) || (lo == 6 && hi == 28) {
        Some(8)
    } else if (lo == 4 && hi == 14) || (lo == 5 && hi == 17) || (lo == 15 && hi == 25) ||
        (lo == 16 && hi == 28) {
        Some(10)
    } else if (lo == 15 && hi == 26) || (lo == 16 && hi == 27) || (lo == 4 && hi == 15) ||
        (lo == 5 && hi == 16) {
        Some(15)
    } else if (lo == 4 && hi == 26) || (lo == 5 && hi == 27) {
        Some(20)
    } else if (lo == 4 && hi == 25) || (lo == 5 && hi == 28) {
        Some(25)
    } else {
        None
    }
}

/// Whether one finger may press `curr` right after `old1` on another key:
/// the index finger only where the two keys have a listed cost, any other
/// finger always. Presses that are not of that kind pass.
pub open spec fn pair_listed(curr: KeyPress, old1: KeyPress) -> bool {
    curr.hand == old1.hand && curr.finger == old1.finger && curr.pos != old1.pos && curr.finger
        == Finger::Index ==> index_pair_points(curr.pos as int, old1.pos as int) is Some
}

/// Whether the press `curr` after `old1` has a cost: its key has a cost of
/// its own, and where the index finger presses two keys in a row, those two
/// have a listed cost.
pub open spec fn presses_covered(curr: KeyPress, old1: Option<KeyPress>) -> bool {
    &&& curr.pos < BASE_KEYS
    &&& old1 matches Some(o1) ==> pair_listed(curr, o1)
}

/// Stretch cost of pressing `curr` right after `old1` with another finger of
/// the same hand.
pub fn calculate_stretch_penalty(curr: &KeyPress, old1: &KeyPress) -> (cost: i128)
    requires
        curr.hand == old1.hand,
        curr.finger != old1.finger,
    ensures
        cost == UNITS_PER_POINT * stretch_points(curr.pos as int, old1.pos as int),
{
    reveal(stretch_points);
    // The order of the two keys does not count.
    let (lo, hi) = if curr.pos <= old1.pos {
        (curr.pos, old1.pos)
    } else {
        (old1.pos, curr.pos)
    };

    // One point.
    if lo == 2 && hi == 25 || lo == 7 && hi == 28 {
        return 1 * UNITS_PER_POINT;
    }
    if lo == 1 && hi == 25 || lo == 8 && hi == 28 {
        return 1 * UNITS_PER_POINT;
    }
    if lo == 11 && hi == 26 || lo == 20 && hi == 27 {
        return 1 * UNITS_PER_POINT;
    }
    if lo == 0 && hi == 15 || lo == 9 && hi == 16 {
        return 1 * UNITS_PER_POINT;
    }
    if lo == 22 && hi == 26 || lo == 27 && hi == 31 {
        return 1 * UNITS_PER_POINT;
    }
    if lo == 11 && hi == 15 || lo == 16 && hi == 20 {
        return 1 * UNITS_PER_POINT;
    }
    if lo == 0 && hi == 4 || lo == 5 && hi == 9 {
        return 1 * UNITS_PER_POINT;
    }
    if lo == 7 && hi == 21 {
        return 1 * UNITS_PER_POINT;
    }
    if lo == 6 && hi == 21 {
        return 1 * UNITS_PER_POINT;
    }
    if lo == 4 && hi == 11 || lo == 5 && hi == 20 {
        return 1 * UNITS_PER_POINT;
    }
    if lo == 15 && hi == 22 || lo == 16 && hi == 31 {
        return 1 * UNITS_PER_POINT;
    }
    if lo == 12 && hi == 26 || lo == 19 && hi == 27 {
        return 1 * UNITS_PER_POINT;
    }
    if lo == 1 && hi == 15 || lo == 8 && hi == 16 {
        return 1 * UNITS_PER_POINT;
    }
    if lo == 23 && hi == 26 || lo == 27 && hi == 30 {
        return 1 * UNITS_PER_POINT;
    }
    if lo == 12 && hi == 15 || lo == 16 && hi == 19 {
        return 1 * UNITS_PER_POINT;
    }
    if lo == 1 && hi == 4 || lo == 5 && hi == 8 {
        return 1 * UNITS_PER_POINT;
    }
    if lo == 10 && hi == 17 {
        return 1 * UNITS_PER_POINT;
    }
    if lo == 21 && hi == 28 {
        return 1 * UNITS_PER_POINT;
    }
    if lo == 8 && hi == 21 {
        return 1 * UNITS_PER_POINT;
    }
    // Two points.
    if lo == 2 && hi == 22 || lo == 7 && hi == 31 {
        return 2 * UNITS_PER_POINT;
    }
    if lo == 3 && hi == 22 || lo == 6 && hi == 31 {
        return 2 * UNITS_PER_POINT;
    }
    if lo == 13 && hi == 26 || lo == 18 && hi == 27 {
        return 2 * UNITS_PER_POINT;
    }
    if lo == 2 && hi == 15 || lo == 7 && hi == 16 {
        return 2 * UNITS_PER_POINT;
    }
    if lo == 24 && hi == 26 || lo == 27 && hi == 29 {
        return 2 * UNITS_PER_POINT;
    }
    if lo == 13 && hi == 15 || lo == 16 && hi == 18 {
        return 2 * UNITS_PER_POINT;
    }
    if lo == 2 && hi == 4 || lo == 5 && hi == 7 {
        return 2 * UNITS_PER_POINT;
    }
    if lo == 11 && hi == 23 || lo == 20 && hi == 30 {
        return 2 * UNITS_PER_POINT;
    }
    if lo == 0 && hi == 12 || lo == 9 && hi == 19 {
        return 2 * UNITS_PER_POINT;
    }
    if lo == 0 && hi == 25 || lo == 9 && hi == 28 {
        return 2 * UNITS_PER_POINT;
    }
    // Three points.
    if lo == 1 && hi == 26 || lo == 8 && hi == 27 {
        return 3 * UNITS_PER_POINT;
    }
    if lo == 15 && hi == 23 || lo == 16 && hi == 30 {
        return 3 * UNITS_PER_POINT;
    }
    if lo == 4 && hi == 12 || lo == 5 && hi == 19 {
        return 3 * UNITS_PER_POINT;
    }
    if lo == 3 && hi == 23 || lo == 6 && hi == 30 {
        return 3 * UNITS_PER_POINT;
    }
    if lo == 10 && hi == 28 {
        return 3 * UNITS_PER_POINT;
    }
    if lo == 0 && hi == 26 || lo == 9 && hi == 27 {
        return 3 * UNITS_PER_POINT;
    }
    if lo == 10 && hi == 18 {
        return 3 * UNITS_PER_POINT;
    }
    if lo == 21 && hi == 29 {
        return 3 * UNITS_PER_POINT;
    }
    if lo == 21 && hi == 30 {
        return 3 * UNITS_PER_POINT;
    }
    if lo == 10 && hi == 19 {
        return 3 * UNITS_PER_POINT;
    }
    if lo == 5 && hi == 10 {
        return 3 * UNITS_PER_POINT;
    }
    if lo == 16 && hi == 21 {
        return 3 * UNITS_PER_POINT;
    }
    // Four points.
    if lo == 4 && hi == 22 || lo == 5 && hi == 31 {
        return 4 * UNITS_PER_POINT;
    }
    if lo == 4 && hi == 13 || lo == 5 && hi == 18 {
        return 4 * UNITS_PER_POINT;
    }
    if lo == 15 && hi == 24 || lo == 16 && hi == 29 {
        return 4 * UNITS_PER_POINT;
    }
    if lo == 2 && hi == 23 || lo == 7 && hi == 30 {
        return 4 * UNITS_PER_POINT;
    }
    if lo == 3 && hi == 24 || lo == 6 && hi == 29 {
        return 4 * UNITS_PER_POINT;
    }
    if lo == 1 && hi == 24 || lo == 8 && hi == 29 {
        return 4 * UNITS_PER_POINT;
    }
    if lo == 21 && hi == 27 {
        return 4 * UNITS_PER_POINT;
    }
    if lo == 10 && hi == 16 {
        return 4 * UNITS_PER_POINT;
    }
    // Five points.
    if lo == 5 && hi == 21 {
        return 5 * UNITS_PER_POINT;
    }
    if lo == 4 && hi == 23 || lo == 5 && hi == 30 {
        return 5 * UNITS_PER_POINT;
    }
    // Six points.
    if lo == 4 && hi == 24 || lo == 5 && hi == 29 {
        return 6 * UNITS_PER_POINT;
    }
    // Seven points.
    if lo == 2 && hi == 26 || lo == 7 && hi == 27 {
        return 7 * UNITS_PER_POINT;
    }
    if lo == 0 && hi == 24 || lo == 9 && hi == 29 {
        return 7 * UNITS_PER_POINT;
    }
    // Eight points.
    if lo == 10 && hi == 27 {
        return 8 * UNITS_PER_POINT;
    }
    // Nine points.
    if lo == 0 && hi == 23 || lo == 9 && hi == 30 {
        return 9 * UNITS_PER_POINT;
    }
    if lo == 10 && hi == 30 {
        return 9 * UNITS_PER_POINT;
    }
    if lo == 10 && hi == 29 {
        return 9 * UNITS_PER_POINT;
    }
    // Ten points.
    if lo == 1 && hi == 22 || lo == 8 && hi == 31 {
        return 10 * UNITS_PER_POINT;
    }
    0
}

/// Whether the second of two presses of one finger jumps over the home row.
pub open spec fn long_jump(curr: Row, prev: Row) -> bool {
    (curr == Row::Top && prev == Row::Bottom) || (curr == Row::Bottom && prev == Row::Top)
}

/// Cost in points of pressing `curr` right after `old1` with the same finger
/// on another key. Between two keys of the index finger the pair decides;
/// nothing is meant by the value that stands here for a pair that is not
/// listed. Any other finger pays five points, fifteen where it jumps over
/// the home row, and five more for each key in the outermost column.
pub open spec fn same_finger_points(curr: KeyPress, old1: KeyPress) -> int {
    if curr.finger == Finger::Index {
        match index_pair_points(curr.pos as int, old1.pos as int) {
            Some(points) => points,
            None => 0,
        }
    } else {
        (if long_jump(curr.row, old1.row) { 15int } else { 5int })
            + (if curr.outer { 5int } else { 0int })
            + (if old1.outer { 5int } else { 0int })
    }
}

/// No pair of index-finger keys costs more than twenty-five points.
pub proof fn lemma_index_pair_range(a: int, b: int)
    ensures
        index_pair_points(a, b) matches Some(points) ==> 0 <= points <= 25,
{
    reveal(index_pair_points);
}

/// No stretch costs more than ten points.
pub proof fn lemma_stretch_range(a: int, b: int)
    ensures
        0 <= stretch_points(a, b) <= 10,
{
    reveal(stretch_points);
}

/// Only the index finger presses a key in one of the two columns between
/// the hands.
pub proof fn lemma_center_is_index(press: KeyPress)
    requires
        press.wf(),
        press.center,
    ensures
        press.finger == Finger::Index,
{
    reveal(key_finger);
    reveal(crate::layout::key_center);
}

/// Whether the index finger may press the keys at `a` and `b` one after the
/// other: whether the two have a listed cost.
pub fn index_pair_listed(a: usize, b: usize) -> (listed: bool)
    ensures
        listed == index_pair_points(a as int, b as int) is Some,
{
    reveal(index_pair_points);
    let (lo, hi) = if a <= b {
        (a, b)
    } else {
        (b, a)
    };
(lo == 14 && hi == 15) || (lo == 16 && hi == 17) || (lo == 3 && hi == 15) ||
        (lo == 6 && hi == 16) || (lo == 14 && hi == 26) || (lo == 17 && hi == 27) ||
        (lo == 3 && hi == 4) || (lo == 5 && hi == 6) || (lo == 14 && hi == 25) ||
        (lo == 17 && hi == 28) || (lo == 3 && hi == 14) || (lo == 6 && hi == 17) ||
        (lo == 3 && hi == 26) || (lo == 6 && hi == 27) || (lo == 25 && hi == 26) ||
        (lo == 27 && hi == 28) || (lo == 3 && hi == 25) || (lo == 6 && hi == 28) ||
        (lo == 4 && hi == 14) || (lo == 5 && hi == 17) || (lo == 15 && hi == 25) ||
        (lo == 16 && hi == 28) || (lo == 15 && hi == 26) || (lo == 16 && hi == 27) ||
        (lo == 4 && hi == 15) || (lo == 5 && hi == 16) || (lo == 4 && hi == 26) ||
        (lo == 5 && hi == 27) || (lo == 4 && hi == 25) || (lo == 5 && hi == 28)
}

/// Same-finger cost of pressing `curr` right after `old1`. The index finger
/// may press only two keys that have a listed cost.
pub fn calculate_same_finger_penalty(curr: &KeyPress, old1: &KeyPress) -> (cost: i128)
    requires
        curr.wf(),
        old1.wf(),
        curr.hand == old1.hand,
        curr.finger == old1.finger,
        curr.pos != old1.pos,
        pair_listed(*curr, *old1),
    ensures
        cost == UNITS_PER_POINT * same_finger_points(*curr, *old1),
{
    reveal(index_pair_points);
    if curr.finger == Finger::Index {
        let (lo, hi) = if curr.pos <= old1.pos {
            (curr.pos, old1.pos)
        } else {
            (old1.pos, curr.pos)
        };
        if lo == 14 && hi == 15 || lo == 16 && hi == 17 {
            return 0 * UNITS_PER_POINT;
        }
        if lo == 3 && hi == 15 || lo == 6 && hi == 16 {
            return 0 * UNITS_PER_POINT;
        }
        if lo == 14 && hi == 26 || lo == 17 && hi == 27 {
            return 1 * UNITS_PER_POINT;
        }
        if lo == 3 && hi == 4 || lo == 5 && hi == 6 {
            return 3 * UNITS_PER_POINT;
        }
        if lo == 14 && hi == 25 || lo == 17 && hi == 28 {
            return 3 * UNITS_PER_POINT;
        }
        if lo == 3 && hi == 14 || lo == 6 && hi == 17 {
            return 4 * UNITS_PER_POINT;
        }
        if lo == 3 && hi == 26 || lo == 6 && hi == 27 {
            return 6 * UNITS_PER_POINT;
        }
        if lo == 25 && hi == 26 || lo == 27 && hi == 28 {
            return 7 * UNITS_PER_POINT;
        }
        if lo == 3 && hi == 25 || lo == 6 && hi == 28 {
            return 8 * UNITS_PER_POINT;
        }
        if lo == 4 && hi == 14 || lo == 5 && hi == 17 {
            return 10 * UNITS_PER_POINT;
        }
        if lo == 15 && hi == 25 || lo == 16 && hi == 28 {
            return 10 * UNITS_PER_POINT;
        }
        if lo == 15 && hi == 26 || lo == 16 && hi == 27 {
            return 15 * UNITS_PER_POINT;
        }
        if lo == 4 && hi == 15 || lo == 5 && hi == 16 {
            return 15 * UNITS_PER_POINT;
        }
        if lo == 4 && hi == 26 || lo == 5 && hi == 27 {
            return 20 * UNITS_PER_POINT;
        }
        // The two pairs that are left.
        return 25 * UNITS_PER_POINT;
    }
    proof {
        // A key between the hands is an index-finger key.
        if curr.center {
            lemma_center_is_index(*curr);
        }
    }
    let long_jump = (curr.row == Row::Top && old1.row == Row::Bottom)
        || (curr.row == Row::Bottom && old1.row == Row::Top);
    let jump: i128 = if long_jump { 15 } else { 5 };
    let outer_curr: i128 = if curr.outer { 5 } else { 0 };
    let outer_old: i128 = if old1.outer { 5 } else { 0 };
    (jump + outer_curr + outer_old) * UNITS_PER_POINT
}

/// Cost in points of pressing one key twice in a row: only the pinky pays.
pub open spec fn same_key_points(finger: Finger) -> int {
    if finger == Finger::Pinky { 3 } else { 0 }
}

/// Cost of pressing the key of `curr` twice in a row.
pub fn calculate_same_key_penalty(curr: &KeyPress, old1: &KeyPress) -> (cost: i128)
    requires
        curr.hand == old1.hand,
        curr.finger == old1.finger,
        curr.pos == old1.pos,
    ensures
        cost == UNITS_PER_POINT * same_key_points(curr.finger),
{
    match curr.finger {
        Finger::Pinky => 3 * UNITS_PER_POINT,
        _ => 0,
    }
}

/// Cost of pressing the key at `pos` by itself. Only the keys below
/// `BASE_KEYS` have such a cost.
pub fn base_penalty(pos: usize) -> (cost: i128)
    requires
        pos < BASE_KEYS,
    ensures
        cost == base_units(pos as int),
{
    reveal(base_units);
    let costs: [i128; 34] = [
        140, 10, 10, 60, 100, 100, 60, 10, 10, 140, 180,
        50, 0, 0, 0, 60, 60, 0, 0, 0, 50, 160,
        120, 80, 60, 40, 80, 80, 40, 60, 80, 120,
        0, 0,
    ];
    costs[pos]
}

} // verus!
