//! The cost of typing a text on a layout.
//!
//! Costs are whole numbers of units, forty units to the point, so that every
//! weight of the model (the smallest are a tenth and an eighth of a point)
//! is exact.

use vstd::prelude::*;
use vstd::arithmetic::mul::lemma_mul_is_distributive_add;
use crate::layout::Finger;
use crate::layout::Row;
use crate::layout::KeyPress;
use crate::weights::UNITS_PER_POINT;
use crate::weights::base_units;
use crate::weights::lemma_index_pair_range;
use crate::weights::presses_covered;
pub use crate::weights::index_pair_listed;
use crate::weights::BASE_KEYS;
use crate::weights::lemma_stretch_range;
use crate::weights::long_jump;
use crate::weights::same_finger_points;
use crate::weights::same_key_points;
use crate::weights::stretch_points;
pub use crate::weights::base_penalty;
pub use crate::weights::calculate_same_finger_penalty;
pub use crate::weights::calculate_same_key_penalty;
pub use crate::weights::calculate_stretch_penalty;
use crate::quartad::Quartad;
use crate::tally::Tally;
use crate::tally::added;
use crate::tally::amount_of;
use crate::tally::lemma_find;
use crate::tally::total;
pub use crate::corpus::QuartadList;
pub use crate::corpus::prepare_quartad_list;
use crate::corpus::lemma_total_bounds;
use crate::corpus::lemma_total_nonnegative;
use crate::layout::Layout;
use crate::layout::LayoutPosMap;
use crate::layout::map_wf;
use crate::layout::position_map;

verus! {

/// Place of a finger on its hand, counted from the thumb outwards.
pub open spec fn finger_rank(f: Finger) -> int {
    match f {
        Finger::Thumb => 0,
        Finger::Index => 1,
        Finger::Middle => 2,
        Finger::Ring => 3,
        Finger::Pinky => 4,
    }
}

/// Whether pressing `curr` after `prev` on one hand moves away from the thumb.
pub fn is_roll_out(curr: Finger, prev: Finger) -> (b: bool)
    ensures
        b == (finger_rank(prev) < finger_rank(curr)),
{
    match curr {
        Finger::Thumb => false,
        Finger::Index => prev == Finger::Thumb,
        Finger::Middle => prev == Finger::Thumb || prev == Finger::Index,
        Finger::Ring => prev != Finger::Pinky && prev != Finger::Ring,
        Finger::Pinky => prev != Finger::Pinky,
    }
}

/// Whether pressing `curr` after `prev` on one hand moves towards the thumb.
pub fn is_roll_in(curr: Finger, prev: Finger) -> (b: bool)
    ensures
        b == (finger_rank(prev) > finger_rank(curr)),
{
    match curr {
        Finger::Thumb => prev != Finger::Thumb,
        Finger::Index => prev != Finger::Thumb && prev != Finger::Index,
        Finger::Middle => prev == Finger::Pinky || prev == Finger::Ring,
        Finger::Ring => prev == Finger::Pinky,
        Finger::Pinky => false,
    }
}

/// The rule that charges each key by itself.
pub const BASE: usize = 0;

/// The rule that charges four keys in a row on alternating hands.
pub const ALTERNATING_HAND: usize = 1;

/// The rule that charges one finger on two keys in a row.
pub const SAME_FINGER: usize = 2;

/// The rule that charges a stretch between two fingers of a hand.
pub const STRETCH: usize = 3;

/// The rule that charges four keys in a row on one hand.
pub const SAME_HAND: usize = 4;

/// The rule that charges a roll that turns back at the pinky.
pub const ROLL_REVERSAL: usize = 5;

/// The rule that charges rolling away from the thumb.
pub const ROLL_OUT: usize = 6;

/// The rule that rewards rolling towards the thumb.
pub const ROLL_IN: usize = 7;

/// The rule that charges a finger that jumps over the home row with another
/// key in between.
pub const LONG_JUMP_SANDWICH: usize = 8;

/// The rule that charges a roll that crosses all three rows.
pub const TWIST: usize = 9;

/// The rule that charges ring and pinky taking turns.
pub const PINKY_RING: usize = 10;

/// The rule that charges a key pressed twice in a row.
pub const SAME_KEY: usize = 11;

/// The number of rules.
pub const RULE_COUNT: usize = 12;

/// Cost of four keys in a row on alternating hands: half a point.
pub const ALTERNATING_HAND_UNITS: i128 = 20;

/// Cost of four keys in a row on one hand: a tenth of a point.
pub const SAME_HAND_UNITS: i128 = 4;

/// Cost of a roll that turns back at the pinky: twenty points.
pub const ROLL_REVERSAL_UNITS: i128 = 800;

/// Cost of rolling away from the thumb: an eighth of a point.
pub const ROLL_OUT_UNITS: i128 = 5;

/// Cost of rolling towards the thumb: an eighth of a point is given back.
pub const ROLL_IN_UNITS: i128 = -5;

/// Cost of a long jump with a key in between: three points.
pub const LONG_JUMP_SANDWICH_UNITS: i128 = 120;

/// Cost of a roll across all three rows: ten points.
pub const TWIST_UNITS: i128 = 400;

/// Cost of ring and pinky taking turns: fifteen points.
pub const PINKY_RING_UNITS: i128 = 600;

/// No rule charges or rewards more than this for one window.
pub const MAX_RULE_UNITS: i128 = 1000;

/// Whether three presses of one hand roll up to the pinky and turn back:
/// ring, pinky, middle, or middle, pinky, ring.
pub open spec fn is_roll_reversal(curr: Finger, old1: Finger, old2: Finger) -> bool {
    (curr == Finger::Middle && old1 == Finger::Pinky && old2 == Finger::Ring) || (curr
        == Finger::Ring && old1 == Finger::Pinky && old2 == Finger::Middle)
}

/// Whether three presses of one hand cross the three letter rows in one
/// direction while the fingers roll in one direction.
pub open spec fn is_twist(curr: KeyPress, old1: KeyPress, old2: KeyPress) -> bool {
    ((curr.row == Row::Top && old1.row == Row::Home && old2.row == Row::Bottom) || (curr.row
        == Row::Bottom && old1.row == Row::Home && old2.row == Row::Top)) && ((finger_rank(
        old1.finger,
    ) < finger_rank(curr.finger) && finger_rank(old2.finger) < finger_rank(old1.finger)) || (
    finger_rank(old1.finger) > finger_rank(curr.finger) && finger_rank(old2.finger) > finger_rank(
        old1.finger,
    )))
}

/// Whether ring and pinky take turns over three presses.
pub open spec fn is_pinky_ring(curr: Finger, old1: Finger, old2: Finger) -> bool {
    (curr == Finger::Ring && old1 == Finger::Pinky && old2 == Finger::Ring) || (curr
        == Finger::Pinky && old1 == Finger::Ring && old2 == Finger::Pinky)
}

/// How many key presses a rule looks at.
pub open spec fn rule_arity(rule: int) -> int {
    if rule == BASE {
        1
    } else if rule == SAME_FINGER || rule == STRETCH || rule == ROLL_OUT || rule == ROLL_IN || rule
        == SAME_KEY {
        2
    } else if rule == ROLL_REVERSAL || rule == TWIST || rule == PINKY_RING || rule
        == LONG_JUMP_SANDWICH {
        3
    } else {
        4
    }
}

/// Whether a rule applies to the press `curr` that follows `old1`, `old2` and
/// `old3`, the latest first. A rule looks no further back than the first
/// press that is missing.
pub open spec fn rule_applies(
    rule: int,
    curr: KeyPress,
    old1: Option<KeyPress>,
    old2: Option<KeyPress>,
    old3: Option<KeyPress>,
) -> bool {
    if rule == BASE {
        true
    } else if old1 is None {
        false
    } else {
        let o1 = old1->0;
        if rule == SAME_FINGER {
            curr.hand == o1.hand && curr.finger == o1.finger && curr.pos != o1.pos
        } else if rule == STRETCH {
            curr.hand == o1.hand && curr.finger != o1.finger
        } else if rule == ROLL_OUT {
            curr.hand == o1.hand && finger_rank(o1.finger) < finger_rank(curr.finger)
        } else if rule == ROLL_IN {
            curr.hand == o1.hand && finger_rank(o1.finger) > finger_rank(curr.finger)
        } else if rule == SAME_KEY {
            curr.hand == o1.hand && curr.pos == o1.pos
        } else if old2 is None {
            false
        } else {
            let o2 = old2->0;
            let one_hand = curr.hand == o1.hand && o1.hand == o2.hand;
            if rule == ROLL_REVERSAL {
                one_hand && is_roll_reversal(curr.finger, o1.finger, o2.finger)
            } else if rule == TWIST {
                one_hand && is_twist(curr, o1, o2)
            } else if rule == PINKY_RING {
                one_hand && is_pinky_ring(curr.finger, o1.finger, o2.finger)
            } else if rule == LONG_JUMP_SANDWICH {
                curr.hand == o2.hand && curr.finger == o2.finger && long_jump(curr.row, o2.row)
            } else if old3 is None {
                false
            } else {
                let o3 = old3->0;
                if rule == SAME_HAND {
                    one_hand && o2.hand == o3.hand
                } else if rule == ALTERNATING_HAND {
                    curr.hand != o1.hand && o1.hand != o2.hand && o2.hand != o3.hand
                } else {
                    false
                }
            }
        }
    }
}

/// What a rule charges where it applies.
pub open spec fn rule_cost(rule: int, curr: KeyPress, old1: Option<KeyPress>) -> int {
    if rule == BASE {
        base_units(curr.pos as int)
    } else if rule == SAME_FINGER {
        UNITS_PER_POINT * same_finger_points(curr, old1->0)
    } else if rule == STRETCH {
        UNITS_PER_POINT * stretch_points(curr.pos as int, (old1->0).pos as int)
    } else if rule == ROLL_OUT {
        ROLL_OUT_UNITS as int
    } else if rule == ROLL_IN {
        ROLL_IN_UNITS as int
    } else if rule == SAME_KEY {
        UNITS_PER_POINT * same_key_points(curr.finger)
    } else if rule == ROLL_REVERSAL {
        ROLL_REVERSAL_UNITS as int
    } else if rule == TWIST {
        TWIST_UNITS as int
    } else if rule == PINKY_RING {
        PINKY_RING_UNITS as int
    } else if rule == LONG_JUMP_SANDWICH {
        LONG_JUMP_SANDWICH_UNITS as int
    } else if rule == SAME_HAND {
        SAME_HAND_UNITS as int
    } else if rule == ALTERNATING_HAND {
        ALTERNATING_HAND_UNITS as int
    } else {
        0
    }
}

/// What a rule charges for one occurrence of a window.
pub open spec fn rule_units(
    rule: int,
    curr: KeyPress,
    old1: Option<KeyPress>,
    old2: Option<KeyPress>,
    old3: Option<KeyPress>,
) -> int {
    if rule_applies(rule, curr, old1, old2, old3) {
        rule_cost(rule, curr, old1)
    } else {
        0
    }
}

/// What all rules together charge for one occurrence of a window.
pub open spec fn window_units(
    curr: KeyPress,
    old1: Option<KeyPress>,
    old2: Option<KeyPress>,
    old3: Option<KeyPress>,
) -> int {
    rules_units(RULE_COUNT as int, curr, old1, old2, old3)
}

/// What the rules below `n` together charge for one occurrence of a window.
pub open spec fn rules_units(
    n: int,
    curr: KeyPress,
    old1: Option<KeyPress>,
    old2: Option<KeyPress>,
    old3: Option<KeyPress>,
) -> int
    decreases n,
{
    if n <= 0 {
        0
    } else {
        rules_units(n - 1, curr, old1, old2, old3) + rule_units(n - 1, curr, old1, old2, old3)
    }
}

/// Whether a rule enters what it charges for a window among its costliest
/// windows. The two rules that look a cost up by the pair of keys, and the
/// rule for a key pressed twice, enter only what costs something.
pub open spec fn rule_records(
    rule: int,
    count: int,
    curr: KeyPress,
    old1: Option<KeyPress>,
    old2: Option<KeyPress>,
    old3: Option<KeyPress>,
) -> bool {
    rule_applies(rule, curr, old1, old2, old3) && (rule == SAME_FINGER || rule == STRETCH || rule
        == SAME_KEY ==> count * rule_cost(rule, curr, old1) > 0)
}

/// Whether the key presses are such that the rules can be applied: each is
/// a key of the board, `window` holds a character for each, and the last
/// press has a cost.
pub open spec fn presses_wf(
    window: Seq<char>,
    curr: KeyPress,
    old1: Option<KeyPress>,
    old2: Option<KeyPress>,
    old3: Option<KeyPress>,
) -> bool {
    &&& window.len() >= 1
    &&& curr.wf()
    &&& presses_covered(curr, old1)
    &&& old1 matches Some(o1) ==> o1.wf() && window.len() >= 2
    &&& old1 is Some ==> (old2 matches Some(o2) ==> o2.wf() && window.len() >= 3)
    &&& old1 is Some && old2 is Some ==> (old3 matches Some(o3) ==> o3.wf() && window.len() >= 4)
}

/// No rule charges more than `MAX_RULE_UNITS` for a window, and none but
/// the reward for rolling in charges less than nothing.
pub proof fn lemma_rule_bounds(
    rule: int,
    curr: KeyPress,
    old1: Option<KeyPress>,
    old2: Option<KeyPress>,
    old3: Option<KeyPress>,
)
    requires
        curr.wf(),
        old1 matches Some(o1) ==> o1.wf(),
    ensures
        -MAX_RULE_UNITS <= rule_units(rule, curr, old1, old2, old3) <= MAX_RULE_UNITS,
        rule != ROLL_IN ==> rule_units(rule, curr, old1, old2, old3) >= 0,
        rule == ROLL_IN ==> rule_units(rule, curr, old1, old2, old3) >= ROLL_IN_UNITS,
{
    if rule == SAME_FINGER && rule_applies(rule, curr, old1, old2, old3) {
        lemma_index_pair_range(curr.pos as int, (old1->0).pos as int);
    }
    if rule == STRETCH && rule_applies(rule, curr, old1, old2, old3) {
        lemma_stretch_range(curr.pos as int, (old1->0).pos as int);
    }
    if rule == BASE {
        reveal(base_units);
    }
}

/// All rules together charge between the reward for rolling in and twelve
/// times the most that one rule charges.
pub proof fn lemma_window_bounds(
    curr: KeyPress,
    old1: Option<KeyPress>,
    old2: Option<KeyPress>,
    old3: Option<KeyPress>,
)
    requires
        curr.wf(),
        old1 matches Some(o1) ==> o1.wf(),
    ensures
        ROLL_IN_UNITS <= window_units(curr, old1, old2, old3) <= RULE_COUNT * MAX_RULE_UNITS,
{
    reveal_with_fuel(rules_units, 13);
    lemma_rule_bounds(0, curr, old1, old2, old3);
    lemma_rule_bounds(1, curr, old1, old2, old3);
    lemma_rule_bounds(2, curr, old1, old2, old3);
    lemma_rule_bounds(3, curr, old1, old2, old3);
    lemma_rule_bounds(4, curr, old1, old2, old3);
    lemma_rule_bounds(5, curr, old1, old2, old3);
    lemma_rule_bounds(6, curr, old1, old2, old3);
    lemma_rule_bounds(7, curr, old1, old2, old3);
    lemma_rule_bounds(8, curr, old1, old2, old3);
    lemma_rule_bounds(9, curr, old1, old2, old3);
    lemma_rule_bounds(10, curr, old1, old2, old3);
    lemma_rule_bounds(11, curr, old1, old2, old3);
}

/// A rule of the cost model.
pub struct KeyPenalty<'a> {
    name: &'a str,
}

/// What one rule charged for a text: the sum, and the sum by window for each
/// window that the rule charged.
pub struct KeyPenaltyResult<'a> {
    pub name: &'a str,
    pub total: i128,
    pub high_keys: Tally,
}

/// The name of each rule.
pub open spec fn rule_name(rule: int) -> Seq<char> {
    if rule == BASE {
        "base"@
    } else if rule == ALTERNATING_HAND {
        "alternating hand"@
    } else if rule == SAME_FINGER {
        "same finger"@
    } else if rule == STRETCH {
        "stretch"@
    } else if rule == SAME_HAND {
        "same hand"@
    } else if rule == ROLL_REVERSAL {
        "roll reversal"@
    } else if rule == ROLL_OUT {
        "roll out"@
    } else if rule == ROLL_IN {
        "roll in"@
    } else if rule == LONG_JUMP_SANDWICH {
        "long jump sandwich"@
    } else if rule == TWIST {
        "twist"@
    } else if rule == PINKY_RING {
        "pinky/ring alternation"@
    } else {
        "same key"@
    }
}

impl<'a> KeyPenalty<'a> {
    /// The name of the rule.
    pub closed spec fn spec_name(&self) -> Seq<char> {
        self.name@
    }

    /// The name of the rule.
    pub fn name(&self) -> (name: &'a str)
        ensures
            name@ == self.spec_name(),
    {
        self.name
    }
}

/// The rules of the cost model, each at the place that its number gives.
pub fn init<'a>() -> (penalties: Vec<KeyPenalty<'a>>)
    ensures
        penalties@.len() == RULE_COUNT,
        forall|rule: int|
            0 <= rule < RULE_COUNT ==> (#[trigger] penalties@[rule]).spec_name() == rule_name(rule),
{
    let mut penalties: Vec<KeyPenalty<'a>> = Vec::new();

    // A key by itself: what it costs to reach it.
    penalties.push(KeyPenalty { name: "base" });

    // Half a point for four keys in a row on alternating hands.
    penalties.push(KeyPenalty { name: "alternating hand" });

    // One finger on two different keys in a row: five points, fifteen where
    // it jumps between the top and the bottom row, five more for each outer
    // key. The index finger has a cost for each pair of its keys, since it
    // moves between some of them with ease.
    penalties.push(KeyPenalty { name: "same finger" });

    // Two fingers of one hand on keys that lie awkwardly for them: a cost for
    // each such pair of keys.
    penalties.push(KeyPenalty { name: "stretch" });

    // A tenth of a point for four keys in a row on one hand.
    penalties.push(KeyPenalty { name: "same hand" });

    // Twenty points for a roll that turns back at the pinky: ring, pinky,
    // middle, or middle, pinky, ring.
    penalties.push(KeyPenalty { name: "roll reversal" });

    // An eighth of a point for rolling away from the thumb.
    penalties.push(KeyPenalty { name: "roll out" });

    // An eighth of a point given back for rolling towards the thumb.
    penalties.push(KeyPenalty { name: "roll in" });

    // Three points for a finger that jumps between the top and the bottom
    // row with one key of another finger in between.
    penalties.push(KeyPenalty { name: "long jump sandwich" });

    // Ten points for three keys in a row that go up or down the three rows
    // in one roll.
    penalties.push(KeyPenalty { name: "twist" });

    // Fifteen points for ring and pinky of one hand taking turns.
    penalties.push(KeyPenalty { name: "pinky/ring alternation" });

    // Pressing one key twice in a row: harder for the pinky than for the
    // other fingers.
    penalties.push(KeyPenalty { name: "same key" });

    penalties
}

impl<'a> KeyPenaltyResult<'a> {
    /// The sums by window are in order.
    pub open spec fn wf(&self) -> bool {
        self.high_keys.wf()
    }

    /// The sum and every sum by window lie within `limit` of nothing.
    pub open spec fn within(&self, limit: int) -> bool {
        &&& -limit <= self.total <= limit
        &&& forall|i: int|
            0 <= i < self.high_keys@.len() ==> -limit <= (#[trigger] self.high_keys@[i]).1 <= limit
    }

    /// Whether `self` is `before` with what `rule` charges for `count`
    /// occurrences of `window` entered.
    pub open spec fn noted(
        &self,
        before: &KeyPenaltyResult<'a>,
        rule: int,
        window: Seq<char>,
        count: int,
        curr: KeyPress,
        old1: Option<KeyPress>,
        old2: Option<KeyPress>,
        old3: Option<KeyPress>,
    ) -> bool {
        let amount = count * rule_units(rule, curr, old1, old2, old3);
        &&& self.wf()
        &&& self.name@ == before.name@
        &&& self.total == before.total + amount
        &&& self.high_keys@ == if rule_records(rule, count, curr, old1, old2, old3) {
            added(
                before.high_keys@,
                window.subrange(window.len() - rule_arity(rule), window.len() as int),
                amount,
            )
        } else {
            before.high_keys@
        }
    }
}

/// What `count` occurrences cost at `units` each.
#[verifier::opaque]
spec fn scaled(count: int, units: int) -> int {
    count * units
}

/// `cost` for each of `count` occurrences.
fn times(cost: i128, count: usize) -> (product: i128)
    requires
        -MAX_RULE_UNITS <= cost <= MAX_RULE_UNITS,
    ensures
        product == scaled(count as int, cost as int),
        -1000 * count <= product <= 1000 * count,
        cost >= 0 ==> product >= 0,
        product > 0 <==> count * cost > 0,
{
    reveal(scaled);
    assert(-1000 * count <= cost * count <= 1000 * count) by (nonlinear_arith)
        requires
            -1000 <= cost <= 1000,
            0 <= count,
    ;
    assert(cost >= 0 ==> cost * count >= 0) by (nonlinear_arith)
        requires
            0 <= count,
    ;
    assert(cost * count == count * cost) by (nonlinear_arith);
    cost * (count as i128)
}

/// Enters `amount` for `window` under the rule at `rule`.
fn note<'a>(result: &mut Vec<KeyPenaltyResult<'a>>, rule: usize, window: Quartad, amount: i128)
    requires
        rule < old(result)@.len(),
        old(result)@[rule as int].wf(),
        window.wf(),
        i128::MIN <= old(result)@[rule as int].total + amount <= i128::MAX,
        i128::MIN <= amount_of(old(result)@[rule as int].high_keys@, window@) + amount
            <= i128::MAX,
    ensures
        final(result)@.len() == old(result)@.len(),
        forall|i: int|
            0 <= i < old(result)@.len() && i != rule ==> final(result)@[i] == old(result)@[i],
        final(result)@[rule as int].wf(),
        final(result)@[rule as int].name@ == old(result)@[rule as int].name@,
        final(result)@[rule as int].total == old(result)@[rule as int].total + amount,
        final(result)@[rule as int].high_keys@ == added(
            old(result)@[rule as int].high_keys@,
            window@,
            amount as int,
        ),
{
    let entry = &mut result[rule];
    entry.high_keys.add(window, amount);
    entry.total = entry.total + amount;
}

/// The last key press of a window with up to three presses before it, the
/// latest first.
pub struct Presses {
    pub curr: KeyPress,
    pub old1: Option<KeyPress>,
    pub old2: Option<KeyPress>,
    pub old3: Option<KeyPress>,
}

impl Presses {
    /// What the rule at `rule` charges for one occurrence.
    pub open spec fn units(self, rule: int) -> int {
        rule_units(rule, self.curr, self.old1, self.old2, self.old3)
    }

    /// Whether the rule at `rule` applies.
    pub open spec fn applies(self, rule: int) -> bool {
        rule_applies(rule, self.curr, self.old1, self.old2, self.old3)
    }
}

/// Where a result lies within `limit` of nothing, so does the amount that
/// it holds for any window.
pub proof fn lemma_within_room(result: KeyPenaltyResult, limit: int, window: Seq<char>)
    requires
        result.within(limit),
        0 <= limit,
    ensures
        -limit <= amount_of(result.high_keys@, window) <= limit,
{
    crate::tally::lemma_find(result.high_keys@, window);
}

/// A rule that does not apply leaves its result as it is.
proof fn lemma_skipped(
    result: KeyPenaltyResult,
    rule: int,
    window: Seq<char>,
    count: int,
    presses: Presses,
)
    requires
        result.wf(),
        !presses.applies(rule),
    ensures
        result.noted(
            &result,
            rule,
            window,
            count,
            presses.curr,
            presses.old1,
            presses.old2,
            presses.old3,
        ),
{
}

/// Charges what the rule at `rule` costs for `count` occurrences of the
/// window `string`, and enters the charge at the rule's place where details
/// are kept. A rule that does not apply charges nothing.
fn charge<'a>(
    rule: usize,
    applies: bool,
    cost: i128,
    count: usize,
    string: &Quartad,
    result: &mut Vec<KeyPenaltyResult<'a>>,
    detailed: bool,
    Ghost(presses): Ghost<Presses>,
) -> (penalty: i128)
    requires
        rule < RULE_COUNT,
        applies == presses.applies(rule as int),
        applies ==> cost == rule_cost(rule as int, presses.curr, presses.old1),
        string.wf(),
        presses_wf(string@, presses.curr, presses.old1, presses.old2, presses.old3),
        detailed ==> rule < old(result)@.len() && old(result)@[rule as int].wf() && old(
            result,
        )@[rule as int].within(i128::MAX - MAX_RULE_UNITS * count),
    ensures
        penalty == scaled(count as int, presses.units(rule as int)),
        final(result)@.len() == old(result)@.len(),
        forall|i: int|
            0 <= i < old(result)@.len() && i != rule ==> final(result)@[i] == old(result)@[i],
        detailed ==> final(result)@[rule as int].noted(
            &old(result)@[rule as int],
            rule as int,
            string@,
            count as int,
            presses.curr,
            presses.old1,
            presses.old2,
            presses.old3,
        ),
        !detailed ==> final(result)@ == old(result)@,
{
    proof {
        reveal(scaled);
    }
    if !applies {
        return 0;
    }
    proof {
        lemma_rule_bounds(rule as int, presses.curr, presses.old1, presses.old2, presses.old3);
    }
    let penalty = times(cost, count);
    let only_positive = rule == SAME_FINGER || rule == STRETCH || rule == SAME_KEY;
    if detailed && (!only_positive || penalty > 0) {
        let window = if rule == BASE {
            string.suffix(1)
        } else if rule == SAME_FINGER || rule == STRETCH || rule == ROLL_OUT || rule == ROLL_IN
            || rule == SAME_KEY {
            string.suffix(2)
        } else if rule == SAME_HAND || rule == ALTERNATING_HAND {
            string.suffix(4)
        } else {
            string.suffix(3)
        };
        proof {
            lemma_room(result@[rule as int], count as int, penalty as int, window@);
        }
        note(result, rule, window, penalty);
    }
    penalty
}

/// A result that leaves room for the charges of `count` occurrences can
/// take one such charge.
proof fn lemma_room(result: KeyPenaltyResult, count: int, penalty: int, window: Seq<char>)
    requires
        0 <= count <= usize::MAX,
        result.within(i128::MAX - MAX_RULE_UNITS * count),
        -1000 * count <= penalty <= 1000 * count,
    ensures
        i128::MIN <= result.total + penalty <= i128::MAX,
        i128::MIN <= amount_of(result.high_keys@, window) + penalty <= i128::MAX,
{
    lemma_within_room(result, i128::MAX - MAX_RULE_UNITS * count, window);
}

/// Adding the charge of one more rule keeps the sum a multiple of the count
/// and within the range of its type.
proof fn lemma_charged(count: int, units: int, cost: int)
    requires
        0 <= count <= usize::MAX,
        -RULE_COUNT * MAX_RULE_UNITS <= units <= RULE_COUNT * MAX_RULE_UNITS,
        -RULE_COUNT * MAX_RULE_UNITS <= units + cost <= RULE_COUNT * MAX_RULE_UNITS,
    ensures
        scaled(count, units + cost) == scaled(count, units) + scaled(count, cost),
        i128::MIN <= scaled(count, units) <= i128::MAX,
        i128::MIN <= scaled(count, units + cost) <= i128::MAX,
{
    reveal(scaled);
    assert(count * (units + cost) == count * units + count * cost) by (nonlinear_arith);
    assert(-12000 * count <= count * units <= 12000 * count) by (nonlinear_arith)
        requires
            0 <= count,
            -12000 <= units <= 12000,
    ;
    assert(-12000 * count <= count * (units + cost) <= 12000 * count) by (nonlinear_arith)
        requires
            0 <= count,
            -12000 <= units + cost <= 12000,
    ;
}

impl Presses {
    /// What the rules that look at `arity` key presses or more charge
    /// together for one occurrence.
    pub open spec fn units_from(self, arity: int) -> int {
        (if arity <= 1 {
            self.units(BASE as int)
        } else {
            0
        }) + (if arity <= 2 {
            self.units(SAME_FINGER as int) + self.units(STRETCH as int) + self.units(
                ROLL_OUT as int,
            ) + self.units(ROLL_IN as int) + self.units(SAME_KEY as int)
        } else {
            0
        }) + (if arity <= 3 {
            self.units(ROLL_REVERSAL as int) + self.units(TWIST as int) + self.units(
                PINKY_RING as int,
            ) + self.units(LONG_JUMP_SANDWICH as int)
        } else {
            0
        }) + (if arity <= 4 {
            self.units(SAME_HAND as int) + self.units(ALTERNATING_HAND as int)
        } else {
            0
        })
    }

    /// The charges by number of key presses add up to the charge of all
    /// rules, and lie within what the rules can charge.
    pub proof fn lemma_units_from(self)
        requires
            self.curr.wf(),
            self.old1 matches Some(o1) ==> o1.wf(),
        ensures
            self.units_from(1) == window_units(self.curr, self.old1, self.old2, self.old3),
            forall|arity: int|
                -RULE_COUNT * MAX_RULE_UNITS <= #[trigger] self.units_from(arity) <= RULE_COUNT
                    * MAX_RULE_UNITS,
            forall|rule: int|
                0 <= rule < RULE_COUNT ==> -MAX_RULE_UNITS <= #[trigger] self.units(rule)
                    <= MAX_RULE_UNITS,
    {
        reveal_with_fuel(rules_units, 13);
        let presses = self;
        lemma_rule_bounds(BASE as int, presses.curr, presses.old1, presses.old2, presses.old3);
        lemma_rule_bounds(SAME_FINGER as int, presses.curr, presses.old1, presses.old2, presses.old3);
        lemma_rule_bounds(STRETCH as int, presses.curr, presses.old1, presses.old2, presses.old3);
        lemma_rule_bounds(ROLL_OUT as int, presses.curr, presses.old1, presses.old2, presses.old3);
        lemma_rule_bounds(ROLL_IN as int, presses.curr, presses.old1, presses.old2, presses.old3);
        lemma_rule_bounds(SAME_KEY as int, presses.curr, presses.old1, presses.old2, presses.old3);
        lemma_rule_bounds(ROLL_REVERSAL as int, presses.curr, presses.old1, presses.old2, presses.old3);
        lemma_rule_bounds(TWIST as int, presses.curr, presses.old1, presses.old2, presses.old3);
        lemma_rule_bounds(PINKY_RING as int, presses.curr, presses.old1, presses.old2, presses.old3);
        lemma_rule_bounds(LONG_JUMP_SANDWICH as int, presses.curr, presses.old1, presses.old2, presses.old3);
        lemma_rule_bounds(SAME_HAND as int, presses.curr, presses.old1, presses.old2, presses.old3);
        lemma_rule_bounds(ALTERNATING_HAND as int, presses.curr, presses.old1, presses.old2, presses.old3);
    }
}

/// The cost of `count` occurrences of the window `string` under the rules
/// that look at four key presses.
fn four_key_penalty<'a>(
    string: &Quartad,
    count: usize,
    curr: &KeyPress,
    old1: &KeyPress,
    old2: &KeyPress,
    old3: &Option<KeyPress>,
    result: &mut Vec<KeyPenaltyResult<'a>>,
    detailed: bool,
    Ghost(presses): Ghost<Presses>,
) -> (total: i128)
    requires
        presses == (Presses { curr: *curr, old1: Some(*old1), old2: Some(*old2), old3: *old3 }),
        string.wf(),
        presses_wf(string@, presses.curr, presses.old1, presses.old2, presses.old3),
        detailed ==> old(result)@.len() >= RULE_COUNT,
        detailed ==> forall|rule: int|
            0 <= rule < RULE_COUNT && rule_arity(rule) >= 4 ==> (#[trigger] old(
                result,
            )@[rule]).wf() && old(result)@[rule].within(i128::MAX - MAX_RULE_UNITS * count),
    ensures
        total == scaled(count as int, presses.units_from(4)),
        final(result)@.len() == old(result)@.len(),
        !detailed ==> final(result)@ == old(result)@,
        detailed ==> forall|rule: int|
            0 <= rule < RULE_COUNT ==> if rule_arity(rule) >= 4 {
                (#[trigger] final(result)@[rule]).noted(
                    &old(result)@[rule],
                    rule,
                    string@,
                    count as int,
                    presses.curr,
                    presses.old1,
                    presses.old2,
                    presses.old3,
                )
            } else {
                final(result)@[rule] == old(result)@[rule]
            },
        forall|i: int|
            RULE_COUNT <= i < old(result)@.len() ==> final(result)@[i] == old(result)@[i],
{
    let ghost mut units: int = 0;
    let mut total: i128 = 0;
    proof {
        assert(scaled(count as int, 0) == 0) by {
            reveal(scaled);
        }
        presses.lemma_units_from();
    }
    let old3 = match old3 {
        Some(o) => o,
        None => {
            proof {
                if detailed {
                    lemma_skipped(result@[SAME_HAND as int], SAME_HAND as int, string@, count as int, presses);
                    lemma_skipped(result@[ALTERNATING_HAND as int], ALTERNATING_HAND as int, string@, count as int, presses);
                }
            }
            return total;
        },
    };

    // All on one hand.
    let same_hand = curr.hand == old1.hand && old1.hand == old2.hand && old2.hand == old3.hand;
    let penalty = charge(
        SAME_HAND,
        same_hand,
        SAME_HAND_UNITS,
        count,
        string,
        result,
        detailed,
        Ghost(presses),
    );
    proof {
        lemma_charged(count as int, units, presses.units(SAME_HAND as int));
        units = units + presses.units(SAME_HAND as int);
    }
    total = total + penalty;

    // Hand after hand.
    let alternating = curr.hand != old1.hand && old1.hand != old2.hand && old2.hand != old3.hand;
    let penalty = charge(
        ALTERNATING_HAND,
        alternating,
        ALTERNATING_HAND_UNITS,
        count,
        string,
        result,
        detailed,
        Ghost(presses),
    );
    proof {
        lemma_charged(count as int, units, presses.units(ALTERNATING_HAND as int));
        units = units + presses.units(ALTERNATING_HAND as int);
    }
    total = total + penalty;
    total
}

/// The cost of `count` occurrences of the window `string` under the rules
/// that look at three key presses or more.
fn three_key_penalty<'a>(
    string: &Quartad,
    count: usize,
    curr: &KeyPress,
    old1: &KeyPress,
    old2: &Option<KeyPress>,
    old3: &Option<KeyPress>,
    result: &mut Vec<KeyPenaltyResult<'a>>,
    detailed: bool,
    Ghost(presses): Ghost<Presses>,
) -> (total: i128)
    requires
        presses == (Presses { curr: *curr, old1: Some(*old1), old2: *old2, old3: *old3 }),
        string.wf(),
        presses_wf(string@, presses.curr, presses.old1, presses.old2, presses.old3),
        detailed ==> old(result)@.len() >= RULE_COUNT,
        detailed ==> forall|rule: int|
            0 <= rule < RULE_COUNT && rule_arity(rule) >= 3 ==> (#[trigger] old(
                result,
            )@[rule]).wf() && old(result)@[rule].within(i128::MAX - MAX_RULE_UNITS * count),
    ensures
        total == scaled(count as int, presses.units_from(3)),
        final(result)@.len() == old(result)@.len(),
        !detailed ==> final(result)@ == old(result)@,
        detailed ==> forall|rule: int|
            0 <= rule < RULE_COUNT ==> if rule_arity(rule) >= 3 {
                (#[trigger] final(result)@[rule]).noted(
                    &old(result)@[rule],
                    rule,
                    string@,
                    count as int,
                    presses.curr,
                    presses.old1,
                    presses.old2,
                    presses.old3,
                )
            } else {
                final(result)@[rule] == old(result)@[rule]
            },
        forall|i: int|
            RULE_COUNT <= i < old(result)@.len() ==> final(result)@[i] == old(result)@[i],
{
    let ghost mut units: int = 0;
    let mut total: i128 = 0;
    proof {
        assert(scaled(count as int, 0) == 0) by {
            reveal(scaled);
        }
        presses.lemma_units_from();
    }
    let old2 = match old2 {
        Some(o) => o,
        None => {
            proof {
                if detailed {
                    lemma_skipped(result@[ROLL_REVERSAL as int], ROLL_REVERSAL as int, string@, count as int, presses);
                    lemma_skipped(result@[TWIST as int], TWIST as int, string@, count as int, presses);
                    lemma_skipped(result@[PINKY_RING as int], PINKY_RING as int, string@, count as int, presses);
                    lemma_skipped(result@[LONG_JUMP_SANDWICH as int], LONG_JUMP_SANDWICH as int, string@, count as int, presses);
                    lemma_skipped(result@[SAME_HAND as int], SAME_HAND as int, string@, count as int, presses);
                    lemma_skipped(result@[ALTERNATING_HAND as int], ALTERNATING_HAND as int, string@, count as int, presses);
                }
            }
            return total;
        },
    };
    let one_hand = curr.hand == old1.hand && old1.hand == old2.hand;

    // A roll that turns back at the pinky.
    let roll_reversal = one_hand && ((curr.finger == Finger::Middle && old1.finger
        == Finger::Pinky && old2.finger == Finger::Ring) || (curr.finger == Finger::Ring
        && old1.finger == Finger::Pinky && old2.finger == Finger::Middle));
    let penalty = charge(
        ROLL_REVERSAL,
        roll_reversal,
        ROLL_REVERSAL_UNITS,
        count,
        string,
        result,
        detailed,
        Ghost(presses),
    );
    proof {
        lemma_charged(count as int, units, presses.units(ROLL_REVERSAL as int));
        units = units + presses.units(ROLL_REVERSAL as int);
    }
    total = total + penalty;

    // A roll across all three rows.
    let twist = one_hand && ((curr.row == Row::Top && old1.row == Row::Home && old2.row
        == Row::Bottom) || (curr.row == Row::Bottom && old1.row == Row::Home && old2.row
        == Row::Top)) && ((is_roll_out(curr.finger, old1.finger) && is_roll_out(
        old1.finger,
        old2.finger,
    )) || (is_roll_in(curr.finger, old1.finger) && is_roll_in(old1.finger, old2.finger)));
    let penalty = charge(
        TWIST,
        twist,
        TWIST_UNITS,
        count,
        string,
        result,
        detailed,
        Ghost(presses),
    );
    proof {
        lemma_charged(count as int, units, presses.units(TWIST as int));
        units = units + presses.units(TWIST as int);
    }
    total = total + penalty;

    // Ring and pinky taking turns.
    let pinky_ring = one_hand && ((curr.finger == Finger::Ring && old1.finger == Finger::Pinky
        && old2.finger == Finger::Ring) || (curr.finger == Finger::Pinky && old1.finger
        == Finger::Ring && old2.finger == Finger::Pinky));
    let penalty = charge(
        PINKY_RING,
        pinky_ring,
        PINKY_RING_UNITS,
        count,
        string,
        result,
        detailed,
        Ghost(presses),
    );
    proof {
        lemma_charged(count as int, units, presses.units(PINKY_RING as int));
        units = units + presses.units(PINKY_RING as int);
    }
    total = total + penalty;

    // A finger that jumps over the home row with a key in between.
    let sandwich = curr.hand == old2.hand && curr.finger == old2.finger && (curr.row == Row::Top
        && old2.row == Row::Bottom || curr.row == Row::Bottom && old2.row == Row::Top);
    let penalty = charge(
        LONG_JUMP_SANDWICH,
        sandwich,
        LONG_JUMP_SANDWICH_UNITS,
        count,
        string,
        result,
        detailed,
        Ghost(presses),
    );
    proof {
        lemma_charged(count as int, units, presses.units(LONG_JUMP_SANDWICH as int));
        units = units + presses.units(LONG_JUMP_SANDWICH as int);
    }
    total = total + penalty;

    // Four keys.
    let rest = four_key_penalty(
        string,
        count,
        curr,
        old1,
        old2,
        old3,
        result,
        detailed,
        Ghost(presses),
    );
    proof {
        lemma_charged(count as int, units, presses.units_from(4));
    }
    total + rest
}

/// The cost of `count` occurrences of the window `string` under the rules
/// that look at two key presses or more.
fn two_key_penalty<'a>(
    string: &Quartad,
    count: usize,
    curr: &KeyPress,
    old1: &Option<KeyPress>,
    old2: &Option<KeyPress>,
    old3: &Option<KeyPress>,
    result: &mut Vec<KeyPenaltyResult<'a>>,
    detailed: bool,
    Ghost(presses): Ghost<Presses>,
) -> (total: i128)
    requires
        presses == (Presses { curr: *curr, old1: *old1, old2: *old2, old3: *old3 }),
        string.wf(),
        presses_wf(string@, presses.curr, presses.old1, presses.old2, presses.old3),
        detailed ==> old(result)@.len() >= RULE_COUNT,
        detailed ==> forall|rule: int|
            0 <= rule < RULE_COUNT && rule_arity(rule) >= 2 ==> (#[trigger] old(
                result,
            )@[rule]).wf() && old(result)@[rule].within(i128::MAX - MAX_RULE_UNITS * count),
    ensures
        total == scaled(count as int, presses.units_from(2)),
        final(result)@.len() == old(result)@.len(),
        !detailed ==> final(result)@ == old(result)@,
        detailed ==> forall|rule: int|
            0 <= rule < RULE_COUNT ==> if rule_arity(rule) >= 2 {
                (#[trigger] final(result)@[rule]).noted(
                    &old(result)@[rule],
                    rule,
                    string@,
                    count as int,
                    presses.curr,
                    presses.old1,
                    presses.old2,
                    presses.old3,
                )
            } else {
                final(result)@[rule] == old(result)@[rule]
            },
        forall|i: int|
            RULE_COUNT <= i < old(result)@.len() ==> final(result)@[i] == old(result)@[i],
{
    let ghost mut units: int = 0;
    let mut total: i128 = 0;
    proof {
        assert(scaled(count as int, 0) == 0) by {
            reveal(scaled);
        }
        presses.lemma_units_from();
    }
    let old1 = match old1 {
        Some(o) => o,
        None => {
            proof {
                if detailed {
                    lemma_skipped(result@[SAME_FINGER as int], SAME_FINGER as int, string@, count as int, presses);
                    lemma_skipped(result@[STRETCH as int], STRETCH as int, string@, count as int, presses);
                    lemma_skipped(result@[ROLL_OUT as int], ROLL_OUT as int, string@, count as int, presses);
                    lemma_skipped(result@[ROLL_IN as int], ROLL_IN as int, string@, count as int, presses);
                    lemma_skipped(result@[SAME_KEY as int], SAME_KEY as int, string@, count as int, presses);
                    lemma_skipped(result@[ROLL_REVERSAL as int], ROLL_REVERSAL as int, string@, count as int, presses);
                    lemma_skipped(result@[TWIST as int], TWIST as int, string@, count as int, presses);
                    lemma_skipped(result@[PINKY_RING as int], PINKY_RING as int, string@, count as int, presses);
                    lemma_skipped(result@[LONG_JUMP_SANDWICH as int], LONG_JUMP_SANDWICH as int, string@, count as int, presses);
                    lemma_skipped(result@[SAME_HAND as int], SAME_HAND as int, string@, count as int, presses);
                    lemma_skipped(result@[ALTERNATING_HAND as int], ALTERNATING_HAND as int, string@, count as int, presses);
                }
            }
            return total;
        },
    };
    let one_hand = curr.hand == old1.hand;

    // One finger on two keys.
    let same_finger = one_hand && curr.finger == old1.finger && curr.pos != old1.pos;
    let cost = if same_finger {
        calculate_same_finger_penalty(curr, old1)
    } else {
        0
    };
    let penalty = charge(
        SAME_FINGER,
        same_finger,
        cost,
        count,
        string,
        result,
        detailed,
        Ghost(presses),
    );
    proof {
        lemma_charged(count as int, units, presses.units(SAME_FINGER as int));
        units = units + presses.units(SAME_FINGER as int);
    }
    total = total + penalty;

    // Two fingers on keys that lie awkwardly for them.
    let stretch = one_hand && curr.finger != old1.finger;
    let cost = if stretch {
        calculate_stretch_penalty(curr, old1)
    } else {
        0
    };
    let penalty = charge(
        STRETCH,
        stretch,
        cost,
        count,
        string,
        result,
        detailed,
        Ghost(presses),
    );
    proof {
        lemma_charged(count as int, units, presses.units(STRETCH as int));
        units = units + presses.units(STRETCH as int);
    }
    total = total + penalty;

    // A roll away from the thumb.
    let roll_out = one_hand && is_roll_out(curr.finger, old1.finger);
    let penalty = charge(
        ROLL_OUT,
        roll_out,
        ROLL_OUT_UNITS,
        count,
        string,
        result,
        detailed,
        Ghost(presses),
    );
    proof {
        lemma_charged(count as int, units, presses.units(ROLL_OUT as int));
        units = units + presses.units(ROLL_OUT as int);
    }
    total = total + penalty;

    // A roll towards the thumb.
    let roll_in = one_hand && is_roll_in(curr.finger, old1.finger);
    let penalty = charge(
        ROLL_IN,
        roll_in,
        ROLL_IN_UNITS,
        count,
        string,
        result,
        detailed,
        Ghost(presses),
    );
    proof {
        lemma_charged(count as int, units, presses.units(ROLL_IN as int));
        units = units + presses.units(ROLL_IN as int);
    }
    total = total + penalty;

    // One key twice.
    let same_key = one_hand && curr.pos == old1.pos;
    let cost = if same_key {
        calculate_same_key_penalty(curr, old1)
    } else {
        0
    };
    let penalty = charge(
        SAME_KEY,
        same_key,
        cost,
        count,
        string,
        result,
        detailed,
        Ghost(presses),
    );
    proof {
        lemma_charged(count as int, units, presses.units(SAME_KEY as int));
        units = units + presses.units(SAME_KEY as int);
    }
    total = total + penalty;

    // Three keys.
    let rest = three_key_penalty(
        string,
        count,
        curr,
        old1,
        old2,
        old3,
        result,
        detailed,
        Ghost(presses),
    );
    proof {
        lemma_charged(count as int, units, presses.units_from(3));
    }
    total + rest
}

/// The cost of `count` occurrences of the window `string`, whose last key
/// press is `curr` and whose presses before that are `old1`, `old2` and
/// `old3`, the latest first. A rule looks no further back than the first
/// press that is missing. With `detailed`, each rule's charge is entered in
/// `result` at the rule's place.
pub fn penalize<'a>(
    string: &Quartad,
    count: usize,
    curr: &KeyPress,
    old1: &Option<KeyPress>,
    old2: &Option<KeyPress>,
    old3: &Option<KeyPress>,
    result: &mut Vec<KeyPenaltyResult<'a>>,
    detailed: bool,
) -> (total: i128)
    requires
        string.wf(),
        presses_wf(string@, *curr, *old1, *old2, *old3),
        detailed ==> old(result)@.len() >= RULE_COUNT,
        detailed ==> forall|rule: int|
            0 <= rule < RULE_COUNT ==> (#[trigger] old(result)@[rule]).wf() && old(
                result,
            )@[rule].within(i128::MAX - MAX_RULE_UNITS * count),
    ensures
        total == count * window_units(*curr, *old1, *old2, *old3),
        final(result)@.len() == old(result)@.len(),
        !detailed ==> final(result)@ == old(result)@,
        detailed ==> forall|rule: int|
            0 <= rule < RULE_COUNT ==> (#[trigger] final(result)@[rule]).noted(
                &old(result)@[rule],
                rule,
                string@,
                count as int,
                *curr,
                *old1,
                *old2,
                *old3,
            ),
        forall|i: int|
            RULE_COUNT <= i < old(result)@.len() ==> final(result)@[i] == old(result)@[i],
{
    let ghost presses = Presses { curr: *curr, old1: *old1, old2: *old2, old3: *old3 };
    let ghost mut units: int = 0;
    let mut total: i128 = 0;
    proof {
        assert(scaled(count as int, 0) == 0) by {
            reveal(scaled);
        }
        presses.lemma_units_from();
        assert(scaled(count as int, presses.units_from(1)) == count * presses.units_from(1)) by {
            reveal(scaled);
        }
    }

    // One key.
    let penalty = charge(
        BASE,
        true,
        base_penalty(curr.pos),
        count,
        string,
        result,
        detailed,
        Ghost(presses),
    );
    proof {
        lemma_charged(count as int, units, presses.units(BASE as int));
        units = units + presses.units(BASE as int);
    }
    total = total + penalty;

    // Two keys.
    let rest = two_key_penalty(
        string,
        count,
        curr,
        old1,
        old2,
        old3,
        result,
        detailed,
        Ghost(presses),
    );
    proof {
        lemma_charged(count as int, units, presses.units_from(2));
    }
    total + rest
}

/// The key press of the character that stands `back` places before the last
/// character of `window`, where there is such a character and it has a key.
pub open spec fn press_at(window: Seq<char>, back: int, map: Map<char, KeyPress>) -> Option<
    KeyPress,
> {
    if 0 <= back < window.len() && map.contains_key(window[window.len() - 1 - back]) {
        Some(map[window[window.len() - 1 - back]])
    } else {
        None
    }
}

/// The key presses of the last four characters of `window`, if its last
/// character has a key.
pub open spec fn presses_of(window: Seq<char>, map: Map<char, KeyPress>) -> Option<Presses> {
    match press_at(window, 0, map) {
        None => None,
        Some(curr) => Some(
            Presses {
                curr,
                old1: press_at(window, 1, map),
                old2: press_at(window, 2, map),
                old3: press_at(window, 3, map),
            },
        ),
    }
}

/// What the rule at `rule` charges for one occurrence of `window`: nothing
/// where the last character has no key.
pub open spec fn quartad_rule_units(rule: int, window: Seq<char>, map: Map<char, KeyPress>) -> int {
    match presses_of(window, map) {
        None => 0,
        Some(presses) => presses.units(rule),
    }
}

/// What all rules charge for one occurrence of `window`: nothing where the
/// last character has no key.
pub open spec fn quartad_units(window: Seq<char>, map: Map<char, KeyPress>) -> int {
    match presses_of(window, map) {
        None => 0,
        Some(presses) => window_units(presses.curr, presses.old1, presses.old2, presses.old3),
    }
}

/// Whether the window `window` has a cost on the keys of `map`: a window
/// whose last character has no key costs nothing; any other has a cost if
/// its last key press has one.
pub open spec fn window_covered(window: Seq<char>, map: Map<char, KeyPress>) -> bool {
    match presses_of(window, map) {
        None => true,
        Some(presses) => presses_covered(presses.curr, presses.old1),
    }
}

/// Whether every window of `entries` has a cost on the keys of `map`.
pub open spec fn covers(entries: Seq<(Seq<char>, int)>, map: Map<char, KeyPress>) -> bool {
    forall|i: int| 0 <= i < entries.len() ==> window_covered((#[trigger] entries[i]).0, map)
}

/// Whether the window `string` has a cost on the keys of `position_map`.
pub fn quartad_is_covered(string: &Quartad, position_map: &LayoutPosMap) -> (covered: bool)
    requires
        string.wf(),
        string@.len() >= 1,
        map_wf(position_map@),
    ensures
        covered == window_covered(string@, position_map@),
{
    let curr = match position_map.get_key_position(string.last(0)) {
        Some(kp) => kp,
        None => {
            return true;
        },
    };
    if curr.pos >= BASE_KEYS {
        return false;
    }
    if string.len() < 2 {
        return true;
    }
    match position_map.get_key_position(string.last(1)) {
        None => true,
        Some(old1) => !(curr.hand == old1.hand && curr.finger == old1.finger && curr.pos
            != old1.pos && curr.finger == Finger::Index) || index_pair_listed(
            curr.pos,
            old1.pos,
        ),
    }
}

/// Whether every window of `quartads` has a cost on `layout`: whether
/// `calculate_penalty` can tell what the text costs on it.
pub fn is_covered(quartads: &QuartadList, layout: &Layout) -> (covered: bool)
    requires
        quartads.wf(),
    ensures
        covered == covers(quartads@, position_map(layout@)),
{
    let keys = layout.get_position_map();
    let mut k: usize = 0;
    while k < quartads.len()
        invariant
            k <= quartads@.len(),
            quartads.wf(),
            map_wf(keys@),
            keys@ == position_map(layout@),
            forall|i: int|
                0 <= i < k ==> window_covered((#[trigger] quartads@[i]).0, keys@),
        decreases quartads@.len() - k,
    {
        let window = quartads.window(k);
        if !quartad_is_covered(&window, &keys) {
            return false;
        }
        k += 1;
    }
    true
}

/// What the rule at `rule` holds by window after `count` occurrences of
/// `window` are entered over `before`.
pub open spec fn quartad_keys(
    before: Seq<(Seq<char>, int)>,
    rule: int,
    window: Seq<char>,
    count: int,
    map: Map<char, KeyPress>,
) -> Seq<(Seq<char>, int)> {
    match presses_of(window, map) {
        None => before,
        Some(presses) => if rule_records(
            rule,
            count,
            presses.curr,
            presses.old1,
            presses.old2,
            presses.old3,
        ) {
            added(
                before,
                window.subrange(window.len() - rule_arity(rule), window.len() as int),
                count * presses.units(rule),
            )
        } else {
            before
        },
    }
}

/// Whether `after` is `before` with the charges for `count` occurrences of
/// `window` entered under each rule.
pub open spec fn results_noted(
    after: Seq<KeyPenaltyResult>,
    before: Seq<KeyPenaltyResult>,
    window: Seq<char>,
    count: int,
    map: Map<char, KeyPress>,
) -> bool {
    &&& after.len() == before.len()
    &&& forall|rule: int|
        0 <= rule < RULE_COUNT && rule < before.len() ==> {
            &&& (#[trigger] after[rule]).wf()
            &&& after[rule].name@ == before[rule].name@
            &&& after[rule].total == before[rule].total + count * quartad_rule_units(
                rule,
                window,
                map,
            )
            &&& after[rule].high_keys@ == quartad_keys(
                before[rule].high_keys@,
                rule,
                window,
                count,
                map,
            )
        }
    &&& forall|i: int| RULE_COUNT <= i < before.len() ==> after[i] == before[i]
}

/// The cost of `count` occurrences of the window `string` on the keys of
/// `position_map`: nothing where its last character has no key. With
/// `detailed`, each rule's charge is entered in `result` at the rule's place.
pub fn penalty_for_quartad<'a>(
    string: &Quartad,
    count: usize,
    position_map: &LayoutPosMap,
    result: &mut Vec<KeyPenaltyResult<'a>>,
    detailed: bool,
) -> (total: i128)
    requires
        string.wf(),
        string@.len() >= 1,
        map_wf(position_map@),
        window_covered(string@, position_map@),
        detailed ==> old(result)@.len() >= RULE_COUNT,
        detailed ==> forall|rule: int|
            0 <= rule < RULE_COUNT ==> (#[trigger] old(result)@[rule]).wf() && old(
                result,
            )@[rule].within(i128::MAX - MAX_RULE_UNITS * count),
    ensures
        total == count * quartad_units(string@, position_map@),
        !detailed ==> final(result)@ == old(result)@,
        detailed ==> results_noted(
            final(result)@,
            old(result)@,
            string@,
            count as int,
            position_map@,
        ),
{
    let len = string.len();
    let curr = match position_map.get_key_position(string.last(0)) {
        Some(kp) => kp,
        None => {
            return 0;
        },
    };
    let old1 = if len >= 2 {
        position_map.get_key_position(string.last(1))
    } else {
        None
    };
    let old2 = if len >= 3 {
        position_map.get_key_position(string.last(2))
    } else {
        None
    };
    let old3 = if len >= 4 {
        position_map.get_key_position(string.last(3))
    } else {
        None
    };
    penalize(string, count, &curr, &old1, &old2, &old3, result, detailed)
}

/// What all rules charge for the windows of `entries` with their counts.
pub open spec fn corpus_units(entries: Seq<(Seq<char>, int)>, map: Map<char, KeyPress>) -> int
    decreases entries.len(),
{
    if entries.len() == 0 {
        0
    } else {
        corpus_units(entries.drop_last(), map) + entries.last().1 * quartad_units(
            entries.last().0,
            map,
        )
    }
}

/// What the rule at `rule` charges for the windows of `entries` with their
/// counts.
pub open spec fn rule_total(rule: int, entries: Seq<(Seq<char>, int)>, map: Map<char, KeyPress>) -> int
    decreases entries.len(),
{
    if entries.len() == 0 {
        0
    } else {
        rule_total(rule, entries.drop_last(), map) + entries.last().1 * quartad_rule_units(
            rule,
            entries.last().0,
            map,
        )
    }
}

/// What the rule at `rule` charges by window for the windows of `entries`
/// with their counts, each window at the place where the rule first charged
/// it.
pub open spec fn rule_keys(rule: int, entries: Seq<(Seq<char>, int)>, map: Map<char, KeyPress>) -> Seq<
    (Seq<char>, int),
>
    decreases entries.len(),
{
    if entries.len() == 0 {
        Seq::empty()
    } else {
        quartad_keys(
            rule_keys(rule, entries.drop_last(), map),
            rule,
            entries.last().0,
            entries.last().1,
            map,
        )
    }
}

/// The sum of what the rules below `n` charge for the windows of `entries`.
pub open spec fn rules_total(n: int, entries: Seq<(Seq<char>, int)>, map: Map<char, KeyPress>) -> int
    decreases n,
{
    if n <= 0 {
        0
    } else {
        rules_total(n - 1, entries, map) + rule_total(n - 1, entries, map)
    }
}

/// On every layout and for every text, what the rules charge each by
/// itself adds up to what they charge together.
pub proof fn lemma_rules_add_up(entries: Seq<(Seq<char>, int)>, map: Map<char, KeyPress>)
    ensures
        rules_total(RULE_COUNT as int, entries, map) == corpus_units(entries, map),
    decreases entries.len(),
{
    reveal_with_fuel(rules_total, 13);
    if entries.len() > 0 {
        lemma_rules_add_up(entries.drop_last(), map);
        let count = entries.last().1;
        let window = entries.last().0;
        match presses_of(window, map) {
            None => {},
            Some(presses) => {
                reveal_with_fuel(rules_units, 13);
                let whole = window_units(presses.curr, presses.old1, presses.old2, presses.old3);
                let first2 = presses.units(0) + presses.units(1);
                let first3 = first2 + presses.units(2);
                let first4 = first3 + presses.units(3);
                let first5 = first4 + presses.units(4);
                let first6 = first5 + presses.units(5);
                let first7 = first6 + presses.units(6);
                let first8 = first7 + presses.units(7);
                let first9 = first8 + presses.units(8);
                let first10 = first9 + presses.units(9);
                let first11 = first10 + presses.units(10);
                assert(whole == first11 + presses.units(11));
                lemma_mul_is_distributive_add(count, presses.units(0), presses.units(1));
                lemma_mul_is_distributive_add(count, first2, presses.units(2));
                lemma_mul_is_distributive_add(count, first3, presses.units(3));
                lemma_mul_is_distributive_add(count, first4, presses.units(4));
                lemma_mul_is_distributive_add(count, first5, presses.units(5));
                lemma_mul_is_distributive_add(count, first6, presses.units(6));
                lemma_mul_is_distributive_add(count, first7, presses.units(7));
                lemma_mul_is_distributive_add(count, first8, presses.units(8));
                lemma_mul_is_distributive_add(count, first9, presses.units(9));
                lemma_mul_is_distributive_add(count, first10, presses.units(10));
                lemma_mul_is_distributive_add(count, first11, presses.units(11));
            },
        }
    }
}

/// A text costs no more on one layout than on another if none of its
/// windows does.
pub proof fn lemma_no_costlier(
    entries: Seq<(Seq<char>, int)>,
    cheap: Map<char, KeyPress>,
    dear: Map<char, KeyPress>,
)
    requires
        forall|i: int| 0 <= i < entries.len() ==> (#[trigger] entries[i]).1 >= 0,
        forall|i: int|
            0 <= i < entries.len() ==> quartad_units((#[trigger] entries[i]).0, cheap)
                <= quartad_units(entries[i].0, dear),
    ensures
        corpus_units(entries, cheap) <= corpus_units(entries, dear),
    decreases entries.len(),
{
    if entries.len() > 0 {
        let rest = entries.drop_last();
        assert forall|i: int| 0 <= i < rest.len() implies (#[trigger] rest[i]).1 >= 0
            && quartad_units(rest[i].0, cheap) <= quartad_units(rest[i].0, dear) by {
            assert(rest[i] == entries[i]);
        }
        lemma_no_costlier(rest, cheap, dear);
        let last = entries[entries.len() - 1];
        assert(last.1 * quartad_units(last.0, cheap) <= last.1 * quartad_units(last.0, dear))
            by (nonlinear_arith)
            requires
                last.1 >= 0,
                quartad_units(last.0, cheap) <= quartad_units(last.0, dear),
        ;
    }
}

/// Of two layouts, the one on which no window of a text costs more and
/// some window costs less is the one on which the text costs less, where
/// every window is counted at least once.
pub proof fn lemma_cheaper_layout(
    entries: Seq<(Seq<char>, int)>,
    cheap: Map<char, KeyPress>,
    dear: Map<char, KeyPress>,
)
    requires
        forall|i: int| 0 <= i < entries.len() ==> (#[trigger] entries[i]).1 >= 1,
        forall|i: int|
            0 <= i < entries.len() ==> quartad_units((#[trigger] entries[i]).0, cheap)
                <= quartad_units(entries[i].0, dear),
        exists|i: int|
            0 <= i < entries.len() && quartad_units((#[trigger] entries[i]).0, cheap)
                < quartad_units(entries[i].0, dear),
    ensures
        corpus_units(entries, cheap) < corpus_units(entries, dear),
    decreases entries.len(),
{
    let at = choose|i: int|
        0 <= i < entries.len() && quartad_units((#[trigger] entries[i]).0, cheap) < quartad_units(
            entries[i].0,
            dear,
        );
    let rest = entries.drop_last();
    assert forall|i: int| 0 <= i < rest.len() implies (#[trigger] rest[i]).1 >= 1
        && quartad_units(rest[i].0, cheap) <= quartad_units(rest[i].0, dear) by {
        assert(rest[i] == entries[i]);
    }
    let last = entries[entries.len() - 1];
    if at == entries.len() - 1 {
        lemma_no_costlier(rest, cheap, dear);
        assert(last.1 * quartad_units(last.0, cheap) < last.1 * quartad_units(last.0, dear))
            by (nonlinear_arith)
            requires
                last.1 >= 1,
                quartad_units(last.0, cheap) < quartad_units(last.0, dear),
        ;
    } else {
        assert(rest[at] == entries[at]);
        lemma_cheaper_layout(rest, cheap, dear);
        assert(last.1 * quartad_units(last.0, cheap) <= last.1 * quartad_units(last.0, dear))
            by (nonlinear_arith)
            requires
                last.1 >= 1,
                quartad_units(last.0, cheap) <= quartad_units(last.0, dear),
        ;
    }
}

/// What the rules charge for a text lies between the reward for rolling in
/// and twelve times the most that one rule charges, for each character
/// counted.
pub proof fn lemma_corpus_bounds(entries: Seq<(Seq<char>, int)>, map: Map<char, KeyPress>)
    requires
        map_wf(map),
        forall|i: int| 0 <= i < entries.len() ==> (#[trigger] entries[i]).1 >= 0,
    ensures
        ROLL_IN_UNITS * total(entries) <= corpus_units(entries, map) <= RULE_COUNT
            * MAX_RULE_UNITS * total(entries),
        forall|rule: int|
            0 <= rule < RULE_COUNT ==> -MAX_RULE_UNITS * total(entries) <= #[trigger] rule_total(
                rule,
                entries,
                map,
            ) <= MAX_RULE_UNITS * total(entries),
    decreases entries.len(),
{
    if entries.len() > 0 {
        let rest = entries.drop_last();
        assert forall|i: int| 0 <= i < rest.len() implies (#[trigger] rest[i]).1 >= 0 by {
            assert(rest[i] == entries[i]);
        }
        lemma_corpus_bounds(rest, map);
        let count = entries.last().1;
        let window = entries.last().0;
        lemma_quartad_bounds(window, count, map);
        assert forall|rule: int| 0 <= rule < RULE_COUNT implies -MAX_RULE_UNITS * total(entries)
            <= #[trigger] rule_total(rule, entries, map) <= MAX_RULE_UNITS * total(entries) by {
            assert(-MAX_RULE_UNITS * total(rest) <= rule_total(rule, rest, map) <= MAX_RULE_UNITS
                * total(rest));
            assert(-MAX_RULE_UNITS * count <= count * quartad_rule_units(rule, window, map)
                <= MAX_RULE_UNITS * count);
        }
    }
}

/// What the rules charge for the occurrences of one window lies between the
/// reward for rolling in and twelve times the most that one rule charges,
/// for each occurrence.
pub proof fn lemma_quartad_bounds(window: Seq<char>, count: int, map: Map<char, KeyPress>)
    requires
        map_wf(map),
        count >= 0,
    ensures
        ROLL_IN_UNITS * count <= count * quartad_units(window, map) <= RULE_COUNT * MAX_RULE_UNITS
            * count,
        forall|rule: int|
            0 <= rule < RULE_COUNT ==> -MAX_RULE_UNITS * count <= count * #[trigger] quartad_rule_units(
                rule,
                window,
                map,
            ) <= MAX_RULE_UNITS * count,
{
    match presses_of(window, map) {
        None => {},
        Some(presses) => {
            lemma_window_bounds(presses.curr, presses.old1, presses.old2, presses.old3);
            let units = quartad_units(window, map);
            assert(-5 * count <= count * units <= 12000 * count) by (nonlinear_arith)
                requires
                    count >= 0,
                    -5 <= units <= 12000,
            ;
            assert forall|rule: int| 0 <= rule < RULE_COUNT implies -MAX_RULE_UNITS * count
                <= count * #[trigger] quartad_rule_units(rule, window, map) <= MAX_RULE_UNITS
                * count by {
                lemma_rule_bounds(rule, presses.curr, presses.old1, presses.old2, presses.old3);
                let rule_units = quartad_rule_units(rule, window, map);
                assert(-1000 * count <= count * rule_units <= 1000 * count) by (nonlinear_arith)
                    requires
                        count >= 0,
                        -1000 <= rule_units <= 1000,
                ;
            }
        },
    }
}

/// A result that lies within `limit` still lies within `limit` and the most
/// that one rule charges for `count` occurrences once such a charge is
/// entered.
pub proof fn lemma_noted_within(
    after: KeyPenaltyResult,
    before: KeyPenaltyResult,
    rule: int,
    window: Seq<char>,
    count: int,
    map: Map<char, KeyPress>,
    limit: int,
)
    requires
        map_wf(map),
        0 <= rule < RULE_COUNT,
        count >= 0,
        limit >= 0,
        before.within(limit),
        after.total == before.total + count * quartad_rule_units(rule, window, map),
        after.high_keys@ == quartad_keys(before.high_keys@, rule, window, count, map),
    ensures
        after.within(limit + MAX_RULE_UNITS * count),
{
    lemma_quartad_bounds(window, count, map);
    match presses_of(window, map) {
        None => {},
        Some(presses) => {
            let piece = window.subrange(window.len() - rule_arity(rule), window.len() as int);
            lemma_find(before.high_keys@, piece);
        },
    }
}

/// The cost of typing a text with the windows `quartads` on `layout`, and
/// with `detailed` what each rule of `penalties` charged: the sum, and the
/// sum by window. Costs are in units, forty to the point. Every window must
/// have a cost on the layout, which `is_covered` tells.
pub fn calculate_penalty<'a>(
    quartads: &QuartadList,
    layout: &Layout,
    penalties: &Vec<KeyPenalty<'a>>,
    detailed: bool,
) -> (penalty: (i128, Vec<KeyPenaltyResult<'a>>))
    requires
        quartads.wf(),
        covers(quartads@, position_map(layout@)),
        detailed ==> penalties@.len() >= RULE_COUNT,
    ensures
        penalty.0 == corpus_units(quartads@, position_map(layout@)),
        ROLL_IN_UNITS * total(quartads@) <= penalty.0 <= RULE_COUNT * MAX_RULE_UNITS * total(
            quartads@,
        ),
        !detailed ==> penalty.1@.len() == 0,
        detailed ==> penalty.1@.len() == penalties@.len(),
        detailed ==> forall|i: int|
            0 <= i < penalties@.len() ==> (#[trigger] penalty.1@[i]).wf() && penalty.1@[i].name@
                == penalties@[i].spec_name(),
        detailed ==> forall|rule: int|
            0 <= rule < RULE_COUNT ==> (#[trigger] penalty.1@[rule]).total == rule_total(
                rule,
                quartads@,
                position_map(layout@),
            ) && penalty.1@[rule].high_keys@ == rule_keys(
                rule,
                quartads@,
                position_map(layout@),
            ),
        detailed ==> forall|i: int|
            RULE_COUNT <= i < penalties@.len() ==> (#[trigger] penalty.1@[i]).total == 0
                && penalty.1@[i].high_keys@.len() == 0,
        detailed ==> rules_total(RULE_COUNT as int, quartads@, position_map(layout@))
            == penalty.0,
{
    let mut result: Vec<KeyPenaltyResult<'a>> = Vec::new();
    let mut sum: i128 = 0;

    if detailed {
        let mut i: usize = 0;
        while i < penalties.len()
            invariant
                i <= penalties.len(),
                result@.len() == i,
                forall|j: int|
                    0 <= j < i ==> (#[trigger] result@[j]).wf() && result@[j].name@
                        == penalties@[j].spec_name() && result@[j].total == 0
                        && result@[j].high_keys@.len() == 0,
            decreases penalties.len() - i,
        {
            result.push(
                KeyPenaltyResult { name: penalties[i].name(), total: 0, high_keys: Tally::new() },
            );
            i += 1;
        }
    }
    let position_map = layout.get_position_map();
    let ghost map = position_map@;
    let ghost entries = quartads@;
    proof {
        quartads.lemma_wf();
        assert(entries.take(0) =~= Seq::<(Seq<char>, int)>::empty());
        lemma_total_nonnegative(entries);
        assert forall|rule: int| 0 <= rule < RULE_COUNT && detailed implies (
        #[trigger] result@[rule]).high_keys@ =~= rule_keys(rule, entries.take(0), map) by {}
    }
    let mut k: usize = 0;
    while k < quartads.len()
        invariant
            k <= quartads@.len(),
            quartads.wf(),
            entries == quartads@,
            covers(entries, map),
            total(entries) <= usize::MAX,
            forall|i: int| 0 <= i < entries.len() ==> (#[trigger] entries[i]).1 >= 1,
            map == position_map@,
            map_wf(map),
            sum == corpus_units(entries.take(k as int), map),
            0 <= total(entries.take(k as int)) <= total(entries),
            !detailed ==> result@.len() == 0,
            detailed ==> result@.len() == penalties@.len() && result@.len() >= RULE_COUNT,
            detailed ==> forall|i: int|
                0 <= i < penalties@.len() ==> (#[trigger] result@[i]).wf() && result@[i].name@
                    == penalties@[i].spec_name(),
            detailed ==> forall|rule: int|
                0 <= rule < RULE_COUNT ==> (#[trigger] result@[rule]).total == rule_total(
                    rule,
                    entries.take(k as int),
                    map,
                ) && result@[rule].high_keys@ == rule_keys(rule, entries.take(k as int), map)
                    && result@[rule].within(MAX_RULE_UNITS * total(entries.take(k as int))),
            detailed ==> forall|i: int|
                RULE_COUNT <= i < penalties@.len() ==> (#[trigger] result@[i]).total == 0
                    && result@[i].high_keys@.len() == 0,
        decreases quartads@.len() - k,
    {
        let window = quartads.window(k);
        let count = quartads.count(k);
        let ghost before = result@;
        let ghost done = entries.take(k as int);
        proof {
            lemma_total_bounds(entries, k as int);
            assert(entries.take(k + 1).drop_last() =~= done);
            assert(entries.take(k + 1).last() == entries[k as int]);
            lemma_quartad_bounds(window@, count as int, map);
            assert forall|i: int| 0 <= i < done.len() implies (#[trigger] done[i]).1 >= 0 by {
                assert(done[i] == entries[i]);
            }
            lemma_corpus_bounds(done, map);
        }
        let cost = penalty_for_quartad(&window, count, &position_map, &mut result, detailed);
        sum = sum + cost;
        proof {
            if detailed {
                assert forall|rule: int| 0 <= rule < RULE_COUNT implies (
                #[trigger] result@[rule]).within(MAX_RULE_UNITS * total(entries.take(k + 1))) by {
                    lemma_noted_within(
                        result@[rule],
                        before[rule],
                        rule,
                        window@,
                        count as int,
                        map,
                        MAX_RULE_UNITS * total(done),
                    );
                }
            }
        }
        k += 1;
    }
    proof {
        assert(entries.take(k as int) =~= entries);
        lemma_corpus_bounds(entries, map);
        lemma_rules_add_up(entries, map);
    }
    (sum, result)
}

/// How far an amount lies from nothing.
pub open spec fn magnitude(amount: int) -> int {
    if amount < 0 {
        -amount
    } else {
        amount
    }
}

/// Whether the entry at `i` goes before the entry at `j` where the entries
/// are listed by how far their amounts lie from nothing, the farthest
/// first, and entries equally far in their own order.
pub open spec fn goes_before(entries: Seq<(Seq<char>, int)>, i: int, j: int) -> bool {
    magnitude(entries[i].1) > magnitude(entries[j].1) || (magnitude(entries[i].1) == magnitude(
        entries[j].1,
    ) && i < j)
}

/// Whether no pick names the place `j`.
pub open spec fn unpicked(picks: Seq<int>, j: int) -> bool {
    forall|m: int| 0 <= m < picks.len() ==> picks[m] != j
}

/// Whether `picks` names the first entries of that list in order: no entry
/// is picked twice, and each entry picked goes before every entry that was
/// not picked before it.
pub open spec fn is_ranking(entries: Seq<(Seq<char>, int)>, picks: Seq<int>) -> bool {
    &&& forall|k: int| 0 <= k < picks.len() ==> 0 <= #[trigger] picks[k] < entries.len()
    &&& forall|k: int| 0 <= k < picks.len() ==> unpicked(picks.take(k), #[trigger] picks[k])
    &&& forall|k: int, i: int|
        0 <= k < picks.len() && 0 <= i < entries.len() && i != picks[k] && unpicked(
            picks.take(k),
            i,
        ) ==> #[trigger] goes_before(entries, picks[k], i)
}

/// Whether `first` lies farther from nothing than `second`.
fn farther(first: i128, second: i128) -> (farther: bool)
    ensures
        farther == (magnitude(first as int) > magnitude(second as int)),
{
    let a: u128 = if first >= 0 {
        first as u128
    } else {
        (-(first + 1)) as u128 + 1
    };
    let b: u128 = if second >= 0 {
        second as u128
    } else {
        (-(second + 1)) as u128 + 1
    };
    a > b
}

impl<'a> KeyPenaltyResult<'a> {
    /// The `n` windows that the rule charged most for, or rewarded most: by
    /// how far the sum of a window lies from nothing, the farthest first,
    /// and windows equally far in the order in which the rule first charged
    /// them.
    pub fn top_keys(&self, n: usize) -> (top: Vec<(Quartad, i128)>)
        requires
            self.wf(),
        ensures
            top@.len() == if n <= self.high_keys@.len() {
                n as int
            } else {
                self.high_keys@.len() as int
            },
            exists|picks: Seq<int>|
                picks.len() == top@.len() && is_ranking(self.high_keys@, picks) && forall|k: int|
                    0 <= k < top@.len() ==> (#[trigger] top@[k]).0.wf() && top@[k].0@
                        == self.high_keys@[picks[k]].0 && top@[k].1 == self.high_keys@[picks[k]].1,
    {
        let len = self.high_keys.len();
        let count = if n <= len {
            n
        } else {
            len
        };
        let mut top: Vec<(Quartad, i128)> = Vec::new();
        let mut taken: Vec<usize> = Vec::new();
        let ghost mut picks: Seq<int> = Seq::empty();
        let ghost entries = self.high_keys@;
        while top.len() < count
            invariant
                self.wf(),
                entries == self.high_keys@,
                len == entries.len(),
                count <= len,
                top@.len() <= count,
                taken@.len() == top@.len(),
                picks.len() == top@.len(),
                forall|k: int| 0 <= k < picks.len() ==> picks[k] == #[trigger] taken@[k],
                is_ranking(entries, picks),
                forall|k: int|
                    0 <= k < top@.len() ==> (#[trigger] top@[k]).0.wf() && top@[k].0@
                        == entries[picks[k]].0 && top@[k].1 == entries[picks[k]].1,
            decreases count - top@.len(),
        {
            // Find the entry farthest from nothing among those not taken.
            let mut best: usize = len;
            let mut i: usize = 0;
            while i < len
                invariant
                    self.wf(),
                    entries == self.high_keys@,
                    len == entries.len(),
                    i <= len,
                    best <= len,
                    picks.len() == taken@.len(),
                    forall|k: int| 0 <= k < picks.len() ==> picks[k] == #[trigger] taken@[k],
                    best < len ==> best < i && unpicked(picks, best as int),
                    best == len ==> forall|j: int| 0 <= j < i ==> !unpicked(picks, j),
                    best < len ==> forall|j: int|
                        0 <= j < i && j != best && unpicked(picks, j) ==> #[trigger] goes_before(
                            entries,
                            best as int,
                            j,
                        ),
                decreases len - i,
            {
                let mut is_taken = false;
                let mut t: usize = 0;
                while t < taken.len()
                    invariant
                        t <= taken@.len(),
                        picks.len() == taken@.len(),
                        forall|k: int| 0 <= k < picks.len() ==> picks[k] == #[trigger] taken@[k],
                        is_taken <==> !unpicked(picks.take(t as int), i as int),
                    decreases taken@.len() - t,
                {
                    proof {
                        let shorter = picks.take(t as int);
                        let longer = picks.take(t + 1);
                        assert(longer[t as int] == picks[t as int]);
                        assert forall|m: int| 0 <= m < shorter.len() implies shorter[m]
                            == longer[m] by {}
                        if unpicked(shorter, i as int) && picks[t as int] != i {
                            assert forall|m: int| 0 <= m < longer.len() implies longer[m] != i by {
                                if m < t {
                                    assert(shorter[m] == longer[m]);
                                }
                            }
                        }
                        if !unpicked(shorter, i as int) {
                            let m = choose|m: int| 0 <= m < shorter.len() && shorter[m] == i;
                            assert(longer[m] == i);
                        }
                    }
                    if taken[t] == i {
                        is_taken = true;
                    }
                    t += 1;
                }
                proof {
                    assert(picks.take(picks.len() as int) =~= picks);
                }
                let ghost before = best;
                if !is_taken {
                    if best == len || farther(self.high_keys.sum(i), self.high_keys.sum(best)) {
                        best = i;
                    }
                }
                proof {
                    if best < len {
                        assert forall|j: int|
                            0 <= j < i + 1 && j != best && unpicked(
                                picks,
                                j,
                            ) implies #[trigger] goes_before(entries, best as int, j) by {
                            if before < len && j != before && j < i {
                                assert(goes_before(entries, before as int, j));
                            }
                        }
                    }
                }
                i += 1;
            }
            proof {
                lemma_one_unpicked(picks, len as int);
            }
            top.push((self.high_keys.key(best), self.high_keys.sum(best)));
            taken.push(best);
            proof {
                let longer = picks.push(best as int);
                assert forall|k: int| 0 <= k < longer.len() implies unpicked(
                    longer.take(k),
                    #[trigger] longer[k],
                ) by {
                    if k < picks.len() {
                        assert(longer[k] == picks[k]);
                        assert(longer.take(k) =~= picks.take(k));
                    } else {
                        assert(longer.take(k) =~= picks);
                    }
                }
                assert forall|k: int, j: int|
                    0 <= k < longer.len() && 0 <= j < entries.len() && j != longer[k] && unpicked(
                        longer.take(k),
                        j,
                    ) implies #[trigger] goes_before(entries, longer[k], j) by {
                    if k < picks.len() {
                        assert(longer[k] == picks[k]);
                        assert(longer.take(k) =~= picks.take(k));
                    } else {
                        assert(longer.take(k) =~= picks);
                    }
                }
                picks = longer;
            }
        }
        top
    }
}

/// Fewer than `len` picks leave one of the places below `len` unpicked.
proof fn lemma_one_unpicked(picks: Seq<int>, len: int)
    requires
        picks.len() < len,
    ensures
        exists|j: int| 0 <= j < len && #[trigger] unpicked(picks, j),
    decreases len,
{
    let last = len - 1;
    if !unpicked(picks, last) {
        // Take away a pick that names the last place, and let any other
        // pick that names it name no place.
        let m = choose|m: int| 0 <= m < picks.len() && picks[m] == last;
        let rest = picks.remove(m);
        let fewer = Seq::new(
            rest.len(),
            |k: int|
                if rest[k] == last {
                    -1int
                } else {
                    rest[k]
                },
        );
        lemma_one_unpicked(fewer, last);
        let j = choose|j: int| 0 <= j < last && #[trigger] unpicked(fewer, j);
        assert(unpicked(picks, j)) by {
            assert forall|t: int| 0 <= t < picks.len() implies picks[t] != j by {
                if t < m {
                    assert(rest[t] == picks[t]);
                    assert(fewer[t] != j);
                } else if t > m {
                    assert(rest[t - 1] == picks[t]);
                    assert(fewer[t - 1] != j);
                }
            }
        }
    }
}

} // verus!
