//! Choosing keys to swap: all ways to pick a number of the keys that may
//! move, in a fixed order.

use vstd::prelude::*;
use crate::layout::Keys;
use crate::layout::NUM_SWAPPABLE;
use crate::layout::is_swap_pair;
use crate::layout::swap_position;
use crate::layout::is_swappable;
use crate::layout::swapped;

verus! {

/// Whether `picks` names different keys that may move, by their index among
/// those keys, the greatest first.
pub open spec fn is_combination(picks: Seq<int>) -> bool {
    &&& forall|i: int| 0 <= i < picks.len() ==> 0 <= #[trigger] picks[i] < NUM_SWAPPABLE
    &&& forall|i: int, j: int| 0 <= i < j < picks.len() ==> #[trigger] picks[i] > #[trigger] picks[j]
}

/// The first way to pick `width` keys: the `width` keys of least index.
pub open spec fn first_combination(width: nat) -> Seq<int> {
    Seq::new(width, |i: int| width - 1 - i)
}

/// Whether the pick at `i` can move on to the next key while the picks
/// before it, which are greater, still find room above it.
pub open spec fn movable(picks: Seq<int>, i: int) -> bool {
    picks[i] + 1 < NUM_SWAPPABLE - i
}

/// The first place from `from` on whose pick can move on, or the number of
/// picks if none can.
pub open spec fn first_movable(picks: Seq<int>, from: int) -> int
    decreases picks.len() - from,
{
    if from >= picks.len() {
        picks.len() as int
    } else if movable(picks, from) {
        from
    } else {
        first_movable(picks, from + 1)
    }
}

/// `picks` after the pick at `i` has moved on by one key and the picks
/// before it have fallen back to the keys right above it.
pub open spec fn advanced(picks: Seq<int>, i: int) -> Seq<int> {
    Seq::new(
        picks.len(),
        |j: int|
            if j < i {
                picks[i] + 1 + (i - j)
            } else if j == i {
                picks[i] + 1
            } else {
                picks[j]
            },
    )
}

/// The way to pick that follows `picks`, if there is one.
pub open spec fn next_combination(picks: Seq<int>) -> Option<Seq<int>> {
    let i = first_movable(picks, 0);
    if i < picks.len() {
        Some(advanced(picks, i))
    } else {
        None
    }
}

/// The `n`-th power of the number of keys that may move.
pub open spec fn power(n: nat) -> nat
    decreases n,
{
    if n == 0 {
        1
    } else {
        NUM_SWAPPABLE as nat * power((n - 1) as nat)
    }
}

/// The picks read as the digits of one number, the last pick as the
/// highest digit.
pub open spec fn weight(picks: Seq<int>) -> int
    decreases picks.len(),
{
    if picks.len() == 0 {
        0
    } else {
        picks.last() * power((picks.len() - 1) as nat) + weight(picks.drop_last())
    }
}

/// The number that picks stand for has as many digits as there are picks.
pub proof fn lemma_weight_range(picks: Seq<int>)
    requires
        forall|i: int| 0 <= i < picks.len() ==> 0 <= #[trigger] picks[i] < NUM_SWAPPABLE,
    ensures
        0 <= weight(picks) < power(picks.len()),
    decreases picks.len(),
{
    if picks.len() > 0 {
        let rest = picks.drop_last();
        assert forall|i: int| 0 <= i < rest.len() implies 0 <= #[trigger] rest[i]
            < NUM_SWAPPABLE by {
            assert(rest[i] == picks[i]);
        }
        lemma_weight_range(rest);
        let unit = power(rest.len()) as int;
        let last = picks.last();
        assert(0 <= last * unit && last * unit + unit <= 49 * unit) by (nonlinear_arith)
            requires
                0 <= last < 49,
                unit >= 0,
        ;
    }
}

/// Where a pick moves on, the picks stay different keys in falling order,
/// and the number that they stand for grows.
pub proof fn lemma_advanced(picks: Seq<int>, i: int)
    requires
        is_combination(picks),
        0 <= i < picks.len(),
        movable(picks, i),
    ensures
        is_combination(advanced(picks, i)),
        weight(advanced(picks, i)) > weight(picks),
    decreases picks.len(),
{
    let after = advanced(picks, i);
    let rest = picks.drop_last();
    let unit = power(rest.len()) as int;
    assert forall|k: int| 0 <= k < rest.len() implies 0 <= #[trigger] rest[k] < NUM_SWAPPABLE by {
        assert(rest[k] == picks[k]);
    }
    lemma_weight_range(rest);
    if i == picks.len() - 1 {
        let after_rest = after.drop_last();
        assert forall|k: int| 0 <= k < after_rest.len() implies 0 <= #[trigger] after_rest[k]
            < NUM_SWAPPABLE by {
            assert(after_rest[k] == after[k]);
        }
        lemma_weight_range(after_rest);
        let last = picks.last();
        assert((last + 1) * unit == last * unit + unit) by (nonlinear_arith);
    } else {
        assert(is_combination(rest)) by {
            assert forall|a: int, b: int| 0 <= a < b < rest.len() implies #[trigger] rest[a]
                > #[trigger] rest[b] by {
                assert(rest[a] == picks[a] && rest[b] == picks[b]);
            }
        }
        lemma_advanced(rest, i);
        assert(after.drop_last() =~= advanced(rest, i));
    }
}

/// `first_movable` finds the first pick from `from` on that can move on.
pub proof fn lemma_first_movable(picks: Seq<int>, from: int)
    requires
        0 <= from <= picks.len(),
    ensures
        from <= first_movable(picks, from) <= picks.len(),
        first_movable(picks, from) < picks.len() ==> movable(picks, first_movable(picks, from)),
        forall|j: int| from <= j < first_movable(picks, from) ==> !movable(picks, j),
    decreases picks.len() - from,
{
    if from < picks.len() && !movable(picks, from) {
        lemma_first_movable(picks, from + 1);
    }
}

/// The way to pick that follows a way to pick is one too, and stands for a
/// greater number.
pub proof fn lemma_next_combination(picks: Seq<int>)
    requires
        is_combination(picks),
    ensures
        next_combination(picks) matches Some(next) ==> is_combination(next) && next.len()
            == picks.len() && weight(picks) < weight(next) < power(picks.len()),
{
    lemma_first_movable(picks, 0);
    let i = first_movable(picks, 0);
    if i < picks.len() {
        lemma_advanced(picks, i);
        lemma_weight_range(advanced(picks, i));
    }
}

/// The ways to pick from `picks` on, in order.
pub open spec fn combinations_from(picks: Seq<int>) -> Seq<Seq<int>>
    decreases power(picks.len()) - weight(picks),
    when is_combination(picks)
{
    match next_combination(picks) {
        None => seq![picks],
        Some(next) => {
            proof {
                lemma_next_combination(picks);
            }
            seq![picks] + combinations_from(next)
        },
    }
}

/// All ways to pick `width` of the keys that may move, in order.
pub open spec fn all_combinations(width: nat) -> Seq<Seq<int>> {
    if width <= NUM_SWAPPABLE {
        combinations_from(first_combination(width))
    } else {
        Seq::empty()
    }
}

/// The swaps that a way to pick stands for: the first pick with the second,
/// the third with the fourth, and so on.
pub open spec fn combination_pairs(picks: Seq<int>) -> Seq<(int, int)> {
    Seq::new(
        (picks.len() / 2) as nat,
        |k: int| (swap_position(picks[2 * k]), swap_position(picks[2 * k + 1])),
    )
}

/// The layouts that come from `base` by the swaps of each way to pick.
pub open spec fn layouts_of(base: Keys, combinations: Seq<Seq<int>>) -> Seq<Keys> {
    Seq::new(combinations.len(), |k: int| base.swap_all(combination_pairs(combinations[k])))
}

/// The layouts that come from `base` by `depth` swaps of keys that may
/// move, no key in two swaps: one for each way to pick twice `depth` keys,
/// in order.
pub open spec fn neighbors(base: Keys, depth: nat) -> Seq<Keys> {
    layouts_of(base, all_combinations(2 * depth))
}

/// The first way to pick is one, as long as there are keys enough.
pub proof fn lemma_first_combination(width: nat)
    requires
        width <= NUM_SWAPPABLE,
    ensures
        is_combination(first_combination(width)),
{
}

/// Every way to pick from a way to pick on is one, of the same number of
/// keys, and each stands for a greater number than the one before it: no
/// way to pick comes twice.
pub proof fn lemma_combinations_from(picks: Seq<int>)
    requires
        is_combination(picks),
    ensures
        combinations_from(picks).len() >= 1,
        combinations_from(picks)[0] == picks,
        forall|k: int|
            0 <= k < combinations_from(picks).len() ==> is_combination(
                #[trigger] combinations_from(picks)[k],
            ) && combinations_from(picks)[k].len() == picks.len(),
        forall|j: int, k: int|
            0 <= j < k < combinations_from(picks).len() ==> weight(
                #[trigger] combinations_from(picks)[j],
            ) < weight(#[trigger] combinations_from(picks)[k]),
    decreases power(picks.len()) - weight(picks),
{
    lemma_next_combination(picks);
    match next_combination(picks) {
        None => {},
        Some(next) => {
            lemma_combinations_from(next);
            let rest = combinations_from(next);
            let all = combinations_from(picks);
            assert(all == seq![picks] + rest);
            assert forall|k: int| 0 <= k < all.len() implies is_combination(#[trigger] all[k])
                && all[k].len() == picks.len() by {
                if k > 0 {
                    assert(all[k] == rest[k - 1]);
                }
            }
            assert forall|j: int, k: int| 0 <= j < k < all.len() implies weight(#[trigger] all[j])
                < weight(#[trigger] all[k]) by {
                assert(all[k] == rest[k - 1]);
                if j > 0 {
                    assert(all[j] == rest[j - 1]);
                } else {
                    if k > 1 {
                        assert(weight(rest[0]) < weight(rest[k - 1]));
                    }
                }
            }
        },
    }
}

/// The swaps of a way to pick exchange different keys that may move.
pub proof fn lemma_combination_pairs(picks: Seq<int>)
    requires
        is_combination(picks),
    ensures
        forall|k: int|
            0 <= k < combination_pairs(picks).len() ==> is_swap_pair(
                #[trigger] combination_pairs(picks)[k],
            ),
{
    assert forall|k: int| 0 <= k < combination_pairs(picks).len() implies is_swap_pair(
        #[trigger] combination_pairs(picks)[k],
    ) by {
        assert(picks[2 * k] > picks[2 * k + 1]);
    }
}

/// The picks of a way to pick stand in falling order: the pick at `i` has
/// room for the picks before it above it and for those behind it below it.
pub proof fn lemma_combination_bounds(picks: Seq<int>, i: int)
    requires
        is_combination(picks),
        0 <= i < picks.len(),
    ensures
        picks.len() - 1 - i <= picks[i] <= NUM_SWAPPABLE - 1 - i,
        picks.len() <= NUM_SWAPPABLE,
    decreases picks.len(),
{
    if picks.len() > 1 {
        if i > 0 {
            // The picks but the first: the first is greater than theirs.
            let rest = picks.drop_first();
            assert(is_combination(rest)) by {
                assert forall|a: int, b: int| 0 <= a < b < rest.len() implies #[trigger] rest[a]
                    > #[trigger] rest[b] by {
                    assert(rest[a] == picks[a + 1] && rest[b] == picks[b + 1]);
                }
                assert forall|a: int| 0 <= a < rest.len() implies 0 <= #[trigger] rest[a]
                    < NUM_SWAPPABLE by {
                    assert(rest[a] == picks[a + 1]);
                }
            }
            lemma_combination_bounds(rest, i - 1);
            assert(rest[i - 1] == picks[i]);
            lemma_combination_tail(picks, i);
        } else {
            lemma_combination_head(picks, picks.len() - 1);
        }
    }
}

/// A pick is greater than the pick `i` places behind it by `i` at least.
proof fn lemma_combination_head(picks: Seq<int>, i: int)
    requires
        is_combination(picks),
        0 <= i < picks.len(),
    ensures
        picks[0] >= picks[i] + i,
    decreases i,
{
    if i > 0 {
        lemma_combination_head(picks, i - 1);
        assert(picks[i - 1] > picks[i]);
    }
}

/// The pick at `i` is less than the first pick by `i` at least.
proof fn lemma_combination_tail(picks: Seq<int>, i: int)
    requires
        is_combination(picks),
        0 <= i < picks.len(),
    ensures
        picks[i] <= picks[0] - i,
{
    lemma_combination_head(picks, i);
}

/// Whether the pick at `i` stands more than one key above the pick behind
/// it, or above the first key if it is the last pick.
pub open spec fn has_gap(picks: Seq<int>, i: int) -> bool {
    if i == picks.len() - 1 {
        picks[i] > 0
    } else {
        picks[i] > picks[i + 1] + 1
    }
}

/// The first place from `from` on whose pick has a gap below it, or the
/// number of picks if none has.
pub open spec fn first_gap(picks: Seq<int>, from: int) -> int
    decreases picks.len() - from,
{
    if from >= picks.len() {
        picks.len() as int
    } else if has_gap(picks, from) {
        from
    } else {
        first_gap(picks, from + 1)
    }
}

/// `first_gap` finds the first pick from `from` on with a gap below it.
proof fn lemma_first_gap(picks: Seq<int>, from: int)
    requires
        0 <= from <= picks.len(),
    ensures
        from <= first_gap(picks, from) <= picks.len(),
        first_gap(picks, from) < picks.len() ==> has_gap(picks, first_gap(picks, from)),
        forall|j: int| from <= j < first_gap(picks, from) ==> !has_gap(picks, j),
    decreases picks.len() - from,
{
    if from < picks.len() && !has_gap(picks, from) {
        lemma_first_gap(picks, from + 1);
    }
}

/// The way to pick that `picks` follows: the first pick with a gap below it
/// moves back by one key, and the picks before it move up as far as they
/// can.
pub open spec fn previous_combination(picks: Seq<int>) -> Seq<int> {
    let i = first_gap(picks, 0);
    Seq::new(
        picks.len(),
        |j: int|
            if j < i {
                NUM_SWAPPABLE - 1 - j
            } else if j == i {
                picks[i] - 1
            } else {
                picks[j]
            },
    )
}

/// Picks without a gap below any of them are the first way to pick.
proof fn lemma_no_gap(picks: Seq<int>, i: int)
    requires
        is_combination(picks),
        0 <= i < picks.len(),
        forall|j: int| i <= j < picks.len() ==> !has_gap(picks, j),
    ensures
        picks[i] == picks.len() - 1 - i,
    decreases picks.len() - i,
{
    assert(!has_gap(picks, i));
    assert(0 <= picks[i]);
    if i < picks.len() - 1 {
        lemma_no_gap(picks, i + 1);
        assert(picks[i] > picks[i + 1]);
    }
}

/// Picks that stand right above each other up to the place `i` are told by
/// the pick at `i`.
proof fn lemma_run(picks: Seq<int>, i: int, j: int)
    requires
        is_combination(picks),
        0 <= j <= i < picks.len(),
        forall|k: int| 0 <= k < i ==> !has_gap(picks, k),
    ensures
        picks[j] == picks[i] + (i - j),
    decreases i - j,
{
    if j < i {
        lemma_run(picks, i, j + 1);
        assert(!has_gap(picks, j));
        assert(picks[j] > picks[j + 1]);
    }
}

/// Every way to pick but the first follows a way to pick.
pub proof fn lemma_previous_combination(picks: Seq<int>)
    requires
        is_combination(picks),
        picks != first_combination(picks.len()),
    ensures
        is_combination(previous_combination(picks)),
        previous_combination(picks).len() == picks.len(),
        next_combination(previous_combination(picks)) == Some(picks),
{
    let len = picks.len() as int;
    let i = first_gap(picks, 0);
    let before = previous_combination(picks);
    lemma_first_gap(picks, 0);
    if i >= len {
        assert forall|j: int| 0 <= j < len implies picks[j] == first_combination(
            picks.len(),
        )[j] by {
            lemma_no_gap(picks, j);
        }
        assert(picks =~= first_combination(picks.len()));
    }
    lemma_combination_bounds(picks, i);
    assert forall|a: int, b: int| 0 <= a < b < len implies #[trigger] before[a]
        > #[trigger] before[b] by {
        if b > i {
            assert(picks[i] >= picks[b] + 1 + (if i < len - 1 { 1int } else { 0int })) by {
                if i < len - 1 {
                    if b > i + 1 {
                        assert(picks[i + 1] > picks[b]);
                    }
                }
            }
            if a > i {
                assert(picks[a] > picks[b]);
            }
        }
    }
    assert forall|a: int| 0 <= a < len implies 0 <= #[trigger] before[a] < NUM_SWAPPABLE by {
        if a > i {
            assert(0 <= picks[a] < NUM_SWAPPABLE);
        }
    }
    // The way to pick before moves on at `i`: the picks before `i` stand
    // as high as they can.
    lemma_first_movable(before, 0);
    let at = first_movable(before, 0);
    assert(movable(before, i));
    assert forall|j: int| 0 <= j < i implies !movable(before, j) by {}
    if at < i {
        assert(!movable(before, at));
    }
    if at > i {
        assert(!movable(before, i));
    }
    assert(at == i);
    assert forall|j: int| 0 <= j < len implies advanced(before, i)[j] == picks[j] by {
        if j < i {
            lemma_run(picks, i, j);
        }
    }
    assert(advanced(before, i) =~= picks);
}

/// In the ways to pick from a way to pick on, each is followed by the way
/// to pick that follows it.
pub proof fn lemma_followed(from: Seq<int>, k: int, next: Seq<int>)
    requires
        is_combination(from),
        0 <= k < combinations_from(from).len(),
        next_combination(combinations_from(from)[k]) == Some(next),
    ensures
        k + 1 < combinations_from(from).len(),
        combinations_from(from)[k + 1] == next,
    decreases k,
{
    lemma_next_combination(from);
    let all = combinations_from(from);
    match next_combination(from) {
        None => {
            assert(all =~= seq![from]);
        },
        Some(second) => {
            let rest = combinations_from(second);
            assert(all == seq![from] + rest);
            lemma_combinations_from(second);
            if k == 0 {
                assert(all[1] == rest[0]);
            } else {
                assert(all[k] == rest[k - 1]);
                lemma_followed(second, k - 1, next);
                assert(all[k + 1] == rest[k]);
            }
        },
    }
}

/// Every way to pick a number of keys is among all ways to pick that
/// number of keys.
pub proof fn lemma_complete(picks: Seq<int>)
    requires
        is_combination(picks),
    ensures
        all_combinations(picks.len()).contains(picks),
    decreases weight(picks),
{
    let width = picks.len();
    lemma_combination_bounds_len(picks);
    let first = first_combination(width);
    lemma_first_combination(width);
    lemma_combinations_from(first);
    let all = combinations_from(first);
    if picks == first {
        assert(all[0] == picks);
    } else {
        lemma_previous_combination(picks);
        let before = previous_combination(picks);
        lemma_next_combination(before);
        lemma_weight_range(before);
        lemma_complete(before);
        let k = choose|k: int| 0 <= k < all.len() && all[k] == before;
        lemma_followed(first, k, picks);
        assert(all[k + 1] == picks);
    }
}

/// A way to pick picks no more keys than may move.
pub proof fn lemma_combination_bounds_len(picks: Seq<int>)
    requires
        is_combination(picks),
    ensures
        picks.len() <= NUM_SWAPPABLE,
{
    if picks.len() > 0 {
        lemma_combination_bounds(picks, 0);
    }
}

/// All ways to pick `width` keys are just the ways to pick `width` keys,
/// each once.
pub proof fn lemma_all_combinations(width: nat)
    ensures
        forall|picks: Seq<int>|
            is_combination(picks) && picks.len() == width ==> #[trigger] all_combinations(
                width,
            ).contains(picks),
        forall|k: int|
            0 <= k < all_combinations(width).len() ==> is_combination(
                #[trigger] all_combinations(width)[k],
            ) && all_combinations(width)[k].len() == width,
        forall|j: int, k: int|
            0 <= j < k < all_combinations(width).len() ==> #[trigger] all_combinations(width)[j]
                != #[trigger] all_combinations(width)[k],
{
    assert forall|picks: Seq<int>| is_combination(picks) && picks.len() == width implies (
    #[trigger] all_combinations(width).contains(picks)) by {
        lemma_complete(picks);
    }
    if width <= NUM_SWAPPABLE {
        lemma_first_combination(width);
        lemma_combinations_from(first_combination(width));
        let all = all_combinations(width);
        assert forall|j: int, k: int| 0 <= j < k < all.len() implies #[trigger] all[j]
            != #[trigger] all[k] by {
            assert(weight(all[j]) < weight(all[k]));
        }
    }
}

/// The sum of the numbers from one to `n`.
pub open spec fn triangle(n: int) -> int
    decreases n,
{
    if n <= 0 {
        0
    } else {
        n + triangle(n - 1)
    }
}

/// Twice the sum of the numbers from one to `n` is `n` times the next.
pub proof fn lemma_triangle(n: int)
    requires
        n >= 0,
    ensures
        2 * triangle(n) == n * (n + 1),
    decreases n,
{
    if n > 0 {
        lemma_triangle(n - 1);
        let before = triangle(n - 1);
        assert(2 * (n + before) == n * (n + 1)) by (nonlinear_arith)
            requires
                2 * before == (n - 1) * ((n - 1) + 1),
        ;
    } else {
        assert(n * (n + 1) == 0) by (nonlinear_arith)
            requires
                n == 0,
        ;
    }
}

/// How many ways to pick two keys come from the way `[a, b]` on.
pub proof fn lemma_pairs_from(a: int, b: int)
    requires
        0 <= b < a < NUM_SWAPPABLE,
    ensures
        combinations_from(seq![a, b]).len() == NUM_SWAPPABLE - a + triangle(NUM_SWAPPABLE - 2 - b),
    decreases NUM_SWAPPABLE - b, NUM_SWAPPABLE - a,
{
    let picks = seq![a, b];
    assert(is_combination(picks));
    reveal_with_fuel(first_movable, 3);
    if a < 48 {
        assert(next_combination(picks) == Some(advanced(picks, 0)));
        assert(advanced(picks, 0) =~= seq![a + 1, b]);
        lemma_pairs_from(a + 1, b);
    } else if b < 47 {
        assert(next_combination(picks) == Some(advanced(picks, 1)));
        assert(advanced(picks, 1) =~= seq![b + 2, b + 1]);
        lemma_pairs_from(b + 2, b + 1);
    } else {
        assert(next_combination(picks) is None);
    }
}

/// Whether no two keys that may move hold the same characters.
pub open spec fn keys_apart(base: Keys) -> bool {
    forall|p: int, q: int|
        is_swappable(p) && is_swappable(q) && p != q ==> base.lower[p] != base.lower[q]
            || base.upper[p] != base.upper[q]
}

/// The two keys that the `k`-th layout one swap away exchanges.
pub open spec fn single_swap(k: int) -> (int, int) {
    combination_pairs(all_combinations(2)[k])[0]
}

/// Whether two pairs name the same two keys, in either order.
pub open spec fn same_pair(p: (int, int), q: (int, int)) -> bool {
    (p.0 == q.0 && p.1 == q.1) || (p.0 == q.1 && p.1 == q.0)
}

/// The layouts one swap away from a layout are as many as there are pairs
/// of keys that may move. Each comes from the layout by one swap of two
/// different such keys, and no pair of keys is swapped twice. Where no two
/// of the keys hold the same characters, each of the layouts differs from
/// the layout they come from, and no two of them are the same.
pub proof fn lemma_single_swaps(base: Keys)
    requires
        base.wf(),
    ensures
        neighbors(base, 1).len() == NUM_SWAPPABLE * (NUM_SWAPPABLE - 1) / 2,
        forall|k: int|
            0 <= k < neighbors(base, 1).len() ==> is_swap_pair(single_swap(k)) && #[trigger] neighbors(
                base,
                1,
            )[k] == base.swap(single_swap(k).0, single_swap(k).1),
        forall|j: int, k: int|
            0 <= j < k < neighbors(base, 1).len() ==> !same_pair(
                #[trigger] single_swap(j),
                #[trigger] single_swap(k),
            ),
        keys_apart(base) ==> forall|k: int|
            0 <= k < neighbors(base, 1).len() ==> #[trigger] neighbors(base, 1)[k] != base,
        keys_apart(base) ==> forall|j: int, k: int|
            0 <= j < k < neighbors(base, 1).len() ==> #[trigger] neighbors(base, 1)[j]
                != #[trigger] neighbors(base, 1)[k],
{
    let all = all_combinations(2);
    let first = first_combination(2);
    assert(first =~= seq![1, 0]);
    lemma_pairs_from(1, 0);
    lemma_triangle(47);
    lemma_combinations_from(first);
    assert(all.len() == 1176);
    assert forall|k: int| 0 <= k < all.len() implies is_swap_pair(single_swap(k))
        && #[trigger] neighbors(base, 1)[k] == base.swap(single_swap(k).0, single_swap(k).1) by {
        let picks = all[k];
        lemma_combination_pairs(picks);
        let pairs = combination_pairs(picks);
        assert(pairs.len() == 1);
        assert(pairs.drop_last() =~= Seq::<(int, int)>::empty());
        reveal_with_fuel(Keys::swap_all, 2);
    }
    assert forall|j: int, k: int| 0 <= j < k < all.len() implies !same_pair(
        #[trigger] single_swap(j),
        #[trigger] single_swap(k),
    ) by {
        let first = all[j];
        let second = all[k];
        assert(weight(first) < weight(second));
        assert(first[0] > first[1] && second[0] > second[1]);
        if same_pair(single_swap(j), single_swap(k)) {
            assert(first =~= second);
        }
    }
    if keys_apart(base) {
        assert forall|k: int| 0 <= k < all.len() implies #[trigger] neighbors(base, 1)[k]
            != base by {
            let pair = single_swap(k);
            lemma_swap_differs(base, pair, pair.0);
        }
        assert forall|j: int, k: int| 0 <= j < k < all.len() implies #[trigger] neighbors(base, 1)[j]
            != #[trigger] neighbors(base, 1)[k] by {
            let p = single_swap(j);
            let q = single_swap(k);
            assert(!same_pair(p, q));
            let x = if p.0 != q.0 && p.0 != q.1 {
                p.0
            } else {
                p.1
            };
            lemma_swap_differs(base, p, x);
            assert(swapped(base.lower, q.0, q.1)[x] == base.lower[x]);
            assert(swapped(base.upper, q.0, q.1)[x] == base.upper[x]);
        }
    }
}

/// A swap of two keys that hold different characters changes what each of
/// the two keys holds.
pub proof fn lemma_swap_differs(base: Keys, pair: (int, int), x: int)
    requires
        base.wf(),
        keys_apart(base),
        is_swap_pair(pair),
        x == pair.0 || x == pair.1,
    ensures
        swapped(base.lower, pair.0, pair.1)[x] != base.lower[x] || swapped(
            base.upper,
            pair.0,
            pair.1,
        )[x] != base.upper[x],
        base.swap(pair.0, pair.1) != base,
{
    let after = base.swap(pair.0, pair.1);
    assert(after.lower[x] == swapped(base.lower, pair.0, pair.1)[x]);
    assert(after.upper[x] == swapped(base.upper, pair.0, pair.1)[x]);
}

} // verus!
