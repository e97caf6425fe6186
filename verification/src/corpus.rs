//! The windows of a text: for each character that has a key, the up to four
//! characters typed last, as long as each has a key.

use vstd::prelude::*;
use crate::layout::KeyPress;
use crate::layout::LayoutPosMap;
use crate::layout::map_wf;
use crate::quartad::Quartad;
use crate::quartad::MAX_LEN;
use crate::quartad::is_window;
use crate::quartad::slide;
use crate::tally::Tally;
use crate::tally::added;
use crate::tally::amount_of;
use crate::tally::distinct;
use crate::tally::find;
use crate::tally::lemma_added;
use crate::tally::lemma_find;
use crate::tally::lemma_total_added;
use crate::tally::total;
use crate::text::chars_of;

verus! {

/// The window that is open once the first `n` characters of `text` are
/// read. A character with a key slides the window on; one without closes it.
pub open spec fn window_at(text: Seq<char>, map: Map<char, KeyPress>, n: int) -> Seq<char>
    decreases n,
{
    if n <= 0 {
        Seq::empty()
    } else if map.contains_key(text[n - 1]) {
        slide(window_at(text, map, n - 1), text[n - 1])
    } else {
        Seq::empty()
    }
}

/// The windows of the first `n` characters of `text` with how often each
/// occurs, in the order in which they first occur. Each character with a key
/// counts the window that it completes.
pub open spec fn quartad_counts(text: Seq<char>, map: Map<char, KeyPress>, n: int) -> Seq<
    (Seq<char>, int),
>
    decreases n,
{
    if n <= 0 {
        Seq::empty()
    } else if map.contains_key(text[n - 1]) {
        added(quartad_counts(text, map, n - 1), window_at(text, map, n), 1)
    } else {
        quartad_counts(text, map, n - 1)
    }
}

/// How many of the first `n` characters of `text` have a key.
pub open spec fn valid_count(text: Seq<char>, map: Map<char, KeyPress>, n: int) -> int
    decreases n,
{
    if n <= 0 {
        0
    } else {
        valid_count(text, map, n - 1) + if map.contains_key(text[n - 1]) {
            1int
        } else {
            0int
        }
    }
}

/// The sum of the counts of the windows of `len` characters.
pub open spec fn total_of_len(entries: Seq<(Seq<char>, int)>, len: int) -> int
    decreases entries.len(),
{
    if entries.len() == 0 {
        0
    } else {
        total_of_len(entries.drop_last(), len) + if entries.last().0.len() == len {
            entries.last().1
        } else {
            0
        }
    }
}

/// A window is the end of what was read, four characters at most, and each
/// of them has a key: no window reaches across a character without one.
pub proof fn lemma_window_at(text: Seq<char>, map: Map<char, KeyPress>, n: int)
    requires
        0 <= n <= text.len(),
    ensures
        window_at(text, map, n).len() <= MAX_LEN,
        window_at(text, map, n).len() <= n,
        window_at(text, map, n) == text.subrange(n - window_at(text, map, n).len(), n),
        forall|i: int|
            n - window_at(text, map, n).len() <= i < n ==> map.contains_key(#[trigger] text[i]),
        n > 0 && map.contains_key(text[n - 1]) ==> window_at(text, map, n).len() >= 1,
    decreases n,
{
    if n > 0 && map.contains_key(text[n - 1]) {
        lemma_window_at(text, map, n - 1);
        let before = window_at(text, map, n - 1);
        let now = window_at(text, map, n);
        assert(now =~= text.subrange(n - now.len(), n));
    } else {
        assert(window_at(text, map, n) =~= text.subrange(n, n));
    }
}

/// The counts of all windows add up to the number of characters with a key,
/// every count is at least one, and no window is counted in two places.
pub proof fn lemma_quartad_counts(text: Seq<char>, map: Map<char, KeyPress>, n: int)
    requires
        0 <= n <= text.len(),
        map_wf(map),
    ensures
        total(quartad_counts(text, map, n)) == valid_count(text, map, n),
        0 <= valid_count(text, map, n) <= n,
        distinct(quartad_counts(text, map, n)),
        quartad_counts(text, map, n).len() <= valid_count(text, map, n),
        forall|i: int|
            0 <= i < quartad_counts(text, map, n).len() ==> (#[trigger] quartad_counts(
                text,
                map,
                n,
            )[i]).1 >= 1 && 1 <= quartad_counts(text, map, n)[i].0.len() <= MAX_LEN,
    decreases n,
{
    if n > 0 {
        lemma_quartad_counts(text, map, n - 1);
        if map.contains_key(text[n - 1]) {
            let before = quartad_counts(text, map, n - 1);
            let window = window_at(text, map, n);
            lemma_window_at(text, map, n);
            lemma_total_added(before, window, 1);
            lemma_added(before, window, 1);
            lemma_find(before, window);
        }
    }
}

/// How many of the first `n` characters of `text` complete the window
/// `window`.
pub open spec fn occurrences(
    text: Seq<char>,
    map: Map<char, KeyPress>,
    window: Seq<char>,
    n: int,
) -> int
    decreases n,
{
    if n <= 0 {
        0
    } else {
        occurrences(text, map, window, n - 1) + if map.contains_key(text[n - 1]) && window_at(
            text,
            map,
            n,
        ) == window {
            1int
        } else {
            0int
        }
    }
}

/// Each window is counted as often as a character of the text completes it.
pub proof fn lemma_counts_are_occurrences(
    text: Seq<char>,
    map: Map<char, KeyPress>,
    window: Seq<char>,
    n: int,
)
    requires
        0 <= n <= text.len(),
        map_wf(map),
    ensures
        amount_of(quartad_counts(text, map, n), window) == occurrences(text, map, window, n),
    decreases n,
{
    if n > 0 {
        lemma_counts_are_occurrences(text, map, window, n - 1);
        lemma_quartad_counts(text, map, n - 1);
        if map.contains_key(text[n - 1]) {
            lemma_added(quartad_counts(text, map, n - 1), window_at(text, map, n), 1);
        }
    }
}

/// Whether a character of `text` that has a key completes the window
/// `window`.
pub open spec fn is_window_of(text: Seq<char>, map: Map<char, KeyPress>, window: Seq<char>) -> bool {
    exists|n: int|
        0 < n <= text.len() && map.contains_key(text[n - 1]) && window == #[trigger] window_at(
            text,
            map,
            n,
        )
}

/// Every window counted is a window of the text: a stretch of one to four
/// characters of the text of which each has a key.
pub proof fn lemma_counted_windows(text: Seq<char>, map: Map<char, KeyPress>, n: int, i: int)
    requires
        0 <= n <= text.len(),
        map_wf(map),
        0 <= i < quartad_counts(text, map, n).len(),
    ensures
        is_window_of(text, map, quartad_counts(text, map, n)[i].0),
        forall|k: int|
            0 <= k < quartad_counts(text, map, n)[i].0.len() ==> map.contains_key(
                #[trigger] quartad_counts(text, map, n)[i].0[k],
            ),
    decreases n,
{
    let entries = quartad_counts(text, map, n);
    if n > 0 {
        let before = quartad_counts(text, map, n - 1);
        if map.contains_key(text[n - 1]) {
            let window = window_at(text, map, n);
            lemma_find(before, window);
            if i < before.len() {
                lemma_counted_windows(text, map, n - 1, i);
                assert(entries[i].0 == before[i].0);
            } else {
                assert(entries[i].0 == window);
                lemma_window_at(text, map, n);
                assert forall|k: int| 0 <= k < window.len() implies map.contains_key(
                    #[trigger] window[k],
                ) by {
                    assert(window[k] == text[n - window.len() + k]);
                }
            }
        } else {
            lemma_counted_windows(text, map, n - 1, i);
        }
    }
}

/// In a text of at most one character, each with a key, the windows of one
/// character are counted as often as the text has characters.
pub proof fn lemma_single_windows(text: Seq<char>, map: Map<char, KeyPress>)
    requires
        text.len() <= 1,
        forall|i: int| 0 <= i < text.len() ==> map.contains_key(#[trigger] text[i]),
    ensures
        total_of_len(quartad_counts(text, map, text.len() as int), 1) == text.len(),
{
    if text.len() == 1 {
        reveal_with_fuel(quartad_counts, 3);
        reveal_with_fuel(window_at, 3);
        let counts = quartad_counts(text, map, 1);
        assert(quartad_counts(text, map, 0) =~= Seq::<(Seq<char>, int)>::empty());
        assert(window_at(text, map, 1) =~= seq![text[0]]);
        assert(counts =~= seq![(seq![text[0]], 1int)]);
        assert(counts.drop_last() =~= Seq::<(Seq<char>, int)>::empty());
        assert(counts.last() == (seq![text[0]], 1int));
        assert(total_of_len(counts.drop_last(), 1) == 0);
        assert(counts.last().0.len() == 1);
    } else {
        assert(quartad_counts(text, map, 0) =~= Seq::<(Seq<char>, int)>::empty());
    }
}

/// How often each window of a text occurs.
pub struct QuartadList {
    counts: Tally,
    chars: usize,
}

impl View for QuartadList {
    type V = Seq<(Seq<char>, int)>;

    closed spec fn view(&self) -> Seq<(Seq<char>, int)> {
        self.counts@
    }
}

impl QuartadList {
    /// Each window has one entry, with a count that fits in a `usize`
    /// together with all the others.
    pub closed spec fn wf(&self) -> bool {
        &&& self.counts.wf()
        &&& total(self.counts@) == self.chars
        &&& forall|i: int|
            0 <= i < self.counts@.len() ==> (#[trigger] self.counts@[i]).1 >= 1 && 1
                <= self.counts@[i].0.len()
    }

    /// In a well-formed list no window has two entries, each window holds one
    /// to four key characters, each count is at least one, and the counts add
    /// up to no more than a `usize` holds.
    pub proof fn lemma_wf(&self)
        requires
            self.wf(),
        ensures
            distinct(self@),
            total(self@) <= usize::MAX,
            forall|i: int|
                0 <= i < self@.len() ==> (#[trigger] self@[i]).1 >= 1 && 1 <= self@[i].0.len()
                    && is_window(self@[i].0),
    {
        self.counts.lemma_wf();
    }

    /// The number of characters that were counted: all that have a key.
    pub fn total(&self) -> (chars: usize)
        requires
            self.wf(),
        ensures
            chars == total(self@),
    {
        self.chars
    }

    /// The number of different windows.
    pub fn len(&self) -> (n: usize)
        requires
            self.wf(),
        ensures
            n == self@.len(),
    {
        self.counts.len()
    }

    /// The window of the entry at `i`.
    pub fn window(&self, i: usize) -> (window: Quartad)
        requires
            self.wf(),
            i < self@.len(),
        ensures
            window.wf(),
            window@ == self@[i as int].0,
            window@.len() >= 1,
    {
        self.counts.key(i)
    }

    /// The count of the entry at `i`.
    pub fn count(&self, i: usize) -> (count: usize)
        requires
            self.wf(),
            i < self@.len(),
        ensures
            count == self@[i as int].1,
            count >= 1,
    {
        proof {
            lemma_total_bounds(self@, i as int);
        }
        self.counts.sum(i) as usize
    }

    /// How often `window` occurs.
    pub fn count_of(&self, window: &Quartad) -> (count: usize)
        requires
            self.wf(),
            window.wf(),
        ensures
            count == amount_of(self@, window@),
    {
        proof {
            lemma_find(self@, window@);
            if find(self@, window@) is Some {
                lemma_total_bounds(self@, find(self@, window@)->0);
            }
        }
        self.counts.get(window) as usize
    }
}

/// Where no amount is negative, none is greater than the sum of all.
pub proof fn lemma_total_bounds(entries: Seq<(Seq<char>, int)>, i: int)
    requires
        0 <= i < entries.len(),
        forall|j: int| 0 <= j < entries.len() ==> (#[trigger] entries[j]).1 >= 0,
    ensures
        0 <= entries[i].1 <= total(entries),
        total(entries.take(i)) + entries[i].1 <= total(entries),
        0 <= total(entries.take(i)),
    decreases entries.len(),
{
    let rest = entries.drop_last();
    assert forall|j: int| 0 <= j < rest.len() implies (#[trigger] rest[j]).1 >= 0 by {
        assert(rest[j] == entries[j]);
    }
    if i < entries.len() - 1 {
        lemma_total_bounds(rest, i);
        assert(rest.take(i) =~= entries.take(i));
        assert(rest[i] == entries[i]);
    } else {
        assert(entries.take(i) =~= rest);
        lemma_total_nonnegative(rest);
    }
}

/// Where no amount is negative, the sum is not negative.
pub proof fn lemma_total_nonnegative(entries: Seq<(Seq<char>, int)>)
    requires
        forall|j: int| 0 <= j < entries.len() ==> (#[trigger] entries[j]).1 >= 0,
    ensures
        0 <= total(entries),
    decreases entries.len(),
{
    if entries.len() > 0 {
        let rest = entries.drop_last();
        assert forall|j: int| 0 <= j < rest.len() implies (#[trigger] rest[j]).1 >= 0 by {
            assert(rest[j] == entries[j]);
        }
        lemma_total_nonnegative(rest);
    }
}

/// Counts the windows of `string`: for each character that `position_map`
/// has a key for, the window that it completes.
pub fn prepare_quartad_list(string: &str, position_map: &LayoutPosMap) -> (quartads: QuartadList)
    requires
        map_wf(position_map@),
    ensures
        quartads.wf(),
        quartads@ == quartad_counts(string@, position_map@, string@.len() as int),
        total(quartads@) == valid_count(string@, position_map@, string@.len() as int),
        forall|window: Seq<char>| #[trigger]
            amount_of(quartads@, window) == occurrences(
                string@,
                position_map@,
                window,
                string@.len() as int,
            ),
{
    let text = chars_of(string);
    let mut counts = Tally::new();
    let mut window = Quartad::empty();
    let mut valid: usize = 0;
    let mut i: usize = 0;
    while i < text.len()
        invariant
            i <= text.len(),
            valid == valid_count(text@, position_map@, i as int),
            valid <= i,
            text@ == string@,
            map_wf(position_map@),
            counts.wf(),
            window.wf(),
            window@ == window_at(text@, position_map@, i as int),
            counts@ == quartad_counts(text@, position_map@, i as int),
        decreases text.len() - i,
    {
        let c = text[i];
        proof {
            lemma_quartad_counts(text@, position_map@, i as int);
            lemma_quartad_counts(text@, position_map@, i + 1);
        }
        match position_map.get_key_position(c) {
            Some(_) => {
                window = window.push(c);
                proof {
                    let before = quartad_counts(text@, position_map@, i as int);
                    lemma_find(before, window@);
                    if find(before, window@) is Some {
                        lemma_total_bounds(before, find(before, window@)->0);
                    }
                }
                counts.add(window, 1);
                valid += 1;
            },
            None => {
                window = Quartad::empty();
            },
        }
        i += 1;
    }
    proof {
        lemma_quartad_counts(text@, position_map@, text@.len() as int);
        assert forall|window: Seq<char>| #[trigger]
            amount_of(counts@, window) == occurrences(
                string@,
                position_map@,
                window,
                string@.len() as int,
            ) by {
            lemma_counts_are_occurrences(text@, position_map@, window, text@.len() as int);
        }
    }
    QuartadList { counts, chars: valid }
}

} // verus!
