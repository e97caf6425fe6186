//! Amounts summed up by window, in the order in which the windows first came.

use vstd::prelude::*;
use std::collections::HashMap;
use crate::quartad::Quartad;
use crate::quartad::is_window;

verus! {

broadcast use vstd::std_specs::hash::group_hash_axioms;

/// The first place at which `entries` holds `window`.
pub open spec fn find(entries: Seq<(Seq<char>, int)>, window: Seq<char>) -> Option<int>
    decreases entries.len(),
{
    if entries.len() == 0 {
        None
    } else {
        match find(entries.drop_last(), window) {
            Some(j) => Some(j),
            None => if entries.last().0 == window {
                Some(entries.len() - 1)
            } else {
                None
            },
        }
    }
}

/// The amount that `entries` holds for `window`: nothing where it is absent.
pub open spec fn amount_of(entries: Seq<(Seq<char>, int)>, window: Seq<char>) -> int {
    match find(entries, window) {
        Some(j) => entries[j].1,
        None => 0,
    }
}

/// `entries` after `amount` is added for `window`: to its entry where it has
/// one, else as a new entry at the end.
pub open spec fn added(entries: Seq<(Seq<char>, int)>, window: Seq<char>, amount: int) -> Seq<
    (Seq<char>, int),
> {
    match find(entries, window) {
        Some(j) => entries.update(j, (window, entries[j].1 + amount)),
        None => entries.push((window, amount)),
    }
}

/// The sum of all amounts.
pub open spec fn total(entries: Seq<(Seq<char>, int)>) -> int
    decreases entries.len(),
{
    if entries.len() == 0 {
        0
    } else {
        total(entries.drop_last()) + entries.last().1
    }
}

/// No window has two entries.
pub open spec fn distinct(entries: Seq<(Seq<char>, int)>) -> bool {
    forall|i: int, j: int|
        0 <= i < j < entries.len() ==> (#[trigger] entries[i]).0 != (#[trigger] entries[j]).0
}

/// `find` gives the first entry of `window`, and nothing only where there
/// is none.
pub proof fn lemma_find(entries: Seq<(Seq<char>, int)>, window: Seq<char>)
    ensures
        match find(entries, window) {
            Some(j) => 0 <= j < entries.len() && entries[j].0 == window && forall|i: int|
                0 <= i < j ==> (#[trigger] entries[i]).0 != window,
            None => forall|i: int| 0 <= i < entries.len() ==> (#[trigger] entries[i]).0 != window,
        },
    decreases entries.len(),
{
    if entries.len() > 0 {
        let rest = entries.drop_last();
        lemma_find(rest, window);
        match find(rest, window) {
            Some(j) => {
                assert(rest[j] == entries[j]);
                assert forall|i: int| 0 <= i < j implies (#[trigger] entries[i]).0 != window by {
                    assert(rest[i] == entries[i]);
                }
            },
            None => {
                assert forall|i: int| 0 <= i < rest.len() implies (#[trigger] entries[i]).0
                    != window by {
                    assert(rest[i] == entries[i]);
                }
            },
        }
    }
}

/// The first entry of `window` is what `find` gives.
pub proof fn lemma_find_at(entries: Seq<(Seq<char>, int)>, window: Seq<char>, j: int)
    requires
        0 <= j < entries.len(),
        entries[j].0 == window,
        forall|i: int| 0 <= i < j ==> (#[trigger] entries[i]).0 != window,
    ensures
        find(entries, window) == Some(j),
{
    lemma_find(entries, window);
}

/// Adding for a window changes the sum of all amounts by what is added.
pub proof fn lemma_total_added(entries: Seq<(Seq<char>, int)>, window: Seq<char>, amount: int)
    ensures
        total(added(entries, window, amount)) == total(entries) + amount,
{
    lemma_find(entries, window);
    match find(entries, window) {
        Some(j) => {
            lemma_total_update(entries, j, (window, entries[j].1 + amount));
        },
        None => {
            assert(entries.push((window, amount)).drop_last() =~= entries);
        },
    }
}

/// Replacing one entry changes the sum by the difference of the amounts.
pub proof fn lemma_total_update(entries: Seq<(Seq<char>, int)>, j: int, entry: (Seq<char>, int))
    requires
        0 <= j < entries.len(),
    ensures
        total(entries.update(j, entry)) == total(entries) - entries[j].1 + entry.1,
    decreases entries.len(),
{
    let changed = entries.update(j, entry);
    if j == entries.len() - 1 {
        assert(changed.drop_last() =~= entries.drop_last());
    } else {
        lemma_total_update(entries.drop_last(), j, entry);
        assert(changed.drop_last() =~= entries.drop_last().update(j, entry));
    }
}

/// Adding for a window keeps the windows of the entries apart, changes the
/// amount of that window alone, and moves no entry.
pub proof fn lemma_added(entries: Seq<(Seq<char>, int)>, window: Seq<char>, amount: int)
    requires
        distinct(entries),
    ensures
        distinct(added(entries, window, amount)),
        amount_of(added(entries, window, amount), window) == amount_of(entries, window) + amount,
        forall|other: Seq<char>|
            other != window ==> amount_of(added(entries, window, amount), other) == amount_of(
                entries,
                other,
            ),
        forall|i: int|
            0 <= i < entries.len() ==> (#[trigger] added(entries, window, amount)[i]).0
                == entries[i].0,
{
    let after = added(entries, window, amount);
    lemma_find(entries, window);
    lemma_find(after, window);
    match find(entries, window) {
        Some(j) => {
            assert forall|i: int| 0 <= i < j implies (#[trigger] after[i]).0 != window by {
                assert(after[i].0 == entries[i].0);
            }
            lemma_find_at(after, window, j);
        },
        None => {
            assert forall|i: int| 0 <= i < entries.len() implies (#[trigger] after[i]).0
                != window by {
                assert(after[i].0 == entries[i].0);
            }
            lemma_find_at(after, window, entries.len() as int);
        },
    }
    assert forall|other: Seq<char>| other != window implies amount_of(after, other) == amount_of(
        entries,
        other,
    ) by {
        lemma_find(entries, other);
        lemma_find(after, other);
        match find(entries, other) {
            Some(k) => {
                assert(after[k].0 == other);
                assert forall|i: int| 0 <= i < k implies (#[trigger] after[i]).0 != other by {
                    assert(after[i].0 == entries[i].0);
                }
                lemma_find_at(after, other, k);
            },
            None => {
                if find(after, other) is Some {
                    let k = find(after, other)->0;
                    if k < entries.len() {
                        assert(after[k].0 == entries[k].0);
                    }
                }
            },
        }
    }
}

/// Amounts summed up by window. The entries stand in the order in which the
/// windows were first added.
pub struct Tally {
    keys: Vec<Quartad>,
    sums: Vec<i128>,
    index: HashMap<u32, usize>,
}

impl View for Tally {
    type V = Seq<(Seq<char>, int)>;

    closed spec fn view(&self) -> Seq<(Seq<char>, int)> {
        Seq::new(self.keys@.len(), |i: int| (self.keys@[i]@, self.sums@[i] as int))
    }
}

impl Tally {
    /// Each window has one entry, and the index leads to it.
    pub closed spec fn wf(&self) -> bool {
        &&& self.keys@.len() == self.sums@.len()
        &&& forall|i: int| 0 <= i < self.keys@.len() ==> (#[trigger] self.keys@[i]).wf()
        &&& forall|i: int|
            0 <= i < self.keys@.len() ==> self.index@.contains_key(
                (#[trigger] self.keys@[i]).spec_code(),
            ) && self.index@[self.keys@[i].spec_code()] == i
        &&& forall|code: u32| #[trigger]
            self.index@.contains_key(code) ==> self.index@[code] < self.keys@.len()
                && self.keys@[self.index@[code] as int].spec_code() == code
    }

    /// In a well-formed tally no window has two entries, every window is
    /// made of key characters, and every amount fits in 128 bits.
    pub proof fn lemma_wf(&self)
        requires
            self.wf(),
        ensures
            distinct(self@),
            forall|i: int| 0 <= i < self@.len() ==> is_window(#[trigger] self@[i].0),
            forall|i: int| 0 <= i < self@.len() ==> i128::MIN <= (#[trigger] self@[i]).1 <= i128::MAX,
    {
        assert forall|i: int, j: int| 0 <= i < j < self@.len() implies (#[trigger] self@[i]).0 != (
        #[trigger] self@[j]).0 by {
            if self.keys@[i]@ == self.keys@[j]@ {
                self.keys@[i].lemma_same(self.keys@[j]);
            }
        }
        assert forall|i: int| 0 <= i < self@.len() implies is_window(#[trigger] self@[i].0) by {
            self.keys@[i].lemma_wf_window();
        }
    }

    /// The tally without entries.
    pub fn new() -> (tally: Tally)
        ensures
            tally.wf(),
            tally@ == Seq::<(Seq<char>, int)>::empty(),
    {
        let tally = Tally { keys: Vec::new(), sums: Vec::new(), index: HashMap::new() };
        assert(tally@ =~= Seq::<(Seq<char>, int)>::empty());
        tally
    }

    /// The number of entries.
    pub fn len(&self) -> (n: usize)
        requires
            self.wf(),
        ensures
            n == self@.len(),
    {
        self.keys.len()
    }

    /// The window of the entry at `i`.
    pub fn key(&self, i: usize) -> (window: Quartad)
        requires
            self.wf(),
            i < self@.len(),
        ensures
            window.wf(),
            window@ == self@[i as int].0,
    {
        self.keys[i]
    }

    /// The amount of the entry at `i`.
    pub fn sum(&self, i: usize) -> (amount: i128)
        requires
            self.wf(),
            i < self@.len(),
        ensures
            amount == self@[i as int].1,
    {
        self.sums[i]
    }

    /// The amount held for `window`: nothing where it has no entry.
    pub fn get(&self, window: &Quartad) -> (amount: i128)
        requires
            self.wf(),
            window.wf(),
        ensures
            amount == amount_of(self@, window@),
    {
        let code = window.code();
        match self.index.get(&code) {
            Some(slot) => {
                let i = *slot;
                proof {
                    self.lemma_found(*window, i as int);
                }
                self.sums[i]
            },
            None => {
                proof {
                    self.lemma_absent(*window);
                }
                0
            },
        }
    }

    /// Adds `amount` for `window`.
    pub fn add(&mut self, window: Quartad, amount: i128)
        requires
            old(self).wf(),
            window.wf(),
            i128::MIN <= amount_of(old(self)@, window@) + amount <= i128::MAX,
        ensures
            final(self).wf(),
            final(self)@ == added(old(self)@, window@, amount as int),
    {
        let code = window.code();
        let found = match self.index.get(&code) {
            Some(slot) => Some(*slot),
            None => None,
        };
        match found {
            Some(i) => {
                proof {
                    self.lemma_found(window, i as int);
                }
                let sum = self.sums[i];
                self.sums[i] = sum + amount;
                proof {
                    assert(self@ =~= added(old(self)@, window@, amount as int));
                }
            },
            None => {
                proof {
                    self.lemma_absent(window);
                }
                let n = self.keys.len();
                self.index.insert(code, n);
                self.keys.push(window);
                self.sums.push(amount);
                proof {
                    assert(self@ =~= added(old(self)@, window@, amount as int));
                    assert forall|i: int| 0 <= i < self.keys@.len() implies self.index@.contains_key(
                        (#[trigger] self.keys@[i]).spec_code(),
                    ) && self.index@[self.keys@[i].spec_code()] == i by {
                        if i < n {
                            assert(self.keys@[i] == old(self).keys@[i]);
                        }
                    }
                }
            },
        }
    }

    /// A window whose code the index leads to `i` has its entry at `i`.
    proof fn lemma_found(&self, window: Quartad, i: int)
        requires
            self.wf(),
            window.wf(),
            self.index@.contains_key(window.spec_code()),
            self.index@[window.spec_code()] == i,
        ensures
            0 <= i < self@.len(),
            self.keys@[i] == window,
            find(self@, window@) == Some(i),
    {
        self.keys@[i].lemma_same(window);
        assert forall|j: int| 0 <= j < i implies (#[trigger] self@[j]).0 != window@ by {
            if self.keys@[j]@ == window@ {
                self.keys@[j].lemma_same(window);
            }
        }
        lemma_find_at(self@, window@, i);
    }

    /// A window whose code the index does not hold has no entry.
    proof fn lemma_absent(&self, window: Quartad)
        requires
            self.wf(),
            window.wf(),
            !self.index@.contains_key(window.spec_code()),
        ensures
            find(self@, window@) is None,
    {
        lemma_find(self@, window@);
        if find(self@, window@) is Some {
            let j = find(self@, window@)->0;
            self.keys@[j].lemma_same(window);
        }
    }
}

} // verus!
