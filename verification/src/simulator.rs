//! The two searches for a cheaper layout, and the list of the best layouts
//! that a search keeps.

use vstd::prelude::*;
use std::cmp::Ordering;
use std::collections::HashMap;
use crate::layout::Keys;
use crate::layout::Layout;
use crate::layout::LayoutPermutations;
use crate::layout::position_map;
use crate::layout::lemma_position_map_domain;
use crate::combos::neighbors;
use crate::combos::all_combinations;
use crate::combos::combination_pairs;
use crate::combos::lemma_combination_pairs;
use crate::combos::lemma_combinations_from;
use crate::combos::lemma_first_combination;
use crate::combos::first_combination;
use crate::layout::is_swap_pair;
use crate::layout::drawn_pairs;
use crate::layout::random_number;
use crate::layout::reachable;
use crate::layout::swapped_times;
use crate::layout::lemma_reachable;
use crate::layout::lemma_reachable_self;
use crate::layout::NUM_SWAPPABLE;
use crate::corpus::QuartadList;
use crate::penalty::KeyPenalty;
use crate::penalty::calculate_penalty;
use crate::penalty::covers;
use crate::penalty::is_covered;
use crate::penalty::corpus_units;
use crate::penalty::lemma_corpus_bounds;
use crate::penalty::ROLL_IN_UNITS;
use crate::penalty::RULE_COUNT;
use crate::penalty::MAX_RULE_UNITS;
use crate::tally::total;

verus! {

broadcast use vstd::std_specs::hash::group_hash_axioms;

/// A layout with what a text costs on it.
#[derive(Debug, PartialEq, Eq)]
pub struct BestLayoutsEntry {
    pub layout: Layout,
    pub penalty: i128,
}

impl View for BestLayoutsEntry {
    type V = (Keys, int);

    open spec fn view(&self) -> (Keys, int) {
        (self.layout@, self.penalty as int)
    }
}

impl Clone for BestLayoutsEntry {
    fn clone(&self) -> (copy: BestLayoutsEntry)
        ensures
            copy@ == self@,
    {
        BestLayoutsEntry { layout: self.layout.clone(), penalty: self.penalty }
    }
}

/// The views of the entries of a list.
pub open spec fn entry_views(list: Seq<BestLayoutsEntry>) -> Seq<(Keys, int)> {
    Seq::new(list.len(), |i: int| list[i]@)
}

/// Whether no entry costs more than an entry behind it.
pub open spec fn is_ordered(entries: Seq<(Keys, int)>) -> bool {
    forall|i: int, j: int| 0 <= i <= j < entries.len() ==> entries[i].1 <= entries[j].1
}

/// The place behind the last entry of `entries` that costs less than
/// `penalty`: in an ordered list the first place whose entry costs no less,
/// or the end if there is none.
pub open spec fn insert_point(entries: Seq<(Keys, int)>, penalty: int) -> int
    decreases entries.len(),
{
    if entries.len() == 0 {
        0
    } else if entries.last().1 >= penalty {
        insert_point(entries.drop_last(), penalty)
    } else {
        entries.len() as int
    }
}

/// `entries` with `entry` put in before the first entry that costs no less.
pub open spec fn inserted(entries: Seq<(Keys, int)>, entry: (Keys, int)) -> Seq<(Keys, int)> {
    entries.insert(insert_point(entries, entry.1), entry)
}

/// `entries` cut down to its first `capacity` entries.
pub open spec fn capped(entries: Seq<(Keys, int)>, capacity: int) -> Seq<(Keys, int)> {
    if entries.len() <= capacity {
        entries
    } else {
        entries.take(capacity)
    }
}

/// In an ordered list the insert point has only cheaper entries before it
/// and none behind it.
pub proof fn lemma_insert_point(entries: Seq<(Keys, int)>, penalty: int)
    requires
        is_ordered(entries),
    ensures
        0 <= insert_point(entries, penalty) <= entries.len(),
        forall|i: int| 0 <= i < insert_point(entries, penalty) ==> (#[trigger] entries[i]).1 < penalty,
        forall|i: int|
            insert_point(entries, penalty) <= i < entries.len() ==> (#[trigger] entries[i]).1
                >= penalty,
    decreases entries.len(),
{
    if entries.len() > 0 {
        let rest = entries.drop_last();
        assert(is_ordered(rest)) by {
            assert forall|i: int, j: int| 0 <= i <= j < rest.len() implies rest[i].1
                <= rest[j].1 by {
                assert(rest[i] == entries[i] && rest[j] == entries[j]);
            }
        }
        lemma_insert_point(rest, penalty);
        if entries.last().1 >= penalty {
            assert forall|i: int| 0 <= i < insert_point(entries, penalty) implies (
            #[trigger] entries[i]).1 < penalty by {
                assert(rest[i] == entries[i]);
            }
            assert forall|i: int| insert_point(entries, penalty) <= i < entries.len() implies (
            #[trigger] entries[i]).1 >= penalty by {
                if i < rest.len() {
                    assert(rest[i] == entries[i]);
                }
            }
        } else {
            assert forall|i: int| 0 <= i < entries.len() implies (#[trigger] entries[i]).1
                < penalty by {
                assert(entries[i].1 <= entries[entries.len() - 1].1);
            }
        }
    }
}

/// Putting an entry into an ordered list leaves the list ordered, and so
/// does cutting it down.
pub proof fn lemma_inserted_ordered(entries: Seq<(Keys, int)>, entry: (Keys, int), capacity: int)
    requires
        is_ordered(entries),
        0 <= capacity,
    ensures
        is_ordered(inserted(entries, entry)),
        is_ordered(capped(inserted(entries, entry), capacity)),
        capped(inserted(entries, entry), capacity).len() <= capacity,
        capped(inserted(entries, entry), capacity).len() <= entries.len() + 1,
{
    lemma_insert_point(entries, entry.1);
    let at = insert_point(entries, entry.1);
    let longer = inserted(entries, entry);
    assert forall|i: int, j: int| 0 <= i <= j < longer.len() implies longer[i].1
        <= longer[j].1 by {
        if i < at {
            assert(longer[i] == entries[i]);
        } else if i > at {
            assert(longer[i] == entries[i - 1]);
        }
        if j < at {
            assert(longer[j] == entries[j]);
        } else if j > at {
            assert(longer[j] == entries[j - 1]);
        }
    }
    let cut = capped(longer, capacity);
    assert forall|i: int, j: int| 0 <= i <= j < cut.len() implies cut[i].1 <= cut[j].1 by {
        assert(cut[i] == longer[i] && cut[j] == longer[j]);
    }
}

/// The place that a `usize` names in a sequence.
pub open spec fn place(i: usize) -> int {
    i as int
}

impl BestLayoutsEntry {
    /// How this entry stands to `other` by cost.
    pub fn cmp(&self, other: &BestLayoutsEntry) -> (order: Ordering)
        ensures
            match order {
                Ordering::Less => self.penalty < other.penalty,
                Ordering::Equal => self.penalty == other.penalty,
                Ordering::Greater => self.penalty > other.penalty,
            },
    {
        if self.penalty < other.penalty {
            Ordering::Less
        } else if self.penalty > other.penalty {
            Ordering::Greater
        } else {
            Ordering::Equal
        }
    }
}

/// Puts `entry` into the ordered `list`, before the first entry that costs
/// no less.
pub fn list_insert_ordered(list: Vec<BestLayoutsEntry>, entry: BestLayoutsEntry) -> (longer: Vec<
    BestLayoutsEntry,
>)
    requires
        is_ordered(entry_views(list@)),
    ensures
        entry_views(longer@) == inserted(entry_views(list@), entry@),
        is_ordered(entry_views(longer@)),
{
    let mut list = list;
    let ghost entries = entry_views(list@);
    // The list is in order: the place is behind the entries that cost less.
    let mut at: usize = 0;
    while at < list.len()
        invariant_except_break
            at <= list.len(),
        invariant
            entries == entry_views(list@),
            is_ordered(entries),
            forall|i: int| 0 <= i < at ==> (#[trigger] entries[i]).1 < entry@.1,
        ensures
            at <= list.len(),
            at < list.len() ==> entries[place(at)].1 >= entry@.1,
        decreases list.len() - at,
    {
        let order = entry.cmp(&list[at]);
        assert(entries[place(at)] == list@[place(at)]@);
        match order {
            Ordering::Greater => {},
            _ => {
                break ;
            },
        }
        at += 1;
    }
    proof {
        lemma_insert_point(entries, entry@.1);
        let point = insert_point(entries, entry@.1);
        if point < at {
            assert(entries[point].1 < entry@.1);
        }
        if at < point {
            assert(entries[place(at)].1 < entry@.1);
        }
        lemma_inserted_ordered(entries, entry@, 0);
    }
    list.insert(at, entry);
    proof {
        assert(entry_views(list@) =~= inserted(entries, entry@));
    }
    list
}

/// The best layouts that a search has met, the cheapest first, as many as
/// the list has room for.
pub struct BestLayouts {
    entries: Vec<BestLayoutsEntry>,
    capacity: usize,
}

impl View for BestLayouts {
    type V = Seq<(Keys, int)>;

    closed spec fn view(&self) -> Seq<(Keys, int)> {
        entry_views(self.entries@)
    }
}

impl BestLayouts {
    /// The number of layouts that the list has room for.
    pub closed spec fn room(&self) -> int {
        self.capacity as int
    }

    /// The list is in order and holds no more than it has room for.
    pub open spec fn wf(&self) -> bool {
        is_ordered(self@) && self@.len() <= self.room()
    }

    /// The empty list with room for `capacity` layouts.
    pub fn new(capacity: usize) -> (list: BestLayouts)
        ensures
            list.wf(),
            list@.len() == 0,
            list.room() == capacity,
    {
        BestLayouts { entries: Vec::new(), capacity }
    }

    /// The number of layouts in the list.
    pub fn len(&self) -> (n: usize)
        ensures
            n == self@.len(),
    {
        self.entries.len()
    }

    /// The entry at `i`, counted from the cheapest.
    pub fn get(&self, i: usize) -> (entry: &BestLayoutsEntry)
        requires
            i < self@.len(),
        ensures
            entry@ == self@[i as int],
    {
        &self.entries[i]
    }

    /// Puts `entry` into the list, before the first entry that costs no
    /// less, and drops the costliest entries that the list has no room for.
    pub fn insert(&mut self, entry: BestLayoutsEntry)
        requires
            old(self).wf(),
        ensures
            final(self).wf(),
            final(self).room() == old(self).room(),
            final(self)@ == capped(inserted(old(self)@, entry@), old(self).room()),
    {
        let mut list: Vec<BestLayoutsEntry> = Vec::new();
        std::mem::swap(&mut list, &mut self.entries);
        let ghost longer = inserted(old(self)@, entry@);
        proof {
            lemma_inserted_ordered(old(self)@, entry@, self.room());
        }
        list = list_insert_ordered(list, entry);
        while list.len() > self.capacity
            invariant
                entry_views(list@) == longer.take(list@.len() as int),
                list@.len() <= longer.len(),
                list@.len() >= self.capacity || list@.len() == longer.len(),
            decreases list@.len(),
        {
            list.pop();
            proof {
                assert(entry_views(list@) =~= longer.take(list@.len() as int));
            }
        }
        proof {
            assert(longer.take(longer.len() as int) =~= longer);
        }
        self.entries = list;
    }

    /// The entries, the cheapest first.
    pub fn into_entries(self) -> (entries: Vec<BestLayoutsEntry>)
        ensures
            entry_views(entries@) == self@,
    {
        self.entries
    }
}

/// The layouts that a search has looked at.
pub struct VisitedLayouts {
    seen: Vec<Layout>,
    places: HashMap<u64, Vec<usize>>,
}

impl View for VisitedLayouts {
    type V = Set<Keys>;

    closed spec fn view(&self) -> Set<Keys> {
        Set::new(|keys: Keys| exists|i: int| 0 <= i < self.seen@.len() && self.seen@[i]@ == keys)
    }
}

impl VisitedLayouts {
    /// Each layout is listed under its digest, and what is listed under a
    /// digest is a layout with that digest.
    pub closed spec fn wf(&self) -> bool {
        &&& forall|i: int|
            0 <= i < self.seen@.len() ==> self.places@.contains_key(
                (#[trigger] self.seen@[i])@.digest() as u64,
            ) && self.places@[self.seen@[i]@.digest() as u64]@.contains(i as usize)
        &&& forall|digest: u64, k: int|
            self.places@.contains_key(digest) && 0 <= k < self.places@[digest]@.len() ==> (
            #[trigger] self.places@[digest]@[k]) < self.seen@.len() && self.seen@[self.places@[digest]@[k] as int]@.digest()
                == digest
    }

    /// No layouts.
    pub fn new() -> (visited: VisitedLayouts)
        ensures
            visited.wf(),
            visited@ == Set::<Keys>::empty(),
    {
        let visited = VisitedLayouts { seen: Vec::new(), places: HashMap::new() };
        assert(visited@ =~= Set::<Keys>::empty());
        visited
    }

    /// A layout among the layouts is listed under its digest.
    proof fn lemma_listed(&self, i: int)
        requires
            self.wf(),
            0 <= i < self.seen@.len(),
        ensures
            self.places@.contains_key(self.seen@[i]@.digest() as u64),
            exists|n: int|
                0 <= n < self.places@[self.seen@[i]@.digest() as u64]@.len()
                    && #[trigger] self.places@[self.seen@[i]@.digest() as u64]@[n] == i,
    {
        let listed = self.places@[self.seen@[i]@.digest() as u64]@;
        assert(self.seen.len() == self.seen@.len());
        assert(listed.contains(i as usize));
        let n = choose|n: int| 0 <= n < listed.len() && listed[n] == i as usize;
        assert(listed[n] == i);
    }

    /// Whether `layout` is among the layouts.
    pub fn contains(&self, layout: &Layout) -> (found: bool)
        requires
            self.wf(),
        ensures
            found == self@.contains(layout@),
    {
        let digest = layout.digest();
        match self.places.get(&digest) {
            None => {
                proof {
                    if self@.contains(layout@) {
                        let i = choose|i: int| 0 <= i < self.seen@.len() && self.seen@[i]@ == layout@;
                        self.lemma_listed(i);
                    }
                }
                false
            },
            Some(listed) => {
                let mut k: usize = 0;
                while k < listed.len()
                    invariant
                        self.wf(),
                        k <= listed@.len(),
                        self.places@.contains_key(digest),
                        self.places@[digest]@ == listed@,
                        digest == layout@.digest(),
                        forall|n: int|
                            0 <= n < k ==> self.seen@[(#[trigger] listed@[n]) as int]@ != layout@,
                    decreases listed@.len() - k,
                {
                    assert(self.places@[digest]@[k as int] == listed@[k as int]);
                    if self.seen[listed[k]].same(layout) {
                        return true;
                    }
                    k += 1;
                }
                proof {
                    if self@.contains(layout@) {
                        let i = choose|i: int| 0 <= i < self.seen@.len() && self.seen@[i]@ == layout@;
                        self.lemma_listed(i);
                        let n = choose|n: int|
                            0 <= n < self.places@[digest]@.len()
                                && #[trigger] self.places@[digest]@[n] == i;
                        assert(listed@[n] == i);
                        assert(self.seen@[listed@[n] as int]@ != layout@);
                    }
                }
                false
            },
        }
    }

    /// Adds `layout` to the layouts.
    pub fn insert(&mut self, layout: Layout)
        requires
            old(self).wf(),
        ensures
            final(self).wf(),
            final(self)@ == old(self)@.insert(layout@),
    {
        let digest = layout.digest();
        let place = self.seen.len();
        let mut listed = match self.places.remove(&digest) {
            Some(listed) => listed,
            None => Vec::new(),
        };
        let ghost before = listed@;
        listed.push(place);
        self.places.insert(digest, listed);
        self.seen.push(layout);
        proof {
            assert forall|i: int| 0 <= i < self.seen@.len() implies self.places@.contains_key(
                (#[trigger] self.seen@[i])@.digest() as u64,
            ) && self.places@[self.seen@[i]@.digest() as u64]@.contains(i as usize) by {
                if i < place {
                    assert(self.seen@[i] == old(self).seen@[i]);
                    let at = self.seen@[i]@.digest() as u64;
                    assert(old(self).places@[at]@.contains(i as usize));
                    if at == digest {
                        let n = choose|n: int| 0 <= n < before.len() && before[n] == i as usize;
                        assert(listed@[n] == i as usize);
                    }
                } else {
                    assert(listed@[before.len() as int] == place);
                }
            }
            assert forall|at: u64, k: int|
                self.places@.contains_key(at) && 0 <= k < self.places@[at]@.len() implies (
                #[trigger] self.places@[at]@[k]) < self.seen@.len() && self.seen@[self.places@[at]@[k] as int]@.digest()
                    == at by {
                if at == digest {
                    if k < before.len() {
                        assert(listed@[k] == before[k]);
                        assert(old(self).places@[at]@[k] == before[k]);
                        assert(self.seen@[before[k] as int] == old(self).seen@[before[k] as int]);
                    }
                } else {
                    assert(old(self).places@[at]@[k] == self.places@[at]@[k]);
                    let index = self.places@[at]@[k] as int;
                    assert(self.seen@[index] == old(self).seen@[index]);
                }
            }
            assert forall|keys: Keys| self@.contains(keys) == old(self)@.insert(layout@).contains(
                keys,
            ) by {
                if self@.contains(keys) {
                    let i = choose|i: int| 0 <= i < self.seen@.len() && self.seen@[i]@ == keys;
                    if i < old(self).seen@.len() {
                        assert(old(self).seen@[i]@ == keys);
                    }
                }
                if old(self)@.contains(keys) {
                    let i = choose|i: int|
                        0 <= i < old(self).seen@.len() && old(self).seen@[i]@ == keys;
                    assert(self.seen@[i]@ == keys);
                }
                if keys == layout@ {
                    assert(self.seen@[self.seen@.len() - 1]@ == keys);
                }
            }
            assert(self@ =~= old(self)@.insert(layout@));
        }
    }
}

/// What a text with the windows `quartads` costs on the layout `keys`.
pub open spec fn layout_units(quartads: Seq<(Seq<char>, int)>, keys: Keys) -> int {
    corpus_units(quartads, position_map(keys))
}

/// How far one round of the search has come: the layouts looked at, the
/// best of this round, and all that this round scored, in order.
pub struct RoundState {
    pub visited: Set<Keys>,
    pub best: Seq<(Keys, int)>,
    pub scored: Seq<(Keys, int)>,
    pub places: Seq<int>,
}

/// The place of a layout in a walk as a `usize` holds it: the greatest
/// `usize` stands for every place beyond it.
pub open spec fn walk_place(place: int) -> int {
    if place <= usize::MAX {
        place
    } else {
        usize::MAX as int
    }
}

/// Why a search could not go on.
#[derive(Debug, PartialEq, Eq)]
pub enum SearchError {
    /// The text has no cost on this layout, which the search met.
    Uncovered(Layout),
    /// A round found no layout to go on with.
    NothingFound,
}

/// The round after it has met `candidate` at the place `place` of the walk:
/// a layout looked at before is passed over, any other is scored and put
/// among the best.
pub open spec fn round_step(
    state: RoundState,
    candidate: Keys,
    place: int,
    quartads: Seq<(Seq<char>, int)>,
    capacity: int,
) -> RoundState {
    if state.visited.contains(candidate) {
        state
    } else {
        let entry = (candidate, layout_units(quartads, candidate));
        RoundState {
            visited: state.visited.insert(candidate),
            best: capped(inserted(state.best, entry), capacity),
            scored: state.scored.push(entry),
            places: state.places.push(walk_place(place)),
        }
    }
}

/// The round after it has met `candidates` one after the other, with
/// `visited` looked at before.
pub open spec fn round_of(
    candidates: Seq<Keys>,
    visited: Set<Keys>,
    quartads: Seq<(Seq<char>, int)>,
    capacity: int,
) -> RoundState
    decreases candidates.len(),
{
    if candidates.len() == 0 {
        RoundState { visited, best: Seq::empty(), scored: Seq::empty(), places: Seq::empty() }
    } else {
        round_step(
            round_of(candidates.drop_last(), visited, quartads, capacity),
            candidates.last(),
            candidates.len() - 1,
            quartads,
            capacity,
        )
    }
}

/// Swaps leave a layout with one character for each key in both layers.
pub proof fn lemma_swap_all_wf(keys: Keys, pairs: Seq<(int, int)>)
    requires
        keys.wf(),
        forall|k: int| 0 <= k < pairs.len() ==> is_swap_pair(#[trigger] pairs[k]),
    ensures
        keys.swap_all(pairs).wf(),
    decreases pairs.len(),
{
    if pairs.len() > 0 {
        let rest = pairs.drop_last();
        assert forall|k: int| 0 <= k < rest.len() implies is_swap_pair(#[trigger] rest[k]) by {
            assert(rest[k] == pairs[k]);
        }
        lemma_swap_all_wf(keys, rest);
        assert(is_swap_pair(pairs[pairs.len() - 1]));
    }
}

/// The layouts a number of swaps away from a layout have one character for
/// each key in both layers.
pub proof fn lemma_neighbors_wf(base: Keys, depth: nat)
    requires
        base.wf(),
    ensures
        forall|k: int|
            0 <= k < neighbors(base, depth).len() ==> (#[trigger] neighbors(base, depth)[k]).wf(),
{
    let width = 2 * depth;
    if width <= NUM_SWAPPABLE {
        lemma_first_combination(width);
        lemma_combinations_from(first_combination(width));
        assert forall|k: int| 0 <= k < neighbors(base, depth).len() implies (#[trigger] neighbors(
            base,
            depth,
        )[k]).wf() by {
            let picks = all_combinations(width)[k];
            lemma_combination_pairs(picks);
            lemma_swap_all_wf(base, combination_pairs(picks));
        }
    }
}

/// Whether each entry holds one of `candidates` with what the text costs on
/// it.
pub open spec fn scored_from(
    entries: Seq<(Keys, int)>,
    candidates: Seq<Keys>,
    quartads: Seq<(Seq<char>, int)>,
) -> bool {
    forall|i: int|
        0 <= i < entries.len() ==> (#[trigger] entries[i]).1 == layout_units(
            quartads,
            entries[i].0,
        ) && candidates.contains(entries[i].0)
}

/// The best of a round are in order and no more than there is room for;
/// each of them, and each layout scored, is one of the candidates with its
/// cost. The best is as cheap as any candidate that was not looked at
/// before, as long as there is room for one layout. Every candidate counts
/// as looked at afterwards, and so does what was looked at before.
pub proof fn lemma_round_of(
    candidates: Seq<Keys>,
    visited: Set<Keys>,
    quartads: Seq<(Seq<char>, int)>,
    capacity: int,
)
    requires
        0 <= capacity,
    ensures
        ({
            let state = round_of(candidates, visited, quartads, capacity);
            &&& is_ordered(state.best)
            &&& state.best.len() <= capacity
            &&& state.best.len() <= state.scored.len()
            &&& scored_from(state.best, candidates, quartads)
            &&& scored_from(state.scored, candidates, quartads)
            &&& visited.subset_of(state.visited)
            &&& forall|k: int| 0 <= k < candidates.len() ==> state.visited.contains(candidates[k])
            &&& forall|keys: Keys|
                state.visited.contains(keys) ==> visited.contains(keys) || candidates.contains(keys)
            &&& capacity >= 1 ==> forall|k: int|
                0 <= k < candidates.len() && !visited.contains(#[trigger] candidates[k])
                    ==> state.best.len() > 0 && state.best[0].1 <= layout_units(
                    quartads,
                    candidates[k],
                )
        }),
    decreases candidates.len(),
{
    if candidates.len() > 0 {
        let rest = candidates.drop_last();
        let candidate = candidates.last();
        lemma_round_of(rest, visited, quartads, capacity);
        let before = round_of(rest, visited, quartads, capacity);
        let state = round_of(candidates, visited, quartads, capacity);
        assert forall|keys: Keys| rest.contains(keys) implies candidates.contains(keys) by {
            let i = choose|i: int| 0 <= i < rest.len() && rest[i] == keys;
            assert(candidates[i] == keys);
        }
        assert(candidates.contains(candidate)) by {
            assert(candidates[candidates.len() - 1] == candidate);
        }
        assert forall|k: int| 0 <= k < candidates.len() implies state.visited.contains(
            candidates[k],
        ) by {
            if k < rest.len() {
                assert(rest[k] == candidates[k]);
            }
        }
        if !before.visited.contains(candidate) {
            let entry = (candidate, layout_units(quartads, candidate));
            lemma_inserted_ordered(before.best, entry, capacity);
            lemma_insert_point(before.best, entry.1);
            let at = insert_point(before.best, entry.1);
            let longer = inserted(before.best, entry);
            assert forall|i: int| 0 <= i < longer.len() implies (#[trigger] longer[i]).1
                == layout_units(quartads, longer[i].0) && candidates.contains(longer[i].0) by {
                if i < at {
                    assert(longer[i] == before.best[i]);
                } else if i > at {
                    assert(longer[i] == before.best[i - 1]);
                }
            }
            assert forall|i: int| 0 <= i < state.best.len() implies (#[trigger] state.best[i]).1
                == layout_units(quartads, state.best[i].0) && candidates.contains(
                state.best[i].0,
            ) by {
                assert(state.best[i] == longer[i]);
            }
            assert forall|i: int| 0 <= i < state.scored.len() implies (
            #[trigger] state.scored[i]).1 == layout_units(quartads, state.scored[i].0)
                && candidates.contains(state.scored[i].0) by {
                if i < before.scored.len() {
                    assert(state.scored[i] == before.scored[i]);
                }
            }
            if capacity >= 1 {
                assert(state.best[0] == longer[0]);
                assert forall|k: int|
                    0 <= k < candidates.len() && !visited.contains(
                        #[trigger] candidates[k],
                    ) implies state.best.len() > 0 && state.best[0].1 <= layout_units(
                    quartads,
                    candidates[k],
                ) by {
                    if at == 0 {
                        if before.best.len() > 0 {
                            assert(longer[1] == before.best[0]);
                        }
                    } else {
                        assert(longer[0] == before.best[0]);
                    }
                    if k < rest.len() {
                        assert(rest[k] == candidates[k]);
                    } else {
                    }
                }
            }
        } else {
            if capacity >= 1 {
                assert forall|k: int|
                    0 <= k < candidates.len() && !visited.contains(
                        #[trigger] candidates[k],
                    ) implies state.best.len() > 0 && state.best[0].1 <= layout_units(
                    quartads,
                    candidates[k],
                ) by {
                    if k < rest.len() {
                        assert(rest[k] == candidates[k]);
                    } else {
                        // The last candidate was looked at in this round: an
                        // earlier candidate is the same layout.
                        let keys = candidates[k];
                        assert(rest.contains(keys));
                        let i = choose|i: int| 0 <= i < rest.len() && rest[i] == keys;
                        assert(!visited.contains(rest[i]));
                    }
                }
            }
        }
    }
}

/// What one round of the search found: the best layouts, and with `debug`
/// every layout that the round scored, in order.
#[derive(Debug)]
pub struct RoundReport {
    pub best: Vec<BestLayoutsEntry>,
    pub scored: Vec<BestLayoutsEntry>,
    pub places: Vec<usize>,
}

/// The places of a report as numbers.
pub open spec fn place_views(places: Seq<usize>) -> Seq<int> {
    Seq::new(places.len(), |i: int| places[i] as int)
}

/// Whether the text has a cost on every one of `candidates` that was not
/// looked at before: whether a round can score them all.
pub open spec fn round_covered(
    candidates: Seq<Keys>,
    visited: Set<Keys>,
    quartads: Seq<(Seq<char>, int)>,
) -> bool {
    forall|k: int|
        0 <= k < candidates.len() && !visited.contains(#[trigger] candidates[k]) ==> covers(
            quartads,
            position_map(candidates[k]),
        )
}

/// Whether the candidate at the place `k` is the first that was not looked
/// at before and on which the text has no cost.
pub open spec fn stops_at(
    candidates: Seq<Keys>,
    visited: Set<Keys>,
    quartads: Seq<(Seq<char>, int)>,
    k: int,
) -> bool {
    &&& 0 <= k < candidates.len()
    &&& !visited.contains(candidates[k])
    &&& !covers(quartads, position_map(candidates[k]))
    &&& round_covered(candidates.take(k), visited, quartads)
}

/// The place at which a round stops for want of a cost, where it does.
pub open spec fn stop_place(
    candidates: Seq<Keys>,
    visited: Set<Keys>,
    quartads: Seq<(Seq<char>, int)>,
) -> int {
    choose|k: int| stops_at(candidates, visited, quartads, k)
}

/// A round stops at one place at most.
pub proof fn lemma_stop_place(
    candidates: Seq<Keys>,
    visited: Set<Keys>,
    quartads: Seq<(Seq<char>, int)>,
    k: int,
)
    requires
        stops_at(candidates, visited, quartads, k),
    ensures
        stop_place(candidates, visited, quartads) == k,
        !round_covered(candidates, visited, quartads),
{
    let other = stop_place(candidates, visited, quartads);
    assert(stops_at(candidates, visited, quartads, other));
    if other < k {
        assert(candidates.take(k)[other] == candidates[other]);
    } else if k < other {
        assert(candidates.take(other)[k] == candidates[k]);
    }
}

/// A round that stopped for want of a cost: the layout on which the text
/// has none, and what the round had found before it met that layout.
#[derive(Debug)]
pub struct RoundStop {
    pub layout: Layout,
    pub before: RoundReport,
}

/// Whether the report of a round tells what the round came to: its best,
/// and with `debug` all that it scored, each with its place in the walk.
pub open spec fn round_told(report: RoundReport, state: RoundState, debug: bool) -> bool {
    &&& entry_views(report.best@) == state.best
    &&& entry_views(report.scored@) == if debug {
        state.scored
    } else {
        Seq::empty()
    }
    &&& place_views(report.places@) == if debug {
        state.places
    } else {
        Seq::empty()
    }
}

/// One round of the search: walks through the layouts `num_swaps` swaps
/// away from `current`, scores each that was not looked at before, and
/// keeps the `top_layouts` best. The round stops at the first such layout
/// on which the text has no cost, and tells what it had found before.
pub fn refine_round<'a>(
    quartads: &QuartadList,
    current: &Layout,
    penalties: &Vec<KeyPenalty<'a>>,
    visited: &mut VisitedLayouts,
    debug: bool,
    top_layouts: usize,
    num_swaps: usize,
) -> (round: Result<RoundReport, RoundStop>)
    requires
        quartads.wf(),
        old(visited).wf(),
    ensures
        final(visited).wf(),
        ({
            let candidates = neighbors(current@, num_swaps as nat);
            let state = round_of(candidates, old(visited)@, quartads@, top_layouts as int);
            let k = stop_place(candidates, old(visited)@, quartads@);
            let cut = round_of(candidates.take(k), old(visited)@, quartads@, top_layouts as int);
            match round {
                Ok(report) => {
                    &&& round_covered(candidates, old(visited)@, quartads@)
                    &&& final(visited)@ == state.visited
                    &&& round_told(report, state, debug)
                },
                Err(stop) => {
                    &&& !round_covered(candidates, old(visited)@, quartads@)
                    &&& stops_at(candidates, old(visited)@, quartads@, k)
                    &&& stop.layout@ == candidates[k]
                    &&& final(visited)@ == cut.visited
                    &&& round_told(stop.before, cut, debug)
                },
            }
        }),
{
    let ghost candidates = neighbors(current@, num_swaps as nat);
    let ghost before = visited@;
    let mut best = BestLayouts::new(top_layouts);
    let mut scored: Vec<BestLayoutsEntry> = Vec::new();
    let mut places: Vec<usize> = Vec::new();
    let mut place: usize = 0;
    let mut permutations = LayoutPermutations::new(current, num_swaps);
    let ghost mut done: Seq<Keys> = Seq::empty();
    proof {
        assert(entry_views(scored@) =~= Seq::<(Keys, int)>::empty());
        assert(place_views(places@) =~= Seq::<int>::empty());
    }
    loop
        invariant
            quartads.wf(),
            visited.wf(),
            permutations.wf(),
            best.wf(),
            best.room() == top_layouts,
            candidates == done + permutations.remaining(),
            candidates == neighbors(current@, num_swaps as nat),
            before == old(visited)@,
            place == walk_place(done.len() as int),
            round_covered(done, before, quartads@),
            visited@ == round_of(done, before, quartads@, top_layouts as int).visited,
            best@ == round_of(done, before, quartads@, top_layouts as int).best,
            entry_views(scored@) == if debug {
                round_of(done, before, quartads@, top_layouts as int).scored
            } else {
                Seq::empty()
            },
            place_views(places@) == if debug {
                round_of(done, before, quartads@, top_layouts as int).places
            } else {
                Seq::empty()
            },
        ensures
            done == candidates,
        decreases permutations.remaining().len(),
    {
        let ghost remaining = permutations.remaining();
        let ghost earlier = done;
        let layout = match permutations.next() {
            Some(layout) => layout,
            None => {
                proof {
                    assert(done + remaining =~= done);
                }
                break ;
            },
        };
        let at = place;
        if place < usize::MAX {
            place += 1;
        }
        proof {
            let longer = done.push(layout@);
            assert(longer.drop_last() =~= done);
            assert(longer + permutations.remaining() =~= done + remaining);
            done = longer;
        }
        // A layout that was looked at before is passed over.
        if visited.contains(&layout) {
            proof {
                lemma_round_visited(earlier, before, quartads@, top_layouts as int, layout@);
                assert forall|k: int|
                    0 <= k < done.len() && !before.contains(
                        #[trigger] done[k],
                    ) implies covers(quartads@, position_map(done[k])) by {
                    if k < earlier.len() {
                        assert(done[k] == earlier[k]);
                    } else {
                        let j = choose|j: int| 0 <= j < earlier.len() && earlier[j] == layout@;
                        assert(!before.contains(earlier[j]));
                    }
                }
            }
            continue ;
        }
        // The text must have a cost on the layout.
        if !is_covered(quartads, &layout) {
            proof {
                lemma_round_of(earlier, before, quartads@, top_layouts as int);
                let k = earlier.len() as int;
                assert(candidates[k] == done[k]);
                assert(done[k] == layout@);
                assert(candidates.take(k) =~= earlier);
                assert(!before.contains(layout@));
                assert(round_covered(candidates.take(k), before, quartads@));
                lemma_stop_place(candidates, before, quartads@, k);
            }
            return Err(
                RoundStop {
                    layout,
                    before: RoundReport { best: best.into_entries(), scored, places },
                },
            );
        }
        proof {
            assert forall|k: int|
                0 <= k < done.len() && !before.contains(#[trigger] done[k]) implies covers(
                quartads@,
                position_map(done[k]),
            ) by {
                if k < earlier.len() {
                    assert(done[k] == earlier[k]);
                }
            }
        }
        visited.insert(layout.clone());

        let penalty = calculate_penalty(quartads, &layout, penalties, false);
        if debug {
            let ghost shorter = entry_views(scored@);
            let ghost fewer = place_views(places@);
            scored.push(BestLayoutsEntry { layout: layout.clone(), penalty: penalty.0 });
            places.push(at);
            proof {
                assert(entry_views(scored@) =~= shorter.push((layout@, penalty.0 as int)));
                assert(place_views(places@) =~= fewer.push(at as int));
            }
        }
        best.insert(BestLayoutsEntry { layout, penalty: penalty.0 });
    }
    Ok(RoundReport { best: best.into_entries(), scored, places })
}

/// A layout that counts as looked at in a round was looked at before the
/// round or is one of the candidates that the round has met.
proof fn lemma_round_visited(
    candidates: Seq<Keys>,
    visited: Set<Keys>,
    quartads: Seq<(Seq<char>, int)>,
    capacity: int,
    keys: Keys,
)
    requires
        0 <= capacity,
        round_of(candidates, visited, quartads, capacity).visited.contains(keys),
    ensures
        visited.contains(keys) || candidates.contains(keys),
{
    lemma_round_of(candidates, visited, quartads, capacity);
}

/// What the search for a cheaper layout comes to: its rounds, the layout it
/// ends on, and what the text costs on that layout.
pub struct Refined {
    pub rounds: Seq<RoundState>,
    pub winner: Keys,
    pub penalty: int,
}

/// Whether every window is counted at least once.
pub open spec fn counted(quartads: Seq<(Seq<char>, int)>) -> bool {
    forall|i: int| 0 <= i < quartads.len() ==> (#[trigger] quartads[i]).1 >= 0
}

/// What a text costs at least on any layout: every character counted earns
/// the reward for rolling in at most.
pub open spec fn floor_units(quartads: Seq<(Seq<char>, int)>) -> int {
    ROLL_IN_UNITS * total(quartads)
}

/// A text costs no less than `floor_units` on a layout.
pub proof fn lemma_floor(quartads: Seq<(Seq<char>, int)>, keys: Keys)
    requires
        counted(quartads),
        keys.wf(),
    ensures
        floor_units(quartads) <= layout_units(quartads, keys) <= RULE_COUNT * MAX_RULE_UNITS
            * total(quartads),
{
    lemma_position_map_domain(keys, 'a');
    lemma_corpus_bounds(quartads, position_map(keys));
}

/// The best of a round from a layout costs no less than `floor_units`.
pub proof fn lemma_round_floor(
    current: Keys,
    visited: Set<Keys>,
    quartads: Seq<(Seq<char>, int)>,
    capacity: int,
    depth: nat,
)
    requires
        current.wf(),
        counted(quartads),
        0 <= capacity,
    ensures
        ({
            let state = round_of(neighbors(current, depth), visited, quartads, capacity);
            state.best.len() > 0 ==> state.best[0].0.wf() && state.best[0].1 == layout_units(
                quartads,
                state.best[0].0,
            ) && floor_units(quartads) <= state.best[0].1
        }),
{
    let candidates = neighbors(current, depth);
    let state = round_of(candidates, visited, quartads, capacity);
    lemma_round_of(candidates, visited, quartads, capacity);
    lemma_neighbors_wf(current, depth);
    if state.best.len() > 0 {
        let keys = state.best[0].0;
        assert(candidates.contains(keys));
        let k = choose|k: int| 0 <= k < candidates.len() && candidates[k] == keys;
        assert(candidates[k].wf());
        lemma_floor(quartads, keys);
    }
}

/// The search from the layout `current`, on which the text costs `penalty`,
/// with `visited` looked at before. Each round looks at the layouts `depth`
/// swaps away and keeps the `capacity` best. The search moves on to the
/// best of a round if that is cheaper, and ends where it is not, or where
/// the round found nothing.
pub open spec fn refined(
    current: Keys,
    penalty: int,
    visited: Set<Keys>,
    quartads: Seq<(Seq<char>, int)>,
    capacity: int,
    depth: nat,
) -> Refined
    decreases penalty - floor_units(quartads),
    when current.wf() && counted(quartads) && 0 <= capacity
{
    let state = round_of(neighbors(current, depth), visited, quartads, capacity);
    if state.best.len() == 0 || penalty <= state.best[0].1 {
        Refined { rounds: seq![state], winner: current, penalty }
    } else {
        proof {
            lemma_round_floor(current, visited, quartads, capacity, depth);
        }
        let rest = refined(
            state.best[0].0,
            state.best[0].1,
            state.visited,
            quartads,
            capacity,
            depth,
        );
        Refined { rounds: seq![state] + rest.rounds, winner: rest.winner, penalty: rest.penalty }
    }
}

/// Whether no layout `depth` swaps away from `keys` is cheaper for the text
/// than `keys`.
pub open spec fn is_local_optimum(keys: Keys, quartads: Seq<(Seq<char>, int)>, depth: nat) -> bool {
    forall|k: int|
        0 <= k < neighbors(keys, depth).len() ==> layout_units(
            quartads,
            #[trigger] neighbors(keys, depth)[k],
        ) >= layout_units(quartads, keys)
}

/// From a layout that no layout `depth` swaps away beats, the search makes
/// one round and ends on the layout it started from.
pub proof fn lemma_local_optimum_stays(
    init: Keys,
    quartads: Seq<(Seq<char>, int)>,
    capacity: int,
    depth: nat,
)
    requires
        init.wf(),
        counted(quartads),
        0 <= capacity,
        is_local_optimum(init, quartads, depth),
    ensures
        ({
            let search = refined(
                init,
                layout_units(quartads, init),
                Set::empty(),
                quartads,
                capacity,
                depth,
            );
            &&& search.rounds.len() == 1
            &&& search.winner == init
            &&& search.penalty == layout_units(quartads, init)
        }),
{
    let candidates = neighbors(init, depth);
    let state = round_of(candidates, Set::empty(), quartads, capacity);
    lemma_round_of(candidates, Set::empty(), quartads, capacity);
    if state.best.len() > 0 {
        let keys = state.best[0].0;
        assert(candidates.contains(keys));
        let k = choose|k: int| 0 <= k < candidates.len() && candidates[k] == keys;
        assert(layout_units(quartads, candidates[k]) >= layout_units(quartads, init));
    }
}

/// Where each round keeps at least its best layout, the search ends on a
/// layout that no layout `depth` swaps away beats, and that costs no more
/// than the layout it started from.
pub proof fn lemma_refined_optimum(
    current: Keys,
    penalty: int,
    visited: Set<Keys>,
    quartads: Seq<(Seq<char>, int)>,
    capacity: int,
    depth: nat,
)
    requires
        current.wf(),
        counted(quartads),
        1 <= capacity,
        penalty == layout_units(quartads, current),
        forall|keys: Keys| visited.contains(keys) ==> layout_units(quartads, keys) >= penalty,
    ensures
        ({
            let search = refined(current, penalty, visited, quartads, capacity, depth);
            &&& search.winner.wf()
            &&& search.penalty == layout_units(quartads, search.winner)
            &&& search.penalty <= penalty
            &&& is_local_optimum(search.winner, quartads, depth)
        }),
    decreases penalty - floor_units(quartads),
{
    let candidates = neighbors(current, depth);
    let state = round_of(candidates, visited, quartads, capacity);
    lemma_round_of(candidates, visited, quartads, capacity);
    lemma_round_floor(current, visited, quartads, capacity, depth);
    if state.best.len() == 0 || penalty <= state.best[0].1 {
        assert forall|k: int| 0 <= k < candidates.len() implies layout_units(
            quartads,
            #[trigger] candidates[k],
        ) >= penalty by {
            if !visited.contains(candidates[k]) {
                assert(state.best[0].1 <= layout_units(quartads, candidates[k]));
            }
        }
    } else {
        let next = state.best[0];
        assert forall|keys: Keys| state.visited.contains(keys) implies layout_units(
            quartads,
            keys,
        ) >= next.1 by {
            if !visited.contains(keys) {
                assert(candidates.contains(keys));
                let k = choose|k: int| 0 <= k < candidates.len() && candidates[k] == keys;
                assert(!visited.contains(candidates[k]));
            }
        }
        lemma_refined_optimum(next.0, next.1, state.visited, quartads, capacity, depth);
    }
}

/// What the search for a cheaper layout found: the rounds that it made, the
/// layout that it ends on, and what the text costs on that layout.
#[derive(Debug)]
pub struct RefineReport {
    pub rounds: Vec<RoundReport>,
    pub winner: Layout,
    pub penalty: i128,
}

/// Whether the reports of the rounds tell what the rounds came to.
pub open spec fn rounds_told(reports: Seq<RoundReport>, states: Seq<RoundState>, debug: bool) -> bool {
    &&& reports.len() == states.len()
    &&& forall|i: int| 0 <= i < reports.len() ==> round_told(#[trigger] reports[i], states[i], debug)
}

/// Whether the text has a cost on every layout that the search from
/// `current` on scores.
pub open spec fn search_covered(
    current: Keys,
    penalty: int,
    visited: Set<Keys>,
    quartads: Seq<(Seq<char>, int)>,
    capacity: int,
    depth: nat,
) -> bool
    decreases penalty - floor_units(quartads),
    when current.wf() && counted(quartads) && 0 <= capacity
{
    let state = round_of(neighbors(current, depth), visited, quartads, capacity);
    round_covered(neighbors(current, depth), visited, quartads) && (if state.best.len() == 0
        || penalty <= state.best[0].1 {
        true
    } else {
        proof {
            lemma_round_floor(current, visited, quartads, capacity, depth);
        }
        search_covered(state.best[0].0, state.best[0].1, state.visited, quartads, capacity, depth)
    })
}

/// Whether the search from `current` on stops on `keys` for want of a
/// cost after the rounds `rounds`: `keys` is the first layout without a
/// cost that the first round to meet such a layout comes to, and `rounds`
/// are the rounds up to that one, which is cut short before `keys`.
pub open spec fn search_stops_on(
    current: Keys,
    penalty: int,
    visited: Set<Keys>,
    quartads: Seq<(Seq<char>, int)>,
    capacity: int,
    depth: nat,
    keys: Keys,
    rounds: Seq<RoundState>,
) -> bool
    decreases penalty - floor_units(quartads),
    when current.wf() && counted(quartads) && 0 <= capacity
{
    let candidates = neighbors(current, depth);
    let state = round_of(candidates, visited, quartads, capacity);
    if !round_covered(candidates, visited, quartads) {
        let k = stop_place(candidates, visited, quartads);
        keys == candidates[k] && rounds == seq![
            round_of(candidates.take(k), visited, quartads, capacity),
        ]
    } else if state.best.len() == 0 || penalty <= state.best[0].1 {
        false
    } else {
        proof {
            lemma_round_floor(current, visited, quartads, capacity, depth);
        }
        rounds.len() > 0 && rounds[0] == state && search_stops_on(
            state.best[0].0,
            state.best[0].1,
            state.visited,
            quartads,
            capacity,
            depth,
            keys,
            rounds.drop_first(),
        )
    }
}

/// A search that could not go on: why, and the rounds that it had made,
/// the last of them cut short where the search met a layout on which the
/// text has no cost.
#[derive(Debug)]
pub struct RefineStop {
    pub error: SearchError,
    pub rounds: Vec<RoundReport>,
}

/// Whether the last round of a search found no layout.
pub open spec fn ends_empty(search: Refined) -> bool {
    search.rounds.last().best.len() == 0
}

/// Searches for a cheaper layout from `init_layout` on: looks at every
/// layout `num_swaps` swaps away that it has not looked at before, moves on
/// to the cheapest of them if that is cheaper, and ends where it is not.
/// Each round keeps its `top_layouts` best for the report.
///
/// The search cannot go on where it meets a layout on which the text has no
/// cost, and stops on the first such layout: the layout it starts from, or
/// the first one of a round. Nor can it go on where a round finds no layout
/// at all. Either way it tells the rounds that it had made.
pub fn refine<'a>(
    quartads: &QuartadList,
    init_layout: &Layout,
    penalties: &Vec<KeyPenalty<'a>>,
    debug: bool,
    top_layouts: usize,
    num_swaps: usize,
) -> (found: Result<RefineReport, RefineStop>)
    requires
        quartads.wf(),
    ensures
        ({
            let search = refined(
                init_layout@,
                layout_units(quartads@, init_layout@),
                Set::empty(),
                quartads@,
                top_layouts as int,
                num_swaps as nat,
            );
            let covered = covers(quartads@, position_map(init_layout@)) && search_covered(
                init_layout@,
                layout_units(quartads@, init_layout@),
                Set::empty(),
                quartads@,
                top_layouts as int,
                num_swaps as nat,
            );
            match found {
                Ok(report) => {
                    &&& covered
                    &&& !ends_empty(search)
                    &&& rounds_told(report.rounds@, search.rounds, debug)
                    &&& report.winner@ == search.winner
                    &&& report.penalty == search.penalty
                    &&& report.penalty == layout_units(quartads@, report.winner@)
                    &&& report.penalty <= layout_units(quartads@, init_layout@)
                    &&& is_local_optimum(report.winner@, quartads@, num_swaps as nat)
                    &&& is_local_optimum(init_layout@, quartads@, num_swaps as nat)
                        ==> report.rounds@.len() == 1 && report.winner@ == init_layout@
                },
                Err(stop) => match stop.error {
                    SearchError::Uncovered(layout) => {
                        &&& !covered
                        &&& !covers(quartads@, position_map(layout@))
                        &&& if covers(quartads@, position_map(init_layout@)) {
                            exists|states: Seq<RoundState>|
                                rounds_told(stop.rounds@, states, debug)
                                    && #[trigger] search_stops_on(
                                    init_layout@,
                                    layout_units(quartads@, init_layout@),
                                    Set::empty(),
                                    quartads@,
                                    top_layouts as int,
                                    num_swaps as nat,
                                    layout@,
                                    states,
                                )
                        } else {
                            layout@ == init_layout@ && stop.rounds@.len() == 0
                        }
                    },
                    SearchError::NothingFound => {
                        &&& covered
                        &&& ends_empty(search)
                        &&& rounds_told(stop.rounds@, search.rounds, debug)
                    },
                },
            }
        }),
{
    if !is_covered(quartads, init_layout) {
        return Err(
            RefineStop { error: SearchError::Uncovered(init_layout.clone()), rounds: Vec::new() },
        );
    }
    let penalty = calculate_penalty(quartads, init_layout, penalties, false);
    let mut curr_layout = init_layout.clone();
    let mut curr_penalty = penalty.0;
    let mut visited = VisitedLayouts::new();
    let mut rounds: Vec<RoundReport> = Vec::new();
    let ghost capacity = top_layouts as int;
    let ghost depth = num_swaps as nat;
    let ghost search = refined(
        init_layout@,
        layout_units(quartads@, init_layout@),
        Set::empty(),
        quartads@,
        capacity,
        depth,
    );
    let ghost covered = search_covered(
        init_layout@,
        layout_units(quartads@, init_layout@),
        Set::empty(),
        quartads@,
        capacity,
        depth,
    );
    let ghost mut states: Seq<RoundState> = Seq::empty();
    proof {
        quartads.lemma_wf();
        init_layout.lemma_wf();
        if top_layouts >= 1 {
            lemma_refined_optimum(
                init_layout@,
                layout_units(quartads@, init_layout@),
                Set::empty(),
                quartads@,
                capacity,
                depth,
            );
        }
        if is_local_optimum(init_layout@, quartads@, depth) {
            lemma_local_optimum_stays(init_layout@, quartads@, capacity, depth);
        }
    }
    loop
        invariant_except_break
            rounds_told(rounds@, states, debug),
            search.rounds == states + refined(
                curr_layout@,
                curr_penalty as int,
                visited@,
                quartads@,
                capacity,
                depth,
            ).rounds,
            search.winner == refined(
                curr_layout@,
                curr_penalty as int,
                visited@,
                quartads@,
                capacity,
                depth,
            ).winner,
            search.penalty == refined(
                curr_layout@,
                curr_penalty as int,
                visited@,
                quartads@,
                capacity,
                depth,
            ).penalty,
            covered == search_covered(
                curr_layout@,
                curr_penalty as int,
                visited@,
                quartads@,
                capacity,
                depth,
            ),
            forall|keys: Keys, rest: Seq<RoundState>| #[trigger]
                search_stops_on(
                    curr_layout@,
                    curr_penalty as int,
                    visited@,
                    quartads@,
                    capacity,
                    depth,
                    keys,
                    rest,
                ) ==> search_stops_on(
                    init_layout@,
                    layout_units(quartads@, init_layout@),
                    Set::empty(),
                    quartads@,
                    capacity,
                    depth,
                    keys,
                    states + rest,
                ),
        invariant
            quartads.wf(),
            counted(quartads@),
            visited.wf(),
            capacity == top_layouts,
            depth == num_swaps,
            covers(quartads@, position_map(init_layout@)),
            search == refined(
                init_layout@,
                layout_units(quartads@, init_layout@),
                Set::empty(),
                quartads@,
                capacity,
                depth,
            ),
            covered == search_covered(
                init_layout@,
                layout_units(quartads@, init_layout@),
                Set::empty(),
                quartads@,
                capacity,
                depth,
            ),
            curr_layout@.wf(),
            curr_penalty == layout_units(quartads@, curr_layout@),
            curr_penalty <= layout_units(quartads@, init_layout@),
        ensures
            covered,
            top_layouts >= 1,
            !ends_empty(search),
            rounds_told(rounds@, search.rounds, debug),
            curr_layout@ == search.winner,
            curr_penalty == search.penalty,
            curr_penalty == layout_units(quartads@, curr_layout@),
            curr_penalty <= layout_units(quartads@, init_layout@),
        decreases curr_penalty - floor_units(quartads@),
    {
        let ghost before = visited@;
        let ghost earlier_layout = curr_layout@;
        let ghost earlier_penalty = curr_penalty as int;
        let ghost state = round_of(neighbors(curr_layout@, depth), before, quartads@, capacity);
        let ghost rest_before = refined(
            curr_layout@,
            curr_penalty as int,
            before,
            quartads@,
            capacity,
            depth,
        );
        proof {
            lemma_round_floor(curr_layout@, before, quartads@, capacity, depth);
            lemma_floor(quartads@, curr_layout@);
        }
        // Look at every layout within `num_swaps` swaps of the current one.
        let round = match refine_round(
            quartads,
            &curr_layout,
            penalties,
            &mut visited,
            debug,
            top_layouts,
            num_swaps,
        ) {
            Ok(round) => round,
            Err(stop) => {
                let RoundStop { layout: met, before: partial } = stop;
                let ghost candidates = neighbors(curr_layout@, depth);
                let ghost k = stop_place(candidates, before, quartads@);
                let ghost cut = round_of(candidates.take(k), before, quartads@, capacity);
                let ghost shorter = rounds@;
                rounds.push(partial);
                proof {
                    assert(!search_covered(
                        curr_layout@,
                        curr_penalty as int,
                        before,
                        quartads@,
                        capacity,
                        depth,
                    ));
                    assert(search_stops_on(
                        curr_layout@,
                        curr_penalty as int,
                        before,
                        quartads@,
                        capacity,
                        depth,
                        met@,
                        seq![cut],
                    ));
                    let longer = states + seq![cut];
                    assert forall|i: int| 0 <= i < rounds@.len() implies round_told(
                        #[trigger] rounds@[i],
                        longer[i],
                        debug,
                    ) by {
                        if i < shorter.len() {
                            assert(rounds@[i] == shorter[i]);
                        }
                    }
                    assert(rounds_told(rounds@, longer, debug));
                    assert(search_stops_on(
                        init_layout@,
                        layout_units(quartads@, init_layout@),
                        Set::empty(),
                        quartads@,
                        capacity,
                        depth,
                        met@,
                        longer,
                    ));
                }
                let stopped = RefineStop { error: SearchError::Uncovered(met), rounds };
                proof {
                    assert(stopped.error->Uncovered_0@ == met@);
                }
                return Err(stopped);
            },
        };
        proof {
            lemma_round_of(neighbors(curr_layout@, depth), before, quartads@, capacity);
            assert(covered == (if state.best.len() == 0 || curr_penalty <= state.best[0].1 {
                true
            } else {
                search_covered(
                    state.best[0].0,
                    state.best[0].1,
                    state.visited,
                    quartads@,
                    capacity,
                    depth,
                )
            }));
        }
        // Without a layout to go on with the search is at a loss.
        if round.best.len() == 0 {
            let ghost shorter = rounds@;
            rounds.push(round);
            proof {
                assert(rest_before.rounds =~= seq![state]);
                assert(search.rounds.last() == state);
                let longer = states.push(state);
                assert(search.rounds =~= longer);
                assert forall|i: int| 0 <= i < rounds@.len() implies round_told(
                    #[trigger] rounds@[i],
                    longer[i],
                    debug,
                ) by {
                    if i < shorter.len() {
                        assert(rounds@[i] == shorter[i]);
                    }
                }
            }
            return Err(RefineStop { error: SearchError::NothingFound, rounds });
        }
        // Go on until swapping brings no more improvement.
        let stop = curr_penalty <= round.best[0].penalty;
        proof {
            assert(entry_views(round.best@)[0] == round.best@[0]@);
        }
        if !stop {
            curr_layout = round.best[0].layout.clone();
            curr_penalty = round.best[0].penalty;
        }
        let ghost shorter = rounds@;
        rounds.push(round);
        proof {
            if !stop {
                assert forall|keys: Keys, rest: Seq<RoundState>| #[trigger]
                    search_stops_on(
                        curr_layout@,
                        curr_penalty as int,
                        visited@,
                        quartads@,
                        capacity,
                        depth,
                        keys,
                        rest,
                    ) implies search_stops_on(
                    init_layout@,
                    layout_units(quartads@, init_layout@),
                    Set::empty(),
                    quartads@,
                    capacity,
                    depth,
                    keys,
                    states.push(state) + rest,
                ) by {
                    let whole = seq![state] + rest;
                    assert(whole[0] == state);
                    assert(whole.drop_first() =~= rest);
                    assert(search_stops_on(
                        earlier_layout,
                        earlier_penalty,
                        before,
                        quartads@,
                        capacity,
                        depth,
                        keys,
                        whole,
                    ));
                    assert(states + whole =~= states.push(state) + rest);
                }
            }
            let longer = states.push(state);
            assert forall|i: int| 0 <= i < rounds@.len() implies round_told(
                #[trigger] rounds@[i],
                longer[i],
                debug,
            ) by {
                if i < shorter.len() {
                    assert(rounds@[i] == shorter[i]);
                }
            }
            if stop {
                assert(states + seq![state] =~= longer);
                assert(search.rounds.last() == state);
            } else {
                let rest = refined(
                    curr_layout@,
                    curr_penalty as int,
                    visited@,
                    quartads@,
                    capacity,
                    depth,
                );
                assert(states + (seq![state] + rest.rounds) =~= longer + rest.rounds);
            }
            states = longer;
        }
        if stop {
            break ;
        }
    }
    Ok(RefineReport { rounds, winner: curr_layout, penalty: curr_penalty })
}

/// How many swaps a proposal makes when `draw` is drawn: between one and
/// `num_swaps`.
pub fn swap_count_from(draw: usize, num_swaps: usize) -> (count: usize)
    requires
        num_swaps > 0,
    ensures
        count == draw % num_swaps + 1,
        1 <= count <= num_swaps,
{
    draw % num_swaps + 1
}

/// Whether each entry holds a layout that can be reached from `init` by
/// swaps, with what the text costs on it.
pub open spec fn found_from(
    entries: Seq<(Keys, int)>,
    init: Keys,
    quartads: Seq<(Seq<char>, int)>,
) -> bool {
    forall|i: int|
        0 <= i < entries.len() ==> (#[trigger] entries[i]).1 == layout_units(
            quartads,
            entries[i].0,
        ) && reachable(init, entries[i].0)
}

/// Putting an entry into a list and cutting the list down leaves only
/// entries of the list and the entry put in.
pub proof fn lemma_capped_inserted(entries: Seq<(Keys, int)>, entry: (Keys, int), capacity: int)
    requires
        is_ordered(entries),
        0 <= capacity,
    ensures
        forall|i: int|
            0 <= i < capped(inserted(entries, entry), capacity).len() ==> #[trigger] capped(
                inserted(entries, entry),
                capacity,
            )[i] == entry || entries.contains(capped(inserted(entries, entry), capacity)[i]),
{
    lemma_insert_point(entries, entry.1);
    let at = insert_point(entries, entry.1);
    let longer = inserted(entries, entry);
    let cut = capped(longer, capacity);
    assert forall|i: int| 0 <= i < cut.len() implies #[trigger] cut[i] == entry
        || entries.contains(cut[i]) by {
        assert(cut[i] == longer[i]);
        if i < at {
            assert(longer[i] == entries[i]);
        } else if i > at {
            assert(longer[i] == entries[i - 1]);
        }
    }
}

/// The state of a search by annealing: the layout that the search stands
/// on, what the text costs on it, and the best layouts met.
pub struct Annealing {
    accepted: Layout,
    accepted_penalty: i128,
    best: BestLayouts,
}

impl Annealing {
    /// The layout that the search stands on.
    pub closed spec fn spec_accepted(&self) -> Keys {
        self.accepted@
    }

    /// What the text costs on the layout that the search stands on.
    pub closed spec fn spec_penalty(&self) -> int {
        self.accepted_penalty as int
    }

    /// The best layouts met, the cheapest first.
    pub closed spec fn spec_best(&self) -> Seq<(Keys, int)> {
        self.best@
    }

    /// The number of layouts that the list of the best has room for.
    pub closed spec fn room(&self) -> int {
        self.best.room()
    }

    /// The list of the best is in order and within its room.
    pub closed spec fn wf(&self) -> bool {
        self.best.wf()
    }

    /// The search that stands on `init_layout`, on which the text costs
    /// `penalty`, with that layout as the best so far.
    pub fn new(init_layout: &Layout, penalty: i128, top_layouts: usize) -> (search: Annealing)
        ensures
            search.wf(),
            search.room() == top_layouts,
            search.spec_accepted() == init_layout@,
            search.spec_penalty() == penalty,
            search.spec_best() == capped(seq![(init_layout@, penalty as int)], top_layouts as int),
    {
        let mut best = BestLayouts::new(top_layouts);
        proof {
            assert(inserted(best@, (init_layout@, penalty as int)) =~= seq![
                (init_layout@, penalty as int),
            ]);
        }
        best.insert(BestLayoutsEntry { layout: init_layout.clone(), penalty });
        Annealing { accepted: init_layout.clone(), accepted_penalty: penalty, best }
    }

    /// The layout that the search stands on.
    pub fn accepted(&self) -> (layout: &Layout)
        ensures
            layout@ == self.spec_accepted(),
    {
        &self.accepted
    }

    /// What the text costs on the layout that the search stands on.
    pub fn accepted_penalty(&self) -> (penalty: i128)
        ensures
            penalty == self.spec_penalty(),
    {
        self.accepted_penalty
    }

    /// The best layouts met, the cheapest first.
    pub fn best(&self) -> (best: &BestLayouts)
        ensures
            best@ == self.spec_best(),
    {
        &self.best
    }

    /// A layout to try next: the layout that the search stands on after
    /// between one and `num_swaps` swaps picked at random.
    pub fn propose(&self, num_swaps: usize) -> (candidate: Layout)
        requires
            num_swaps > 0,
        ensures
            exists|times: int|
                1 <= times <= num_swaps && swapped_times(self.spec_accepted(), candidate@, times),
    {
        let times = swap_count_from(random_number(), num_swaps);
        let mut candidate = self.accepted.clone();
        candidate.shuffle(times);
        proof {
            assert(swapped_times(self.spec_accepted(), candidate@, times as int));
        }
        candidate
    }

    /// Moves the search on to `candidate`, on which the text costs
    /// `penalty`, if it is accepted, and puts it among the best. A candidate
    /// that is not accepted changes nothing.
    pub fn decide(&mut self, candidate: Layout, penalty: i128, accept: bool)
        requires
            old(self).wf(),
        ensures
            final(self).wf(),
            final(self).room() == old(self).room(),
            accept ==> final(self).spec_accepted() == candidate@ && final(self).spec_penalty()
                == penalty && final(self).spec_best() == capped(
                inserted(old(self).spec_best(), (candidate@, penalty as int)),
                old(self).room(),
            ),
            !accept ==> final(self).spec_accepted() == old(self).spec_accepted(),
            !accept ==> final(self).spec_penalty() == old(self).spec_penalty(),
            !accept ==> final(self).spec_best() == old(self).spec_best(),
    {
        if accept {
            self.accepted = candidate.clone();
            self.accepted_penalty = penalty;
            self.best.insert(BestLayoutsEntry { layout: candidate, penalty });
        }
    }

    /// Ends the search and hands out the best layouts met, the cheapest
    /// first.
    pub fn into_best(self) -> (best: Vec<BestLayoutsEntry>)
        ensures
            entry_views(best@) == self.spec_best(),
    {
        self.best.into_entries()
    }
}

/// What a search by annealing found: the best layouts met, the cheapest
/// first, and with `debug` each step that was accepted with what the text
/// costs after it.
#[derive(Debug)]
pub struct SimulateReport {
    pub best: Vec<BestLayoutsEntry>,
    pub accepted: Vec<(usize, i128)>,
}

/// How far a search by annealing has come: the layout that it stands on,
/// what the text costs on it, and the best layouts met.
pub struct AnnealingState {
    pub accepted: Keys,
    pub penalty: int,
    pub best: Seq<(Keys, int)>,
}

/// The search after one step: the layout that the swaps `pairs` make of the
/// layout that the search stands on is stood on and put among the best if
/// the step is accepted, and let go if not.
pub open spec fn annealing_step(
    state: AnnealingState,
    pairs: Seq<(int, int)>,
    accepted: bool,
    quartads: Seq<(Seq<char>, int)>,
    capacity: int,
) -> AnnealingState {
    let candidate = state.accepted.swap_all(pairs);
    let penalty = layout_units(quartads, candidate);
    if accepted {
        AnnealingState {
            accepted: candidate,
            penalty,
            best: capped(inserted(state.best, (candidate, penalty)), capacity),
        }
    } else {
        state
    }
}

/// The search from `init` on after the steps that try the swaps of
/// `proposals` one after the other, of which `decisions` tells whether each
/// is accepted.
pub open spec fn annealed(
    init: Keys,
    proposals: Seq<Seq<(int, int)>>,
    decisions: Seq<bool>,
    quartads: Seq<(Seq<char>, int)>,
    capacity: int,
) -> AnnealingState
    decreases proposals.len(),
{
    if proposals.len() == 0 {
        AnnealingState {
            accepted: init,
            penalty: layout_units(quartads, init),
            best: capped(seq![(init, layout_units(quartads, init))], capacity),
        }
    } else {
        annealing_step(
            annealed(init, proposals.drop_last(), decisions.drop_last(), quartads, capacity),
            proposals.last(),
            decisions.last(),
            quartads,
            capacity,
        )
    }
}

/// By how much the layout that the step `k` tries is costlier than the
/// layout that the search stands on before that step.
pub open spec fn rise_at(
    init: Keys,
    proposals: Seq<Seq<(int, int)>>,
    decisions: Seq<bool>,
    k: int,
    quartads: Seq<(Seq<char>, int)>,
    capacity: int,
) -> int {
    let before = annealed(init, proposals.take(k), decisions.take(k), quartads, capacity);
    layout_units(quartads, before.accepted.swap_all(proposals[k])) - before.penalty
}

/// The steps accepted among the first `n`, each with its number, counted
/// from `first`, and with what the text costs on the layout it moved on to.
pub open spec fn accepted_steps(
    init: Keys,
    proposals: Seq<Seq<(int, int)>>,
    decisions: Seq<bool>,
    first: int,
    n: int,
    quartads: Seq<(Seq<char>, int)>,
    capacity: int,
) -> Seq<(int, int)>
    decreases n,
{
    if n <= 0 {
        Seq::empty()
    } else {
        let before = accepted_steps(init, proposals, decisions, first, n - 1, quartads, capacity);
        if decisions[n - 1] {
            before.push(
                (
                    first + n - 1,
                    annealed(init, proposals.take(n), decisions.take(n), quartads, capacity).penalty,
                ),
            )
        } else {
            before
        }
    }
}

/// Whether `decisions` holds what `accept` answered at each step, asked by
/// how much the layout tried is costlier and for the number of the step,
/// counted from `first`.
pub open spec fn decided_by<F: Fn(i128, usize) -> bool>(
    accept: F,
    init: Keys,
    proposals: Seq<Seq<(int, int)>>,
    decisions: Seq<bool>,
    first: int,
    quartads: Seq<(Seq<char>, int)>,
    capacity: int,
) -> bool {
    &&& decisions.len() == proposals.len()
    &&& forall|k: int|
        0 <= k < proposals.len() ==> accept.ensures(
            (
                rise_at(init, proposals, decisions, k, quartads, capacity) as i128,
                (first + k) as usize,
            ),
            #[trigger] decisions[k],
        )
}

/// The layout that the step `k` tries.
pub open spec fn tried_at(
    init: Keys,
    proposals: Seq<Seq<(int, int)>>,
    decisions: Seq<bool>,
    k: int,
    quartads: Seq<(Seq<char>, int)>,
    capacity: int,
) -> Keys {
    annealed(init, proposals.take(k), decisions.take(k), quartads, capacity).accepted.swap_all(
        proposals[k],
    )
}

/// Whether the text has a cost on the first layout and on every layout
/// that a step tries.
pub open spec fn tried_covered(
    init: Keys,
    proposals: Seq<Seq<(int, int)>>,
    decisions: Seq<bool>,
    quartads: Seq<(Seq<char>, int)>,
    capacity: int,
) -> bool {
    &&& covers(quartads, position_map(init))
    &&& forall|k: int|
        0 <= k < proposals.len() ==> covers(
            quartads,
            position_map(#[trigger] tried_at(init, proposals, decisions, k, quartads, capacity)),
        )
}

/// Whether a search by annealing stops on `layout` for want of a cost: the
/// text has no cost on it, and it is the first layout, or the layout that a
/// step tries after steps that `accept` decided and that tried layouts on
/// which the text has a cost. With `debug`, `steps` are the steps accepted
/// before; without, there are none.
pub open spec fn stopped_on<F: Fn(i128, usize) -> bool>(
    accept: F,
    init: Keys,
    proposals: Seq<Seq<(int, int)>>,
    layout: Keys,
    first: int,
    quartads: Seq<(Seq<char>, int)>,
    capacity: int,
    debug: bool,
    steps: Seq<(int, int)>,
) -> bool {
    &&& !covers(quartads, position_map(layout))
    &&& (layout == init && steps.len() == 0) || exists|n: int, decisions: Seq<bool>|
        0 <= n < proposals.len() && #[trigger] decided_by(
            accept,
            init,
            proposals.take(n),
            decisions,
            first,
            quartads,
            capacity,
        ) && tried_covered(init, proposals.take(n), decisions, quartads, capacity) && layout
            == annealed(init, proposals.take(n), decisions, quartads, capacity).accepted.swap_all(
            proposals[n],
        ) && steps == if debug {
            accepted_steps(init, proposals.take(n), decisions, first, n, quartads, capacity)
        } else {
            Seq::empty()
        }
}

/// A search stops on the first layout, whatever it would try, if the text
/// has no cost on it.
proof fn lemma_stopped_on_first<F: Fn(i128, usize) -> bool>(
    accept: F,
    init: Keys,
    first: int,
    quartads: Seq<(Seq<char>, int)>,
    capacity: int,
    debug: bool,
)
    requires
        !covers(quartads, position_map(init)),
    ensures
        stopped_on(
            accept,
            init,
            Seq::<Seq<(int, int)>>::empty(),
            init,
            first,
            quartads,
            capacity,
            debug,
            Seq::<(int, int)>::empty(),
        ),
        forall|end: int, num_swaps: int| #[trigger]
            stopped_within(
                accept,
                init,
                init,
                first,
                end,
                num_swaps,
                quartads,
                capacity,
                debug,
                Seq::<(int, int)>::empty(),
            ),
{
    let none = Seq::<Seq<(int, int)>>::empty();
    assert forall|end: int, num_swaps: int| #[trigger]
        stopped_within(
            accept,
            init,
            init,
            first,
            end,
            num_swaps,
            quartads,
            capacity,
            debug,
            Seq::<(int, int)>::empty(),
        ) by {
        assert(are_proposals(none, num_swaps));
        assert(stopped_on(
            accept,
            init,
            none,
            init,
            first,
            quartads,
            capacity,
            debug,
            Seq::<(int, int)>::empty(),
        ));
    }
}

/// The difference between what a text costs on two layouts is a number
/// that the machine can hold.
proof fn lemma_rise_fits(quartads: Seq<(Seq<char>, int)>, from: Keys, to: Keys)
    requires
        counted(quartads),
        0 <= total(quartads) <= usize::MAX,
        from.wf(),
        to.wf(),
    ensures
        i128::MIN <= layout_units(quartads, to) - layout_units(quartads, from) <= i128::MAX,
{
    lemma_floor(quartads, from);
    lemma_floor(quartads, to);
    let all = total(quartads);
    assert(floor_units(quartads) == -5 * all);
    assert(RULE_COUNT * MAX_RULE_UNITS * all == 12000 * all) by (nonlinear_arith)
        requires
            RULE_COUNT == 12,
            MAX_RULE_UNITS == 1000,
    ;
}

/// A search stops on the layout that a step tries if the text has no cost
/// on it.
proof fn lemma_stopped_on<F: Fn(i128, usize) -> bool>(
    accept: F,
    init: Keys,
    proposals: Seq<Seq<(int, int)>>,
    n: int,
    decisions: Seq<bool>,
    layout: Keys,
    first: int,
    quartads: Seq<(Seq<char>, int)>,
    capacity: int,
    debug: bool,
    steps: Seq<(int, int)>,
)
    requires
        0 <= n < proposals.len(),
        decided_by(accept, init, proposals.take(n), decisions, first, quartads, capacity),
        tried_covered(init, proposals.take(n), decisions, quartads, capacity),
        !covers(quartads, position_map(layout)),
        layout == annealed(init, proposals.take(n), decisions, quartads, capacity).accepted.swap_all(
            proposals[n],
        ),
        steps == if debug {
            accepted_steps(init, proposals.take(n), decisions, first, n, quartads, capacity)
        } else {
            Seq::empty()
        },
    ensures
        stopped_on(accept, init, proposals, layout, first, quartads, capacity, debug, steps),
{
}

/// One more step that tries a layout on which the text has a cost leaves
/// the text with a cost on every layout tried.
proof fn lemma_one_more_covered(
    init: Keys,
    proposals: Seq<Seq<(int, int)>>,
    decisions: Seq<bool>,
    pairs: Seq<(int, int)>,
    decision: bool,
    quartads: Seq<(Seq<char>, int)>,
    capacity: int,
)
    requires
        decisions.len() == proposals.len(),
        tried_covered(init, proposals, decisions, quartads, capacity),
        covers(
            quartads,
            position_map(
                annealed(init, proposals, decisions, quartads, capacity).accepted.swap_all(pairs),
            ),
        ),
    ensures
        tried_covered(init, proposals.push(pairs), decisions.push(decision), quartads, capacity),
{
    let k = proposals.len() as int;
    let tried = proposals.push(pairs);
    let decided = decisions.push(decision);
    assert(tried.take(k) =~= proposals);
    assert(decided.take(k) =~= decisions);
    assert forall|j: int| 0 <= j < tried.len() implies covers(
        quartads,
        position_map(#[trigger] tried_at(init, tried, decided, j, quartads, capacity)),
    ) by {
        if j < k {
            assert(tried.take(j) =~= proposals.take(j));
            assert(decided.take(j) =~= decisions.take(j));
            assert(tried[j] == proposals[j]);
            assert(tried_at(init, tried, decided, j, quartads, capacity) == tried_at(
                init,
                proposals,
                decisions,
                j,
                quartads,
                capacity,
            ));
        }
    }
}

/// A search by annealing that stopped for want of a cost: the layout on
/// which the text has none, and with `debug` the steps accepted before.
#[derive(Debug)]
pub struct SimulateStop {
    pub layout: Layout,
    pub accepted: Vec<(usize, i128)>,
}

/// The swaps that the draws of each proposal pick.
pub open spec fn proposal_pairs(proposals: Seq<Vec<(usize, usize)>>) -> Seq<Seq<(int, int)>> {
    Seq::new(proposals.len(), |k: int| drawn_pairs(proposals[k]@))
}

/// The steps of a report as pairs of numbers.
pub open spec fn step_views(steps: Seq<(usize, i128)>) -> Seq<(int, int)> {
    Seq::new(steps.len(), |k: int| (steps[k].0 as int, steps[k].1 as int))
}

/// Searches for a cheaper layout by annealing with the swaps that
/// `proposals` draws: at each step the search tries the layout that it
/// stands on after the swaps of that step's draws, and asks `accept`
/// whether to move on to it, given by how much it is costlier and the
/// number of the step, counted from `first`. A layout moved on to is put
/// among the `top_layouts` best.
///
/// The search stops at the first layout on which the text has no cost, and
/// tells the steps that it had accepted before.
#[verifier::rlimit(40)]
pub fn simulate_with<'a, F: Fn(i128, usize) -> bool>(
    quartads: &QuartadList,
    init_layout: &Layout,
    penalties: &Vec<KeyPenalty<'a>>,
    debug: bool,
    top_layouts: usize,
    proposals: &Vec<Vec<(usize, usize)>>,
    first: usize,
    accept: F,
) -> (found: Result<SimulateReport, SimulateStop>)
    requires
        quartads.wf(),
        first + proposals@.len() <= usize::MAX,
        forall|delta: i128, step: usize| accept.requires((delta, step)),
    ensures
        match found {
            Ok(report) => exists|decisions: Seq<bool>|
                {
                    &&& #[trigger] decided_by(
                        accept,
                        init_layout@,
                        proposal_pairs(proposals@),
                        decisions,
                        first as int,
                        quartads@,
                        top_layouts as int,
                    )
                    &&& tried_covered(
                        init_layout@,
                        proposal_pairs(proposals@),
                        decisions,
                        quartads@,
                        top_layouts as int,
                    )
                    &&& entry_views(report.best@) == annealed(
                        init_layout@,
                        proposal_pairs(proposals@),
                        decisions,
                        quartads@,
                        top_layouts as int,
                    ).best
                    &&& step_views(report.accepted@) == if debug {
                        accepted_steps(
                            init_layout@,
                            proposal_pairs(proposals@),
                            decisions,
                            first as int,
                            proposals@.len() as int,
                            quartads@,
                            top_layouts as int,
                        )
                    } else {
                        Seq::empty()
                    }
                },
            Err(stop) => stopped_on(
                accept,
                init_layout@,
                proposal_pairs(proposals@),
                stop.layout@,
                first as int,
                quartads@,
                top_layouts as int,
                debug,
                step_views(stop.accepted@),
            ),
        },
        // Without a cost on the first layout the search stops there; with
        // one and no step to make it ends well.
        !covers(quartads@, position_map(init_layout@)) ==> match found {
            Ok(_) => false,
            Err(stop) => stop.layout@ == init_layout@ && stop.accepted@.len() == 0,
        },
        covers(quartads@, position_map(init_layout@)) && proposals@.len() == 0 ==> found is Ok,
{
    if !is_covered(quartads, init_layout) {
        let stopped = SimulateStop { layout: init_layout.clone(), accepted: Vec::new() };
        proof {
            assert(step_views(stopped.accepted@) =~= Seq::<(int, int)>::empty());
        }
        return Err(stopped);
    }
    let penalty = calculate_penalty(quartads, init_layout, penalties, false);
    let mut search = Annealing::new(init_layout, penalty.0, top_layouts);
    let mut accepted: Vec<(usize, i128)> = Vec::new();
    let ghost all = proposal_pairs(proposals@);
    let ghost capacity = top_layouts as int;
    let ghost mut tried: Seq<Seq<(int, int)>> = Seq::empty();
    let ghost mut decisions: Seq<bool> = Seq::empty();
    proof {
        quartads.lemma_wf();
        init_layout.lemma_wf();
        crate::corpus::lemma_total_nonnegative(quartads@);
        assert(all.take(0) =~= tried);
        assert(step_views(accepted@) =~= Seq::<(int, int)>::empty());
    }
    let mut k: usize = 0;
    while k < proposals.len()
        invariant
            k <= proposals@.len(),
            first + proposals@.len() <= usize::MAX,
            quartads.wf(),
            counted(quartads@),
            0 <= total(quartads@) <= usize::MAX,
            forall|delta: i128, step: usize| accept.requires((delta, step)),
            all == proposal_pairs(proposals@),
            capacity == top_layouts,
            tried == all.take(k as int),
            decided_by(accept, init_layout@, tried, decisions, first as int, quartads@, capacity),
            tried_covered(init_layout@, tried, decisions, quartads@, capacity),
            search.wf(),
            search.room() == top_layouts,
            search.spec_accepted().wf(),
            search.spec_accepted() == annealed(
                init_layout@,
                tried,
                decisions,
                quartads@,
                capacity,
            ).accepted,
            search.spec_penalty() == annealed(
                init_layout@,
                tried,
                decisions,
                quartads@,
                capacity,
            ).penalty,
            search.spec_best() == annealed(init_layout@, tried, decisions, quartads@, capacity).best,
            search.spec_penalty() == layout_units(quartads@, search.spec_accepted()),
            step_views(accepted@) == if debug {
                accepted_steps(
                    init_layout@,
                    tried,
                    decisions,
                    first as int,
                    k as int,
                    quartads@,
                    capacity,
                )
            } else {
                Seq::empty()
            },
        decreases proposals@.len() - k,
    {
        // Try the layout after the swaps of this step.
        let mut candidate = search.accepted().clone();
        candidate.shuffle_with(&proposals[k]);
        // The text must have a cost on the layout.
        if !is_covered(quartads, &candidate) {
            proof {
                lemma_stopped_on(
                    accept,
                    init_layout@,
                    all,
                    k as int,
                    decisions,
                    candidate@,
                    first as int,
                    quartads@,
                    capacity,
                    debug,
                    step_views(accepted@),
                );
            }
            return Err(SimulateStop { layout: candidate, accepted });
        }
        let scored = calculate_penalty(quartads, &candidate, penalties, false);
        proof {
            candidate.lemma_wf();
            lemma_rise_fits(quartads@, search.spec_accepted(), candidate@);
        }
        let delta = scored.0 - search.accepted_penalty();
        let moved = accept(delta, first + k);
        proof {
            let pairs = drawn_pairs(proposals@[k as int]@);
            lemma_one_more_step(
                accept,
                init_layout@,
                tried,
                decisions,
                pairs,
                moved,
                first as int,
                quartads@,
                capacity,
            );
            lemma_one_more_covered(
                init_layout@,
                tried,
                decisions,
                pairs,
                moved,
                quartads@,
                capacity,
            );
            assert(all.take(k + 1) =~= tried.push(pairs));
            tried = tried.push(pairs);
            decisions = decisions.push(moved);
        }
        if moved && debug {
            let ghost shorter = step_views(accepted@);
            accepted.push((first + k, scored.0));
            proof {
                assert(step_views(accepted@) =~= shorter.push((first + k, scored.0 as int)));
            }
        }
        search.decide(candidate, scored.0, moved);
        k += 1;
    }
    proof {
        assert(all.take(k as int) =~= all);
    }
    Ok(SimulateReport { best: search.into_best(), accepted })
}

/// One more decision leaves the steps accepted before as they were, and
/// adds the step decided where it is accepted.
proof fn lemma_accepted_steps_grow(
    init: Keys,
    proposals: Seq<Seq<(int, int)>>,
    decisions: Seq<bool>,
    decision: bool,
    first: int,
    k: int,
    quartads: Seq<(Seq<char>, int)>,
    capacity: int,
)
    requires
        0 <= k < proposals.len(),
        decisions.len() == k,
    ensures
        accepted_steps(init, proposals, decisions.push(decision), first, k + 1, quartads, capacity)
            == if decision {
            accepted_steps(init, proposals, decisions, first, k, quartads, capacity).push(
                (
                    first + k,
                    annealed(
                        init,
                        proposals.take(k + 1),
                        decisions.push(decision),
                        quartads,
                        capacity,
                    ).penalty,
                ),
            )
        } else {
            accepted_steps(init, proposals, decisions, first, k, quartads, capacity)
        },
{
    let longer = decisions.push(decision);
    assert(decisions.take(k) =~= longer.take(k));
    lemma_accepted_steps_same(init, proposals, decisions, longer, first, k, quartads, capacity);
    assert(longer.take(k + 1) =~= longer);
}

/// The steps accepted among the first `n` depend on the first `n`
/// decisions alone.
proof fn lemma_accepted_steps_same(
    init: Keys,
    proposals: Seq<Seq<(int, int)>>,
    decisions: Seq<bool>,
    others: Seq<bool>,
    first: int,
    n: int,
    quartads: Seq<(Seq<char>, int)>,
    capacity: int,
)
    requires
        0 <= n <= decisions.len(),
        n <= others.len(),
        decisions.take(n) == others.take(n),
    ensures
        accepted_steps(init, proposals, decisions, first, n, quartads, capacity) == accepted_steps(
            init,
            proposals,
            others,
            first,
            n,
            quartads,
            capacity,
        ),
    decreases n,
{
    if n > 0 {
        assert(decisions.take(n - 1) =~= decisions.take(n).take(n - 1));
        assert(others.take(n - 1) =~= others.take(n).take(n - 1));
        lemma_accepted_steps_same(init, proposals, decisions, others, first, n - 1, quartads, capacity);
        assert(decisions[n - 1] == decisions.take(n)[n - 1]);
        assert(others[n - 1] == others.take(n)[n - 1]);
    }
}

/// Whether each proposal makes between one and `num_swaps` swaps, each of
/// two different keys that may move.
pub open spec fn are_proposals(proposals: Seq<Seq<(int, int)>>, num_swaps: int) -> bool {
    forall|k: int|
        0 <= k < proposals.len() ==> 1 <= (#[trigger] proposals[k]).len() <= num_swaps && forall|
            m: int,
        | 0 <= m < proposals[k].len() ==> is_swap_pair(#[trigger] proposals[k][m])
}

/// Proposals stay proposals with one more of between one and `num_swaps`
/// swaps, each of two different keys that may move.
proof fn lemma_one_more_proposal(
    proposals: Seq<Seq<(int, int)>>,
    pairs: Seq<(int, int)>,
    num_swaps: int,
)
    requires
        are_proposals(proposals, num_swaps),
        1 <= pairs.len() <= num_swaps,
        forall|m: int| 0 <= m < pairs.len() ==> is_swap_pair(#[trigger] pairs[m]),
    ensures
        are_proposals(proposals.push(pairs), num_swaps),
{
    let longer = proposals.push(pairs);
    assert forall|j: int| 0 <= j < longer.len() implies 1 <= (#[trigger] longer[j]).len()
        <= num_swaps && forall|m: int|
        0 <= m < longer[j].len() ==> is_swap_pair(#[trigger] longer[j][m]) by {
        if j < proposals.len() {
            assert(longer[j] == proposals[j]);
        }
    }
}

/// One more step: the search after it is the search before it after that
/// step, the answers given before stay what `accept` answered, and the
/// steps accepted before stay the steps accepted.
proof fn lemma_one_more_step<F: Fn(i128, usize) -> bool>(
    accept: F,
    init: Keys,
    proposals: Seq<Seq<(int, int)>>,
    decisions: Seq<bool>,
    pairs: Seq<(int, int)>,
    decision: bool,
    first: int,
    quartads: Seq<(Seq<char>, int)>,
    capacity: int,
)
    requires
        decided_by(accept, init, proposals, decisions, first, quartads, capacity),
        ({
            let before = annealed(init, proposals, decisions, quartads, capacity);
            accept.ensures(
                (
                    (layout_units(quartads, before.accepted.swap_all(pairs)) - before.penalty) as i128,
                    (first + proposals.len()) as usize,
                ),
                decision,
            )
        }),
    ensures
        decided_by(
            accept,
            init,
            proposals.push(pairs),
            decisions.push(decision),
            first,
            quartads,
            capacity,
        ),
        annealed(init, proposals.push(pairs), decisions.push(decision), quartads, capacity)
            == annealing_step(
            annealed(init, proposals, decisions, quartads, capacity),
            pairs,
            decision,
            quartads,
            capacity,
        ),
        accepted_steps(
            init,
            proposals.push(pairs),
            decisions.push(decision),
            first,
            proposals.len() as int + 1,
            quartads,
            capacity,
        ) == if decision {
            accepted_steps(
                init,
                proposals,
                decisions,
                first,
                proposals.len() as int,
                quartads,
                capacity,
            ).push(
                (
                    first + proposals.len(),
                    layout_units(
                        quartads,
                        annealed(init, proposals, decisions, quartads, capacity).accepted.swap_all(
                            pairs,
                        ),
                    ),
                ),
            )
        } else {
            accepted_steps(
                init,
                proposals,
                decisions,
                first,
                proposals.len() as int,
                quartads,
                capacity,
            )
        },
{
    let k = proposals.len() as int;
    let tried = proposals.push(pairs);
    let decided = decisions.push(decision);
    assert(tried.drop_last() =~= proposals);
    assert(decided.drop_last() =~= decisions);
    assert(tried.take(k) =~= proposals);
    assert(decided.take(k) =~= decisions);
    assert(tried.take(k + 1) =~= tried);
    assert(decided.take(k + 1) =~= decided);
    assert(proposals.take(k) =~= proposals);
    assert forall|j: int| 0 <= j < tried.len() implies accept.ensures(
        (rise_at(init, tried, decided, j, quartads, capacity) as i128, (first + j) as usize),
        #[trigger] decided[j],
    ) by {
        if j < k {
            assert(tried.take(j) =~= proposals.take(j));
            assert(decided.take(j) =~= decisions.take(j));
            assert(tried[j] == proposals[j]);
            assert(decided[j] == decisions[j]);
            assert(rise_at(init, tried, decided, j, quartads, capacity) == rise_at(
                init,
                proposals,
                decisions,
                j,
                quartads,
                capacity,
            ));
        }
    }
    lemma_accepted_steps_same_proposals(init, proposals, tried, decisions, first, k, quartads, capacity);
    lemma_accepted_steps_grow(init, tried, decisions, decision, first, k, quartads, capacity);
}

/// A search by annealing stands on a layout that can be reached from the
/// first layout by swaps, with what the text costs on it; the best layouts
/// are such layouts with their costs, in order, and no more than there is
/// room for.
pub proof fn lemma_annealed(
    init: Keys,
    proposals: Seq<Seq<(int, int)>>,
    decisions: Seq<bool>,
    num_swaps: int,
    quartads: Seq<(Seq<char>, int)>,
    capacity: int,
)
    requires
        init.wf(),
        0 <= capacity,
        are_proposals(proposals, num_swaps),
    ensures
        ({
            let state = annealed(init, proposals, decisions, quartads, capacity);
            &&& state.accepted.wf()
            &&& reachable(init, state.accepted)
            &&& state.penalty == layout_units(quartads, state.accepted)
            &&& is_ordered(state.best)
            &&& state.best.len() <= capacity
            &&& found_from(state.best, init, quartads)
        }),
    decreases proposals.len(),
{
    lemma_reachable_self(init);
    if proposals.len() == 0 {
        let entry = (init, layout_units(quartads, init));
        assert(is_ordered(seq![entry]));
    } else {
        let rest = proposals.drop_last();
        assert(are_proposals(rest, num_swaps)) by {
            assert forall|k: int| 0 <= k < rest.len() implies 1 <= (#[trigger] rest[k]).len()
                <= num_swaps && forall|m: int|
                0 <= m < rest[k].len() ==> is_swap_pair(#[trigger] rest[k][m]) by {
                assert(rest[k] == proposals[k]);
            }
        }
        lemma_annealed(init, rest, decisions.drop_last(), num_swaps, quartads, capacity);
        let before = annealed(init, rest, decisions.drop_last(), quartads, capacity);
        let pairs = proposals.last();
        assert(proposals[proposals.len() - 1] == pairs);
        let candidate = before.accepted.swap_all(pairs);
        lemma_swap_all_wf(before.accepted, pairs);
        assert(swapped_times(before.accepted, candidate, pairs.len() as int));
        lemma_reachable(init, before.accepted, candidate);
        let entry = (candidate, layout_units(quartads, candidate));
        lemma_inserted_ordered(before.best, entry, capacity);
        lemma_capped_inserted(before.best, entry, capacity);
        if decisions.last() {
            let state = annealed(init, proposals, decisions, quartads, capacity);
            assert forall|i: int| 0 <= i < state.best.len() implies (#[trigger] state.best[i]).1
                == layout_units(quartads, state.best[i].0) && reachable(init, state.best[i].0) by {
                if state.best[i] != entry {
                    assert(before.best.contains(state.best[i]));
                    let j = choose|j: int| 0 <= j < before.best.len() && before.best[j]
                        == state.best[i];
                    assert(before.best[j].1 == layout_units(quartads, before.best[j].0));
                }
            }
        }
    }
}

/// Whether a search by annealing with steps from `first` up to `end` stops
/// on `layout` for want of a cost, whatever it draws: it stops on `layout`
/// with some proposals, no more than it has steps to make, each of between
/// one and `num_swaps` swaps.
pub open spec fn stopped_within<F: Fn(i128, usize) -> bool>(
    accept: F,
    init: Keys,
    layout: Keys,
    first: int,
    end: int,
    num_swaps: int,
    quartads: Seq<(Seq<char>, int)>,
    capacity: int,
    debug: bool,
    steps: Seq<(int, int)>,
) -> bool {
    exists|proposals: Seq<Seq<(int, int)>>|
        {
            &&& proposals.len() <= if first <= end {
                end - first
            } else {
                0
            }
            &&& are_proposals(proposals, num_swaps)
            &&& #[trigger] stopped_on(
                accept,
                init,
                proposals,
                layout,
                first,
                quartads,
                capacity,
                debug,
                steps,
            )
        }
}

/// A search that tries, after steps that `accept` decided, a layout on
/// which the text has no cost stops on that layout, which can be reached
/// from the first layout by swaps.
proof fn lemma_stopped_after<F: Fn(i128, usize) -> bool>(
    accept: F,
    init: Keys,
    proposals: Seq<Seq<(int, int)>>,
    decisions: Seq<bool>,
    pairs: Seq<(int, int)>,
    layout: Keys,
    first: int,
    end: int,
    num_swaps: int,
    quartads: Seq<(Seq<char>, int)>,
    capacity: int,
    debug: bool,
    steps: Seq<(int, int)>,
)
    requires
        init.wf(),
        0 <= capacity,
        proposals.len() < end - first,
        are_proposals(proposals, num_swaps),
        1 <= pairs.len() <= num_swaps,
        forall|m: int| 0 <= m < pairs.len() ==> is_swap_pair(#[trigger] pairs[m]),
        decided_by(accept, init, proposals, decisions, first, quartads, capacity),
        tried_covered(init, proposals, decisions, quartads, capacity),
        layout == annealed(init, proposals, decisions, quartads, capacity).accepted.swap_all(pairs),
        !covers(quartads, position_map(layout)),
        steps == if debug {
            accepted_steps(
                init,
                proposals,
                decisions,
                first,
                proposals.len() as int,
                quartads,
                capacity,
            )
        } else {
            Seq::empty()
        },
    ensures
        reachable(init, layout),
        stopped_within(
            accept,
            init,
            layout,
            first,
            end,
            num_swaps,
            quartads,
            capacity,
            debug,
            steps,
        ),
{
    let before = annealed(init, proposals, decisions, quartads, capacity);
    lemma_annealed(init, proposals, decisions, num_swaps, quartads, capacity);
    assert(swapped_times(before.accepted, layout, pairs.len() as int));
    lemma_reachable(init, before.accepted, layout);
    let tried = proposals.push(pairs);
    lemma_one_more_proposal(proposals, pairs, num_swaps);
    assert(tried.take(proposals.len() as int) =~= proposals);
    lemma_stopped_on(
        accept,
        init,
        tried,
        proposals.len() as int,
        decisions,
        layout,
        first,
        quartads,
        capacity,
        debug,
        steps,
    );
}

/// Searches for a cheaper layout by annealing. Each step from `first` up to
/// `end` tries the layout that the search stands on after between one and
/// `num_swaps` random swaps, and asks `accept` whether to move on to it,
/// given by how much it is costlier and the number of the step. A layout
/// moved on to is put among the `top_layouts` best.
///
/// Whatever is drawn, the search is the search that `simulate_with` makes
/// with some swaps of that kind: it stops at the first layout on which the
/// text has no cost, and then tells the steps that it had accepted before.
/// Where no step is to be made, nothing is drawn.
#[verifier::rlimit(40)]
pub fn simulate<'a, F: Fn(i128, usize) -> bool>(
    quartads: &QuartadList,
    init_layout: &Layout,
    penalties: &Vec<KeyPenalty<'a>>,
    debug: bool,
    top_layouts: usize,
    num_swaps: usize,
    first: usize,
    end: usize,
    accept: F,
) -> (found: Result<SimulateReport, SimulateStop>)
    requires
        quartads.wf(),
        num_swaps > 0 || first >= end,
        forall|delta: i128, step: usize| accept.requires((delta, step)),
    ensures
        match found {
            Ok(report) => {
                &&& exists|proposals: Seq<Seq<(int, int)>>, decisions: Seq<bool>|
                    {
                        &&& proposals.len() == if first <= end {
                            end - first
                        } else {
                            0
                        }
                        &&& are_proposals(proposals, num_swaps as int)
                        &&& #[trigger] decided_by(
                            accept,
                            init_layout@,
                            proposals,
                            decisions,
                            first as int,
                            quartads@,
                            top_layouts as int,
                        )
                        &&& tried_covered(
                            init_layout@,
                            proposals,
                            decisions,
                            quartads@,
                            top_layouts as int,
                        )
                        &&& entry_views(report.best@) == annealed(
                            init_layout@,
                            proposals,
                            decisions,
                            quartads@,
                            top_layouts as int,
                        ).best
                        &&& step_views(report.accepted@) == if debug {
                            accepted_steps(
                                init_layout@,
                                proposals,
                                decisions,
                                first as int,
                                proposals.len() as int,
                                quartads@,
                                top_layouts as int,
                            )
                        } else {
                            Seq::empty()
                        }
                    }
                &&& is_ordered(entry_views(report.best@))
                &&& report.best@.len() <= top_layouts
                &&& found_from(entry_views(report.best@), init_layout@, quartads@)
            },
            Err(stop) => {
                &&& !covers(quartads@, position_map(stop.layout@))
                &&& reachable(init_layout@, stop.layout@)
                &&& stopped_within(
                    accept,
                    init_layout@,
                    stop.layout@,
                    first as int,
                    end as int,
                    num_swaps as int,
                    quartads@,
                    top_layouts as int,
                    debug,
                    step_views(stop.accepted@),
                )
            },
        },
        // Without a cost on the first layout the search stops there; with
        // one and no step to make it ends well.
        !covers(quartads@, position_map(init_layout@)) ==> match found {
            Ok(_) => false,
            Err(stop) => stop.layout@ == init_layout@ && stop.accepted@.len() == 0,
        },
        covers(quartads@, position_map(init_layout@)) && first >= end ==> found is Ok,
{
    if !is_covered(quartads, init_layout) {
        let stopped = SimulateStop { layout: init_layout.clone(), accepted: Vec::new() };
        proof {
            lemma_reachable_self(init_layout@);
            lemma_stopped_on_first(
                accept,
                init_layout@,
                first as int,
                quartads@,
                top_layouts as int,
                debug,
            );
            assert(step_views(stopped.accepted@) =~= Seq::<(int, int)>::empty());
        }
        return Err(stopped);
    }
    let penalty = calculate_penalty(quartads, init_layout, penalties, false);
    let mut search = Annealing::new(init_layout, penalty.0, top_layouts);
    let mut accepted: Vec<(usize, i128)> = Vec::new();
    let ghost capacity = top_layouts as int;
    let ghost mut proposals: Seq<Seq<(int, int)>> = Seq::empty();
    let ghost mut decisions: Seq<bool> = Seq::empty();
    proof {
        quartads.lemma_wf();
        init_layout.lemma_wf();
        crate::corpus::lemma_total_nonnegative(quartads@);
        assert(step_views(accepted@) =~= Seq::<(int, int)>::empty());
    }
    let mut i: usize = first;
    while i < end
        invariant
            first <= i,
            first <= end ==> i <= end,
            first > end ==> i == first,
            quartads.wf(),
            counted(quartads@),
            0 <= total(quartads@) <= usize::MAX,
            num_swaps > 0 || first >= end,
            init_layout@.wf(),
            forall|delta: i128, step: usize| accept.requires((delta, step)),
            capacity == top_layouts,
            proposals.len() == i - first,
            are_proposals(proposals, num_swaps as int),
            decided_by(accept, init_layout@, proposals, decisions, first as int, quartads@, capacity),
            tried_covered(init_layout@, proposals, decisions, quartads@, capacity),
            search.wf(),
            search.room() == top_layouts,
            search.spec_accepted() == annealed(
                init_layout@,
                proposals,
                decisions,
                quartads@,
                capacity,
            ).accepted,
            search.spec_penalty() == annealed(
                init_layout@,
                proposals,
                decisions,
                quartads@,
                capacity,
            ).penalty,
            search.spec_best() == annealed(
                init_layout@,
                proposals,
                decisions,
                quartads@,
                capacity,
            ).best,
            step_views(accepted@) == if debug {
                accepted_steps(
                    init_layout@,
                    proposals,
                    decisions,
                    first as int,
                    proposals.len() as int,
                    quartads@,
                    capacity,
                )
            } else {
                Seq::empty()
            },
        decreases end - i,
    {
        // Try the layout after some random swaps.
        let candidate = search.propose(num_swaps);
        let ghost times = choose|times: int|
            1 <= times <= num_swaps && swapped_times(search.spec_accepted(), candidate@, times);
        let ghost pairs = choose|pairs: Seq<(int, int)>|
            pairs.len() == times && (forall|m: int|
                0 <= m < pairs.len() ==> is_swap_pair(#[trigger] pairs[m])) && candidate@
                == search.spec_accepted().swap_all(pairs);
        // The text must have a cost on the layout.
        if !is_covered(quartads, &candidate) {
            proof {
                lemma_stopped_after(
                    accept,
                    init_layout@,
                    proposals,
                    decisions,
                    pairs,
                    candidate@,
                    first as int,
                    end as int,
                    num_swaps as int,
                    quartads@,
                    capacity,
                    debug,
                    step_views(accepted@),
                );
            }
            return Err(SimulateStop { layout: candidate, accepted });
        }
        let scored = calculate_penalty(quartads, &candidate, penalties, false);
        proof {
            lemma_annealed(
                init_layout@,
                proposals,
                decisions,
                num_swaps as int,
                quartads@,
                capacity,
            );
            candidate.lemma_wf();
            lemma_rise_fits(quartads@, search.spec_accepted(), candidate@);
        }
        // A cheaper layout is for the caller to always accept; a costlier one
        // now and then.
        let delta = scored.0 - search.accepted_penalty();
        let moved = accept(delta, i);
        proof {
            lemma_one_more_step(
                accept,
                init_layout@,
                proposals,
                decisions,
                pairs,
                moved,
                first as int,
                quartads@,
                capacity,
            );
            lemma_one_more_covered(
                init_layout@,
                proposals,
                decisions,
                pairs,
                moved,
                quartads@,
                capacity,
            );
            lemma_one_more_proposal(proposals, pairs, num_swaps as int);
            proposals = proposals.push(pairs);
            decisions = decisions.push(moved);
        }
        if moved && debug {
            let ghost shorter = step_views(accepted@);
            accepted.push((i, scored.0));
            proof {
                assert(step_views(accepted@) =~= shorter.push((i as int, scored.0 as int)));
            }
        }
        search.decide(candidate, scored.0, moved);
        i += 1;
    }
    proof {
        lemma_annealed(init_layout@, proposals, decisions, num_swaps as int, quartads@, capacity);
    }
    Ok(SimulateReport { best: search.into_best(), accepted })
}

/// The steps accepted among the first `n` depend on the first `n`
/// proposals alone.
proof fn lemma_accepted_steps_same_proposals(
    init: Keys,
    proposals: Seq<Seq<(int, int)>>,
    others: Seq<Seq<(int, int)>>,
    decisions: Seq<bool>,
    first: int,
    n: int,
    quartads: Seq<(Seq<char>, int)>,
    capacity: int,
)
    requires
        0 <= n <= proposals.len(),
        n <= others.len(),
        proposals.take(n) == others.take(n),
    ensures
        accepted_steps(init, proposals, decisions, first, n, quartads, capacity) == accepted_steps(
            init,
            others,
            decisions,
            first,
            n,
            quartads,
            capacity,
        ),
    decreases n,
{
    if n > 0 {
        assert(proposals.take(n - 1) =~= proposals.take(n).take(n - 1));
        assert(others.take(n - 1) =~= others.take(n).take(n - 1));
        lemma_accepted_steps_same_proposals(
            init,
            proposals,
            others,
            decisions,
            first,
            n - 1,
            quartads,
            capacity,
        );
    }
}

} // verus!
