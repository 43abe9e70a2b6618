//! The fragments of one slot, keyed by index, with arrival statistics and the
//! slot's state.
//!
//! The fragments are kept in a vector ordered by index, so that no index is
//! held twice and a window can be read off in order.

use vstd::prelude::*;
use crate::completion::Completion;
use crate::completion::CompletionWindow;
use crate::completion::gap_free;
use crate::completion::has_window;
use crate::completion::lemma_window_start_is_unique;
use crate::completion::lists_missing;
use crate::completion::lists_present;
use crate::completion::lists_window;
use crate::completion::views;
use crate::completion::window_start;
use crate::fragment::Fragment;
use crate::fragment::FragmentView;
use crate::fragment::bytes_equal;
use crate::state::SlotEvent;
use crate::state::SlotState;
use crate::state::next_state;

verus! {

/// When and how often fragments of a slot arrived.
#[derive(Clone, Copy, Debug, PartialEq, Eq, Structural)]
pub struct ArrivalStats {
    /// Arrivals counted, repeats included. Stops at `u64::MAX`.
    pub count: u64,
    /// The earliest arrival time.
    pub first_seen: i64,
    /// The latest arrival time.
    pub last_seen: i64,
}

/// What to do when a fragment arrives under a key that is taken by a fragment
/// with another payload.
#[derive(Clone, Copy, Debug, PartialEq, Eq, Structural)]
pub enum CollisionPolicy {
    /// The fragment that came first stays.
    KeepFirst,
    /// The fragment that came last replaces it.
    Overwrite,
}

/// What an insertion did.
#[derive(Clone, Copy, Debug, PartialEq, Eq, Structural)]
pub enum InsertOutcome {
    /// The key was free; the fragment is stored.
    Stored,
    /// The key holds a fragment with the same payload; nothing changed.
    Duplicate,
    /// The key holds a fragment with another payload, which stays.
    KeptFirst,
    /// The key held a fragment with another payload, which was replaced.
    Overwrote,
    /// The slot lies outside the retention window; the fragment was dropped.
    Stale,
}

/// The statistics of a slot whose first fragment arrived at `now`.
pub open spec fn first_arrival(now: i64) -> ArrivalStats {
    ArrivalStats { count: 1, first_seen: now, last_seen: now }
}

/// The statistics after one more arrival at `now`.
pub open spec fn next_arrival(stats: ArrivalStats, now: i64) -> ArrivalStats {
    ArrivalStats {
        count: if stats.count < u64::MAX {
            (stats.count + 1) as u64
        } else {
            stats.count
        },
        first_seen: if now < stats.first_seen {
            now
        } else {
            stats.first_seen
        },
        last_seen: if now > stats.last_seen {
            now
        } else {
            stats.last_seen
        },
    }
}

/// What inserting `fragment` does, given the fragments already held.
pub open spec fn insert_outcome(
    fragments: Map<u32, FragmentView>,
    fragment: FragmentView,
    policy: CollisionPolicy,
) -> InsertOutcome {
    if !fragments.contains_key(fragment.index) {
        InsertOutcome::Stored
    } else if fragments[fragment.index].payload == fragment.payload {
        InsertOutcome::Duplicate
    } else if policy == CollisionPolicy::KeepFirst {
        InsertOutcome::KeptFirst
    } else {
        InsertOutcome::Overwrote
    }
}

/// The fragments held after inserting `fragment`.
pub open spec fn fragments_after(
    fragments: Map<u32, FragmentView>,
    fragment: FragmentView,
    policy: CollisionPolicy,
) -> Map<u32, FragmentView> {
    match insert_outcome(fragments, fragment, policy) {
        InsertOutcome::Stored => fragments.insert(fragment.index, fragment),
        InsertOutcome::Overwrote => fragments.insert(fragment.index, fragment),
        _ => fragments,
    }
}

/// One slot's buffer as a mathematical value.
pub struct SlotBufferView {
    pub slot: u64,
    pub fragments: Map<u32, FragmentView>,
    pub stats: ArrivalStats,
    pub state: SlotState,
}

impl SlotBufferView {
    /// Every fragment is held under its own index and belongs to the slot, and
    /// a buffer exists only once a fragment has been stored.
    pub open spec fn wf(self) -> bool {
        &&& self.fragments.dom().finite()
        &&& forall|i: u32| #[trigger]
            self.fragments.contains_key(i) ==> self.fragments[i].index == i
                && self.fragments[i].slot == self.slot
        &&& self.state != SlotState::NoFragments
    }

    /// The buffer that the first fragment of a slot creates.
    pub open spec fn first(fragment: FragmentView, now: i64) -> SlotBufferView {
        SlotBufferView {
            slot: fragment.slot,
            fragments: Map::empty().insert(fragment.index, fragment),
            stats: first_arrival(now),
            state: SlotState::Collecting,
        }
    }

    /// The buffer after `fragment` arrived at `now`.
    pub open spec fn after_insert(
        self,
        fragment: FragmentView,
        now: i64,
        policy: CollisionPolicy,
    ) -> SlotBufferView {
        SlotBufferView {
            slot: self.slot,
            fragments: fragments_after(self.fragments, fragment, policy),
            stats: next_arrival(self.stats, now),
            state: next_state(self.state, SlotEvent::FragmentStored),
        }
    }

    /// The buffer after `event`.
    pub open spec fn after_event(self, event: SlotEvent) -> SlotBufferView {
        SlotBufferView { state: next_state(self.state, event), ..self }
    }
}

/// The fragments of one slot.
#[derive(Debug)]
pub struct SlotBuffer {
    slot: u64,
    frags: Vec<Fragment>,
    stats: ArrivalStats,
    state: SlotState,
}

spec fn ascending(s: Seq<Fragment>) -> bool {
    forall|a: int, b: int| 0 <= a < b < s.len() ==> s[a]@.index < s[b]@.index
}

spec fn holds(s: Seq<Fragment>, index: u32) -> bool {
    exists|k: int| 0 <= k < s.len() && s[k]@.index == index
}

spec fn place(s: Seq<Fragment>, index: u32) -> int {
    choose|k: int| 0 <= k < s.len() && s[k]@.index == index
}

spec fn as_map(s: Seq<Fragment>) -> Map<u32, FragmentView> {
    Map::new(|i: u32| holds(s, i), |i: u32| s[place(s, i)]@)
}

proof fn lemma_as_map_at(s: Seq<Fragment>, k: int)
    requires
        ascending(s),
        0 <= k < s.len(),
    ensures
        as_map(s).contains_key(s[k]@.index),
        as_map(s)[s[k]@.index] == s[k]@,
{
    let i = s[k]@.index;
    assert(holds(s, i));
    let p = place(s, i);
    assert(0 <= p < s.len() && s[p]@.index == i);
    if p < k {
        assert(s[p]@.index < s[k]@.index);
    }
    if k < p {
        assert(s[k]@.index < s[p]@.index);
    }
}

proof fn lemma_as_map_finite(s: Seq<Fragment>)
    ensures
        as_map(s).dom().finite(),
    decreases s.len(),
{
    if s.len() == 0 {
        assert(as_map(s).dom() =~= Set::<u32>::empty());
    } else {
        let t = s.drop_last();
        lemma_as_map_finite(t);
        assert(as_map(s).dom() =~= as_map(t).dom().insert(s.last()@.index)) by {
            assert forall|i: u32| as_map(s).dom().contains(i) <==> as_map(t).dom().insert(
                s.last()@.index,
            ).contains(i) by {
                if holds(s, i) {
                    let k = choose|k: int| 0 <= k < s.len() && s[k]@.index == i;
                    if k < t.len() {
                        assert(t[k]@.index == i);
                    }
                }
                if holds(t, i) {
                    let k = choose|k: int| 0 <= k < t.len() && t[k]@.index == i;
                    assert(s[k]@.index == i);
                }
                if i == s.last()@.index {
                    assert(s[s.len() - 1]@.index == i);
                }
            }
        }
    }
}

proof fn lemma_as_map_insert(s: Seq<Fragment>, pos: int, f: Fragment)
    requires
        ascending(s),
        0 <= pos <= s.len(),
        forall|a: int| 0 <= a < pos ==> s[a]@.index < f@.index,
        forall|a: int| pos <= a < s.len() ==> f@.index < s[a]@.index,
    ensures
        ascending(s.insert(pos, f)),
        as_map(s.insert(pos, f)) == as_map(s).insert(f@.index, f@),
{
    let t = s.insert(pos, f);
    assert(ascending(t)) by {
        assert forall|a: int, b: int| 0 <= a < b < t.len() implies t[a]@.index < t[b]@.index by {
            if a < pos && b > pos {
                assert(t[a] == s[a] && t[b] == s[b - 1]);
            } else if a < pos && b < pos {
                assert(t[a] == s[a] && t[b] == s[b]);
            } else if a > pos {
                assert(t[a] == s[a - 1] && t[b] == s[b - 1]);
            }
        }
    }
    let m = as_map(s).insert(f@.index, f@);
    assert forall|i: u32| as_map(t).contains_key(i) <==> m.contains_key(i) by {
        if holds(t, i) {
            let k = choose|k: int| 0 <= k < t.len() && t[k]@.index == i;
            if k < pos {
                assert(s[k]@.index == i);
            } else if k > pos {
                assert(s[k - 1]@.index == i);
            }
        }
        if holds(s, i) {
            let k = choose|k: int| 0 <= k < s.len() && s[k]@.index == i;
            if k < pos {
                assert(t[k]@.index == i);
            } else {
                assert(t[k + 1]@.index == i);
            }
        }
        if i == f@.index {
            assert(t[pos]@.index == i);
        }
    }
    assert forall|i: u32| as_map(t).contains_key(i) implies as_map(t)[i] == m[i] by {
        let k = choose|k: int| 0 <= k < t.len() && t[k]@.index == i;
        lemma_as_map_at(t, k);
        if k < pos {
            lemma_as_map_at(s, k);
        } else if k > pos {
            lemma_as_map_at(s, k - 1);
        }
    }
    assert(as_map(t) =~= m);
}

proof fn lemma_as_map_update(s: Seq<Fragment>, pos: int, f: Fragment)
    requires
        ascending(s),
        0 <= pos < s.len(),
        s[pos]@.index == f@.index,
    ensures
        ascending(s.update(pos, f)),
        as_map(s.update(pos, f)) == as_map(s).insert(f@.index, f@),
{
    let t = s.update(pos, f);
    assert(ascending(t)) by {
        assert forall|a: int, b: int| 0 <= a < b < t.len() implies t[a]@.index < t[b]@.index by {
            assert(s[a]@.index < s[b]@.index);
        }
    }
    let m = as_map(s).insert(f@.index, f@);
    assert forall|i: u32| as_map(t).contains_key(i) <==> m.contains_key(i) by {
        if holds(t, i) {
            let k = choose|k: int| 0 <= k < t.len() && t[k]@.index == i;
            assert(s[k]@.index == i);
        }
        if holds(s, i) {
            let k = choose|k: int| 0 <= k < s.len() && s[k]@.index == i;
            assert(t[k]@.index == i);
        }
    }
    assert forall|i: u32| as_map(t).contains_key(i) implies as_map(t)[i] == m[i] by {
        let k = choose|k: int| 0 <= k < t.len() && t[k]@.index == i;
        lemma_as_map_at(t, k);
        if k != pos {
            lemma_as_map_at(s, k);
        }
    }
    assert(as_map(t) =~= m);
}

impl View for SlotBuffer {
    type V = SlotBufferView;

    closed spec fn view(&self) -> SlotBufferView {
        SlotBufferView {
            slot: self.slot,
            fragments: as_map(self.frags@),
            stats: self.stats,
            state: self.state,
        }
    }
}

impl SlotBuffer {
    /// The invariant of the representation: ordered by index, all of one
    /// slot, never empty.
    pub closed spec fn wf(&self) -> bool {
        &&& ascending(self.frags@)
        &&& forall|a: int| 0 <= a < self.frags.len() ==> (#[trigger] self.frags[a])@.slot == self.slot
        &&& self.frags.len() > 0
        &&& self.state != SlotState::NoFragments
    }

    /// A well-formed buffer has a well-formed view, and it holds a fragment.
    pub proof fn lemma_view_wf(&self)
        requires
            self.wf(),
        ensures
            self@.wf(),
            self@.fragments.dom().len() > 0,
    {
        lemma_as_map_finite(self.frags@);
        assert forall|i: u32| #[trigger] self@.fragments.contains_key(i) implies self@.fragments[i].index
            == i && self@.fragments[i].slot == self.slot by {
            let k = choose|k: int| 0 <= k < self.frags@.len() && self.frags@[k]@.index == i;
            lemma_as_map_at(self.frags@, k);
            assert(self.frags[k]@.slot == self.slot);
        }
        lemma_as_map_at(self.frags@, 0);
        assert(self@.fragments.dom().contains(self.frags@[0]@.index));
    }

    /// The buffer that the first fragment of a slot creates.
    pub fn first(fragment: Fragment, now: i64) -> (r: SlotBuffer)
        ensures
            r.wf(),
            r@ == SlotBufferView::first(fragment@, now),
    {
        let slot = fragment.slot();
        let mut frags: Vec<Fragment> = Vec::new();
        proof {
            lemma_as_map_insert(frags@, 0, fragment);
            assert(as_map(frags@) =~= Map::<u32, FragmentView>::empty());
        }
        frags.insert(0, fragment);
        SlotBuffer {
            slot,
            frags,
            stats: ArrivalStats { count: 1, first_seen: now, last_seen: now },
            state: SlotState::Collecting,
        }
    }

    /// The slot.
    pub fn slot(&self) -> (r: u64)
        ensures
            r == self@.slot,
    {
        self.slot
    }

    /// The arrival statistics.
    pub fn stats(&self) -> (r: ArrivalStats)
        ensures
            r == self@.stats,
    {
        self.stats
    }

    /// The slot's state.
    pub fn state(&self) -> (r: SlotState)
        ensures
            r == self@.state,
    {
        self.state
    }

    /// How many fragments are held.
    pub fn len(&self) -> (r: usize)
        requires
            self.wf(),
        ensures
            r == self@.fragments.dom().len(),
    {
        proof {
            lemma_len_is_cardinality(self.frags@);
        }
        self.frags.len()
    }

    /// Takes `event`: only the state changes.
    pub fn apply(&mut self, event: SlotEvent)
        requires
            old(self).wf(),
        ensures
            final(self).wf(),
            final(self)@ == old(self)@.after_event(event),
    {
        self.state = self.state.step(event);
    }

    /// The first position whose fragment has an index of at least `index`.
    fn position(&self, index: u32) -> (pos: usize)
        requires
            self.wf(),
        ensures
            pos <= self.frags.len(),
            forall|a: int| 0 <= a < pos ==> self.frags[a]@.index < index,
            forall|a: int| pos <= a < self.frags.len() ==> index <= self.frags[a]@.index,
    {
        let mut lo: usize = 0;
        let mut hi: usize = self.frags.len();
        while lo < hi
            invariant
                lo <= hi <= self.frags.len(),
                ascending(self.frags@),
                forall|a: int| 0 <= a < lo ==> self.frags[a]@.index < index,
                forall|a: int| hi <= a < self.frags.len() ==> index <= self.frags[a]@.index,
            decreases hi - lo,
        {
            let mid: usize = lo + (hi - lo) / 2;
            if self.frags[mid].index() < index {
                assert forall|a: int| 0 <= a < mid + 1 implies self.frags[a]@.index < index by {
                    if a < mid {
                        assert(self.frags[a]@.index < self.frags[mid as int]@.index);
                    }
                }
                lo = mid + 1;
            } else {
                assert forall|a: int| mid <= a < self.frags.len() implies index
                    <= self.frags[a]@.index by {
                    if mid < a {
                        assert(self.frags[mid as int]@.index < self.frags[a]@.index);
                    }
                }
                hi = mid;
            }
        }
        lo
    }

    /// Whether a fragment is held under `index`.
    pub fn contains(&self, index: u32) -> (r: bool)
        requires
            self.wf(),
        ensures
            r == self@.fragments.contains_key(index),
    {
        let pos = self.position(index);
        if pos < self.frags.len() && self.frags[pos].index() == index {
            proof {
                lemma_as_map_at(self.frags@, pos as int);
            }
            true
        } else {
            proof {
                if holds(self.frags@, index) {
                    let k = choose|k: int| 0 <= k < self.frags@.len() && self.frags@[k]@.index == index;
                    assert(self.frags[k]@.index == index);
                }
            }
            false
        }
    }

    /// The fragment held under `index`, if there is one.
    pub fn get(&self, index: u32) -> (r: Option<&Fragment>)
        requires
            self.wf(),
        ensures
            r is Some == self@.fragments.contains_key(index),
            r matches Some(f) ==> f@ == self@.fragments[index],
    {
        let pos = self.position(index);
        if pos < self.frags.len() && self.frags[pos].index() == index {
            proof {
                lemma_as_map_at(self.frags@, pos as int);
            }
            Some(&self.frags[pos])
        } else {
            proof {
                if holds(self.frags@, index) {
                    let k = choose|k: int| 0 <= k < self.frags@.len() && self.frags@[k]@.index == index;
                    assert(self.frags[k]@.index == index);
                }
            }
            None
        }
    }

    /// Stores `fragment`, which arrived at `now`, under its index. A key that
    /// is taken by the same payload is left alone; one taken by another
    /// payload is settled by `policy`. Every arrival is counted. A fragment of
    /// another slot is not taken: the result is `None` and nothing changes.
    pub fn insert(&mut self, fragment: Fragment, now: i64, policy: CollisionPolicy) -> (r: Option<
        InsertOutcome,
    >)
        requires
            old(self).wf(),
        ensures
            final(self).wf(),
            fragment@.slot != old(self)@.slot ==> r is None && final(self)@ == old(self)@,
            fragment@.slot == old(self)@.slot ==> {
                &&& r == Some(insert_outcome(old(self)@.fragments, fragment@, policy))
                &&& final(self)@ == old(self)@.after_insert(fragment@, now, policy)
            },
    {
        if fragment.slot() != self.slot {
            return None;
        }
        let index = fragment.index();
        let pos = self.position(index);
        self.stats = ArrivalStats {
            count: if self.stats.count < u64::MAX {
                self.stats.count + 1
            } else {
                self.stats.count
            },
            first_seen: if now < self.stats.first_seen {
                now
            } else {
                self.stats.first_seen
            },
            last_seen: if now > self.stats.last_seen {
                now
            } else {
                self.stats.last_seen
            },
        };
        self.state = self.state.step(SlotEvent::FragmentStored);
        if pos < self.frags.len() && self.frags[pos].index() == index {
            proof {
                lemma_as_map_at(self.frags@, pos as int);
            }
            if bytes_equal(self.frags[pos].payload(), fragment.payload()) {
                Some(InsertOutcome::Duplicate)
            } else {
                match policy {
                    CollisionPolicy::KeepFirst => Some(InsertOutcome::KeptFirst),
                    CollisionPolicy::Overwrite => {
                        proof {
                            lemma_as_map_update(self.frags@, pos as int, fragment);
                        }
                        self.frags.set(pos, fragment);
                        Some(InsertOutcome::Overwrote)
                    },
                }
            }
        } else {
            proof {
                if holds(self.frags@, index) {
                    let k = choose|k: int| 0 <= k < self.frags@.len() && self.frags@[k]@.index == index;
                    assert(self.frags[k]@.index == index);
                }
                lemma_as_map_insert(self.frags@, pos as int, fragment);
            }
            self.frags.insert(pos, fragment);
            Some(InsertOutcome::Stored)
        }
    }
}

impl SlotBuffer {
    /// The indices held, ascending.
    pub fn indices(&self) -> (r: Vec<u32>)
        requires
            self.wf(),
        ensures
            lists_present(self@.fragments.dom(), r@),
    {
        let mut out: Vec<u32> = Vec::with_capacity(self.frags.len());
        let mut k: usize = 0;
        while k < self.frags.len()
            invariant
                k <= self.frags.len(),
                out.len() == k,
                forall|a: int| 0 <= a < k ==> out[a] == self.frags[a]@.index,
            decreases self.frags.len() - k,
        {
            out.push(self.frags[k].index());
            k += 1;
        }
        proof {
            assert forall|a: int, b: int| 0 <= a < b < out.len() implies out[a] < out[b] by {
                assert(self.frags[a]@.index < self.frags[b]@.index);
            }
            assert forall|j: u32| out@.contains(j) <==> self@.fragments.dom().contains(j) by {
                if out@.contains(j) {
                    let a = choose|a: int| 0 <= a < out@.len() && out@[a] == j;
                    assert(self.frags@[a]@.index == j);
                }
                if holds(self.frags@, j) {
                    let a = choose|a: int| 0 <= a < self.frags@.len() && self.frags@[a]@.index == j;
                    assert(out@[a] == j);
                }
            }
        }
        out
    }

    /// Walks the fragments whose index does not exceed `terminal`: how many
    /// there are, and which indices between the first and `terminal` are not
    /// among them.
    fn survey(&self, terminal: u32) -> (r: (usize, Vec<u32>))
        requires
            self.wf(),
            self.frags[0]@.index <= terminal,
        ensures
            0 < r.0 <= self.frags.len(),
            lists_missing(self@.fragments.dom(), self.frags[0]@.index, terminal, r.1@),
            r.1@.len() == 0 ==> r.0 == terminal - self.frags[0]@.index + 1,
            r.1@.len() == 0 ==> forall|a: int|
                0 <= a < r.0 ==> (#[trigger] self.frags[a])@.index == self.frags[0]@.index + a,
    {
        let first = self.frags[0].index();
        let mut missing: Vec<u32> = Vec::new();
        let mut k: usize = 0;
        let mut next: u64 = first as u64;
        while k < self.frags.len() && self.frags[k].index() <= terminal
            invariant
                ascending(self.frags@),
                self.frags.len() > 0,
                first == self.frags[0]@.index,
                first <= terminal,
                k <= self.frags.len(),
                first <= next <= terminal + 1,
                k == 0 ==> next == first,
                k > 0 ==> next == self.frags[k - 1]@.index + 1,
                forall|a: int, b: int| 0 <= a < b < missing.len() ==> missing[a] < missing[b],
                forall|a: int| 0 <= a < missing.len() ==> missing[a] < next,
                forall|j: u32| missing@.contains(j) <==> (first <= j < next && !holds(self.frags@, j)),
                missing.len() == 0 ==> next == first + k,
                missing.len() == 0 ==> forall|a: int|
                    0 <= a < k ==> (#[trigger] self.frags[a])@.index == first + a,
            decreases self.frags.len() - k,
        {
            let here = self.frags[k].index();
            proof {
                if k > 0 {
                    assert(self.frags[k - 1]@.index < self.frags[k as int]@.index);
                }
                lemma_append_run(missing@, next as int, here as int);
                assert forall|j: u32| next <= j < here implies !holds(self.frags@, j) by {
                    lemma_none_between(self.frags@, k as int, j);
                }
                assert(holds(self.frags@, here));
            }
            push_run(&mut missing, next, here as u64);
            next = here as u64 + 1;
            k += 1;
        }
        proof {
            assert(k > 0);
            lemma_append_run(missing@, next as int, terminal + 1);
            assert forall|j: u32| next <= j <= terminal implies !holds(self.frags@, j) by {
                if k < self.frags.len() {
                    assert(self.frags[k as int]@.index > terminal);
                }
                lemma_none_between(self.frags@, k as int, j);
            }
        }
        push_run(&mut missing, next, terminal as u64 + 1);
        (k, missing)
    }

    /// The window that `terminal` closes: from the smallest index held that
    /// does not exceed `terminal` up to `terminal`, with the indices missing in
    /// between. `None` when no index held is that small.
    pub fn window(&self, terminal: u32) -> (r: Option<CompletionWindow>)
        requires
            self.wf(),
        ensures
            r is Some == has_window(self@.fragments.dom(), terminal),
            r matches Some(w) ==> {
                &&& w.min_index == window_start(self@.fragments.dom(), terminal)
                &&& w.max_index == terminal
                &&& lists_missing(self@.fragments.dom(), w.min_index, terminal, w.missing@)
            },
    {
        let first = self.frags[0].index();
        proof {
            self.lemma_first_is_least();
        }
        if first > terminal {
            return None;
        }
        proof {
            lemma_window_start_is_unique(self@.fragments.dom(), terminal, first);
        }
        let (_, missing) = self.survey(terminal);
        Some(CompletionWindow { min_index: first, max_index: terminal, missing })
    }

    /// Judges the window that `terminal` closes. With no gap, the result is
    /// `Complete` and carries copies of the window's fragments by ascending
    /// index; otherwise it is `Incomplete` and carries the missing indices.
    /// `None` when no index held is as small as `terminal`.
    pub fn check(&self, terminal: u32) -> (r: Option<Completion>)
        requires
            self.wf(),
        ensures
            match r {
                None => !has_window(self@.fragments.dom(), terminal),
                Some(Completion::Complete(list)) => {
                    let start = window_start(self@.fragments.dom(), terminal);
                    &&& has_window(self@.fragments.dom(), terminal)
                    &&& gap_free(self@.fragments.dom(), start, terminal)
                    &&& lists_window(self@.fragments, start, terminal, views(list@))
                },
                Some(Completion::Incomplete(missing)) => {
                    let start = window_start(self@.fragments.dom(), terminal);
                    &&& has_window(self@.fragments.dom(), terminal)
                    &&& !gap_free(self@.fragments.dom(), start, terminal)
                    &&& lists_missing(self@.fragments.dom(), start, terminal, missing@)
                },
            },
    {
        let first = self.frags[0].index();
        proof {
            self.lemma_first_is_least();
        }
        if first > terminal {
            return None;
        }
        proof {
            lemma_window_start_is_unique(self@.fragments.dom(), terminal, first);
        }
        let (count, missing) = self.survey(terminal);
        if missing.len() > 0 {
            proof {
                assert(missing@.contains(missing@[0]));
            }
            return Some(Completion::Incomplete(missing));
        }
        let mut list: Vec<Fragment> = Vec::with_capacity(count);
        let mut k: usize = 0;
        while k < count
            invariant
                k <= count <= self.frags.len(),
                list.len() == k,
                forall|a: int| 0 <= a < k ==> (#[trigger] list[a])@ == self.frags[a]@,
            decreases count - k,
        {
            list.push(self.frags[k].clone());
            k += 1;
        }
        proof {
            assert forall|a: int| 0 <= a < views(list@).len() implies self@.fragments.contains_key(
                (first + a) as u32,
            ) && #[trigger] views(list@)[a] == self@.fragments[(first + a) as u32] by {
                assert(self.frags[a]@.index == first + a);
                lemma_as_map_at(self.frags@, a);
                assert(list[a]@ == self.frags[a]@);
            }
            assert forall|j: u32| first <= j <= terminal implies self@.fragments.dom().contains(
                j,
            ) by {
                assert(!missing@.contains(j));
            }
        }
        Some(Completion::Complete(list))
    }

    /// The first fragment has the smallest index held.
    proof fn lemma_first_is_least(&self)
        requires
            self.wf(),
        ensures
            self@.fragments.dom().contains(self.frags[0]@.index),
            forall|j: u32| self@.fragments.dom().contains(j) ==> self.frags[0]@.index <= j,
    {
        lemma_as_map_at(self.frags@, 0);
        assert forall|j: u32| self@.fragments.dom().contains(j) implies self.frags[0]@.index
            <= j by {
            let a = choose|a: int| 0 <= a < self.frags@.len() && self.frags@[a]@.index == j;
            if a > 0 {
                assert(self.frags@[0]@.index < self.frags@[a]@.index);
            }
        }
    }
}

/// No fragment has an index strictly between those of two neighbours, below
/// the first or above the last.
proof fn lemma_none_between(s: Seq<Fragment>, k: int, j: u32)
    requires
        ascending(s),
        0 <= k <= s.len(),
        k > 0 ==> s[k - 1]@.index < j,
        k < s.len() ==> j < s[k]@.index,
    ensures
        !holds(s, j),
{
    if holds(s, j) {
        let a = choose|a: int| 0 <= a < s.len() && s[a]@.index == j;
        if a < k - 1 {
            assert(s[a]@.index < s[k - 1]@.index);
        }
        if a > k {
            assert(s[k]@.index < s[a]@.index);
        }
    }
}

/// Appending the run `from .. to` to an ascending list whose items lie below
/// `from` gives an ascending list of the old items and the run.
proof fn lemma_append_run(list: Seq<u32>, from: int, to: int)
    requires
        0 <= from <= to <= u32::MAX + 1,
        forall|a: int, b: int| 0 <= a < b < list.len() ==> list[a] < list[b],
        forall|a: int| 0 <= a < list.len() ==> list[a] < from,
    ensures
        ({
            let out = list + Seq::new((to - from) as nat, |a: int| (from + a) as u32);
            &&& forall|a: int, b: int| 0 <= a < b < out.len() ==> out[a] < out[b]
            &&& forall|a: int| 0 <= a < out.len() ==> out[a] < to || out[a] < from
            &&& forall|j: u32| out.contains(j) <==> (list.contains(j) || from <= j < to)
            &&& to == from ==> out == list
        }),
{
    let run = Seq::new((to - from) as nat, |a: int| (from + a) as u32);
    let out = list + run;
    assert forall|j: u32| out.contains(j) <==> (list.contains(j) || from <= j < to) by {
        if out.contains(j) {
            let a = choose|a: int| 0 <= a < out.len() && out[a] == j;
            if a < list.len() {
                assert(list[a] == j);
            }
        }
        if list.contains(j) {
            let a = choose|a: int| 0 <= a < list.len() && list[a] == j;
            assert(out[a] == j);
        }
        if from <= j < to {
            assert(out[list.len() + (j - from)] == j);
        }
    }
    if to == from {
        assert(out =~= list);
    }
}

/// Appends `from`, `from + 1`, .. `to - 1` to `list`.
fn push_run(list: &mut Vec<u32>, from: u64, to: u64)
    requires
        from <= to <= u32::MAX + 1,
    ensures
        final(list)@ == old(list)@ + Seq::new((to - from) as nat, |a: int| (from + a) as u32),
{
    let mut j: u64 = from;
    while j < to
        invariant
            from <= j <= to <= u32::MAX + 1,
            list@ == old(list)@ + Seq::new((j - from) as nat, |a: int| (from + a) as u32),
        decreases to - j,
    {
        list.push(j as u32);
        assert(Seq::new((j + 1 - from) as nat, |a: int| (from + a) as u32) =~= Seq::new(
            (j - from) as nat,
            |a: int| (from + a) as u32,
        ).push(j as u32));
        j += 1;
    }
}

proof fn lemma_len_is_cardinality(s: Seq<Fragment>)
    requires
        ascending(s),
    ensures
        as_map(s).dom().finite(),
        as_map(s).dom().len() == s.len(),
    decreases s.len(),
{
    lemma_as_map_finite(s);
    if s.len() == 0 {
        assert(as_map(s).dom() =~= Set::<u32>::empty());
    } else {
        let t = s.drop_last();
        assert(ascending(t)) by {
            assert forall|a: int, b: int| 0 <= a < b < t.len() implies t[a]@.index < t[b]@.index by {
                assert(s[a]@.index < s[b]@.index);
            }
        }
        lemma_len_is_cardinality(t);
        assert(s =~= t.insert(t.len() as int, s.last()));
        assert forall|a: int| 0 <= a < t.len() implies t[a]@.index < s.last()@.index by {
            assert(s[a]@.index < s[s.len() - 1]@.index);
        }
        lemma_as_map_insert(t, t.len() as int, s.last());
        assert(!as_map(t).dom().contains(s.last()@.index)) by {
            if holds(t, s.last()@.index) {
                let k = choose|k: int| 0 <= k < t.len() && t[k]@.index == s.last()@.index;
                assert(t[k]@.index < s.last()@.index);
            }
        }
    }
}

} // verus!
