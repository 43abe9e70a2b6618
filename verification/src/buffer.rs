//! The fragment buffer: one slot buffer for each slot within the retention
//! window.
//!
//! The window is counted back from the newest slot seen: with a window of `W`
//! the slots `newest - W + 1` to `newest` are kept and every older one is
//! discarded, so at most `W` slot buffers are resident. A fragment of a slot
//! that old is dropped when it arrives.

use vstd::prelude::*;
use vstd::set_lib::lemma_int_range;
use vstd::set_lib::lemma_len_subset;
use vstd::set_lib::lemma_map_size;
use vstd::set_lib::set_int_range;
use crate::completion::Completion;
use crate::completion::CompletionWindow;
use crate::completion::gap_free;
use crate::completion::has_window;
use crate::completion::lists_missing;
use crate::completion::lists_present;
use crate::completion::lists_window;
use crate::completion::views;
use crate::completion::window_start;
use crate::fragment::Fragment;
use crate::fragment::FragmentView;
use crate::slot_buffer::ArrivalStats;
use crate::slot_buffer::CollisionPolicy;
use crate::slot_buffer::InsertOutcome;
use crate::slot_buffer::SlotBuffer;
use crate::slot_buffer::SlotBufferView;
use crate::slot_buffer::insert_outcome;
use crate::state::SlotEvent;
use crate::state::SlotState;

verus! {

/// Whether `slot` lies within the `retention` most recent slot numbers, counted
/// back from `newest`.
pub open spec fn keeps(newest: u64, retention: u64, slot: u64) -> bool {
    slot + retention > newest
}

/// The fragment buffer as a mathematical value.
pub struct BufferView {
    /// The resident slot buffers.
    pub slots: Map<u64, SlotBufferView>,
    /// The highest slot of which a fragment was offered, if any was.
    pub newest: Option<u64>,
    /// The retention window.
    pub retention: u64,
    /// The policy for colliding fragments.
    pub policy: CollisionPolicy,
}

impl BufferView {
    /// Every resident buffer is well formed, is held under its own slot, and
    /// lies within the retention window.
    pub open spec fn wf(self) -> bool {
        &&& self.slots.dom().finite()
        &&& forall|s: u64| #[trigger]
            self.slots.contains_key(s) ==> {
                &&& self.slots[s].wf()
                &&& self.slots[s].slot == s
                &&& self.newest is Some
                &&& s <= self.newest->0
                &&& keeps(self.newest->0, self.retention, s)
            }
    }

    /// The buffer before anything arrived.
    pub open spec fn empty(retention: u64, policy: CollisionPolicy) -> BufferView {
        BufferView { slots: Map::empty(), newest: None, retention, policy }
    }

    /// The newest slot once a fragment of `slot` has been offered.
    pub open spec fn newest_after(self, slot: u64) -> u64 {
        match self.newest {
            Some(n) => if n < slot {
                slot
            } else {
                n
            },
            None => slot,
        }
    }

    /// The slot buffers that stay once a fragment of `slot` has been offered.
    pub open spec fn retained_after(self, slot: u64) -> Map<u64, SlotBufferView> {
        let newest = self.newest_after(slot);
        self.slots.restrict(Set::new(|s: u64| keeps(newest, self.retention, s)))
    }

    /// What inserting `fragment` does.
    pub open spec fn outcome_of(self, fragment: FragmentView) -> InsertOutcome {
        if !keeps(self.newest_after(fragment.slot), self.retention, fragment.slot) {
            InsertOutcome::Stale
        } else if self.slots.contains_key(fragment.slot) {
            insert_outcome(self.slots[fragment.slot].fragments, fragment, self.policy)
        } else {
            InsertOutcome::Stored
        }
    }

    /// The buffer after `fragment` was offered at `now`: the newest slot
    /// advances, slots that fell out of the window are discarded, and the
    /// fragment goes to its slot's buffer unless its slot is too old.
    pub open spec fn after_insert(self, fragment: FragmentView, now: i64) -> BufferView {
        let newest = self.newest_after(fragment.slot);
        let kept = self.retained_after(fragment.slot);
        let slots = if !keeps(newest, self.retention, fragment.slot) {
            kept
        } else if kept.contains_key(fragment.slot) {
            kept.insert(fragment.slot, kept[fragment.slot].after_insert(fragment, now, self.policy))
        } else {
            kept.insert(fragment.slot, SlotBufferView::first(fragment, now))
        };
        BufferView { slots, newest: Some(newest), ..self }
    }

    /// The state of `slot`: that of its buffer, or `NoFragments` without one.
    pub open spec fn state_of(self, slot: u64) -> SlotState {
        if self.slots.contains_key(slot) {
            self.slots[slot].state
        } else {
            SlotState::NoFragments
        }
    }

    /// The buffer after `slot` took `event`. A slot without a buffer takes no
    /// event.
    pub open spec fn after_event(self, slot: u64, event: SlotEvent) -> BufferView {
        if self.slots.contains_key(slot) {
            BufferView { slots: self.slots.insert(slot, self.slots[slot].after_event(event)), ..self }
        } else {
            self
        }
    }

    /// The fragment held under `(slot, index)`, if there is one.
    pub open spec fn fragment_at(self, slot: u64, index: u32) -> Option<FragmentView> {
        if self.slots.contains_key(slot) && self.slots[slot].fragments.contains_key(index) {
            Some(self.slots[slot].fragments[index])
        } else {
            None
        }
    }

    /// The buffer after all of `arrivals`, each a fragment with the time at
    /// which it was offered, in order.
    pub open spec fn after_all(self, arrivals: Seq<(FragmentView, i64)>) -> BufferView
        decreases arrivals.len(),
    {
        if arrivals.len() == 0 {
            self
        } else {
            self.after_all(arrivals.drop_last()).after_insert(arrivals.last().0, arrivals.last().1)
        }
    }

    /// The indices held for `slot`: none without a buffer.
    pub open spec fn indices_of(self, slot: u64) -> Set<u32> {
        if self.slots.contains_key(slot) {
            self.slots[slot].fragments.dom()
        } else {
            Set::empty()
        }
    }
}

/// The slot buffers of all slots within the retention window.
#[derive(Debug)]
pub struct FragmentBuffer {
    slots: Vec<SlotBuffer>,
    newest: Option<u64>,
    retention: u64,
    policy: CollisionPolicy,
}

spec fn distinct(s: Seq<SlotBuffer>) -> bool {
    forall|a: int, b: int| 0 <= a < b < s.len() ==> s[a]@.slot != s[b]@.slot
}

spec fn has_slot(s: Seq<SlotBuffer>, slot: u64) -> bool {
    exists|k: int| 0 <= k < s.len() && s[k]@.slot == slot
}

spec fn slot_place(s: Seq<SlotBuffer>, slot: u64) -> int {
    choose|k: int| 0 <= k < s.len() && s[k]@.slot == slot
}

spec fn slots_map(s: Seq<SlotBuffer>) -> Map<u64, SlotBufferView> {
    Map::new(|slot: u64| has_slot(s, slot), |slot: u64| s[slot_place(s, slot)]@)
}

proof fn lemma_slots_map_at(s: Seq<SlotBuffer>, k: int)
    requires
        distinct(s),
        0 <= k < s.len(),
    ensures
        slots_map(s).contains_key(s[k]@.slot),
        slots_map(s)[s[k]@.slot] == s[k]@,
{
    let slot = s[k]@.slot;
    assert(has_slot(s, slot));
    let p = slot_place(s, slot);
    assert(0 <= p < s.len() && s[p]@.slot == slot);
    if p < k {
        assert(s[p]@.slot != s[k]@.slot);
    }
    if k < p {
        assert(s[k]@.slot != s[p]@.slot);
    }
}

proof fn lemma_slots_map_push(s: Seq<SlotBuffer>, b: SlotBuffer)
    requires
        distinct(s),
        !has_slot(s, b@.slot),
    ensures
        distinct(s.push(b)),
        slots_map(s.push(b)) == slots_map(s).insert(b@.slot, b@),
{
    let t = s.push(b);
    assert(distinct(t)) by {
        assert forall|a: int, c: int| 0 <= a < c < t.len() implies t[a]@.slot != t[c]@.slot by {
            if c < s.len() {
                assert(s[a]@.slot != s[c]@.slot);
            } else {
                if s[a]@.slot == b@.slot {
                    assert(has_slot(s, b@.slot));
                }
            }
        }
    }
    let m = slots_map(s).insert(b@.slot, b@);
    assert forall|slot: u64| slots_map(t).contains_key(slot) <==> m.contains_key(slot) by {
        if has_slot(t, slot) {
            let k = choose|k: int| 0 <= k < t.len() && t[k]@.slot == slot;
            if k < s.len() {
                assert(s[k]@.slot == slot);
            }
        }
        if has_slot(s, slot) {
            let k = choose|k: int| 0 <= k < s.len() && s[k]@.slot == slot;
            assert(t[k]@.slot == slot);
        }
        if slot == b@.slot {
            assert(t[s.len() as int]@.slot == slot);
        }
    }
    assert forall|slot: u64| slots_map(t).contains_key(slot) implies slots_map(t)[slot]
        == m[slot] by {
        let k = choose|k: int| 0 <= k < t.len() && t[k]@.slot == slot;
        lemma_slots_map_at(t, k);
        if k < s.len() {
            lemma_slots_map_at(s, k);
        }
    }
    assert(slots_map(t) =~= m);
}

proof fn lemma_slots_map_remove(s: Seq<SlotBuffer>, k: int)
    requires
        distinct(s),
        0 <= k < s.len(),
    ensures
        distinct(s.remove(k)),
        !has_slot(s.remove(k), s[k]@.slot),
        slots_map(s.remove(k)) == slots_map(s).remove(s[k]@.slot),
{
    let t = s.remove(k);
    assert(distinct(t)) by {
        assert forall|a: int, c: int| 0 <= a < c < t.len() implies t[a]@.slot != t[c]@.slot by {
            let a0 = if a < k {
                a
            } else {
                a + 1
            };
            let c0 = if c < k {
                c
            } else {
                c + 1
            };
            assert(t[a] == s[a0] && t[c] == s[c0]);
            assert(s[a0]@.slot != s[c0]@.slot);
        }
    }
    assert(!has_slot(t, s[k]@.slot)) by {
        if has_slot(t, s[k]@.slot) {
            let a = choose|a: int| 0 <= a < t.len() && t[a]@.slot == s[k]@.slot;
            let a0 = if a < k {
                a
            } else {
                a + 1
            };
            assert(t[a] == s[a0]);
            if a0 < k {
                assert(s[a0]@.slot != s[k]@.slot);
            } else {
                assert(s[k]@.slot != s[a0]@.slot);
            }
        }
    }
    let m = slots_map(s).remove(s[k]@.slot);
    assert forall|slot: u64| slots_map(t).contains_key(slot) <==> m.contains_key(slot) by {
        if has_slot(t, slot) {
            let a = choose|a: int| 0 <= a < t.len() && t[a]@.slot == slot;
            let a0 = if a < k {
                a
            } else {
                a + 1
            };
            assert(s[a0]@.slot == slot);
        }
        if has_slot(s, slot) && slot != s[k]@.slot {
            let a = choose|a: int| 0 <= a < s.len() && s[a]@.slot == slot;
            let a1 = if a < k {
                a
            } else {
                a - 1
            };
            assert(t[a1]@.slot == slot);
        }
    }
    assert forall|slot: u64| slots_map(t).contains_key(slot) implies slots_map(t)[slot]
        == m[slot] by {
        let a = choose|a: int| 0 <= a < t.len() && t[a]@.slot == slot;
        let a0 = if a < k {
            a
        } else {
            a + 1
        };
        lemma_slots_map_at(t, a);
        lemma_slots_map_at(s, a0);
    }
    assert(slots_map(t) =~= m);
}

proof fn lemma_slots_map_finite(s: Seq<SlotBuffer>)
    requires
        distinct(s),
    ensures
        slots_map(s).dom().finite(),
        slots_map(s).dom().len() == s.len(),
    decreases s.len(),
{
    if s.len() == 0 {
        assert(slots_map(s).dom() =~= Set::<u64>::empty());
    } else {
        let k = s.len() - 1;
        let t = s.remove(k);
        lemma_slots_map_remove(s, k);
        lemma_slots_map_finite(t);
        lemma_slots_map_at(s, k);
        assert(slots_map(s).dom() =~= slots_map(t).dom().insert(s[k]@.slot));
        assert(!slots_map(t).dom().contains(s[k]@.slot));
    }
}

impl View for FragmentBuffer {
    type V = BufferView;

    closed spec fn view(&self) -> BufferView {
        BufferView {
            slots: slots_map(self.slots@),
            newest: self.newest,
            retention: self.retention,
            policy: self.policy,
        }
    }
}

impl FragmentBuffer {
    /// The invariant of the representation: one well-formed buffer for each
    /// resident slot, each within the retention window.
    pub closed spec fn wf(&self) -> bool {
        &&& distinct(self.slots@)
        &&& forall|k: int|
            0 <= k < self.slots.len() ==> {
                &&& (#[trigger] self.slots[k]).wf()
                &&& self.newest is Some
                &&& self.slots[k]@.slot <= self.newest->0
                &&& keeps(self.newest->0, self.retention, self.slots[k]@.slot)
            }
    }

    /// A well-formed buffer has a well-formed view.
    pub proof fn lemma_view_wf(&self)
        requires
            self.wf(),
        ensures
            self@.wf(),
    {
        lemma_slots_map_finite(self.slots@);
        assert forall|s: u64| #[trigger] self@.slots.contains_key(s) implies {
            &&& self@.slots[s].wf()
            &&& self@.slots[s].slot == s
            &&& self@.newest is Some
            &&& s <= self@.newest->0
            &&& keeps(self@.newest->0, self@.retention, s)
        } by {
            let k = choose|k: int| 0 <= k < self.slots@.len() && self.slots@[k]@.slot == s;
            lemma_slots_map_at(self.slots@, k);
            assert(self.slots[k].wf());
            self.slots[k].lemma_view_wf();
        }
    }

    /// An empty buffer with the given retention window and collision policy.
    pub fn new(retention: u64, policy: CollisionPolicy) -> (r: FragmentBuffer)
        ensures
            r.wf(),
            r@ == BufferView::empty(retention, policy),
    {
        let r = FragmentBuffer { slots: Vec::new(), newest: None, retention, policy };
        assert(slots_map(r.slots@) =~= Map::<u64, SlotBufferView>::empty());
        r
    }

    /// The retention window.
    pub fn retention(&self) -> (r: u64)
        ensures
            r == self@.retention,
    {
        self.retention
    }

    /// The collision policy.
    pub fn policy(&self) -> (r: CollisionPolicy)
        ensures
            r == self@.policy,
    {
        self.policy
    }

    /// The highest slot of which a fragment was offered.
    pub fn newest(&self) -> (r: Option<u64>)
        ensures
            r == self@.newest,
    {
        self.newest
    }

    /// How many slot buffers are resident.
    pub fn resident(&self) -> (r: usize)
        requires
            self.wf(),
        ensures
            r == self@.slots.dom().len(),
            r <= self@.retention,
    {
        proof {
            lemma_slots_map_finite(self.slots@);
            self.lemma_view_wf();
            lemma_resident_within_retention(self@);
        }
        self.slots.len()
    }

    /// Where the buffer of `slot` stands, if it is resident.
    fn find(&self, slot: u64) -> (r: Option<usize>)
        requires
            self.wf(),
        ensures
            r is Some == self@.slots.contains_key(slot),
            r matches Some(k) ==> k < self.slots.len() && self.slots[k as int]@.slot == slot
                && self@.slots[slot] == self.slots[k as int]@,
    {
        let mut k: usize = 0;
        while k < self.slots.len()
            invariant
                k <= self.slots.len(),
                distinct(self.slots@),
                forall|a: int| 0 <= a < k ==> self.slots[a]@.slot != slot,
            decreases self.slots.len() - k,
        {
            if self.slots[k].slot() == slot {
                proof {
                    lemma_slots_map_at(self.slots@, k as int);
                }
                return Some(k);
            }
            k += 1;
        }
        proof {
            if has_slot(self.slots@, slot) {
                let a = choose|a: int| 0 <= a < self.slots@.len() && self.slots@[a]@.slot == slot;
                assert(self.slots[a]@.slot != slot);
            }
        }
        None
    }

    /// The state of `slot`.
    pub fn state(&self, slot: u64) -> (r: SlotState)
        requires
            self.wf(),
        ensures
            r == self@.state_of(slot),
    {
        match self.find(slot) {
            Some(k) => self.slots[k].state(),
            None => SlotState::NoFragments,
        }
    }

    /// The arrival statistics of `slot`, if it is resident.
    pub fn stats(&self, slot: u64) -> (r: Option<ArrivalStats>)
        requires
            self.wf(),
        ensures
            r == if self@.slots.contains_key(slot) {
                Some(self@.slots[slot].stats)
            } else {
                None
            },
    {
        match self.find(slot) {
            Some(k) => Some(self.slots[k].stats()),
            None => None,
        }
    }

    /// The fragment held under `(slot, index)`, or `None`: not found.
    pub fn get(&self, slot: u64, index: u32) -> (r: Option<&Fragment>)
        requires
            self.wf(),
        ensures
            r is Some == self@.fragment_at(slot, index) is Some,
            r matches Some(f) ==> Some(f@) == self@.fragment_at(slot, index),
    {
        match self.find(slot) {
            Some(k) => self.slots[k].get(index),
            None => None,
        }
    }

    /// The indices held for `slot`, ascending; none when the slot is not
    /// resident.
    pub fn indices(&self, slot: u64) -> (r: Vec<u32>)
        requires
            self.wf(),
        ensures
            lists_present(self@.indices_of(slot), r@),
    {
        match self.find(slot) {
            Some(k) => self.slots[k].indices(),
            None => {
                let r: Vec<u32> = Vec::new();
                assert forall|j: u32| r@.contains(j) <==> self@.indices_of(slot).contains(j) by {
                    if r@.contains(j) {
                        let a = choose|a: int| 0 <= a < r@.len() && r@[a] == j;
                    }
                }
                r
            },
        }
    }

    /// The window that `terminal` closes in `slot`: see
    /// [`SlotBuffer::window`]. `None` also when the slot is not resident.
    pub fn window(&self, slot: u64, terminal: u32) -> (r: Option<CompletionWindow>)
        requires
            self.wf(),
        ensures
            r is Some == has_window(self@.indices_of(slot), terminal),
            r matches Some(w) ==> {
                &&& w.min_index == window_start(self@.indices_of(slot), terminal)
                &&& w.max_index == terminal
                &&& lists_missing(self@.indices_of(slot), w.min_index, terminal, w.missing@)
            },
    {
        match self.find(slot) {
            Some(k) => self.slots[k].window(terminal),
            None => None,
        }
    }

    /// Judges the window that `terminal` closes in `slot`: see
    /// [`SlotBuffer::check`]. `None` also when the slot is not resident.
    pub fn check(&self, slot: u64, terminal: u32) -> (r: Option<Completion>)
        requires
            self.wf(),
        ensures
            match r {
                None => !has_window(self@.indices_of(slot), terminal),
                Some(Completion::Complete(list)) => {
                    let start = window_start(self@.indices_of(slot), terminal);
                    &&& self@.slots.contains_key(slot)
                    &&& has_window(self@.indices_of(slot), terminal)
                    &&& gap_free(self@.indices_of(slot), start, terminal)
                    &&& lists_window(self@.slots[slot].fragments, start, terminal, views(list@))
                },
                Some(Completion::Incomplete(missing)) => {
                    let start = window_start(self@.indices_of(slot), terminal);
                    &&& has_window(self@.indices_of(slot), terminal)
                    &&& !gap_free(self@.indices_of(slot), start, terminal)
                    &&& lists_missing(self@.indices_of(slot), start, terminal, missing@)
                },
            },
    {
        match self.find(slot) {
            Some(k) => self.slots[k].check(terminal),
            None => None,
        }
    }

    /// Lets `slot` take `event`. Nothing happens when the slot is not resident.
    pub fn apply(&mut self, slot: u64, event: SlotEvent)
        requires
            old(self).wf(),
        ensures
            final(self).wf(),
            final(self)@ == old(self)@.after_event(slot, event),
    {
        match self.find(slot) {
            Some(k) => {
                proof {
                    lemma_slots_map_remove(self.slots@, k as int);
                }
                let mut held = self.slots.remove(k);
                proof {
                    held.lemma_view_wf();
                }
                held.apply(event);
                proof {
                    lemma_slots_map_push(self.slots@, held);
                    assert(old(self)@.slots.remove(slot).insert(slot, held@) =~= old(
                        self,
                    )@.slots.insert(slot, held@));
                }
                self.slots.push(held);
            },
            None => {},
        }
    }

    /// Discards every slot buffer that lies outside the window counted back
    /// from `newest`.
    fn evict(&mut self, newest: u64)
        requires
            old(self).wf(),
            old(self).newest matches Some(n) ==> n <= newest,
        ensures
            final(self).wf(),
            final(self).newest == Some(newest),
            final(self).retention == old(self).retention,
            final(self).policy == old(self).policy,
            slots_map(final(self).slots@) == slots_map(old(self).slots@).restrict(
                Set::new(|s: u64| keeps(newest, old(self).retention, s)),
            ),
    {
        let ghost keep = Set::new(|s: u64| keeps(newest, self.retention, s));
        let ghost before = slots_map(self.slots@);
        let mut k: usize = 0;
        while k < self.slots.len()
            invariant
                k <= self.slots.len(),
                distinct(self.slots@),
                self.retention == old(self).retention,
                self.policy == old(self).policy,
                self.newest == old(self).newest,
                old(self).newest matches Some(n) ==> n <= newest,
                keep == Set::new(|s: u64| keeps(newest, self.retention, s)),
                forall|a: int|
                    0 <= a < self.slots.len() ==> {
                        &&& (#[trigger] self.slots[a]).wf()
                        &&& self.newest is Some
                        &&& self.slots[a]@.slot <= self.newest->0
                    },
                forall|a: int| 0 <= a < k ==> keep.contains((#[trigger] self.slots[a])@.slot),
                slots_map(self.slots@).restrict(keep) == before.restrict(keep),
            decreases self.slots.len() - k,
        {
            let slot = self.slots[k].slot();
            if newest - slot < self.retention {
                k += 1;
            } else {
                proof {
                    lemma_slots_map_remove(self.slots@, k as int);
                    assert(slots_map(self.slots@).remove(slot).restrict(keep) =~= slots_map(
                        self.slots@,
                    ).restrict(keep));
                }
                self.slots.remove(k);
            }
        }
        self.newest = Some(newest);
        proof {
            assert forall|s: u64| slots_map(self.slots@).contains_key(s) implies keep.contains(
                s,
            ) by {
                let a = choose|a: int| 0 <= a < self.slots@.len() && self.slots@[a]@.slot == s;
                assert(keep.contains(self.slots[a]@.slot));
            }
            assert(slots_map(self.slots@).restrict(keep) =~= slots_map(self.slots@));
        }
    }

    /// Offers `fragment`, which arrived at `now`. The newest slot advances to
    /// the fragment's slot if that is higher, and slot buffers that fall out
    /// of the retention window are discarded. A fragment whose own slot lies
    /// outside the window is dropped as `Stale`; any other is stored in its
    /// slot's buffer, which is created if the slot has none.
    pub fn insert(&mut self, fragment: Fragment, now: i64) -> (r: InsertOutcome)
        requires
            old(self).wf(),
        ensures
            final(self).wf(),
            final(self)@ == old(self)@.after_insert(fragment@, now),
            r == old(self)@.outcome_of(fragment@),
    {
        let slot = fragment.slot();
        let newest = match self.newest {
            Some(n) => if n < slot {
                slot
            } else {
                n
            },
            None => slot,
        };
        self.evict(newest);
        let ghost kept = old(self)@.retained_after(slot);
        assert(slots_map(self.slots@) == kept);
        if newest - slot >= self.retention {
            return InsertOutcome::Stale;
        }
        match self.find(slot) {
            Some(k) => {
                proof {
                    lemma_slots_map_remove(self.slots@, k as int);
                }
                let mut held = self.slots.remove(k);
                let outcome = match held.insert(fragment, now, self.policy) {
                    Some(outcome) => outcome,
                    None => InsertOutcome::Stale,
                };
                proof {
                    lemma_slots_map_push(self.slots@, held);
                    assert(kept.remove(slot).insert(slot, held@) =~= kept.insert(slot, held@));
                }
                self.slots.push(held);
                outcome
            },
            None => {
                let held = SlotBuffer::first(fragment, now);
                proof {
                    lemma_slots_map_push(self.slots@, held);
                }
                self.slots.push(held);
                InsertOutcome::Stored
            },
        }
    }
}

/// At most as many slot buffers are resident as the retention window is wide.
pub proof fn lemma_resident_within_retention(buffer: BufferView)
    requires
        buffer.wf(),
    ensures
        buffer.slots.dom().len() <= buffer.retention,
{
    let dom = buffer.slots.dom();
    if dom.len() > 0 {
        let some = dom.choose();
        assert(buffer.slots.contains_key(some));
        let newest = buffer.newest->0;
        let lo = newest - buffer.retention + 1;
        let hi = newest + 1;
        let f = |s: u64| s as int;
        let image = dom.map(f);
        assert(vstd::relations::injective_on(f, dom));
        lemma_map_size(dom, image, f);
        lemma_int_range(lo, hi);
        assert(image.subset_of(set_int_range(lo, hi))) by {
            assert forall|i: int| image.contains(i) implies set_int_range(lo, hi).contains(i) by {
                let s = choose|s: u64| dom.contains(s) && f(s) == i;
                assert(buffer.slots.contains_key(s));
            }
        }
        lemma_len_subset(image, set_int_range(lo, hi));
    }
}

/// Offering a fragment to a well-formed buffer leaves it well formed.
pub proof fn lemma_insert_keeps_wf(buffer: BufferView, fragment: FragmentView, now: i64)
    requires
        buffer.wf(),
    ensures
        buffer.after_insert(fragment, now).wf(),
{
    let after = buffer.after_insert(fragment, now);
    let kept = buffer.retained_after(fragment.slot);
    assert(kept.dom().subset_of(buffer.slots.dom()));
    lemma_len_subset(kept.dom(), buffer.slots.dom());
    assert forall|s: u64| #[trigger] after.slots.contains_key(s) implies {
        &&& after.slots[s].wf()
        &&& after.slots[s].slot == s
        &&& s <= after.newest->0
        &&& keeps(after.newest->0, after.retention, s)
    } by {
        if kept.contains_key(s) {
            assert(buffer.slots.contains_key(s));
        }
    }
}

/// An event leaves a well-formed buffer well formed.
pub proof fn lemma_event_keeps_wf(buffer: BufferView, slot: u64, event: SlotEvent)
    requires
        buffer.wf(),
    ensures
        buffer.after_event(slot, event).wf(),
{
    let after = buffer.after_event(slot, event);
    assert forall|s: u64| #[trigger] after.slots.contains_key(s) implies {
        &&& after.slots[s].wf()
        &&& after.slots[s].slot == s
        &&& s <= after.newest->0
        &&& keeps(after.newest->0, after.retention, s)
    } by {
        assert(buffer.slots.contains_key(s));
    }
}

/// Whether no two of `arrivals` have the same slot and index.
pub open spec fn distinct_keys(arrivals: Seq<(FragmentView, i64)>) -> bool {
    forall|a: int, b: int|
        0 <= a < b < arrivals.len() ==> arrivals[a].0.slot != arrivals[b].0.slot
            || arrivals[a].0.index != arrivals[b].0.index
}

/// The newest slot never goes back.
pub proof fn lemma_newest_is_monotone(buffer: BufferView, fragment: FragmentView, now: i64)
    ensures
        buffer.after_insert(fragment, now).newest is Some,
        buffer.after_insert(fragment, now).newest->0 >= fragment.slot,
        buffer.newest matches Some(n) ==> n <= buffer.after_insert(fragment, now).newest->0,
{
}

/// Whatever is found after some arrivals was there before or is one of them.
pub proof fn lemma_found_was_offered(
    buffer: BufferView,
    arrivals: Seq<(FragmentView, i64)>,
    slot: u64,
    index: u32,
)
    requires
        buffer.after_all(arrivals).fragment_at(slot, index) is Some,
    ensures
        buffer.fragment_at(slot, index) is Some || exists|j: int|
            0 <= j < arrivals.len() && (#[trigger] arrivals[j]).0.slot == slot && arrivals[j].0.index
                == index,
    decreases arrivals.len(),
{
    if arrivals.len() > 0 {
        let earlier = arrivals.drop_last();
        let before = buffer.after_all(earlier);
        let last = arrivals.last();
        if last.0.slot == slot && last.0.index == index {
            assert(arrivals[arrivals.len() - 1].0.slot == slot);
        } else {
            assert(before.fragment_at(slot, index) is Some);
            lemma_found_was_offered(buffer, earlier, slot, index);
            if !(buffer.fragment_at(slot, index) is Some) {
                let j = choose|j: int|
                    0 <= j < earlier.len() && (#[trigger] earlier[j]).0.slot == slot
                        && earlier[j].0.index == index;
                assert(arrivals[j] == earlier[j]);
            }
        }
    }
}

/// Insertion under a free key is kept: after any sequence of arrivals with
/// distinct keys, none of which was held before, each fragment whose slot is
/// still within the retention window is found under its key, unchanged.
pub proof fn lemma_distinct_insertions_are_found(
    buffer: BufferView,
    arrivals: Seq<(FragmentView, i64)>,
    k: int,
)
    requires
        distinct_keys(arrivals),
        0 <= k < arrivals.len(),
        forall|j: int|
            0 <= j < arrivals.len() ==> buffer.fragment_at(
                (#[trigger] arrivals[j]).0.slot,
                arrivals[j].0.index,
            ) is None,
        keeps(buffer.after_all(arrivals).newest->0, buffer.retention, arrivals[k].0.slot),
    ensures
        buffer.after_all(arrivals).fragment_at(arrivals[k].0.slot, arrivals[k].0.index) == Some(
            arrivals[k].0,
        ),
    decreases arrivals.len(),
{
    let earlier = arrivals.drop_last();
    let before = buffer.after_all(earlier);
    let last = arrivals.last();
    let after = before.after_insert(last.0, last.1);
    let slot = arrivals[k].0.slot;
    let index = arrivals[k].0.index;
    lemma_retention_is_kept(buffer, earlier);
    assert(after.retention == buffer.retention);
    lemma_newest_is_monotone(before, last.0, last.1);
    if k == arrivals.len() - 1 {
        if before.fragment_at(slot, index) is Some {
            lemma_found_was_offered(buffer, earlier, slot, index);
            assert(buffer.fragment_at(arrivals[k].0.slot, arrivals[k].0.index) is None);
            let j = choose|j: int|
                0 <= j < earlier.len() && (#[trigger] earlier[j]).0.slot == slot
                    && earlier[j].0.index == index;
            assert(arrivals[j] == earlier[j]);
            assert(false);
        }
    } else {
        assert(earlier[k] == arrivals[k]);
        assert(distinct_keys(earlier)) by {
            assert forall|a: int, b: int| 0 <= a < b < earlier.len() implies earlier[a].0.slot
                != earlier[b].0.slot || earlier[a].0.index != earlier[b].0.index by {
                assert(earlier[a] == arrivals[a] && earlier[b] == arrivals[b]);
            }
        }
        assert forall|j: int| 0 <= j < earlier.len() implies buffer.fragment_at(
            (#[trigger] earlier[j]).0.slot,
            earlier[j].0.index,
        ) is None by {
            assert(earlier[j] == arrivals[j]);
        }
        if earlier.len() > 0 {
            let e = earlier.drop_last();
            lemma_newest_is_monotone(buffer.after_all(e), earlier.last().0, earlier.last().1);
        }
        lemma_distinct_insertions_are_found(buffer, earlier, k);
        assert(last.0.slot != slot || last.0.index != index);
    }
}

/// Arrivals change neither the retention window nor the policy.
pub proof fn lemma_retention_is_kept(buffer: BufferView, arrivals: Seq<(FragmentView, i64)>)
    ensures
        buffer.after_all(arrivals).retention == buffer.retention,
        buffer.after_all(arrivals).policy == buffer.policy,
    decreases arrivals.len(),
{
    if arrivals.len() > 0 {
        lemma_retention_is_kept(buffer, arrivals.drop_last());
    }
}

} // verus!
