//! The life of one slot, as an explicit state machine.
//!
//! A slot starts with no fragments, collects them, becomes ready when a
//! terminal fragment closes a gap-free window, is decoded once, and ends as
//! decoded or failed. Both ends are final.

use vstd::prelude::*;

verus! {

/// Where a slot stands.
#[derive(Clone, Copy, Debug, PartialEq, Eq, Structural)]
pub enum SlotState {
    /// Nothing has been stored for the slot.
    NoFragments,
    /// Fragments are being stored; no gap-free window has been seen yet.
    Collecting,
    /// A terminal fragment closed a gap-free window.
    Ready,
    /// The fragment list has been handed out for decoding.
    Decoding,
    /// Decoding succeeded. Final.
    Decoded,
    /// Reassembly or parsing failed. Final.
    Failed,
}

/// What can happen to a slot.
#[derive(Clone, Copy, Debug, PartialEq, Eq, Structural)]
pub enum SlotEvent {
    /// A fragment of the slot was stored.
    FragmentStored,
    /// A terminal fragment was stored and its window has no gap.
    WindowComplete,
    /// The fragment list was handed out for decoding.
    DecodeStarted,
    /// The decoder returned entries.
    DecodeSucceeded,
    /// The decoder reported an error.
    DecodeFailed,
}

/// The transition table. An event that has no meaning in a state leaves the
/// state as it is.
pub open spec fn next_state(state: SlotState, event: SlotEvent) -> SlotState {
    match (state, event) {
        (SlotState::NoFragments, SlotEvent::FragmentStored) => SlotState::Collecting,
        (SlotState::Collecting, SlotEvent::WindowComplete) => SlotState::Ready,
        (SlotState::Ready, SlotEvent::DecodeStarted) => SlotState::Decoding,
        (SlotState::Decoding, SlotEvent::DecodeSucceeded) => SlotState::Decoded,
        (SlotState::Decoding, SlotEvent::DecodeFailed) => SlotState::Failed,
        _ => state,
    }
}

/// Whether `state` is final.
pub open spec fn is_final(state: SlotState) -> bool {
    state == SlotState::Decoded || state == SlotState::Failed
}

/// Whether taking `event` in `state` hands the slot to the decoder.
pub open spec fn starts_decode(state: SlotState, event: SlotEvent) -> bool {
    state == SlotState::Ready && event == SlotEvent::DecodeStarted
}

/// The state reached from `state` after all of `events`, in order.
pub open spec fn run(state: SlotState, events: Seq<SlotEvent>) -> SlotState
    decreases events.len(),
{
    if events.len() == 0 {
        state
    } else {
        next_state(run(state, events.drop_last()), events.last())
    }
}

/// How often the slot is handed to the decoder while `events` are taken from
/// `state`, in order.
pub open spec fn decode_starts(state: SlotState, events: Seq<SlotEvent>) -> nat
    decreases events.len(),
{
    if events.len() == 0 {
        0
    } else {
        let before = run(state, events.drop_last());
        let earlier = decode_starts(state, events.drop_last());
        if starts_decode(before, events.last()) {
            earlier + 1
        } else {
            earlier
        }
    }
}

/// How far along a state is: no transition ever lowers it.
pub open spec fn progress(state: SlotState) -> nat {
    match state {
        SlotState::NoFragments => 0,
        SlotState::Collecting => 1,
        SlotState::Ready => 2,
        SlotState::Decoding => 3,
        SlotState::Decoded => 4,
        SlotState::Failed => 4,
    }
}

impl SlotState {
    /// Takes one event.
    pub fn step(self, event: SlotEvent) -> (r: SlotState)
        ensures
            r == next_state(self, event),
    {
        match (self, event) {
            (SlotState::NoFragments, SlotEvent::FragmentStored) => SlotState::Collecting,
            (SlotState::Collecting, SlotEvent::WindowComplete) => SlotState::Ready,
            (SlotState::Ready, SlotEvent::DecodeStarted) => SlotState::Decoding,
            (SlotState::Decoding, SlotEvent::DecodeSucceeded) => SlotState::Decoded,
            (SlotState::Decoding, SlotEvent::DecodeFailed) => SlotState::Failed,
            (state, _) => state,
        }
    }

    /// Whether the state is final.
    pub fn is_final(self) -> (r: bool)
        ensures
            r == is_final(self),
    {
        match self {
            SlotState::Decoded => true,
            SlotState::Failed => true,
            _ => false,
        }
    }

    /// Whether a complete window may still lead to a decode from this state.
    pub fn is_collecting(self) -> (r: bool)
        ensures
            r == (self == SlotState::Collecting),
    {
        match self {
            SlotState::Collecting => true,
            _ => false,
        }
    }
}

/// A final state is never left, whatever happens.
pub proof fn lemma_final_is_absorbing(state: SlotState, events: Seq<SlotEvent>)
    requires
        is_final(state),
    ensures
        run(state, events) == state,
        decode_starts(state, events) == 0,
    decreases events.len(),
{
    if events.len() > 0 {
        lemma_final_is_absorbing(state, events.drop_last());
    }
}

/// No sequence of events moves a slot backwards.
pub proof fn lemma_progress_is_monotone(state: SlotState, events: Seq<SlotEvent>)
    ensures
        progress(state) <= progress(run(state, events)),
    decreases events.len(),
{
    if events.len() > 0 {
        lemma_progress_is_monotone(state, events.drop_last());
    }
}

/// A slot is handed to the decoder at most once, whatever events arrive and
/// in whatever order; once it has been, it is at least `Decoding`.
pub proof fn lemma_decode_starts_at_most_once(state: SlotState, events: Seq<SlotEvent>)
    ensures
        decode_starts(state, events) <= 1,
        decode_starts(state, events) == 1 ==> progress(run(state, events)) >= 3,
        progress(state) >= 3 ==> decode_starts(state, events) == 0,
    decreases events.len(),
{
    if events.len() > 0 {
        lemma_decode_starts_at_most_once(state, events.drop_last());
        lemma_progress_is_monotone(state, events.drop_last());
    }
}

} // verus!
