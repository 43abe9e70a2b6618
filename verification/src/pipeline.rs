//! The pipeline: fragments in, decode requests and match events out.
//!
//! The pipeline decides and never waits. [`Pipeline::ingest`] takes one
//! fragment and says what has to happen next; where that is a decode, the
//! caller reassembles the payload from the fragments it was handed and gives
//! the outcome back through [`Pipeline::finish`], which parses and scans it.
//! A slot is handed out for decoding at most once.

use vstd::prelude::*;
use crate::buffer::BufferView;
use crate::buffer::FragmentBuffer;
use crate::buffer::keeps;
use crate::buffer::lemma_event_keeps_wf;
use crate::buffer::lemma_insert_keeps_wf;
use crate::buffer::lemma_resident_within_retention;
use crate::completion::Completion;
use crate::completion::gap_free;
use crate::completion::lists_missing;
use crate::completion::lists_window;
use crate::completion::views;
use crate::completion::window_start;
use crate::config::Config;
use crate::decode::DecodeError;
use crate::decode::parse_entries;
use crate::decode::parsed_entries;
use crate::fragment::Fragment;
use crate::fragment::FragmentKind;
use crate::fragment::FragmentView;
use crate::record::AccountKey;
use crate::record::Entry;
use crate::record::entry_views;
use crate::scanner::MatchEvent;
use crate::scanner::event_views;
use crate::scanner::matches_of;
use crate::scanner::scan;
use crate::slot_buffer::CollisionPolicy;
use crate::slot_buffer::InsertOutcome;
use crate::state::SlotEvent;
use crate::state::SlotState;
use crate::state::is_final;
use crate::state::progress;

verus! {

/// The pipeline as a mathematical value.
pub struct PipelineView {
    pub buffer: BufferView,
    pub target: Seq<u8>,
}

impl PipelineView {
    /// Whether taking `fragment` makes the pipeline judge a window: the
    /// fragment bears data and the terminal marker, it is stored or already
    /// held, and its slot is still collecting.
    pub open spec fn judges(self, fragment: FragmentView, now: i64) -> bool {
        &&& fragment.kind == FragmentKind::Data
        &&& fragment.is_terminal()
        &&& self.buffer.after_insert(fragment, now).state_of(fragment.slot)
            == SlotState::Collecting
    }

    /// Whether taking `fragment` hands its slot out for decoding: a window is
    /// judged and has no gap.
    pub open spec fn hands_out(self, fragment: FragmentView, now: i64) -> bool {
        let held = self.buffer.after_insert(fragment, now).indices_of(fragment.slot);
        self.judges(fragment, now) && gap_free(
            held,
            window_start(held, fragment.index),
            fragment.index,
        )
    }

    /// The pipeline after `fragment` was taken at `now`. A coding fragment
    /// changes nothing. A data fragment is offered to the buffer; where that
    /// closes a gap-free window, the slot passes through `Ready` and is
    /// `Decoding` afterwards.
    pub open spec fn after_ingest(self, fragment: FragmentView, now: i64) -> PipelineView {
        if fragment.kind != FragmentKind::Data {
            self
        } else if self.hands_out(fragment, now) {
            PipelineView {
                buffer: self.buffer.after_insert(fragment, now).after_event(
                    fragment.slot,
                    SlotEvent::WindowComplete,
                ).after_event(fragment.slot, SlotEvent::DecodeStarted),
                ..self
            }
        } else {
            PipelineView { buffer: self.buffer.after_insert(fragment, now), ..self }
        }
    }

    /// Whether `given` is what taking `fragment` at `now` gives.
    pub open spec fn ingest_gives(self, fragment: FragmentView, now: i64, given: Ingest) -> bool {
        let after = self.buffer.after_insert(fragment, now);
        let held = after.indices_of(fragment.slot);
        let start = window_start(held, fragment.index);
        match given {
            Ingest::Ignored => fragment.kind != FragmentKind::Data,
            Ingest::Settled(outcome) => {
                &&& fragment.kind == FragmentKind::Data
                &&& !self.judges(fragment, now)
                &&& outcome == self.buffer.outcome_of(fragment)
            },
            Ingest::Wait { outcome, missing } => {
                &&& self.judges(fragment, now)
                &&& !self.hands_out(fragment, now)
                &&& outcome == self.buffer.outcome_of(fragment)
                &&& lists_missing(held, start, fragment.index, missing@)
            },
            Ingest::Decode { outcome, fragments } => {
                &&& self.hands_out(fragment, now)
                &&& outcome == self.buffer.outcome_of(fragment)
                &&& lists_window(
                    after.slots[fragment.slot].fragments,
                    start,
                    fragment.index,
                    views(fragments@),
                )
            },
        }
    }

    /// Whether `given` is what ending the decoding of `slot` with `decoded`
    /// at `now` gives.
    pub open spec fn conclude_gives(
        self,
        slot: u64,
        decoded: Result<Vec<Entry>, DecodeError>,
        now: i64,
        given: Finished,
    ) -> bool {
        if self.buffer.state_of(slot) != SlotState::Decoding {
            given is NotDecoding
        } else {
            match decoded {
                Ok(parsed) => {
                    &&& given matches Finished::Decoded { entries, matches }
                    &&& entries == parsed
                    &&& event_views(matches@) == matches_of(
                        entry_views(parsed@),
                        self.target,
                        slot,
                        now,
                    )
                },
                Err(e) => given == Finished::Failed(e),
            }
        }
    }

    /// Whether reassembly gave a payload that parses into entries.
    pub open spec fn decodes(self, reassembled: Result<Vec<u8>, String>) -> bool {
        reassembled matches Ok(payload) && parsed_entries(payload@) is Some
    }

    /// Whether `given` is what ending the decoding of `slot` with what
    /// reassembly gave, at `now`, gives.
    pub open spec fn finish_gives(
        self,
        slot: u64,
        reassembled: Result<Vec<u8>, String>,
        now: i64,
        given: Finished,
    ) -> bool {
        if self.buffer.state_of(slot) != SlotState::Decoding {
            given is NotDecoding
        } else {
            match reassembled {
                Ok(payload) => match parsed_entries(payload@) {
                    Some(parsed) => {
                        &&& given matches Finished::Decoded { entries, matches }
                        &&& entry_views(entries@) == parsed
                        &&& event_views(matches@) == matches_of(parsed, self.target, slot, now)
                    },
                    None => given matches Finished::Failed(e) && e is Parse,
                },
                Err(reason) => given == Finished::Failed(DecodeError::Reassembly(reason)),
            }
        }
    }

    /// The pipeline after the decoding of `slot` ended, well or not. Only a
    /// slot that is `Decoding` is affected.
    pub open spec fn after_finish(self, slot: u64, decoded: bool) -> PipelineView {
        if self.buffer.state_of(slot) == SlotState::Decoding {
            PipelineView {
                buffer: self.buffer.after_event(
                    slot,
                    if decoded {
                        SlotEvent::DecodeSucceeded
                    } else {
                        SlotEvent::DecodeFailed
                    },
                ),
                ..self
            }
        } else {
            self
        }
    }
}

/// What can reach a pipeline: a fragment at some time, or the end of a
/// slot's decoding.
pub enum Input {
    Fragment { fragment: FragmentView, now: i64 },
    Finish { slot: u64, decoded: bool },
}

impl PipelineView {
    /// The pipeline after `input`.
    pub open spec fn step(self, input: Input) -> PipelineView {
        match input {
            Input::Fragment { fragment, now } => self.after_ingest(fragment, now),
            Input::Finish { slot, decoded } => self.after_finish(slot, decoded),
        }
    }

    /// The pipeline after all of `inputs`, in order.
    pub open spec fn run(self, inputs: Seq<Input>) -> PipelineView
        decreases inputs.len(),
    {
        if inputs.len() == 0 {
            self
        } else {
            self.run(inputs.drop_last()).step(inputs.last())
        }
    }

    /// Whether `input` makes the pipeline hand `slot` out for decoding.
    pub open spec fn hands_out_on(self, input: Input, slot: u64) -> bool {
        input matches Input::Fragment { fragment, now } && fragment.slot == slot && self.hands_out(
            fragment,
            now,
        )
    }

    /// How often `slot` is handed out for decoding while `inputs` are taken,
    /// in order.
    pub open spec fn hand_outs(self, inputs: Seq<Input>, slot: u64) -> nat
        decreases inputs.len(),
    {
        if inputs.len() == 0 {
            0
        } else {
            let earlier = self.hand_outs(inputs.drop_last(), slot);
            if self.run(inputs.drop_last()).hands_out_on(inputs.last(), slot) {
                earlier + 1
            } else {
                earlier
            }
        }
    }

    /// Whether `input` makes the pipeline scan `slot` and emit its match
    /// events.
    pub open spec fn emits_on(self, input: Input, slot: u64) -> bool {
        input matches Input::Finish { slot: ended, decoded } && ended == slot && decoded
            && self.buffer.state_of(slot) == SlotState::Decoding
    }

    /// How often the match events of `slot` are emitted while `inputs` are
    /// taken, in order.
    pub open spec fn emissions(self, inputs: Seq<Input>, slot: u64) -> nat
        decreases inputs.len(),
    {
        if inputs.len() == 0 {
            0
        } else {
            let earlier = self.emissions(inputs.drop_last(), slot);
            if self.run(inputs.drop_last()).emits_on(inputs.last(), slot) {
                earlier + 1
            } else {
                earlier
            }
        }
    }

    /// Whether `slot` is done with: it is final, or it lies outside the
    /// retention window.
    pub open spec fn closed(self, slot: u64) -> bool {
        ||| is_final(self.buffer.state_of(slot))
        ||| self.buffer.newest matches Some(newest) && !keeps(newest, self.buffer.retention, slot)
    }

    /// Whether `slot` can no longer be handed out: it has been, or it lies
    /// outside the retention window.
    pub open spec fn settled(self, slot: u64) -> bool {
        ||| progress(self.buffer.state_of(slot)) >= 3
        ||| self.buffer.newest matches Some(newest) && !keeps(newest, self.buffer.retention, slot)
    }
}

/// A settled slot is not handed out, and stays settled.
pub proof fn lemma_settled_stays(pipeline: PipelineView, input: Input, slot: u64)
    requires
        pipeline.settled(slot),
    ensures
        !pipeline.hands_out_on(input, slot),
        pipeline.step(input).settled(slot),
{
    match input {
        Input::Fragment { fragment, now } => {
            let after = pipeline.buffer.after_insert(fragment, now);
            if fragment.kind == FragmentKind::Data {
                if after.slots.contains_key(slot) {
                    assert(pipeline.buffer.slots.contains_key(slot));
                    assert(progress(after.state_of(slot)) >= 3);
                }
            }
        },
        Input::Finish { slot: other, decoded } => {},
    }
}

/// A slot that is handed out is settled afterwards.
pub proof fn lemma_handed_out_is_settled(pipeline: PipelineView, input: Input, slot: u64)
    requires
        pipeline.hands_out_on(input, slot),
    ensures
        pipeline.step(input).settled(slot),
{
}

/// At-most-once decode: whatever reaches a pipeline, and in whatever order, a
/// slot is handed out for decoding at most once. Once it has been, or once it
/// has fallen out of the retention window, it never is again.
pub proof fn lemma_decode_at_most_once(pipeline: PipelineView, inputs: Seq<Input>, slot: u64)
    ensures
        pipeline.hand_outs(inputs, slot) <= 1,
        pipeline.hand_outs(inputs, slot) == 1 ==> pipeline.run(inputs).settled(slot),
        pipeline.settled(slot) ==> pipeline.hand_outs(inputs, slot) == 0 && pipeline.run(
            inputs,
        ).settled(slot),
    decreases inputs.len(),
{
    if inputs.len() > 0 {
        let earlier = inputs.drop_last();
        let before = pipeline.run(earlier);
        lemma_decode_at_most_once(pipeline, earlier, slot);
        if before.settled(slot) {
            lemma_settled_stays(before, inputs.last(), slot);
        }
        if before.hands_out_on(inputs.last(), slot) {
            lemma_handed_out_is_settled(before, inputs.last(), slot);
        }
    }
}

/// A slot that is done with emits nothing, and stays done with.
pub proof fn lemma_closed_stays(pipeline: PipelineView, input: Input, slot: u64)
    requires
        pipeline.buffer.wf(),
        pipeline.closed(slot),
    ensures
        !pipeline.emits_on(input, slot),
        pipeline.step(input).closed(slot),
{
    match input {
        Input::Fragment { fragment, now } => {
            let after = pipeline.buffer.after_insert(fragment, now);
            if fragment.kind == FragmentKind::Data {
                if after.slots.contains_key(slot) {
                    assert(pipeline.buffer.slots.contains_key(slot));
                    assert(is_final(after.state_of(slot)));
                }
            }
        },
        Input::Finish { slot: other, decoded } => {},
    }
}

/// At-most-once emission: whatever reaches a pipeline, and in whatever order,
/// the match events of a slot are emitted at most once.
pub proof fn lemma_emit_at_most_once(pipeline: PipelineView, inputs: Seq<Input>, slot: u64)
    requires
        pipeline.buffer.wf(),
    ensures
        pipeline.emissions(inputs, slot) <= 1,
        pipeline.emissions(inputs, slot) == 1 ==> pipeline.run(inputs).closed(slot),
        pipeline.closed(slot) ==> pipeline.emissions(inputs, slot) == 0 && pipeline.run(
            inputs,
        ).closed(slot),
    decreases inputs.len(),
{
    if inputs.len() > 0 {
        let earlier = inputs.drop_last();
        let before = pipeline.run(earlier);
        lemma_emit_at_most_once(pipeline, earlier, slot);
        lemma_resident_within_retention_always(pipeline, earlier);
        if before.closed(slot) {
            lemma_closed_stays(before, inputs.last(), slot);
        }
    }
}

/// Bounded memory: whatever reaches a pipeline, it never holds more slot
/// buffers than its retention window is wide.
pub proof fn lemma_resident_within_retention_always(pipeline: PipelineView, inputs: Seq<Input>)
    requires
        pipeline.buffer.wf(),
    ensures
        pipeline.run(inputs).buffer.wf(),
        pipeline.run(inputs).buffer.retention == pipeline.buffer.retention,
        pipeline.run(inputs).buffer.slots.dom().len() <= pipeline.buffer.retention,
    decreases inputs.len(),
{
    if inputs.len() > 0 {
        let before = pipeline.run(inputs.drop_last());
        lemma_resident_within_retention_always(pipeline, inputs.drop_last());
        match inputs.last() {
            Input::Fragment { fragment, now } => {
                let stored = before.buffer.after_insert(fragment, now);
                lemma_insert_keeps_wf(before.buffer, fragment, now);
                lemma_event_keeps_wf(stored, fragment.slot, SlotEvent::WindowComplete);
                lemma_event_keeps_wf(
                    stored.after_event(fragment.slot, SlotEvent::WindowComplete),
                    fragment.slot,
                    SlotEvent::DecodeStarted,
                );
            },
            Input::Finish { slot, decoded } => {
                lemma_event_keeps_wf(before.buffer, slot, SlotEvent::DecodeSucceeded);
                lemma_event_keeps_wf(before.buffer, slot, SlotEvent::DecodeFailed);
            },
        }
    }
    lemma_resident_within_retention(pipeline.run(inputs).buffer);
}

/// What taking a fragment led to.
#[derive(Debug)]
pub enum Ingest {
    /// A coding fragment: nothing was done.
    Ignored,
    /// The fragment was offered to the buffer and nothing else is to be done.
    Settled(InsertOutcome),
    /// A terminal fragment found gaps in its window: the slot waits for these
    /// indices and for a later terminal fragment.
    Wait { outcome: InsertOutcome, missing: Vec<u32> },
    /// A terminal fragment closed a gap-free window: these fragments, by
    /// ascending index, are to be reassembled, and the outcome given to
    /// [`Pipeline::finish`].
    Decode { outcome: InsertOutcome, fragments: Vec<Fragment> },
}

/// How the decoding of a slot ended.
#[derive(Debug)]
pub enum Finished {
    /// The slot was not being decoded: nothing was done.
    NotDecoding,
    /// The slot is decoded: its entries, and the match events among them.
    Decoded { entries: Vec<Entry>, matches: Vec<MatchEvent> },
    /// The slot failed.
    Failed(DecodeError),
}

/// The pipeline.
#[derive(Debug)]
pub struct Pipeline {
    buffer: FragmentBuffer,
    target: AccountKey,
}

impl View for Pipeline {
    type V = PipelineView;

    closed spec fn view(&self) -> PipelineView {
        PipelineView { buffer: self.buffer@, target: self.target@ }
    }
}

/// Reads `chrono::Utc::now` and hands out its `timestamp_millis`. Nothing is
/// claimed of the number. `chrono` aborts where the system clock stands
/// before 1970.
#[verifier::external_body]
fn wall_clock() -> (r: i64) {
    chrono::Utc::now().timestamp_millis()
}

impl Pipeline {
    /// The invariant of the representation.
    pub closed spec fn wf(&self) -> bool {
        self.buffer.wf()
    }

    /// A well-formed pipeline has a well-formed buffer view.
    pub proof fn lemma_view_wf(&self)
        requires
            self.wf(),
        ensures
            self@.buffer.wf(),
    {
        self.buffer.lemma_view_wf();
    }

    /// A pipeline that looks for `target`, with an empty buffer.
    pub fn new(target: AccountKey, retention: u64, policy: CollisionPolicy) -> (r: Pipeline)
        ensures
            r.wf(),
            r@ == (PipelineView { buffer: BufferView::empty(retention, policy), target: target@ }),
    {
        Pipeline { buffer: FragmentBuffer::new(retention, policy), target }
    }

    /// A pipeline run with the options of `config`.
    pub fn with_config(config: &Config) -> (r: Pipeline)
        ensures
            r.wf(),
            r@ == (PipelineView {
                buffer: BufferView::empty(config.retention_window, config.collision_policy),
                target: config.target_account_key@,
            }),
    {
        Pipeline::new(config.target_account_key, config.retention_window, config.collision_policy)
    }

    /// The fragment buffer, to look into.
    pub fn buffer(&self) -> (r: &FragmentBuffer)
        requires
            self.wf(),
        ensures
            r.wf(),
            r@ == self@.buffer,
    {
        &self.buffer
    }

    /// The account key that is looked for.
    pub fn target(&self) -> (r: AccountKey)
        ensures
            r@ == self@.target,
    {
        self.target
    }

    /// Takes `fragment`, which arrived at `now`.
    ///
    /// A coding fragment is ignored. A data fragment is offered to the
    /// buffer. If it bears the terminal marker and its slot is collecting,
    /// the window up to its index is judged: with gaps the slot goes on
    /// waiting, without the slot becomes `Decoding` and the fragments of the
    /// window are handed out. A slot that is `Decoding`, `Decoded` or `Failed`
    /// is never judged again.
    pub fn ingest(&mut self, fragment: Fragment, now: i64) -> (r: Ingest)
        requires
            old(self).wf(),
        ensures
            final(self).wf(),
            final(self)@ == old(self)@.after_ingest(fragment@, now),
            old(self)@.ingest_gives(fragment@, now, r),
    {
        if !fragment.is_data() {
            return Ingest::Ignored;
        }
        let slot = fragment.slot();
        let index = fragment.index();
        let terminal = fragment.is_terminal();
        let outcome = self.buffer.insert(fragment, now);
        if !terminal || !self.buffer.state(slot).is_collecting() {
            return Ingest::Settled(outcome);
        }
        proof {
            let after = self.buffer@;
            assert(after.slots.contains_key(slot));
            assert(after.slots[slot].fragments.contains_key(index));
            assert(after.indices_of(slot).contains(index));
        }
        match self.buffer.check(slot, index) {
            Some(Completion::Complete(fragments)) => {
                self.buffer.apply(slot, SlotEvent::WindowComplete);
                self.buffer.apply(slot, SlotEvent::DecodeStarted);
                Ingest::Decode { outcome, fragments }
            },
            Some(Completion::Incomplete(missing)) => Ingest::Wait { outcome, missing },
            None => Ingest::Settled(outcome),
        }
    }

    /// Takes `fragment` at the time that the clock shows, and returns that
    /// time with what [`Pipeline::ingest`] returns for it.
    pub fn ingest_now(&mut self, fragment: Fragment) -> (r: (i64, Ingest))
        requires
            old(self).wf(),
        ensures
            final(self).wf(),
            final(self)@ == old(self)@.after_ingest(fragment@, r.0),
            old(self)@.ingest_gives(fragment@, r.0, r.1),
    {
        let now = wall_clock();
        let taken = self.ingest(fragment, now);
        (now, taken)
    }

    /// Ends the decoding of `slot` with the outcome `decoded`. Where the slot
    /// is not `Decoding`, nothing is done. Otherwise entries make the slot
    /// `Decoded` and are scanned for the target key at the time `now`, and
    /// an error makes the slot `Failed`.
    pub fn conclude(&mut self, slot: u64, decoded: Result<Vec<Entry>, DecodeError>, now: i64) -> (r:
        Finished)
        requires
            old(self).wf(),
        ensures
            final(self).wf(),
            final(self)@ == old(self)@.after_finish(slot, decoded is Ok),
            old(self)@.conclude_gives(slot, decoded, now, r),
    {
        if !matches!(self.buffer.state(slot), SlotState::Decoding) {
            return Finished::NotDecoding;
        }
        match decoded {
            Ok(entries) => {
                self.buffer.apply(slot, SlotEvent::DecodeSucceeded);
                let matches = scan(&entries, &self.target, slot, now);
                Finished::Decoded { entries, matches }
            },
            Err(e) => {
                self.buffer.apply(slot, SlotEvent::DecodeFailed);
                Finished::Failed(e)
            },
        }
    }

    /// Ends the decoding of `slot` with what reassembly gave: a payload, or
    /// the reason why there is none. Where the slot is not `Decoding`, nothing
    /// is done and the payload is not parsed. Otherwise a payload is parsed
    /// into entries, and the outcome is concluded as in
    /// [`Pipeline::conclude`].
    pub fn finish(&mut self, slot: u64, reassembled: Result<Vec<u8>, String>, now: i64) -> (r:
        Finished)
        requires
            old(self).wf(),
        ensures
            final(self).wf(),
            final(self)@ == old(self)@.after_finish(slot, old(self)@.decodes(reassembled)),
            old(self)@.finish_gives(slot, reassembled, now, r),
    {
        if !matches!(self.buffer.state(slot), SlotState::Decoding) {
            return Finished::NotDecoding;
        }
        let decoded = match reassembled {
            Ok(payload) => parse_entries(&payload),
            Err(reason) => Err(DecodeError::Reassembly(reason)),
        };
        self.conclude(slot, decoded, now)
    }

    /// Ends the decoding of `slot` at the time that the clock shows, and
    /// returns that time with what [`Pipeline::finish`] returns for it.
    pub fn finish_now(&mut self, slot: u64, reassembled: Result<Vec<u8>, String>) -> (r: (
        i64,
        Finished,
    ))
        requires
            old(self).wf(),
        ensures
            final(self).wf(),
            final(self)@ == old(self)@.after_finish(slot, old(self)@.decodes(reassembled)),
            old(self)@.finish_gives(slot, reassembled, r.0, r.1),
    {
        let now = wall_clock();
        let finished = self.finish(slot, reassembled, now);
        (now, finished)
    }
}

} // verus!
