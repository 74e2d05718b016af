//! Cuts a stream of 16 kHz samples into utterances.
//!
//! A classifier judges each 10 ms frame as voice or not. The detector keeps a
//! short history of silent frames, opens a segment when voice sets in (the
//! history in front), and closes it after half a second of silence.

use vstd::prelude::*;
use vstd::slice::slice_subrange;
use webrtc_vad::{SampleRate, Vad, VadMode};

verus! {

/// Samples in one frame: 10 ms at 16 kHz.
pub const FRAME_SIZE: usize = 160;

/// Silent frames in a row that end an utterance: 500 ms.
pub const SILENCE_THRESHOLD: u32 = 50;

/// Silent frames kept in front of an utterance: 50 ms.
pub const PRE_ROLL_FRAMES: usize = 5;

// ---------------------------------------------------------------------------
// The state machine, as mathematics
// ---------------------------------------------------------------------------

/// What the detector remembers between frames.
#[verifier::ext_equal]
pub struct SegmenterState {
    /// Inside an utterance.
    pub speaking: bool,
    /// Silent frames seen in a row inside the utterance.
    pub silence_run: nat,
    /// Samples of the most recent silent frames, oldest first.
    pub pre_roll: Seq<i16>,
    /// Samples of the utterance so far.
    pub accumulator: Seq<i16>,
}

/// Effect of one frame.
#[verifier::ext_equal]
pub struct Step {
    pub state: SegmenterState,
    /// The utterance that this frame completed, if it completed one.
    pub emitted: Option<Seq<i16>>,
}

/// Effect of a run of frames.
#[verifier::ext_equal]
pub struct Run {
    pub state: SegmenterState,
    /// The utterances completed during the run, in order.
    pub segments: Seq<Seq<i16>>,
}

/// The state of a fresh or reset detector.
pub open spec fn initial_state() -> SegmenterState {
    SegmenterState {
        speaking: false,
        silence_run: 0,
        pre_roll: Seq::empty(),
        accumulator: Seq::empty(),
    }
}

/// What holds of the state between any two frames: the history and the
/// utterance hold whole frames; outside an utterance nothing is accumulated;
/// inside one no history is kept, and the utterance holds a frame of voice
/// in front of its silent frames.
pub open spec fn state_ok(s: SegmenterState) -> bool {
    &&& s.silence_run < SILENCE_THRESHOLD
    &&& s.pre_roll.len() % (FRAME_SIZE as nat) == 0
    &&& s.pre_roll.len() <= PRE_ROLL_FRAMES * FRAME_SIZE
    &&& s.accumulator.len() % (FRAME_SIZE as nat) == 0
    &&& !s.speaking ==> s.silence_run == 0 && s.accumulator.len() == 0
    &&& s.speaking ==> s.pre_roll.len() == 0
    &&& s.speaking ==> s.accumulator.len() >= (s.silence_run + 1) * FRAME_SIZE
}

/// A segment as the detector hands it out: whole frames, at least one of
/// voice and the silent ones that closed it.
pub open spec fn whole_segment(segment: Seq<i16>) -> bool {
    &&& segment.len() % (FRAME_SIZE as nat) == 0
    &&& segment.len() >= (SILENCE_THRESHOLD + 1) * FRAME_SIZE
}

/// The history after one more silent frame: the oldest frame leaves once the
/// history is full.
pub open spec fn pre_roll_push(held: Seq<i16>, frame: Seq<i16>) -> Seq<i16> {
    if held.len() >= PRE_ROLL_FRAMES * FRAME_SIZE {
        held.skip(FRAME_SIZE as int) + frame
    } else {
        held + frame
    }
}

/// One transition of the detector.
pub open spec fn step(s: SegmenterState, frame: Seq<i16>, voice: bool) -> Step {
    if !s.speaking && !voice {
        Step {
            state: SegmenterState { pre_roll: pre_roll_push(s.pre_roll, frame), ..s },
            emitted: None,
        }
    } else if !s.speaking {
        Step {
            state: SegmenterState {
                speaking: true,
                silence_run: 0,
                pre_roll: Seq::empty(),
                accumulator: s.accumulator + s.pre_roll + frame,
            },
            emitted: None,
        }
    } else if voice {
        Step {
            state: SegmenterState { silence_run: 0, accumulator: s.accumulator + frame, ..s },
            emitted: None,
        }
    } else if s.silence_run + 1 >= SILENCE_THRESHOLD {
        Step { state: initial_state(), emitted: Some(s.accumulator + frame) }
    } else {
        Step {
            state: SegmenterState {
                silence_run: s.silence_run + 1,
                accumulator: s.accumulator + frame,
                ..s
            },
            emitted: None,
        }
    }
}

/// The whole frames of a sample stream; samples behind the last whole frame
/// belong to none.
pub open spec fn frames_of(samples: Seq<i16>) -> Seq<Seq<i16>> {
    Seq::new(
        samples.len() / (FRAME_SIZE as nat),
        |i: int| samples.subrange(i * FRAME_SIZE, i * FRAME_SIZE + FRAME_SIZE),
    )
}

/// The detector run over `frames`, where `votes[i]` is the classifier's
/// judgement of `frames[i]`.
pub open spec fn run(s: SegmenterState, frames: Seq<Seq<i16>>, votes: Seq<bool>) -> Run
    recommends
        votes.len() == frames.len(),
    decreases frames.len(),
{
    if frames.len() == 0 {
        Run { state: s, segments: Seq::empty() }
    } else {
        let before = run(s, frames.drop_last(), votes.drop_last());
        let last = step(before.state, frames.last(), votes.last());
        Run {
            state: last.state,
            segments: match last.emitted {
                Some(segment) => before.segments.push(segment),
                None => before.segments,
            },
        }
    }
}

/// The samples of `frames`, one frame behind the other.
pub open spec fn joined(frames: Seq<Seq<i16>>) -> Seq<i16>
    decreases frames.len(),
{
    if frames.len() == 0 {
        Seq::empty()
    } else {
        joined(frames.drop_last()) + frames.last()
    }
}

/// The history that `frames`, all silent, leave behind when they meet `held`.
pub open spec fn pre_roll_after(held: Seq<i16>, frames: Seq<Seq<i16>>) -> Seq<i16>
    decreases frames.len(),
{
    if frames.len() == 0 {
        held
    } else {
        pre_roll_push(pre_roll_after(held, frames.drop_last()), frames.last())
    }
}

/// The judgements of `count` frames: `votes`, cut to that length or filled
/// up with silence.
pub open spec fn votes_for(votes: Seq<bool>, count: nat) -> Seq<bool> {
    Seq::new(count, |i: int| i < votes.len() && votes[i])
}

/// The frames among `frames` that are marked in `accepted`, in order.
pub open spec fn picked(frames: Seq<Seq<i16>>, accepted: Seq<bool>) -> Seq<Seq<i16>>
    recommends
        accepted.len() == frames.len(),
    decreases frames.len(),
{
    if frames.len() == 0 {
        Seq::empty()
    } else {
        let front = picked(frames.drop_last(), accepted.drop_last());
        if accepted.last() {
            front.push(frames.last())
        } else {
            front
        }
    }
}

/// Only frames that were accepted are voted voice.
pub open spec fn votes_on_accepted(votes: Seq<bool>, accepted: Seq<bool>) -> bool {
    &&& votes.len() == accepted.len()
    &&& forall|i: int| 0 <= i < votes.len() && #[trigger] votes[i] ==> accepted[i]
}

/// Every judgement in `votes` is `voice`.
pub open spec fn all_votes(votes: Seq<bool>, voice: bool) -> bool {
    forall|i: int| 0 <= i < votes.len() ==> #[trigger] votes[i] == voice
}

/// Every frame has the frame size.
pub open spec fn well_sized(frames: Seq<Seq<i16>>) -> bool {
    forall|i: int| 0 <= i < frames.len() ==> (#[trigger] frames[i]).len() == FRAME_SIZE
}

// ---------------------------------------------------------------------------
// The history of silent frames
// ---------------------------------------------------------------------------

/// A ring of `PRE_ROLL_FRAMES` frame slots that keeps the newest frames.
pub struct PreRoll {
    slots: Vec<i16>,
    head: usize,
    count: usize,
}

impl View for PreRoll {
    type V = Seq<i16>;

    /// The samples held, oldest frame first.
    closed spec fn view(&self) -> Seq<i16> {
        Seq::new((self.count * FRAME_SIZE) as nat, |k: int| self.slots@[self.slot_of(k)])
    }
}

impl PreRoll {
    /// The ring is laid out as its operations expect.
    pub closed spec fn wf(&self) -> bool {
        &&& self.slots.len() == PRE_ROLL_FRAMES * FRAME_SIZE
        &&& self.head < PRE_ROLL_FRAMES
        &&& self.count <= PRE_ROLL_FRAMES
    }

    /// Where the `k`-th sample held lies in `slots`.
    closed spec fn slot_of(&self, k: int) -> int {
        ((self.head + k / (FRAME_SIZE as int)) % (PRE_ROLL_FRAMES as int)) * FRAME_SIZE + k % (
        FRAME_SIZE as int)
    }

    /// A well-formed ring holds whole frames, and no more than it has slots.
    pub proof fn lemma_len(&self)
        requires
            self.wf(),
        ensures
            self@.len() % (FRAME_SIZE as nat) == 0,
            self@.len() <= PRE_ROLL_FRAMES * FRAME_SIZE,
    {
    }

    /// An empty history.
    pub fn new() -> (r: PreRoll)
        ensures
            r.wf(),
            r@ == Seq::<i16>::empty(),
    {
        let mut slots: Vec<i16> = Vec::with_capacity(PRE_ROLL_FRAMES * FRAME_SIZE);
        let mut i: usize = 0;
        while i < PRE_ROLL_FRAMES * FRAME_SIZE
            invariant
                i <= PRE_ROLL_FRAMES * FRAME_SIZE,
                slots.len() == i,
            decreases PRE_ROLL_FRAMES * FRAME_SIZE - i,
        {
            slots.push(0);
            i += 1;
        }
        let r = PreRoll { slots, head: 0, count: 0 };
        assert(r@ =~= Seq::<i16>::empty());
        r
    }

    /// Number of samples held: a multiple of the frame size.
    pub fn len(&self) -> (n: usize)
        requires
            self.wf(),
        ensures
            n == self@.len(),
            n % FRAME_SIZE == 0,
            n <= PRE_ROLL_FRAMES * FRAME_SIZE,
    {
        self.count * FRAME_SIZE
    }

    /// Takes one silent frame in; the oldest frame leaves once all slots are
    /// taken.
    pub fn push(&mut self, frame: &[i16])
        requires
            old(self).wf(),
            frame@.len() == FRAME_SIZE,
        ensures
            final(self).wf(),
            final(self)@ == pre_roll_push(old(self)@, frame@),
    {
        let ghost before = *self;
        let full: bool = self.count == PRE_ROLL_FRAMES;
        let slot: usize = if full {
            self.head
        } else {
            (self.head + self.count) % PRE_ROLL_FRAMES
        };
        let base: usize = slot * FRAME_SIZE;
        let mut j: usize = 0;
        while j < FRAME_SIZE
            invariant
                j <= FRAME_SIZE,
                frame@.len() == FRAME_SIZE,
                base == slot * FRAME_SIZE,
                slot < PRE_ROLL_FRAMES,
                self.head == before.head,
                self.count == before.count,
                self.slots.len() == PRE_ROLL_FRAMES * FRAME_SIZE,
                self.head < PRE_ROLL_FRAMES,
                self.count <= PRE_ROLL_FRAMES,
                forall|t: int| 0 <= t < j ==> self.slots@[base + t] == frame@[t],
                forall|x: int|
                    0 <= x < PRE_ROLL_FRAMES * FRAME_SIZE && !(base <= x < base + FRAME_SIZE)
                        ==> self.slots@[x] == before.slots@[x],
            decreases FRAME_SIZE - j,
        {
            self.slots.set(base + j, frame[j]);
            j += 1;
        }
        if full {
            self.head = (self.head + 1) % PRE_ROLL_FRAMES;
        } else {
            self.count = self.count + 1;
        }
        proof {
            let want = pre_roll_push(before@, frame@);
            assert(self@.len() == want.len());
            assert forall|k: int| 0 <= k < want.len() implies self@[k] == want[k] by {
                let q = k / 160;
                let r = k % 160;
                assert(k == q * 160 + r && 0 <= r < 160 && 0 <= q < 5);
                if full {
                    if k < 640 {
                        assert((k + 160) / 160 == q + 1 && (k + 160) % 160 == r);
                        assert(0 <= q < 4);
                        assert((self.head + q) % 5 == (before.head + (q + 1)) % 5);
                        assert((before.head + (q + 1)) % 5 != slot);
                        assert(want[k] == before@[k + 160]);
                    } else {
                        assert(q == 4);
                        assert((self.head + q) % 5 == slot);
                        assert(want[k] == frame@[k - 640]);
                    }
                } else {
                    if k < before.count * 160 {
                        assert(q < before.count);
                        assert((before.head + q) % 5 != slot);
                        assert(want[k] == before@[k]);
                    } else {
                        assert(q == before.count);
                        assert(want[k] == frame@[k - before.count * 160]);
                    }
                }
            }
            assert(self@ =~= want);
        }
    }

    /// Moves the samples held, oldest first, to the end of `out`.
    pub fn drain_into(&mut self, out: &mut Vec<i16>)
        requires
            old(self).wf(),
        ensures
            final(self).wf(),
            final(out)@ == old(out)@ + old(self)@,
            final(self)@ == Seq::<i16>::empty(),
    {
        let total: usize = self.count * FRAME_SIZE;
        let ghost held = self@;
        let mut k: usize = 0;
        while k < total
            invariant
                k <= total,
                total == self.count * FRAME_SIZE,
                self.slots.len() == PRE_ROLL_FRAMES * FRAME_SIZE,
                self.head < PRE_ROLL_FRAMES,
                self.count <= PRE_ROLL_FRAMES,
                held == self@,
                out@ == old(out)@ + held.take(k as int),
            decreases total - k,
        {
            let slot: usize = (self.head + k / FRAME_SIZE) % PRE_ROLL_FRAMES;
            let value: i16 = self.slots[slot * FRAME_SIZE + k % FRAME_SIZE];
            assert(value == held[k as int]);
            out.push(value);
            k += 1;
            assert(out@ =~= old(out)@ + held.take(k as int));
        }
        assert(held.take(total as int) =~= held);
        self.count = 0;
        self.head = 0;
        assert(self@ =~= Seq::<i16>::empty());
    }

    /// Forgets the samples held.
    pub fn clear(&mut self)
        requires
            old(self).wf(),
        ensures
            final(self).wf(),
            final(self)@ == Seq::<i16>::empty(),
    {
        self.count = 0;
        self.head = 0;
        assert(self@ =~= Seq::<i16>::empty());
    }
}

// ---------------------------------------------------------------------------
// The classifier
// ---------------------------------------------------------------------------

#[verifier::external_type_specification]
#[verifier::external_body]
pub struct ExVad(Vad);

/// Sample rates that the classifier takes.
#[derive(Clone, Copy, Debug, PartialEq, Eq)]
pub enum ClassifierRate {
    Hz8000,
    Hz16000,
    Hz32000,
    Hz48000,
}

/// How readily the classifier calls a frame voice; later ones are stricter.
#[derive(Clone, Copy, Debug, PartialEq, Eq)]
pub enum ClassifierMode {
    Quality,
    LowBitrate,
    Aggressive,
    VeryAggressive,
}

/// The frames that a classifier has judged since it was made, in order:
/// all that its later judgements can depend on.
pub uninterp spec fn judged_frames(vad: Vad) -> Seq<Seq<i16>>;

/// `webrtc_vad::Vad::new_with_rate_and_mode`: a classifier set to the given
/// rate and mode, which has judged no frame yet. Nothing else is claimed of
/// it. The call ends the process where no memory is left for the
/// classifier.
#[verifier::external_body]
fn new_classifier(rate: ClassifierRate, mode: ClassifierMode) -> (r: Vad)
    ensures
        judged_frames(r) == Seq::<Seq<i16>>::empty(),
{
    let rate = match rate {
        ClassifierRate::Hz8000 => SampleRate::Rate8kHz,
        ClassifierRate::Hz16000 => SampleRate::Rate16kHz,
        ClassifierRate::Hz32000 => SampleRate::Rate32kHz,
        ClassifierRate::Hz48000 => SampleRate::Rate48kHz,
    };
    let mode = match mode {
        ClassifierMode::Quality => VadMode::Quality,
        ClassifierMode::LowBitrate => VadMode::LowBitrate,
        ClassifierMode::Aggressive => VadMode::Aggressive,
        ClassifierMode::VeryAggressive => VadMode::VeryAggressive,
    };
    Vad::new_with_rate_and_mode(rate, mode)
}

/// `webrtc_vad::Vad::is_voice_segment`: the classifier's judgement of one
/// frame, or `None` where it rejects the frame. The judgement depends on the
/// frames that the classifier has judged before, so nothing is claimed of
/// it. A frame that is judged joins those frames; a frame that is rejected
/// (for its length) is not looked at and leaves the classifier as it was.
/// The frame must not be empty: the call reads its first sample.
#[verifier::external_body]
fn classify(vad: &mut Vad, frame: &[i16]) -> (r: Option<bool>)
    requires
        frame@.len() > 0,
    ensures
        r is Some ==> judged_frames(*final(vad)) == judged_frames(*old(vad)).push(frame@),
        r is None ==> judged_frames(*final(vad)) == judged_frames(*old(vad)),
{
    vad.is_voice_segment(frame).ok()
}

// ---------------------------------------------------------------------------
// The detector
// ---------------------------------------------------------------------------

/// Voice activity detector and segmenter.
pub struct VoiceDetector {
    vad: Vad,
    is_speaking: bool,
    silence_frames: u32,
    audio_buffer: Vec<i16>,
    pre_roll_buffer: PreRoll,
}

impl View for VoiceDetector {
    type V = SegmenterState;

    closed spec fn view(&self) -> SegmenterState {
        SegmenterState {
            speaking: self.is_speaking,
            silence_run: self.silence_frames as nat,
            pre_roll: self.pre_roll_buffer@,
            accumulator: self.audio_buffer@,
        }
    }
}

/// The contents of the segments handed out.
pub open spec fn segments_view(segments: Seq<Vec<i16>>) -> Seq<Seq<i16>> {
    Seq::new(segments.len(), |i: int| segments[i]@)
}

/// The contents of the segment handed out, if one was.
pub open spec fn emitted_view(emitted: Option<Vec<i16>>) -> Option<Seq<i16>> {
    match emitted {
        Some(segment) => Some(segment@),
        None => None,
    }
}

/// The judgement that counts for a frame: a frame that the classifier
/// rejects is silence.
pub fn vote_of(judgement: Option<bool>) -> (voice: bool)
    ensures
        voice == (judgement == Some(true)),
{
    match judgement {
        Some(voice) => voice,
        None => false,
    }
}

/// Appends `frame` to `out`.
fn append_frame(out: &mut Vec<i16>, frame: &[i16])
    ensures
        final(out)@ == old(out)@ + frame@,
{
    let mut j: usize = 0;
    while j < frame.len()
        invariant
            j <= frame.len(),
            out@ == old(out)@ + frame@.take(j as int),
        decreases frame.len() - j,
    {
        out.push(frame[j]);
        j += 1;
        assert(out@ =~= old(out)@ + frame@.take(j as int));
    }
    assert(frame@.take(frame.len() as int) =~= frame@);
}

impl VoiceDetector {
    /// The detector is between two frames, in a state that its transitions
    /// can reach.
    pub closed spec fn wf(&self) -> bool {
        &&& self.pre_roll_buffer.wf()
        &&& state_ok(self@)
    }

    /// The frames that the detector's classifier has judged since it was
    /// made or last replaced.
    pub closed spec fn judged(&self) -> Seq<Seq<i16>> {
        judged_frames(self.vad)
    }

    /// A well-formed detector is in a reachable state.
    pub proof fn lemma_state_ok(&self)
        requires
            self.wf(),
        ensures
            state_ok(self@),
    {
    }

    /// A detector that has heard nothing, with a 16 kHz classifier in
    /// aggressive mode.
    pub fn new() -> (r: VoiceDetector)
        ensures
            r.wf(),
            r@ == initial_state(),
            r.judged() == Seq::<Seq<i16>>::empty(),
    {
        let r = VoiceDetector {
            vad: new_classifier(ClassifierRate::Hz16000, ClassifierMode::Aggressive),
            is_speaking: false,
            silence_frames: 0,
            audio_buffer: Vec::new(),
            pre_roll_buffer: PreRoll::new(),
        };
        assert(r@ =~= initial_state());
        r
    }

    /// True inside an utterance.
    pub fn is_speaking(&self) -> (b: bool)
        ensures
            b == self@.speaking,
    {
        self.is_speaking
    }

    /// Samples of the utterance gathered so far.
    pub fn buffered_samples(&self) -> (n: usize)
        ensures
            n == self@.accumulator.len(),
    {
        self.audio_buffer.len()
    }

    /// Samples of silence kept for the front of the next utterance.
    pub fn pre_roll_samples(&self) -> (n: usize)
        requires
            self.wf(),
        ensures
            n == self@.pre_roll.len(),
    {
        self.pre_roll_buffer.len()
    }

    /// Takes one frame with the classifier's judgement of it and returns the
    /// utterance that the frame completed, if it completed one.
    pub fn step(&mut self, frame: &[i16], is_voice: bool) -> (emitted: Option<Vec<i16>>)
        requires
            old(self).wf(),
            frame@.len() == FRAME_SIZE,
        ensures
            final(self).wf(),
            final(self)@ == step(old(self)@, frame@, is_voice).state,
            emitted_view(emitted) == step(old(self)@, frame@, is_voice).emitted,
            emitted matches Some(segment) ==> whole_segment(segment@),
            final(self).judged() == old(self).judged(),
    {
        proof {
            self.pre_roll_buffer.lemma_len();
            lemma_step_keeps_state_ok(self@, frame@, is_voice);
        }
        let ghost before = self@;
        let ghost want = step(before, frame@, is_voice);
        if !self.is_speaking {
            if !is_voice {
                self.pre_roll_buffer.push(frame);
                assert(self@ =~= want.state);
                None
            } else {
                self.is_speaking = true;
                self.silence_frames = 0;
                self.pre_roll_buffer.drain_into(&mut self.audio_buffer);
                append_frame(&mut self.audio_buffer, frame);
                assert(self@ =~= want.state);
                None
            }
        } else if is_voice {
            self.silence_frames = 0;
            append_frame(&mut self.audio_buffer, frame);
            assert(self@ =~= want.state);
            None
        } else {
            append_frame(&mut self.audio_buffer, frame);
            if self.silence_frames + 1 >= SILENCE_THRESHOLD {
                let mut segment: Vec<i16> = Vec::new();
                std::mem::swap(&mut self.audio_buffer, &mut segment);
                self.silence_frames = 0;
                self.is_speaking = false;
                self.pre_roll_buffer.clear();
                assert(self@ =~= want.state);
                Some(segment)
            } else {
                self.silence_frames = self.silence_frames + 1;
                assert(self@ =~= want.state);
                None
            }
        }
    }

    /// The classifier's judgement of every whole frame of `samples`, in
    /// order. The detector's state is left alone; the classifier has judged
    /// the frames that it accepted.
    fn classify_frames(&mut self, samples: &[i16]) -> (votes: Vec<bool>)
        requires
            old(self).wf(),
        ensures
            final(self).wf(),
            final(self)@ == old(self)@,
            votes@.len() == frames_of(samples@).len(),
            exists|accepted: Seq<bool>|
                votes_on_accepted(votes@, accepted) && final(self).judged() == old(self).judged()
                    + #[trigger] picked(frames_of(samples@), accepted),
    {
        let total: usize = samples.len();
        let count: usize = total / FRAME_SIZE;
        let mut votes: Vec<bool> = Vec::with_capacity(count);
        let ghost frames = frames_of(samples@);
        let ghost mut accepted: Seq<bool> = Seq::empty();
        let mut i: usize = 0;
        assert(self.judged() =~= old(self).judged() + picked(frames.take(0), accepted));
        while i < count
            invariant
                i <= count,
                total == samples@.len(),
                count == total / FRAME_SIZE,
                frames == frames_of(samples@),
                votes@.len() == i,
                votes_on_accepted(votes@, accepted),
                self.wf(),
                self@ == old(self)@,
                self.judged() == old(self).judged() + picked(frames.take(i as int), accepted),
            decreases count - i,
        {
            assert(i * FRAME_SIZE + FRAME_SIZE <= total) by {
                assert(i + 1 <= count);
                assert(count * FRAME_SIZE <= total);
            }
            let frame = slice_subrange(samples, i * FRAME_SIZE, i * FRAME_SIZE + FRAME_SIZE);
            let judgement = classify(&mut self.vad, frame);
            proof {
                let next = accepted.push(judgement is Some);
                assert(frames.take(i + 1).drop_last() =~= frames.take(i as int));
                assert(frames.take(i + 1).last() == frame@);
                assert(next.drop_last() =~= accepted);
                assert(self.judged() =~= old(self).judged() + picked(frames.take(i + 1), next));
                accepted = next;
            }
            votes.push(vote_of(judgement));
            i += 1;
        }
        assert(frames.take(count as int) =~= frames);
        votes
    }

    /// Walks `samples` frame by frame, taking `votes[i]` as the judgement of
    /// frame `i`, and returns the utterances completed on the way, in order.
    /// Samples behind the last whole frame are dropped. Frames without a
    /// vote are taken as silence; votes without a frame are not looked at.
    pub fn process_classified(&mut self, samples: &[i16], votes: &[bool]) -> (segments: Vec<
        Vec<i16>,
    >)
        requires
            old(self).wf(),
        ensures
            final(self).wf(),
            final(self)@ == run(
                old(self)@,
                frames_of(samples@),
                votes_for(votes@, frames_of(samples@).len()),
            ).state,
            segments_view(segments@) == run(
                old(self)@,
                frames_of(samples@),
                votes_for(votes@, frames_of(samples@).len()),
            ).segments,
            forall|i: int| 0 <= i < segments@.len() ==> whole_segment((#[trigger] segments@[i])@),
            final(self).judged() == old(self).judged(),
    {
        let ghost start = self@;
        let ghost frames = frames_of(samples@);
        let ghost judged = votes_for(votes@, frames.len());
        proof {
            lemma_frames_of_well_sized(samples@);
            lemma_segments_are_whole(start, frames, judged);
        }
        let total: usize = samples.len();
        let count: usize = total / FRAME_SIZE;
        let mut segments: Vec<Vec<i16>> = Vec::new();
        let mut i: usize = 0;
        assert(frames.take(0) =~= Seq::<Seq<i16>>::empty());
        assert(segments_view(segments@) =~= Seq::<Seq<i16>>::empty());
        while i < count
            invariant
                i <= count,
                total == samples@.len(),
                count == total / FRAME_SIZE,
                frames == frames_of(samples@),
                judged == votes_for(votes@, frames.len()),
                self.wf(),
                self.judged() == old(self).judged(),
                run(start, frames.take(i as int), judged.take(i as int)).state == self@,
                run(start, frames.take(i as int), judged.take(i as int)).segments
                    == segments_view(segments@),
            decreases count - i,
        {
            assert(i * FRAME_SIZE + FRAME_SIZE <= total) by {
                assert(i + 1 <= count);
                assert(count * FRAME_SIZE <= total);
            }
            let frame = slice_subrange(samples, i * FRAME_SIZE, i * FRAME_SIZE + FRAME_SIZE);
            let is_voice: bool = i < votes.len() && votes[i];
            let ghost segments_before = segments_view(segments@);
            let emitted = self.step(frame, is_voice);
            proof {
                let next_frames = frames.take(i + 1);
                let next_votes = judged.take(i + 1);
                assert(next_frames.drop_last() =~= frames.take(i as int));
                assert(next_votes.drop_last() =~= judged.take(i as int));
                assert(next_frames.last() == frame@);
                assert(next_votes.last() == is_voice);
            }
            match emitted {
                Some(segment) => {
                    segments.push(segment);
                    assert(segments_view(segments@) =~= segments_before.push(segment@));
                },
                None => {},
            }
            i += 1;
        }
        proof {
            assert(frames.take(count as int) =~= frames);
            assert(judged.take(count as int) =~= judged);
            assert forall|i: int| 0 <= i < segments@.len() implies whole_segment(
                (#[trigger] segments@[i])@,
            ) by {
                assert(segments_view(segments@)[i] == segments@[i]@);
            }
        }
        segments
    }

    /// Walks `samples` frame by frame and returns the utterances completed on
    /// the way. Samples behind the last whole frame are dropped. A frame that
    /// the classifier rejects counts as silence.
    ///
    /// The classifier's judgements are its own; whatever they are, the
    /// detector's state and the segments are those of [`run`] on them, as
    /// [`VoiceDetector::process_classified`] gives them, and the classifier
    /// has judged, on top of what it had judged before, the frames that it
    /// accepted.
    pub fn process_samples(&mut self, samples: &[i16]) -> (segments: Vec<Vec<i16>>)
        requires
            old(self).wf(),
        ensures
            final(self).wf(),
            exists|votes: Seq<bool>|
                votes.len() == frames_of(samples@).len() && #[trigger] run(
                    old(self)@,
                    frames_of(samples@),
                    votes,
                ) == (Run { state: final(self)@, segments: segments_view(segments@) }),
            forall|i: int| 0 <= i < segments@.len() ==> whole_segment((#[trigger] segments@[i])@),
            exists|accepted: Seq<bool>|
                accepted.len() == frames_of(samples@).len() && final(self).judged()
                    == old(self).judged() + #[trigger] picked(frames_of(samples@), accepted),
    {
        let votes = self.classify_frames(samples);
        let ghost heard = self.judged();
        let segments = self.process_classified(samples, votes.as_slice());
        proof {
            let judged = votes_for(votes@, frames_of(samples@).len());
            assert(judged =~= votes@);
            assert(run(old(self)@, frames_of(samples@), votes@) =~= (Run {
                state: self@,
                segments: segments_view(segments@),
            }));
            assert(self.judged() == heard);
        }
        segments
    }

    /// Drops the utterance in progress and the history of silence, and
    /// replaces the classifier by one that has judged nothing, so that no
    /// earlier audio bears on what follows. No segment is handed out.
    pub fn reset(&mut self)
        requires
            old(self).wf(),
        ensures
            final(self).wf(),
            final(self)@ == initial_state(),
            final(self).judged() == Seq::<Seq<i16>>::empty(),
    {
        self.vad = new_classifier(ClassifierRate::Hz16000, ClassifierMode::Aggressive);
        self.audio_buffer.clear();
        self.pre_roll_buffer.clear();
        self.silence_frames = 0;
        self.is_speaking = false;
        assert(self@ =~= initial_state());
    }
}

// ---------------------------------------------------------------------------
// Laws of the state machine
// ---------------------------------------------------------------------------

/// The samples of whole frames number a frame size per frame.
pub proof fn lemma_joined_len(frames: Seq<Seq<i16>>)
    requires
        well_sized(frames),
    ensures
        joined(frames).len() == frames.len() * FRAME_SIZE,
    decreases frames.len(),
{
    if frames.len() > 0 {
        let front = frames.drop_last();
        assert forall|i: int| 0 <= i < front.len() implies (#[trigger] front[i]).len()
            == FRAME_SIZE by {
            assert(front[i] == frames[i]);
        }
        lemma_joined_len(front);
        assert(frames.last() == frames[frames.len() - 1]);
    }
}

/// The frames cut from a sample stream are whole.
pub proof fn lemma_frames_of_well_sized(samples: Seq<i16>)
    ensures
        well_sized(frames_of(samples)),
{
    let frames = frames_of(samples);
    assert forall|i: int| 0 <= i < frames.len() implies (#[trigger] frames[i]).len()
        == FRAME_SIZE by {
        assert(i * FRAME_SIZE + FRAME_SIZE <= samples.len()) by {
            assert(i + 1 <= samples.len() / (FRAME_SIZE as nat));
        }
    }
}

/// The history holds whole frames and never more than its capacity.
pub proof fn lemma_pre_roll_after_bounds(held: Seq<i16>, frames: Seq<Seq<i16>>)
    requires
        held.len() % (FRAME_SIZE as nat) == 0,
        held.len() <= PRE_ROLL_FRAMES * FRAME_SIZE,
        well_sized(frames),
    ensures
        pre_roll_after(held, frames).len() % (FRAME_SIZE as nat) == 0,
        pre_roll_after(held, frames).len() <= PRE_ROLL_FRAMES * FRAME_SIZE,
    decreases frames.len(),
{
    if frames.len() > 0 {
        let front = frames.drop_last();
        assert forall|i: int| 0 <= i < front.len() implies (#[trigger] front[i]).len()
            == FRAME_SIZE by {
            assert(front[i] == frames[i]);
        }
        lemma_pre_roll_after_bounds(held, front);
        assert(frames.last() == frames[frames.len() - 1]);
    }
}

/// One frame takes a reachable state to a reachable state, and a segment is
/// handed out only by a silent frame inside an utterance.
pub proof fn lemma_step_keeps_state_ok(s: SegmenterState, frame: Seq<i16>, voice: bool)
    requires
        state_ok(s),
        frame.len() == FRAME_SIZE,
    ensures
        state_ok(step(s, frame, voice).state),
        step(s, frame, voice).emitted is Some ==> s.speaking && !voice && !step(
            s,
            frame,
            voice,
        ).state.speaking,
        step(s, frame, voice).emitted matches Some(segment) ==> whole_segment(segment),
{
}

/// Every segment is whole frames, and holds at least a frame of voice and
/// the silent frames that closed it.
pub proof fn lemma_segments_are_whole(s: SegmenterState, frames: Seq<Seq<i16>>, votes: Seq<bool>)
    requires
        state_ok(s),
        well_sized(frames),
        votes.len() == frames.len(),
    ensures
        forall|i: int|
            0 <= i < run(s, frames, votes).segments.len() ==> whole_segment(
                #[trigger] run(s, frames, votes).segments[i],
            ),
    decreases frames.len(),
{
    if frames.len() > 0 {
        let front = frames.drop_last();
        assert forall|i: int| 0 <= i < front.len() implies (#[trigger] front[i]).len()
            == FRAME_SIZE by {
            assert(front[i] == frames[i]);
        }
        lemma_segments_are_whole(s, front, votes.drop_last());
        lemma_run_keeps_state_ok(s, front, votes.drop_last());
        assert(frames.last() == frames[frames.len() - 1]);
        let before = run(s, front, votes.drop_last());
        lemma_step_keeps_state_ok(before.state, frames.last(), votes.last());
        let all = run(s, frames, votes).segments;
        assert forall|i: int| 0 <= i < all.len() implies whole_segment(#[trigger] all[i]) by {
            if i < before.segments.len() {
                assert(all[i] == before.segments[i]);
            }
        }
    }
}

/// Any run of whole frames takes a reachable state to a reachable state:
/// outside an utterance nothing is accumulated, inside one no history is
/// kept, and the history never exceeds its capacity.
pub proof fn lemma_run_keeps_state_ok(s: SegmenterState, frames: Seq<Seq<i16>>, votes: Seq<bool>)
    requires
        state_ok(s),
        well_sized(frames),
        votes.len() == frames.len(),
    ensures
        state_ok(run(s, frames, votes).state),
    decreases frames.len(),
{
    if frames.len() > 0 {
        let front = frames.drop_last();
        assert forall|i: int| 0 <= i < front.len() implies (#[trigger] front[i]).len()
            == FRAME_SIZE by {
            assert(front[i] == frames[i]);
        }
        lemma_run_keeps_state_ok(s, front, votes.drop_last());
        assert(frames.last() == frames[frames.len() - 1]);
        lemma_step_keeps_state_ok(
            run(s, front, votes.drop_last()).state,
            frames.last(),
            votes.last(),
        );
    }
}

/// A run over two stretches of frames is the run over the first, followed
/// from where it ended by the run over the second.
pub proof fn lemma_run_concat(
    s: SegmenterState,
    frames1: Seq<Seq<i16>>,
    votes1: Seq<bool>,
    frames2: Seq<Seq<i16>>,
    votes2: Seq<bool>,
)
    requires
        votes1.len() == frames1.len(),
        votes2.len() == frames2.len(),
    ensures
        run(s, frames1 + frames2, votes1 + votes2).state == run(
            run(s, frames1, votes1).state,
            frames2,
            votes2,
        ).state,
        run(s, frames1 + frames2, votes1 + votes2).segments == run(s, frames1, votes1).segments
            + run(run(s, frames1, votes1).state, frames2, votes2).segments,
    decreases frames2.len(),
{
    let mid = run(s, frames1, votes1);
    if frames2.len() == 0 {
        assert(frames1 + frames2 =~= frames1);
        assert(votes1 + votes2 =~= votes1);
        assert(mid.segments + run(mid.state, frames2, votes2).segments =~= mid.segments);
    } else {
        let all_frames = frames1 + frames2;
        let all_votes_ = votes1 + votes2;
        assert(all_frames.drop_last() =~= frames1 + frames2.drop_last());
        assert(all_votes_.drop_last() =~= votes1 + votes2.drop_last());
        assert(all_frames.last() == frames2.last());
        assert(all_votes_.last() == votes2.last());
        lemma_run_concat(s, frames1, votes1, frames2.drop_last(), votes2.drop_last());
        let before2 = run(mid.state, frames2.drop_last(), votes2.drop_last());
        let last = step(before2.state, frames2.last(), votes2.last());
        match last.emitted {
            Some(segment) => {
                assert((mid.segments + before2.segments).push(segment) =~= mid.segments
                    + before2.segments.push(segment));
            },
            None => {},
        }
    }
}

/// Silence alone completes no utterance: outside an utterance, frames that
/// are all judged silent only fill the history.
pub proof fn lemma_silence_emits_nothing(
    s: SegmenterState,
    frames: Seq<Seq<i16>>,
    votes: Seq<bool>,
)
    requires
        !s.speaking,
        votes.len() == frames.len(),
        all_votes(votes, false),
    ensures
        run(s, frames, votes).segments == Seq::<Seq<i16>>::empty(),
        run(s, frames, votes).state == (SegmenterState {
            pre_roll: pre_roll_after(s.pre_roll, frames),
            ..s
        }),
    decreases frames.len(),
{
    if frames.len() == 0 {
        assert(run(s, frames, votes).state =~= (SegmenterState {
            pre_roll: pre_roll_after(s.pre_roll, frames),
            ..s
        }));
    } else {
        let front_votes = votes.drop_last();
        assert forall|i: int| 0 <= i < front_votes.len() implies #[trigger] front_votes[i]
            == false by {
            assert(front_votes[i] == votes[i]);
        }
        lemma_silence_emits_nothing(s, frames.drop_last(), front_votes);
        assert(votes.last() == votes[votes.len() - 1]);
        assert(run(s, frames, votes).state =~= (SegmenterState {
            pre_roll: pre_roll_after(s.pre_roll, frames),
            ..s
        }));
    }
}

/// Frames that are all judged voice open an utterance, if none is open, with
/// the history in front, and extend it; they complete none.
pub proof fn lemma_voice_accumulates(s: SegmenterState, frames: Seq<Seq<i16>>, votes: Seq<bool>)
    requires
        state_ok(s),
        frames.len() > 0,
        votes.len() == frames.len(),
        all_votes(votes, true),
    ensures
        run(s, frames, votes).segments == Seq::<Seq<i16>>::empty(),
        run(s, frames, votes).state == (SegmenterState {
            speaking: true,
            silence_run: 0,
            pre_roll: Seq::empty(),
            accumulator: s.accumulator + s.pre_roll + joined(frames),
        }),
    decreases frames.len(),
{
    let want = SegmenterState {
        speaking: true,
        silence_run: 0,
        pre_roll: Seq::empty(),
        accumulator: s.accumulator + s.pre_roll + joined(frames),
    };
    let front = frames.drop_last();
    let front_votes = votes.drop_last();
    assert(votes.last() == votes[votes.len() - 1]);
    if front.len() == 0 {
        assert(joined(front) =~= Seq::<i16>::empty());
        assert(run(s, front, front_votes).state == s);
        assert(run(s, front, front_votes).segments =~= Seq::<Seq<i16>>::empty());
        assert(run(s, frames, votes).state =~= want);
    } else {
        assert forall|i: int| 0 <= i < front_votes.len() implies #[trigger] front_votes[i]
            == true by {
            assert(front_votes[i] == votes[i]);
        }
        lemma_voice_accumulates(s, front, front_votes);
        assert(run(s, frames, votes).state =~= want);
    }
}

/// A pause shorter than the silence threshold stays inside the utterance.
pub proof fn lemma_pause_is_kept(s: SegmenterState, frames: Seq<Seq<i16>>, votes: Seq<bool>)
    requires
        s.speaking,
        s.silence_run + frames.len() < SILENCE_THRESHOLD,
        votes.len() == frames.len(),
        all_votes(votes, false),
    ensures
        run(s, frames, votes).segments == Seq::<Seq<i16>>::empty(),
        run(s, frames, votes).state == (SegmenterState {
            silence_run: s.silence_run + frames.len(),
            accumulator: s.accumulator + joined(frames),
            ..s
        }),
    decreases frames.len(),
{
    let want = SegmenterState {
        silence_run: s.silence_run + frames.len(),
        accumulator: s.accumulator + joined(frames),
        ..s
    };
    if frames.len() == 0 {
        assert(run(s, frames, votes).state =~= want);
    } else {
        let front_votes = votes.drop_last();
        assert forall|i: int| 0 <= i < front_votes.len() implies #[trigger] front_votes[i]
            == false by {
            assert(front_votes[i] == votes[i]);
        }
        lemma_pause_is_kept(s, frames.drop_last(), front_votes);
        assert(votes.last() == votes[votes.len() - 1]);
        assert(run(s, frames, votes).state =~= want);
    }
}

/// Silence of at least the threshold, inside an utterance that has had no
/// pause yet, completes exactly that utterance: it ends with the first
/// `SILENCE_THRESHOLD` silent frames, and the later ones start a new history.
pub proof fn lemma_silence_closes_utterance(
    s: SegmenterState,
    silence: Seq<Seq<i16>>,
    votes: Seq<bool>,
)
    requires
        s.speaking,
        s.silence_run == 0,
        silence.len() >= SILENCE_THRESHOLD,
        votes.len() == silence.len(),
        all_votes(votes, false),
    ensures
        run(s, silence, votes).segments == seq![
            s.accumulator + joined(silence.take(SILENCE_THRESHOLD as int)),
        ],
        run(s, silence, votes).state == (SegmenterState {
            pre_roll: pre_roll_after(Seq::empty(), silence.skip(SILENCE_THRESHOLD as int)),
            ..initial_state()
        }),
{
    let t = SILENCE_THRESHOLD as int;
    let kept = silence.take(t - 1);
    let closing = silence.subrange(t - 1, t);
    let later = silence.skip(t);
    let kept_votes = votes.take(t - 1);
    let closing_votes = votes.subrange(t - 1, t);
    let later_votes = votes.skip(t);
    assert(all_votes(kept_votes, false)) by {
        assert forall|i: int| 0 <= i < kept_votes.len() implies #[trigger] kept_votes[i]
            == false by {
            assert(kept_votes[i] == votes[i]);
        }
    }
    assert(all_votes(later_votes, false)) by {
        assert forall|i: int| 0 <= i < later_votes.len() implies #[trigger] later_votes[i]
            == false by {
            assert(later_votes[i] == votes[i + t]);
        }
    }
    // The first threshold - 1 silent frames stay in the utterance.
    lemma_pause_is_kept(s, kept, kept_votes);
    let s1 = run(s, kept, kept_votes).state;
    // The next one closes it.
    assert(closing.len() == 1);
    assert(closing.drop_last() =~= Seq::<Seq<i16>>::empty());
    assert(closing.last() == silence[t - 1]);
    assert(closing_votes.last() == votes[t - 1]);
    let r2 = run(s1, closing, closing_votes);
    assert(run(s1, closing.drop_last(), closing_votes.drop_last()).state == s1);
    assert(r2.state =~= initial_state());
    let segment = s1.accumulator + silence[t - 1];
    assert(r2.segments =~= seq![segment]);
    assert(segment =~= s.accumulator + joined(silence.take(t))) by {
        assert(silence.take(t).drop_last() =~= kept);
        assert(silence.take(t).last() == silence[t - 1]);
        assert(joined(silence.take(t)) =~= joined(kept) + silence[t - 1]);
    }
    // The rest is silence outside an utterance.
    lemma_silence_emits_nothing(initial_state(), later, later_votes);
    // Put the three stretches together.
    lemma_run_concat(s, kept, kept_votes, closing, closing_votes);
    assert(kept + closing =~= silence.take(t));
    assert(kept_votes + closing_votes =~= votes.take(t));
    lemma_run_concat(s, silence.take(t), votes.take(t), later, later_votes);
    assert(silence.take(t) + later =~= silence);
    assert(votes.take(t) + later_votes =~= votes);
    assert(run(s, silence, votes).segments =~= seq![segment]);
    assert(run(s, silence, votes).state =~= (SegmenterState {
        pre_roll: pre_roll_after(Seq::empty(), later),
        ..initial_state()
    }));
}

/// One utterance gives one segment: voice for `voiced.len()` frames, then
/// silence for at least the threshold, heard outside an utterance, completes
/// exactly one segment. It holds the history, every voiced frame and the
/// silent frames up to the threshold, so it is never shorter than the voice.
pub proof fn lemma_utterance_emits_one_segment(
    s: SegmenterState,
    voiced: Seq<Seq<i16>>,
    silence: Seq<Seq<i16>>,
    votes: Seq<bool>,
)
    requires
        state_ok(s),
        !s.speaking,
        voiced.len() > 0,
        well_sized(voiced),
        silence.len() >= SILENCE_THRESHOLD,
        votes.len() == voiced.len() + silence.len(),
        all_votes(votes.take(voiced.len() as int), true),
        all_votes(votes.skip(voiced.len() as int), false),
    ensures
        run(s, voiced + silence, votes).segments == seq![
            s.pre_roll + joined(voiced) + joined(silence.take(SILENCE_THRESHOLD as int)),
        ],
        run(s, voiced + silence, votes).segments[0].len() >= voiced.len() * FRAME_SIZE,
        run(s, voiced + silence, votes).state == (SegmenterState {
            pre_roll: pre_roll_after(Seq::empty(), silence.skip(SILENCE_THRESHOLD as int)),
            ..initial_state()
        }),
{
    let d = voiced.len() as int;
    let voice_votes = votes.take(d);
    let silence_votes = votes.skip(d);
    lemma_voice_accumulates(s, voiced, voice_votes);
    let s1 = run(s, voiced, voice_votes).state;
    lemma_silence_closes_utterance(s1, silence, silence_votes);
    lemma_run_concat(s, voiced, voice_votes, silence, silence_votes);
    assert(voice_votes + silence_votes =~= votes);
    let segment = s.pre_roll + joined(voiced) + joined(silence.take(SILENCE_THRESHOLD as int));
    assert(s1.accumulator + joined(silence.take(SILENCE_THRESHOLD as int)) =~= segment);
    assert(run(s, voiced + silence, votes).segments =~= seq![segment]);
    lemma_joined_len(voiced);
}

/// Two utterances give two segments, and the second owes nothing to the
/// first: it starts with the silence left over behind the first one and
/// holds no sample from before.
pub proof fn lemma_two_utterances_emit_two_segments(
    s: SegmenterState,
    voiced1: Seq<Seq<i16>>,
    silence1: Seq<Seq<i16>>,
    voiced2: Seq<Seq<i16>>,
    silence2: Seq<Seq<i16>>,
    votes1: Seq<bool>,
    votes2: Seq<bool>,
)
    requires
        state_ok(s),
        !s.speaking,
        voiced1.len() > 0,
        voiced2.len() > 0,
        well_sized(voiced1),
        well_sized(silence1),
        well_sized(voiced2),
        silence1.len() >= SILENCE_THRESHOLD,
        silence2.len() >= SILENCE_THRESHOLD,
        votes1.len() == voiced1.len() + silence1.len(),
        votes2.len() == voiced2.len() + silence2.len(),
        all_votes(votes1.take(voiced1.len() as int), true),
        all_votes(votes1.skip(voiced1.len() as int), false),
        all_votes(votes2.take(voiced2.len() as int), true),
        all_votes(votes2.skip(voiced2.len() as int), false),
    ensures
        run(s, (voiced1 + silence1) + (voiced2 + silence2), votes1 + votes2).segments == seq![
            s.pre_roll + joined(voiced1) + joined(silence1.take(SILENCE_THRESHOLD as int)),
            pre_roll_after(Seq::empty(), silence1.skip(SILENCE_THRESHOLD as int)) + joined(voiced2)
                + joined(silence2.take(SILENCE_THRESHOLD as int)),
        ],
{
    let first = voiced1 + silence1;
    let second = voiced2 + silence2;
    lemma_utterance_emits_one_segment(s, voiced1, silence1, votes1);
    let s1 = run(s, first, votes1).state;
    let leftover = silence1.skip(SILENCE_THRESHOLD as int);
    assert(well_sized(leftover)) by {
        assert forall|i: int| 0 <= i < leftover.len() implies (#[trigger] leftover[i]).len()
            == FRAME_SIZE by {
            assert(leftover[i] == silence1[i + SILENCE_THRESHOLD as int]);
        }
    }
    lemma_pre_roll_after_bounds(Seq::empty(), leftover);
    lemma_utterance_emits_one_segment(s1, voiced2, silence2, votes2);
    lemma_run_concat(s, first, votes1, second, votes2);
    assert(run(s, first + second, votes1 + votes2).segments =~= seq![
        s.pre_roll + joined(voiced1) + joined(silence1.take(SILENCE_THRESHOLD as int)),
        pre_roll_after(Seq::empty(), leftover) + joined(voiced2) + joined(
            silence2.take(SILENCE_THRESHOLD as int),
        ),
    ]);
}

// ---------------------------------------------------------------------------
// Audio that arrives in pieces
// ---------------------------------------------------------------------------

/// Cutting a stream into frames can be done piece by piece, where the first
/// piece ends with a frame.
pub proof fn lemma_frames_of_concat(first: Seq<i16>, second: Seq<i16>)
    requires
        first.len() % (FRAME_SIZE as nat) == 0,
    ensures
        frames_of(first + second) == frames_of(first) + frames_of(second),
{
    let whole = frames_of(first + second);
    let parts = frames_of(first) + frames_of(second);
    let n1 = first.len() / (FRAME_SIZE as nat);
    assert(first.len() == n1 * FRAME_SIZE);
    assert(whole.len() == parts.len());
    assert forall|i: int| 0 <= i < whole.len() implies whole[i] == parts[i] by {
        assert(i * FRAME_SIZE + FRAME_SIZE <= (first + second).len()) by {
            assert(i + 1 <= (first + second).len() / (FRAME_SIZE as nat));
        }
        if i < n1 {
            assert(i * FRAME_SIZE + FRAME_SIZE <= first.len());
            assert(whole[i] =~= frames_of(first)[i]);
        } else {
            let j = i - n1;
            assert(i * FRAME_SIZE == first.len() + j * FRAME_SIZE);
            assert(whole[i] =~= frames_of(second)[j]);
        }
    }
    assert(whole =~= parts);
}

/// One call among many: the frames from `start` up to `end`, fed to the
/// detector as the frames before `start` left it, give the segments that
/// the run up to `end` has on top of those of the run up to `start`, and
/// leave the detector as the run up to `end` leaves it. So it makes no
/// difference how a stream of frames is split over calls.
pub proof fn lemma_call_in_a_run(
    s: SegmenterState,
    frames: Seq<Seq<i16>>,
    votes: Seq<bool>,
    start: int,
    end: int,
)
    requires
        votes.len() == frames.len(),
        0 <= start <= end <= frames.len(),
    ensures
        run(
            run(s, frames.take(start), votes.take(start)).state,
            frames.subrange(start, end),
            votes.subrange(start, end),
        ).state == run(s, frames.take(end), votes.take(end)).state,
        run(s, frames.take(start), votes.take(start)).segments + run(
            run(s, frames.take(start), votes.take(start)).state,
            frames.subrange(start, end),
            votes.subrange(start, end),
        ).segments == run(s, frames.take(end), votes.take(end)).segments,
{
    lemma_run_concat(
        s,
        frames.take(start),
        votes.take(start),
        frames.subrange(start, end),
        votes.subrange(start, end),
    );
    assert(frames.take(start) + frames.subrange(start, end) =~= frames.take(end));
    assert(votes.take(start) + votes.subrange(start, end) =~= votes.take(end));
}

/// A stretch of equal votes holds equal votes throughout.
proof fn lemma_votes_within(votes: Seq<bool>, lo: int, hi: int, from: int, to: int, voice: bool)
    requires
        0 <= lo <= from <= to <= hi <= votes.len(),
        all_votes(votes.subrange(lo, hi), voice),
    ensures
        all_votes(votes.subrange(from, to), voice),
{
    let outer = votes.subrange(lo, hi);
    let inner = votes.subrange(from, to);
    assert forall|i: int| 0 <= i < inner.len() implies #[trigger] inner[i] == voice by {
        assert(inner[i] == outer[i + from - lo]);
    }
}

/// Frames among whole frames are whole.
proof fn lemma_well_sized_within(frames: Seq<Seq<i16>>, from: int, to: int)
    requires
        0 <= from <= to <= frames.len(),
        well_sized(frames),
    ensures
        well_sized(frames.subrange(from, to)),
{
    let inner = frames.subrange(from, to);
    assert forall|i: int| 0 <= i < inner.len() implies (#[trigger] inner[i]).len()
        == FRAME_SIZE by {
        assert(inner[i] == frames[i + from]);
    }
}

/// The segment of an utterance: the history in front of the voice, the
/// voice, and the silence up to the threshold.
pub open spec fn utterance_segment(
    s: SegmenterState,
    quiet: Seq<Seq<i16>>,
    voiced: Seq<Seq<i16>>,
    silence: Seq<Seq<i16>>,
) -> Seq<i16> {
    pre_roll_after(s.pre_roll, quiet) + joined(voiced) + joined(
        silence.take(SILENCE_THRESHOLD as int),
    )
}

/// The frame count at which an utterance is complete: the silent frame that
/// reaches the threshold has been taken.
pub open spec fn closing_count(quiet: Seq<Seq<i16>>, voiced: Seq<Seq<i16>>) -> int {
    quiet.len() + voiced.len() + SILENCE_THRESHOLD
}

/// The votes of an utterance: silence, then voice, then silence.
pub open spec fn utterance_votes(
    votes: Seq<bool>,
    quiet: Seq<Seq<i16>>,
    voiced: Seq<Seq<i16>>,
    silence: Seq<Seq<i16>>,
) -> bool {
    &&& votes.len() == quiet.len() + voiced.len() + silence.len()
    &&& all_votes(votes.subrange(0, quiet.len() as int), false)
    &&& all_votes(
        votes.subrange(quiet.len() as int, (quiet.len() + voiced.len()) as int),
        true,
    )
    &&& all_votes(
        votes.subrange((quiet.len() + voiced.len()) as int, votes.len() as int),
        false,
    )
}

/// An utterance as far as it has been heard: silence, then voice, then
/// silence of at least the threshold, met outside an utterance. Up to the
/// silent frame that reaches the threshold no segment is complete; from
/// that frame on exactly one is, and the detector is outside an utterance
/// again.
pub proof fn lemma_utterance_so_far(
    s: SegmenterState,
    quiet: Seq<Seq<i16>>,
    voiced: Seq<Seq<i16>>,
    silence: Seq<Seq<i16>>,
    votes: Seq<bool>,
    n: int,
)
    requires
        state_ok(s),
        !s.speaking,
        well_sized(quiet),
        well_sized(voiced),
        voiced.len() > 0,
        silence.len() >= SILENCE_THRESHOLD,
        utterance_votes(votes, quiet, voiced, silence),
        0 <= n <= votes.len(),
    ensures
        n < closing_count(quiet, voiced) ==> run(
            s,
            (quiet + voiced + silence).take(n),
            votes.take(n),
        ).segments == Seq::<Seq<i16>>::empty(),
        n >= closing_count(quiet, voiced) ==> run(
            s,
            (quiet + voiced + silence).take(n),
            votes.take(n),
        ).segments == seq![utterance_segment(s, quiet, voiced, silence)],
        n >= closing_count(quiet, voiced) ==> !run(
            s,
            (quiet + voiced + silence).take(n),
            votes.take(n),
        ).state.speaking,
{
    let frames = quiet + voiced + silence;
    let p = quiet.len() as int;
    let d = voiced.len() as int;
    let total = votes.len() as int;
    assert(votes.take(n) =~= votes.subrange(0, n));
    if n <= p {
        lemma_votes_within(votes, 0, p, 0, n, false);
        lemma_silence_emits_nothing(s, frames.take(n), votes.take(n));
    } else {
        // The silence in front fills the history.
        let quiet_votes = votes.subrange(0, p);
        lemma_silence_emits_nothing(s, quiet, quiet_votes);
        let s1 = run(s, quiet, quiet_votes).state;
        lemma_pre_roll_after_bounds(s.pre_roll, quiet);
        assert(state_ok(s1));
        if n <= p + d {
            let heard = voiced.take(n - p);
            let heard_votes = votes.subrange(p, n);
            lemma_votes_within(votes, p, p + d, p, n, true);
            lemma_well_sized_within(voiced, 0, n - p);
            assert(voiced.subrange(0, n - p) =~= heard);
            lemma_voice_accumulates(s1, heard, heard_votes);
            lemma_run_concat(s, quiet, quiet_votes, heard, heard_votes);
            assert(quiet + heard =~= frames.take(n));
            assert(quiet_votes + heard_votes =~= votes.take(n));
            assert(run(s, frames.take(n), votes.take(n)).segments =~= Seq::<Seq<i16>>::empty());
        } else {
            let m = n - p - d;
            let tail = silence.take(m);
            let rest_votes = votes.subrange(p, n);
            let voice_votes = votes.subrange(p, p + d);
            let tail_votes = votes.subrange(p + d, n);
            lemma_votes_within(votes, p + d, total, p + d, n, false);
            assert(rest_votes.take(d) =~= voice_votes);
            assert(rest_votes.skip(d) =~= tail_votes);
            assert(quiet + (voiced + tail) =~= frames.take(n));
            assert(quiet_votes + rest_votes =~= votes.take(n));
            lemma_run_concat(s, quiet, quiet_votes, voiced + tail, rest_votes);
            if m < SILENCE_THRESHOLD {
                lemma_voice_accumulates(s1, voiced, voice_votes);
                let s2 = run(s1, voiced, voice_votes).state;
                lemma_pause_is_kept(s2, tail, tail_votes);
                lemma_run_concat(s1, voiced, voice_votes, tail, tail_votes);
                assert(voice_votes + tail_votes =~= rest_votes);
                assert(run(s, frames.take(n), votes.take(n)).segments
                    =~= Seq::<Seq<i16>>::empty());
            } else {
                lemma_utterance_emits_one_segment(s1, voiced, tail, rest_votes);
                assert(tail.take(SILENCE_THRESHOLD as int) =~= silence.take(
                    SILENCE_THRESHOLD as int,
                ));
                assert(run(s, frames.take(n), votes.take(n)).segments =~= seq![
                    utterance_segment(s, quiet, voiced, silence),
                ]);
            }
        }
    }
}

/// However the frames of an utterance are split over calls, exactly one
/// call hands out a segment, and exactly one segment: the call that takes
/// the silent frame which reaches the threshold. Here a call takes the
/// frames from `start` up to `end`, after calls that took the frames before
/// `start`.
pub proof fn lemma_one_call_hands_the_segment_out(
    s: SegmenterState,
    quiet: Seq<Seq<i16>>,
    voiced: Seq<Seq<i16>>,
    silence: Seq<Seq<i16>>,
    votes: Seq<bool>,
    start: int,
    end: int,
)
    requires
        state_ok(s),
        !s.speaking,
        well_sized(quiet),
        well_sized(voiced),
        voiced.len() > 0,
        silence.len() >= SILENCE_THRESHOLD,
        utterance_votes(votes, quiet, voiced, silence),
        0 <= start <= end <= votes.len(),
    ensures
        run(
            run(s, (quiet + voiced + silence).take(start), votes.take(start)).state,
            (quiet + voiced + silence).subrange(start, end),
            votes.subrange(start, end),
        ).segments == if start < closing_count(quiet, voiced) <= end {
            seq![utterance_segment(s, quiet, voiced, silence)]
        } else {
            Seq::<Seq<i16>>::empty()
        },
        end >= closing_count(quiet, voiced) ==> !run(
            run(s, (quiet + voiced + silence).take(start), votes.take(start)).state,
            (quiet + voiced + silence).subrange(start, end),
            votes.subrange(start, end),
        ).state.speaking,
{
    let frames = quiet + voiced + silence;
    lemma_utterance_so_far(s, quiet, voiced, silence, votes, start);
    lemma_utterance_so_far(s, quiet, voiced, silence, votes, end);
    lemma_call_in_a_run(s, frames, votes, start, end);
    let before = run(s, frames.take(start), votes.take(start)).segments;
    let call = run(
        run(s, frames.take(start), votes.take(start)).state,
        frames.subrange(start, end),
        votes.subrange(start, end),
    ).segments;
    let upto = run(s, frames.take(end), votes.take(end)).segments;
    assert(before + call == upto);
    assert((before + call).len() == before.len() + call.len());
    if start < closing_count(quiet, voiced) <= end {
        assert(call =~= upto);
    } else {
        assert(call.len() == 0);
        assert(call =~= Seq::<Seq<i16>>::empty());
    }
}

} // verus!
