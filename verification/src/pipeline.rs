//! The rules by which audio, segments and text move between the capture
//! callback, the segmenting loop and the transcription worker.
//!
//! The stages run on threads of their own and meet only in three bounded
//! queues. A producer never waits for a full queue: what does not fit is
//! dropped.

use crate::audio::passthrough;
use crate::transcribe::TranscribeError;
use crate::vad::{frames_of, picked, run, VoiceDetector};
use crossbeam_channel::{Sender, TrySendError};
use vstd::prelude::*;

verus! {

/// Capacity of the queue of captured buffers.
pub const RAW_AUDIO_QUEUE: usize = 64;

/// Capacity of the queue of segments that wait for transcription.
pub const SEGMENT_QUEUE: usize = 4;

/// Capacity of the queue of transcripts that wait to be typed.
pub const TEXT_QUEUE: usize = 4;

/// How long, in milliseconds, the segmenting loop waits for audio before it
/// looks at the shutdown flag again.
pub const POLL_TIMEOUT_MS: u64 = 100;

/// How long, in seconds, shutdown waits for the transcription worker.
pub const SHUTDOWN_GRACE_SECS: u64 = 10;

#[verifier::external_type_specification]
#[verifier::external_body]
#[verifier::reject_recursive_types(T)]
pub struct ExSender<T>(Sender<T>);

/// How an attempt to enqueue ended.
#[derive(Debug, Clone, Copy, PartialEq, Eq, Structural)]
pub enum Delivery {
    /// The item is in the queue.
    Sent,
    /// The queue was full; the item is dropped.
    Full,
    /// Nobody reads the queue any more; the item is dropped.
    Disconnected,
}

/// `crossbeam_channel::Sender::try_send`: enqueues without waiting. What
/// comes back depends on what the other threads have done to the queue, so
/// nothing is claimed of it.
#[verifier::external_body]
fn try_send<T>(queue: &Sender<T>, item: T) -> Delivery {
    match queue.try_send(item) {
        Ok(()) => Delivery::Sent,
        Err(TrySendError::Full(_)) => Delivery::Full,
        Err(TrySendError::Disconnected(_)) => Delivery::Disconnected,
    }
}

// ---------------------------------------------------------------------------
// Capture
// ---------------------------------------------------------------------------

/// Offers one captured buffer to the segmenting loop without waiting; the
/// buffer is dropped where the queue does not take it. This is all that the
/// audio callback does.
///
/// What is offered is a copy of `data`, sample for sample, as
/// [`passthrough`] makes it; whether the queue takes it is the queue's own.
pub fn offer_chunk(queue: &Sender<Vec<i16>>, data: &[i16]) -> Delivery {
    try_send(queue, passthrough(data))
}

// ---------------------------------------------------------------------------
// The segmenting loop
// ---------------------------------------------------------------------------

/// What the segmenting loop wakes up to.
#[derive(Debug, Clone, Copy, PartialEq, Eq, Structural)]
pub enum Event {
    /// The shutdown flag is set.
    Shutdown,
    /// No audio arrived within the poll timeout.
    Timeout,
    /// The capture side is gone.
    Disconnected,
    /// A captured buffer arrived; `listening` is the push-to-talk state now.
    Chunk { listening: bool },
}

/// What the segmenting loop does next.
#[derive(Debug, Clone, Copy, PartialEq, Eq, Structural)]
pub enum Action {
    /// Leave the loop.
    Stop,
    /// Poll again.
    Wait,
    /// Throw the buffer away; first reset the detector if `reset` is set.
    Discard { reset: bool },
    /// Resample the buffer and feed it to the detector.
    Process,
}

/// The action for `event`, where `was_listening` is the push-to-talk state
/// at the previous buffer. Audio outside the listening window is discarded,
/// and the buffer that ends the window resets the detector, so that an
/// utterance cut short by the release is dropped, not flushed.
pub open spec fn action_for(was_listening: bool, event: Event) -> Action {
    match event {
        Event::Shutdown => Action::Stop,
        Event::Disconnected => Action::Stop,
        Event::Timeout => Action::Wait,
        Event::Chunk { listening } => if listening {
            Action::Process
        } else {
            Action::Discard { reset: was_listening }
        },
    }
}

/// The push-to-talk state to remember after `event`.
pub open spec fn listening_after(was_listening: bool, event: Event) -> bool {
    match event {
        Event::Chunk { listening } => listening,
        _ => was_listening,
    }
}

/// The segmenting loop's memory between two events.
pub struct MainLoop {
    was_listening: bool,
}

impl View for MainLoop {
    type V = bool;

    /// The push-to-talk state at the last buffer.
    closed spec fn view(&self) -> bool {
        self.was_listening
    }
}

impl MainLoop {
    /// A loop that has seen no buffer: not listening.
    pub fn new() -> (r: MainLoop)
        ensures
            r@ == false,
    {
        MainLoop { was_listening: false }
    }

    /// True when the last buffer arrived inside the listening window.
    pub fn was_listening(&self) -> (r: bool)
        ensures
            r == self@,
    {
        self.was_listening
    }

    /// Decides what to do about `event`.
    pub fn on_event(&mut self, event: Event) -> (action: Action)
        ensures
            action == action_for(old(self)@, event),
            final(self)@ == listening_after(old(self)@, event),
    {
        match event {
            Event::Shutdown => Action::Stop,
            Event::Disconnected => Action::Stop,
            Event::Timeout => Action::Wait,
            Event::Chunk { listening } => {
                let was: bool = self.was_listening;
                self.was_listening = listening;
                if listening {
                    Action::Process
                } else {
                    Action::Discard { reset: was }
                }
            },
        }
    }
}

/// How many segments went into the queue and how many were dropped.
#[derive(Debug, Clone, Copy, PartialEq, Eq, Structural)]
pub struct Dispatch {
    pub sent: usize,
    pub dropped: usize,
}

/// The count after one more attempt: a segment that went into the queue is
/// sent, any other is dropped.
pub open spec fn tallied(report: Dispatch, delivery: Delivery) -> Dispatch {
    if delivery == Delivery::Sent {
        Dispatch { sent: (report.sent + 1) as usize, dropped: report.dropped }
    } else {
        Dispatch { sent: report.sent, dropped: (report.dropped + 1) as usize }
    }
}

/// The count after a row of attempts.
pub open spec fn tallied_all(deliveries: Seq<Delivery>) -> Dispatch
    decreases deliveries.len(),
{
    if deliveries.len() == 0 {
        Dispatch { sent: 0, dropped: 0 }
    } else {
        tallied(tallied_all(deliveries.drop_last()), deliveries.last())
    }
}

/// Counts one attempt.
pub fn tally(report: Dispatch, delivery: Delivery) -> (r: Dispatch)
    requires
        report.sent + report.dropped < usize::MAX,
    ensures
        r == tallied(report, delivery),
{
    match delivery {
        Delivery::Sent => Dispatch { sent: report.sent + 1, dropped: report.dropped },
        _ => Dispatch { sent: report.sent, dropped: report.dropped + 1 },
    }
}

/// A count holds every attempt once.
pub proof fn lemma_tallied_all_counts(deliveries: Seq<Delivery>)
    requires
        deliveries.len() <= usize::MAX,
    ensures
        tallied_all(deliveries).sent + tallied_all(deliveries).dropped == deliveries.len(),
    decreases deliveries.len(),
{
    if deliveries.len() > 0 {
        lemma_tallied_all_counts(deliveries.drop_last());
    }
}

/// Offers each segment, in order, to the transcription worker without
/// waiting. A segment that the queue does not take is dropped: the worker is
/// still busy with an earlier one, and a late transcript is worth less than
/// none.
///
/// How each attempt ends is the queue's own; the report is the count of
/// those ends, one for every segment.
pub fn dispatch_segments(queue: &Sender<Vec<i16>>, segments: Vec<Vec<i16>>) -> (report: Dispatch)
    ensures
        report.sent + report.dropped == segments@.len(),
        exists|deliveries: Seq<Delivery>|
            deliveries.len() == segments@.len() && report == #[trigger] tallied_all(deliveries),
{
    let mut segments = segments;
    let total: usize = segments.len();
    let mut report = Dispatch { sent: 0, dropped: 0 };
    let ghost mut deliveries: Seq<Delivery> = Seq::empty();
    while segments.len() > 0
        invariant
            deliveries.len() + segments@.len() == total,
            report == tallied_all(deliveries),
            report.sent + report.dropped == deliveries.len(),
        decreases segments@.len(),
    {
        let segment = segments.remove(0);
        let delivery = try_send(queue, segment);
        proof {
            assert(deliveries.push(delivery).drop_last() =~= deliveries);
            deliveries = deliveries.push(delivery);
        }
        report = tally(report, delivery);
    }
    report
}

/// Feeds resampled audio to the detector and offers the utterances that it
/// completes to the transcription worker.
///
/// An empty buffer is skipped: a resampler may return nothing for a short
/// input, which says nothing about the stream. Otherwise the detector moves
/// as [`VoiceDetector::process_samples`] says, and every segment completed
/// is either sent or dropped.
pub fn feed(detector: &mut VoiceDetector, resampled: &[i16], queue: &Sender<Vec<i16>>) -> (report:
    Dispatch)
    requires
        old(detector).wf(),
    ensures
        final(detector).wf(),
        exists|votes: Seq<bool>|
            votes.len() == frames_of(resampled@).len() && (#[trigger] run(
                old(detector)@,
                frames_of(resampled@),
                votes,
            )).state == final(detector)@ && run(
                old(detector)@,
                frames_of(resampled@),
                votes,
            ).segments.len() == report.sent + report.dropped,
        exists|deliveries: Seq<Delivery>|
            deliveries.len() == report.sent + report.dropped && report == #[trigger] tallied_all(
                deliveries,
            ),
        exists|accepted: Seq<bool>|
            accepted.len() == frames_of(resampled@).len() && final(detector).judged()
                == old(detector).judged() + #[trigger] picked(frames_of(resampled@), accepted),
{
    if resampled.len() == 0 {
        proof {
            let accepted = Seq::<bool>::empty();
            assert(detector.judged() =~= detector.judged() + picked(
                frames_of(resampled@),
                accepted,
            ));
            let votes = Seq::<bool>::empty();
            assert(frames_of(resampled@) =~= Seq::<Seq<i16>>::empty());
            assert(run(detector@, frames_of(resampled@), votes).state == detector@);
            assert(run(detector@, frames_of(resampled@), votes).segments.len() == 0);
            assert(tallied_all(Seq::<Delivery>::empty()) == (Dispatch { sent: 0, dropped: 0 }));
        }
        return Dispatch { sent: 0, dropped: 0 };
    }
    let segments = detector.process_samples(resampled);
    dispatch_segments(queue, segments)
}

// ---------------------------------------------------------------------------
// The transcription worker
// ---------------------------------------------------------------------------

/// The transcript to pass on for the outcome of one transcription: the text
/// where there is some; nothing for an empty transcript or a failure, which
/// end neither the worker nor the pipeline.
pub open spec fn transcript_of(outcome: Result<String, TranscribeError>) -> Option<Seq<char>> {
    match outcome {
        Ok(text) => if text@.len() > 0 {
            Some(text@)
        } else {
            None
        },
        Err(_) => None,
    }
}

/// Picks the transcript to pass on.
pub fn transcript_to_forward(outcome: Result<String, TranscribeError>) -> (r: Option<String>)
    ensures
        match r {
            Some(text) => transcript_of(outcome) == Some(text@),
            None => transcript_of(outcome) is None,
        },
{
    match outcome {
        Ok(text) => {
            if text.as_str().is_empty() {
                None
            } else {
                Some(text)
            }
        },
        Err(_) => None,
    }
}

/// Whether the worker goes on to the next segment.
#[derive(Debug, Clone, Copy, PartialEq, Eq, Structural)]
pub enum WorkerControl {
    Continue,
    Stop,
}

/// What the worker does after an attempt to pass a transcript on: a full
/// queue costs that transcript and nothing else; a queue that nobody reads
/// ends the worker.
pub open spec fn control_after(delivery: Delivery) -> WorkerControl {
    if delivery == Delivery::Disconnected {
        WorkerControl::Stop
    } else {
        WorkerControl::Continue
    }
}

/// Decides whether the worker goes on after `delivery`.
pub fn after_delivery(delivery: Delivery) -> (r: WorkerControl)
    ensures
        r == control_after(delivery),
{
    match delivery {
        Delivery::Disconnected => WorkerControl::Stop,
        _ => WorkerControl::Continue,
    }
}

/// What became of the outcome of one transcription.
#[derive(Debug, Clone, Copy, PartialEq, Eq)]
pub struct Forwarded {
    /// How the attempt to pass the transcript on ended; `None` where there
    /// was no transcript to pass on and the queue was left alone.
    pub delivery: Option<Delivery>,
    /// Whether the worker goes on to the next segment.
    pub control: WorkerControl,
}

/// What the worker does after an outcome: it goes on where nothing was to
/// be passed on, and else as [`control_after`] says of the delivery.
pub open spec fn control_for(delivery: Option<Delivery>) -> WorkerControl {
    match delivery {
        Some(d) => control_after(d),
        None => WorkerControl::Continue,
    }
}

/// Passes the outcome of one transcription on to the consumer, without
/// waiting for it, and reports what became of it, so that a transcript that
/// was dropped can be logged.
///
/// The queue is tried exactly where the outcome holds a transcript that is
/// not empty; how the attempt ends is the queue's own. The worker stops
/// only where the consumer is gone.
pub fn forward_transcript(queue: &Sender<String>, outcome: Result<String, TranscribeError>) -> (r:
    Forwarded)
    ensures
        r.delivery is Some <==> transcript_of(outcome) is Some,
        r.control == control_for(r.delivery),
{
    match transcript_to_forward(outcome) {
        Some(text) => {
            let delivery = try_send(queue, text);
            Forwarded { delivery: Some(delivery), control: after_delivery(delivery) }
        },
        None => Forwarded { delivery: None, control: WorkerControl::Continue },
    }
}

} // verus!
