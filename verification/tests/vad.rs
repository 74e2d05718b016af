use space_tts::vad::{
    vote_of, PreRoll, VoiceDetector, FRAME_SIZE, PRE_ROLL_FRAMES, SILENCE_THRESHOLD,
};

/// Generate synthetic "voice" samples (alternating high amplitude)
/// that reliably trigger webrtc-vad voice detection.
fn make_voice(num_frames: usize) -> Vec<i16> {
    let mut samples = Vec::with_capacity(FRAME_SIZE * num_frames);
    for i in 0..(FRAME_SIZE * num_frames) {
        // Square wave at ~500Hz (alternating every 16 samples at 16kHz)
        let val: i16 = if (i / 16) % 2 == 0 { 30000 } else { -30000 };
        samples.push(val);
    }
    samples
}

fn make_silence(num_frames: usize) -> Vec<i16> {
    vec![0i16; FRAME_SIZE * num_frames]
}

fn frame_of(value: i16) -> Vec<i16> {
    vec![value; FRAME_SIZE]
}

#[test]
fn silence_produces_no_segments() {
    let mut vd = VoiceDetector::new();
    let segments = vd.process_samples(&make_silence(100));
    assert!(segments.is_empty());
}

#[test]
fn loud_then_silence_produces_segment() {
    let mut vd = VoiceDetector::new();

    // Feed voice (50 frames = 500ms)
    let segs = vd.process_samples(&make_voice(50));
    assert!(
        segs.is_empty(),
        "Should not emit segment while still speaking"
    );

    // Feed enough silence to trigger end-of-speech
    let segs = vd.process_samples(&make_silence(SILENCE_THRESHOLD as usize + 20));
    assert_eq!(segs.len(), 1, "Should emit exactly one segment");

    // Segment should include voice frames + some pre-roll
    let seg = &segs[0];
    assert!(
        seg.len() >= FRAME_SIZE * 50,
        "Segment length {} should be >= {}",
        seg.len(),
        FRAME_SIZE * 50
    );
}

#[test]
fn reset_discards_accumulated_audio() {
    let mut vd = VoiceDetector::new();

    // Feed voice to start speaking state
    let segs = vd.process_samples(&make_voice(30));
    assert!(segs.is_empty());
    assert!(vd.is_speaking());

    // Reset clears everything including VAD internal state
    vd.reset();
    assert!(!vd.is_speaking());
    assert_eq!(vd.buffered_samples(), 0);
    assert_eq!(vd.pre_roll_samples(), 0);

    // Feed silence — should not produce segment (VAD state is fresh)
    let segs = vd.process_samples(&make_silence(100));
    assert!(segs.is_empty());
}

#[test]
fn multiple_speech_bursts() {
    let mut vd = VoiceDetector::new();
    let mut total_segments = Vec::new();

    for _ in 0..2 {
        total_segments.extend(vd.process_samples(&make_voice(50)));
        total_segments
            .extend(vd.process_samples(&make_silence(SILENCE_THRESHOLD as usize + 20)));
    }

    assert_eq!(total_segments.len(), 2, "Should emit 2 separate segments");
}

#[test]
fn fresh_detector_is_idle() {
    let vd = VoiceDetector::new();
    assert!(!vd.is_speaking());
    assert_eq!(vd.buffered_samples(), 0);
    assert_eq!(vd.pre_roll_samples(), 0);
}

#[test]
fn steps_follow_the_four_transitions() {
    let mut vd = VoiceDetector::new();
    // silence -> silence fills the history, up to its capacity
    for i in 0..7 {
        assert_eq!(vd.step(&frame_of(i as i16), false), None);
    }
    assert!(!vd.is_speaking());
    assert_eq!(vd.pre_roll_samples(), PRE_ROLL_FRAMES * FRAME_SIZE);
    assert_eq!(vd.buffered_samples(), 0);
    // silence -> voice puts the history, oldest first, in front
    assert_eq!(vd.step(&frame_of(100), true), None);
    assert!(vd.is_speaking());
    assert_eq!(vd.pre_roll_samples(), 0);
    assert_eq!(vd.buffered_samples(), 6 * FRAME_SIZE);
    // voice -> voice
    assert_eq!(vd.step(&frame_of(101), true), None);
    // voice -> silence, below the threshold, is kept in the utterance
    for _ in 0..(SILENCE_THRESHOLD - 1) {
        assert_eq!(vd.step(&frame_of(-1), false), None);
    }
    assert!(vd.is_speaking());
    // voice resets the count of silent frames
    assert_eq!(vd.step(&frame_of(102), true), None);
    for _ in 0..(SILENCE_THRESHOLD - 1) {
        assert_eq!(vd.step(&frame_of(-2), false), None);
    }
    let segment = vd.step(&frame_of(-3), false).unwrap();
    assert!(!vd.is_speaking());
    assert_eq!(vd.buffered_samples(), 0);
    assert_eq!(vd.pre_roll_samples(), 0);

    let mut expected: Vec<i16> = Vec::new();
    for i in 2..7 {
        expected.extend(frame_of(i as i16));
    }
    expected.extend(frame_of(100));
    expected.extend(frame_of(101));
    for _ in 0..(SILENCE_THRESHOLD - 1) {
        expected.extend(frame_of(-1));
    }
    expected.extend(frame_of(102));
    for _ in 0..(SILENCE_THRESHOLD - 1) {
        expected.extend(frame_of(-2));
    }
    expected.extend(frame_of(-3));
    assert_eq!(segment, expected);
}

#[test]
fn second_utterance_holds_nothing_of_the_first() {
    let mut vd = VoiceDetector::new();
    assert_eq!(vd.step(&frame_of(1), true), None);
    let mut first = None;
    for _ in 0..SILENCE_THRESHOLD {
        first = vd.step(&frame_of(2), false);
    }
    assert_eq!(first.unwrap().len(), (1 + SILENCE_THRESHOLD as usize) * FRAME_SIZE);
    // two more silent frames become the history of the next utterance
    assert_eq!(vd.step(&frame_of(3), false), None);
    assert_eq!(vd.step(&frame_of(4), false), None);
    assert_eq!(vd.step(&frame_of(5), true), None);
    let mut second = None;
    for _ in 0..SILENCE_THRESHOLD {
        second = vd.step(&frame_of(6), false);
    }
    let mut expected: Vec<i16> = Vec::new();
    expected.extend(frame_of(3));
    expected.extend(frame_of(4));
    expected.extend(frame_of(5));
    for _ in 0..SILENCE_THRESHOLD {
        expected.extend(frame_of(6));
    }
    assert_eq!(second.unwrap(), expected);
}

#[test]
fn reset_mid_utterance_emits_nothing_later() {
    let mut vd = VoiceDetector::new();
    assert_eq!(vd.step(&frame_of(9), false), None);
    assert_eq!(vd.step(&frame_of(1), true), None);
    vd.reset();
    assert!(!vd.is_speaking());
    for _ in 0..(2 * SILENCE_THRESHOLD) {
        assert_eq!(vd.step(&frame_of(0), false), None);
    }
}

#[test]
fn partial_trailing_frame_is_dropped() {
    let mut vd = VoiceDetector::new();
    let segments = vd.process_samples(&vec![0i16; FRAME_SIZE * 2 + 159]);
    assert!(segments.is_empty());
    assert_eq!(vd.pre_roll_samples(), 2 * FRAME_SIZE);
    let segments = vd.process_samples(&vec![0i16; 159]);
    assert!(segments.is_empty());
    assert_eq!(vd.pre_roll_samples(), 2 * FRAME_SIZE);
    let segments = vd.process_samples(&[]);
    assert!(segments.is_empty());
}

#[test]
fn history_ring_keeps_the_newest_frames() {
    let mut ring = PreRoll::new();
    assert_eq!(ring.len(), 0);
    for i in 0..12 {
        ring.push(&frame_of(i as i16));
        let held = std::cmp::min(i + 1, PRE_ROLL_FRAMES);
        assert_eq!(ring.len(), held * FRAME_SIZE);
    }
    let mut out = vec![-7i16];
    ring.drain_into(&mut out);
    let mut expected = vec![-7i16];
    for i in 7..12 {
        expected.extend(frame_of(i as i16));
    }
    assert_eq!(out, expected);
    assert_eq!(ring.len(), 0);
    ring.push(&frame_of(42));
    ring.clear();
    assert_eq!(ring.len(), 0);
    ring.push(&frame_of(43));
    let mut out = Vec::new();
    ring.drain_into(&mut out);
    assert_eq!(out, frame_of(43));
}

fn frames(values: &[i16]) -> Vec<i16> {
    let mut samples = Vec::new();
    for &v in values {
        samples.extend(frame_of(v));
    }
    samples
}

#[test]
fn silence_alone_completes_nothing() {
    let mut vd = VoiceDetector::new();
    let samples = vec![0i16; FRAME_SIZE * 300];
    let segments = vd.process_classified(&samples, &vec![false; 300]);
    assert!(segments.is_empty());
    assert!(!vd.is_speaking());
    assert_eq!(vd.buffered_samples(), 0);
    assert_eq!(vd.pre_roll_samples(), PRE_ROLL_FRAMES * FRAME_SIZE);
    // frames without a vote are silence
    let segments = vd.process_classified(&samples, &[]);
    assert!(segments.is_empty());
}

#[test]
fn one_utterance_gives_one_segment() {
    let threshold = SILENCE_THRESHOLD as usize;
    for voiced in [1usize, 2, 50, 120] {
        let mut vd = VoiceDetector::new();
        let mut values: Vec<i16> = vec![7; voiced];
        values.extend(vec![0i16; threshold + 20]);
        let mut votes = vec![true; voiced];
        votes.extend(vec![false; threshold + 20]);
        let segments = vd.process_classified(&frames(&values), &votes);
        assert_eq!(segments.len(), 1);
        assert_eq!(segments[0].len(), (voiced + threshold) * FRAME_SIZE);
        assert!(segments[0].len() >= voiced * FRAME_SIZE);
        let mut expected = frames(&vec![7; voiced]);
        expected.extend(vec![0i16; threshold * FRAME_SIZE]);
        assert_eq!(segments[0], expected);
        assert!(!vd.is_speaking());
        assert_eq!(vd.pre_roll_samples(), PRE_ROLL_FRAMES * FRAME_SIZE);
    }
}

#[test]
fn silence_one_short_of_the_threshold_completes_nothing() {
    let threshold = SILENCE_THRESHOLD as usize;
    let mut vd = VoiceDetector::new();
    let mut values: Vec<i16> = vec![7; 3];
    values.extend(vec![0i16; threshold - 1]);
    let mut votes = vec![true; 3];
    votes.extend(vec![false; threshold - 1]);
    assert!(vd.process_classified(&frames(&values), &votes).is_empty());
    assert!(vd.is_speaking());
    assert_eq!(vd.buffered_samples(), (3 + threshold - 1) * FRAME_SIZE);
    // the next silent frame completes it, across calls
    let segments = vd.process_classified(&frame_of(0), &[false]);
    assert_eq!(segments.len(), 1);
    assert_eq!(segments[0].len(), (3 + threshold) * FRAME_SIZE);
}

#[test]
fn two_utterances_give_two_independent_segments() {
    let threshold = SILENCE_THRESHOLD as usize;
    let mut values: Vec<i16> = Vec::new();
    let mut votes: Vec<bool> = Vec::new();
    // history, first utterance, silence of threshold + 3, second utterance, silence
    values.extend([1, 2]);
    votes.extend([false, false]);
    values.extend([10, 11, 12]);
    votes.extend([true, true, true]);
    values.extend(vec![20i16; threshold]);
    votes.extend(vec![false; threshold]);
    values.extend([31, 32, 33]);
    votes.extend([false, false, false]);
    values.extend([40, 41]);
    votes.extend([true, true]);
    values.extend(vec![50i16; threshold + 7]);
    votes.extend(vec![false; threshold + 7]);

    let mut vd = VoiceDetector::new();
    let segments = vd.process_classified(&frames(&values), &votes);
    assert_eq!(segments.len(), 2);

    let mut first: Vec<i16> = vec![1, 2, 10, 11, 12];
    first.extend(vec![20i16; threshold]);
    assert_eq!(segments[0], frames(&first));

    let mut second: Vec<i16> = vec![31, 32, 33, 40, 41];
    second.extend(vec![50i16; threshold]);
    assert_eq!(segments[1], frames(&second));
}

#[test]
fn walking_in_pieces_is_walking_at_once() {
    let threshold = SILENCE_THRESHOLD as usize;
    let mut values: Vec<i16> = (0..9).collect();
    values.extend(vec![0i16; threshold + 2]);
    values.extend([5, 6]);
    let mut votes = vec![false, false, false, false, false, false, true, true, true];
    votes.extend(vec![false; threshold + 2]);
    votes.extend([true, false]);
    let samples = frames(&values);

    let mut whole = VoiceDetector::new();
    let at_once = whole.process_classified(&samples, &votes);

    let mut pieces = VoiceDetector::new();
    let mut in_pieces = Vec::new();
    let cut = 13;
    in_pieces.extend(pieces.process_classified(&samples[..cut * FRAME_SIZE], &votes[..cut]));
    in_pieces.extend(pieces.process_classified(&samples[cut * FRAME_SIZE..], &votes[cut..]));

    assert_eq!(at_once, in_pieces);
    assert_eq!(at_once.len(), 1);
    assert_eq!(whole.is_speaking(), pieces.is_speaking());
    assert_eq!(whole.buffered_samples(), pieces.buffered_samples());
    assert_eq!(whole.pre_roll_samples(), pieces.pre_roll_samples());
}

#[test]
fn rejected_frames_count_as_silence() {
    assert!(vote_of(Some(true)));
    assert!(!vote_of(Some(false)));
    assert!(!vote_of(None));
}

#[test]
fn the_call_that_takes_the_closing_frame_hands_the_segment_out() {
    let threshold = SILENCE_THRESHOLD as usize;
    let (quiet, voiced, silence) = (3usize, 4usize, threshold + 6);
    let closing = quiet + voiced + threshold;
    let mut values: Vec<i16> = vec![1; quiet];
    values.extend(vec![2i16; voiced]);
    values.extend(vec![3i16; silence]);
    let mut votes = vec![false; quiet];
    votes.extend(vec![true; voiced]);
    votes.extend(vec![false; silence]);

    let mut expected: Vec<i16> = vec![1; quiet];
    expected.extend(vec![2i16; voiced]);
    expected.extend(vec![3i16; threshold]);
    let expected = frames(&expected);

    // frame by frame
    let mut vd = VoiceDetector::new();
    for i in 0..values.len() {
        let segments = vd.process_classified(&frame_of(values[i]), &[votes[i]]);
        if i + 1 == closing {
            assert_eq!(segments, vec![expected.clone()]);
            assert!(!vd.is_speaking());
        } else {
            assert!(segments.is_empty(), "frame {i}");
        }
    }

    // in calls of every size
    for size in 1..=values.len() {
        let mut vd = VoiceDetector::new();
        let mut start = 0;
        let mut handed_out = 0;
        while start < values.len() {
            let end = std::cmp::min(start + size, values.len());
            let segments = vd.process_classified(&frames(&values[start..end]), &votes[start..end]);
            if start < closing && closing <= end {
                assert_eq!(segments, vec![expected.clone()], "calls of {size}");
            } else {
                assert!(segments.is_empty(), "calls of {size}");
            }
            handed_out += segments.len();
            start = end;
        }
        assert_eq!(handed_out, 1);
        assert!(!vd.is_speaking());
    }
}

#[test]
fn segments_are_whole_frames() {
    let threshold = SILENCE_THRESHOLD as usize;
    let mut vd = VoiceDetector::new();
    let mut votes = vec![true];
    votes.extend(vec![false; threshold]);
    let segments = vd.process_classified(&vec![5i16; (threshold + 1) * FRAME_SIZE + 17], &votes);
    assert_eq!(segments.len(), 1);
    assert_eq!(segments[0].len(), (threshold + 1) * FRAME_SIZE);
    assert_eq!(segments[0].len() % FRAME_SIZE, 0);
}
