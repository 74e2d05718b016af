//! Capture parameters, and the plan by which captured audio is brought to
//! the mono 16 kHz stream that the segmenter consumes.
//!
//! The interpolation itself works on floating-point samples and is left to
//! the caller; what is decided here is when audio passes through untouched,
//! how it is cut into blocks for the interpolator, and how much of a block's
//! output belongs to the stream.

use vstd::prelude::*;

verus! {

/// Sample rate, in Hz, of the stream that the segmenter consumes.
pub const TARGET_RATE: u32 = 16000;

/// Input frames that the interpolator takes at a time.
pub const BLOCK_FRAMES: usize = 1024;

/// What the capture device delivers.
#[derive(Debug, Clone, Copy, PartialEq, Eq, Structural)]
pub struct CaptureConfig {
    pub sample_rate: u32,
    pub channels: u16,
}

/// How captured audio reaches the target rate.
#[derive(Debug, Clone, Copy, PartialEq, Eq, Structural)]
pub enum Resampling {
    /// The audio is mono at the target rate already: it is copied through.
    Passthrough,
    /// The audio is mixed down to mono and interpolated.
    Interpolate { source_rate: u32, target_rate: u32, channels: u16 },
}

/// Why no plan can be made.
#[derive(Debug, Clone, Copy, PartialEq, Eq, Structural)]
pub enum PlanError {
    /// A rate of zero, or no channel at all.
    InvalidFormat,
}

/// True when captured audio is mono at the wanted rate.
pub open spec fn is_passthrough(source_rate: u32, target_rate: u32, channels: u16) -> bool {
    source_rate == target_rate && channels == 1
}

/// The plan for a capture format.
pub open spec fn plan_for(source_rate: u32, target_rate: u32, channels: u16) -> Result<
    Resampling,
    PlanError,
> {
    if is_passthrough(source_rate, target_rate, channels) {
        Ok(Resampling::Passthrough)
    } else if source_rate == 0 || target_rate == 0 || channels == 0 {
        Err(PlanError::InvalidFormat)
    } else {
        Ok(Resampling::Interpolate { source_rate, target_rate, channels })
    }
}

/// Decides how audio captured at `source_rate` with `channels` channels is
/// brought to mono at `target_rate`.
pub fn plan_resampling(source_rate: u32, target_rate: u32, channels: u16) -> (r: Result<
    Resampling,
    PlanError,
>)
    ensures
        r == plan_for(source_rate, target_rate, channels),
{
    if source_rate == target_rate && channels == 1 {
        Ok(Resampling::Passthrough)
    } else if source_rate == 0 || target_rate == 0 || channels == 0 {
        Err(PlanError::InvalidFormat)
    } else {
        Ok(Resampling::Interpolate { source_rate, target_rate, channels })
    }
}

/// The identity transform of the passthrough plan: the input, sample for
/// sample.
pub fn passthrough(samples: &[i16]) -> (r: Vec<i16>)
    ensures
        r@ == samples@,
{
    let mut out: Vec<i16> = Vec::with_capacity(samples.len());
    let mut i: usize = 0;
    while i < samples.len()
        invariant
            i <= samples.len(),
            out@ == samples@.take(i as int),
        decreases samples.len() - i,
    {
        out.push(samples[i]);
        i += 1;
        assert(out@ =~= samples@.take(i as int));
    }
    assert(samples@.take(samples.len() as int) =~= samples@);
    out
}

/// Number of mono frames in `samples` interleaved samples: one for every
/// `channels` samples, and one more for what is left over.
pub open spec fn mono_frame_count(samples: nat, channels: nat) -> nat
    recommends
        channels > 0,
{
    (samples + channels - 1) as nat / channels
}

/// Counts the mono frames of an interleaved buffer.
pub fn mono_frames(samples: usize, channels: u16) -> (r: usize)
    requires
        channels > 0,
    ensures
        r == mono_frame_count(samples as nat, channels as nat),
{
    let c: usize = channels as usize;
    let whole: usize = samples / c;
    if samples % c == 0 {
        assert(whole == mono_frame_count(samples as nat, channels as nat)) by (nonlinear_arith)
            requires
                c > 0,
                c == channels,
                whole == samples / c,
                samples % c == 0,
        ;
        whole
    } else {
        assert(whole + 1 == mono_frame_count(samples as nat, channels as nat)) by (nonlinear_arith)
            requires
                c > 0,
                c == channels,
                whole == samples / c,
                samples % c != 0,
        ;
        assert(whole < samples) by (nonlinear_arith)
            requires
                c > 0,
                whole == samples / c,
                samples % c != 0,
        ;
        whole + 1
    }
}

/// One stretch of mono frames that goes through the interpolator together.
#[derive(Debug, Clone, Copy, PartialEq, Eq, Structural)]
pub struct Block {
    /// Index of the block's first frame.
    pub start: usize,
    /// Frames of input in the block; fewer than [`BLOCK_FRAMES`] only in the
    /// last block, which is filled up with silence.
    pub len: usize,
}

/// The block that starts at `offset` in a stream of `frames` frames.
pub open spec fn block_at(frames: nat, offset: nat) -> Option<Block> {
    if offset >= frames {
        None
    } else if frames - offset >= BLOCK_FRAMES {
        Some(Block { start: offset as usize, len: BLOCK_FRAMES })
    } else {
        Some(Block { start: offset as usize, len: (frames - offset) as usize })
    }
}

/// The block that starts at `offset`, or `None` behind the last one. The
/// next block starts at `start + len`.
pub fn next_block(frames: usize, offset: usize) -> (r: Option<Block>)
    ensures
        r == block_at(frames as nat, offset as nat),
{
    if offset >= frames {
        None
    } else if frames - offset >= BLOCK_FRAMES {
        Some(Block { start: offset, len: BLOCK_FRAMES })
    } else {
        Some(Block { start: offset, len: frames - offset })
    }
}

/// True when the block is shorter than the interpolator's input and has to
/// be filled up with silence.
pub fn needs_padding(block: &Block) -> (r: bool)
    ensures
        r == (block.len < BLOCK_FRAMES),
{
    block.len < BLOCK_FRAMES
}

/// The blocks of a stream of `frames` frames from `offset` on.
pub open spec fn blocks_from(frames: nat, offset: nat) -> Seq<Block>
    decreases frames - offset,
{
    match block_at(frames, offset) {
        None => Seq::empty(),
        Some(block) => seq![block] + blocks_from(frames, offset + block.len as nat),
    }
}

/// `input_frames * target_rate / source_rate`, rounded up.
pub open spec fn scaled_up(input_frames: nat, source_rate: nat, target_rate: nat) -> nat
    recommends
        source_rate > 0,
{
    (input_frames * target_rate + source_rate - 1) as nat / source_rate
}

/// How many of the `produced` output samples of a block belong to the
/// stream: all of a full block; of a block that was filled up, only the
/// share of its real input, rounded up. Without a source rate there is no
/// share to take, and all are kept.
pub open spec fn kept_of(block_len: nat, produced: nat, source_rate: nat, target_rate: nat) -> nat {
    if block_len >= BLOCK_FRAMES || source_rate == 0 {
        produced
    } else if scaled_up(block_len, source_rate, target_rate) < produced {
        scaled_up(block_len, source_rate, target_rate)
    } else {
        produced
    }
}

/// Number of leading output samples of a block to keep.
pub fn kept_outputs(block: &Block, produced: usize, source_rate: u32, target_rate: u32) -> (r:
    usize)
    ensures
        r == kept_of(block.len as nat, produced as nat, source_rate as nat, target_rate as nat),
        r <= produced,
{
    if block.len >= BLOCK_FRAMES || source_rate == 0 {
        return produced;
    }
    let len: u64 = block.len as u64;
    assert(len * (target_rate as u64) <= 1023 * 0xFFFF_FFFF) by (nonlinear_arith)
        requires
            len <= 1023,
            target_rate <= 0xFFFF_FFFF,
    ;
    let scaled: u64 = (len * (target_rate as u64) + (source_rate as u64) - 1) / (
    source_rate as u64);
    if scaled < produced as u64 {
        scaled as usize
    } else {
        produced
    }
}

/// The blocks tile the stream: they follow one another without a gap, only
/// the last one can be short, and together they hold every frame once.
pub proof fn lemma_blocks_tile(frames: nat, offset: nat)
    requires
        offset <= frames,
        frames <= usize::MAX,
    ensures
        total_len(blocks_from(frames, offset)) == frames - offset,
        forall|i: int|
            0 <= i < blocks_from(frames, offset).len() - 1 ==> (#[trigger] blocks_from(
                frames,
                offset,
            )[i]).len == BLOCK_FRAMES,
        forall|i: int|
            0 <= i < blocks_from(frames, offset).len() ==> 0 < (#[trigger] blocks_from(
                frames,
                offset,
            )[i]).len <= BLOCK_FRAMES,
        blocks_from(frames, offset).len() > 0 ==> blocks_from(frames, offset)[0].start == offset,
        forall|i: int|
            0 <= i < blocks_from(frames, offset).len() - 1 ==> (#[trigger] blocks_from(
                frames,
                offset,
            )[i + 1]).start == blocks_from(frames, offset)[i].start + blocks_from(
                frames,
                offset,
            )[i].len,
    decreases frames - offset,
{
    match block_at(frames, offset) {
        None => {},
        Some(block) => {
            let next = offset + block.len as nat;
            let rest = blocks_from(frames, next);
            let all = blocks_from(frames, offset);
            lemma_blocks_tile(frames, next);
            assert(all =~= seq![block] + rest);
            assert(all.drop_first() =~= rest);
            assert forall|i: int| 0 <= i < all.len() - 1 implies (#[trigger] all[i]).len
                == BLOCK_FRAMES by {
                if i > 0 {
                    assert(all[i] == rest[i - 1]);
                } else {
                    assert(rest.len() > 0);
                    assert(next < frames);
                }
            }
            assert forall|i: int| 0 <= i < all.len() implies 0 < (#[trigger] all[i]).len
                <= BLOCK_FRAMES by {
                if i > 0 {
                    assert(all[i] == rest[i - 1]);
                }
            }
            assert forall|i: int| 0 <= i < all.len() - 1 implies (#[trigger] all[i + 1]).start
                == all[i].start + all[i].len by {
                if i > 0 {
                    assert(all[i] == rest[i - 1]);
                    assert(all[i + 1] == rest[i - 1 + 1]);
                } else {
                    assert(all[1] == rest[0]);
                }
            }
        },
    }
}

/// Frames of input in `blocks`, all together.
pub open spec fn total_len(blocks: Seq<Block>) -> nat
    decreases blocks.len(),
{
    if blocks.len() == 0 {
        0
    } else {
        blocks[0].len as nat + total_len(blocks.drop_first())
    }
}

} // verus!
