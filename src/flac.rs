//! The stream driver: the `fLaC` marker, the metadata blocks up to the one
//! flagged last, then frames until the input ends.
use vstd::prelude::*;

use crate::bits::{bit_len, BitReader};
use crate::error::FlacError;
use crate::frame::{frame_spec, views, Frame};
use crate::header::{ChecksumPolicy, FrameHeader};
use crate::metadata::{block_spec, Block, BlockType, BlockTypeView, StreamInfo};

verus! {

/// The four bytes that open a FLAC stream.
pub open spec fn magic_ok(data: Seq<u8>) -> bool {
    &&& data.len() >= 4
    &&& data[0] == 0x66u8
    &&& data[1] == 0x4Cu8
    &&& data[2] == 0x61u8
    &&& data[3] == 0x43u8
}

/// A decoding failure and where it happened: the byte offset of the metadata
/// block or frame being decoded, and the frame's index when it was a frame.
#[derive(Debug, Clone, Copy, PartialEq, Eq)]
pub struct DecodeError {
    pub kind: FlacError,
    pub byte_offset: usize,
    pub frame_index: Option<usize>,
}

/// A failure as the specification of a stream states it.
pub type ErrorAt = (FlacError, usize, Option<usize>);

/// What a metadata block holds: its last-block flag, length and body.
pub type BlockSummary = (bool, u32, BlockTypeView);

/// What a decoded frame holds: its header, output channels and whether its footer matched.
pub type FrameSummary = (FrameHeader, Seq<Seq<int>>, bool);

/// The metadata blocks from `pos` up to the one flagged last, and the position after it.
#[verifier::opaque]
pub open spec fn blocks_spec(data: Seq<u8>, pos: int) -> Result<(Seq<BlockSummary>, int), ErrorAt>
    decreases bit_len(data) - pos,
{
    match block_spec(data, pos) {
        Err(e) => Err((e, (pos / 8) as usize, None)),
        Ok((last, len, body, end)) => if last {
            Ok((seq![(last, len, body)], end))
        } else if end <= pos || end > bit_len(data) {
            Err((FlacError::MalformedMetadata, (pos / 8) as usize, None))
        } else {
            match blocks_spec(data, end) {
                Err(e) => Err(e),
                Ok((rest, e2)) => Ok((seq![(last, len, body)] + rest, e2)),
            }
        },
    }
}

/// The frames from `pos` to the end of the input, the first of them numbered `index`.
#[verifier::opaque]
pub open spec fn frames_spec(
    data: Seq<u8>,
    pos: int,
    rate: u32,
    bps: u8,
    policy: ChecksumPolicy,
    index: nat,
) -> Result<Seq<FrameSummary>, ErrorAt>
    decreases bit_len(data) - pos,
{
    if pos >= bit_len(data) {
        Ok(seq![])
    } else {
        match frame_spec(data, pos, rate, bps, policy) {
            Err(e) => Err((e, (pos / 8) as usize, Some(index as usize))),
            Ok((h, chans, ok, end)) => if end <= pos || end > bit_len(data) {
                Err((FlacError::TruncatedStream, (pos / 8) as usize, Some(index as usize)))
            } else {
                match frames_spec(data, end, rate, bps, policy, index + 1) {
                    Err(e) => Err(e),
                    Ok(rest) => Ok(seq![(h, chans, ok)] + rest),
                }
            },
        }
    }
}

/// The whole stream: its stream info, metadata blocks and frames.
pub open spec fn flac_spec(data: Seq<u8>, policy: ChecksumPolicy) -> Result<
    (StreamInfo, Seq<BlockSummary>, Seq<FrameSummary>),
    ErrorAt,
> {
    if !magic_ok(data) {
        Err((FlacError::BadMagic, 0, None))
    } else {
        match blocks_spec(data, 32) {
            Err(e) => Err(e),
            Ok((bs, p)) => match bs[0].2 {
                BlockTypeView::StreamInfo(si) => match frames_spec(
                    data,
                    p,
                    si.sample_rate,
                    si.bits_per_sample,
                    policy,
                    0,
                ) {
                    Err(e) => Err(e),
                    Ok(fs) => Ok((si, bs, fs)),
                },
                _ => Err((FlacError::MissingStreamInfo, 4, None)),
            },
        }
    }
}

pub open spec fn block_summaries(v: Seq<Block>) -> Seq<BlockSummary> {
    Seq::new(v.len(), |i: int| (v[i].last_meta, v[i].length, v[i].type_data@))
}

pub open spec fn frame_summaries(v: Seq<Frame>) -> Seq<FrameSummary> {
    Seq::new(v.len(), |i: int| (v[i].header, views(v[i].channels@), v[i].crc_ok))
}

/// A decoded FLAC stream.
pub struct Flac {
    pub stream_info: StreamInfo,
    pub blocks: Vec<Block>,
    pub frames: Vec<Frame>,
}

proof fn lemma_blocks_unfold(data: Seq<u8>, pos: int)
    ensures
        blocks_spec(data, pos) == match block_spec(data, pos) {
            Err(e) => Err((e, (pos / 8) as usize, None)),
            Ok((last, len, body, end)) => if last {
                Ok((seq![(last, len, body)], end))
            } else if end <= pos || end > bit_len(data) {
                Err((FlacError::MalformedMetadata, (pos / 8) as usize, None))
            } else {
                match blocks_spec(data, end) {
                    Err(e) => Err(e),
                    Ok((rest, e2)) => Ok::<(Seq<BlockSummary>, int), ErrorAt>(
                        (seq![(last, len, body)] + rest, e2),
                    ),
                }
            },
        },
{
    reveal(blocks_spec);
}

proof fn lemma_frames_unfold(
    data: Seq<u8>,
    pos: int,
    rate: u32,
    bps: u8,
    policy: ChecksumPolicy,
    index: nat,
)
    ensures
        frames_spec(data, pos, rate, bps, policy, index) == if pos >= bit_len(data) {
            Ok(seq![])
        } else {
            match frame_spec(data, pos, rate, bps, policy) {
                Err(e) => Err((e, (pos / 8) as usize, Some(index as usize))),
                Ok((h, chans, ok, end)) => if end <= pos || end > bit_len(data) {
                    Err((FlacError::TruncatedStream, (pos / 8) as usize, Some(index as usize)))
                } else {
                    match frames_spec(data, end, rate, bps, policy, index + 1) {
                        Err(e) => Err(e),
                        Ok(rest) => Ok::<Seq<FrameSummary>, ErrorAt>(seq![(h, chans, ok)] + rest),
                    }
                },
            }
        },
{
    reveal(frames_spec);
}

impl Flac {
    /// Decodes a whole FLAC stream held in `data`.
    #[verifier::loop_isolation(false)]
    pub fn parse(data: Vec<u8>, policy: ChecksumPolicy) -> (res: Result<Flac, DecodeError>)
        requires
            data@.len() * 8 <= usize::MAX,
        ensures
            match flac_spec(data@, policy) {
                Ok((si, bs, fs)) => res is Ok && res->Ok_0.stream_info == si && block_summaries(
                    res->Ok_0.blocks@,
                ) == bs && frame_summaries(res->Ok_0.frames@) == fs,
                Err(e) => res is Err && (res->Err_0.kind, res->Err_0.byte_offset,
                res->Err_0.frame_index) == e,
            },
    {
        let ghost d = data@;
        if data.len() < 4 || data[0] != 0x66u8 || data[1] != 0x4Cu8 || data[2] != 0x61u8 || data[3]
            != 0x43u8 {
            return Err(DecodeError { kind: FlacError::BadMagic, byte_offset: 0, frame_index: None });
        }
        let mut r = BitReader::new(data);
        r.pos = 32;
        let mut blocks: Vec<Block> = Vec::new();
        let mut done = false;
        while !done
            invariant
                r.wf(),
                r.data@ == d,
                r.pos % 8 == 0,
                magic_ok(d),
                !done ==> blocks_spec(d, 32) == match blocks_spec(d, r.pos as int) {
                    Err(e) => Err(e),
                    Ok((rest, e2)) => Ok::<(Seq<BlockSummary>, int), ErrorAt>(
                        (block_summaries(blocks@) + rest, e2),
                    ),
                },
                done ==> blocks_spec(d, 32) == Ok::<(Seq<BlockSummary>, int), ErrorAt>(
                    (block_summaries(blocks@), r.pos as int),
                ),
                done ==> blocks@.len() > 0,
                forall|i: int|
                    0 <= i < blocks@.len() ==> match (#[trigger] blocks@[i]).type_data {
                        BlockType::StreamInfo(si) => si.bits_per_sample <= 32,
                        _ => true,
                    },
            decreases bit_len(d) - r.pos,
        {
            let ghost before = r.pos as int;
            proof {
                lemma_blocks_unfold(d, before);
            }
            let offset = r.pos / 8;
            let b = match Block::parse(&mut r) {
                Ok(b) => b,
                Err(e) => {
                    return Err(DecodeError { kind: e, byte_offset: offset, frame_index: None });
                },
            };
            let last = b.last_meta;
            let ghost prev = blocks@;
            blocks.push(b);
            proof {
                let item = (
                    blocks@[prev.len() as int].last_meta,
                    blocks@[prev.len() as int].length,
                    blocks@[prev.len() as int].type_data@,
                );
                assert(block_summaries(blocks@) =~= block_summaries(prev).push(item));
                assert forall|rest: Seq<BlockSummary>|
                    #![auto]
                    block_summaries(prev) + (seq![item] + rest) == block_summaries(blocks@) + rest by {
                    assert(block_summaries(prev) + (seq![item] + rest) =~= block_summaries(blocks@)
                        + rest);
                }
                assert(block_summaries(prev) + seq![item] =~= block_summaries(blocks@));
            }
            if last {
                done = true;
            }
        }
        let si = match blocks[0].type_data {
            BlockType::StreamInfo(si) => si,
            _ => {
                return Err(
                    DecodeError { kind: FlacError::MissingStreamInfo, byte_offset: 4, frame_index: None },
                );
            },
        };
        let mut frames: Vec<Frame> = Vec::new();
        let ghost p_frames = r.pos as int;
        proof {
            assert(block_summaries(blocks@)[0].2 == blocks@[0].type_data@);
            assert(frame_summaries(frames@) + frames_spec(
                d,
                p_frames,
                si.sample_rate,
                si.bits_per_sample,
                policy,
                0,
            )->Ok_0 =~= frames_spec(d, p_frames, si.sample_rate, si.bits_per_sample, policy, 0)->Ok_0);
        }
        while r.pos < r.data.len() * 8
            invariant
                r.wf(),
                r.data@ == d,
                r.pos % 8 == 0,
                si.bits_per_sample <= 32,
                p_frames <= r.pos,
                magic_ok(d),
                blocks_spec(d, 32) == Ok::<(Seq<BlockSummary>, int), ErrorAt>(
                    (block_summaries(blocks@), p_frames),
                ),
                blocks@.len() > 0,
                block_summaries(blocks@)[0].2 == BlockTypeView::StreamInfo(si),
                frames@.len() <= r.pos,
                frames_spec(d, p_frames, si.sample_rate, si.bits_per_sample, policy, 0)
                    == match frames_spec(
                    d,
                    r.pos as int,
                    si.sample_rate,
                    si.bits_per_sample,
                    policy,
                    frames@.len(),
                ) {
                    Err(e) => Err(e),
                    Ok(rest) => Ok::<Seq<FrameSummary>, ErrorAt>(frame_summaries(frames@) + rest),
                },
            decreases bit_len(d) - r.pos,
        {
            let ghost before = r.pos as int;
            proof {
                lemma_frames_unfold(
                    d,
                    before,
                    si.sample_rate,
                    si.bits_per_sample,
                    policy,
                    frames@.len(),
                );
            }
            let offset = r.pos / 8;
            let index = frames.len();
            let f = match Frame::parse(&mut r, si.sample_rate, si.bits_per_sample, policy) {
                Ok(f) => f,
                Err(e) => {
                    return Err(DecodeError { kind: e, byte_offset: offset, frame_index: Some(index) });
                },
            };
            let ghost prev = frames@;
            frames.push(f);
            proof {
                let item = (
                    frames@[prev.len() as int].header,
                    views(frames@[prev.len() as int].channels@),
                    frames@[prev.len() as int].crc_ok,
                );
                assert(frame_summaries(frames@) =~= frame_summaries(prev).push(item));
                assert forall|rest: Seq<FrameSummary>|
                    #![auto]
                    frame_summaries(prev) + (seq![item] + rest) == frame_summaries(frames@) + rest by {
                    assert(frame_summaries(prev) + (seq![item] + rest) =~= frame_summaries(frames@)
                        + rest);
                }
            }
        }
        proof {
            lemma_frames_unfold(
                d,
                r.pos as int,
                si.sample_rate,
                si.bits_per_sample,
                policy,
                frames@.len(),
            );
            assert(frame_summaries(frames@) + seq![] =~= frame_summaries(frames@));
        }
        Ok(Flac { stream_info: si, blocks, frames })
    }
}

} // verus!
