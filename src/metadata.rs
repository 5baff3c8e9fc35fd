//! Metadata blocks: a header of last-block flag, type and length, then a body
//! that is decoded for stream-info and Vorbis-comment blocks and skipped otherwise.
use vstd::prelude::*;

use crate::bits::{bit_len, bits_value, lemma_bits_value_bound, lemma_pow2_values, pow2, BitReader};
use crate::bytes::{le32, le_u32_at};
use crate::error::FlacError;

verus! {

/// The stream-wide parameters, from the first metadata block.
#[derive(Debug, Clone, Copy, PartialEq, Eq, Structural)]
pub struct StreamInfo {
    pub min_block_size: u16,
    pub max_block_size: u16,
    pub min_frame_size: u32,
    pub max_frame_size: u32,
    pub sample_rate: u32,
    pub num_channels: u8,
    pub bits_per_sample: u8,
    pub total_samples: u64,
    /// The MD5 signature of the decoded audio, as a big-endian number.
    pub sig: u128,
}

/// The stream-info body at bit `p`, which must be 34 bytes long.
pub open spec fn stream_info_spec(data: Seq<u8>, p: int) -> Result<StreamInfo, FlacError> {
    let min_bs = bits_value(data, p, 16);
    let max_bs = bits_value(data, p + 16, 16);
    let bps = bits_value(data, p + 103, 5) + 1;
    if min_bs > max_bs || bps < 4 {
        Err(FlacError::MalformedMetadata)
    } else {
        Ok(
            StreamInfo {
                min_block_size: min_bs as u16,
                max_block_size: max_bs as u16,
                min_frame_size: bits_value(data, p + 32, 24) as u32,
                max_frame_size: bits_value(data, p + 56, 24) as u32,
                sample_rate: bits_value(data, p + 80, 20) as u32,
                num_channels: (bits_value(data, p + 100, 3) + 1) as u8,
                bits_per_sample: bps as u8,
                total_samples: bits_value(data, p + 108, 36) as u64,
                sig: (bits_value(data, p + 144, 64) * 0x1_0000_0000_0000_0000 + bits_value(
                    data,
                    p + 208,
                    64,
                )) as u128,
            },
        )
    }
}

/// The little-endian 32-bit value of bytes `i..i + 4`.
pub open spec fn le32_at(d: Seq<u8>, i: int) -> nat {
    le32(d[i], d[i + 1], d[i + 2], d[i + 3])
}

/// The first `k` length-prefixed comments from byte `b`, none reaching past byte `e`.
pub open spec fn comments_spec(d: Seq<u8>, b: int, e: int, k: nat) -> Result<
    (Seq<Seq<u8>>, int),
    FlacError,
>
    decreases k,
{
    if k == 0 {
        Ok((seq![], b))
    } else {
        match comments_spec(d, b, e, (k - 1) as nat) {
            Err(x) => Err(x),
            Ok((cs, p)) => if p + 4 > e {
                Err(FlacError::MalformedMetadata)
            } else {
                let n = le32_at(d, p);
                if p + 4 + n > e {
                    Err(FlacError::MalformedMetadata)
                } else {
                    Ok((cs.push(d.subrange(p + 4, p + 4 + n)), p + 4 + n))
                }
            },
        }
    }
}

/// A Vorbis-comment body in bytes `b..e`: the vendor string and the comments.
pub open spec fn vorbis_spec(d: Seq<u8>, b: int, e: int) -> Result<(Seq<u8>, Seq<Seq<u8>>), FlacError> {
    if b + 4 > e {
        Err(FlacError::MalformedMetadata)
    } else {
        let vn = le32_at(d, b);
        if b + 4 + vn + 4 > e {
            Err(FlacError::MalformedMetadata)
        } else {
            match comments_spec(d, b + 8 + vn, e, le32_at(d, b + 4 + vn)) {
                Err(x) => Err(x),
                Ok((cs, _p)) => Ok((d.subrange(b + 4, b + 4 + vn), cs)),
            }
        }
    }
}

/// The decoded body of a metadata block.
pub enum BlockType {
    StreamInfo(StreamInfo),
    /// Padding of the given number of bytes.
    Padding(u32),
    Application,
    Seektable,
    VorbisComment { vendor_string: Vec<u8>, comments: Vec<Vec<u8>> },
    Picture,
    Other,
}

/// What a metadata block body holds, with byte strings as sequences.
pub enum BlockTypeView {
    StreamInfo(StreamInfo),
    Padding(u32),
    Application,
    Seektable,
    VorbisComment(Seq<u8>, Seq<Seq<u8>>),
    Picture,
    Other,
}

impl View for BlockType {
    type V = BlockTypeView;

    open spec fn view(&self) -> BlockTypeView {
        match self {
            BlockType::StreamInfo(s) => BlockTypeView::StreamInfo(*s),
            BlockType::Padding(n) => BlockTypeView::Padding(*n),
            BlockType::Application => BlockTypeView::Application,
            BlockType::Seektable => BlockTypeView::Seektable,
            BlockType::VorbisComment { vendor_string, comments } => BlockTypeView::VorbisComment(
                vendor_string@,
                Seq::new(comments@.len(), |i: int| comments@[i]@),
            ),
            BlockType::Picture => BlockTypeView::Picture,
            BlockType::Other => BlockTypeView::Other,
        }
    }
}

/// One metadata block.
pub struct Block {
    /// Whether this is the last block before the audio frames.
    pub last_meta: bool,
    /// Length of the body in bytes.
    pub length: u32,
    pub type_data: BlockType,
}

/// The metadata block at bit `pos`: its last-block flag, length, body, and the position after it.
#[verifier::opaque]
pub open spec fn block_spec(data: Seq<u8>, pos: int) -> Result<(bool, u32, BlockTypeView, int), FlacError> {
    if pos + 32 > bit_len(data) {
        Err(FlacError::UnexpectedEnd)
    } else {
        let last = bits_value(data, pos, 1) == 1;
        let typ = bits_value(data, pos + 1, 7);
        let length = bits_value(data, pos + 8, 24);
        let p = pos + 32;
        let end = p + 8 * length;
        if end > bit_len(data) {
            Err(FlacError::UnexpectedEnd)
        } else {
            let body: Result<BlockTypeView, FlacError> = if typ == 0 {
                if length != 34 {
                    Err(FlacError::MalformedMetadata)
                } else {
                    match stream_info_spec(data, p) {
                        Err(e) => Err(e),
                        Ok(si) => Ok(BlockTypeView::StreamInfo(si)),
                    }
                }
            } else if typ == 1 {
                Ok(BlockTypeView::Padding(length as u32))
            } else if typ == 2 {
                Ok(BlockTypeView::Application)
            } else if typ == 3 {
                Ok(BlockTypeView::Seektable)
            } else if typ == 4 {
                match vorbis_spec(data, p / 8, end / 8) {
                    Err(e) => Err(e),
                    Ok((v, cs)) => Ok(BlockTypeView::VorbisComment(v, cs)),
                }
            } else if typ == 5 {
                Ok(BlockTypeView::Picture)
            } else {
                Ok(BlockTypeView::Other)
            };
            match body {
                Err(e) => Err(e),
                Ok(b) => Ok((last, length as u32, b, end)),
            }
        }
    }
}

fn read_stream_info(r: &mut BitReader) -> (res: Result<StreamInfo, FlacError>)
    requires
        old(r).wf(),
        old(r).pos + 272 <= bit_len(old(r).data@),
    ensures
        final(r).wf(),
        final(r).data@ == old(r).data@,
        res == stream_info_spec(old(r).data@, old(r).pos as int),
        res is Ok ==> res->Ok_0.bits_per_sample <= 32,
{
    let ghost data = r.data@;
    let ghost p = r.pos as int;
    proof {
        lemma_bits_value_bound(data, p, 16);
        lemma_bits_value_bound(data, p + 16, 16);
        lemma_bits_value_bound(data, p + 32, 24);
        lemma_bits_value_bound(data, p + 56, 24);
        lemma_bits_value_bound(data, p + 80, 20);
        lemma_bits_value_bound(data, p + 100, 3);
        lemma_bits_value_bound(data, p + 103, 5);
        lemma_bits_value_bound(data, p + 108, 36);
        lemma_bits_value_bound(data, p + 144, 64);
        lemma_bits_value_bound(data, p + 208, 64);
        lemma_pow2_values();
        assert(pow2(24) == 0x100_0000 && pow2(20) == 0x10_0000 && pow2(36) == 0x10_0000_0000 && pow2(64)
            == 0x1_0000_0000_0000_0000) by {
            reveal_with_fuel(pow2, 65);
        }
    }
    let min_bs = r.read_bits(16)?;
    let max_bs = r.read_bits(16)?;
    let min_fs = r.read_bits(24)?;
    let max_fs = r.read_bits(24)?;
    let rate = r.read_bits(20)?;
    let ch = r.read_bits(3)?;
    let bps = r.read_bits(5)? + 1;
    let total = r.read_bits(36)?;
    let hi = r.read_bits(64)?;
    let lo = r.read_bits(64)?;
    if min_bs > max_bs || bps < 4 {
        return Err(FlacError::MalformedMetadata);
    }
    proof {
        assert(hi * 0x1_0000_0000_0000_0000 + lo <= u128::MAX) by (nonlinear_arith)
            requires
                hi < 0x1_0000_0000_0000_0000,
                lo < 0x1_0000_0000_0000_0000,
        ;
    }
    Ok(
        StreamInfo {
            min_block_size: min_bs as u16,
            max_block_size: max_bs as u16,
            min_frame_size: min_fs as u32,
            max_frame_size: max_fs as u32,
            sample_rate: rate as u32,
            num_channels: (ch + 1) as u8,
            bits_per_sample: bps as u8,
            total_samples: total,
            sig: (hi as u128) * 0x1_0000_0000_0000_0000 + lo as u128,
        },
    )
}

fn copy_bytes(d: &Vec<u8>, from: usize, to: usize) -> (r: Vec<u8>)
    requires
        from <= to <= d.len(),
    ensures
        r@ == d@.subrange(from as int, to as int),
{
    let mut out: Vec<u8> = Vec::new();
    let mut i: usize = from;
    while i < to
        invariant
            from <= i <= to <= d.len(),
            out@ =~= d@.subrange(from as int, i as int),
        decreases to - i,
    {
        out.push(d[i]);
        i = i + 1;
    }
    out
}

proof fn lemma_comments_err(d: Seq<u8>, b: int, e: int, i: nat, n: nat)
    requires
        i <= n,
        comments_spec(d, b, e, i) is Err,
    ensures
        comments_spec(d, b, e, n) == comments_spec(d, b, e, i),
    decreases n - i,
{
    if i < n {
        lemma_comments_err(d, b, e, i, (n - 1) as nat);
    }
}

/// The views of a list of byte strings.
pub open spec fn byte_views(v: Seq<Vec<u8>>) -> Seq<Seq<u8>> {
    Seq::new(v.len(), |i: int| v[i]@)
}

/// Decodes a Vorbis-comment body held in bytes `b..e` of `d`.
fn read_vorbis(d: &Vec<u8>, b: usize, e: usize) -> (res: Result<(Vec<u8>, Vec<Vec<u8>>), FlacError>)
    requires
        b <= e <= d.len(),
    ensures
        match vorbis_spec(d@, b as int, e as int) {
            Ok((v, cs)) => res is Ok && res->Ok_0.0@ == v && byte_views(res->Ok_0.1@) == cs,
            Err(x) => res is Err && res->Err_0 == x,
        },
{
    if e - b < 4 {
        return Err(FlacError::MalformedMetadata);
    }
    let vn = le_u32_at(d.as_slice(), b) as usize;
    if e - b - 4 < vn || e - b - 4 - vn < 4 {
        return Err(FlacError::MalformedMetadata);
    }
    let vendor = copy_bytes(d, b + 4, b + 4 + vn);
    let count = le_u32_at(d.as_slice(), b + 4 + vn);
    let mut p: usize = b + 8 + vn;
    let mut comments: Vec<Vec<u8>> = Vec::new();
    let mut i: u32 = 0;
    proof {
        assert(byte_views(comments@) =~= seq![]);
    }
    while i < count
        invariant
            b <= e <= d.len(),
            p <= e,
            i <= count,
            vn == le32_at(d@, b as int),
            count == le32_at(d@, b + 4 + vn),
            b + 4 + vn + 4 <= e,
            vendor@ == d@.subrange(b + 4, b + 4 + vn),
            comments_spec(d@, (b + 8 + vn) as int, e as int, i as nat) == Ok::<
                (Seq<Seq<u8>>, int),
                FlacError,
            >((byte_views(comments@), p as int)),
        decreases count - i,
    {
        if e - p < 4 {
            proof {
                lemma_comments_err(d@, (b + 8 + vn) as int, e as int, (i + 1) as nat, count as nat);
            }
            return Err(FlacError::MalformedMetadata);
        }
        let n = le_u32_at(d.as_slice(), p) as usize;
        if e - p - 4 < n {
            proof {
                lemma_comments_err(d@, (b + 8 + vn) as int, e as int, (i + 1) as nat, count as nat);
            }
            return Err(FlacError::MalformedMetadata);
        }
        let c = copy_bytes(d, p + 4, p + 4 + n);
        let ghost before = comments@;
        comments.push(c);
        proof {
            assert(byte_views(comments@) =~= byte_views(before).push(c@));
        }
        p = p + 4 + n;
        i = i + 1;
    }
    Ok((vendor, comments))
}

impl Block {
    /// Reads one metadata block, which starts at a byte boundary.
    pub fn parse(r: &mut BitReader) -> (res: Result<Block, FlacError>)
        requires
            old(r).wf(),
            old(r).pos % 8 == 0,
        ensures
            final(r).wf(),
            final(r).data@ == old(r).data@,
            match block_spec(old(r).data@, old(r).pos as int) {
                Ok((last, length, body, end)) => res is Ok && res->Ok_0.last_meta == last
                    && res->Ok_0.length == length && res->Ok_0.type_data@ == body && final(r).pos
                    == end,
                Err(e) => res is Err && res->Err_0 == e,
            },
            res is Ok ==> final(r).pos > old(r).pos && final(r).pos % 8 == 0,
            res is Ok ==> match res->Ok_0.type_data {
                BlockType::StreamInfo(si) => si.bits_per_sample <= 32,
                _ => true,
            },
    {
        reveal(block_spec);
        let ghost data = r.data@;
        let ghost pos = r.pos as int;
        if r.data.len() * 8 - r.pos < 32 {
            return Err(FlacError::UnexpectedEnd);
        }
        proof {
            lemma_bits_value_bound(data, pos, 1);
            lemma_bits_value_bound(data, pos + 1, 7);
            lemma_bits_value_bound(data, pos + 8, 24);
            lemma_pow2_values();
            assert(pow2(24) == 0x100_0000) by {
                reveal_with_fuel(pow2, 25);
            }
        }
        let last = r.read_bits(1)?;
        let typ = r.read_bits(7)?;
        let length = r.read_bits(24)?;
        let p = r.pos;
        if (r.data.len() * 8 - p) / 8 < length as usize {
            return Err(FlacError::UnexpectedEnd);
        }
        let end = p + 8 * (length as usize);
        let type_data = if typ == 0 {
            if length != 34 {
                return Err(FlacError::MalformedMetadata);
            }
            BlockType::StreamInfo(read_stream_info(r)?)
        } else if typ == 1 {
            BlockType::Padding(length as u32)
        } else if typ == 2 {
            BlockType::Application
        } else if typ == 3 {
            BlockType::Seektable
        } else if typ == 4 {
            let (vendor_string, comments) = read_vorbis(&r.data, p / 8, end / 8)?;
            BlockType::VorbisComment { vendor_string, comments }
        } else if typ == 5 {
            BlockType::Picture
        } else {
            BlockType::Other
        };
        r.pos = end;
        Ok(Block { last_meta: last == 1, length: length as u32, type_data })
    }
}

} // verus!
