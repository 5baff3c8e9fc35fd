//! Frame headers: the sync word, the coded fields and their lookup tables,
//! the variable-length frame or sample number, and the header checksum.
use vstd::prelude::*;

use crate::bits::{bit_len, bits_value, pow2, BitReader, lemma_bits_value_bound, lemma_pow2_add, lemma_pow2_monotonic};
use crate::crc::{crc8, crc8_range};
use crate::error::FlacError;

verus! {

/// The fourteen bits every frame starts with.
pub const SYNC_CODE: u64 = 0x3FFE;

/// What to do when a stored checksum disagrees with the bytes read.
#[derive(Debug, Clone, Copy, PartialEq, Eq, Structural)]
pub enum ChecksumPolicy {
    /// Fail with `ChecksumMismatch`.
    Strict,
    /// Go on, and record the mismatch in the decoded value.
    Lenient,
}

/// Whether a frame carries its frame number or its first sample's number.
#[derive(Debug, Clone, Copy, PartialEq, Eq, Structural)]
pub enum BlockStrategy {
    FixedBlocksize,
    VariableBlocksize,
}

/// Channel assignment of a frame: a speaker layout, or a decorrelated stereo pair.
#[derive(Debug, Clone, Copy, PartialEq, Eq, Structural)]
pub enum Channels {
    Mono,
    LR,
    LRC,
    FlFrBlBr,
    FlFrFcBlBr,
    FlFrFcLFEBlBr,
    FlFrFcLFEBcSlSr,
    FlFrFcLFEBlBrSlSr,
    /// Left and side.
    LS,
    /// Side and right.
    SR,
    /// Mid and side.
    MS,
}

pub open spec fn channel_count(c: Channels) -> nat {
    match c {
        Channels::Mono => 1,
        Channels::LR => 2,
        Channels::LRC => 3,
        Channels::FlFrBlBr => 4,
        Channels::FlFrFcBlBr => 5,
        Channels::FlFrFcLFEBlBr => 6,
        Channels::FlFrFcLFEBcSlSr => 7,
        Channels::FlFrFcLFEBlBrSlSr => 8,
        Channels::LS => 2,
        Channels::SR => 2,
        Channels::MS => 2,
    }
}

/// The channel assignment that a 4-bit code stands for; codes 11 to 15 are reserved.
pub open spec fn channels_of_code(code: nat) -> Option<Channels> {
    if code == 0 {
        Some(Channels::Mono)
    } else if code == 1 {
        Some(Channels::LR)
    } else if code == 2 {
        Some(Channels::LRC)
    } else if code == 3 {
        Some(Channels::FlFrBlBr)
    } else if code == 4 {
        Some(Channels::FlFrFcBlBr)
    } else if code == 5 {
        Some(Channels::FlFrFcLFEBlBr)
    } else if code == 6 {
        Some(Channels::FlFrFcLFEBcSlSr)
    } else if code == 7 {
        Some(Channels::FlFrFcLFEBlBrSlSr)
    } else if code == 8 {
        Some(Channels::LS)
    } else if code == 9 {
        Some(Channels::SR)
    } else if code == 10 {
        Some(Channels::MS)
    } else {
        None
    }
}

impl Channels {
    /// Number of channels of an assignment.
    pub fn channel_num(c: Channels) -> (r: u8)
        ensures
            r == channel_count(c),
    {
        match c {
            Channels::Mono => 1,
            Channels::LR => 2,
            Channels::LRC => 3,
            Channels::FlFrBlBr => 4,
            Channels::FlFrFcBlBr => 5,
            Channels::FlFrFcLFEBlBr => 6,
            Channels::FlFrFcLFEBcSlSr => 7,
            Channels::FlFrFcLFEBlBrSlSr => 8,
            Channels::LS => 2,
            Channels::SR => 2,
            Channels::MS => 2,
        }
    }

    /// The assignment that a 4-bit code stands for.
    pub fn from_code(code: u64) -> (r: Result<Channels, FlacError>)
        ensures
            r == match channels_of_code(code as nat) {
                Some(c) => Ok::<Channels, FlacError>(c),
                None => Err(FlacError::ReservedCodeUsed),
            },
    {
        match code {
            0 => Ok(Channels::Mono),
            1 => Ok(Channels::LR),
            2 => Ok(Channels::LRC),
            3 => Ok(Channels::FlFrBlBr),
            4 => Ok(Channels::FlFrFcBlBr),
            5 => Ok(Channels::FlFrFcLFEBlBr),
            6 => Ok(Channels::FlFrFcLFEBcSlSr),
            7 => Ok(Channels::FlFrFcLFEBlBrSlSr),
            8 => Ok(Channels::LS),
            9 => Ok(Channels::SR),
            10 => Ok(Channels::MS),
            _ => Err(FlacError::ReservedCodeUsed),
        }
    }
}

/// The byte whose eight bits start at bit `pos`.
pub open spec fn byte_at_bit(data: Seq<u8>, pos: int) -> nat {
    bits_value(data, pos, 8)
}

/// Number of continuation bytes that a lead byte announces, or -1 for a byte
/// that cannot lead.
pub open spec fn varint_extra(c0: nat) -> int {
    if c0 < 0x80 {
        0
    } else if c0 < 0xC0 {
        -1
    } else if c0 < 0xE0 {
        1
    } else if c0 < 0xF0 {
        2
    } else if c0 < 0xF8 {
        3
    } else if c0 < 0xFC {
        4
    } else if c0 < 0xFE {
        5
    } else if c0 < 0xFF {
        6
    } else {
        -1
    }
}

/// The payload bits of a lead byte with `l` continuation bytes.
pub open spec fn varint_lead_value(c0: nat, l: nat) -> nat {
    if l == 0 {
        c0
    } else {
        c0 % pow2((6 - l) as nat)
    }
}

/// Number of payload bits of an encoding with `l` continuation bytes.
pub open spec fn varint_bits(l: nat) -> nat {
    if l == 0 {
        7
    } else {
        5 * l + 6
    }
}

/// The value carried by the lead byte at `pos` and its first `k` continuation bytes.
pub open spec fn varint_value(data: Seq<u8>, pos: int, l: nat, k: nat) -> nat
    decreases k,
{
    if k == 0 {
        varint_lead_value(byte_at_bit(data, pos), l)
    } else {
        varint_value(data, pos, l, (k - 1) as nat) * 64 + byte_at_bit(data, pos + 8 * k) % 64
    }
}

/// Bytes `1..=l` after `pos` all have the form `10xxxxxx`.
pub open spec fn varint_conts_ok(data: Seq<u8>, pos: int, l: nat) -> bool {
    forall|j: int|
        1 <= j <= l ==> 0x80 <= #[trigger] byte_at_bit(data, pos + 8 * j) < 0xC0
}

/// The smallest value that needs `l` continuation bytes.
pub open spec fn varint_min(l: nat) -> nat {
    if l == 0 {
        0
    } else {
        pow2(varint_bits((l - 1) as nat))
    }
}

/// The frame or sample number at bit `pos`, and the position after it.
pub open spec fn varint_spec(data: Seq<u8>, pos: int) -> Result<(nat, int), FlacError> {
    if pos + 8 > bit_len(data) {
        Err(FlacError::UnexpectedEnd)
    } else {
        let l = varint_extra(byte_at_bit(data, pos));
        if l < 0 {
            Err(FlacError::MalformedVarint)
        } else if pos + 8 * (l + 1) > bit_len(data) {
            Err(FlacError::UnexpectedEnd)
        } else if !varint_conts_ok(data, pos, l as nat) {
            Err(FlacError::MalformedVarint)
        } else {
            let v = varint_value(data, pos, l as nat, l as nat);
            if v < varint_min(l as nat) {
                Err(FlacError::MalformedVarint)
            } else {
                Ok((v, pos + 8 * (l + 1)))
            }
        }
    }
}

proof fn lemma_varint_value_bound(data: Seq<u8>, pos: int, l: nat, k: nat)
    requires
        l <= 6,
        k <= l,
        varint_extra(byte_at_bit(data, pos)) == l as int,
    ensures
        varint_value(data, pos, l, k) < pow2(7 + 6 * k),
    decreases k,
{
    if k == 0 {
        let c0 = byte_at_bit(data, pos);
        lemma_bits_value_bound(data, pos, 8);
        if l > 0 {
            lemma_pow2_monotonic((6 - l) as nat, 7);
        }
        crate::bits::lemma_pow2_values();
        if l == 0 {
            assert(c0 < 0x80 || varint_extra(c0) != 0);
        }
    } else {
        lemma_varint_value_bound(data, pos, l, (k - 1) as nat);
        lemma_pow2_add((7 + 6 * (k - 1)) as nat, 6);
        crate::bits::lemma_pow2_values();
        assert((7 + 6 * (k - 1)) as nat + 6 == 7 + 6 * k);
        let a = varint_value(data, pos, l, (k - 1) as nat);
        let b = byte_at_bit(data, pos + 8 * k) % 64;
        let pp = pow2((7 + 6 * (k - 1)) as nat);
        assert(a * 64 + b < pp * 64) by (nonlinear_arith)
            requires
                a < pp,
                b < 64,
        ;
    }
}

#[verifier::rlimit(40)]
/// Reads a frame or sample number: a lead byte announcing up to six
/// continuation bytes of the form `10xxxxxx`, in the shortest form possible.
pub fn decode_utf8_val(r: &mut BitReader) -> (res: Result<u64, FlacError>)
    requires
        old(r).wf(),
    ensures
        final(r).wf(),
        final(r).data@ == old(r).data@,
        old(r).pos <= final(r).pos,
        res is Ok <==> varint_spec(old(r).data@, old(r).pos as int) is Ok,
        res is Ok ==> res->Ok_0 == varint_spec(old(r).data@, old(r).pos as int)->Ok_0.0
            && final(r).pos == varint_spec(old(r).data@, old(r).pos as int)->Ok_0.1,
        res is Err ==> res == Err::<u64, FlacError>(
            varint_spec(old(r).data@, old(r).pos as int)->Err_0,
        ),
{
    let ghost data = r.data@;
    let ghost pos = r.pos as int;
    let c0 = match r.read_bits(8) {
        Ok(c) => c,
        Err(e) => return Err(e),
    };
    proof {
        lemma_bits_value_bound(data, pos, 8);
        assert(pow2(8) == 256) by {
            reveal_with_fuel(pow2, 9);
        }
    }
    let (l, lead): (u64, u64) = if c0 < 0x80 {
        (0, c0)
    } else if c0 < 0xC0 {
        return Err(FlacError::MalformedVarint);
    } else if c0 < 0xE0 {
        (1, c0 % 32)
    } else if c0 < 0xF0 {
        (2, c0 % 16)
    } else if c0 < 0xF8 {
        (3, c0 % 8)
    } else if c0 < 0xFC {
        (4, c0 % 4)
    } else if c0 < 0xFE {
        (5, c0 % 2)
    } else if c0 < 0xFF {
        (6, 0)
    } else {
        return Err(FlacError::MalformedVarint);
    };
    proof {
        assert(pow2(5) == 32 && pow2(4) == 16 && pow2(3) == 8 && pow2(2) == 4 && pow2(1) == 2 && pow2(0) == 1)
            by {
            reveal_with_fuel(pow2, 6);
        }
        assert(varint_extra(c0 as nat) == l as int);
        assert(lead == varint_value(data, pos, l as nat, 0));
    }
    if (l as usize) * 8 > r.data.len() * 8 - r.pos {
        return Err(FlacError::UnexpectedEnd);
    }
    let mut n: u64 = lead;
    let mut j: u64 = 1;
    while j <= l
        invariant
            r.wf(),
            r.data@ == data,
            data == old(r).data@,
            pos == old(r).pos,
            1 <= j <= l + 1,
            l <= 6,
            varint_extra(byte_at_bit(data, pos)) == l as int,
            pos + 8 * (l + 1) <= bit_len(data),
            r.pos == pos + 8 * j,
            n == varint_value(data, pos, l as nat, (j - 1) as nat),
            forall|i: int| 1 <= i < j ==> 0x80 <= #[trigger] byte_at_bit(data, pos + 8 * i) < 0xC0,
        decreases l + 1 - j,
    {
        let c = match r.read_bits(8) {
            Ok(c) => c,
            Err(e) => return Err(e),
        };
        proof {
            lemma_bits_value_bound(data, pos + 8 * j, 8);
            assert(pow2(8) == 256) by {
                reveal_with_fuel(pow2, 9);
            }
        }
        if c < 0x80 || c >= 0xC0 {
            proof {
                assert(c == byte_at_bit(data, pos + 8 * j));
                assert(!varint_conts_ok(data, pos, l as nat));
            }
            return Err(FlacError::MalformedVarint);
        }
        proof {
            lemma_varint_value_bound(data, pos, l as nat, (j - 1) as nat);
            lemma_pow2_monotonic((7 + 6 * (j - 1)) as nat, 40);
            assert(pow2(40) == 0x100_0000_0000) by {
                reveal_with_fuel(pow2, 41);
            }
        }
        n = n * 64 + c % 64;
        j = j + 1;
    }
    proof {
        assert(varint_conts_ok(data, pos, l as nat));
        assert(pow2(7) == 0x80 && pow2(11) == 0x800 && pow2(16) == 0x10000 && pow2(21) == 0x200000
            && pow2(26) == 0x4000000 && pow2(31) == 0x80000000) by {
            reveal_with_fuel(pow2, 32);
        }
    }
    let min: u64 = if l == 0 {
        0
    } else if l == 1 {
        0x80
    } else if l == 2 {
        0x800
    } else if l == 3 {
        0x10000
    } else if l == 4 {
        0x200000
    } else if l == 5 {
        0x4000000
    } else {
        0x80000000
    };
    if n < min {
        return Err(FlacError::MalformedVarint);
    }
    Ok(n)
}

/// A frame or sample number is accepted only in its shortest form: when the
/// decoder takes `l` continuation bytes, the value does not fit in the payload
/// bits of any shorter encoding.
pub proof fn lemma_varint_canonical(data: Seq<u8>, pos: int, shorter: nat)
    requires
        varint_spec(data, pos) is Ok,
        shorter < (varint_spec(data, pos)->Ok_0.1 - pos) / 8 - 1,
    ensures
        varint_spec(data, pos)->Ok_0.0 >= pow2(varint_bits(shorter)),
{
    let l = varint_extra(byte_at_bit(data, pos));
    assert((pos + 8 * (l + 1) - pos) / 8 - 1 == l) by (nonlinear_arith);
    let lm1 = (l - 1) as nat;
    assert(varint_bits(shorter) <= varint_bits(lm1));
    lemma_pow2_monotonic(varint_bits(shorter), varint_bits(lm1));
}

/// The parsed fields of a frame header.
#[derive(Debug, Clone, Copy, PartialEq, Eq)]
pub struct FrameHeader {
    pub block_strategy: BlockStrategy,
    /// Samples per channel in the frame.
    pub block_size: u32,
    pub sample_rate: u32,
    pub channel_val: Channels,
    /// Bits per sample.
    pub sample_size: u8,
    /// Set when the strategy is fixed.
    pub frame_num: Option<u64>,
    /// Set when the strategy is variable.
    pub sample_num: Option<u64>,
    /// The stored header checksum.
    pub crc_8: u8,
    /// Whether the stored checksum matches the header bytes.
    pub crc_ok: bool,
}

/// Block size of a code that needs no further bytes; 0 for the other codes.
pub open spec fn fixed_block_size(code: nat) -> nat {
    if code == 1 {
        192
    } else if 2 <= code <= 5 {
        576 * pow2((code - 2) as nat)
    } else if 8 <= code <= 15 {
        256 * pow2((code - 8) as nat)
    } else {
        0
    }
}

/// Sample rate of a code that needs no further bytes; 0 for the other codes.
pub open spec fn table_sample_rate(code: nat) -> nat {
    if code == 1 {
        88200
    } else if code == 2 {
        176400
    } else if code == 3 {
        192000
    } else if code == 4 {
        8000
    } else if code == 5 {
        16000
    } else if code == 6 {
        22050
    } else if code == 7 {
        24000
    } else if code == 8 {
        32000
    } else if code == 9 {
        44100
    } else if code == 10 {
        48000
    } else if code == 11 {
        96000
    } else {
        0
    }
}

/// Bits per sample of a sample-size code other than 0; 0 for reserved codes.
pub open spec fn table_sample_size(code: nat) -> nat {
    if code == 1 {
        8
    } else if code == 2 {
        12
    } else if code == 4 {
        16
    } else if code == 5 {
        20
    } else if code == 6 {
        24
    } else {
        0
    }
}

/// Bits that follow the number for a block-size code.
pub open spec fn block_size_len(code: nat) -> int {
    if code == 6 {
        8
    } else if code == 7 {
        16
    } else {
        0
    }
}

/// Block size for a code, with the bits after the number at `p`.
pub open spec fn block_size_value(data: Seq<u8>, p: int, code: nat) -> nat {
    if code == 6 {
        bits_value(data, p, 8) + 1
    } else if code == 7 {
        bits_value(data, p, 8) + 256 * bits_value(data, p + 8, 8) + 1
    } else {
        fixed_block_size(code)
    }
}

/// Bits that follow the block size for a sample-rate code.
pub open spec fn sample_rate_len(code: nat) -> int {
    if code == 12 {
        8
    } else if code == 13 || code == 14 {
        16
    } else {
        0
    }
}

/// Sample rate for a code, with its further bits at `p`; code 0 defers to `rate`.
pub open spec fn sample_rate_value(data: Seq<u8>, p: int, code: nat, rate: u32) -> nat {
    if code == 0 {
        rate as nat
    } else if code == 12 {
        bits_value(data, p, 8)
    } else if code == 13 {
        bits_value(data, p, 16)
    } else if code == 14 {
        bits_value(data, p, 16) * 10
    } else {
        table_sample_rate(code)
    }
}

/// The fixed-width codes at the start of a frame header, and the frame or sample number.
#[derive(Debug, Clone, Copy, PartialEq, Eq)]
pub struct HeaderCodes {
    pub variable: bool,
    pub bs_code: u64,
    pub sr_code: u64,
    pub channel_val: Channels,
    pub ss_code: u64,
    pub num: u64,
}

/// The codes and number of the frame header at bit `pos`, and the position after them.
pub open spec fn header_codes_spec(data: Seq<u8>, pos: int) -> Result<(HeaderCodes, int), FlacError> {
    if pos + 32 > bit_len(data) {
        Err(FlacError::UnexpectedEnd)
    } else if bits_value(data, pos, 14) != SYNC_CODE {
        Err(FlacError::SyncLost)
    } else {
        let bs_code = bits_value(data, pos + 16, 4);
        let sr_code = bits_value(data, pos + 20, 4);
        let ch_code = bits_value(data, pos + 24, 4);
        let ss_code = bits_value(data, pos + 28, 3);
        if bs_code == 0 || sr_code == 15 || ch_code > 10 || ss_code == 3 || ss_code == 7 {
            Err(FlacError::ReservedCodeUsed)
        } else {
            match varint_spec(data, pos + 32) {
                Err(e) => Err(e),
                Ok((num, pos1)) => Ok(
                    (
                        HeaderCodes {
                            variable: bits_value(data, pos + 15, 1) == 1,
                            bs_code: bs_code as u64,
                            sr_code: sr_code as u64,
                            channel_val: channels_of_code(ch_code)->Some_0,
                            ss_code: ss_code as u64,
                            num: num as u64,
                        },
                        pos1,
                    ),
                ),
            }
        }
    }
}

/// The frame header at bit `pos`, and the position after it. `rate` and `bps`
/// are the stream's, used where the header defers to them.
#[verifier::opaque]
pub open spec fn header_spec(
    data: Seq<u8>,
    pos: int,
    rate: u32,
    bps: u8,
    policy: ChecksumPolicy,
) -> Result<(FrameHeader, int), FlacError> {
    match header_codes_spec(data, pos) {
        Err(e) => Err(e),
        Ok((c, pos1)) => {
            let pos2 = pos1 + block_size_len(c.bs_code as nat);
            let pos3 = pos2 + sample_rate_len(c.sr_code as nat);
            if pos3 + 8 > bit_len(data) {
                Err(FlacError::UnexpectedEnd)
            } else {
                let crc_byte = bits_value(data, pos3, 8);
                let crc_ok = crc8(data.subrange(pos / 8, pos3 / 8)) == crc_byte;
                if !crc_ok && policy == ChecksumPolicy::Strict {
                    Err(FlacError::ChecksumMismatch)
                } else {
                    Ok(
                        (
                            FrameHeader {
                                block_strategy: if c.variable {
                                    BlockStrategy::VariableBlocksize
                                } else {
                                    BlockStrategy::FixedBlocksize
                                },
                                block_size: block_size_value(data, pos1, c.bs_code as nat) as u32,
                                sample_rate: sample_rate_value(data, pos2, c.sr_code as nat, rate)
                                    as u32,
                                channel_val: c.channel_val,
                                sample_size: if c.ss_code == 0 {
                                    bps
                                } else {
                                    table_sample_size(c.ss_code as nat) as u8
                                },
                                frame_num: if c.variable {
                                    None
                                } else {
                                    Some(c.num)
                                },
                                sample_num: if c.variable {
                                    Some(c.num)
                                } else {
                                    None
                                },
                                crc_8: crc_byte as u8,
                                crc_ok,
                            },
                            pos3 + 8,
                        ),
                    )
                }
            }
        },
    }
}

proof fn lemma_byte_fields(data: Seq<u8>, pos: int)
    ensures
        bits_value(data, pos, 1) < 2,
        bits_value(data, pos, 3) < 8,
        bits_value(data, pos, 4) < 16,
        bits_value(data, pos, 8) < 256,
        bits_value(data, pos, 14) < 0x4000,
        bits_value(data, pos, 16) < 0x10000,
{
    lemma_bits_value_bound(data, pos, 1);
    lemma_bits_value_bound(data, pos, 3);
    lemma_bits_value_bound(data, pos, 4);
    lemma_bits_value_bound(data, pos, 8);
    lemma_bits_value_bound(data, pos, 14);
    lemma_bits_value_bound(data, pos, 16);
    reveal_with_fuel(pow2, 17);
}

fn read_block_size(r: &mut BitReader, code: u64) -> (res: Result<u32, FlacError>)
    requires
        old(r).wf(),
        1 <= code < 16,
    ensures
        final(r).wf(),
        final(r).data@ == old(r).data@,
        old(r).pos <= final(r).pos,
        old(r).pos + block_size_len(code as nat) <= bit_len(old(r).data@) ==> res == Ok::<
            u32,
            FlacError,
        >(block_size_value(old(r).data@, old(r).pos as int, code as nat) as u32) && final(r).pos
            == old(r).pos + block_size_len(code as nat),
        old(r).pos + block_size_len(code as nat) > bit_len(old(r).data@) ==> res == Err::<
            u32,
            FlacError,
        >(FlacError::UnexpectedEnd),
        res is Ok ==> 1 <= res->Ok_0 <= 0x10000,
{
    let ghost data = r.data@;
    proof {
        lemma_byte_fields(data, r.pos as int);
        lemma_byte_fields(data, r.pos + 8);
    }
    if code == 6 {
        let v = r.read_bits(8)?;
        Ok((v + 1) as u32)
    } else if code == 7 {
        let lo = r.read_bits(8)?;
        let hi = r.read_bits(8)?;
        Ok((lo + 256 * hi + 1) as u32)
    } else if code == 1 {
        Ok(192)
    } else if code <= 5 {
        proof {
            assert(pow2(0) == 1 && pow2(1) == 2 && pow2(2) == 4 && pow2(3) == 8) by {
                reveal_with_fuel(pow2, 4);
            }
        }
        Ok(
            match code {
                2 => 576,
                3 => 1152,
                4 => 2304,
                _ => 4608,
            },
        )
    } else {
        proof {
            assert(pow2(0) == 1 && pow2(1) == 2 && pow2(2) == 4 && pow2(3) == 8 && pow2(4) == 16 && pow2(5) == 32
                && pow2(6) == 64 && pow2(7) == 128) by {
                reveal_with_fuel(pow2, 8);
            }
        }
        Ok(
            match code {
                8 => 256,
                9 => 512,
                10 => 1024,
                11 => 2048,
                12 => 4096,
                13 => 8192,
                14 => 16384,
                _ => 32768,
            },
        )
    }
}

fn read_sample_rate(r: &mut BitReader, code: u64, rate: u32) -> (res: Result<u32, FlacError>)
    requires
        old(r).wf(),
        code < 15,
    ensures
        final(r).wf(),
        final(r).data@ == old(r).data@,
        old(r).pos <= final(r).pos,
        old(r).pos + sample_rate_len(code as nat) <= bit_len(old(r).data@) ==> res == Ok::<
            u32,
            FlacError,
        >(sample_rate_value(old(r).data@, old(r).pos as int, code as nat, rate) as u32)
            && final(r).pos == old(r).pos + sample_rate_len(code as nat),
        old(r).pos + sample_rate_len(code as nat) > bit_len(old(r).data@) ==> res == Err::<
            u32,
            FlacError,
        >(FlacError::UnexpectedEnd),
{
    proof {
        lemma_byte_fields(r.data@, r.pos as int);
    }
    match code {
        0 => Ok(rate),
        1 => Ok(88200),
        2 => Ok(176400),
        3 => Ok(192000),
        4 => Ok(8000),
        5 => Ok(16000),
        6 => Ok(22050),
        7 => Ok(24000),
        8 => Ok(32000),
        9 => Ok(44100),
        10 => Ok(48000),
        11 => Ok(96000),
        12 => Ok(r.read_bits(8)? as u32),
        13 => Ok(r.read_bits(16)? as u32),
        _ => Ok((r.read_bits(16)? * 10) as u32),
    }
}

fn read_header_codes(r: &mut BitReader) -> (res: Result<HeaderCodes, FlacError>)
    requires
        old(r).wf(),
    ensures
        final(r).wf(),
        final(r).data@ == old(r).data@,
        old(r).pos <= final(r).pos,
        match header_codes_spec(old(r).data@, old(r).pos as int) {
            Ok((c, end)) => res == Ok::<HeaderCodes, FlacError>(c) && final(r).pos == end,
            Err(e) => res == Err::<HeaderCodes, FlacError>(e),
        },
        res is Ok ==> 1 <= res->Ok_0.bs_code < 16 && res->Ok_0.sr_code < 15 && res->Ok_0.ss_code
            < 8 && res->Ok_0.ss_code != 3 && res->Ok_0.ss_code != 7,
{
    let ghost data = r.data@;
    let start = r.pos;
    if r.data.len() * 8 - r.pos < 32 {
        return Err(FlacError::UnexpectedEnd);
    }
    proof {
        lemma_byte_fields(data, start + 15);
        lemma_byte_fields(data, start + 16);
        lemma_byte_fields(data, start + 20);
        lemma_byte_fields(data, start + 24);
        lemma_byte_fields(data, start + 28);
        lemma_byte_fields(data, start as int);
    }
    let sync = r.read_bits(14)?;
    if sync != SYNC_CODE {
        return Err(FlacError::SyncLost);
    }
    let _reserved = r.read_bits(1)?;
    let strategy_bit = r.read_bits(1)?;
    let bs_code = r.read_bits(4)?;
    let sr_code = r.read_bits(4)?;
    let ch_code = r.read_bits(4)?;
    let ss_code = r.read_bits(3)?;
    let _reserved2 = r.read_bits(1)?;
    if bs_code == 0 || sr_code == 15 || ch_code > 10 || ss_code == 3 || ss_code == 7 {
        return Err(FlacError::ReservedCodeUsed);
    }
    let channel_val = Channels::from_code(ch_code)?;
    let num = decode_utf8_val(r)?;
    Ok(HeaderCodes { variable: strategy_bit == 1, bs_code, sr_code, channel_val, ss_code, num })
}

impl FrameHeader {
    /// Reads a frame header that starts at a byte boundary; `rate` and `bps`
    /// are the stream's sample rate and bits per sample.
    pub fn parse(r: &mut BitReader, rate: u32, bps: u8, policy: ChecksumPolicy) -> (res: Result<
        FrameHeader,
        FlacError,
    >)
        requires
            old(r).wf(),
            old(r).pos % 8 == 0,
        ensures
            final(r).wf(),
            final(r).data@ == old(r).data@,
            old(r).pos <= final(r).pos,
            match header_spec(old(r).data@, old(r).pos as int, rate, bps, policy) {
                Ok((h, end)) => res == Ok::<FrameHeader, FlacError>(h) && final(r).pos == end,
                Err(e) => res == Err::<FrameHeader, FlacError>(e),
            },
            res is Ok ==> 1 <= res->Ok_0.block_size <= 0x10000 && (bps <= 32
                ==> res->Ok_0.sample_size <= 32),
    {
        reveal(header_spec);
        let ghost data = r.data@;
        let start = r.pos;
        let c = read_header_codes(r)?;
        let bs_code = c.bs_code;
        let sr_code = c.sr_code;
        let ss_code = c.ss_code;
        let num = c.num;
        let channel_val = c.channel_val;
        let variable = c.variable;
        let pos1 = r.pos;
        let block_size = read_block_size(r, bs_code)?;
        let pos2 = r.pos;
        let sample_rate = read_sample_rate(r, sr_code, rate)?;
        let sample_size: u8 = match ss_code {
            0 => bps,
            1 => 8,
            2 => 12,
            4 => 16,
            5 => 20,
            _ => 24,
        };
        let pos3 = r.pos;
        proof {
            lemma_byte_fields(data, pos3 as int);
        }
        let crc_byte = r.read_bits(8)?;
        let crc = crc8_range(&r.data, start / 8, pos3 / 8);
        proof {
            assert(header_codes_spec(data, start as int) == Ok::<(HeaderCodes, int), FlacError>(
                (c, pos1 as int),
            ));
            assert(pos3 == pos2 + sample_rate_len(sr_code as nat));
            assert(pos2 == pos1 + block_size_len(bs_code as nat));
            assert(pos3 + 8 <= bit_len(data));
        }
        let crc_ok = crc as u64 == crc_byte;
        if !crc_ok && policy == ChecksumPolicy::Strict {
            return Err(FlacError::ChecksumMismatch);
        }
        Ok(
            FrameHeader {
                block_strategy: if variable {
                    BlockStrategy::VariableBlocksize
                } else {
                    BlockStrategy::FixedBlocksize
                },
                block_size,
                sample_rate,
                channel_val,
                sample_size,
                frame_num: if variable {
                    None
                } else {
                    Some(num)
                },
                sample_num: if variable {
                    Some(num)
                } else {
                    None
                },
                crc_8: crc_byte as u8,
                crc_ok,
            },
        )
    }
}

} // verus!
