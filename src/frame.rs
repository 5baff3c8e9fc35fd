//! Frames: a header, one subframe per channel, zero padding up to a byte
//! boundary, and a CRC-16 footer; and the reversal of stereo decorrelation.
use vstd::prelude::*;

use crate::bits::{bit_len, BitReader};
use crate::bytes::{le16, le_u16_at};
use crate::crc::{crc16, crc16_range};
use crate::error::FlacError;
use crate::header::{channel_count, header_spec, ChecksumPolicy, Channels, FrameHeader};
use crate::residual::in_range;
use crate::subframe::{all_in_range, subframe_spec, Subframe};

verus! {

/// The left and right samples of a stereo pair stored as subframe samples `a`, `b`.
pub open spec fn stereo_pair(ch: Channels, a: int, b: int) -> (int, int) {
    match ch {
        Channels::LS => (a, a - b),
        Channels::SR => (a + b, b),
        Channels::MS => {
            let left = (2 * a + b % 2 + b) / 2;
            (left, left - b)
        },
        _ => (a, b),
    }
}

/// Whether a stereo mode is decorrelated.
pub open spec fn is_decorrelated(ch: Channels) -> bool {
    ch == Channels::LS || ch == Channels::SR || ch == Channels::MS
}

/// Bits per sample of subframe `i`: the side channel of left/side and
/// side/right stereo carries one bit more.
pub open spec fn channel_width(ch: Channels, bps: nat, i: nat) -> nat {
    if (ch == Channels::SR && i == 0) || (ch == Channels::LS && i == 1) {
        bps + 1
    } else {
        bps
    }
}

/// The first `k` subframes of a frame, and the position after them.
#[verifier::opaque]
pub open spec fn subframes_spec(
    data: Seq<u8>,
    pos: int,
    ch: Channels,
    bps: nat,
    bs: nat,
    k: nat,
) -> Result<(Seq<Seq<i64>>, int), FlacError>
    decreases k,
{
    if k == 0 {
        Ok((seq![], pos))
    } else {
        match subframes_spec(data, pos, ch, bps, bs, (k - 1) as nat) {
            Err(e) => Err(e),
            Ok((ss, p)) => match subframe_spec(data, p, channel_width(ch, bps, (k - 1) as nat), bs) {
                Err(e) => Err(e),
                Ok((_t, _o, _w, s, end)) => Ok((ss.push(s), end)),
            },
        }
    }
}

/// The output channels of a frame whose subframes decoded to `ss`.
pub open spec fn decorrelate(ch: Channels, ss: Seq<Seq<i64>>) -> Seq<Seq<int>> {
    if is_decorrelated(ch) {
        seq![
            Seq::new(ss[0].len(), |i: int| stereo_pair(ch, ss[0][i] as int, ss[1][i] as int).0),
            Seq::new(ss[0].len(), |i: int| stereo_pair(ch, ss[0][i] as int, ss[1][i] as int).1),
        ]
    } else {
        Seq::new(ss.len(), |c: int| Seq::new(ss[c].len(), |i: int| ss[c][i] as int))
    }
}

/// An error inside a frame: running out of input there means the stream was cut short.
pub open spec fn in_frame(e: FlacError) -> FlacError {
    if e == FlacError::UnexpectedEnd {
        FlacError::TruncatedStream
    } else {
        e
    }
}

/// The first multiple of 8 at or after `p`.
pub open spec fn align_up(p: int) -> int {
    ((p + 7) / 8) * 8
}

/// The frame at `pos`: its header, its output channels, whether its footer
/// checksum matched, and the position after it.
#[verifier::opaque]
pub open spec fn frame_spec(
    data: Seq<u8>,
    pos: int,
    rate: u32,
    bps: u8,
    policy: ChecksumPolicy,
) -> Result<(FrameHeader, Seq<Seq<int>>, bool, int), FlacError> {
    match header_spec(data, pos, rate, bps, policy) {
        Err(e) => Err(in_frame(e)),
        Ok((h, p)) => match subframes_spec(
            data,
            p,
            h.channel_val,
            h.sample_size as nat,
            h.block_size as nat,
            channel_count(h.channel_val),
        ) {
            Err(e) => Err(in_frame(e)),
            Ok((ss, pos2)) => {
                let pos3 = align_up(pos2);
                if pos3 + 16 > bit_len(data) {
                    Err(FlacError::TruncatedStream)
                } else {
                    let footer = le16(data[pos3 / 8], data[pos3 / 8 + 1]);
                    let crc_ok = crc16(data.subrange(pos / 8, pos3 / 8)) == footer;
                    if !crc_ok && policy == ChecksumPolicy::Strict {
                        Err(FlacError::ChecksumMismatch)
                    } else {
                        Ok((h, decorrelate(h.channel_val, ss), crc_ok, pos3 + 16))
                    }
                }
            },
        }
    }
}

/// The views of a list of sample vectors.
pub open spec fn views(v: Seq<Vec<i64>>) -> Seq<Seq<int>> {
    Seq::new(v.len(), |c: int| Seq::new(v[c]@.len(), |i: int| v[c]@[i] as int))
}

/// Left and right from a stereo pair of subframe samples.
pub fn restore_pair(ch: Channels, a: i64, b: i64) -> (r: (i64, i64))
    requires
        in_range(a as int),
        in_range(b as int),
    ensures
        r.0 == stereo_pair(ch, a as int, b as int).0,
        r.1 == stereo_pair(ch, a as int, b as int).1,
{
    match ch {
        Channels::LS => (a, a - b),
        Channels::SR => (a + b, b),
        Channels::MS => {
            let half: i64 = if b >= 0 {
                b / 2
            } else {
                -((-b + 1) / 2)
            };
            proof {
                if b < 0 {
                    assert((b as int) / 2 == -((-b + 1) / 2)) by {
                        let m = -(b as int);
                        vstd::arithmetic::div_mod::lemma_fundamental_div_mod(m + 1, 2);
                        vstd::arithmetic::div_mod::lemma_fundamental_div_mod_converse(
                            b as int,
                            2,
                            -((m + 1) / 2),
                            1 - (m + 1) % 2,
                        );
                    }
                }
                vstd::arithmetic::div_mod::lemma_fundamental_div_mod(b as int, 2);
            }
            let right = a - half;
            (right + b, right)
        },
        _ => (a, b),
    }
}

/// Stereo recombination is exact: a pair stored as mid `(left + right) >> 1`
/// and side `left - right`, as left and side, or as side and right, gives
/// back `left` and `right`, whatever the parity of their sum.
pub proof fn lemma_stereo_round_trip(left: int, right: int)
    ensures
        stereo_pair(Channels::MS, (left + right) / 2, left - right) == (left, right),
        stereo_pair(Channels::LS, left, left - right) == (left, right),
        stereo_pair(Channels::SR, left - right, right) == (left, right),
{
    let a = (left + right) / 2;
    let b = left - right;
    vstd::arithmetic::div_mod::lemma_fundamental_div_mod(left + right, 2);
    vstd::arithmetic::div_mod::lemma_fundamental_div_mod(b, 2);
    assert(b % 2 == (left + right) % 2);
    assert(2 * a + b % 2 + b == 2 * left);
    vstd::arithmetic::div_mod::lemma_fundamental_div_mod_converse(2 * left, 2, left, 0);
}

/// Running out of input inside a frame is reported as a truncated stream,
/// never as a short frame.
pub proof fn lemma_frame_truncation(
    data: Seq<u8>,
    pos: int,
    rate: u32,
    bps: u8,
    policy: ChecksumPolicy,
)
    ensures
        frame_spec(data, pos, rate, bps, policy) is Err ==> frame_spec(
            data,
            pos,
            rate,
            bps,
            policy,
        )->Err_0 != FlacError::UnexpectedEnd,
{
    reveal(frame_spec);
}

/// One decoded frame.
pub struct Frame {
    pub header: FrameHeader,
    pub subframes: Vec<Subframe>,
    /// The output samples, one vector per channel.
    pub channels: Vec<Vec<i64>>,
    /// The stored CRC-16.
    pub footer: u16,
    /// Whether the stored CRC-16 matches the frame's bytes.
    pub crc_ok: bool,
}

/// The samples of each subframe.
pub open spec fn subframe_samples(v: Seq<Subframe>) -> Seq<Seq<i64>> {
    Seq::new(v.len(), |i: int| v[i].samples@)
}

fn copy_samples(v: &Vec<i64>) -> (r: Vec<i64>)
    ensures
        r@ == v@,
{
    let mut out: Vec<i64> = Vec::new();
    let mut i: usize = 0;
    while i < v.len()
        invariant
            i <= v.len(),
            out@ =~= v@.subrange(0, i as int),
        decreases v.len() - i,
    {
        out.push(v[i]);
        i = i + 1;
    }
    proof {
        assert(out@ =~= v@);
    }
    out
}

/// The output channels of a frame, from its subframes' samples.
fn decorrelate_channels(ch: Channels, subs: &Vec<Subframe>, bs: u32) -> (r: Vec<Vec<i64>>)
    requires
        subs.len() == channel_count(ch),
        forall|c: int|
            0 <= c < subs.len() ==> (#[trigger] subs@[c]).samples@.len() == bs && all_in_range(
                subs@[c].samples@,
            ),
    ensures
        views(r@) == decorrelate(ch, subframe_samples(subs@)),
        r@.len() == channel_count(ch),
        forall|c: int| 0 <= c < r@.len() ==> (#[trigger] r@[c])@.len() == bs,
{
    let ghost ss = subframe_samples(subs@);
    let mut out: Vec<Vec<i64>> = Vec::new();
    if matches!(ch, Channels::LS | Channels::SR | Channels::MS) {
        let a = &subs[0].samples;
        let b = &subs[1].samples;
        let mut left: Vec<i64> = Vec::new();
        let mut right: Vec<i64> = Vec::new();
        let mut i: usize = 0;
        while i < a.len()
            invariant
                a@ == ss[0],
                b@ == ss[1],
                a.len() == bs,
                b.len() == bs,
                all_in_range(a@),
                all_in_range(b@),
                i <= a.len(),
                left@.len() == i,
                right@.len() == i,
                forall|j: int|
                    0 <= j < i ==> left@[j] == stereo_pair(ch, a@[j] as int, b@[j] as int).0,
                forall|j: int|
                    0 <= j < i ==> right@[j] == stereo_pair(ch, a@[j] as int, b@[j] as int).1,
            decreases a.len() - i,
        {
            assert(in_range(a@[i as int] as int));
            assert(in_range(b@[i as int] as int));
            let (l, r) = restore_pair(ch, a[i], b[i]);
            left.push(l);
            right.push(r);
            i = i + 1;
        }
        out.push(left);
        out.push(right);
        proof {
            let d = decorrelate(ch, ss);
            assert(views(out@)[0] =~= d[0]);
            assert(views(out@)[1] =~= d[1]);
            assert(views(out@) =~= d);
        }
    } else {
        let mut c: usize = 0;
        while c < subs.len()
            invariant
                ss == subframe_samples(subs@),
                c <= subs.len(),
                out@.len() == c,
                forall|k: int| 0 <= k < c ==> (#[trigger] out@[k])@ == ss[k],
            decreases subs.len() - c,
        {
            let v = copy_samples(&subs[c].samples);
            out.push(v);
            c = c + 1;
        }
        proof {
            let d = decorrelate(ch, ss);
            assert forall|k: int| 0 <= k < out@.len() implies #[trigger] views(out@)[k] =~= d[k] by {
                assert(out@[k]@ == ss[k]);
            }
            assert(views(out@) =~= d);
        }
    }
    out
}

proof fn lemma_subframes_err(
    data: Seq<u8>,
    pos: int,
    ch: Channels,
    bps: nat,
    bs: nat,
    i: nat,
    n: nat,
)
    requires
        i <= n,
        subframes_spec(data, pos, ch, bps, bs, i) is Err,
    ensures
        subframes_spec(data, pos, ch, bps, bs, n) == subframes_spec(data, pos, ch, bps, bs, i),
    decreases n - i,
{
    if i < n {
        lemma_subframes_err(data, pos, ch, bps, bs, i, (n - 1) as nat);
        reveal(subframes_spec);
    }
}

proof fn lemma_subframes_step(data: Seq<u8>, pos: int, ch: Channels, bps: nat, bs: nat, k: nat)
    ensures
        subframes_spec(data, pos, ch, bps, bs, k + 1) == match subframes_spec(
            data,
            pos,
            ch,
            bps,
            bs,
            k,
        ) {
            Err(e) => Err(e),
            Ok((ss, p)) => match subframe_spec(data, p, channel_width(ch, bps, k), bs) {
                Err(e) => Err(e),
                Ok((_t, _o, _w, s, end)) => Ok::<(Seq<Seq<i64>>, int), FlacError>(
                    (ss.push(s), end),
                ),
            },
        },
        subframes_spec(data, pos, ch, bps, bs, 0) == Ok::<(Seq<Seq<i64>>, int), FlacError>(
            (seq![], pos),
        ),
{
    reveal(subframes_spec);
}

/// Reads the subframes of a frame with the given header.
fn read_subframes(r: &mut BitReader, h: &FrameHeader) -> (res: Result<Vec<Subframe>, FlacError>)
    requires
        old(r).wf(),
        h.sample_size <= 32,
        h.block_size <= 0x10000,
    ensures
        final(r).wf(),
        final(r).data@ == old(r).data@,
        old(r).pos <= final(r).pos,
        match subframes_spec(
            old(r).data@,
            old(r).pos as int,
            h.channel_val,
            h.sample_size as nat,
            h.block_size as nat,
            channel_count(h.channel_val),
        ) {
            Ok((ss, end)) => res is Ok && subframe_samples(res->Ok_0@) == ss && final(r).pos == end,
            Err(e) => res is Err && res->Err_0 == e,
        },
        res is Ok ==> res->Ok_0@.len() == channel_count(h.channel_val) && forall|c: int|
            0 <= c < res->Ok_0@.len() ==> (#[trigger] res->Ok_0@[c]).samples@.len()
                == h.block_size && all_in_range(res->Ok_0@[c].samples@),
{
    let ghost data = r.data@;
    let ghost pos = r.pos as int;
    let n = Channels::channel_num(h.channel_val);
    let mut subs: Vec<Subframe> = Vec::new();
    let mut c: u8 = 0;
    proof {
        lemma_subframes_step(data, pos, h.channel_val, h.sample_size as nat, h.block_size as nat, 0);
        assert(subframe_samples(subs@) =~= seq![]);
    }
    while c < n
        invariant
            r.wf(),
            r.data@ == data,
            data == old(r).data@,
            pos == old(r).pos,
            pos <= r.pos,
            h.sample_size <= 32,
            h.block_size <= 0x10000,
            n == channel_count(h.channel_val),
            c <= n,
            subs@.len() == c,
            subframes_spec(
                data,
                pos,
                h.channel_val,
                h.sample_size as nat,
                h.block_size as nat,
                c as nat,
            ) == Ok::<(Seq<Seq<i64>>, int), FlacError>((subframe_samples(subs@), r.pos as int)),
            forall|k: int|
                0 <= k < c ==> (#[trigger] subs@[k]).samples@.len() == h.block_size
                    && all_in_range(subs@[k].samples@),
        decreases n - c,
    {
        let width: u8 = if (h.channel_val == Channels::SR && c == 0) || (h.channel_val
            == Channels::LS && c == 1) {
            h.sample_size + 1
        } else {
            h.sample_size
        };
        let ghost before = subs@;
        proof {
            lemma_subframes_step(
                data,
                pos,
                h.channel_val,
                h.sample_size as nat,
                h.block_size as nat,
                c as nat,
            );
        }
        match Subframe::parse(r, width, h.block_size) {
            Ok(sub) => {
                subs.push(sub);
                proof {
                    assert(subframe_samples(subs@) =~= subframe_samples(before).push(
                        subs@[c as int].samples@,
                    ));
                }
            },
            Err(e) => {
                proof {
                    lemma_subframes_err(
                        data,
                        pos,
                        h.channel_val,
                        h.sample_size as nat,
                        h.block_size as nat,
                        (c + 1) as nat,
                        n as nat,
                    );
                }
                return Err(e);
            },
        }
        c = c + 1;
    }
    Ok(subs)
}

proof fn lemma_align_up(p: int, len: int)
    requires
        0 <= p <= 8 * len,
    ensures
        p <= align_up(p) <= 8 * len,
        align_up(p) % 8 == 0,
        align_up(p) == ((p + 7) / 8) * 8,
{
    vstd::arithmetic::div_mod::lemma_fundamental_div_mod(p + 7, 8);
    assert(align_up(p) % 8 == 0) by {
        vstd::arithmetic::div_mod::lemma_mod_multiples_basic((p + 7) / 8, 8);
    }
}

impl Frame {
    /// Reads and decodes the frame that starts at the reader's position, a
    /// byte boundary. `sample_rate` and `sample_size` are the stream's.
    pub fn parse(r: &mut BitReader, sample_rate: u32, sample_size: u8, policy: ChecksumPolicy) -> (res:
        Result<Frame, FlacError>)
        requires
            old(r).wf(),
            old(r).pos % 8 == 0,
            sample_size <= 32,
        ensures
            final(r).wf(),
            final(r).data@ == old(r).data@,
            old(r).pos <= final(r).pos,
            match frame_spec(old(r).data@, old(r).pos as int, sample_rate, sample_size, policy) {
                Ok((h, chans, crc_ok, end)) => res is Ok && res->Ok_0.header == h && views(
                    res->Ok_0.channels@,
                ) == chans && res->Ok_0.crc_ok == crc_ok && final(r).pos == end,
                Err(e) => res is Err && res->Err_0 == e,
            },
            res is Ok ==> final(r).pos > old(r).pos && final(r).pos % 8 == 0,
            res is Ok ==> res->Ok_0.channels@.len() == channel_count(res->Ok_0.header.channel_val)
                && forall|c: int|
                0 <= c < res->Ok_0.channels@.len() ==> (#[trigger] res->Ok_0.channels@[c])@.len()
                    == res->Ok_0.header.block_size,
    {
        reveal(frame_spec);
        let ghost data = r.data@;
        let start = r.pos;
        let header = match FrameHeader::parse(r, sample_rate, sample_size, policy) {
            Ok(h) => h,
            Err(e) => {
                return Err(
                    if e == FlacError::UnexpectedEnd {
                        FlacError::TruncatedStream
                    } else {
                        e
                    },
                );
            },
        };
        let subframes = match read_subframes(r, &header) {
            Ok(s) => s,
            Err(e) => {
                return Err(
                    if e == FlacError::UnexpectedEnd {
                        FlacError::TruncatedStream
                    } else {
                        e
                    },
                );
            },
        };
        proof {
            lemma_align_up(r.pos as int, r.data@.len() as int);
        }
        r.align_to_byte();
        let pos3 = r.pos;
        if r.data.len() * 8 - r.pos < 16 {
            return Err(FlacError::TruncatedStream);
        }
        let footer = le_u16_at(r.data.as_slice(), pos3 / 8);
        let crc = crc16_range(&r.data, start / 8, pos3 / 8);
        let crc_ok = crc == footer;
        if !crc_ok && policy == ChecksumPolicy::Strict {
            return Err(FlacError::ChecksumMismatch);
        }
        r.pos = r.pos + 16;
        let channels = decorrelate_channels(header.channel_val, &subframes, header.block_size);
        Ok(Frame { header, subframes, channels, footer, crc_ok })
    }
}

} // verus!
