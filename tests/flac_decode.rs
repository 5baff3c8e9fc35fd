use surfboard::bits::BitReader;
use surfboard::error::FlacError;
use surfboard::flac::{DecodeError, Flac};
use surfboard::frame::{restore_pair, Frame};
use surfboard::header::{decode_utf8_val, BlockStrategy, ChecksumPolicy, Channels, FrameHeader};
use surfboard::metadata::BlockType;
use surfboard::residual::read_rice;
use surfboard::subframe::{Subframe, SubframeType};

struct BitWriter {
    bytes: Vec<u8>,
    nbits: usize,
}

impl BitWriter {
    fn new() -> BitWriter {
        BitWriter { bytes: Vec::new(), nbits: 0 }
    }

    fn bit(&mut self, b: u64) {
        if self.nbits % 8 == 0 {
            self.bytes.push(0);
        }
        if b & 1 == 1 {
            let last = self.bytes.len() - 1;
            self.bytes[last] |= 0x80 >> (self.nbits % 8);
        }
        self.nbits += 1;
    }

    fn put(&mut self, value: u64, n: u32) {
        for i in (0..n).rev() {
            self.bit(value >> i);
        }
    }

    fn put_signed(&mut self, value: i64, n: u32) {
        let mask = if n == 64 { u64::MAX } else { (1u64 << n) - 1 };
        self.put((value as u64) & mask, n);
    }

    fn unary(&mut self, zeros: u64) {
        for _ in 0..zeros {
            self.bit(0);
        }
        self.bit(1);
    }

    fn rice(&mut self, v: i64, param: u32) {
        let u = if v >= 0 { (v as u64) << 1 } else { ((-v - 1) as u64) << 1 | 1 };
        self.unary(u >> param);
        self.put(u & ((1u64 << param) - 1), param);
    }

    fn align(&mut self) {
        while self.nbits % 8 != 0 {
            self.bit(0);
        }
    }
}

fn crc8(data: &[u8]) -> u8 {
    let mut c: u8 = 0;
    for &b in data {
        c ^= b;
        for _ in 0..8 {
            c = if c & 0x80 != 0 { (c << 1) ^ 0x07 } else { c << 1 };
        }
    }
    c
}

fn crc16(data: &[u8]) -> u16 {
    let mut c: u16 = 0;
    for &b in data {
        c ^= (b as u16) << 8;
        for _ in 0..8 {
            c = if c & 0x8000 != 0 { (c << 1) ^ 0x8005 } else { c << 1 };
        }
    }
    c
}

fn stream_info(w: &mut BitWriter, last: bool, bs: u64, rate: u64, channels: u64, bps: u64, total: u64) {
    w.put(if last { 1 } else { 0 }, 1);
    w.put(0, 7);
    w.put(34, 24);
    w.put(bs, 16);
    w.put(bs, 16);
    w.put(0, 24);
    w.put(0, 24);
    w.put(rate, 20);
    w.put(channels - 1, 3);
    w.put(bps - 1, 5);
    w.put(total, 36);
    w.put(0x0123_4567_89ab_cdef, 64);
    w.put(0xfedc_ba98_7654_3210, 64);
}

/// Frame header with block size code 7, inherited rate and sample size.
fn frame_header(w: &mut BitWriter, frame_start: usize, bs: u64, ch_code: u64, number: u8) {
    w.put(0x3FFE, 14);
    w.put(0, 1);
    w.put(0, 1);
    w.put(7, 4);
    w.put(0, 4);
    w.put(ch_code, 4);
    w.put(0, 3);
    w.put(0, 1);
    w.put(number as u64, 8);
    let v = bs - 1;
    w.put(v & 0xFF, 8);
    w.put(v >> 8, 8);
    let c = crc8(&w.bytes[frame_start..]);
    w.put(c as u64, 8);
}

fn frame_footer(w: &mut BitWriter, frame_start: usize) {
    w.align();
    let c = crc16(&w.bytes[frame_start..]);
    w.put((c & 0xFF) as u64, 8);
    w.put((c >> 8) as u64, 8);
}

fn fixed_residuals(order: usize, s: &[i64]) -> Vec<i64> {
    let mut r = Vec::new();
    for i in order..s.len() {
        let p = match order {
            0 => 0,
            1 => s[i - 1],
            2 => 2 * s[i - 1] - s[i - 2],
            3 => 3 * s[i - 1] - 3 * s[i - 2] + s[i - 3],
            _ => 4 * s[i - 1] - 6 * s[i - 2] + 4 * s[i - 3] - s[i - 4],
        };
        r.push(s[i] - p);
    }
    r
}

fn lpc_residuals(coefs: &[i64], shift: u32, s: &[i64]) -> Vec<i64> {
    let order = coefs.len();
    let mut r = Vec::new();
    for i in order..s.len() {
        let mut sum: i64 = 0;
        for j in 0..order {
            sum += coefs[j] * s[i - 1 - j];
        }
        r.push(s[i] - (sum >> shift));
    }
    r
}

fn residual_block(w: &mut BitWriter, res: &[i64], param: u32) {
    w.put(0, 2);
    w.put(0, 4);
    w.put(param as u64, 4);
    for &v in res {
        w.rice(v, param);
    }
}

fn failure(r: Result<Flac, DecodeError>) -> DecodeError {
    match r {
        Err(e) => e,
        Ok(_) => panic!("decoding succeeded"),
    }
}

fn minimal_stream() -> Vec<u8> {
    let mut w = BitWriter::new();
    w.bytes.extend_from_slice(b"fLaC");
    w.nbits = 32;
    stream_info(&mut w, true, 4, 44100, 1, 16, 4);
    let start = w.bytes.len();
    frame_header(&mut w, start, 4, 0, 0);
    w.put(0, 1);
    w.put(8, 6);
    w.put(0, 1);
    residual_block(&mut w, &[1, -1, 2, -2], 2);
    frame_footer(&mut w, start);
    w.bytes
}

#[test]
fn end_to_end_minimal_stream() {
    let flac = Flac::parse(minimal_stream(), ChecksumPolicy::Strict).unwrap();
    assert_eq!(flac.stream_info.sample_rate, 44100);
    assert_eq!(flac.stream_info.num_channels, 1);
    assert_eq!(flac.stream_info.bits_per_sample, 16);
    assert_eq!(flac.stream_info.total_samples, 4);
    assert_eq!(flac.stream_info.sig, 0x0123_4567_89ab_cdef_fedc_ba98_7654_3210);
    assert_eq!(flac.frames.len(), 1);
    let f = &flac.frames[0];
    assert!(f.header.crc_ok);
    assert!(f.crc_ok);
    assert_eq!(f.header.block_size, 4);
    assert_eq!(f.header.sample_rate, 44100);
    assert_eq!(f.header.sample_size, 16);
    assert_eq!(f.header.frame_num, Some(0));
    assert_eq!(f.header.sample_num, None);
    assert_eq!(f.header.block_strategy, BlockStrategy::FixedBlocksize);
    assert_eq!(f.channels, vec![vec![1, -1, 2, -2]]);
    assert_eq!(f.subframes[0].sub_type, SubframeType::Fixed);
}

#[test]
fn truncated_mid_subframe_is_truncated_stream() {
    let s = minimal_stream();
    let cut = s[..s.len() - 4].to_vec();
    let e = failure(Flac::parse(cut, ChecksumPolicy::Strict));
    assert_eq!(e.kind, FlacError::TruncatedStream);
    assert_eq!(e.byte_offset, 42);
    assert_eq!(e.frame_index, Some(0));
}

#[test]
fn truncated_before_footer_is_truncated_stream() {
    let s = minimal_stream();
    let cut = s[..s.len() - 1].to_vec();
    assert_eq!(failure(Flac::parse(cut, ChecksumPolicy::Lenient)).kind, FlacError::TruncatedStream);
}

#[test]
fn corrupted_footer_strict_and_lenient() {
    let mut s = minimal_stream();
    let n = s.len();
    s[n - 1] ^= 0x55;
    assert_eq!(failure(Flac::parse(s.clone(), ChecksumPolicy::Strict)).kind, FlacError::ChecksumMismatch);
    let flac = Flac::parse(s, ChecksumPolicy::Lenient).unwrap();
    assert!(!flac.frames[0].crc_ok);
    assert_eq!(flac.frames[0].channels, vec![vec![1, -1, 2, -2]]);
}

#[test]
fn bad_magic() {
    let e = failure(Flac::parse(b"RIFF1234".to_vec(), ChecksumPolicy::Strict));
    assert_eq!(e, DecodeError { kind: FlacError::BadMagic, byte_offset: 0, frame_index: None });
}

#[test]
fn missing_stream_info() {
    let mut w = BitWriter::new();
    w.bytes.extend_from_slice(b"fLaC");
    w.nbits = 32;
    w.put(1, 1);
    w.put(1, 7);
    w.put(2, 24);
    w.put(0, 16);
    assert_eq!(failure(Flac::parse(w.bytes, ChecksumPolicy::Strict)).kind, FlacError::MissingStreamInfo);
}

#[test]
fn vorbis_comment_block() {
    let mut w = BitWriter::new();
    w.bytes.extend_from_slice(b"fLaC");
    w.nbits = 32;
    stream_info(&mut w, false, 4, 8000, 1, 8, 0);
    let mut body: Vec<u8> = Vec::new();
    body.extend_from_slice(&3u32.to_le_bytes());
    body.extend_from_slice(b"abc");
    body.extend_from_slice(&2u32.to_le_bytes());
    body.extend_from_slice(&1u32.to_le_bytes());
    body.extend_from_slice(b"x");
    body.extend_from_slice(&2u32.to_le_bytes());
    body.extend_from_slice(b"yz");
    w.put(1, 1);
    w.put(4, 7);
    w.put(body.len() as u64, 24);
    for b in &body {
        w.put(*b as u64, 8);
    }
    let flac = Flac::parse(w.bytes, ChecksumPolicy::Strict).unwrap();
    assert_eq!(flac.blocks.len(), 2);
    assert!(flac.frames.is_empty());
    match &flac.blocks[1].type_data {
        BlockType::VorbisComment { vendor_string, comments } => {
            assert_eq!(vendor_string, &b"abc".to_vec());
            assert_eq!(comments, &vec![b"x".to_vec(), b"yz".to_vec()]);
        }
        _ => panic!("expected a comment block"),
    }
}

#[test]
fn vorbis_comment_overrun_is_malformed() {
    let mut w = BitWriter::new();
    w.bytes.extend_from_slice(b"fLaC");
    w.nbits = 32;
    stream_info(&mut w, false, 4, 8000, 1, 8, 0);
    w.put(1, 1);
    w.put(4, 7);
    w.put(8, 24);
    w.put(9, 8);
    w.put(0, 24);
    w.put(0, 32);
    let e = failure(Flac::parse(w.bytes, ChecksumPolicy::Strict));
    assert_eq!(e, DecodeError { kind: FlacError::MalformedMetadata, byte_offset: 42, frame_index: None });
}

#[test]
fn varint_rejects_overlong() {
    let mut r = BitReader::new(vec![0xC0, 0x81]);
    assert_eq!(decode_utf8_val(&mut r), Err(FlacError::MalformedVarint));
    let mut r = BitReader::new(vec![0xE0, 0x81, 0xBF]);
    assert_eq!(decode_utf8_val(&mut r), Err(FlacError::MalformedVarint));
}

#[test]
fn varint_values() {
    let mut r = BitReader::new(vec![0x7F]);
    assert_eq!(decode_utf8_val(&mut r), Ok(127));
    let mut r = BitReader::new(vec![0xC2, 0x80]);
    assert_eq!(decode_utf8_val(&mut r), Ok(128));
    let mut r = BitReader::new(vec![0xFE, 0xBF, 0xBF, 0xBF, 0xBF, 0xBF, 0xBF]);
    assert_eq!(decode_utf8_val(&mut r), Ok(0xF_FFFF_FFFF));
    let mut r = BitReader::new(vec![0xC2, 0x40]);
    assert_eq!(decode_utf8_val(&mut r), Err(FlacError::MalformedVarint));
    let mut r = BitReader::new(vec![0x80]);
    assert_eq!(decode_utf8_val(&mut r), Err(FlacError::MalformedVarint));
    let mut r = BitReader::new(vec![0xE2, 0x80]);
    assert_eq!(decode_utf8_val(&mut r), Err(FlacError::UnexpectedEnd));
}

fn header_bytes(bs_code: u64, extra: &[u8]) -> Vec<u8> {
    let mut w = BitWriter::new();
    w.put(0x3FFE, 14);
    w.put(0, 2);
    w.put(bs_code, 4);
    w.put(9, 4);
    w.put(1, 4);
    w.put(4, 3);
    w.put(0, 1);
    w.put(0, 8);
    for b in extra {
        w.put(*b as u64, 8);
    }
    let c = crc8(&w.bytes);
    w.put(c as u64, 8);
    w.bytes
}

#[test]
fn block_size_code_boundaries() {
    let mut r = BitReader::new(header_bytes(6, &[0]));
    let h = FrameHeader::parse(&mut r, 0, 0, ChecksumPolicy::Strict).unwrap();
    assert_eq!(h.block_size, 1);
    let mut r = BitReader::new(header_bytes(7, &[0xFF, 0xFF]));
    let h = FrameHeader::parse(&mut r, 0, 0, ChecksumPolicy::Strict).unwrap();
    assert_eq!(h.block_size, 65536);
    assert_eq!(h.sample_rate, 44100);
    assert_eq!(h.channel_val, Channels::LR);
    assert_eq!(h.sample_size, 16);
    let mut r = BitReader::new(header_bytes(1, &[]));
    assert_eq!(FrameHeader::parse(&mut r, 0, 0, ChecksumPolicy::Strict).unwrap().block_size, 192);
    let mut r = BitReader::new(header_bytes(5, &[]));
    assert_eq!(FrameHeader::parse(&mut r, 0, 0, ChecksumPolicy::Strict).unwrap().block_size, 4608);
    let mut r = BitReader::new(header_bytes(15, &[]));
    assert_eq!(FrameHeader::parse(&mut r, 0, 0, ChecksumPolicy::Strict).unwrap().block_size, 32768);
    let mut r = BitReader::new(header_bytes(0, &[]));
    assert_eq!(FrameHeader::parse(&mut r, 0, 0, ChecksumPolicy::Strict).err(), Some(FlacError::ReservedCodeUsed));
}

#[test]
fn header_sync_and_checksum() {
    let mut bytes = header_bytes(1, &[]);
    bytes[0] = 0x00;
    let mut r = BitReader::new(bytes);
    assert_eq!(FrameHeader::parse(&mut r, 0, 0, ChecksumPolicy::Strict).err(), Some(FlacError::SyncLost));
    let mut bytes = header_bytes(1, &[]);
    let n = bytes.len();
    bytes[n - 1] ^= 1;
    let mut r = BitReader::new(bytes.clone());
    assert_eq!(FrameHeader::parse(&mut r, 0, 0, ChecksumPolicy::Strict).err(), Some(FlacError::ChecksumMismatch));
    let mut r = BitReader::new(bytes);
    let h = FrameHeader::parse(&mut r, 0, 0, ChecksumPolicy::Lenient).unwrap();
    assert!(!h.crc_ok);
}

#[test]
fn rice_round_trip_all_parameters() {
    let values: [i64; 9] = [0, 1, -1, 2, -2, 37, -38, 1000, -1001];
    for param in 0..31u32 {
        let mut w = BitWriter::new();
        for &v in &values {
            w.rice(v, param);
        }
        w.put(0, 8);
        let mut r = BitReader::new(w.bytes);
        for &v in &values {
            assert_eq!(read_rice(&mut r, param), Ok(v));
        }
    }
}

#[test]
fn escaped_partition_raw_widths() {
    for width in 1..32u32 {
        let lo = -(1i64 << (width - 1));
        let hi = (1i64 << (width - 1)) - 1;
        let samples = [lo, hi, 0, lo / 2, hi / 3];
        let mut w = BitWriter::new();
        w.put(0, 1);
        w.put(8, 6);
        w.put(0, 1);
        w.put(0, 2);
        w.put(0, 4);
        w.put(15, 4);
        w.put(width as u64, 5);
        for &s in &samples {
            w.put_signed(s, width);
        }
        w.put(0, 8);
        let mut r = BitReader::new(w.bytes);
        let sf = Subframe::parse(&mut r, 32, 5).unwrap();
        assert_eq!(sf.samples, samples.to_vec());
    }
}

#[test]
fn mid_side_recombination() {
    let pairs: [(i64, i64); 7] = [(0, 0), (5, 2), (2, 5), (-3, 4), (4, -3), (-7, -8), (1000, -999)];
    for &(l, r) in &pairs {
        let mid = (l + r) >> 1;
        let side = l - r;
        assert_eq!(restore_pair(Channels::MS, mid, side), (l, r));
        assert_eq!(restore_pair(Channels::LS, l, side), (l, r));
        assert_eq!(restore_pair(Channels::SR, side, r), (l, r));
    }
    assert_eq!(restore_pair(Channels::MS, 3, 1), (4, 3));
}

fn decode_one(frame: Vec<u8>, rate: u32, bps: u8) -> Frame {
    let mut r = BitReader::new(frame);
    Frame::parse(&mut r, rate, bps, ChecksumPolicy::Strict).unwrap()
}

fn test_signal(n: usize, bits: u32) -> Vec<i64> {
    let amp = (1i64 << (bits - 2)) - 1;
    (0..n)
        .map(|i| {
            let x = ((i as i64 * 7919) % 257) - 128;
            (x * amp) / 128
        })
        .collect()
}

#[test]
fn fixed_predictor_round_trip() {
    for &bits in &[8u32, 16, 24] {
        for order in 0..5usize {
            let s = test_signal(16, bits);
            let res = fixed_residuals(order, &s);
            let mut w = BitWriter::new();
            frame_header(&mut w, 0, 16, 0, 0);
            w.put(0, 1);
            w.put(8 + order as u64, 6);
            w.put(0, 1);
            for i in 0..order {
                w.put_signed(s[i], bits);
            }
            w.put(1, 2);
            w.put(0, 4);
            w.put(31, 5);
            w.put(bits as u64 + 3, 5);
            for &v in &res {
                w.put_signed(v, bits + 3);
            }
            frame_footer(&mut w, 0);
            let f = decode_one(w.bytes, 44100, bits as u8);
            assert_eq!(f.channels, vec![s.clone()]);
        }
    }
}

#[test]
fn lpc_round_trip() {
    let coefs: [i64; 3] = [3, -2, 1];
    let shift = 1u32;
    for &bits in &[8u32, 16, 24] {
        let s = test_signal(8, bits);
        let res = lpc_residuals(&coefs, shift, &s);
        let mut w = BitWriter::new();
        frame_header(&mut w, 0, 8, 0, 0);
        w.put(0, 1);
        w.put(32 + 2, 6);
        w.put(0, 1);
        for i in 0..3 {
            w.put_signed(s[i], bits);
        }
        w.put(3, 4);
        w.put(shift as u64, 5);
        for &c in &coefs {
            w.put_signed(c, 4);
        }
        w.put(1, 2);
        w.put(0, 4);
        w.put(31, 5);
        w.put(bits as u64 + 4, 5);
        for &v in &res {
            w.put_signed(v, bits + 4);
        }
        frame_footer(&mut w, 0);
        let f = decode_one(w.bytes, 44100, bits as u8);
        assert_eq!(f.channels, vec![s.clone()]);
        assert_eq!(f.subframes[0].order, 3);
        assert_eq!(f.subframes[0].sub_type, SubframeType::LPC);
    }
}

#[test]
fn negative_lpc_shift_rejected() {
    let mut w = BitWriter::new();
    w.put(0, 1);
    w.put(32, 6);
    w.put(0, 1);
    w.put_signed(5, 8);
    w.put(3, 4);
    w.put_signed(-1, 5);
    w.put(0, 16);
    let mut r = BitReader::new(w.bytes);
    assert_eq!(Subframe::parse(&mut r, 8, 4).err(), Some(FlacError::InvalidShift));
}

#[test]
fn partition_order_must_divide_block() {
    let mut w = BitWriter::new();
    w.put(0, 1);
    w.put(8, 6);
    w.put(0, 1);
    w.put(0, 2);
    w.put(2, 4);
    w.put(0, 16);
    let mut r = BitReader::new(w.bytes);
    assert_eq!(Subframe::parse(&mut r, 8, 6).err(), Some(FlacError::InvalidPartitionOrder));
}

#[test]
fn constant_verbatim_and_wasted_bits() {
    let mut w = BitWriter::new();
    w.put(0, 1);
    w.put(0, 6);
    w.put(1, 1);
    w.unary(1);
    w.put_signed(-3, 14);
    w.put(0, 8);
    let mut r = BitReader::new(w.bytes);
    let sf = Subframe::parse(&mut r, 16, 3).unwrap();
    assert_eq!(sf.wasted_bits, 2);
    assert_eq!(sf.samples, vec![-12, -12, -12]);

    let mut w = BitWriter::new();
    w.put(0, 1);
    w.put(1, 6);
    w.put(0, 1);
    for v in [7i64, -8, 0, 3] {
        w.put_signed(v, 4);
    }
    let mut r = BitReader::new(w.bytes);
    let sf = Subframe::parse(&mut r, 4, 4).unwrap();
    assert_eq!(sf.sub_type, SubframeType::Verbatim);
    assert_eq!(sf.samples, vec![7, -8, 0, 3]);
}

#[test]
fn reserved_subframe_type_rejected() {
    let mut w = BitWriter::new();
    w.put(0, 1);
    w.put(2, 6);
    w.put(0, 1);
    w.put(0, 8);
    let mut r = BitReader::new(w.bytes);
    assert_eq!(Subframe::parse(&mut r, 8, 4).err(), Some(FlacError::ReservedCodeUsed));
}

#[test]
fn stereo_frames_decorrelate() {
    let left: Vec<i64> = vec![10, -20, 30, 41];
    let right: Vec<i64> = vec![9, -25, 31, -40];
    for &code in &[1u64, 8, 9, 10] {
        let (a, b): (Vec<i64>, Vec<i64>) = match code {
            8 => (left.clone(), left.iter().zip(&right).map(|(l, r)| l - r).collect()),
            9 => (left.iter().zip(&right).map(|(l, r)| l - r).collect(), right.clone()),
            10 => (
                left.iter().zip(&right).map(|(l, r)| (l + r) >> 1).collect(),
                left.iter().zip(&right).map(|(l, r)| l - r).collect(),
            ),
            _ => (left.clone(), right.clone()),
        };
        let mut w = BitWriter::new();
        frame_header(&mut w, 0, 4, code, 0);
        for (i, ch) in [&a, &b].iter().enumerate() {
            let extra = if (code == 8 && i == 1) || (code == 9 && i == 0) { 1 } else { 0 };
            w.put(0, 1);
            w.put(1, 6);
            w.put(0, 1);
            for &v in ch.iter() {
                w.put_signed(v, 16 + extra);
            }
        }
        frame_footer(&mut w, 0);
        let f = decode_one(w.bytes, 44100, 16);
        assert_eq!(f.channels, vec![left.clone(), right.clone()], "channel code {}", code);
    }
}

#[test]
fn too_many_wasted_bits() {
    let mut w = BitWriter::new();
    w.put(0, 1);
    w.put(0, 6);
    w.put(1, 1);
    w.unary(4);
    w.put(0, 16);
    let mut r = BitReader::new(w.bytes);
    assert_eq!(Subframe::parse(&mut r, 4, 2).err(), Some(FlacError::InvalidWastedBits));
}

#[test]
fn oversized_rice_residual() {
    let mut w = BitWriter::new();
    w.unary(8);
    w.put(0, 30);
    w.put(0, 8);
    let mut r = BitReader::new(w.bytes);
    assert_eq!(read_rice(&mut r, 30), Err(FlacError::SampleOverflow));
    let mut w = BitWriter::new();
    w.unary(7);
    w.put((1 << 30) - 1, 30);
    w.put(0, 8);
    let mut r = BitReader::new(w.bytes);
    assert_eq!(read_rice(&mut r, 30), Ok(-(1i64 << 32)));
}

#[test]
fn prediction_out_of_range() {
    let mut w = BitWriter::new();
    w.put(0, 1);
    w.put(8 + 2, 6);
    w.put(0, 1);
    w.put_signed(-(1i64 << 31), 32);
    w.put_signed((1i64 << 31) - 1, 32);
    residual_block(&mut w, &[0, 0], 0);
    w.put(0, 8);
    let mut r = BitReader::new(w.bytes);
    assert_eq!(Subframe::parse(&mut r, 32, 4).err(), Some(FlacError::SampleOverflow));
}
