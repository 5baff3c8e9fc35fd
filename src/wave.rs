//! RIFF/WAVE files: reading the header, format, LIST/INFO and data chunks,
//! and writing a PCM header.
use vstd::prelude::*;

use crate::bytes::{le16, le32, le_u16_at, le_u32_at};

verus! {

/// Every way in which reading a WAVE file can fail.
#[derive(Debug, Clone, Copy, PartialEq, Eq, Structural)]
pub enum WaveError {
    /// The input ended inside a field.
    UnexpectedEnd,
    /// A chunk other than LIST came before the data chunk.
    UnknownChunk,
}

/// The chunk tags as little-endian numbers.
pub const TAG_DATA: u32 = 0x6174_6164;
pub const TAG_LIST: u32 = 0x5453_494C;
pub const TAG_INFO: u32 = 0x4F46_4E49;

pub open spec fn le16_at(d: Seq<u8>, i: int) -> nat {
    le16(d[i], d[i + 1])
}

pub open spec fn le32_at(d: Seq<u8>, i: int) -> nat {
    le32(d[i], d[i + 1], d[i + 2], d[i + 3])
}

/// The format chunk.
#[derive(Debug, Clone, Copy, PartialEq, Eq, Structural)]
pub struct Fmt {
    pub id: u32,
    pub size: u32,
    pub audio_fmt: u16,
    pub num_channels: u16,
    pub sample_rate: u32,
    pub byte_rate: u32,
    pub block_align: u16,
    pub bits_per_sample: u16,
}

/// The 24-byte format chunk at byte `i`.
pub open spec fn fmt_spec(d: Seq<u8>, i: int) -> Fmt {
    Fmt {
        id: le32_at(d, i) as u32,
        size: le32_at(d, i + 4) as u32,
        audio_fmt: le16_at(d, i + 8) as u16,
        num_channels: le16_at(d, i + 10) as u16,
        sample_rate: le32_at(d, i + 12) as u32,
        byte_rate: le32_at(d, i + 16) as u32,
        block_align: le16_at(d, i + 20) as u16,
        bits_per_sample: le16_at(d, i + 22) as u16,
    }
}

/// One INFO entry: a tag and its text.
pub struct InfoEntry {
    pub tag: u32,
    pub text: Vec<u8>,
}

/// The first index of `entries` whose tag is `tag`, or `entries.len()`.
pub open spec fn find_tag(entries: Seq<(u32, Seq<u8>)>, tag: u32) -> int
    decreases entries.len(),
{
    if entries.len() == 0 {
        0
    } else if entries[0].0 == tag {
        0
    } else {
        1 + find_tag(entries.drop_first(), tag)
    }
}

/// `entries` with `tag` set to `text`: a tag already present keeps its place.
pub open spec fn info_insert(entries: Seq<(u32, Seq<u8>)>, tag: u32, text: Seq<u8>) -> Seq<
    (u32, Seq<u8>),
> {
    let i = find_tag(entries, tag);
    if i < entries.len() {
        entries.update(i, (tag, text))
    } else {
        entries.push((tag, text))
    }
}

/// The INFO entries from byte `i`, where `cur` counts the list's bytes read so
/// far out of `size`, and `acc` holds the entries before `i`. Each entry is a
/// tag, a text length and the text, padded to an even count; the padding byte
/// must be present.
pub open spec fn info_spec(d: Seq<u8>, i: int, cur: int, size: int, acc: Seq<(u32, Seq<u8>)>) -> Option<
    (Seq<(u32, Seq<u8>)>, int),
>
    decreases d.len() - i,
{
    if cur >= size {
        Some((acc, i))
    } else if i < 0 || i + 8 > d.len() {
        None
    } else {
        let tag = le32_at(d, i) as u32;
        let n = le32_at(d, i + 4);
        let pad: int = if (cur + 8 + n) % 2 != 0 {
            1
        } else {
            0
        };
        if i + 8 + n + pad > d.len() {
            None
        } else {
            let text = d.subrange(i + 8, i + 8 + n);
            info_spec(d, i + 8 + n + pad, cur + 8 + n + pad, size, info_insert(acc, tag, text))
        }
    }
}

/// What a LIST chunk holds.
pub struct ListView {
    pub size: u32,
    pub type_id: u32,
    pub info: Option<Seq<(u32, Seq<u8>)>>,
}

/// The LIST chunk whose size field is at byte `i`, and the byte after it.
pub open spec fn list_spec(d: Seq<u8>, i: int) -> Option<(ListView, int)> {
    if i < 0 || i + 8 > d.len() {
        None
    } else {
        let size = le32_at(d, i);
        let type_id = le32_at(d, i + 4);
        if type_id == TAG_INFO {
            match info_spec(d, i + 8, 4, size as int, seq![]) {
                None => None,
                Some((entries, end)) => Some(
                    (ListView { size: size as u32, type_id: type_id as u32, info: Some(entries) }, end),
                ),
            }
        } else if size < 4 || i + 4 + size > d.len() {
            None
        } else {
            Some((ListView { size: size as u32, type_id: type_id as u32, info: None }, i + 4 + size))
        }
    }
}

/// The chunks from byte `i` up to the data chunk's tag: the last LIST chunk
/// seen, and the byte after the data tag.
pub open spec fn chunks_spec(d: Seq<u8>, i: int, list: Option<ListView>) -> Result<
    (Option<ListView>, int),
    WaveError,
>
    decreases d.len() - i,
{
    if i < 0 || i + 4 > d.len() {
        Err(WaveError::UnexpectedEnd)
    } else {
        let id = le32_at(d, i);
        if id == TAG_DATA {
            Ok((list, i + 4))
        } else if id == TAG_LIST {
            match list_spec(d, i + 4) {
                None => Err(WaveError::UnexpectedEnd),
                Some((l, end)) => if end <= i || end > d.len() {
                    Err(WaveError::UnexpectedEnd)
                } else {
                    chunks_spec(d, end, Some(l))
                },
            }
        } else {
            Err(WaveError::UnknownChunk)
        }
    }
}

/// What a WAVE file holds.
pub struct WaveView {
    pub chunk_size: u32,
    pub format: u32,
    pub fmt: Fmt,
    pub list: Option<ListView>,
    pub data_size: u32,
    pub data: Seq<u8>,
}

/// A WAVE file whose bytes after the `RIFF` tag are `d`.
pub open spec fn wave_spec(d: Seq<u8>) -> Result<WaveView, WaveError> {
    if d.len() < 32 {
        Err(WaveError::UnexpectedEnd)
    } else {
        match chunks_spec(d, 32, None) {
            Err(e) => Err(e),
            Ok((list, j)) => if j + 4 > d.len() {
                Err(WaveError::UnexpectedEnd)
            } else {
                Ok(
                    WaveView {
                        chunk_size: le32_at(d, 0) as u32,
                        format: le32_at(d, 4) as u32,
                        fmt: fmt_spec(d, 8),
                        list,
                        data_size: le32_at(d, j) as u32,
                        data: d.subrange(j + 4, d.len() as int),
                    },
                )
            },
        }
    }
}

/// A LIST chunk.
pub struct List {
    pub size: u32,
    pub type_id: u32,
    pub info: Option<Vec<InfoEntry>>,
}

/// The data chunk.
pub struct Data {
    pub size: u32,
    pub data: Vec<u8>,
}

/// A WAVE file.
pub struct Wave {
    pub chunk_size: u32,
    pub format: u32,
    pub fmt: Fmt,
    pub list: Option<List>,
    pub data: Data,
}

pub open spec fn entries_view(e: Seq<InfoEntry>) -> Seq<(u32, Seq<u8>)> {
    Seq::new(e.len(), |k: int| (e[k].tag, e[k].text@))
}

impl View for List {
    type V = ListView;

    open spec fn view(&self) -> ListView {
        ListView {
            size: self.size,
            type_id: self.type_id,
            info: match &self.info {
                Some(e) => Some(entries_view(e@)),
                None => None,
            },
        }
    }
}

impl View for Wave {
    type V = WaveView;

    open spec fn view(&self) -> WaveView {
        WaveView {
            chunk_size: self.chunk_size,
            format: self.format,
            fmt: self.fmt,
            list: match &self.list {
                Some(l) => Some(l@),
                None => None,
            },
            data_size: self.data.size,
            data: self.data.data@,
        }
    }
}

proof fn lemma_find_tag(entries: Seq<(u32, Seq<u8>)>, tag: u32, j: int)
    requires
        0 <= j <= entries.len(),
        forall|k: int| 0 <= k < j ==> entries[k].0 != tag,
        j == entries.len() || entries[j].0 == tag,
    ensures
        find_tag(entries, tag) == j,
    decreases entries.len(),
{
    if entries.len() > 0 && j > 0 {
        lemma_find_tag(entries.drop_first(), tag, j - 1);
    }
}

fn copy_range(d: &[u8], from: usize, to: usize) -> (r: Vec<u8>)
    requires
        from <= to <= d@.len(),
    ensures
        r@ == d@.subrange(from as int, to as int),
{
    let mut out: Vec<u8> = Vec::new();
    let mut i: usize = from;
    while i < to
        invariant
            from <= i <= to <= d@.len(),
            out@ =~= d@.subrange(from as int, i as int),
        decreases to - i,
    {
        out.push(d[i]);
        i = i + 1;
    }
    out
}

fn insert_entry(entries: &mut Vec<InfoEntry>, tag: u32, text: Vec<u8>)
    ensures
        entries_view(final(entries)@) == info_insert(entries_view(old(entries)@), tag, text@),
{
    let ghost ev = entries_view(entries@);
    let mut j: usize = 0;
    while j < entries.len()
        invariant
            ev == entries_view(entries@),
            entries@ == old(entries)@,
            j <= entries.len(),
            forall|k: int| 0 <= k < j ==> ev[k].0 != tag,
        decreases entries.len() - j,
    {
        if entries[j].tag == tag {
            proof {
                lemma_find_tag(ev, tag, j as int);
            }
            entries.set(j, InfoEntry { tag, text });
            proof {
                assert(entries_view(entries@) =~= ev.update(j as int, (tag, text@)));
            }
            return ;
        }
        j = j + 1;
    }
    proof {
        lemma_find_tag(ev, tag, j as int);
    }
    entries.push(InfoEntry { tag, text });
    proof {
        assert(entries_view(entries@) =~= ev.push((tag, text@)));
    }
}

fn parse_info(d: &[u8], start: usize, size: u32) -> (r: Option<(Vec<InfoEntry>, usize)>)
    requires
        start <= d@.len(),
    ensures
        match info_spec(d@, start as int, 4, size as int, seq![]) {
            Some((e, end)) => r is Some && entries_view(r->Some_0.0@) == e && r->Some_0.1 == end,
            None => r is None,
        },
{
    let mut entries: Vec<InfoEntry> = Vec::new();
    let mut i: usize = start;
    let mut cur: u64 = 4;
    proof {
        assert(entries_view(entries@) =~= seq![]);
    }
    while cur < size as u64
        invariant
            i <= d@.len(),
            cur <= 0x1_0000_0000 + 0x2_0000_0000,
            info_spec(d@, start as int, 4, size as int, seq![]) == info_spec(
                d@,
                i as int,
                cur as int,
                size as int,
                entries_view(entries@),
            ),
        decreases d@.len() - i,
    {
        if d.len() - i < 8 {
            return None;
        }
        let tag = le_u32_at(d, i);
        let n = le_u32_at(d, i + 4) as usize;
        let pad: usize = if (cur + 8 + n as u64) % 2 != 0 {
            1
        } else {
            0
        };
        if d.len() - i - 8 < n || d.len() - i - 8 - n < pad {
            return None;
        }
        let text = copy_range(d, i + 8, i + 8 + n);
        insert_entry(&mut entries, tag, text);
        i = i + 8 + n + pad;
        cur = cur + 8 + n as u64 + pad as u64;
    }
    Some((entries, i))
}

fn parse_list(d: &[u8], i: usize) -> (r: Option<(List, usize)>)
    ensures
        match list_spec(d@, i as int) {
            Some((l, end)) => r is Some && r->Some_0.0@ == l && r->Some_0.1 == end,
            None => r is None,
        },
{
    if i > d.len() || d.len() - i < 8 {
        return None;
    }
    let size = le_u32_at(d, i);
    let type_id = le_u32_at(d, i + 4);
    if type_id == TAG_INFO {
        match parse_info(d, i + 8, size) {
            None => None,
            Some((entries, end)) => Some((List { size, type_id, info: Some(entries) }, end)),
        }
    } else if size < 4 || d.len() - i - 4 < size as usize {
        None
    } else {
        Some((List { size, type_id, info: None }, i + 4 + size as usize))
    }
}

/// The four bytes of `n`, low byte first.
pub open spec fn le32_bytes(n: nat) -> Seq<u8> {
    seq![(n % 256) as u8, ((n / 256) % 256) as u8, ((n / 65536) % 256) as u8, ((n / 16777216) % 256) as u8]
}

/// The two bytes of `n`, low byte first.
pub open spec fn le16_bytes(n: nat) -> Seq<u8> {
    seq![(n % 256) as u8, ((n / 256) % 256) as u8]
}

fn push_le32(out: &mut Vec<u8>, n: u32)
    ensures
        final(out)@ == old(out)@ + le32_bytes(n as nat),
{
    out.push((n % 256) as u8);
    out.push(((n / 256) % 256) as u8);
    out.push(((n / 65536) % 256) as u8);
    out.push(((n / 16777216) % 256) as u8);
    proof {
        assert(final(out)@ =~= old(out)@ + le32_bytes(n as nat));
    }
}

fn push_le16(out: &mut Vec<u8>, n: u16)
    ensures
        final(out)@ == old(out)@ + le16_bytes(n as nat),
{
    out.push((n % 256) as u8);
    out.push(((n / 256) % 256) as u8);
    proof {
        assert(final(out)@ =~= old(out)@ + le16_bytes(n as nat));
    }
}

/// The header that `Wave::write` produces: the RIFF size, `WAVE`, a 16-byte
/// PCM format chunk tagged ` fmt`, and the data tag with the data's length.
pub open spec fn wave_header(num_channels: u16, sample_rate: u32, bits_per_sample: u16, len: nat) -> Seq<u8> {
    le32_bytes(((20 + len) % 0x1_0000_0000) as nat) + seq![0x57u8, 0x41u8, 0x56u8, 0x45u8]
        + seq![0x20u8, 0x66u8, 0x6du8, 0x74u8] + le32_bytes(16) + le16_bytes(1) + le16_bytes(
        num_channels as nat,
    ) + le32_bytes(sample_rate as nat) + le32_bytes(
        ((sample_rate * num_channels * bits_per_sample) / 8) as nat,
    ) + le16_bytes(((num_channels * bits_per_sample) / 8) as nat) + le16_bytes(
        bits_per_sample as nat,
    ) + seq![0x64u8, 0x61u8, 0x74u8, 0x61u8] + le32_bytes((len % 0x1_0000_0000) as nat)
}

pub open spec fn list_view(l: Option<List>) -> Option<ListView> {
    match l {
        Some(l) => Some(l@),
        None => None,
    }
}

impl Wave {
    /// Writes the header of a PCM WAVE file for `data`, from the size field
    /// after the `RIFF` tag up to the data chunk's length.
    pub fn write(num_channels: u16, sample_rate: u32, bits_per_sample: u16, data: Vec<u8>) -> (r: Vec<
        u8,
    >)
        requires
            sample_rate * num_channels <= u32::MAX,
            sample_rate * num_channels * bits_per_sample <= u32::MAX,
            num_channels * bits_per_sample <= u16::MAX,
            data@.len() + 20 <= usize::MAX,
        ensures
            r@ == wave_header(num_channels, sample_rate, bits_per_sample, data@.len()),
    {
        let byte_rate = (sample_rate * (num_channels as u32) * (bits_per_sample as u32)) / 8;
        let block_align = (num_channels * bits_per_sample) / 8;
        let chunk_size = (((4 + 16 + data.len()) as u64) % 0x1_0000_0000) as u32;
        let mut out: Vec<u8> = Vec::new();
        push_le32(&mut out, chunk_size);
        out.push(0x57u8);
        out.push(0x41u8);
        out.push(0x56u8);
        out.push(0x45u8);
        out.push(0x20u8);
        out.push(0x66u8);
        out.push(0x6du8);
        out.push(0x74u8);
        push_le32(&mut out, 16);
        push_le16(&mut out, 1);
        push_le16(&mut out, num_channels);
        push_le32(&mut out, sample_rate);
        push_le32(&mut out, byte_rate);
        push_le16(&mut out, block_align);
        push_le16(&mut out, bits_per_sample);
        out.push(0x64u8);
        out.push(0x61u8);
        out.push(0x74u8);
        out.push(0x61u8);
        push_le32(&mut out, ((data.len() as u64) % 0x1_0000_0000) as u32);
        proof {
            assert(out@ =~= wave_header(num_channels, sample_rate, bits_per_sample, data@.len()));
        }
        out
    }

    /// Reads a WAVE file from the bytes after its `RIFF` tag.
    pub fn parse(d: &[u8]) -> (r: Result<Wave, WaveError>)
        ensures
            match wave_spec(d@) {
                Ok(v) => r is Ok && r->Ok_0@ == v,
                Err(e) => r == Err::<Wave, WaveError>(e),
            },
    {
        if d.len() < 32 {
            return Err(WaveError::UnexpectedEnd);
        }
        let chunk_size = le_u32_at(d, 0);
        let format = le_u32_at(d, 4);
        let fmt = Fmt {
            id: le_u32_at(d, 8),
            size: le_u32_at(d, 12),
            audio_fmt: le_u16_at(d, 16),
            num_channels: le_u16_at(d, 18),
            sample_rate: le_u32_at(d, 20),
            byte_rate: le_u32_at(d, 24),
            block_align: le_u16_at(d, 28),
            bits_per_sample: le_u16_at(d, 30),
        };
        let mut i: usize = 32;
        let mut list: Option<List> = None;
        let mut found = false;
        while !found
            invariant
                i <= d@.len(),
                !found ==> chunks_spec(d@, 32, None) == chunks_spec(d@, i as int, list_view(list)),
                found ==> chunks_spec(d@, 32, None) == Ok::<(Option<ListView>, int), WaveError>(
                    (list_view(list), i as int),
                ),
            decreases d@.len() - i, if found {
                0int
            } else {
                1int
            },
        {
            if d.len() - i < 4 {
                return Err(WaveError::UnexpectedEnd);
            }
            let id = le_u32_at(d, i);
            if id == TAG_DATA {
                i = i + 4;
                found = true;
            } else if id == TAG_LIST {
                match parse_list(d, i + 4) {
                    None => return Err(WaveError::UnexpectedEnd),
                    Some((l, end)) => {
                        if end <= i || end > d.len() {
                            return Err(WaveError::UnexpectedEnd);
                        }
                        i = end;
                        list = Some(l);
                    },
                }
            } else {
                return Err(WaveError::UnknownChunk);
            }
        }
        if d.len() - i < 4 {
            return Err(WaveError::UnexpectedEnd);
        }
        let size = le_u32_at(d, i);
        let data = copy_range(d, i + 4, d.len());
        Ok(Wave { chunk_size, format, fmt, list, data: Data { size, data } })
    }
}

} // verus!
