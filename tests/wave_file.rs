use surfboard::wave::{Wave, WaveError, TAG_INFO};

fn le32(n: u32) -> Vec<u8> {
    n.to_le_bytes().to_vec()
}

fn fmt_chunk() -> Vec<u8> {
    let mut v = Vec::new();
    v.extend_from_slice(b"fmt ");
    v.extend(le32(16));
    v.extend_from_slice(&1u16.to_le_bytes());
    v.extend_from_slice(&2u16.to_le_bytes());
    v.extend(le32(44100));
    v.extend(le32(176400));
    v.extend_from_slice(&4u16.to_le_bytes());
    v.extend_from_slice(&16u16.to_le_bytes());
    v
}

#[test]
fn write_header_layout() {
    let out = Wave::write(1, 44100, 8, vec![1, 2, 3]);
    let mut expected = Vec::new();
    expected.extend(le32(23));
    expected.extend_from_slice(b"WAVE");
    expected.extend_from_slice(b" fmt");
    expected.extend(le32(16));
    expected.extend_from_slice(&1u16.to_le_bytes());
    expected.extend_from_slice(&1u16.to_le_bytes());
    expected.extend(le32(44100));
    expected.extend(le32(44100));
    expected.extend_from_slice(&1u16.to_le_bytes());
    expected.extend_from_slice(&8u16.to_le_bytes());
    expected.extend_from_slice(b"data");
    expected.extend(le32(3));
    assert_eq!(out, expected);
}

#[test]
fn parse_with_info_list() {
    let mut d = Vec::new();
    d.extend(le32(100));
    d.extend_from_slice(b"WAVE");
    d.extend(fmt_chunk());
    d.extend_from_slice(b"LIST");
    let mut info = Vec::new();
    info.extend_from_slice(b"INFO");
    info.extend_from_slice(b"INAM");
    info.extend(le32(3));
    info.extend_from_slice(b"abc");
    info.push(0);
    info.extend_from_slice(b"IART");
    info.extend(le32(2));
    info.extend_from_slice(b"xy");
    info.extend_from_slice(b"INAM");
    info.extend(le32(2));
    info.extend_from_slice(b"zz");
    d.extend(le32(info.len() as u32));
    d.extend(info);
    d.extend_from_slice(b"data");
    d.extend(le32(4));
    d.extend_from_slice(&[9, 8, 7, 6]);
    let w = Wave::parse(&d).unwrap();
    assert_eq!(w.chunk_size, 100);
    assert_eq!(w.fmt.num_channels, 2);
    assert_eq!(w.fmt.sample_rate, 44100);
    assert_eq!(w.fmt.bits_per_sample, 16);
    assert_eq!(w.data.size, 4);
    assert_eq!(w.data.data, vec![9, 8, 7, 6]);
    let list = w.list.unwrap();
    assert_eq!(list.type_id, TAG_INFO);
    let entries = list.info.unwrap();
    assert_eq!(entries.len(), 2);
    assert_eq!(entries[0].tag, u32::from_le_bytes(*b"INAM"));
    assert_eq!(entries[0].text, b"zz".to_vec());
    assert_eq!(entries[1].tag, u32::from_le_bytes(*b"IART"));
    assert_eq!(entries[1].text, b"xy".to_vec());
}

#[test]
fn parse_rejects_unknown_chunk() {
    let mut d = Vec::new();
    d.extend(le32(100));
    d.extend_from_slice(b"WAVE");
    d.extend(fmt_chunk());
    d.extend_from_slice(b"junk");
    d.extend(le32(0));
    assert!(matches!(Wave::parse(&d), Err(WaveError::UnknownChunk)));
}

#[test]
fn parse_short_input() {
    assert!(matches!(Wave::parse(&[1, 2, 3]), Err(WaveError::UnexpectedEnd)));
}
