//! The two checksums of a frame: CRC-8 (polynomial 0x07) over the header and
//! CRC-16 (polynomial 0x8005) over the whole frame, both starting from zero.
use vstd::prelude::*;

verus! {

/// One bit step of CRC-8.
pub open spec fn crc8_bit(c: u8) -> u8 {
    if c & 0x80u8 != 0 {
        ((c << 1u8) ^ 0x07u8) as u8
    } else {
        (c << 1u8) as u8
    }
}

/// `k` bit steps of CRC-8.
pub open spec fn crc8_bits(c: u8, k: nat) -> u8
    decreases k,
{
    if k == 0 {
        c
    } else {
        crc8_bits(crc8_bit(c), (k - 1) as nat)
    }
}

/// CRC-8 of the bytes `s`.
pub open spec fn crc8(s: Seq<u8>) -> u8
    decreases s.len(),
{
    if s.len() == 0 {
        0
    } else {
        crc8_bits(crc8(s.drop_last()) ^ s.last(), 8)
    }
}

/// One bit step of CRC-16.
pub open spec fn crc16_bit(c: u16) -> u16 {
    if c & 0x8000u16 != 0 {
        ((c << 1u16) ^ 0x8005u16) as u16
    } else {
        (c << 1u16) as u16
    }
}

/// `k` bit steps of CRC-16.
pub open spec fn crc16_bits(c: u16, k: nat) -> u16
    decreases k,
{
    if k == 0 {
        c
    } else {
        crc16_bits(crc16_bit(c), (k - 1) as nat)
    }
}

/// CRC-16 of the bytes `s`.
pub open spec fn crc16(s: Seq<u8>) -> u16
    decreases s.len(),
{
    if s.len() == 0 {
        0
    } else {
        crc16_bits(crc16(s.drop_last()) ^ ((s.last() as u16) << 8u16), 8)
    }
}

/// CRC-8 of `data[from..to]`.
pub fn crc8_range(data: &Vec<u8>, from: usize, to: usize) -> (r: u8)
    requires
        from <= to <= data.len(),
    ensures
        r == crc8(data@.subrange(from as int, to as int)),
{
    let mut c: u8 = 0;
    let mut i: usize = from;
    while i < to
        invariant
            from <= i <= to <= data.len(),
            c == crc8(data@.subrange(from as int, i as int)),
        decreases to - i,
    {
        let ghost prev = data@.subrange(from as int, i as int);
        let ghost next = data@.subrange(from as int, i + 1);
        assert(next.drop_last() =~= prev);
        let mut x: u8 = c ^ data[i];
        let mut k: u32 = 0;
        while k < 8
            invariant
                k <= 8,
                crc8_bits(x, (8 - k) as nat) == crc8_bits(c ^ data@[i as int], 8),
            decreases 8 - k,
        {
            x = if x & 0x80u8 != 0 {
                (x << 1u8) ^ 0x07u8
            } else {
                x << 1u8
            };
            k = k + 1;
        }
        c = x;
        i = i + 1;
    }
    c
}

/// CRC-16 of `data[from..to]`.
pub fn crc16_range(data: &Vec<u8>, from: usize, to: usize) -> (r: u16)
    requires
        from <= to <= data.len(),
    ensures
        r == crc16(data@.subrange(from as int, to as int)),
{
    let mut c: u16 = 0;
    let mut i: usize = from;
    while i < to
        invariant
            from <= i <= to <= data.len(),
            c == crc16(data@.subrange(from as int, i as int)),
        decreases to - i,
    {
        let ghost prev = data@.subrange(from as int, i as int);
        let ghost next = data@.subrange(from as int, i + 1);
        assert(next.drop_last() =~= prev);
        let mut x: u16 = c ^ ((data[i] as u16) << 8u16);
        let mut k: u32 = 0;
        while k < 8
            invariant
                k <= 8,
                crc16_bits(x, (8 - k) as nat) == crc16_bits(
                    c ^ ((data@[i as int] as u16) << 8u16),
                    8,
                ),
            decreases 8 - k,
        {
            x = if x & 0x8000u16 != 0 {
                (x << 1u16) ^ 0x8005u16
            } else {
                x << 1u16
            };
            k = k + 1;
        }
        c = x;
        i = i + 1;
    }
    c
}

} // verus!
