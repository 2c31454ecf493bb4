use vstd::prelude::*;

verus! {

/// The little-endian 32-bit number at offset `o` of `d`.
pub open spec fn u32_at(d: Seq<u8>, o: int) -> u32 {
    (d[o] as u32) | ((d[o + 1] as u32) << 8u32) | ((d[o + 2] as u32) << 16u32) | ((d[o + 3] as u32) << 24u32)
}

/// The little-endian 16-bit number at offset `o` of `d`.
pub open spec fn u16_at(d: Seq<u8>, o: int) -> u16 {
    (d[o] as u16) | ((d[o + 1] as u16) << 8u16)
}

/// The little-endian 16-bit signed number (two's complement) at offset `o` of `d`.
pub open spec fn i16_at(d: Seq<u8>, o: int) -> i16 {
    u16_at(d, o) as i16
}

/// The four little-endian bytes of `v`.
pub open spec fn le_u32(v: u32) -> Seq<u8> {
    seq![(v & 0xffu32) as u8, ((v >> 8u32) & 0xffu32) as u8, ((v >> 16u32) & 0xffu32) as u8, ((v >> 24u32) & 0xffu32) as u8]
}

/// The two little-endian bytes of `v`.
pub open spec fn le_u16(v: u16) -> Seq<u8> {
    seq![(v & 0xffu16) as u8, ((v >> 8u16) & 0xffu16) as u8]
}

/// The two little-endian bytes of `v` (two's complement).
pub open spec fn le_i16(v: i16) -> Seq<u8> {
    le_u16(v as u16)
}

/// The eight little-endian bytes of `v`.
pub open spec fn le_u64(v: u64) -> Seq<u8> {
    le_u32((v & 0xffff_ffffu64) as u32) + le_u32((v >> 32u64) as u32)
}

/// Reading back four written bytes gives the number.
pub proof fn lemma_u32_roundtrip(d: Seq<u8>, o: int, v: u32)
    requires
        0 <= o,
        o + 4 <= d.len(),
        d.subrange(o, o + 4) == le_u32(v),
    ensures
        u32_at(d, o) == v,
{
    assert(d[o] == le_u32(v)[0]);
    assert(d[o + 1] == le_u32(v)[1]);
    assert(d[o + 2] == le_u32(v)[2]);
    assert(d[o + 3] == le_u32(v)[3]);
    let b0 = (v & 0xffu32) as u8;
    let b1 = ((v >> 8u32) & 0xffu32) as u8;
    let b2 = ((v >> 16u32) & 0xffu32) as u8;
    let b3 = ((v >> 24u32) & 0xffu32) as u8;
    assert((b0 as u32) | ((b1 as u32) << 8u32) | ((b2 as u32) << 16u32) | ((b3 as u32) << 24u32) == v)
        by (bit_vector)
        requires
            b0 == (v & 0xffu32) as u8,
            b1 == ((v >> 8u32) & 0xffu32) as u8,
            b2 == ((v >> 16u32) & 0xffu32) as u8,
            b3 == ((v >> 24u32) & 0xffu32) as u8,
    ;
}

/// Reading back two written bytes gives the number.
pub proof fn lemma_i16_roundtrip(d: Seq<u8>, o: int, v: i16)
    requires
        0 <= o,
        o + 2 <= d.len(),
        d.subrange(o, o + 2) == le_i16(v),
    ensures
        i16_at(d, o) == v,
{
    assert(d[o] == le_i16(v)[0]);
    assert(d[o + 1] == le_i16(v)[1]);
    let u = v as u16;
    let b0 = (u & 0xffu16) as u8;
    let b1 = ((u >> 8u16) & 0xffu16) as u8;
    assert((((b0 as u16) | ((b1 as u16) << 8u16)) as i16) == v) by (bit_vector)
        requires
            u == v as u16,
            b0 == (u & 0xffu16) as u8,
            b1 == ((u >> 8u16) & 0xffu16) as u8,
    ;
}

/// Reading back two written bytes gives the number.
pub proof fn lemma_u16_roundtrip(d: Seq<u8>, o: int, v: u16)
    requires
        0 <= o,
        o + 2 <= d.len(),
        d.subrange(o, o + 2) == le_u16(v),
    ensures
        u16_at(d, o) == v,
{
    assert(d[o] == le_u16(v)[0]);
    assert(d[o + 1] == le_u16(v)[1]);
    let b0 = (v & 0xffu16) as u8;
    let b1 = ((v >> 8u16) & 0xffu16) as u8;
    assert(((b0 as u16) | ((b1 as u16) << 8u16)) == v) by (bit_vector)
        requires
            b0 == (v & 0xffu16) as u8,
            b1 == ((v >> 8u16) & 0xffu16) as u8,
    ;
}

/// Reads the little-endian 32-bit number at offset `o`.
pub fn read_u32(d: &[u8], o: usize) -> (v: u32)
    requires
        o + 4 <= d@.len(),
    ensures
        v == u32_at(d@, o as int),
{
    (d[o] as u32) | ((d[o + 1] as u32) << 8) | ((d[o + 2] as u32) << 16) | ((d[o + 3] as u32) << 24)
}

/// Reads the little-endian 16-bit number at offset `o`.
pub fn read_u16(d: &[u8], o: usize) -> (v: u16)
    requires
        o + 2 <= d@.len(),
    ensures
        v == u16_at(d@, o as int),
{
    (d[o] as u16) | ((d[o + 1] as u16) << 8)
}

/// Reads the little-endian 16-bit signed number at offset `o`.
pub fn read_i16(d: &[u8], o: usize) -> (v: i16)
    requires
        o + 2 <= d@.len(),
    ensures
        v == i16_at(d@, o as int),
{
    read_u16(d, o) as i16
}

/// Appends the four little-endian bytes of `v`.
pub fn push_u32(buf: &mut Vec<u8>, v: u32)
    ensures
        final(buf)@ == old(buf)@ + le_u32(v),
{
    buf.push((v & 0xff) as u8);
    buf.push(((v >> 8) & 0xff) as u8);
    buf.push(((v >> 16) & 0xff) as u8);
    buf.push(((v >> 24) & 0xff) as u8);
    proof {
        assert(buf@ =~= old(buf)@ + le_u32(v));
    }
}

/// Appends the two little-endian bytes of `v`.
pub fn push_u16(buf: &mut Vec<u8>, v: u16)
    ensures
        final(buf)@ == old(buf)@ + le_u16(v),
{
    buf.push((v & 0xff) as u8);
    buf.push(((v >> 8) & 0xff) as u8);
    proof {
        assert(buf@ =~= old(buf)@ + le_u16(v));
    }
}

/// Appends the two little-endian bytes of `v`.
pub fn push_i16(buf: &mut Vec<u8>, v: i16)
    ensures
        final(buf)@ == old(buf)@ + le_i16(v),
{
    push_u16(buf, v as u16);
}

/// Appends the eight little-endian bytes of `v`.
pub fn push_u64(buf: &mut Vec<u8>, v: u64)
    ensures
        final(buf)@ == old(buf)@ + le_u64(v),
{
    let ghost b0 = buf@;
    push_u32(buf, (v & 0xffff_ffff) as u32);
    push_u32(buf, (v >> 32) as u32);
    proof {
        assert(buf@ =~= b0 + le_u64(v));
    }
}

/// Entry `i` (0..16) of the nibble table the database format uses for its CRC: that of the
/// reflected CRC-32 (polynomial 0xEDB88320), except entry 13, which holds 0x86D392D4 where that
/// CRC has 0x86D3D2D4 (so the two differ on some inputs).
pub open spec fn crc_table(i: u32) -> u32 {
    if i == 0 {
        0x00000000u32
    } else if i == 1 {
        0x1DB71064u32
    } else if i == 2 {
        0x3B6E20C8u32
    } else if i == 3 {
        0x26D930ACu32
    } else if i == 4 {
        0x76DC4190u32
    } else if i == 5 {
        0x6B6B51F4u32
    } else if i == 6 {
        0x4DB26158u32
    } else if i == 7 {
        0x5005713Cu32
    } else if i == 8 {
        0xEDB88320u32
    } else if i == 9 {
        0xF00F9344u32
    } else if i == 10 {
        0xD6D6A3E8u32
    } else if i == 11 {
        0xCB61B38Cu32
    } else if i == 12 {
        0x9B64C2B0u32
    } else if i == 13 {
        0x86D392D4u32
    } else if i == 14 {
        0xA00AE278u32
    } else {
        0xBDBDF21Cu32
    }
}

/// One byte of the CRC: xor it in, then two nibble steps through the table.
pub open spec fn crc_step(crc: u32, byte: u8) -> u32 {
    let c1 = crc ^ (byte as u32);
    let c2 = crc_table(c1 & 0xFu32) ^ (c1 >> 4u32);
    crc_table(c2 & 0xFu32) ^ (c2 >> 4u32)
}

/// The CRC register after the first `n` bytes of `data`, from all ones.
pub open spec fn crc_fold(data: Seq<u8>, n: int) -> u32
    decreases n,
{
    if n <= 0 {
        0xFFFFFFFFu32
    } else {
        crc_step(crc_fold(data, n - 1), data[n - 1])
    }
}

/// The CRC-32 of `data`: the final register inverted.
pub open spec fn spec_crc32(data: Seq<u8>) -> u32 {
    !crc_fold(data, data.len() as int)
}

/// Table entry `i` (0..16).
fn crc_table_entry(i: u32) -> (t: u32)
    ensures
        t == crc_table(i),
{
    match i {
        0 => 0x00000000,
        1 => 0x1DB71064,
        2 => 0x3B6E20C8,
        3 => 0x26D930AC,
        4 => 0x76DC4190,
        5 => 0x6B6B51F4,
        6 => 0x4DB26158,
        7 => 0x5005713C,
        8 => 0xEDB88320,
        9 => 0xF00F9344,
        10 => 0xD6D6A3E8,
        11 => 0xCB61B38C,
        12 => 0x9B64C2B0,
        13 => 0x86D392D4,
        14 => 0xA00AE278,
        _ => 0xBDBDF21C,
    }
}

/// The CRC-32 of `data` (see `spec_crc32`).
pub fn crc32_simple(data: &[u8]) -> (crc: u32)
    ensures
        crc == spec_crc32(data@),
{
    let mut crc: u32 = 0xFFFFFFFF;
    let mut i: usize = 0;
    while i < data.len()
        invariant
            i <= data@.len(),
            crc == crc_fold(data@, i as int),
        decreases data@.len() - i,
    {
        let byte = data[i];
        crc = crc ^ (byte as u32);
        crc = crc_table_entry(crc & 0xF) ^ (crc >> 4);
        crc = crc_table_entry(crc & 0xF) ^ (crc >> 4);
        i += 1;
    }
    !crc
}

/// The little-endian 64-bit number at offset `o` of `d`.
pub open spec fn u64_at(d: Seq<u8>, o: int) -> u64 {
    (u32_at(d, o) as u64) | ((u32_at(d, o + 4) as u64) << 32u64)
}

/// Reads the little-endian 64-bit number at offset `o`.
pub fn read_u64(d: &[u8], o: usize) -> (v: u64)
    requires
        o + 8 <= d.len(),
    ensures
        v == u64_at(d@, o as int),
{
    (read_u32(d, o) as u64) | ((read_u32(d, o + 4) as u64) << 32)
}

} // verus!
