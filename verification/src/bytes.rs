use vstd::prelude::*;

verus! {

/// The two little-endian bytes of `v`.
pub open spec fn le16(v: u16) -> Seq<u8> {
    seq![(v % 256) as u8, (v / 256) as u8]
}

/// The four little-endian bytes of `v`.
pub open spec fn le32(v: u32) -> Seq<u8> {
    seq![(v % 256) as u8, ((v / 256) % 256) as u8, ((v / 65536) % 256) as u8, (v / 16777216) as u8]
}

/// The little-endian 16-bit value stored at `offset` in `b`.
pub open spec fn u16_at(b: Seq<u8>, offset: int) -> u16 {
    (b[offset] as int + 256 * b[offset + 1] as int) as u16
}

/// The little-endian 32-bit value stored at `offset` in `b`.
pub open spec fn u32_at(b: Seq<u8>, offset: int) -> u32 {
    (b[offset] as int + 256 * b[offset + 1] as int + 65536 * b[offset + 2] as int + 16777216
        * b[offset + 3] as int) as u32
}

/// Appends the little-endian bytes of `v` to `out`.
pub fn u16le(out: &mut Vec<u8>, v: u16)
    ensures
        final(out)@ == old(out)@ + le16(v),
{
    proof {
        assert(v & 0xff == v % 256 && v >> 8 == v / 256) by (bit_vector);
    }
    out.push((v & 0xff) as u8);
    out.push((v >> 8) as u8);
    proof {
        assert(final(out)@ =~= old(out)@ + le16(v));
    }
}

/// Appends the little-endian bytes of `v` to `out`.
pub fn u32le(out: &mut Vec<u8>, v: u32)
    ensures
        final(out)@ == old(out)@ + le32(v),
{
    proof {
        assert(v & 0xff == v % 256 && (v >> 8) & 0xff == (v / 256) % 256 && (v >> 16) & 0xff == (v
            / 65536) % 256 && v >> 24 == v / 16777216) by (bit_vector);
    }
    out.push((v & 0xff) as u8);
    out.push(((v >> 8) & 0xff) as u8);
    out.push(((v >> 16) & 0xff) as u8);
    out.push((v >> 24) as u8);
    proof {
        assert(final(out)@ =~= old(out)@ + le32(v));
    }
}

/// Reads the little-endian 16-bit value at `offset`.
pub fn r16(b: &[u8], offset: usize) -> (v: u16)
    requires
        offset + 2 <= b@.len(),
    ensures
        v == u16_at(b@, offset as int),
{
    (b[offset] as u16) + 256 * (b[offset + 1] as u16)
}

/// Reads the little-endian 32-bit value at `offset`.
pub fn r32(b: &[u8], offset: usize) -> (v: u32)
    requires
        offset + 4 <= b@.len(),
    ensures
        v == u32_at(b@, offset as int),
{
    (b[offset] as u32) + 256 * (b[offset + 1] as u32) + 65536 * (b[offset + 2] as u32) + 16777216
        * (b[offset + 3] as u32)
}

/// Reading back the bytes written for a 16-bit value gives the value.
pub proof fn lemma_le16_roundtrip(prefix: Seq<u8>, v: u16, suffix: Seq<u8>)
    ensures
        u16_at(prefix + le16(v) + suffix, prefix.len() as int) == v,
{
    let b = prefix + le16(v) + suffix;
    assert(b[prefix.len() as int] == (v % 256) as u8);
    assert(b[prefix.len() as int + 1] == (v / 256) as u8);
}

/// Reading back the bytes written for a 32-bit value gives the value.
pub proof fn lemma_le32_roundtrip(prefix: Seq<u8>, v: u32, suffix: Seq<u8>)
    ensures
        u32_at(prefix + le32(v) + suffix, prefix.len() as int) == v,
{
    let b = prefix + le32(v) + suffix;
    let p = prefix.len() as int;
    assert(b[p] == (v % 256) as u8);
    assert(b[p + 1] == ((v / 256) % 256) as u8);
    assert(b[p + 2] == ((v / 65536) % 256) as u8);
    assert(b[p + 3] == (v / 16777216) as u8);
}

/// The ASCII decimal digits of `n`, most significant first, without leading zeros.
pub open spec fn decimal(n: nat) -> Seq<u8>
    decreases n,
{
    if n < 10 {
        seq![(48 + n) as u8]
    } else {
        decimal(n / 10).push((48 + n % 10) as u8)
    }
}

/// Appends the decimal digits of `n` to `out`.
pub fn push_decimal(out: &mut Vec<u8>, n: usize)
    ensures
        final(out)@ == old(out)@ + decimal(n as nat),
    decreases n,
{
    if n >= 10 {
        push_decimal(out, n / 10);
    }
    out.push(48u8 + (n % 10) as u8);
    proof {
        if n >= 10 {
            assert(final(out)@ =~= old(out)@ + decimal(n as nat));
        } else {
            assert(final(out)@ =~= old(out)@ + decimal(n as nat));
        }
    }
}

} // verus!
