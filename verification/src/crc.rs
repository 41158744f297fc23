use vstd::prelude::*;

verus! {

/// The reflected CRC-32 polynomial (IEEE 802.3), as used by ZIP archives.
pub const CRC32_POLYNOMIAL: u32 = 0xEDB8_8320;

/// One bit step of the reflected CRC-32 register.
pub open spec fn crc_bit_step(crc: u32) -> u32 {
    if crc & 1 != 0 {
        (crc >> 1) ^ CRC32_POLYNOMIAL
    } else {
        crc >> 1
    }
}

/// `n` bit steps of the CRC-32 register.
pub open spec fn crc_bit_steps(crc: u32, n: nat) -> u32
    decreases n,
{
    if n == 0 {
        crc
    } else {
        crc_bit_step(crc_bit_steps(crc, (n - 1) as nat))
    }
}

/// The register after absorbing one byte.
pub open spec fn crc_absorb_byte(crc: u32, byte: u8) -> u32 {
    crc_bit_steps(crc ^ (byte as u32), 8)
}

/// The register after absorbing all of `data`, starting from `crc`.
pub open spec fn crc_absorb(crc: u32, data: Seq<u8>) -> u32
    decreases data.len(),
{
    if data.len() == 0 {
        crc
    } else {
        crc_absorb_byte(crc_absorb(crc, data.drop_last()), data.last())
    }
}

/// The CRC-32 checksum of `data`: the register starts at all ones and is inverted at the end.
pub open spec fn crc32_of(data: Seq<u8>) -> u32 {
    !crc_absorb(0xFFFF_FFFF, data)
}

/// Computes the CRC-32 checksum of `data`, as stored in ZIP headers.
pub fn crc32(data: &[u8]) -> (checksum: u32)
    ensures
        checksum == crc32_of(data@),
{
    let mut crc: u32 = 0xFFFF_FFFF;
    let mut i: usize = 0;
    while i < data.len()
        invariant
            i <= data.len(),
            crc == crc_absorb(0xFFFF_FFFF, data@.take(i as int)),
        decreases data.len() - i,
    {
        let ghost before = crc;
        crc = crc ^ (data[i] as u32);
        let ghost start = crc;
        let mut round: u32 = 0;
        while round < 8
            invariant
                round <= 8,
                crc == crc_bit_steps(start, round as nat),
            decreases 8 - round,
        {
            crc = if crc & 1 != 0 {
                (crc >> 1) ^ CRC32_POLYNOMIAL
            } else {
                crc >> 1
            };
            round = round + 1;
        }
        proof {
            assert(data@.take(i + 1).drop_last() =~= data@.take(i as int));
            assert(data@.take(i + 1).last() == data@[i as int]);
        }
        i = i + 1;
    }
    proof {
        assert(data@.take(data@.len() as int) =~= data@);
    }
    !crc
}

} // verus!
