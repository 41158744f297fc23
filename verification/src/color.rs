use vstd::prelude::*;
use vstd::string::StringSliceAdditionalSpecFns;

verus! {

/// An 8-bit-per-channel color with alpha.
#[derive(Clone, Copy, Debug, PartialEq, Eq, Structural)]
pub struct Rgba8 {
    pub red: u8,
    pub green: u8,
    pub blue: u8,
    pub alpha: u8,
}

impl Rgba8 {
    /// The color with the given channels.
    pub fn new(red: u8, green: u8, blue: u8, alpha: u8) -> (color: Rgba8)
        ensures
            color == (Rgba8 { red, green, blue, alpha }),
    {
        Rgba8 { red, green, blue, alpha }
    }

    /// The opaque color with the given channels.
    pub fn from_rgb(red: u8, green: u8, blue: u8) -> (color: Rgba8)
        ensures
            color == (Rgba8 { red, green, blue, alpha: 255 }),
    {
        Self::new(red, green, blue, 255)
    }

    /// Fully transparent black.
    pub fn transparent() -> (color: Rgba8)
        ensures
            color == (Rgba8 { red: 0, green: 0, blue: 0, alpha: 0 }),
    {
        Self::new(0, 0, 0, 0)
    }
}

/// The value of an ASCII hexadecimal digit (either case), if `c` is one.
pub open spec fn hex_value(c: u8) -> Option<u8> {
    if 0x30 <= c <= 0x39 {
        Some((c - 0x30) as u8)
    } else if 0x61 <= c <= 0x66 {
        Some((c - 0x61 + 10) as u8)
    } else if 0x41 <= c <= 0x46 {
        Some((c - 0x41 + 10) as u8)
    } else {
        None
    }
}

/// The value of a hexadecimal digit.
pub fn hex_digit(c: u8) -> (value: u8)
    requires
        hex_value(c) is Some,
    ensures
        Some(value) == hex_value(c),
        value < 16,
{
    if 0x30 <= c && c <= 0x39 {
        c - 0x30
    } else if 0x61 <= c && c <= 0x66 {
        c - 0x61 + 10
    } else {
        c - 0x41 + 10
    }
}

/// The byte written by two hexadecimal digits, high digit first.
pub fn hex_byte(hi: u8, lo: u8) -> (value: u8)
    requires
        hex_value(hi) is Some,
        hex_value(lo) is Some,
    ensures
        value == hex_value(hi).unwrap() * 16 + hex_value(lo).unwrap(),
{
    let h = hex_digit(hi);
    let l = hex_digit(lo);
    proof {
        assert(h << 4u8 | l == h * 16 + l) by (bit_vector)
            requires
                h < 16,
                l < 16,
        ;
    }
    h << 4u8 | l
}

/// The digits of a color: the text without a leading `#`.
pub open spec fn hex_color_digits(s: Seq<u8>) -> Seq<u8> {
    if s.len() > 0 && s[0] == 0x23 {
        s.drop_first()
    } else {
        s
    }
}

/// The value of the two hexadecimal digits at `i` and `i + 1`.
pub open spec fn hex_pair(d: Seq<u8>, i: int) -> u8 {
    (hex_value(d[i]).unwrap() * 16 + hex_value(d[i + 1]).unwrap()) as u8
}

/// Whether `s` is six hexadecimal digits, with or without a leading `#`.
pub open spec fn is_hex_color(s: Seq<u8>) -> bool {
    let d = hex_color_digits(s);
    d.len() == 6 && forall|i: int| 0 <= i < 6 ==> #[trigger] hex_value(d[i]) is Some
}

/// The red, green and blue bytes of a color written as `#RRGGBB` or `RRGGBB`.
pub open spec fn hex_color_channels(s: Seq<u8>) -> (u8, u8, u8) {
    let d = hex_color_digits(s);
    (hex_pair(d, 0), hex_pair(d, 2), hex_pair(d, 4))
}

/// The channels of a color written as `#RRGGBB` or `RRGGBB` (either case).
pub fn hex_rgb8(s: &str) -> (channels: (u8, u8, u8))
    requires
        is_hex_color(s.spec_bytes()),
    ensures
        channels == hex_color_channels(s.spec_bytes()),
{
    let b = s.as_bytes();
    let start: usize = if b.len() > 0 && b[0] == 0x23 {
        1
    } else {
        0
    };
    let ghost d = hex_color_digits(b@);
    proof {
        assert(d =~= b@.subrange(start as int, b@.len() as int));
        assert(hex_value(d[0]) is Some && hex_value(d[1]) is Some && hex_value(d[2]) is Some);
        assert(hex_value(d[3]) is Some && hex_value(d[4]) is Some && hex_value(d[5]) is Some);
    }
    (
        hex_byte(b[start], b[start + 1]),
        hex_byte(b[start + 2], b[start + 3]),
        hex_byte(b[start + 4], b[start + 5]),
    )
}

/// Whether `s` is six hexadecimal digits, with or without a leading `#`, as `hex_rgb8`
/// needs.
pub fn hex_color_valid(s: &str) -> (valid: bool)
    ensures
        valid == is_hex_color(s.spec_bytes()),
{
    let b = s.as_bytes();
    let start: usize = if b.len() > 0 && b[0] == 0x23 {
        1
    } else {
        0
    };
    let ghost d = hex_color_digits(b@);
    proof {
        assert(d =~= b@.subrange(start as int, b@.len() as int));
    }
    if b.len() - start != 6 {
        return false;
    }
    let mut i: usize = 0;
    while i < 6
        invariant
            i <= 6,
            start <= 1,
            b@ == s.spec_bytes(),
            b@.len() == start + 6,
            d == hex_color_digits(s.spec_bytes()),
            d == b@.subrange(start as int, b@.len() as int),
            forall|j: int| 0 <= j < i ==> #[trigger] hex_value(d[j]) is Some,
        decreases 6 - i,
    {
        let c = b[start + i];
        if !((0x30 <= c && c <= 0x39) || (0x61 <= c && c <= 0x66) || (0x41 <= c && c <= 0x46)) {
            proof {
                assert(d[i as int] == c);
                assert(hex_value(d[i as int]) is None);
            }
            return false;
        }
        proof {
            assert(d[i as int] == c);
        }
        i = i + 1;
    }
    true
}

/// Why text is not a color of the form `#RRGGBB`.
#[derive(Clone, Copy, Debug, PartialEq, Eq, Structural)]
pub enum HexColorError {
    /// The text without `#` is not six bytes long.
    WrongLength,
    /// A pair of digits is not a hexadecimal byte.
    InvalidDigit,
}

/// The value of a two-byte pair as `u8::from_str_radix(pair, 16)` reads it: two hexadecimal
/// digits, or `+` and one digit.
pub open spec fn radix16_pair(a: u8, b: u8) -> Option<u8> {
    if a == 0x2b {
        hex_value(b)
    } else {
        match (hex_value(a), hex_value(b)) {
            (Some(x), Some(y)) => Some((x * 16 + y) as u8),
            _ => None,
        }
    }
}

/// Whether `b` continues a multi-byte UTF-8 character, so that a string cannot be cut before it.
pub open spec fn is_utf8_continuation(b: u8) -> bool {
    0x80 <= b < 0xc0
}

/// Whether parsing the six digits would cut a string inside a character: the first cut is at
/// byte 2, and the second, at byte 4, is only made once the first pair has been read.
pub open spec fn hex_color_cuts_char(s: Seq<u8>) -> bool {
    let d = hex_color_digits(s);
    d.len() == 6 && (is_utf8_continuation(d[2]) || (radix16_pair(d[0], d[1]) is Some
        && is_utf8_continuation(d[4])))
}

/// The result of reading a color as `#RRGGBB` or `RRGGBB`, each pair read in base 16.
pub open spec fn hex_color_result(s: Seq<u8>) -> Result<(u8, u8, u8), HexColorError> {
    let d = hex_color_digits(s);
    if d.len() != 6 {
        Err(HexColorError::WrongLength)
    } else {
        match (radix16_pair(d[0], d[1]), radix16_pair(d[2], d[3]), radix16_pair(d[4], d[5])) {
            (Some(r), Some(g), Some(b)) => Ok((r, g, b)),
            _ => Err(HexColorError::InvalidDigit),
        }
    }
}

/// Reads a pair of bytes in base 16.
fn parse_radix16_pair(a: u8, b: u8) -> (value: Option<u8>)
    ensures
        value == radix16_pair(a, b),
{
    let is_hex = |c: u8| -> (h: bool)
        ensures
            h == (hex_value(c) is Some),
        { (0x30 <= c && c <= 0x39) || (0x61 <= c && c <= 0x66) || (0x41 <= c && c <= 0x46) };
    if a == 0x2b {
        if is_hex(b) {
            Some(hex_digit(b))
        } else {
            None
        }
    } else if is_hex(a) && is_hex(b) {
        Some(hex_byte(a, b))
    } else {
        None
    }
}

/// Whether reading `s` as a color would cut the text inside a character, which
/// `parse_hex_color` must not be asked to do.
pub fn hex_color_splits_char(s: &str) -> (splits: bool)
    ensures
        splits == hex_color_cuts_char(s.spec_bytes()),
{
    let b = s.as_bytes();
    let start: usize = if b.len() > 0 && b[0] == 0x23 {
        1
    } else {
        0
    };
    let ghost d = hex_color_digits(b@);
    proof {
        assert(d =~= b@.subrange(start as int, b@.len() as int));
    }
    if b.len() - start != 6 {
        return false;
    }
    let third = b[start + 2];
    let fifth = b[start + 4];
    (0x80 <= third && third < 0xc0) || (parse_radix16_pair(b[start], b[start + 1]).is_some() && 0x80
        <= fifth && fifth < 0xc0)
}

/// Reads a color written as `#RRGGBB` or `RRGGBB`: the text without `#` must be six bytes,
/// and each pair must read as a byte in base 16.
pub fn parse_hex_color(s: &str) -> (channels: Result<(u8, u8, u8), HexColorError>)
    requires
        !hex_color_cuts_char(s.spec_bytes()),
    ensures
        channels == hex_color_result(s.spec_bytes()),
{
    let b = s.as_bytes();
    let start: usize = if b.len() > 0 && b[0] == 0x23 {
        1
    } else {
        0
    };
    let ghost d = hex_color_digits(b@);
    proof {
        assert(d =~= b@.subrange(start as int, b@.len() as int));
    }
    if b.len() - start != 6 {
        return Err(HexColorError::WrongLength);
    }
    let red = parse_radix16_pair(b[start], b[start + 1]);
    let green = parse_radix16_pair(b[start + 2], b[start + 3]);
    let blue = parse_radix16_pair(b[start + 4], b[start + 5]);
    match (red, green, blue) {
        (Some(r), Some(g), Some(b)) => Ok((r, g, b)),
        _ => Err(HexColorError::InvalidDigit),
    }
}

} // verus!
