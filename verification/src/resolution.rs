use vstd::prelude::*;
use crate::bytes::decimal;
use crate::text::{
    as_chars, chars_of, find_char_in, find_first, is_digit, lemma_decimal_parses,
    lemma_decimal_value, lemma_find_first, parse_unsigned, parse_unsigned_range,
};

verus! {

/// The size of an image in pixels.
#[derive(Clone, Debug, PartialEq, Eq, Structural)]
pub struct Resolution {
    pub width: u32,
    pub height: u32,
}

/// The error for text that is not of the form `WIDTHxHEIGHT` with unsigned 32-bit integers.
#[derive(Clone, Debug, PartialEq, Eq, Structural)]
pub struct ParseResolutionError;

/// The resolution that the text `WIDTHxHEIGHT` names: the text is split at its first `x`,
/// and both parts must parse as `u32`.
pub open spec fn parse_resolution(s: Seq<char>) -> Option<(u32, u32)> {
    match find_first(s, 'x') {
        None => None,
        Some(i) => match (
            parse_unsigned(s.subrange(0, i), u32::MAX as nat),
            parse_unsigned(s.subrange(i + 1, s.len() as int), u32::MAX as nat),
        ) {
            (Some(w), Some(h)) => Some((w as u32, h as u32)),
            _ => None,
        },
    }
}

/// The text of a resolution, `WIDTHxHEIGHT` in decimal, parses back to it.
pub proof fn lemma_resolution_text_parses(width: u32, height: u32)
    ensures
        parse_resolution(as_chars(decimal(width as nat)) + seq!['x'] + as_chars(decimal(height as nat)))
            == Some((width, height)),
{
    let w = as_chars(decimal(width as nat));
    let h = as_chars(decimal(height as nat));
    let s = w + seq!['x'] + h;
    lemma_decimal_value(width as nat);
    lemma_decimal_value(height as nat);
    lemma_decimal_parses(width as nat, u32::MAX as nat);
    lemma_decimal_parses(height as nat, u32::MAX as nat);
    lemma_find_first(s, 'x');
    assert(s[w.len() as int] == 'x');
    assert forall|j: int| 0 <= j < w.len() implies s[j] != 'x' by {
        assert(s[j] == w[j]);
        assert(is_digit(w[j]));
    }
    assert(find_first(s, 'x') == Some(w.len() as int));
    assert(s.subrange(0, w.len() as int) =~= w);
    assert(s.subrange(w.len() as int + 1, s.len() as int) =~= h);
}

impl Resolution {
    /// A resolution of `width` by `height` pixels.
    pub fn new(width: u32, height: u32) -> (resolution: Resolution)
        ensures
            resolution.width == width,
            resolution.height == height,
    {
        Resolution { width, height }
    }

    /// The number of pixels. The product is formed in 32 bits.
    pub fn area(&self) -> (area: usize)
        requires
            self.width * self.height <= u32::MAX,
        ensures
            area == self.width * self.height,
    {
        (self.width * self.height) as usize
    }

    /// Parses `WIDTHxHEIGHT`, such as `512x288`.
    pub fn parse(value: &str) -> (parsed: Result<Resolution, ParseResolutionError>)
        ensures
            match parse_resolution(value@) {
                Some((w, h)) => parsed == Ok::<Resolution, ParseResolutionError>(Resolution { width: w, height: h }),
                None => parsed == Err::<Resolution, ParseResolutionError>(ParseResolutionError),
            },
    {
        let chars = chars_of(value);
        let n = chars.len();
        let split = find_char_in(&chars, 0, n, 'x');
        proof {
            assert(chars@.subrange(0, n as int) =~= value@);
        }
        match split {
            None => {
                assert(find_first(value@, 'x') is None);
                assert(parse_resolution(value@) is None);
                Err(ParseResolutionError)
            },
            Some(i) => {
                proof {
                    assert(chars@.subrange(0, i as int) =~= value@.subrange(0, i as int));
                    assert(chars@.subrange(i + 1, n as int) =~= value@.subrange(i + 1, n as int));
                }
                let width = parse_unsigned_range(&chars, 0, i, u32::MAX as u64);
                let height = parse_unsigned_range(&chars, i + 1, n, u32::MAX as u64);
                let ghost ws = parse_unsigned(value@.subrange(0, i as int), u32::MAX as nat);
                let ghost hs = parse_unsigned(value@.subrange(i + 1, n as int), u32::MAX as nat);
                proof {
                    assert(find_first(value@, 'x') == Some(i as int));
                }
                match (width, height) {
                    (Some(w), Some(h)) => {
                        assert(ws == Some(w as nat));
                        assert(hs == Some(h as nat));
                        Ok(Resolution { width: w as u32, height: h as u32 })
                    },
                    _ => {
                        assert(ws is None || hs is None);
                        Err(ParseResolutionError)
                    },
                }
            },
        }
    }
}

/// Why a resolution setting is refused.
#[derive(Clone, Copy, Debug, PartialEq, Eq, Structural)]
pub enum ResolutionSettingError {
    /// The text is not `WIDTHxHEIGHT`.
    Parse,
    /// The resolution has no pixels.
    ZeroArea,
}

/// The resolution used when none is given: 512 by 288.
pub open spec fn default_resolution() -> Resolution {
    Resolution { width: 512, height: 288 }
}

/// The resolution that an optional `WIDTHxHEIGHT` setting selects: the default when absent,
/// an error when it does not parse or has no pixels.
pub open spec fn resolution_setting_of(value: Option<Seq<char>>) -> Result<Resolution, ResolutionSettingError> {
    match value {
        None => Ok(default_resolution()),
        Some(text) => match parse_resolution(text) {
            None => Err(ResolutionSettingError::Parse),
            Some((w, h)) => if w * h == 0 {
                Err(ResolutionSettingError::ZeroArea)
            } else {
                Ok(Resolution { width: w, height: h })
            },
        },
    }
}

/// Selects the resolution from an optional `WIDTHxHEIGHT` setting. The pixel count is formed
/// in 32 bits.
pub fn resolution_setting(value: Option<&str>) -> (resolution: Result<Resolution, ResolutionSettingError>)
    requires
        value matches Some(text) ==> (parse_resolution(text@) matches Some((w, h)) ==> w * h <= u32::MAX),
    ensures
        resolution == resolution_setting_of(
            match value {
                Some(text) => Some(text@),
                None => None,
            },
        ),
{
    let resolution = match value {
        None => Resolution::new(512, 288),
        Some(text) => match Resolution::parse(text) {
            Err(_) => {
                return Err(ResolutionSettingError::Parse);
            },
            Ok(r) => r,
        },
    };
    if resolution.area() == 0 {
        return Err(ResolutionSettingError::ZeroArea);
    }
    Ok(resolution)
}

impl std::str::FromStr for Resolution {
    type Err = ParseResolutionError;

    fn from_str(value: &str) -> (parsed: Result<Resolution, ParseResolutionError>)
        ensures
            match parse_resolution(value@) {
                Some((w, h)) => parsed == Ok::<Resolution, ParseResolutionError>(Resolution { width: w, height: h }),
                None => parsed == Err::<Resolution, ParseResolutionError>(ParseResolutionError),
            },
    {
        Resolution::parse(value)
    }
}

} // verus!
