use vstd::prelude::*;
use vstd::string::StringSliceAdditionalSpecFns;
use vstd::utf8::{decode_utf8, valid_utf8};
use crate::bytes::{decimal, le16, le32, push_decimal, r16, r32, u16_at, u16le, u32_at, u32le};
use crate::text::{
    chars_of, find_char_in, find_first, find_pattern, find_pattern_in, lemma_find_first,
    parse_unsigned, parse_unsigned_range, trim, trim_range,
};

verus! {

/// The magic string and version (1.0) that open every `.npy` file: `\x93NUMPY\x01\x00`.
pub open spec fn npy_magic() -> Seq<u8> {
    seq![0x93u8, 0x4eu8, 0x55u8, 0x4du8, 0x50u8, 0x59u8, 1u8, 0u8]
}

/// The header dictionary up to the shape tuple: `{'descr': '<f4', 'fortran_order': False, 'shape': `.
pub open spec fn dict_prefix() -> Seq<u8> {
    seq![
        0x7bu8, 0x27u8, 0x64u8, 0x65u8, 0x73u8, 0x63u8, 0x72u8, 0x27u8, 0x3au8, 0x20u8, 0x27u8, 0x3cu8, 0x66u8, 0x34u8,
        0x27u8, 0x2cu8, 0x20u8, 0x27u8, 0x66u8, 0x6fu8, 0x72u8, 0x74u8, 0x72u8, 0x61u8, 0x6eu8, 0x5fu8, 0x6fu8, 0x72u8,
        0x64u8, 0x65u8, 0x72u8, 0x27u8, 0x3au8, 0x20u8, 0x46u8, 0x61u8, 0x6cu8, 0x73u8, 0x65u8, 0x2cu8, 0x20u8, 0x27u8,
        0x73u8, 0x68u8, 0x61u8, 0x70u8, 0x65u8, 0x27u8, 0x3au8, 0x20u8,
    ]
}

/// The header dictionary after the shape tuple: `, }`.
pub open spec fn dict_suffix() -> Seq<u8> {
    seq![0x2cu8, 0x20u8, 0x7du8]
}

/// The dimensions in decimal, separated by `", "`.
pub open spec fn joined_decimals(shape: Seq<usize>) -> Seq<u8>
    decreases shape.len(),
{
    if shape.len() == 0 {
        seq![]
    } else if shape.len() == 1 {
        decimal(shape[0] as nat)
    } else {
        joined_decimals(shape.drop_last()) + seq![0x2cu8, 0x20u8] + decimal(shape.last() as nat)
    }
}

/// The shape as a Python tuple: `(n,)` for one dimension, `(a, b, ...)` otherwise.
pub open spec fn shape_text(shape: Seq<usize>) -> Seq<u8> {
    if shape.len() == 1 {
        seq![0x28u8] + decimal(shape[0] as nat) + seq![0x2cu8, 0x29u8]
    } else {
        seq![0x28u8] + joined_decimals(shape) + seq![0x29u8]
    }
}

/// The header dictionary of a little-endian `f32` array of the given shape.
pub open spec fn npy_dict(shape: Seq<usize>) -> Seq<u8> {
    dict_prefix() + shape_text(shape) + dict_suffix()
}

/// The header length (dictionary, padding and newline): the smallest length of at least
/// `dict_len + 1` that makes the 10 leading bytes plus the header a multiple of 64.
pub open spec fn npy_header_len(dict_len: nat) -> nat {
    ((10 + dict_len + 1 + 63) / 64 * 64 - 10) as nat
}

/// The little-endian bytes of each word, in order.
pub open spec fn le32_words(data: Seq<u32>) -> Seq<u8>
    decreases data.len(),
{
    if data.len() == 0 {
        seq![]
    } else {
        le32_words(data.drop_last()) + le32(data.last())
    }
}

/// `n` spaces.
pub open spec fn spaces(n: nat) -> Seq<u8> {
    Seq::new(n, |i: int| 0x20u8)
}

/// A version 1.0 `.npy` file holding little-endian `f32` values, given by their bit patterns.
pub open spec fn npy_file(shape: Seq<usize>, data: Seq<u32>) -> Seq<u8> {
    let dict = npy_dict(shape);
    let header_len = npy_header_len(dict.len());
    npy_magic() + le16(header_len as u16) + dict + spaces((header_len - dict.len() - 1) as nat)
        + seq![0x0au8] + le32_words(data)
}

/// The header is padded so that the data starts at a multiple of 64 bytes, and the file is
/// the 10 leading bytes, the header and four bytes per value.
pub proof fn lemma_npy_layout(shape: Seq<usize>, data: Seq<u32>)
    ensures
        (10 + npy_header_len(npy_dict(shape).len())) % 64 == 0,
        npy_dict(shape).len() + 1 <= npy_header_len(npy_dict(shape).len()) < npy_dict(
            shape,
        ).len() + 65,
        npy_file(shape, data).len() == 10 + npy_header_len(npy_dict(shape).len()) + 4
            * data.len(),
{
    let d = npy_dict(shape).len();
    let h = npy_header_len(d);
    assert((10 + d + 1 + 63) / 64 * 64 <= 10 + d + 1 + 63) by (nonlinear_arith);
    assert((10 + d + 1 + 63) / 64 * 64 > 10 + d) by (nonlinear_arith);
    assert(((10 + d + 1 + 63) / 64 * 64) % 64 == 0) by (nonlinear_arith);
    lemma_le32_words_len(data);
}

/// Four bytes per word.
pub proof fn lemma_le32_words_len(data: Seq<u32>)
    ensures
        le32_words(data).len() == 4 * data.len(),
    decreases data.len(),
{
    if data.len() > 0 {
        lemma_le32_words_len(data.drop_last());
    }
}

/// The header dictionary of an array of the given shape.
fn make_dict(shape: &[usize]) -> (dict: Vec<u8>)
    ensures
        dict@ == npy_dict(shape@),
{
    let mut dict: Vec<u8> = vec![
        0x7bu8, 0x27u8, 0x64u8, 0x65u8, 0x73u8, 0x63u8, 0x72u8, 0x27u8, 0x3au8, 0x20u8, 0x27u8, 0x3cu8, 0x66u8, 0x34u8,
        0x27u8, 0x2cu8, 0x20u8, 0x27u8, 0x66u8, 0x6fu8, 0x72u8, 0x74u8, 0x72u8, 0x61u8, 0x6eu8, 0x5fu8, 0x6fu8, 0x72u8,
        0x64u8, 0x65u8, 0x72u8, 0x27u8, 0x3au8, 0x20u8, 0x46u8, 0x61u8, 0x6cu8, 0x73u8, 0x65u8, 0x2cu8, 0x20u8, 0x27u8,
        0x73u8, 0x68u8, 0x61u8, 0x70u8, 0x65u8, 0x27u8, 0x3au8, 0x20u8, 0x28u8,
    ];
    let ghost start = dict@;
    if shape.len() == 1 {
        push_decimal(&mut dict, shape[0]);
        dict.push(0x2cu8);
    } else {
        let mut i: usize = 0;
        while i < shape.len()
            invariant
                i <= shape@.len(),
                shape@.len() != 1,
                dict@ == start + joined_decimals(shape@.take(i as int)),
            decreases shape@.len() - i,
        {
            let ghost before = dict@;
            if i > 0 {
                dict.push(0x2cu8);
                dict.push(0x20u8);
            }
            push_decimal(&mut dict, shape[i]);
            proof {
                let t = shape@.take(i + 1);
                assert(t.drop_last() =~= shape@.take(i as int));
                assert(t.last() == shape@[i as int]);
                if i == 0 {
                    assert(joined_decimals(shape@.take(0)) =~= Seq::<u8>::empty());
                }
                assert(dict@ =~= start + joined_decimals(t));
            }
            i = i + 1;
        }
        proof {
            assert(shape@.take(shape@.len() as int) =~= shape@);
        }
    }
    dict.push(0x29u8);
    dict.push(0x2cu8);
    dict.push(0x20u8);
    dict.push(0x7du8);
    proof {
        assert(dict@ =~= npy_dict(shape@));
    }
    dict
}

/// Encodes a little-endian `f32` array (given by the bit patterns of its values) as a
/// version 1.0 `.npy` file.
pub fn make_npy(shape: &[usize], data: &[u32]) -> (npy: Vec<u8>)
    requires
        npy_file(shape@, data@).len() <= isize::MAX,
    ensures
        npy@ == npy_file(shape@, data@),
{
    proof {
        lemma_npy_layout(shape@, data@);
    }
    let dict = make_dict(shape);
    let min_len = dict.len() + 1;
    let header_len = (10 + min_len + 63) / 64 * 64 - 10;
    let padding = header_len - min_len;
    let mut out: Vec<u8> = vec![0x93u8, 0x4eu8, 0x55u8, 0x4du8, 0x50u8, 0x59u8, 1u8, 0u8];
    u16le(&mut out, header_len as u16);
    out.extend_from_slice(dict.as_slice());
    let ghost with_dict = out@;
    let mut k: usize = 0;
    while k < padding
        invariant
            k <= padding,
            out@ == with_dict + spaces(k as nat),
        decreases padding - k,
    {
        out.push(0x20u8);
        k = k + 1;
        proof {
            assert(out@ =~= with_dict + spaces(k as nat));
        }
    }
    out.push(0x0au8);
    let ghost with_header = out@;
    let mut i: usize = 0;
    while i < data.len()
        invariant
            i <= data@.len(),
            out@ == with_header + le32_words(data@.take(i as int)),
        decreases data@.len() - i,
    {
        u32le(&mut out, data[i]);
        proof {
            let t = data@.take(i + 1);
            assert(t.drop_last() =~= data@.take(i as int));
            assert(out@ =~= with_header + le32_words(t));
        }
        i = i + 1;
    }
    proof {
        assert(data@.take(data@.len() as int) =~= data@);
        assert(out@ =~= npy_file(shape@, data@));
    }
    out
}

/// The text that introduces the shape in a header dictionary: `'shape': (`.
pub open spec fn shape_marker() -> Seq<char> {
    seq!['\'', 's', 'h', 'a', 'p', 'e', '\'', ':', ' ', '(']
}

/// The dimension that one comma-separated piece gives: its trimmed text read as a `usize`,
/// or nothing when it does not read as one.
pub open spec fn dimension_of(piece: Seq<char>) -> Seq<usize> {
    match parse_unsigned(trim(piece), usize::MAX as nat) {
        Some(v) => seq![v as usize],
        None => seq![],
    }
}

/// The dimensions that the comma-separated pieces of `s` give, in order.
pub open spec fn dimensions(s: Seq<char>) -> Seq<usize>
    decreases s.len(),
{
    match find_first(s, ',') {
        Some(k) => {
            proof {
                lemma_find_first(s, ',');
            }
            dimension_of(s.subrange(0, k)) + dimensions(s.subrange(k + 1, s.len() as int))
        },
        None => dimension_of(s),
    }
}

/// The shape that a header gives: the pieces between the first `'shape': (` and the next `)`.
pub open spec fn shape_of_header(header: Seq<char>) -> Option<Seq<usize>> {
    match find_pattern(header, shape_marker()) {
        None => None,
        Some(i) => {
            let tail = header.subrange(i + 10, header.len() as int);
            match find_first(tail, ')') {
                None => None,
                Some(j) => Some(dimensions(tail.subrange(0, j))),
            }
        },
    }
}

/// Reads the shape from the header dictionary of a `.npy` file.
pub fn parse_shape(header: &str) -> (shape: Option<Vec<usize>>)
    ensures
        match shape_of_header(header@) {
            Some(dims) => shape matches Some(v) && v@ == dims,
            None => shape is None,
        },
{
    let chars = chars_of(header);
    let marker: Vec<char> = vec!['\'', 's', 'h', 'a', 'p', 'e', '\'', ':', ' ', '('];
    proof {
        assert(marker@ =~= shape_marker());
    }
    let n = chars.len();
    let found = find_pattern_in(&chars, &marker);
    let i = match found {
        None => {
            return None;
        },
        Some(i) => i,
    };
    let start = i + 10;
    let ghost tail = chars@.subrange(start as int, n as int);
    let close = find_char_in(&chars, start, n, ')');
    let end = match close {
        None => {
            return None;
        },
        Some(end) => end,
    };
    proof {
        assert(tail.subrange(0, end - start) =~= chars@.subrange(start as int, end as int));
    }
    let ghost inside = chars@.subrange(start as int, end as int);
    proof {
        assert(shape_of_header(header@) == Some(dimensions(inside)));
    }
    let mut dims: Vec<usize> = Vec::new();
    let mut piece = start;
    loop
        invariant
            chars@ == header@,
            start <= piece <= end <= n,
            n == chars@.len(),
            inside == chars@.subrange(start as int, end as int),
            shape_of_header(header@) == Some(dimensions(inside)),
            dimensions(inside) == dims@ + dimensions(chars@.subrange(piece as int, end as int)),
        decreases end - piece,
    {
        let ghost rest = chars@.subrange(piece as int, end as int);
        let comma = find_char_in(&chars, piece, end, ',');
        let piece_end = match comma {
            Some(k) => k,
            None => end,
        };
        let (a, b) = trim_range(&chars, piece, piece_end);
        let value = parse_unsigned_range(&chars, a, b, usize::MAX as u64);
        let ghost before = dims@;
        match value {
            Some(v) => {
                dims.push(v as usize);
            },
            None => {},
        }
        proof {
            assert(dims@ =~= before + dimension_of(chars@.subrange(piece as int, piece_end as int)));
        }
        match comma {
            None => {
                proof {
                    assert(dimensions(rest) == dimension_of(rest));
                    assert(rest =~= chars@.subrange(piece as int, piece_end as int));
                    assert(dims@ =~= dimensions(inside));
                }
                return Some(dims);
            },
            Some(k) => {
                proof {
                    assert(rest.subrange(0, k - piece) =~= chars@.subrange(piece as int, k as int));
                    assert(rest.subrange(k - piece + 1, rest.len() as int) =~= chars@.subrange(k + 1, end as int));
                    assert(dimensions(rest) == dimension_of(chars@.subrange(piece as int, k as int))
                        + dimensions(chars@.subrange(k + 1, end as int)));
                }
                piece = k + 1;
            },
        }
    }
}

/// `std::str::from_utf8`: the bytes viewed as a string slice when they are valid UTF-8, an
/// error otherwise. Claimed here: the result is present exactly for valid UTF-8, and then holds
/// exactly these bytes.
#[verifier::external_body]
fn utf8_text(bytes: &[u8]) -> (text: Option<&str>)
    ensures
        text is Some <==> valid_utf8(bytes@),
        text matches Some(t) ==> t.spec_bytes() == bytes@,
{
    std::str::from_utf8(bytes).ok()
}

/// An array read from a `.npy` file: its shape and the bit patterns of its `f32` values.
#[derive(Debug, PartialEq, Eq)]
pub struct NpyArray {
    pub shape: Vec<usize>,
    pub data: Vec<u32>,
}

/// Whether `b` starts with the `.npy` magic string and has room for the header length.
pub open spec fn npy_magic_ok(b: Seq<u8>) -> bool {
    b.len() >= 10 && b.subrange(0, 6) == npy_magic().subrange(0, 6)
}

/// Whether the header length points past the end of `b`, so that the header cannot be cut out.
pub open spec fn npy_header_cut_short(b: Seq<u8>) -> bool {
    npy_magic_ok(b) && 10 + u16_at(b, 8) > b.len()
}

/// Whether the header of `b` fits in `b`, which `parse_npy` needs: false exactly when `b`
/// starts like a `.npy` file whose header length points past its end.
pub fn npy_header_fits(b: &[u8]) -> (fits: bool)
    ensures
        fits == !npy_header_cut_short(b@),
{
    if b.len() < 10 {
        return true;
    }
    let magic: [u8; 6] = [0x93u8, 0x4eu8, 0x55u8, 0x4du8, 0x50u8, 0x59u8];
    proof {
        assert(magic@ =~= npy_magic().subrange(0, 6));
    }
    let mut k: usize = 0;
    while k < 6
        invariant
            k <= 6,
            b@.len() >= 10,
            magic@ == npy_magic().subrange(0, 6),
            forall|j: int| 0 <= j < k ==> b@[j] == magic@[j],
        decreases 6 - k,
    {
        if b[k] != magic[k] {
            proof {
                assert(b@.subrange(0, 6)[k as int] != npy_magic().subrange(0, 6)[k as int]);
            }
            return true;
        }
        k = k + 1;
    }
    proof {
        assert(b@.subrange(0, 6) =~= npy_magic().subrange(0, 6));
    }
    let header_len = r16(b, 8) as usize;
    b.len() - 10 >= header_len
}

/// The little-endian words of `d`; a trailing part shorter than a word is ignored.
pub open spec fn words_le(d: Seq<u8>) -> Seq<u32> {
    Seq::new(d.len() / 4, |i: int| u32_at(d, 4 * i))
}

/// The array that a `.npy` file holds: the magic string, the header length at byte 8, a UTF-8
/// header from byte 10 whose dictionary gives the shape, then the values.
#[verifier::opaque]
pub open spec fn npy_contents(b: Seq<u8>) -> Option<(Seq<usize>, Seq<u32>)> {
    if !npy_magic_ok(b) {
        None
    } else {
        let h = u16_at(b, 8) as int;
        let header = b.subrange(10, 10 + h);
        if !valid_utf8(header) {
            None
        } else {
            match shape_of_header(decode_utf8(header)) {
                None => None,
                Some(shape) => Some((shape, words_le(b.subrange(10 + h, b.len() as int)))),
            }
        }
    }
}

/// Reads a version 1.0 `.npy` file of little-endian `f32` values.
pub fn parse_npy(b: &[u8]) -> (array: Option<NpyArray>)
    requires
        !npy_header_cut_short(b@),
    ensures
        match npy_contents(b@) {
            Some((shape, data)) => array matches Some(a) && a.shape@ == shape && a.data@ == data,
            None => array is None,
        },
{
    reveal(npy_contents);
    if b.len() < 10 {
        return None;
    }
    let magic: [u8; 6] = [0x93u8, 0x4eu8, 0x55u8, 0x4du8, 0x50u8, 0x59u8];
    proof {
        assert(magic@ =~= npy_magic().subrange(0, 6));
    }
    let mut k: usize = 0;
    while k < 6
        invariant
            k <= 6,
            b@.len() >= 10,
            magic@ == npy_magic().subrange(0, 6),
            forall|j: int| 0 <= j < k ==> b@[j] == magic@[j],
        decreases 6 - k,
    {
        if b[k] != magic[k] {
            proof {
                reveal(npy_contents);
                assert(b@.subrange(0, 6)[k as int] != npy_magic().subrange(0, 6)[k as int]);
            }
            return None;
        }
        k = k + 1;
    }
    proof {
        assert(b@.subrange(0, 6) =~= npy_magic().subrange(0, 6));
    }
    let header_len = r16(b, 8) as usize;
    let header_bytes = slice_range(b, 10, 10 + header_len);
    let header = match utf8_text(header_bytes) {
        None => {
            return None;
        },
        Some(t) => t,
    };
    proof {
        broadcast use vstd::utf8::encode_utf8_decode_utf8;

        assert(decode_utf8(header_bytes@) == header@);
    }
    let shape = match parse_shape(header) {
        None => {
            return None;
        },
        Some(shape) => shape,
    };
    let body = 10 + header_len;
    let count = (b.len() - body) / 4;
    proof {
        let len = b@.len() - body;
        assert(4 * (len / 4) <= len) by (nonlinear_arith)
            requires
                len >= 0,
        ;
    }
    let mut data: Vec<u32> = Vec::new();
    let ghost d = b@.subrange(body as int, b@.len() as int);
    let n = b.len();
    let mut i: usize = 0;
    while i < count
        invariant
            n == b@.len(),
            body + 4 * count <= b@.len(),
            d == b@.subrange(body as int, b@.len() as int),
            count == d.len() / 4,
            i <= count,
            data@ == words_le(d).take(i as int),
        decreases count - i,
    {
        let word = r32(b, body + 4 * i);
        proof {
            assert(word == u32_at(d, 4 * i));
            assert(data@.push(word) =~= words_le(d).take(i + 1));
        }
        data.push(word);
        i = i + 1;
    }
    proof {
        assert(words_le(d).take(count as int) =~= words_le(d));
    }
    Some(NpyArray { shape, data })
}

/// The bytes `b[lo..hi]`.
pub fn slice_range(b: &[u8], lo: usize, hi: usize) -> (part: &[u8])
    requires
        lo <= hi <= b@.len(),
    ensures
        part@ == b@.subrange(lo as int, hi as int),
{
    let (head, _) = b.split_at(hi);
    let (_, part) = head.split_at(lo);
    part
}

} // verus!
