use vstd::prelude::*;
use vstd::utf8::{
    decode_utf8, encode_utf8, encode_utf8_decode_utf8, encode_utf8_valid_utf8, is_ascii_chars,
    is_ascii_chars_encode_utf8, valid_utf8,
};
use crate::crc::crc32_of;
use crate::data::{
    lines_of, no_outer_space, parse_settings, read_line, read_lines, sections_in_order,
    settings_text, settings_text_from, single_line, writable_setting, Setting,
};
use crate::npz::{
    archive_directory_fits, central_arrays, central_entry, central_header, central_next,
    central_records, end_of_central_directory, local_header, local_record, local_records,
    npy_suffix, npz_archive, npz_arrays, npz_is_zip, npz_key, NpzArray, CENTRAL_HEADER_SIGNATURE,
    END_OF_CENTRAL_DIRECTORY_SIGNATURE, LOCAL_HEADER_SIGNATURE,
};
use crate::bytes::{decimal, le16, le32, lemma_le16_roundtrip, lemma_le32_roundtrip, u16_at, u32_at};
use crate::npy::{
    dict_prefix, dict_suffix, dimension_of, dimensions, joined_decimals, le32_words,
    lemma_le32_words_len, lemma_npy_layout, npy_contents, npy_dict, npy_file, npy_header_cut_short,
    npy_header_len, npy_magic, shape_marker, shape_of_header, shape_text, spaces,
    words_le,
};
use crate::text::{
    as_chars, find_first, find_pattern, lemma_find_pattern, occurs_at, is_digit, is_white_space,
    lemma_decimal_parses, lemma_decimal_value, lemma_find_first, trim, trim_end, trim_start,
};

verus! {

/// ASCII bytes are valid UTF-8 and decode to one character per byte.
pub proof fn lemma_ascii_decodes(b: Seq<u8>)
    requires
        forall|i: int| 0 <= i < b.len() ==> #[trigger] b[i] < 128,
    ensures
        valid_utf8(b),
        decode_utf8(b) == as_chars(b),
{
    let c = as_chars(b);
    assert forall|i: int| 0 <= i < c.len() implies '\0' <= #[trigger] c[i] <= '\u{7f}' by {
        assert(c[i] == b[i] as char);
    }
    assert(is_ascii_chars(c));
    is_ascii_chars_encode_utf8(c);
    assert forall|i: int| 0 <= i < c.len() implies #[trigger] encode_utf8(c)[i] == b[i] by {
        assert(c[i] as u8 == encode_utf8(c)[i]);
        assert(c[i] == b[i] as char);
    }
    assert(encode_utf8(c) =~= b);
    encode_utf8_valid_utf8(c);
    encode_utf8_decode_utf8(c);
}

/// Splitting at a comma: the dimensions before it, then those after it.
pub proof fn lemma_dimensions_split(a: Seq<char>, b: Seq<char>)
    ensures
        dimensions(a + seq![','] + b) == dimensions(a) + dimensions(b),
    decreases a.len(),
{
    let s = a + seq![','] + b;
    lemma_find_first(s, ',');
    lemma_find_first(a, ',');
    match find_first(a, ',') {
        None => {
            assert(s[a.len() as int] == ',');
            assert forall|j: int| 0 <= j < a.len() implies s[j] != ',' by {
                assert(s[j] == a[j]);
            }
            assert(find_first(s, ',') == Some(a.len() as int));
            assert(s.subrange(0, a.len() as int) =~= a);
            assert(s.subrange(a.len() as int + 1, s.len() as int) =~= b);
        },
        Some(k) => {
            assert(s[k] == ',');
            assert forall|j: int| 0 <= j < k implies s[j] != ',' by {
                assert(s[j] == a[j]);
            }
            assert(find_first(s, ',') == Some(k));
            let a2 = a.subrange(k + 1, a.len() as int);
            lemma_dimensions_split(a2, b);
            assert(s.subrange(0, k) =~= a.subrange(0, k));
            assert(s.subrange(k + 1, s.len() as int) =~= a2 + seq![','] + b);
            assert(dimensions(a) == dimension_of(a.subrange(0, k)) + dimensions(a2));
            assert(dimensions(s) == dimension_of(a.subrange(0, k)) + dimensions(a2 + seq![','] + b));
        },
    }
}

/// Text without commas is a single piece.
pub proof fn lemma_dimensions_single(a: Seq<char>)
    requires
        forall|i: int| 0 <= i < a.len() ==> a[i] != ',',
    ensures
        dimensions(a) == dimension_of(a),
{
    lemma_find_first(a, ',');
}

/// Digits, with or without one leading space, give their value as a dimension.
pub proof fn lemma_decimal_dimension(n: usize)
    ensures
        dimension_of(as_chars(decimal(n as nat))) == seq![n],
        dimension_of(seq![' '] + as_chars(decimal(n as nat))) == seq![n],
        forall|i: int| 0 <= i < decimal(n as nat).len() ==> 0x30 <= #[trigger] decimal(n as nat)[i] <= 0x39,
{
    let d = as_chars(decimal(n as nat));
    lemma_decimal_value(n as nat);
    lemma_decimal_parses(n as nat, usize::MAX as nat);
    assert(is_digit(d[0]));
    assert(is_digit(d.last()));
    assert(!is_white_space(d[0]));
    assert(!is_white_space(d.last()));
    assert(trim_start(d) == d);
    assert(trim_end(d) == d);
    assert(trim(d) == d);
    let sd = seq![' '] + d;
    assert(is_white_space(sd[0]));
    assert(sd.drop_first() =~= d);
    assert(trim_start(sd) == d);
    assert(trim(sd) == d);
}

/// Whether `b` is a digit, a comma or a space: what the inside of a shape tuple is made of.
pub open spec fn is_shape_byte(b: u8) -> bool {
    (0x30 <= b <= 0x39) || b == 0x2c || b == 0x20
}

/// The text inside the shape tuple.
pub open spec fn shape_inner(shape: Seq<usize>) -> Seq<u8> {
    if shape.len() == 1 {
        decimal(shape[0] as nat) + seq![0x2cu8]
    } else {
        joined_decimals(shape)
    }
}

/// The dimensions joined by `", "` read back as the dimensions.
pub proof fn lemma_joined_decimals(shape: Seq<usize>)
    ensures
        forall|i: int| 0 <= i < joined_decimals(shape).len() ==> is_shape_byte(#[trigger] joined_decimals(shape)[i]),
        dimensions(as_chars(joined_decimals(shape))) == shape,
    decreases shape.len(),
{
    let j = joined_decimals(shape);
    if shape.len() == 0 {
        assert(as_chars(j) =~= Seq::<char>::empty());
        lemma_dimensions_single(as_chars(j));
        assert(trim(Seq::<char>::empty()) =~= Seq::<char>::empty());
        assert(dimension_of(Seq::<char>::empty()) =~= Seq::<usize>::empty());
        assert(shape =~= Seq::<usize>::empty());
    } else if shape.len() == 1 {
        lemma_decimal_dimension(shape[0]);
        let d = as_chars(decimal(shape[0] as nat));
        assert forall|i: int| 0 <= i < d.len() implies d[i] != ',' by {
            assert(d[i] == decimal(shape[0] as nat)[i] as char);
        }
        lemma_dimensions_single(d);
        assert(shape =~= seq![shape[0]]);
    } else {
        let init = shape.drop_last();
        let last = shape.last();
        lemma_joined_decimals(init);
        lemma_decimal_dimension(last);
        let ji = joined_decimals(init);
        let dl = decimal(last as nat);
        assert(j == ji + seq![0x2cu8, 0x20u8] + dl);
        assert forall|i: int| 0 <= i < j.len() implies is_shape_byte(#[trigger] j[i]) by {
            if i < ji.len() {
                assert(j[i] == ji[i]);
            } else if i >= ji.len() + 2 {
                assert(j[i] == dl[i - ji.len() - 2]);
            }
        }
        let tail = seq![' '] + as_chars(dl);
        assert(as_chars(j) =~= as_chars(ji) + seq![','] + tail);
        lemma_dimensions_split(as_chars(ji), tail);
        assert forall|i: int| 0 <= i < tail.len() implies tail[i] != ',' by {
            if i > 0 {
                assert(tail[i] == dl[i - 1] as char);
            }
        }
        lemma_dimensions_single(tail);
        assert(shape =~= init.push(last));
    }
}

/// The inside of the shape tuple reads back as the shape, and holds no closing parenthesis.
pub proof fn lemma_shape_inner(shape: Seq<usize>)
    ensures
        shape_text(shape) == seq![0x28u8] + shape_inner(shape) + seq![0x29u8],
        forall|i: int| 0 <= i < shape_inner(shape).len() ==> is_shape_byte(#[trigger] shape_inner(shape)[i]),
        dimensions(as_chars(shape_inner(shape))) == shape,
{
    lemma_joined_decimals(shape);
    if shape.len() == 1 {
        let d = decimal(shape[0] as nat);
        lemma_decimal_dimension(shape[0]);
        assert(shape_text(shape) =~= seq![0x28u8] + shape_inner(shape) + seq![0x29u8]);
        assert forall|i: int| 0 <= i < shape_inner(shape).len() implies is_shape_byte(#[trigger] shape_inner(shape)[i]) by {
            if i < d.len() {
                assert(shape_inner(shape)[i] == d[i]);
            }
        }
        let dc = as_chars(d);
        assert(as_chars(shape_inner(shape)) =~= dc + seq![','] + Seq::<char>::empty());
        lemma_dimensions_split(dc, Seq::<char>::empty());
        assert forall|i: int| 0 <= i < dc.len() implies dc[i] != ',' by {
            assert(dc[i] == d[i] as char);
        }
        lemma_dimensions_single(dc);
        lemma_dimensions_single(Seq::<char>::empty());
        assert(trim(Seq::<char>::empty()) =~= Seq::<char>::empty());
        assert(dimension_of(Seq::<char>::empty()) =~= Seq::<usize>::empty());
        assert(shape =~= seq![shape[0]]);
    } else {
        assert(shape_text(shape) =~= seq![0x28u8] + shape_inner(shape) + seq![0x29u8]);
    }
}

/// The dictionary text before the shape is ASCII and holds no opening parenthesis.
pub proof fn lemma_dict_prefix_bytes()
    ensures
        forall|i: int| 0 <= i < dict_prefix().len() ==> #[trigger] dict_prefix()[i] < 128 && dict_prefix()[i] != 0x28,
        dict_prefix().len() == 50,
        dict_prefix().subrange(41, 50) == seq![0x27u8, 0x73u8, 0x68u8, 0x61u8, 0x70u8, 0x65u8, 0x27u8, 0x3au8, 0x20u8],
{
    assert(dict_prefix().subrange(41, 50) =~= seq![0x27u8, 0x73u8, 0x68u8, 0x61u8, 0x70u8, 0x65u8, 0x27u8, 0x3au8, 0x20u8]);
}

/// Word `i` of the little-endian bytes of `data` reads back as `data[i]`.
pub proof fn lemma_le32_words_index(data: Seq<u32>, i: int)
    requires
        0 <= i < data.len(),
    ensures
        u32_at(le32_words(data), 4 * i) == data[i],
    decreases data.len(),
{
    let init = data.drop_last();
    lemma_le32_words_len(init);
    if i < data.len() - 1 {
        lemma_le32_words_index(init, i);
        let w = le32_words(data);
        let wi = le32_words(init);
        assert(w == wi + le32(data.last()));
        assert(w[4 * i] == wi[4 * i]);
        assert(w[4 * i + 1] == wi[4 * i + 1]);
        assert(w[4 * i + 2] == wi[4 * i + 2]);
        assert(w[4 * i + 3] == wi[4 * i + 3]);
        assert(init[i] == data[i]);
    } else {
        lemma_le32_roundtrip(le32_words(init), data.last(), Seq::<u8>::empty());
        assert(le32_words(init) + le32(data.last()) + Seq::<u8>::empty() =~= le32_words(data));
    }
}

/// The little-endian bytes of words read back as the words.
pub proof fn lemma_words_roundtrip(data: Seq<u32>)
    ensures
        words_le(le32_words(data)) == data,
{
    lemma_le32_words_len(data);
    assert forall|i: int| 0 <= i < data.len() implies #[trigger] words_le(le32_words(data))[i] == data[i] by {
        lemma_le32_words_index(data, i);
    }
    assert(words_le(le32_words(data)) =~= data);
}

/// A header made of the dictionary, any padding of spaces and a line feed is ASCII, and the
/// shape read from it is the shape the dictionary was made for.
pub proof fn lemma_header_shape(shape: Seq<usize>, pad: nat)
    ensures
        forall|i: int|
            0 <= i < (npy_dict(shape) + spaces(pad) + seq![0x0au8]).len() ==> #[trigger] (
            npy_dict(shape) + spaces(pad) + seq![0x0au8])[i] < 128,
        shape_of_header(as_chars(npy_dict(shape) + spaces(pad) + seq![0x0au8])) == Some(shape),
{
    let dict = npy_dict(shape);
    let header = dict + spaces(pad) + seq![0x0au8];
    let inner = shape_inner(shape);
    lemma_shape_inner(shape);
    lemma_dict_prefix_bytes();
    let p = dict_prefix();
    let sfx = dict_suffix();
    assert(dict =~= p + seq![0x28u8] + inner + seq![0x29u8] + sfx);
    assert forall|i: int| 0 <= i < header.len() implies #[trigger] header[i] < 128 by {
        if i < 50 {
            assert(header[i] == p[i]);
        } else if i == 50 {
        } else if i < 51 + inner.len() {
            assert(header[i] == inner[i - 51]);
        }
    }
    let c = as_chars(header);

    // The shape marker is found where the prefix ends.
    let m = shape_marker();
    lemma_find_pattern(c, m);
    assert(c.subrange(41, 51) =~= m) by {
        assert forall|k: int| 0 <= k < 10 implies #[trigger] c.subrange(41, 51)[k] == m[k] by {
            assert(c[41 + k] == header[41 + k] as char);
            if k < 9 {
                assert(header[41 + k] == p.subrange(41, 50)[k]);
            }
        }
    }
    assert(occurs_at(c, m, 41));
    assert forall|j: int| 0 <= j < 41 implies !#[trigger] occurs_at(c, m, j) by {
        if occurs_at(c, m, j) {
            assert(c.subrange(j, j + 10)[9] == m[9]);
            assert(c[j + 9] == header[j + 9] as char);
            assert(header[j + 9] == p[j + 9]);
        }
    }
    assert(find_pattern(c, m) == Some(41int));

    // The shape ends at the first closing parenthesis.
    let tail = c.subrange(51, c.len() as int);
    let n = inner.len() as int;
    lemma_find_first(tail, ')');
    assert(tail[n] == ')') by {
        assert(tail[n] == c[51 + n]);
        assert(header[51 + n] == 0x29u8);
    }
    assert forall|j: int| 0 <= j < n implies tail[j] != ')' by {
        assert(tail[j] == c[51 + j]);
        assert(header[51 + j] == inner[j]);
        assert(is_shape_byte(inner[j]));
    }
    assert(find_first(tail, ')') == Some(n));
    assert(tail.subrange(0, n) =~= as_chars(inner)) by {
        assert forall|k: int| 0 <= k < n implies #[trigger] tail.subrange(0, n)[k] == as_chars(inner)[k] by {
            assert(header[51 + k] == inner[k]);
        }
    }
}

/// A `.npy` file reads back as the shape and values it was made from, as long as its header
/// length fits in the 16 bits that record it.
pub proof fn lemma_npy_roundtrip(shape: Seq<usize>, data: Seq<u32>)
    requires
        npy_header_len(npy_dict(shape).len()) <= u16::MAX,
    ensures
        !npy_header_cut_short(npy_file(shape, data)),
        npy_contents(npy_file(shape, data)) == Some((shape, data)),
{
    reveal(npy_contents);
    let dict = npy_dict(shape);
    let hl = npy_header_len(dict.len()) as int;
    let pad = (hl - dict.len() - 1) as nat;
    let b = npy_file(shape, data);
    lemma_npy_layout(shape, data);
    let header = dict + spaces(pad) + seq![0x0au8];
    let words = le32_words(data);
    assert(b =~= npy_magic() + le16(hl as u16) + (header + words));
    lemma_le16_roundtrip(npy_magic(), hl as u16, header + words);
    assert(b.subrange(0, 6) =~= npy_magic().subrange(0, 6));
    assert(b.subrange(10, 10 + hl) =~= header);
    assert(b.subrange(10 + hl, b.len() as int) =~= words);
    lemma_words_roundtrip(data);
    lemma_header_shape(shape, pad);
    lemma_ascii_decodes(header);
}

/// The fields of a local file header read back.
pub proof fn lemma_local_header_fields(name: Seq<u8>, size: u32, crc: u32)
    requires
        name.len() <= u16::MAX,
    ensures
        local_header(name, size, crc).len() == 30 + name.len(),
        u32_at(local_header(name, size, crc), 0) == LOCAL_HEADER_SIGNATURE,
        u32_at(local_header(name, size, crc), 18) == size,
        u16_at(local_header(name, size, crc), 26) == name.len(),
        u16_at(local_header(name, size, crc), 28) == 0,
        local_header(name, size, crc).subrange(30, 30 + name.len() as int) == name,
{
    let h = local_header(name, size, crc);
    let z = le16(0);
    let a = le32(LOCAL_HEADER_SIGNATURE);
    let tail = le16(20) + z + z + z + z + le32(crc) + le32(size) + le32(size) + le16(name.len() as u16) + z + name;
    assert(h =~= Seq::<u8>::empty() + a + tail);
    lemma_le32_roundtrip(Seq::<u8>::empty(), LOCAL_HEADER_SIGNATURE, tail);
    let p18 = a + le16(20) + z + z + z + z + le32(crc);
    assert(h =~= p18 + le32(size) + (le32(size) + le16(name.len() as u16) + z + name));
    lemma_le32_roundtrip(p18, size, le32(size) + le16(name.len() as u16) + z + name);
    let p26 = p18 + le32(size) + le32(size);
    assert(h =~= p26 + le16(name.len() as u16) + (z + name));
    lemma_le16_roundtrip(p26, name.len() as u16, z + name);
    let p28 = p26 + le16(name.len() as u16);
    assert(h =~= p28 + z + name);
    lemma_le16_roundtrip(p28, 0, name);
    assert(h.subrange(30, 30 + name.len() as int) =~= name);
}

/// The fields of a central directory header read back.
pub proof fn lemma_central_header_fields(name: Seq<u8>, size: u32, crc: u32, offset: u32)
    requires
        name.len() <= u16::MAX,
    ensures
        central_header(name, size, crc, offset).len() == 46 + name.len(),
        u32_at(central_header(name, size, crc, offset), 0) == CENTRAL_HEADER_SIGNATURE,
        u16_at(central_header(name, size, crc, offset), 28) == name.len(),
        u16_at(central_header(name, size, crc, offset), 30) == 0,
        u16_at(central_header(name, size, crc, offset), 32) == 0,
        u32_at(central_header(name, size, crc, offset), 42) == offset,
        central_header(name, size, crc, offset).subrange(46, 46 + name.len() as int) == name,
{
    let h = central_header(name, size, crc, offset);
    let z = le16(0);
    let nl = le16(name.len() as u16);
    let a = le32(CENTRAL_HEADER_SIGNATURE);
    let p28 = a + le16(20) + le16(20) + z + z + z + z + le32(crc) + le32(size) + le32(size);
    let after = z + z + z + z + le32(0) + le32(offset) + name;
    assert(h =~= Seq::<u8>::empty() + a + (le16(20) + le16(20) + z + z + z + z + le32(crc) + le32(size) + le32(size) + nl + after));
    lemma_le32_roundtrip(Seq::<u8>::empty(), CENTRAL_HEADER_SIGNATURE, le16(20) + le16(20) + z + z + z + z + le32(crc) + le32(size) + le32(size) + nl + after);
    assert(h =~= p28 + nl + after);
    lemma_le16_roundtrip(p28, name.len() as u16, after);
    let p30 = p28 + nl;
    assert(h =~= p30 + z + (z + z + z + le32(0) + le32(offset) + name));
    lemma_le16_roundtrip(p30, 0, z + z + z + le32(0) + le32(offset) + name);
    let p32 = p30 + z;
    assert(h =~= p32 + z + (z + z + le32(0) + le32(offset) + name));
    lemma_le16_roundtrip(p32, 0, z + z + le32(0) + le32(offset) + name);
    let p42 = p32 + z + z + z + le32(0);
    assert(h =~= p42 + le32(offset) + name);
    lemma_le32_roundtrip(p42, offset, name);
    assert(h.subrange(46, 46 + name.len() as int) =~= name);
}

/// The checksum fields of both headers read back, whatever the name's length.
pub proof fn lemma_header_checksum_fields(name: Seq<u8>, size: u32, crc: u32, offset: u32)
    ensures
        local_header(name, size, crc).len() == 30 + name.len(),
        u32_at(local_header(name, size, crc), 14) == crc,
        central_header(name, size, crc, offset).len() == 46 + name.len(),
        u32_at(central_header(name, size, crc, offset), 16) == crc,
{
    let z = le16(0);
    let nl = le16(name.len() as u16);
    let lp = le32(LOCAL_HEADER_SIGNATURE) + le16(20) + z + z + z + z;
    let lrest = le32(size) + le32(size) + nl + z + name;
    assert(local_header(name, size, crc) =~= lp + le32(crc) + lrest);
    lemma_le32_roundtrip(lp, crc, lrest);
    let cp = le32(CENTRAL_HEADER_SIGNATURE) + le16(20) + le16(20) + z + z + z + z;
    let crest = le32(size) + le32(size) + nl + z + z + z + z + le32(0) + le32(offset) + name;
    assert(central_header(name, size, crc, offset) =~= cp + le32(crc) + crest);
    lemma_le32_roundtrip(cp, crc, crest);
}

/// A part of a prefix of `whole` is the same part of `whole`.
proof fn lemma_part_of_prefix(whole: Seq<u8>, prefix: Seq<u8>, pos: int, part: Seq<u8>)
    requires
        prefix.len() <= whole.len(),
        whole.subrange(0, prefix.len() as int) == prefix,
        0 <= pos,
        pos + part.len() <= prefix.len(),
        prefix.subrange(pos, pos + part.len()) == part,
    ensures
        whole.subrange(pos, pos + part.len()) == part,
{
    assert forall|i: int| 0 <= i < part.len() implies whole.subrange(pos, pos + part.len())[i] == part[i] by {
        assert(whole[pos + i] == whole.subrange(0, prefix.len() as int)[pos + i]);
        assert(prefix[pos + i] == prefix.subrange(pos, pos + part.len())[i]);
    }
    assert(whole.subrange(pos, pos + part.len()) =~= part);
}

/// The archive begins with the local records, followed by the central directory.
proof fn lemma_archive_parts(files: Seq<(Seq<u8>, Seq<u8>)>)
    ensures
        npz_archive(files).subrange(0, local_records(files).len() as int) == local_records(files),
        npz_archive(files).subrange(
            local_records(files).len() as int,
            local_records(files).len() as int + central_records(files, files.len()).len() as int,
        ) == central_records(files, files.len()),
{
    let b = npz_archive(files);
    let locals = local_records(files);
    let central = central_records(files, files.len());
    let start = locals.len();
    let end = start + central.len();
    let eocd = end_of_central_directory(
        files.len() as u16,
        ((end as u32) - (start as u32)) as u32,
        start as u32,
    );
    assert(b == locals + central + eocd);
    assert(b.subrange(0, start as int) =~= locals);
    assert(b.subrange(start as int, end as int) =~= central);
}

/// The `k`th local header of an archive sits right after the first `k` local records.
#[verifier::spinoff_prover]
proof fn lemma_local_header_placed(files: Seq<(Seq<u8>, Seq<u8>)>, k: int)
    requires
        0 <= k < files.len(),
    ensures
        ({
            let f = files[k];
            let lh = local_header(f.0, f.1.len() as u32, crc32_of(f.1));
            let pos = local_records(files.take(k)).len() as int;
            pos + lh.len() <= npz_archive(files).len() && npz_archive(files).subrange(
                pos,
                pos + lh.len() as int,
            ) == lh
        }),
{
    let b = npz_archive(files);
    let locals = local_records(files);
    let f = files[k];
    let lh = local_header(f.0, f.1.len() as u32, crc32_of(f.1));
    lemma_archive_parts(files);
    lemma_local_records_prefix(files, k);
    lemma_local_records_prefix(files, k + 1);
    let before = local_records(files.take(k));
    let upto = local_records(files.take(k + 1));
    assert(upto == before + (lh + f.1));
    assert(upto.subrange(before.len() as int, before.len() as int + lh.len() as int) =~= lh);
    lemma_part_of_prefix(locals, upto, before.len() as int, lh);
    lemma_part_of_prefix(b, locals, before.len() as int, lh);
}

/// The `k`th central directory header sits right after the local records and the first `k`
/// central headers.
#[verifier::spinoff_prover]
proof fn lemma_central_header_placed(files: Seq<(Seq<u8>, Seq<u8>)>, k: int)
    requires
        0 <= k < files.len(),
    ensures
        ({
            let f = files[k];
            let ch = central_header(
                f.0,
                f.1.len() as u32,
                crc32_of(f.1),
                local_records(files.take(k)).len() as u32,
            );
            let pos = local_records(files).len() as int + central_records(files, k as nat).len() as int;
            pos + ch.len() <= npz_archive(files).len() && npz_archive(files).subrange(
                pos,
                pos + ch.len() as int,
            ) == ch
        }),
{
    let b = npz_archive(files);
    let locals = local_records(files);
    let central = central_records(files, files.len());
    let f = files[k];
    let ch = central_header(f.0, f.1.len() as u32, crc32_of(f.1), local_records(files.take(k)).len() as u32);
    lemma_archive_parts(files);
    lemma_central_records_prefix(files, (k + 1) as nat, files.len());
    let cbefore = central_records(files, k as nat);
    let cupto = central_records(files, (k + 1) as nat);
    assert(cupto == cbefore + ch);
    assert(cupto.subrange(cbefore.len() as int, cbefore.len() as int + ch.len() as int) =~= ch);
    lemma_part_of_prefix(central, cupto, cbefore.len() as int, ch);
    let start = locals.len() as int;
    let tail = b.subrange(start, b.len() as int);
    assert(tail.subrange(0, central.len() as int) =~= central);
    lemma_part_of_prefix(tail, central, cbefore.len() as int, ch);
    assert(b.subrange(start + cbefore.len(), start + cbefore.len() + ch.len()) =~= ch) by {
        assert forall|i: int| 0 <= i < ch.len() implies b[start + cbefore.len() + i] == ch[i] by {
            assert(b[start + cbefore.len() + i] == tail[cbefore.len() + i]);
            assert(tail[cbefore.len() + i] == tail.subrange(
                cbefore.len() as int,
                cbefore.len() as int + ch.len() as int,
            )[i]);
        }
    }
}

/// Every file's checksum is recorded in both of its headers and is the CRC-32 of its bytes:
/// in an archive of `files`, the field at offset 14 of the `k`th local header and the field at
/// offset 16 of the `k`th central directory header both hold `crc32_of` of the `k`th file.
pub proof fn lemma_archive_checksums(files: Seq<(Seq<u8>, Seq<u8>)>, k: int)
    requires
        0 <= k < files.len(),
    ensures
        u32_at(npz_archive(files), local_records(files.take(k)).len() as int + 14) == crc32_of(
            files[k].1,
        ),
        u32_at(
            npz_archive(files),
            local_records(files).len() as int + central_records(files, k as nat).len() as int + 16,
        ) == crc32_of(files[k].1),
{
    let b = npz_archive(files);
    let f = files[k];
    let crc = crc32_of(f.1);
    let offset = local_records(files.take(k)).len() as u32;
    lemma_header_checksum_fields(f.0, f.1.len() as u32, crc, offset);
    lemma_local_header_placed(files, k);
    lemma_central_header_placed(files, k);
    lemma_read_within(
        b,
        local_records(files.take(k)).len() as int,
        local_header(f.0, f.1.len() as u32, crc),
        14,
    );
    lemma_read_within(
        b,
        local_records(files).len() as int + central_records(files, k as nat).len() as int,
        central_header(f.0, f.1.len() as u32, crc, offset),
        16,
    );
}

/// The fields of the end-of-central-directory record read back.
pub proof fn lemma_eocd_fields(count: u16, dir_size: u32, dir_offset: u32)
    ensures
        end_of_central_directory(count, dir_size, dir_offset).len() == 22,
        u32_at(end_of_central_directory(count, dir_size, dir_offset), 0) == END_OF_CENTRAL_DIRECTORY_SIGNATURE,
        u16_at(end_of_central_directory(count, dir_size, dir_offset), 10) == count,
        u32_at(end_of_central_directory(count, dir_size, dir_offset), 16) == dir_offset,
{
    let e = end_of_central_directory(count, dir_size, dir_offset);
    let z = le16(0);
    let a = le32(END_OF_CENTRAL_DIRECTORY_SIGNATURE);
    let rest = z + z + le16(count) + le16(count) + le32(dir_size) + le32(dir_offset) + z;
    assert(e =~= Seq::<u8>::empty() + a + rest);
    lemma_le32_roundtrip(Seq::<u8>::empty(), END_OF_CENTRAL_DIRECTORY_SIGNATURE, rest);
    let p10 = a + z + z + le16(count);
    assert(e =~= p10 + le16(count) + (le32(dir_size) + le32(dir_offset) + z));
    lemma_le16_roundtrip(p10, count, le32(dir_size) + le32(dir_offset) + z);
    let p16 = p10 + le16(count) + le32(dir_size);
    assert(e =~= p16 + le32(dir_offset) + z);
    lemma_le32_roundtrip(p16, dir_offset, z);
}

/// Reading within a part of `b` reads the part.
pub proof fn lemma_read_within(b: Seq<u8>, pos: int, part: Seq<u8>, x: int)
    requires
        0 <= pos,
        pos + part.len() <= b.len(),
        b.subrange(pos, pos + part.len()) == part,
        0 <= x,
    ensures
        x + 2 <= part.len() ==> u16_at(b, pos + x) == u16_at(part, x),
        x + 4 <= part.len() ==> u32_at(b, pos + x) == u32_at(part, x),
{
    if x + 2 <= part.len() {
        assert(b[pos + x] == part[x]);
        assert(b[pos + x + 1] == part[x + 1]);
    }
    if x + 4 <= part.len() {
        assert(b[pos + x + 2] == part[x + 2]);
        assert(b[pos + x + 3] == part[x + 3]);
    }
}

/// The local records of the first `k` files start the local records of all of them.
pub proof fn lemma_local_records_prefix(files: Seq<(Seq<u8>, Seq<u8>)>, k: int)
    requires
        0 <= k <= files.len(),
    ensures
        local_records(files.take(k)).len() <= local_records(files).len(),
        local_records(files).subrange(0, local_records(files.take(k)).len() as int) == local_records(files.take(k)),
        k < files.len() ==> local_records(files.take(k + 1)) == local_records(files.take(k)) + local_record(files[k]),
    decreases files.len(),
{
    if k < files.len() {
        let t = files.take(k + 1);
        assert(t.drop_last() =~= files.take(k));
    }
    if k == files.len() {
        assert(files.take(k) =~= files);
    } else {
        let init = files.drop_last();
        lemma_local_records_prefix(init, k);
        assert(init.take(k) =~= files.take(k));
        assert(local_records(files) == local_records(init) + local_record(files.last()));
        assert(local_records(files).subrange(0, local_records(init).len() as int) =~= local_records(init));
        assert(local_records(files).subrange(0, local_records(files.take(k)).len() as int) =~= local_records(
            files.take(k),
        ));
    }
}

/// The central records of the first `k` files start those of the first `m`.
pub proof fn lemma_central_records_prefix(files: Seq<(Seq<u8>, Seq<u8>)>, k: nat, m: nat)
    requires
        k <= m,
    ensures
        central_records(files, k).len() <= central_records(files, m).len(),
        central_records(files, m).subrange(0, central_records(files, k).len() as int) == central_records(files, k),
    decreases m,
{
    if k < m {
        lemma_central_records_prefix(files, k, (m - 1) as nat);
        let c = central_records(files, (m - 1) as nat);
        assert(central_records(files, m).subrange(0, c.len() as int) =~= c);
        assert(central_records(files, m).subrange(0, central_records(files, k).len() as int) =~= central_records(files, k));
    } else {
        assert(central_records(files, m).subrange(0, central_records(files, m).len() as int) =~= central_records(files, m));
    }
}

/// What an array is written as: its name with `.npy`, and its `.npy` file.
pub open spec fn written_file(a: (Seq<u8>, Seq<usize>, Seq<u32>)) -> (Seq<u8>, Seq<u8>) {
    (a.0 + npy_suffix(), npy_file(a.1, a.2))
}

/// What an array is read back as: its name, and its shape and values.
pub open spec fn read_back(a: (Seq<u8>, Seq<usize>, Seq<u32>)) -> NpzArray {
    (a.0, (a.1, a.2))
}

/// Whether the lengths an array's headers record fit in their 16-bit fields.
pub open spec fn array_fits(a: (Seq<u8>, Seq<usize>, Seq<u32>)) -> bool {
    a.0.len() + 4 <= u16::MAX && npy_header_len(npy_dict(a.1).len()) <= u16::MAX
}

/// A central directory header and the local record it points at read back as the file's array.
#[verifier::spinoff_prover]
#[verifier::rlimit(50)]
pub proof fn lemma_entry_reads(
    b: Seq<u8>,
    pos: int,
    offset: int,
    name: Seq<u8>,
    npy: Seq<u8>,
    array: (Seq<usize>, Seq<u32>),
)
    requires
        name.len() <= u16::MAX,
        0 <= pos,
        0 <= offset <= u32::MAX,
        b.len() <= u32::MAX,
        pos + 46 + name.len() <= b.len(),
        offset + 30 + name.len() + npy.len() <= b.len(),
        b.subrange(pos, pos + 46 + name.len()) == central_header(name, npy.len() as u32, crc32_of(npy), offset as u32),
        b.subrange(offset, offset + 30 + name.len() + npy.len()) == local_header(name, npy.len() as u32, crc32_of(npy)) + npy,
        !npy_header_cut_short(npy),
        npy_contents(npy) == Some(array),
    ensures
        u32_at(b, pos) == CENTRAL_HEADER_SIGNATURE,
        central_entry(b, pos) == Some(Some((npz_key(name), array))),
        central_next(b, pos) == pos + 46 + name.len(),
{
    reveal(central_entry);
    let header = central_header(name, npy.len() as u32, crc32_of(npy), offset as u32);
    lemma_central_header_fields(name, npy.len() as u32, crc32_of(npy), offset as u32);
    lemma_read_within(b, pos, header, 0);
    lemma_read_within(b, pos, header, 28);
    lemma_read_within(b, pos, header, 30);
    lemma_read_within(b, pos, header, 32);
    lemma_read_within(b, pos, header, 42);
    assert(b.subrange(pos + 46, pos + 46 + name.len()) =~= name) by {
        assert forall|i: int| 0 <= i < name.len() implies #[trigger] b.subrange(pos + 46, pos + 46 + name.len())[i] == name[i] by {
            assert(b[pos + 46 + i] == b.subrange(pos, pos + 46 + name.len())[46 + i]);
            assert(header.subrange(46, 46 + name.len() as int)[i] == name[i]);
        }
    }
    let lh = local_header(name, npy.len() as u32, crc32_of(npy));
    let record = lh + npy;
    lemma_local_header_fields(name, npy.len() as u32, crc32_of(npy));
    assert(b.subrange(offset, offset + lh.len()) =~= lh) by {
        assert forall|i: int| 0 <= i < lh.len() implies #[trigger] b.subrange(offset, offset + lh.len())[i] == lh[i] by {
            assert(b[offset + i] == b.subrange(offset, offset + record.len())[i]);
        }
    }
    lemma_read_within(b, offset, lh, 0);
    lemma_read_within(b, offset, lh, 18);
    lemma_read_within(b, offset, lh, 26);
    lemma_read_within(b, offset, lh, 28);
    let data_start = offset + 30 + name.len();
    assert(b.subrange(data_start, data_start + npy.len()) =~= npy) by {
        assert forall|i: int| 0 <= i < npy.len() implies #[trigger] b.subrange(data_start, data_start + npy.len())[i] == npy[i] by {
            assert(b[data_start + i] == b.subrange(offset, offset + record.len())[lh.len() + i]);
        }
    }
}

/// Where file `k` of an archive is: its central directory header after the headers of the
/// files before it, and its local record after their local records.
pub proof fn lemma_locate_file(files: Seq<(Seq<u8>, Seq<u8>)>, b: Seq<u8>, k: int)
    requires
        0 <= k < files.len(),
        ({
            let locals = local_records(files);
            let start = locals.len() as int;
            let central = central_records(files, files.len());
            &&& start + central.len() <= b.len()
            &&& b.subrange(0, start) == locals
            &&& b.subrange(start, start + central.len()) == central
        }),
    ensures
        ({
            let f = files[k];
            let start = local_records(files).len() as int;
            let pos = start + central_records(files, k as nat).len();
            let offset = local_records(files.take(k)).len() as int;
            &&& central_records(files, (k + 1) as nat).len() == central_records(files, k as nat).len() + 46 + f.0.len()
            &&& pos + 46 + f.0.len() <= b.len()
            &&& b.subrange(pos, pos + 46 + f.0.len()) == central_header(f.0, f.1.len() as u32, crc32_of(f.1), offset as u32)
            &&& offset + 30 + f.0.len() + f.1.len() <= start
            &&& b.subrange(offset, offset + 30 + f.0.len() + f.1.len()) == local_header(f.0, f.1.len() as u32, crc32_of(f.1)) + f.1
        }),
{
    let f = files[k];
    let locals = local_records(files);
    let start = locals.len() as int;
    let central = central_records(files, files.len());
    let ck = central_records(files, k as nat);
    let pos = start + ck.len();
    let offset = local_records(files.take(k)).len() as int;
    let header = central_header(f.0, f.1.len() as u32, crc32_of(f.1), offset as u32);
    lemma_central_records_prefix(files, (k + 1) as nat, files.len());
    assert(central_records(files, (k + 1) as nat) == ck + header);
    assert(header.len() == 46 + f.0.len());
    assert(b.subrange(pos, pos + header.len()) =~= header) by {
        assert forall|i: int| 0 <= i < header.len() implies #[trigger] b.subrange(pos, pos + header.len())[i] == header[i] by {
            assert(b[pos + i] == b.subrange(start, start + central.len())[ck.len() + i]);
            assert(central[ck.len() + i] == central.subrange(0, (ck.len() + header.len()) as int)[ck.len() + i]);
        }
    }
    lemma_local_records_prefix(files, k);
    lemma_local_records_prefix(files, k + 1);
    let record = local_record(f);
    let lk1 = local_records(files.take(k + 1));
    assert(lk1 == local_records(files.take(k)) + record);
    assert(b.subrange(offset, offset + record.len()) =~= record) by {
        assert forall|i: int| 0 <= i < record.len() implies #[trigger] b.subrange(offset, offset + record.len())[i] == record[i] by {
            assert(b[offset + i] == b.subrange(0, start)[offset + i]);
            assert(locals[offset + i] == locals.subrange(0, lk1.len() as int)[offset + i]);
        }
    }
}

/// The files that arrays are written as.
pub open spec fn written_files(arrays: Seq<(Seq<u8>, Seq<usize>, Seq<u32>)>) -> Seq<(Seq<u8>, Seq<u8>)> {
    arrays.map_values(|a: (Seq<u8>, Seq<usize>, Seq<u32>)| written_file(a))
}

/// Reading the directory from the header of file `k` gives back the arrays from `k` on.
#[verifier::spinoff_prover]
#[verifier::rlimit(50)]
pub proof fn lemma_read_entries(arrays: Seq<(Seq<u8>, Seq<usize>, Seq<u32>)>, b: Seq<u8>, k: int)
    requires
        0 <= k <= arrays.len(),
        forall|i: int| 0 <= i < arrays.len() ==> array_fits(#[trigger] arrays[i]),
        b.len() <= u32::MAX,
        ({
            let files = written_files(arrays);
            let locals = local_records(files);
            let start = locals.len() as int;
            let central = central_records(files, files.len());
            &&& start + central.len() <= b.len()
            &&& b.subrange(0, start) == locals
            &&& b.subrange(start, start + central.len()) == central
        }),
    ensures
        central_arrays(
            b,
            (local_records(written_files(arrays)).len() + central_records(written_files(arrays), k as nat).len()) as int,
            (arrays.len() - k) as nat,
        ) == Some(arrays.skip(k).map_values(|a: (Seq<u8>, Seq<usize>, Seq<u32>)| read_back(a))),
    decreases arrays.len() - k,
{
    let files = written_files(arrays);
    let start = local_records(files).len() as int;
    if k == arrays.len() {
        assert(arrays.skip(k).map_values(|a: (Seq<u8>, Seq<usize>, Seq<u32>)| read_back(a)) =~= Seq::<NpzArray>::empty());
    } else {
        let f = files[k];
        assert(f == written_file(arrays[k]));
        assert(array_fits(arrays[k]));
        lemma_locate_file(files, b, k);
        let pos = start + central_records(files, k as nat).len();
        let offset = local_records(files.take(k)).len() as int;
        lemma_npy_roundtrip(arrays[k].1, arrays[k].2);
        lemma_entry_reads(b, pos, offset, f.0, f.1, (arrays[k].1, arrays[k].2));
        assert(npz_key(f.0) =~= arrays[k].0) by {
            assert(f.0.subrange(f.0.len() - 4, f.0.len() as int) =~= npy_suffix());
            assert(f.0.subrange(0, f.0.len() - 4) =~= arrays[k].0);
        }
        lemma_read_entries(arrays, b, k + 1);
        let rest = arrays.skip(k + 1).map_values(|a: (Seq<u8>, Seq<usize>, Seq<u32>)| read_back(a));
        assert(arrays.skip(k).map_values(|a: (Seq<u8>, Seq<usize>, Seq<u32>)| read_back(a)) =~= seq![read_back(arrays[k])] + rest);
    }
}

/// An `.npz` archive reads back as the arrays written into it: each array, under its name
/// without `.npy`, with its shape and values, in the order they were added. This holds when
/// every length the archive records fits in its field: at most 65535 files, names and
/// `.npy` headers of at most 65535 bytes, and an archive of at most 4 GiB.
#[verifier::spinoff_prover]
#[verifier::rlimit(40)]
pub proof fn lemma_npz_roundtrip(arrays: Seq<(Seq<u8>, Seq<usize>, Seq<u32>)>)
    requires
        arrays.len() <= u16::MAX,
        forall|i: int| 0 <= i < arrays.len() ==> array_fits(#[trigger] arrays[i]),
        npz_archive(written_files(arrays)).len() <= u32::MAX,
    ensures
        archive_directory_fits(written_files(arrays)),
        npz_is_zip(npz_archive(written_files(arrays))),
        npz_arrays(npz_archive(written_files(arrays))) == Some(
            arrays.map_values(|a: (Seq<u8>, Seq<usize>, Seq<u32>)| read_back(a)),
        ),
{
    let files = written_files(arrays);
    let locals = local_records(files);
    let central = central_records(files, files.len());
    let start = locals.len();
    let end = start + central.len();
    let b = npz_archive(files);
    let eocd = end_of_central_directory(files.len() as u16, ((end as u32) - (start as u32)) as u32, start as u32);
    assert(b == locals + central + eocd);
    lemma_eocd_fields(files.len() as u16, ((end as u32) - (start as u32)) as u32, start as u32);
    assert(b.subrange(0, start as int) =~= locals);
    assert(b.subrange(start as int, end as int) =~= central);
    assert(b.subrange(end as int, b.len() as int) =~= eocd);
    lemma_read_within(b, end as int, eocd, 0);
    lemma_read_within(b, end as int, eocd, 10);
    lemma_read_within(b, end as int, eocd, 16);
    lemma_read_entries(arrays, b, 0);
    assert(arrays.skip(0) =~= arrays);
    assert(central_records(files, 0).len() == 0);
}

/// Trimming leaves text alone that neither starts nor ends with white space.
pub proof fn lemma_trim_clean(x: Seq<char>)
    requires
        no_outer_space(x),
    ensures
        trim(x) == x,
        trim(seq![' '] + x) == x,
        trim(x + seq![' ']) == x,
{
    assert(trim_start(x) == x);
    assert(trim_end(x) == x);
    let a = seq![' '] + x;
    assert(a.drop_first() =~= x);
    assert(trim_start(a) == trim_start(x));
    let b = x + seq![' '];
    assert(b.drop_last() =~= x);
    if x.len() > 0 {
        assert(b[0] == x[0]);
        assert(trim_start(b) == b);
    } else {
        assert(trim_start(b) == trim_start(Seq::<char>::empty()));
        assert(trim_end(Seq::<char>::empty()) == Seq::<char>::empty());
    }
    assert(trim_end(b) == trim_end(x));
}

/// The pieces between line feeds of a line, a line feed and more text.
pub proof fn lemma_lines_of_split(a: Seq<char>, b: Seq<char>)
    requires
        single_line(a),
    ensures
        lines_of(a + seq!['\n'] + b) == seq![a] + lines_of(b),
{
    let s = a + seq!['\n'] + b;
    lemma_find_first(s, '\n');
    assert(s[a.len() as int] == '\n');
    assert forall|j: int| 0 <= j < a.len() implies s[j] != '\n' by {
        assert(s[j] == a[j]);
    }
    assert(find_first(s, '\n') == Some(a.len() as int));
    assert(s.subrange(0, a.len() as int) =~= a);
    assert(s.subrange(a.len() as int + 1, s.len() as int) =~= b);
}

/// Reading a line and then more lines.
pub proof fn lemma_read_lines_cons(state: (Seq<char>, Seq<Setting>), a: Seq<char>, rest: Seq<Seq<char>>)
    ensures
        read_lines(state, seq![a] + rest) == read_lines(read_line(state, a), rest),
{
    let ls = seq![a] + rest;
    assert(ls[0] == a);
    assert(ls.drop_first() =~= rest);
}

/// A `key = value` line adds its setting to the current section.
pub proof fn lemma_read_setting_line(state: (Seq<char>, Seq<Setting>), key: Seq<char>, value: Seq<char>)
    requires
        writable_setting((state.0, key, value)),
    ensures
        read_line(state, key + seq![' ', '=', ' '] + value) == (state.0, state.1.push((state.0, key, value))),
{
    let line = key + seq![' ', '=', ' '] + value;
    let first = if key.len() > 0 {
        key + seq![' ']
    } else {
        seq![]
    };
    let second = if value.len() > 0 {
        seq![' '] + value
    } else {
        seq![]
    };
    let l = first + seq!['='] + second;
    // Trimming the line leaves the key, `=` and the value, with the spaces between them.
    let m = if key.len() > 0 {
        line
    } else {
        seq!['=', ' '] + value
    };
    if key.len() > 0 {
        assert(line[0] == key[0]);
        assert(trim_start(line) == line);
    } else {
        assert(line.drop_first() =~= seq!['=', ' '] + value);
        assert(!is_white_space('='));
        assert(trim_start(seq!['=', ' '] + value) == seq!['=', ' '] + value);
        assert(trim_start(line) == trim_start(line.drop_first()));
    }
    assert(trim_start(line) == m);
    if value.len() > 0 {
        assert(m.last() == value.last());
        assert(trim_end(m) == m);
        assert(m =~= l);
    } else {
        assert(m.drop_last() =~= first + seq!['=']);
        assert((first + seq!['=']).last() == '=');
        assert(trim_end(first + seq!['=']) == first + seq!['=']);
        assert(trim_end(m) == trim_end(m.drop_last()));
        assert(first + seq!['='] =~= l);
    }
    assert(trim(line) == l);
    // The line is no comment and no section, and its first `=` ends the key.
    let p = first.len() as int;
    assert(l[0] != '#' && !(l.len() >= 2 && l[0] == '[' && l.last() == ']')) by {
        if key.len() > 0 {
            assert(l[0] == key[0]);
        }
        if value.len() > 0 {
            assert(l.last() == value.last());
        } else {
            assert(l.last() == '=');
        }
    }
    lemma_find_first(l, '=');
    assert(l[p] == '=');
    assert forall|j: int| 0 <= j < p implies l[j] != '=' by {
        if j < key.len() {
            assert(l[j] == key[j]);
        }
    }
    assert(find_first(l, '=') == Some(p));
    assert(l.subrange(0, p) =~= first);
    assert(l.subrange(p + 1, l.len() as int) =~= second);
    lemma_trim_clean(key);
    lemma_trim_clean(value);
    if key.len() == 0 {
        assert(trim(Seq::<char>::empty()) == Seq::<char>::empty());
    }
    if value.len() == 0 {
        assert(trim(Seq::<char>::empty()) == Seq::<char>::empty());
    }
    assert(trim(first) == key);
    assert(trim(second) == value);
}

/// A `[name]` line starts section `name`.
pub proof fn lemma_read_section_line(state: (Seq<char>, Seq<Setting>), name: Seq<char>)
    ensures
        read_line(state, seq!['['] + name + seq![']']) == (name, state.1),
{
    let line = seq!['['] + name + seq![']'];
    assert(trim_start(line) == line);
    assert(trim_end(line) == line);
    assert(line.subrange(1, line.len() - 1) =~= name);
}

/// Reading the text written for `settings` after section `current` adds those settings.
#[verifier::spinoff_prover]
#[verifier::rlimit(80)]
pub proof fn lemma_settings_text_reads_back(settings: Seq<Setting>, current: Seq<char>, done: Seq<Setting>)
    requires
        forall|i: int| 0 <= i < settings.len() ==> writable_setting(#[trigger] settings[i]),
        sections_in_order(settings, current),
        single_line(current),
    ensures
        read_lines((current, done), lines_of(settings_text_from(settings, current))).1 == done + settings,
    decreases settings.len(),
{
    if settings.len() == 0 {
        assert(settings_text_from(settings, current) == Seq::<char>::empty());
        lemma_find_first(Seq::<char>::empty(), '\n');
        assert(lines_of(Seq::<char>::empty()) == seq![Seq::<char>::empty()]);
        lemma_read_lines_cons((current, done), Seq::<char>::empty(), Seq::<Seq<char>>::empty());
        assert(done + settings =~= done);
    } else {
        let s = settings[0];
        assert(writable_setting(s));
        let rest = settings.drop_first();
        let line = s.1 + seq![' ', '=', ' '] + s.2;
        let after = settings_text_from(rest, s.0);
        assert forall|i: int| 0 <= i < rest.len() implies writable_setting(#[trigger] rest[i]) by {
            assert(rest[i] == settings[i + 1]);
        }
        lemma_settings_text_reads_back(rest, s.0, done.push(s));
        assert(done.push(s) + rest =~= done + settings);
        assert(single_line(line)) by {
            assert forall|i: int| 0 <= i < line.len() implies line[i] != '\n' by {
                if i < s.1.len() {
                    assert(line[i] == s.1[i]);
                } else if i >= s.1.len() + 3 {
                    assert(line[i] == s.2[i - s.1.len() - 3]);
                }
            }
        }
        lemma_lines_of_split(line, after);
        lemma_read_setting_line((s.0, done), s.1, s.2);
        lemma_read_lines_cons((s.0, done), line, lines_of(after));
        let body = line + seq!['\n'] + after;
        if s.0 == current {
            assert(settings_text_from(settings, current) =~= body);
        } else {
            let header_line = seq!['['] + s.0 + seq![']'];
            assert(single_line(header_line)) by {
                assert forall|i: int| 0 <= i < header_line.len() implies header_line[i] != '\n' by {
                    if 0 < i < header_line.len() - 1 {
                        assert(header_line[i] == s.0[i - 1]);
                    }
                }
            }
            assert(s.0.len() > 0) by {
                if current.len() == 0 && s.0.len() == 0 {
                    assert(s.0 =~= current);
                }
            }
            let named = header_line + seq!['\n'] + body;
            lemma_lines_of_split(header_line, body);
            lemma_read_section_line((current, done), s.0);
            lemma_read_lines_cons((current, done), header_line, lines_of(body));
            if current.len() > 0 {
                assert(settings_text_from(settings, current) =~= Seq::<char>::empty() + seq!['\n'] + named);
                assert(single_line(Seq::<char>::empty()));
                lemma_lines_of_split(Seq::<char>::empty(), named);
                lemma_find_first(Seq::<char>::empty(), '=');
                assert(trim(Seq::<char>::empty()) == Seq::<char>::empty());
                assert(read_line((current, done), Seq::<char>::empty()) == (current, done));
                lemma_read_lines_cons((current, done), Seq::<char>::empty(), lines_of(named));
            } else {
                assert(settings_text_from(settings, current) =~= named);
            }
        }
    }
}

/// Settings written as text read back as the same settings, when each of them can be read
/// back from its line and no setting of the unnamed section follows a named section.
pub proof fn lemma_settings_roundtrip(settings: Seq<Setting>)
    requires
        forall|i: int| 0 <= i < settings.len() ==> writable_setting(#[trigger] settings[i]),
        sections_in_order(settings, Seq::empty()),
    ensures
        parse_settings(settings_text(settings)) == settings,
{
    lemma_settings_text_reads_back(settings, Seq::empty(), Seq::empty());
    assert(Seq::<Setting>::empty() + settings =~= settings);
}



/// Trimming text that starts with something other than white space keeps its first
/// character first.
proof fn lemma_trim_keeps_first(s: Seq<char>)
    requires
        s.len() > 0,
        !is_white_space(s[0]),
    ensures
        trim(s).len() > 0,
        trim(s)[0] == s[0],
{
    assert(trim_start(s) == s);
    lemma_trim_end_keeps_first(s);
}

proof fn lemma_trim_end_keeps_first(s: Seq<char>)
    requires
        s.len() > 0,
        !is_white_space(s[0]),
    ensures
        trim_end(s).len() > 0,
        trim_end(s)[0] == s[0],
    decreases s.len(),
{
    if is_white_space(s.last()) {
        if s.len() == 1 {
            assert(s.last() == s[0]);
        } else {
            let t = s.drop_last();
            assert(t[0] == s[0]);
            lemma_trim_end_keeps_first(t);
        }
    }
}

/// A line whose trimmed text starts with `#` is a comment: reading it changes neither the
/// section nor the settings.
pub proof fn lemma_comment_line_skipped(state: (Seq<char>, Seq<Setting>), line: Seq<char>)
    requires
        trim(line).len() > 0,
        trim(line)[0] == '#',
    ensures
        read_line(state, line) == state,
{
}

/// The lines of text made of whole lines (empty, or ending in a line feed) followed by more
/// text: its own lines, then those of the rest.
proof fn lemma_lines_of_whole_lines(p: Seq<char>, m: Seq<char>)
    requires
        p.len() == 0 || p.last() == '\n',
    ensures
        lines_of(p + m) == lines_of(p).drop_last() + lines_of(m),
    decreases p.len(),
{
    if p.len() == 0 {
        assert(p + m =~= m);
        assert(lines_of(p) =~= seq![p]);
        assert(lines_of(p).drop_last() + lines_of(m) =~= lines_of(m));
    } else {
        lemma_find_first(p, '\n');
        let i = find_first(p, '\n')->Some_0;
        let x = p.subrange(0, i);
        let rest = p.subrange(i + 1, p.len() as int);
        assert(p =~= x + seq!['\n'] + rest);
        assert forall|j: int| 0 <= j < x.len() implies x[j] != '\n' by {
            assert(x[j] == p[j]);
        }
        lemma_lines_of_split(x, rest);
        assert(p + m =~= x + seq!['\n'] + (rest + m));
        lemma_lines_of_split(x, rest + m);
        if rest.len() > 0 {
            assert(rest.last() == p.last());
        }
        lemma_lines_of_whole_lines(rest, m);
        assert(lines_of(rest).len() > 0);
        assert((seq![x] + lines_of(rest)).drop_last() =~= seq![x] + lines_of(rest).drop_last());
        assert(seq![x] + (lines_of(rest).drop_last() + lines_of(m)) =~= (seq![x]
            + lines_of(rest).drop_last()) + lines_of(m));
    }
}

/// Reading two runs of lines one after the other.
proof fn lemma_read_lines_append(
    state: (Seq<char>, Seq<Setting>),
    a: Seq<Seq<char>>,
    b: Seq<Seq<char>>,
)
    ensures
        read_lines(state, a + b) == read_lines(read_lines(state, a), b),
    decreases a.len(),
{
    if a.len() == 0 {
        assert(a + b =~= b);
    } else {
        assert(a + b =~= seq![a[0]] + (a.drop_first() + b));
        lemma_read_lines_cons(state, a[0], a.drop_first() + b);
        assert(a =~= seq![a[0]] + a.drop_first());
        lemma_read_lines_cons(state, a[0], a.drop_first());
        lemma_read_lines_append(read_line(state, a[0]), a.drop_first(), b);
    }
}

/// A comment line adds nothing: inserting the line `#c` between whole lines of a settings
/// text leaves the settings read from it unchanged.
pub proof fn lemma_comment_lines_ignored(p: Seq<char>, c: Seq<char>, q: Seq<char>)
    requires
        p.len() == 0 || p.last() == '\n',
        single_line(c),
    ensures
        parse_settings(p + seq!['#'] + c + seq!['\n'] + q) == parse_settings(p + q),
{
    let line = seq!['#'] + c;
    let init = (Seq::<char>::empty(), Seq::<Setting>::empty());
    assert forall|j: int| 0 <= j < line.len() implies line[j] != '\n' by {
        if j > 0 {
            assert(line[j] == c[j - 1]);
        }
    }
    assert(!is_white_space('#'));
    lemma_trim_keeps_first(line);
    lemma_comment_line_skipped(read_lines(init, lines_of(p).drop_last()), line);
    assert(p + seq!['#'] + c + seq!['\n'] + q =~= p + (line + seq!['\n'] + q));
    lemma_lines_of_whole_lines(p, line + seq!['\n'] + q);
    lemma_lines_of_split(line, q);
    lemma_lines_of_whole_lines(p, q);
    let before = lines_of(p).drop_last();
    lemma_read_lines_append(init, before, seq![line] + lines_of(q));
    lemma_read_lines_cons(read_lines(init, before), line, lines_of(q));
    lemma_read_lines_append(init, before, lines_of(q));
}

} // verus!
