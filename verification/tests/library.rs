use particles::bitmap::Bitmap;
use particles::bytes::{push_decimal, r16, r32, u16le, u32le};
use particles::color::{hex_byte, hex_digit, hex_rgb8, parse_hex_color, HexColorError, Rgba8};
use particles::crc::crc32;
use particles::data::Dat;
use particles::distribution::{grid_radius, icosahedron_faces, tetrahedron_faces, Add, Uniform3};
use particles::npy::{make_npy, parse_npy, parse_shape};
use particles::npz::{read_npz, Npz, NotZipError};
use particles::resolution::{resolution_setting, ParseResolutionError, Resolution, ResolutionSettingError};
use particles::rng::Rng;
use particles::simplex::hash;

#[test]
fn crc32_matches_the_standard_check_value() {
    assert_eq!(crc32(b"123456789"), 0xCBF4_3926);
    assert_eq!(crc32(b""), 0);
    assert_eq!(crc32(b"a"), 0xE8B7_BE43);
}

#[test]
fn little_endian_writes_read_back() {
    let mut out = Vec::new();
    u16le(&mut out, 0xBEEF);
    u32le(&mut out, 0x0403_4B50);
    assert_eq!(out, vec![0xEF, 0xBE, 0x50, 0x4B, 0x03, 0x04]);
    assert_eq!(r16(&out, 0), 0xBEEF);
    assert_eq!(r32(&out, 2), 0x0403_4B50);
}

#[test]
fn decimal_digits_have_no_leading_zeros() {
    let mut out = Vec::new();
    push_decimal(&mut out, 0);
    out.push(b' ');
    push_decimal(&mut out, 40960);
    assert_eq!(out, b"0 40960".to_vec());
}

#[test]
fn npy_header_is_padded_to_64_bytes() {
    let npy = make_npy(&[2, 3], &[1.5f32.to_bits(), (-2.0f32).to_bits()]);
    let dict = b"{'descr': '<f4', 'fortran_order': False, 'shape': (2, 3), }";
    assert_eq!(&npy[..8], b"\x93NUMPY\x01\x00");
    let header_len = u16::from_le_bytes([npy[8], npy[9]]) as usize;
    assert_eq!((10 + header_len) % 64, 0);
    assert_eq!(&npy[10..10 + dict.len()], dict);
    assert_eq!(npy[9 + header_len], b'\n');
    assert!(npy[10 + dict.len()..9 + header_len].iter().all(|&b| b == b' '));
    assert_eq!(&npy[10 + header_len..], &[0, 0, 0xC0, 0x3F, 0, 0, 0, 0xC0]);
}

#[test]
fn npy_one_dimensional_shape_has_a_trailing_comma() {
    let npy = make_npy(&[4], &[]);
    let dict = b"{'descr': '<f4', 'fortran_order': False, 'shape': (4,), }";
    assert_eq!(&npy[10..10 + dict.len()], dict);
    assert_eq!(npy.len(), 128);
}

#[test]
fn parse_shape_reads_the_shape_tuple() {
    assert_eq!(parse_shape("{'descr': '<f4', 'shape': (2, 3), }"), Some(vec![2, 3]));
    assert_eq!(parse_shape("{'shape': (7,), }"), Some(vec![7]));
    assert_eq!(parse_shape("{'shape': (), }"), Some(vec![]));
    assert_eq!(parse_shape("{'shape': ( 5 , x, +6), }"), Some(vec![5, 6]));
    assert_eq!(parse_shape("{'descr': '<f4'}"), None);
    assert_eq!(parse_shape("{'shape': (1, 2"), None);
}

#[test]
fn parse_npy_reads_back_make_npy() {
    let data = [0.25f32.to_bits(), 3.0f32.to_bits(), 7.5f32.to_bits()];
    let npy = make_npy(&[3], &data);
    let array = parse_npy(&npy).unwrap();
    assert_eq!(array.shape, vec![3]);
    assert_eq!(array.data, data.to_vec());
    assert!(parse_npy(b"NUMPY").is_none());
    assert!(parse_npy(b"\x93NOMPY\x01\x00\x00\x00").is_none());
}

#[test]
fn npz_archive_reads_back() {
    let mut npz = Npz::new();
    npz.add("positions", &[2, 3], &[1, 2, 3, 4, 5, 6]);
    npz.add("weights", &[2], &[7, 8]);
    let bytes = npz.to_bytes();
    assert_eq!(&bytes[..4], &[0x50, 0x4B, 0x03, 0x04]);
    assert_eq!(&bytes[bytes.len() - 22..bytes.len() - 18], &[0x50, 0x4B, 0x05, 0x06]);
    let arrays = read_npz(&bytes).unwrap();
    assert_eq!(arrays.len(), 2);
    assert_eq!(arrays[0].key, b"positions".to_vec());
    assert_eq!(arrays[0].array.shape, vec![2, 3]);
    assert_eq!(arrays[0].array.data, vec![1, 2, 3, 4, 5, 6]);
    assert_eq!(arrays[1].key, b"weights".to_vec());
    assert_eq!(arrays[1].array.shape, vec![2]);
    assert_eq!(arrays[1].array.data, vec![7, 8]);
}

#[test]
fn npz_local_header_holds_the_checksum() {
    let mut npz = Npz::new();
    npz.add("a", &[1], &[9]);
    let bytes = npz.to_bytes();
    let size = r32(&bytes, 18) as usize;
    let name_len = r16(&bytes, 26) as usize;
    let start = 30 + name_len;
    assert_eq!(&bytes[30..start], b"a.npy");
    assert_eq!(r32(&bytes, 14), crc32(&bytes[start..start + size]));
}

#[test]
fn read_npz_rejects_non_archives() {
    assert_eq!(read_npz(b"short"), Err(NotZipError));
    assert_eq!(read_npz(&[0u8; 40]), Err(NotZipError));
    let empty = Npz::new().to_bytes();
    assert_eq!(empty.len(), 22);
    assert_eq!(read_npz(&empty).unwrap().len(), 0);
}

#[test]
fn dat_get_returns_the_first_setting() {
    let mut dat = Dat::new();
    assert_eq!(dat.get("camera", "eye"), None);
    dat.set("camera", "eye", "(1, 2, 3)");
    dat.set("camera", "eye", "(4, 5, 6)");
    dat.set("glow", "radius", "0.03");
    assert_eq!(dat.get("camera", "eye"), Some("(1, 2, 3)"));
    assert_eq!(dat.get("glow", "radius"), Some("0.03"));
    assert_eq!(dat.get("glow", "eye"), None);
}

#[test]
fn dat_parse_reads_sections_and_settings() {
    let dat = Dat::parse(
        "# comment\ntop = 1\n\n[camera]\n  eye = (0.0, 2.35, 2.2)  \r\nbroken line\n[glow]\nradius=0.03\nkey = a = b\n[]\nnone = 2",
    );
    assert_eq!(dat.get("", "top"), Some("1"));
    assert_eq!(dat.get("camera", "eye"), Some("(0.0, 2.35, 2.2)"));
    assert_eq!(dat.get("glow", "radius"), Some("0.03"));
    assert_eq!(dat.get("glow", "key"), Some("a = b"));
    assert_eq!(dat.get("", "none"), Some("2"));
    assert_eq!(dat.get("camera", "broken line"), None);
}

#[test]
fn dat_text_groups_sections() {
    let mut dat = Dat::new();
    dat.set("", "version", "1");
    dat.set("camera", "eye", "(1, 2, 3)");
    dat.set("camera", "target", "(0, 0, 0)");
    dat.set("glow", "radius", "0.03");
    let text = dat.to_text();
    assert_eq!(
        text,
        "version = 1\n[camera]\neye = (1, 2, 3)\ntarget = (0, 0, 0)\n\n[glow]\nradius = 0.03\n"
    );
    let again = Dat::parse(&text);
    assert_eq!(again.get("camera", "target"), Some("(0, 0, 0)"));
    assert_eq!(again.get("", "version"), Some("1"));
}

#[test]
fn hex_digits_and_bytes() {
    assert_eq!(hex_digit(b'7'), 7);
    assert_eq!(hex_digit(b'c'), 12);
    assert_eq!(hex_digit(b'F'), 15);
    assert_eq!(hex_byte(b'd', b'D'), 0xDD);
    assert_eq!(hex_rgb8("#252261"), (0x25, 0x22, 0x61));
    assert_eq!(hex_rgb8("6E7CA8"), (0x6E, 0x7C, 0xA8));
}

#[test]
fn parse_hex_color_reports_each_error() {
    assert_eq!(parse_hex_color("#DD86B0"), Ok((0xDD, 0x86, 0xB0)));
    assert_eq!(parse_hex_color("b4a5b9"), Ok((0xB4, 0xA5, 0xB9)));
    assert_eq!(parse_hex_color("+f+f+f"), Ok((15, 15, 15)));
    assert_eq!(parse_hex_color("#12345"), Err(HexColorError::WrongLength));
    assert_eq!(parse_hex_color(""), Err(HexColorError::WrongLength));
    assert_eq!(parse_hex_color("#12345g"), Err(HexColorError::InvalidDigit));
    assert_eq!(parse_hex_color("-12345"), Err(HexColorError::InvalidDigit));
}

#[test]
fn rgba8_constructors() {
    assert_eq!(Rgba8::from_rgb(14, 14, 18), Rgba8 { red: 14, green: 14, blue: 18, alpha: 255 });
    assert_eq!(Rgba8::transparent(), Rgba8::new(0, 0, 0, 0));
}

#[test]
fn bitmap_starts_transparent_and_reports_its_size() {
    let bitmap = Bitmap::new(Resolution::new(3, 2));
    assert_eq!(bitmap.width(), 3);
    assert_eq!(bitmap.height(), 2);
    assert_eq!(bitmap.resolution(), &Resolution::new(3, 2));
    assert_eq!(bitmap.data().len(), 24);
    assert_eq!(bitmap.pixel(2, 1), Some(Rgba8::transparent()));
}

#[test]
fn resolution_area_and_errors() {
    assert_eq!(Resolution::new(512, 288).area(), 147_456);
    assert_eq!(Resolution::parse("+8x4"), Ok(Resolution::new(8, 4)));
    assert_eq!(Resolution::parse("8x4x2"), Err(ParseResolutionError));
    assert_eq!(Resolution::parse("4294967296x1"), Err(ParseResolutionError));
    assert_eq!(Resolution::parse("4294967295x1"), Ok(Resolution::new(4_294_967_295, 1)));
    assert_eq!(Resolution::parse("-1x1"), Err(ParseResolutionError));
    assert_eq!(Resolution::parse("x1"), Err(ParseResolutionError));
}

#[test]
fn resolution_setting_defaults_and_rejects_empty_images() {
    assert_eq!(resolution_setting(None), Ok(Resolution::new(512, 288)));
    assert_eq!(resolution_setting(Some("64x32")), Ok(Resolution::new(64, 32)));
    assert_eq!(resolution_setting(Some("0x32")), Err(ResolutionSettingError::ZeroArea));
    assert_eq!(resolution_setting(Some("64 by 32")), Err(ResolutionSettingError::Parse));
}

#[test]
fn next_index_stays_below_the_bound() {
    let mut rng = Rng::new(0x1234_5678);
    let first = rng.next_index(6);
    assert_eq!(first, ((1_967_335_287u64 * 6) >> 32) as usize);
    for upper in 1..50 {
        assert!(rng.next_index(upper) < upper);
    }
}

#[test]
fn grid_radius_is_the_smallest_cube_that_holds_the_count() {
    assert_eq!(grid_radius(0), 0);
    assert_eq!(grid_radius(1), 0);
    assert_eq!(grid_radius(2), 1);
    assert_eq!(grid_radius(27), 1);
    assert_eq!(grid_radius(28), 2);
    assert_eq!(grid_radius(125), 2);
}

#[test]
fn faces_index_their_vertices() {
    assert!(icosahedron_faces().iter().flatten().all(|&i| i < 12));
    assert_eq!(icosahedron_faces()[0], [0, 11, 5]);
    assert_eq!(tetrahedron_faces(), [[0, 1, 2], [0, 3, 1], [0, 2, 3], [1, 3, 2]]);
}

#[test]
fn hash_mixes_seed_and_coordinates() {
    let a = hash(7, &[1, 2, 3, 4]);
    assert_eq!(a, hash(7, &[1, 2, 3, 4]));
    assert_ne!(a, hash(8, &[1, 2, 3, 4]));
    assert_ne!(a, hash(7, &[1, 2, 3, 5]));
    assert_eq!(hash(0, &[]), 0x9E37_79B9);
}

#[test]
fn distribution_constructors_keep_their_parts() {
    let sum = Add::new(1u8, 2u8);
    assert_eq!((sum.left, sum.right), (1, 2));
    let _uniform = Uniform3::new();
}
