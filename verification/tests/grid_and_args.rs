use particles::args::parse_args;
use particles::assignment::Auction;
use particles::bitmap::Bitmap;
use particles::color::{hex_color_splits_char, hex_color_valid, Rgba8};
use particles::rng::Rng;
use particles::downscaled::Downscaled;
use particles::field::WrapGrid;
use particles::resolution::Resolution;
use particles::vec3_fmt::vec3_fields;

fn strings(items: &[&str]) -> Vec<String> {
    items.iter().map(|s| s.to_string()).collect()
}

#[test]
fn wrap_grid_indices_wrap_around_both_axes() {
    let grid = WrapGrid::new(4, 0u8);
    assert_eq!(grid.size(), 4);
    assert_eq!(grid.values().len(), 16);
    assert_eq!(grid.index(1, 2), 9);
    assert_eq!(grid.index(-1, 0), 3);
    assert_eq!(grid.index(0, -1), 12);
    assert_eq!(grid.index(5, 6), grid.index(1, 2));
    assert_eq!(grid.index(-4, -8), 0);
}

#[test]
fn wrap_grid_reads_back_what_was_set() {
    let mut grid = WrapGrid::new(3, 1i32);
    grid.set(4, 0, 7);
    assert_eq!(*grid.get_wrapped(1, 0), 7);
    assert_eq!(*grid.get_wrapped(-2, 3), 7);
    assert_eq!(*grid.get(1), 7);
    assert_eq!(*grid.get_wrapped(0, 0), 1);
    grid.set_index(8, -5);
    assert_eq!(*grid.get_wrapped(-1, -1), -5);
    assert_eq!(grid.values(), &[1, 7, 1, 1, 1, 1, 1, 1, -5]);
}

#[test]
fn parse_args_finds_the_settings_file_and_flag_values() {
    let parsed = parse_args(&strings(&["render", "--time", "2.5", "scene.dat", "--duration", "12"]));
    assert_eq!(parsed.dat_path, "scene.dat");
    assert_eq!(parsed.time, strings(&["2.5"]));
    assert_eq!(parsed.duration, strings(&["12"]));

    let defaults = parse_args(&strings(&["render"]));
    assert_eq!(defaults.dat_path, "tweaks.dat");
    assert!(defaults.time.is_empty());
    assert!(defaults.duration.is_empty());

    let trailing = parse_args(&strings(&["render", "a.dat", "b.dat", "--time", "1", "--time", "x", "--duration"]));
    assert_eq!(trailing.dat_path, "b.dat");
    assert_eq!(trailing.time, strings(&["1", "x"]));
    assert!(trailing.duration.is_empty());
}

#[test]
fn vec3_fields_split_a_bracketed_triple() {
    let fields = vec3_fields("  (0.0000, 2.3500,2.2000) ");
    assert_eq!(fields, Some(("0.0000".to_string(), "2.3500".to_string(), "2.2000".to_string())));
    assert_eq!(
        vec3_fields("( 1 , 2 , 3 , 4 )"),
        Some(("1".to_string(), "2".to_string(), "3".to_string()))
    );
    assert_eq!(vec3_fields("(1, 2)"), None);
    assert_eq!(vec3_fields("1, 2, 3"), None);
    assert_eq!(vec3_fields("(1, 2, 3"), None);
    assert_eq!(vec3_fields("("), None);
    assert_eq!(vec3_fields("(,,)"), Some((String::new(), String::new(), String::new())));
}

#[test]
fn downscaled_bitmap_divides_each_side() {
    let glow = Downscaled { inner: (), scale: 4 };
    assert_eq!(glow.small_resolution(&Resolution::new(512, 290)), Resolution::new(128, 72));
    assert_eq!(glow.small_resolution(&Resolution::new(3, 3)), Resolution::new(0, 0));
}

#[test]
fn resolution_text_reads_back() {
    for (w, h) in [(0u32, 0u32), (512, 288), (4_294_967_295, 1)] {
        assert_eq!(Resolution::parse(&format!("{w}x{h}")), Ok(Resolution::new(w, h)));
    }
}

#[test]
fn bitmap_pixel_writes() {

    let mut bitmap = Bitmap::new(Resolution::new(3, 2));
    bitmap.set_pixel(2, 1, Rgba8::new(1, 2, 3, 4));
    assert_eq!(bitmap.pixel(2, 1), Some(Rgba8::new(1, 2, 3, 4)));
    bitmap.set_pixel(3, 1, Rgba8::new(9, 9, 9, 9));
    assert!(bitmap.data()[..20].iter().all(|&b| b == 0));

    let color = Rgba8::new(191, 191, 191, 191);
    bitmap.add_pixel(1, 1, color);
    bitmap.add_pixel(1, 1, color);
    assert_eq!(bitmap.pixel(1, 1), Some(Rgba8::new(255, 255, 255, 255)));

    bitmap.add_pixel(0, 0, Rgba8::new(10, 0, 200, 1));
    bitmap.add_pixel(0, 0, Rgba8::new(20, 5, 100, 1));
    let mut other = Bitmap::new(Resolution::new(3, 2));
    other.add_pixel(0, 0, Rgba8::new(20, 5, 100, 1));
    other.add_pixel(0, 0, Rgba8::new(10, 0, 200, 1));
    assert_eq!(bitmap.pixel(0, 0), Some(Rgba8::new(30, 5, 255, 2)));
    assert_eq!(bitmap.pixel(0, 0), other.pixel(0, 0));

    bitmap.lighten_pixel(0, 1, 5, 0, 7);
    assert_eq!(bitmap.pixel(0, 1), Some(Rgba8::new(5, 0, 7, 255)));
    bitmap.set_pixel(0, 1, Rgba8::new(9, 9, 1, 3));
    bitmap.lighten_pixel(0, 1, 5, 10, 7);
    assert_eq!(bitmap.pixel(0, 1), Some(Rgba8::new(9, 10, 7, 255)));
}

fn run_auction(costs: &[f32], n: usize, epsilon: f32) -> Vec<usize> {

    let mut prices = vec![0.0f32; n];
    let mut auction = Auction::new(n);
    while let Some(bidder) = auction.next_bidder() {
        let row = &costs[bidder * n..(bidder + 1) * n];
        let mut best_object = 0;
        let mut best_cost = f32::INFINITY;
        let mut second_best_cost = f32::INFINITY;
        for (object, cost) in row.iter().enumerate() {
            let total = *cost + prices[object];
            if total < best_cost {
                second_best_cost = best_cost;
                best_cost = total;
                best_object = object;
            } else if total < second_best_cost {
                second_best_cost = total;
            }
        }
        let raise = if second_best_cost.is_finite() {
            second_best_cost - best_cost + epsilon
        } else {
            epsilon
        };
        prices[best_object] += raise;
        auction.award(best_object);
    }
    auction.into_assignment()
}

#[test]
fn auction_bookkeeping_reaches_the_known_3x3_assignment() {
    let costs = [4.0, 1.0, 3.0, 2.0, 0.0, 5.0, 3.0, 2.0, 2.0];
    assert_eq!(run_auction(&costs, 3, 0.001), vec![1, 0, 2]);
    assert_eq!(run_auction(&[], 0, 0.001), Vec::<usize>::new());
}

#[test]
fn auction_displaced_bidder_waits_again() {

    let mut auction = Auction::new(2);
    assert_eq!(auction.next_bidder(), Some(0));
    auction.award(1);
    assert_eq!(auction.next_bidder(), Some(1));
    auction.award(1);
    assert_eq!(auction.next_bidder(), Some(0));
    auction.award(0);
    assert_eq!(auction.next_bidder(), None);
    assert_eq!(auction.into_assignment(), vec![0, 1]);
}

#[test]
fn next_index_matches_the_stable_sequence() {

    let mut rng = Rng::new(0x1234_5678);
    rng.next_u32();
    assert_eq!(rng.next_index(6), 4);
    rng.next_u32();
    assert_eq!(rng.next_index(20), 5);
}

#[test]
fn npz_readable_spots_archives_that_point_past_their_end() {
    use_npz_checks();
}

fn use_npz_checks() {
    let mut npz = particles::npz::Npz::new();
    npz.add("a", &[2], &[1, 2]);
    let bytes = npz.to_bytes();
    assert!(particles::npz::npz_readable(&bytes));
    assert!(particles::npz::npz_readable(b"not an archive"));

    let n = bytes.len();
    let directory = particles::bytes::r32(&bytes, n - 22 + 16) as usize;
    let mut broken = bytes.clone();
    broken[directory + 42..directory + 46].copy_from_slice(&0xFFFF_FFF0u32.to_le_bytes());
    assert!(!particles::npz::npz_readable(&broken));

    let mut cut = bytes.clone();
    cut[18..22].copy_from_slice(&0x00FF_FFFFu32.to_le_bytes());
    assert!(!particles::npz::npz_readable(&cut));

    assert!(particles::npy::npy_header_fits(b"short"));
    assert!(!particles::npy::npy_header_fits(b"\x93NUMPY\x01\x00\xff\x00"));
    assert!(particles::npy::npy_header_fits(b"\x93NUMPY\x01\x00\x00\x00"));
}

#[test]
fn gradient_index_is_the_hash_modulo_the_gradient_count() {
    let cell = [1, -2, 3, 0];
    let index = particles::simplex::gradient_index(0x1f2e_3d4c, &cell);
    assert_eq!(index, particles::simplex::hash(0x1f2e_3d4c, &cell) as usize % 32);
    assert!(index < particles::simplex::GRADIENT_COUNT);
}

#[test]
fn hex_color_checks() {
    use_hex_checks();
}

fn use_hex_checks() {
    assert!(hex_color_valid("#0D1627"));
    assert!(hex_color_valid("b4a5b9"));
    assert!(!hex_color_valid("#0D162"));
    assert!(!hex_color_valid("+f+f+f"));
    assert!(!hex_color_valid(""));
    assert!(!hex_color_splits_char("#0D1627"));
    assert!(!hex_color_splits_char("ab\u{e9}cd"));
    assert!(hex_color_splits_char("a\u{e9}bcd"));
    assert!(hex_color_splits_char("abc\u{e9}d"));
    assert!(!hex_color_splits_char("zzc\u{e9}d"));
}

#[test]
fn preconditions_can_be_tested_before_the_call() {
    let rng = Rng::new(0x1234_5678);
    assert!(rng.next_index_fits(6));
    assert!(rng.next_index_fits(1 << 32));
    assert!(!rng.next_index_fits(usize::MAX));
    assert!(Bitmap::fits(&Resolution::new(512, 288)));
    assert!(!Bitmap::fits(&Resolution::new(65_536, 65_536)));
}

#[test]
fn grid_radius_checked_reports_grids_too_large_to_count() {
    use_grid_checks();
}

fn use_grid_checks() {
    assert_eq!(particles::distribution::grid_radius_checked(0), Some(0));
    assert_eq!(particles::distribution::grid_radius_checked(28), Some(2));
    assert_eq!(particles::distribution::grid_radius_checked(125), Some(2));
    assert_eq!(particles::distribution::grid_radius_checked(usize::MAX), None);
}

#[test]
fn settings_text_reads_back_whole() {
    let mut dat = particles::data::Dat::new();
    dat.set("", "version", "1");
    dat.set("", "[odd", "key");
    dat.set("camera", "eye", "(1, 2, 3)");
    dat.set("glow", "radius", "0.03");
    dat.set("glow", "", "");
    dat.set("camera", "far", "a = b");
    let again = particles::data::Dat::parse(&dat.to_text());
    assert_eq!(again.to_text(), dat.to_text());
    assert_eq!(again.get("", "[odd"), Some("key"));
    assert_eq!(again.get("glow", ""), Some(""));
    assert_eq!(again.get("camera", "far"), Some("a = b"));

    let mut section_like = particles::data::Dat::new();
    section_like.set("", "[a", "b]");
    let read = particles::data::Dat::parse(&section_like.to_text());
    assert_eq!(read.get("", "[a"), None);
}

#[test]
fn corner_steps_mark_the_high_ranked_axes() {
    let rank = [3, 0, 2, 1];
    assert_eq!(particles::simplex::corner_steps(&rank, 3), [1, 0, 0, 0]);
    assert_eq!(particles::simplex::corner_steps(&rank, 2), [1, 0, 1, 0]);
    assert_eq!(particles::simplex::corner_steps(&rank, 1), [1, 0, 1, 1]);
}

#[test]
fn icosahedron_faces_are_the_fixed_table() {
    let faces = particles::distribution::icosahedron_faces();
    assert_eq!(faces[1], [0, 5, 1]);
    assert_eq!(faces[19], [9, 8, 1]);
}

#[test]
fn draws_compose_into_generator_steps() {
    let step = |x: u32| x.wrapping_mul(1_664_525).wrapping_add(1_013_904_223);
    let mut rng = Rng::new(7);
    let a = rng.next_u32();
    rng.next_index(6);
    rng.next_index(20);
    let b = rng.next_u32();
    assert_eq!(b, step(step(step(a))));
}

#[test]
fn bitmap_clone_keeps_size_and_bytes() {
    let mut bitmap = Bitmap::new(Resolution::new(2, 2));
    bitmap.set_pixel(1, 1, Rgba8::new(1, 2, 3, 4));
    let copy = bitmap.clone();
    assert_eq!(copy, bitmap);
    assert_eq!(copy.pixel(1, 1), Some(Rgba8::new(1, 2, 3, 4)));
}
