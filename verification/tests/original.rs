use particles::bitmap::Bitmap;
use particles::color::Rgba8;
use particles::resolution::Resolution;
use particles::rng::Rng;

#[test]
fn fill_sets_every_pixel() {
    let mut bitmap = Bitmap::new(Resolution::new(2, 2));
    let color = Rgba8::new(1, 2, 3, 4);

    bitmap.fill(color);

    assert_eq!(bitmap.pixel(0, 0), Some(color));
    assert_eq!(bitmap.pixel(1, 0), Some(color));
    assert_eq!(bitmap.pixel(0, 1), Some(color));
    assert_eq!(bitmap.pixel(1, 1), Some(color));
}

#[test]
fn pixel_rejects_out_of_bounds_positions() {
    let bitmap = Bitmap::new(Resolution::new(2, 2));

    assert_eq!(bitmap.pixel(2, 0), None);
    assert_eq!(bitmap.pixel(0, 2), None);
}

#[test]
fn resolution_parses_width_by_height() {
    assert_eq!("512x288".parse(), Ok(Resolution::new(512, 288)));
}

#[test]
fn resolution_rejects_invalid_values() {
    assert!("512".parse::<Resolution>().is_err());
    assert_eq!("0x288".parse(), Ok(Resolution::new(0, 288)));
    assert_eq!("512x0".parse(), Ok(Resolution::new(512, 0)));
    assert!("wide x tall".parse::<Resolution>().is_err());
}

#[test]
fn next_u32_is_stable_for_fixed_seed() {
    let mut rng = Rng::new(0x1234_5678);
    let values = [
        rng.next_u32(),
        rng.next_u32(),
        rng.next_u32(),
        rng.next_u32(),
    ];
    assert_eq!(
        values,
        [1_967_335_287, 3_442_499_178, 635_173_569, 1_264_358_700]
    );
}
