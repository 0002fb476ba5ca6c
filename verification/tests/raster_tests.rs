use parasitic_image::analyzer::target_box;
use parasitic_image::pixel::Pixel;
use parasitic_image::raster::{byte_count, Image};

#[test]
fn from_raw_accepts_only_a_buffer_of_the_right_length() {
    assert!(Image::from_raw(2, 3, vec![0u8; 24]).is_some());
    assert!(Image::from_raw(2, 3, vec![0u8; 23]).is_none());
    assert!(Image::from_raw(2, 3, vec![0u8; 25]).is_none());
    assert!(Image::from_raw(0, 3, Vec::new()).is_some());
    assert!(Image::from_raw(0, 0, vec![0u8; 1]).is_none());
    assert!(Image::from_raw(u32::MAX, u32::MAX, Vec::new()).is_none());
}

#[test]
fn pixels_are_read_row_by_row() {
    let bytes: Vec<u8> = (0u8..24).collect();
    let image = Image::from_raw(3, 2, bytes.clone()).unwrap();
    assert_eq!(image.width(), 3);
    assert_eq!(image.height(), 2);
    assert_eq!(image.pixel_at(0, 0), Pixel { red: 0, green: 1, blue: 2, alpha: 3 });
    assert_eq!(image.pixel_at(2, 0), Pixel { red: 8, green: 9, blue: 10, alpha: 11 });
    assert_eq!(image.pixel_at(0, 1), Pixel { red: 12, green: 13, blue: 14, alpha: 15 });
    assert_eq!(image.pixel_at(2, 1), Pixel { red: 20, green: 21, blue: 22, alpha: 23 });
    assert_eq!(image.as_raw(), &bytes);
    assert_eq!(image.into_raw(), bytes);
}

#[test]
fn filled_image_has_one_colour() {
    let colour = Pixel::new(1, 2, 3, 4);
    let image = Image::filled(3, 2, colour).unwrap();
    assert_eq!(image.as_raw().len(), 24);
    for y in 0..2 {
        for x in 0..3 {
            assert_eq!(image.pixel_at(x, y), colour);
        }
    }
    assert_eq!(Image::filled(0, 5, colour).unwrap().as_raw().len(), 0);
}

#[test]
fn clone_keeps_extent_and_bytes() {
    let bytes: Vec<u8> = (0u8..16).collect();
    let image = Image::from_raw(2, 2, bytes).unwrap();
    let copy = image.clone();
    assert_eq!(copy, image);
    assert_eq!(copy.as_raw(), image.as_raw());
}

#[test]
fn byte_count_is_four_per_pixel() {
    assert_eq!(byte_count(0, 7), 0);
    assert_eq!(byte_count(100, 100), 40000);
    assert_eq!(byte_count(u32::MAX, u32::MAX), 4 * (u32::MAX as u128) * (u32::MAX as u128));
}

#[test]
fn transparent_pixel_is_all_zero() {
    assert_eq!(Pixel::transparent(), Pixel { red: 0, green: 0, blue: 0, alpha: 0 });
}

#[test]
fn box_keeps_the_anchored_side_of_the_host() {
    assert_eq!(target_box(false, 100, 100, 200, 100), Some((200, 100)));
    assert_eq!(target_box(false, 50, 100, 50, 100), Some((50, 100)));
    assert_eq!(target_box(true, 20, 10, 40, 40), Some((20, 80)));
    assert_eq!(target_box(true, 20, 10, 10, 10), Some((20, 5)));
}

#[test]
fn box_side_uses_floor_division() {
    assert_eq!(target_box(true, 3, 1, 5, 2), Some((3, 3)));
    assert_eq!(target_box(false, 1, 3, 5, 2), Some((3, 3)));
    assert_eq!(target_box(true, 11, 1, 5, 2), Some((11, 0)));
    assert_eq!(target_box(false, 1, 11, 5, 2), Some((0, 11)));
}

#[test]
fn box_that_does_not_fit_in_32_bits_is_none() {
    assert_eq!(target_box(false, 1, 1, u32::MAX, u32::MAX), None);
    assert_eq!(target_box(true, 1, 1, 65536, 65536), None);
    assert_eq!(target_box(true, 1, 1, 65535, 65537), Some((1, u32::MAX)));
    assert_eq!(target_box(false, 7, u32::MAX, u32::MAX, u32::MAX), Some((u32::MAX, u32::MAX)));
}
