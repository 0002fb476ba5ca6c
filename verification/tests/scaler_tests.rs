use parasitic_image::pixel::Pixel;
use parasitic_image::raster::Image;
use parasitic_image::scaler::{fit_inside, MAX_SCALABLE_PIXELS};

fn grey(width: u32, height: u32) -> Image {
    Image::from_raw(width, height, vec![128u8; (4 * width * height) as usize]).unwrap()
}

/// `side` is `n / d` rounded to the nearest integer, at least one.
fn rounded_side(n: u64, d: u64, side: u64) -> bool {
    side >= 1 && 2 * side * d + d >= 2 * n && (side == 1 || 2 * side * d <= 2 * n + d)
}

fn fitted_extent_is_right(w: u32, h: u32, bw: u32, bh: u32, nw: u32, nh: u32) -> bool {
    let (w, h, bw, bh, nw, nh) = (w as u64, h as u64, bw as u64, bh as u64, nw as u64, nh as u64);
    if bw == 0 || bh == 0 {
        nw == 1 && nh == 1
    } else if bw * h <= bh * w {
        nw == bw && rounded_side(h * bw, w, nh)
    } else {
        nh == bh && rounded_side(w * bh, h, nw)
    }
}

fn check(w: u32, h: u32, bw: u32, bh: u32) {
    let scaled = fit_inside(&grey(w, h), bw, bh).unwrap();
    let (nw, nh) = (scaled.width(), scaled.height());
    assert!(
        fitted_extent_is_right(w, h, bw, bh, nw, nh),
        "{}x{} into {}x{} gave {}x{}",
        w, h, bw, bh, nw, nh
    );
    assert_eq!(scaled.as_raw().len() as u64, 4 * nw as u64 * nh as u64);
    if bw >= 1 && bh >= 1 {
        assert!(nw <= bw && nh <= bh);
        assert!(nw == bw || nh == bh);
    }
}

#[test]
fn fitted_extent_on_every_small_source_and_box() {
    for w in 1..=12u32 {
        for h in 1..=12u32 {
            for bw in 0..=16u32 {
                for bh in 0..=16u32 {
                    if bw == 0 || bh == 0 || bw * bh <= w * h {
                        check(w, h, bw, bh);
                    }
                }
            }
        }
    }
}

#[test]
fn fitted_extent_on_scattered_sources_and_boxes() {
    let mut state: u64 = 0x2545_f491_4f6c_dd1d;
    let mut next = |limit: u32| -> u32 {
        state = state.wrapping_mul(6364136223846793005).wrapping_add(1442695040888963407);
        ((state >> 33) as u32) % limit
    };
    let mut done = 0;
    while done < 600 {
        let w = 1 + next(300);
        let h = 1 + next(300);
        let bw = next(2 * w);
        let bh = if bw == 0 { next(400) } else { next((w * h / bw).min(2 * h) + 1) };
        if bw == 0 || bh == 0 || bw * bh <= w * h {
            check(w, h, bw, bh);
            done += 1;
        }
    }
}

#[test]
fn fitted_extent_at_exact_half_pixels() {
    // The proportional side is 1.5, 7.5, 0.5, 3.5 or 151.5 pixels.
    for bh in 2..=6 {
        check(2, 3, 1, bh);
    }
    check(10, 15, 5, 8);
    check(10, 15, 5, 30);
    check(3, 2, 2, 1);
    check(3, 2, 6, 1);
    check(15, 10, 8, 5);
    check(2, 1, 1, 1);
    check(2, 1, 1, 2);
    check(1, 2, 1, 1);
    check(1, 2, 2, 1);
    check(6, 9, 1, 2);
    check(6, 9, 1, 54);
    check(2, 7, 1, 14);
    check(7, 2, 14, 1);
    check(200, 300, 101, 152);
    check(300, 200, 152, 101);
    check(200, 300, 101, 594);
}

#[test]
fn fitted_extent_of_a_single_row_kept_whole() {
    check(1 << 24, 1, 1 << 24, 1);
}

#[test]
fn fitted_extent_of_a_single_row_squeezed() {
    check(1 << 24, 1, 4095, 4096);
    check((1 << 24) - 1, 1, (1 << 23) + 1, 1);
}

#[test]
fn fitted_extent_of_a_single_column_squeezed() {
    check(1, 1 << 24, 4096, 4095);
    check(1, (1 << 24) - 1, 5_000_000, 3);
}

#[test]
fn fitted_extent_of_the_largest_square() {
    check(4096, 4096, 4095, 4097);
    check(4096, 4096, 3, 4_000_000);
}

#[test]
fn fitted_extent_of_a_large_rectangle() {
    check(4095, 4097, 12345, 1359);
    check(4097, 4095, 1, 1);
}

#[test]
fn box_of_the_source_extent_gives_the_source_back() {
    let mut bytes = Vec::new();
    for i in 0..(4 * 7 * 5) {
        bytes.push((i * 37 % 251) as u8);
    }
    let source = Image::from_raw(7, 5, bytes).unwrap();
    assert_eq!(fit_inside(&source, 7, 5), Some(source.clone()));
}

#[test]
fn halving_averages_two_by_two_blocks() {
    let bytes = vec![
        10, 20, 30, 40, 20, 40, 60, 80, 1, 1, 1, 1, 3, 3, 3, 3, //
        30, 60, 90, 120, 40, 80, 120, 160, 5, 5, 5, 5, 8, 8, 8, 8,
    ];
    let source = Image::from_raw(4, 2, bytes).unwrap();
    let scaled = fit_inside(&source, 2, 1).unwrap();
    assert_eq!((scaled.width(), scaled.height()), (2, 1));
    assert_eq!(scaled.pixel_at(0, 0), Pixel { red: 25, green: 50, blue: 75, alpha: 100 });
    assert_eq!(scaled.pixel_at(1, 0), Pixel { red: 4, green: 4, blue: 4, alpha: 4 });
}

#[test]
fn empty_or_oversized_source_is_not_fitted() {
    assert_eq!(fit_inside(&Image::from_raw(0, 4, Vec::new()).unwrap(), 1, 1), None);
    assert_eq!(fit_inside(&Image::from_raw(4, 0, Vec::new()).unwrap(), 0, 0), None);
    assert!(MAX_SCALABLE_PIXELS == 4096 * 4096);
    let large = Image::from_raw(4097, 4096, vec![0u8; 4 * 4097 * 4096]).unwrap();
    assert_eq!(fit_inside(&large, 1, 1), None);
}

#[test]
fn box_with_more_pixels_than_the_source_is_not_fitted() {
    let source = grey(4, 3);
    assert!(fit_inside(&source, 4, 3).is_some());
    assert!(fit_inside(&source, 12, 1).is_some());
    assert!(fit_inside(&source, 1, 12).is_some());
    assert_eq!(fit_inside(&source, 13, 1), None);
    assert_eq!(fit_inside(&source, 4, 4), None);
    assert_eq!(fit_inside(&source, u32::MAX, u32::MAX), None);
    assert!(fit_inside(&source, u32::MAX, 0).is_some());
    assert!(fit_inside(&source, 0, u32::MAX).is_some());
}
