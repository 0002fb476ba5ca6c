use parasitic_image::analyzer::wide_branch;
use parasitic_image::quotient::quotient_bits;

fn hardware(a: u32, b: u32) -> u64 {
    (a as f64 / b as f64).to_bits()
}

#[test]
fn quotient_of_equal_operands_is_one() {
    assert_eq!(quotient_bits(1, 1), 0x3ff0_0000_0000_0000);
    assert_eq!(quotient_bits(7, 7), 1.0f64.to_bits());
    assert_eq!(quotient_bits(u32::MAX, u32::MAX), 1.0f64.to_bits());
}

#[test]
fn quotient_exact_values() {
    assert_eq!(quotient_bits(1, 2), 0.5f64.to_bits());
    assert_eq!(quotient_bits(3, 2), 1.5f64.to_bits());
    assert_eq!(quotient_bits(200, 100), 2.0f64.to_bits());
    assert_eq!(quotient_bits(1, 3), 0x3fd5_5555_5555_5555);
    assert_eq!(quotient_bits(2, 3), 0x3fe5_5555_5555_5555);
    assert_eq!(quotient_bits(1, 10), 0x3fb9_9999_9999_999a);
}

#[test]
fn quotient_extremes_match_hardware() {
    assert_eq!(quotient_bits(1, u32::MAX), hardware(1, u32::MAX));
    assert_eq!(quotient_bits(u32::MAX, 1), hardware(u32::MAX, 1));
    assert_eq!(quotient_bits(u32::MAX, u32::MAX - 1), hardware(u32::MAX, u32::MAX - 1));
    assert_eq!(quotient_bits(u32::MAX - 1, u32::MAX), hardware(u32::MAX - 1, u32::MAX));
    assert_eq!(quotient_bits(u32::MAX - 1, u32::MAX - 2), hardware(u32::MAX - 1, u32::MAX - 2));
}

#[test]
fn quotient_matches_hardware_on_small_grid() {
    for a in 1u32..=64 {
        for b in 1u32..=64 {
            assert_eq!(quotient_bits(a, b), hardware(a, b), "{} / {}", a, b);
        }
    }
}

#[test]
fn quotient_matches_hardware_on_scattered_operands() {
    let mut state: u64 = 0x9e37_79b9_7f4a_7c15;
    for _ in 0..20000 {
        state = state.wrapping_mul(6364136223846793005).wrapping_add(1442695040888963407);
        let a = ((state >> 32) as u32).max(1);
        state = state.wrapping_mul(6364136223846793005).wrapping_add(1442695040888963407);
        let b = ((state >> 32) as u32).max(1);
        let shift_a = (state & 31) as u32;
        let shift_b = ((state >> 5) & 31) as u32;
        let a = (a >> shift_a).max(1);
        let b = (b >> shift_b).max(1);
        assert_eq!(quotient_bits(a, b), hardware(a, b), "{} / {}", a, b);
    }
}

#[test]
fn quotient_rounds_ties_to_even_like_hardware() {
    // Divisors that are powers of two leave the dividend's bits untouched;
    // odd divisors near a power of two force long runs of ones.
    for a in [1u32, 3, 5, 0x00ff_ffff, 0x0100_0001, 0x7fff_ffff, 0x8000_0001, u32::MAX] {
        for b in [1u32, 2, 3, 7, 0x0001_0001, 0x00ff_ffff, 0x7fff_ffff, 0xffff_fffe, u32::MAX] {
            assert_eq!(quotient_bits(a, b), hardware(a, b), "{} / {}", a, b);
        }
    }
}

#[test]
fn wider_host_selects_wide_branch() {
    assert!(wide_branch(200, 100, 100, 100));
    assert!(wide_branch(3, 2, 4, 3));
}

#[test]
fn narrower_host_selects_height_branch() {
    assert!(!wide_branch(100, 100, 200, 100));
    assert!(!wide_branch(4, 3, 3, 2));
}

#[test]
fn equal_ratio_selects_height_branch() {
    assert!(!wide_branch(50, 100, 50, 100));
    assert!(!wide_branch(1, 2, 50, 100));
    assert!(!wide_branch(300, 200, 3, 2));
}

#[test]
fn branch_agrees_with_double_precision_comparison() {
    let cases = [
        (100u32, 100u32, 200u32, 100u32),
        (640, 480, 1920, 1080),
        (1920, 1080, 640, 480),
        (1, 3, 2, 6),
        (u32::MAX, u32::MAX - 1, u32::MAX - 1, u32::MAX - 2),
        (u32::MAX - 1, u32::MAX - 2, u32::MAX, u32::MAX - 1),
        (1000001, 1000000, 1000000, 999999),
    ];
    for (hx, hy, px, py) in cases {
        let expected = hx as f64 / hy as f64 > px as f64 / py as f64;
        assert_eq!(wide_branch(hx, hy, px, py), expected, "{:?}", (hx, hy, px, py));
    }
}

#[test]
fn ratios_closer_than_rounding_do_not_select_wide_branch() {
    // 4294967294 / 4294967293 is the greater fraction, by less than double
    // precision can tell.
    let (hx, hy, px, py) = (u32::MAX - 1, u32::MAX - 2, u32::MAX, u32::MAX - 1);
    assert!((hx as u64) * (py as u64) > (px as u64) * (hy as u64));
    assert!(!wide_branch(hx, hy, px, py));
}
