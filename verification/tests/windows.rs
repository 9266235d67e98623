use noisefilter::stats::{
    covers_exec, parse_matrice, parse_matrice_c, pixel_sum, pixel_sum_fits, snr_powers,
    snr_powers_fit, sort_pixels,
};

fn sample() -> Vec<Vec<u8>> {
    vec![
        vec![10, 200, 30, 40],
        vec![50, 60, 7, 80],
        vec![90, 100, 110, 1],
        vec![13, 14, 15, 16],
    ]
}

#[test]
fn sort_pixels_orders_and_keeps_values() {
    let mut v = vec![5, 3, 9, 1, 3, 255, 0];
    sort_pixels(&mut v);
    assert_eq!(v, vec![0, 1, 3, 3, 5, 9, 255]);
}

#[test]
fn sort_pixels_empty_and_single() {
    let mut e: Vec<u8> = vec![];
    sort_pixels(&mut e);
    assert!(e.is_empty());
    let mut one = vec![42];
    sort_pixels(&mut one);
    assert_eq!(one, vec![42]);
}

#[test]
fn parse_matrice_median_odd_window() {
    // window at (0, 0) of side 3: 10 200 30 50 60 7 90 100 110 -> sorted middle is 60
    assert_eq!(parse_matrice(0, 0, 3, sample()), 60);
}

#[test]
fn parse_matrice_median_even_window_takes_lower_middle() {
    // window at (1, 1) of side 2: 60 7 100 110 -> sorted 7 60 100 110, index (4 - 1) / 2 = 1
    assert_eq!(parse_matrice(1, 1, 2, sample()), 60);
    // window at (2, 2): 110 1 15 16 -> 1 15 16 110 -> 15
    assert_eq!(parse_matrice(2, 2, 2, sample()), 15);
}

#[test]
fn parse_matrice_single_pixel() {
    assert_eq!(parse_matrice(0, 1, 1, sample()), 200);
}

#[test]
fn parse_matrice_c_mean_rounds_down() {
    // 10 + 200 + 50 + 60 = 320, / 4 = 80
    assert_eq!(parse_matrice_c(0, 0, 2, sample()), 80);
    // 110 + 1 + 15 + 16 = 142, / 4 = 35.5 -> 35
    assert_eq!(parse_matrice_c(2, 2, 2, sample()), 35);
    // the whole 3 by 3 corner: 657 / 9 = 73
    assert_eq!(parse_matrice_c(0, 0, 3, sample()), 73);
}

#[test]
fn parse_matrice_c_constant_window_is_that_level() {
    let m = vec![vec![255u8; 5]; 5];
    assert_eq!(parse_matrice_c(1, 1, 4, m.clone()), 255);
    assert_eq!(parse_matrice(1, 1, 4, m), 255);
}

#[test]
fn pixel_sum_adds_every_level() {
    let m = sample();
    let expected: u32 = m.iter().flatten().map(|&v| v as u32).sum();
    assert!(pixel_sum_fits(&m));
    assert_eq!(pixel_sum(&m), expected);
    assert_eq!(pixel_sum(&m), 836);
}

#[test]
fn pixel_sum_fits_detects_overflow() {
    // 255 * 16_843_010 > u32::MAX
    let big = vec![vec![255u8; 16_843_010]];
    assert!(!pixel_sum_fits(&big));
    let ok = vec![vec![255u8; 16_843_009]];
    assert!(pixel_sum_fits(&ok));
    assert_eq!(pixel_sum(&ok), 4_294_967_295);
}

#[test]
fn snr_powers_are_sums_of_squares() {
    let a = vec![vec![1u8, 2], vec![3, 4]];
    let b = vec![vec![2u8, 0], vec![1, 1], vec![200, 200]];
    assert!(snr_powers_fit(&a, &b));
    // 1 + 4 + 9 + 16 = 30 ; only the first two columns of b: 4 + 0 + 1 + 1 = 6
    assert_eq!(snr_powers(&a, &b), (30, 6));
}

#[test]
fn snr_powers_fit_needs_enough_columns_and_no_overflow() {
    let a = vec![vec![1u8], vec![1u8]];
    let b = vec![vec![1u8]];
    assert!(!snr_powers_fit(&a, &b));
    // 66052 * 65025 > u32::MAX
    let big = vec![vec![255u8; 66_052]];
    assert!(!snr_powers_fit(&big, &big));
    let small = vec![vec![255u8; 66_051]];
    assert!(snr_powers_fit(&small, &small));
}

#[test]
fn covers_checks_columns_and_rows() {
    let m = vec![vec![0u8; 3], vec![0u8; 2]];
    assert!(covers_exec(&m, 2, 2));
    assert!(!covers_exec(&m, 2, 3));
    assert!(covers_exec(&m, 1, 3));
    assert!(!covers_exec(&m, 3, 0));
    assert!(covers_exec(&m, 0, 100));
}

#[test]
fn parse_matrice_is_monotone() {
    let low = sample();
    let mut high = sample();
    high[0][0] = 250;
    high[1][2] = 99;
    for (x, y, w) in [(0u32, 0u32, 3u32), (1, 1, 2), (0, 0, 2), (1, 0, 3)] {
        assert!(parse_matrice(x, y, w, low.clone()) <= parse_matrice(x, y, w, high.clone()));
    }
    // raising the median pixel itself raises the median
    let mut up = sample();
    up[1][1] = 65;
    assert_eq!(parse_matrice(0, 0, 3, up), 65);
}
