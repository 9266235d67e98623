use noisefilter::noise::{
    noise_make_salt_pepper, noise_salt_pepper, noise_salt_pepper_fits, salt_pepper_hit,
    salt_pepper_pixel,
};

#[test]
fn salt_pepper_hit_compares_draw_with_ratio() {
    assert!(salt_pepper_hit(95, 10));
    assert!(!salt_pepper_hit(90, 10));
    assert!(!salt_pepper_hit(190, 10));
    assert!(salt_pepper_hit(199, 10));
    for d in 0..=255u8 {
        assert!(!salt_pepper_hit(d, 0));
    }
    assert!(salt_pepper_hit(1, 100));
    assert!(!salt_pepper_hit(200, 100));
}

#[test]
fn salt_pepper_pixel_black_white_or_unchanged() {
    assert_eq!(salt_pepper_pixel(77, 10, 95, true), 0);
    assert_eq!(salt_pepper_pixel(77, 10, 95, false), 255);
    assert_eq!(salt_pepper_pixel(77, 10, 90, true), 77);
    assert_eq!(salt_pepper_pixel(77, 0, 99, false), 77);
}

#[test]
fn noise_make_salt_pepper_zero_ratio_keeps_pixel() {
    for _ in 0..200 {
        assert_eq!(noise_make_salt_pepper(123, 0), 123);
    }
}

#[test]
fn noise_make_salt_pepper_ratio_one_never_hits() {
    for _ in 0..200 {
        assert_eq!(noise_make_salt_pepper(45, 1), 45);
    }
}

#[test]
fn noise_make_salt_pepper_only_black_white_or_same() {
    for _ in 0..500 {
        let v = noise_make_salt_pepper(123, 100);
        assert!(v == 123 || v == 0 || v == 255);
    }
}

#[test]
fn noise_salt_pepper_zero_ratio_copies_and_blacks_the_border() {
    let m: Vec<Vec<u8>> = (0..4).map(|x| (0..3).map(|y| (x * 10 + y + 1) as u8).collect()).collect();
    assert!(noise_salt_pepper_fits(&m, 0, 5, 4));
    let (w, h, raw) = noise_salt_pepper(m.clone(), 0, 5, 4).into_parts();
    assert_eq!((w, h), (5, 4));
    for x in 0..5usize {
        for y in 0..4usize {
            let expected = if x < 4 && y < 3 { m[x][y] } else { 0 };
            assert_eq!(raw[y * 5 + x], expected);
        }
    }
}

#[test]
fn noise_salt_pepper_full_ratio_stays_in_range() {
    let m = vec![vec![100u8; 6]; 6];
    let (_, _, raw) = noise_salt_pepper(m, 100, 7, 7).into_parts();
    for x in 0..7usize {
        for y in 0..7usize {
            let v = raw[y * 7 + x];
            if x < 6 && y < 6 {
                assert!(v == 100 || v == 0 || v == 255);
            } else {
                assert_eq!(v, 0);
            }
        }
    }
}

#[test]
fn noise_salt_pepper_fits_refuses_what_would_panic() {
    let m = vec![vec![1u8; 3]; 3];
    assert!(!noise_salt_pepper_fits(&m, 101, 4, 4));
    assert!(!noise_salt_pepper_fits(&m, 5, 0, 4));
    assert!(!noise_salt_pepper_fits(&m, 5, 5, 4));
    assert!(noise_salt_pepper_fits(&m, 101, 1, 4));
    assert!(noise_salt_pepper_fits(&m, 101, 4, 1));
    assert!(!noise_salt_pepper_fits(&m, 5, 4, 0));
}

#[test]
fn noise_salt_pepper_ratio_one_copies_the_image() {
    let m: Vec<Vec<u8>> = (0..5).map(|x| (0..4).map(|y| (x * 13 + y * 7 + 3) as u8).collect()).collect();
    assert!(noise_salt_pepper_fits(&m, 1, 6, 5));
    let (w, h, raw) = noise_salt_pepper(m.clone(), 1, 6, 5).into_parts();
    assert_eq!((w, h), (6, 5));
    for x in 0..6usize {
        for y in 0..5usize {
            let expected = if x < 5 && y < 4 { m[x][y] } else { 0 };
            assert_eq!(raw[y * 6 + x], expected);
        }
    }
}
