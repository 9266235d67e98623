use image::{GenericImage, ImageBuffer, Pixel};
use noisefilter::filters::{conglo_filter, conglo_filter_fits, median_filter, median_filter_fits};
use noisefilter::raster::{generate_matrice_pix, generate_matrice_pix_fits, GrayCanvas};

fn parts(c: GrayCanvas) -> (u32, u32, Vec<u8>) {
    c.into_parts()
}

fn at(p: &(u32, u32, Vec<u8>), x: u32, y: u32) -> u8 {
    p.2[(y * p.0 + x) as usize]
}

/// A matrix whose columns are `width - 1` long lists of rows, as `generate_matrice_pix` makes.
fn ramp(cols: usize, rows: usize) -> Vec<Vec<u8>> {
    (0..cols)
        .map(|x| (0..rows).map(|y| ((x * 31 + y * 17) % 251) as u8).collect())
        .collect()
}

fn median_of(mut v: Vec<u8>) -> u8 {
    v.sort();
    v[(v.len() - 1) / 2]
}

#[test]
fn median_filter_paints_each_block_with_its_median() {
    // width 7, height 6, w 2: blocks start at columns 0, 2, 4 (ending at 6 = width - 1)
    // and rows 0, 2 (row 4 + 2 > 5 = height - 1)
    let m = ramp(6, 5);
    assert!(median_filter_fits(&m, 2, 7, 6));
    let p = parts(median_filter(m.clone(), 2, 7, 6));
    assert_eq!((p.0, p.1, p.2.len()), (7, 6, 42));
    for x in 0..7u32 {
        for y in 0..6u32 {
            let expected = if x < 6 && y < 4 {
                let (cx, cy) = ((x / 2 * 2) as usize, (y / 2 * 2) as usize);
                median_of(vec![m[cx][cy], m[cx][cy + 1], m[cx + 1][cy], m[cx + 1][cy + 1]])
            } else {
                0
            };
            assert_eq!(at(&p, x, y), expected, "pixel ({}, {})", x, y);
        }
    }
}

#[test]
fn median_filter_constant_image_stays_constant_on_blocks() {
    let m = vec![vec![77u8; 8]; 8];
    let p = parts(median_filter(m, 3, 9, 9));
    // blocks at 0, 3 (3 + 3 <= 8), 6 is refused (6 + 3 > 8)
    for x in 0..9u32 {
        for y in 0..9u32 {
            let covered = x < 6 && y < 6;
            assert_eq!(at(&p, x, y), if covered { 77 } else { 0 });
        }
    }
}

#[test]
fn median_filter_window_wider_than_image_leaves_it_black() {
    let m = ramp(3, 3);
    assert!(median_filter_fits(&m, 5, 4, 4));
    let p = parts(median_filter(m, 5, 4, 4));
    assert!(p.2.iter().all(|&v| v == 0));
}

#[test]
fn median_filter_fits_refuses_what_would_panic() {
    let m = ramp(6, 5);
    assert!(!median_filter_fits(&m, 0, 7, 6));
    assert!(!median_filter_fits(&m, 2, 0, 6));
    // needs 6 columns of 4 rows, the matrix has only 3 columns
    assert!(!median_filter_fits(&ramp(3, 5), 2, 7, 6));
    // no block fits a row: height is not even read
    assert!(median_filter_fits(&m, 2, 7, 0) == false);
    assert!(median_filter_fits(&vec![], 9, 7, 0));
}

#[test]
fn conglo_filter_single_block() {
    // width 17: only the column 0 (0 + 1 <= 1); height 5, w 2: only row 0 (0 + 2 <= 2)
    let m = ramp(17, 5);
    let p = parts(conglo_filter(m.clone(), 2, 17, 5));
    let mean = ((m[0][0] as u32 + m[0][1] as u32 + m[1][0] as u32 + m[1][1] as u32) / 4) as u8;
    for x in 0..17u32 {
        for y in 0..5u32 {
            let expected = if x < 2 && y < 2 { mean } else { 0 };
            assert_eq!(at(&p, x, y), expected, "pixel ({}, {})", x, y);
        }
    }
}

#[test]
fn conglo_filter_later_blocks_overwrite_earlier_ones() {
    // width 20: corners at columns 0 and 3 (3 + 1 <= 4); height 9, w 4: row 0 only (3 + 4 > 6)
    let m = ramp(20, 9);
    let p = parts(conglo_filter(m.clone(), 4, 20, 9));
    let mean = |cx: usize| {
        let mut s = 0u32;
        for x in cx..cx + 4 {
            for y in 0..4 {
                s += m[x][y] as u32;
            }
        }
        (s / 16) as u8
    };
    for x in 0..20u32 {
        for y in 0..9u32 {
            let expected = if y < 4 && x < 3 {
                mean(0)
            } else if y < 4 && x < 7 {
                mean(3)
            } else {
                0
            };
            assert_eq!(at(&p, x, y), expected, "pixel ({}, {})", x, y);
        }
    }
}

#[test]
fn conglo_filter_narrow_image_stays_black() {
    let p = parts(conglo_filter(vec![], 3, 16, 40));
    assert_eq!(p.2.len(), 16 * 40);
    assert!(p.2.iter().all(|&v| v == 0));
}

#[test]
fn generate_matrice_pix_reads_all_but_last_column_and_row() {
    let mut buf: image::RgbImage = ImageBuffer::new(4, 3);
    for x in 0..4 {
        for y in 0..3 {
            buf.put_pixel(x, y, image::Rgb([(x * 60) as u8, (y * 80) as u8, 10]));
        }
    }
    let img = image::ImageRgb8(buf);
    assert!(generate_matrice_pix_fits(&img));
    let mat = generate_matrice_pix(img.clone());
    assert_eq!(mat.len(), 3);
    for x in 0..3u32 {
        assert_eq!(mat[x as usize].len(), 2);
        for y in 0..2u32 {
            let expected = img.get_pixel(x, y).to_luma().data[0];
            assert_eq!(mat[x as usize][y as usize], expected);
        }
    }
    // black and white read as black and white
    assert_eq!(mat[0][0], image::Rgb([0u8, 0, 10]).to_luma().data[0]);
}

#[test]
fn generate_matrice_pix_of_one_column_image_is_empty() {
    let img = image::ImageLuma8(ImageBuffer::new(1, 0));
    assert!(generate_matrice_pix_fits(&img));
    assert!(generate_matrice_pix(img).is_empty());
    let empty = image::ImageLuma8(ImageBuffer::new(0, 5));
    assert!(!generate_matrice_pix_fits(&empty));
}

#[test]
fn into_parts_lays_rows_one_after_another() {
    let m = vec![vec![9u8, 9], vec![9, 9]];
    let p = parts(median_filter(m, 2, 3, 4));
    assert_eq!(p.0, 3);
    assert_eq!(p.1, 4);
    // block (0, 0)-(1, 1) painted, row 0: 9 9 0, row 1: 9 9 0, rows 2 and 3: 0
    assert_eq!(p.2, vec![9, 9, 0, 9, 9, 0, 0, 0, 0, 0, 0, 0]);
}

#[test]
fn conglo_filter_fits_accepts_and_refuses() {
    assert!(conglo_filter_fits(&ramp(20, 9), 4, 20, 9));
    assert!(conglo_filter_fits(&ramp(17, 5), 2, 17, 5));
    assert!(conglo_filter_fits(&vec![], 3, 16, 40));
    // narrower than 16 columns
    assert!(!conglo_filter_fits(&ramp(20, 9), 4, 15, 9));
    // fewer than 3 rows once a column is swept
    assert!(!conglo_filter_fits(&ramp(20, 9), 4, 20, 2));
    // an empty window
    assert!(!conglo_filter_fits(&ramp(20, 9), 0, 20, 9));
    // the matrix lacks the columns of the last block
    assert!(!conglo_filter_fits(&ramp(6, 9), 4, 20, 9));
    // the last block would end past the width: corner 0, side 18, width 17
    assert!(!conglo_filter_fits(&ramp(18, 30), 18, 17, 30));
    // a window too tall for any block is accepted and paints nothing
    assert!(conglo_filter_fits(&vec![], 7, 20, 9));
}

#[test]
fn median_filter_twice_changes_nothing() {
    let m = ramp(8, 7);
    let first = parts(median_filter(m, 2, 9, 8));
    // the filtered image as a matrix, column by column
    let m2: Vec<Vec<u8>> = (0..9u32)
        .map(|x| (0..8u32).map(|y| at(&first, x, y)).collect())
        .collect();
    assert!(median_filter_fits(&m2, 2, 9, 8));
    let second = parts(median_filter(m2, 2, 9, 8));
    assert_eq!(first, second);
}

#[test]
fn conglo_filter_pixel_takes_last_block() {
    // width 23: corners at columns 0 and 3 and 6 (6 + 1 <= 7); height 12, w 5: rows 0 and 3
    // (3 + 5 <= 9, 6 + 5 > 9)
    let m = ramp(23, 12);
    let p = parts(conglo_filter(m.clone(), 5, 23, 12));
    let mean = |cx: usize, cy: usize| {
        let mut s = 0u32;
        for x in cx..cx + 5 {
            for y in cy..cy + 5 {
                s += m[x][y] as u32;
            }
        }
        (s / 25) as u8
    };
    let last = |c: u32, last: u32| std::cmp::min(c / 3 * 3, last);
    for x in 0..23u32 {
        for y in 0..12u32 {
            let (cx, cy) = (last(x, 6), last(y, 3));
            let expected = if x < cx + 5 && y < cy + 5 { mean(cx as usize, cy as usize) } else { 0 };
            assert_eq!(at(&p, x, y), expected, "pixel ({}, {})", x, y);
        }
    }
}

#[test]
fn conglo_filter_reads_only_the_columns_of_its_blocks() {
    // w 1, width 20: corners at columns 0 and 3; height 4: row 0 only. Columns 1 and 2 are
    // never read, so they may be empty.
    let m = vec![vec![5u8], vec![], vec![], vec![7u8]];
    assert!(conglo_filter_fits(&m, 1, 20, 4));
    let p = parts(conglo_filter(m, 1, 20, 4));
    for x in 0..20u32 {
        for y in 0..4u32 {
            let expected = match (x, y) {
                (0, 0) => 5,
                (3, 0) => 7,
                _ => 0,
            };
            assert_eq!(at(&p, x, y), expected, "pixel ({}, {})", x, y);
        }
    }
    // a column that is read must hold the rows
    assert!(!conglo_filter_fits(&vec![vec![5u8], vec![], vec![], vec![]], 1, 20, 4));
}
