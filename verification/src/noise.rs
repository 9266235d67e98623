use vstd::prelude::*;
use crate::raster::{GrayCanvas, gray_pixels, gray_dims, blank, new_gray_image, put_gray_pixel};
use crate::stats::{grid, covers, covers_exec};

verus! {

/// `rand::random::<u8>()`: a byte from the thread's random number generator. Nothing is
/// promised of its value.
#[verifier::external_body]
fn random_byte() -> u8 {
    rand::random::<u8>()
}

/// `rand::random::<bool>()`: a coin flip from the thread's random number generator. Nothing
/// is promised of its value.
#[verifier::external_body]
fn random_flag() -> bool {
    rand::random::<bool>()
}

/// Whether a pixel is hit by the noise: a draw, taken modulo 100, above `100 - ratio`.
pub open spec fn noise_hits(draw: u8, ratio: u8) -> bool {
    draw % 100 > 100 - ratio
}

/// The grey level of a pixel after salt-and-pepper noise, given the draws: a hit pixel turns
/// black when the coin is up and white otherwise; the others keep their level.
pub open spec fn salted(pix: u8, ratio: u8, draw: u8, coin: bool) -> u8 {
    if noise_hits(draw, ratio) {
        if coin {
            0
        } else {
            255
        }
    } else {
        pix
    }
}

/// Whether a pixel is hit by the noise, for the draw `draw` and a noise ratio in percent.
pub fn salt_pepper_hit(draw: u8, ratio: u8) -> (hit: bool)
    requires
        ratio <= 100,
    ensures
        hit == noise_hits(draw, ratio),
        hit == ((draw as int) % 100 > 100 - (ratio as int)),
{
    (draw % 100) > (100 - ratio)
}

/// The grey level of a pixel after salt-and-pepper noise for the given draws.
pub fn salt_pepper_pixel(pix: u8, ratio: u8, draw: u8, coin: bool) -> (noisy: u8)
    requires
        ratio <= 100,
    ensures
        noisy == salted(pix, ratio, draw, coin),
        noisy == (if (draw as int) % 100 > 100 - (ratio as int) {
            if coin {
                0u8
            } else {
                255u8
            }
        } else {
            pix
        }),
{
    if salt_pepper_hit(draw, ratio) {
        if coin {
            let noise = 0 as u8;
            noise
        } else {
            let noise: u8 = 255;
            noise
        }
    } else {
        pix
    }
}

/// The draw `d` noises the pixel: what the pixel becomes then depends on the coin.
pub open spec fn coin_decides(pix: u8, ratio: u8, d: u8) -> bool {
    salted(pix, ratio, d, true) != salted(pix, ratio, d, false)
}

/// How many of the bytes `0 .. n` noise the pixel.
pub open spec fn noised_draws(pix: u8, ratio: u8, n: int) -> int
    decreases n,
{
    if n <= 0 {
        0
    } else {
        noised_draws(pix, ratio, n - 1) + if coin_decides(pix, ratio, (n - 1) as u8) {
            1int
        } else {
            0int
        }
    }
}

/// How many of the integers `0 .. m` are at least `t`, for `t >= 0`.
pub open spec fn count_from(m: int, t: int) -> int {
    if m > t {
        m - t
    } else {
        0
    }
}

/// A noised pixel is black or white by the coin, and a pixel left alone keeps its level: the
/// coin decides exactly for the draws whose remainder modulo 100 exceeds `100 - ratio`.
pub proof fn lemma_coin_decides_exactly(pix: u8, ratio: u8, d: u8)
    requires
        ratio <= 100,
    ensures
        coin_decides(pix, ratio, d) <==> (d as int) % 100 >= 101 - (ratio as int),
        coin_decides(pix, ratio, d) ==> salted(pix, ratio, d, true) == 0 && salted(
            pix,
            ratio,
            d,
            false,
        ) == 255,
        !coin_decides(pix, ratio, d) ==> salted(pix, ratio, d, true) == pix && salted(
            pix,
            ratio,
            d,
            false,
        ) == pix,
{
}

proof fn lemma_noised_draws_prefix(pix: u8, ratio: u8, n: int)
    requires
        ratio <= 100,
        0 <= n <= 256,
    ensures
        noised_draws(pix, ratio, n) == if n <= 100 {
            count_from(n, 101 - ratio)
        } else if n <= 200 {
            count_from(100, 101 - ratio) + count_from(n - 100, 101 - ratio)
        } else {
            2 * count_from(100, 101 - ratio) + count_from(n - 200, 101 - ratio)
        },
    decreases n,
{
    if n > 0 {
        lemma_noised_draws_prefix(pix, ratio, n - 1);
        let k = (n - 1) as u8;
        assert(k as int == n - 1);
        lemma_coin_decides_exactly(pix, ratio, k);
        if n - 1 < 100 {
            assert((k as int) % 100 == n - 1);
        } else if n - 1 < 200 {
            assert((k as int) % 100 == n - 101);
        } else {
            assert((k as int) % 100 == n - 201);
        }
    }
}

/// The noise ratio is a percentage: of the remainders 0 to 99 of a draw modulo 100, exactly
/// `ratio - 1` (none for a ratio of 0) noise the pixel; of the 256 bytes that can be drawn,
/// `2 * (ratio - 1)` plus `ratio - 45` when the ratio exceeds 45 do.
pub proof fn lemma_noised_draw_count(pix: u8, ratio: u8)
    requires
        ratio <= 100,
    ensures
        noised_draws(pix, ratio, 100) == if ratio == 0 {
            0
        } else {
            ratio - 1
        },
        noised_draws(pix, ratio, 256) == if ratio == 0 {
            0
        } else {
            2 * (ratio - 1) + if ratio > 45 {
                ratio - 45
            } else {
                0
            }
        },
{
    lemma_noised_draws_prefix(pix, ratio, 100);
    lemma_noised_draws_prefix(pix, ratio, 256);
}

/// Salt-and-pepper noise on one pixel, with a noise ratio in percent: it draws a byte, and
/// when the pixel is hit it flips a coin for black or white. The result is what `salted`
/// gives for some draw and some coin; which ones, chance decides. Since a draw modulo 100 is
/// at most 99, a ratio of 0 or 1 never hits.
pub fn noise_make_salt_pepper(pix: u8, noise_ratio: u8) -> (noisy: u8)
    requires
        noise_ratio <= 100,
    ensures
        exists|draw: u8, coin: bool| noisy == #[trigger] salted(pix, noise_ratio, draw, coin),
        noisy == pix || noisy == 0 || noisy == 255,
        noise_ratio <= 1 ==> noisy == pix,
{
    let draw = random_byte();
    if salt_pepper_hit(draw, noise_ratio) {
        let coin = random_flag();
        let noisy = salt_pepper_pixel(pix, noise_ratio, draw, coin);
        assert(noisy == salted(pix, noise_ratio, draw, coin));
        noisy
    } else {
        assert(pix == salted(pix, noise_ratio, draw, false));
        pix
    }
}

/// The inputs on which the salt-and-pepper filter runs to its end.
pub open spec fn noise_salt_pepper_accepts(
    g: Seq<Seq<u8>>,
    noise_ratio: u8,
    width: u32,
    height: u32,
) -> bool {
    &&& 1 <= width
    &&& (width as int) * (height as int) <= isize::MAX
    &&& 2 <= width ==> 1 <= height
    &&& 2 <= width && 2 <= height ==> {
        &&& noise_ratio <= 100
        &&& covers(g, width - 1, height - 1)
        &&& (height - 2) * (width as int) + (width - 2) <= u32::MAX
    }
}

/// The grey level `level` is what salt-and-pepper noise makes of `pix` for some draw and some
/// coin: `pix` itself, black or white, and `pix` itself whenever the ratio is 0 or 1.
pub open spec fn may_salt(level: u8, pix: u8, noise_ratio: u8) -> bool {
    &&& exists|draw: u8, coin: bool| level == #[trigger] salted(pix, noise_ratio, draw, coin)
    &&& level == pix || level == 0 || level == 255
    &&& noise_ratio <= 1 ==> level == pix
}

/// Salt-and-pepper noise over the image, with a noise ratio in percent. Every pixel but
/// those of the last column and the last row goes through `noise_make_salt_pepper`; those of
/// the last column and row stay black.
pub fn noise_salt_pepper(mat_img: Vec<Vec<u8>>, noise_ratio: u8, width: u32, height: u32) -> (img:
    GrayCanvas)
    requires
        noise_salt_pepper_accepts(grid(mat_img), noise_ratio, width, height),
    ensures
        gray_dims(img) == (width, height),
        gray_pixels(img).dom() == blank(width, height).dom(),
        forall|p: (u32, u32)|
            #![trigger gray_pixels(img)[p]]
            blank(width, height).dom().contains(p) ==> if p.0 < width - 1 && p.1 < height - 1 {
                may_salt(gray_pixels(img)[p], grid(mat_img)[p.0 as int][p.1 as int], noise_ratio)
            } else {
                gray_pixels(img)[p] == 0
            },
{
    let ghost g = grid(mat_img);
    let mut img_buff = new_gray_image(width, height);
    let end_x = width - 1;
    let mut x: u32 = 0;
    while x < end_x
        invariant
            noise_salt_pepper_accepts(g, noise_ratio, width, height),
            g == grid(mat_img),
            end_x == width - 1,
            x <= end_x,
            gray_dims(img_buff) == (width, height),
            gray_pixels(img_buff).dom() == blank(width, height).dom(),
            forall|p: (u32, u32)|
                #![trigger gray_pixels(img_buff)[p]]
                blank(width, height).dom().contains(p) ==> if p.0 < x && p.1 < height - 1 {
                    may_salt(gray_pixels(img_buff)[p], g[p.0 as int][p.1 as int], noise_ratio)
                } else {
                    gray_pixels(img_buff)[p] == 0
                },
        decreases end_x - x,
    {
        let end_y = height - 1;
        let mut y: u32 = 0;
        while y < end_y
            invariant
                noise_salt_pepper_accepts(g, noise_ratio, width, height),
                g == grid(mat_img),
                end_x == width - 1,
                x < end_x,
                end_y == height - 1,
                y <= end_y,
                gray_dims(img_buff) == (width, height),
                gray_pixels(img_buff).dom() == blank(width, height).dom(),
                forall|p: (u32, u32)|
                    #![trigger gray_pixels(img_buff)[p]]
                    blank(width, height).dom().contains(p) ==> if (p.0 < x && p.1 < height - 1) || (
                    p.0 == x && p.1 < y) {
                        may_salt(gray_pixels(img_buff)[p], g[p.0 as int][p.1 as int], noise_ratio)
                    } else {
                        gray_pixels(img_buff)[p] == 0
                    },
            decreases end_y - y,
        {
            assert(y < g[x as int].len());
            assert(mat_img@[x as int]@ == g[x as int]);
            let pix = mat_img[x as usize][y as usize];
            let noisy = noise_make_salt_pepper(pix, noise_ratio);
            proof {
                assert((y as int) * (width as int) <= (height - 2) * (width as int))
                    by (nonlinear_arith)
                    requires
                        y <= height - 2,
                ;
            }
            put_gray_pixel(&mut img_buff, x, y, noisy);
            y = y + 1;
        }
        x = x + 1;
    }
    img_buff
}


/// Whether `noise_salt_pepper` runs to its end on these inputs.
pub fn noise_salt_pepper_fits(mat_img: &Vec<Vec<u8>>, noise_ratio: u8, width: u32, height: u32) -> (fits:
    bool)
    ensures
        fits == noise_salt_pepper_accepts(grid(*mat_img), noise_ratio, width, height),
{
    if width < 1 {
        return false;
    }
    assert((width as int) * (height as int) <= u64::MAX) by (nonlinear_arith)
        requires
            width <= u32::MAX,
            height <= u32::MAX,
    ;
    if (width as u64) * (height as u64) > isize::MAX as u64 {
        return false;
    }
    if width < 2 {
        return true;
    }
    if height < 1 {
        return false;
    }
    if height < 2 {
        return true;
    }
    if noise_ratio > 100 {
        return false;
    }
    assert(((height - 2) as int) * (width as int) <= u64::MAX - u32::MAX) by (nonlinear_arith)
        requires
            width <= u32::MAX,
            height <= u32::MAX,
    ;
    if ((height - 2) as u64) * (width as u64) + ((width - 2) as u64) > 0xffff_ffff {
        return false;
    }
    covers_exec(mat_img, (width - 1) as usize, (height - 1) as usize)
}

} // verus!
