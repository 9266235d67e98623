use vstd::prelude::*;
use crate::raster::{GrayCanvas, gray_pixels, gray_dims, blank, new_gray_image, put_gray_pixel};
use crate::stats::{
    grid, window, window_fits, median, mean, total, parse_matrice, parse_matrice_c,
    lemma_median_is_member, lemma_window_len, covers, covers_exec, window_total,
    lemma_window_median_constant,
};

verus! {

/// The pixels of `m` with the `cols`-by-`rows` rectangle whose corner is `(x, y)` set to `v`.
pub open spec fn paint_rect(
    m: Map<(u32, u32), u8>,
    x: int,
    y: int,
    cols: int,
    rows: int,
    v: u8,
) -> Map<(u32, u32), u8> {
    Map::new(
        |p: (u32, u32)| m.dom().contains(p),
        |p: (u32, u32)|
            if x <= p.0 < x + cols && y <= p.1 < y + rows {
                v
            } else {
                m[p]
            },
    )
}

/// The pixels of `m` with the `w`-by-`w` block whose corner is `(x, y)` set to `v`.
pub open spec fn paint_block(m: Map<(u32, u32), u8>, x: int, y: int, w: int, v: u8) -> Map<
    (u32, u32),
    u8,
> {
    paint_rect(m, x, y, w, w, v)
}

/// Paints, in column `x`, the blocks whose corners are `(x, y)`, `(x, y + step)`, ... as long
/// as a block ends at or before `ylim`, each block getting `value(x, y)` of its corner.
pub open spec fn sweep_column(
    m: Map<(u32, u32), u8>,
    value: spec_fn(int, int) -> u8,
    x: int,
    y: int,
    w: int,
    step: int,
    ylim: int,
) -> Map<(u32, u32), u8>
    decreases ylim - y + step,
{
    if 0 < step && 0 < w && y + w <= ylim {
        sweep_column(paint_block(m, x, y, w, value(x, y)), value, x, y + step, w, step, ylim)
    } else {
        m
    }
}

/// Paints the columns `x`, `x + xstep`, ... as long as `x + xspan <= xlim`, each one by
/// `sweep_column` from row 0 with steps of `ystep` up to `ylim`.
pub open spec fn sweep(
    m: Map<(u32, u32), u8>,
    value: spec_fn(int, int) -> u8,
    x: int,
    xspan: int,
    xstep: int,
    xlim: int,
    w: int,
    ystep: int,
    ylim: int,
) -> Map<(u32, u32), u8>
    decreases xlim - x + xstep,
{
    if 0 < xstep && 0 <= xspan && x + xspan <= xlim {
        sweep(
            sweep_column(m, value, x, 0, w, ystep, ylim),
            value,
            x + xstep,
            xspan,
            xstep,
            xlim,
            w,
            ystep,
            ylim,
        )
    } else {
        m
    }
}

/// Paints the `w`-by-`w` block whose corner is `(x, y)` with the grey level `v`.
fn paint_square(img_buff: &mut GrayCanvas, x: u32, y: u32, w: u32, v: u8)
    requires
        x + w <= u32::MAX,
        y + w <= u32::MAX,
        x + w <= gray_dims(*old(img_buff)).0,
        y + w <= gray_dims(*old(img_buff)).1,
        1 <= w ==> (y + w - 1) * (gray_dims(*old(img_buff)).0 as int) + (x + w - 1) <= u32::MAX,
        gray_pixels(*old(img_buff)).dom() == blank(
            gray_dims(*old(img_buff)).0,
            gray_dims(*old(img_buff)).1,
        ).dom(),
    ensures
        gray_dims(*final(img_buff)) == gray_dims(*old(img_buff)),
        gray_pixels(*final(img_buff)) == paint_block(
            gray_pixels(*old(img_buff)),
            x as int,
            y as int,
            w as int,
            v,
        ),
{
    let ghost start = gray_pixels(*img_buff);
    let ghost dims = gray_dims(*img_buff);
    let end_x = x + w;
    let end_y = y + w;
    let mut pixel_x = x;
    while pixel_x < end_x
        invariant
            x <= pixel_x <= end_x,
            end_x == x + w,
            end_y == y + w,
            x + w <= dims.0,
            y + w <= dims.1,
            1 <= w ==> (y + w - 1) * (dims.0 as int) + (x + w - 1) <= u32::MAX,
            start.dom() == blank(dims.0, dims.1).dom(),
            gray_dims(*img_buff) == dims,
            gray_pixels(*img_buff) == paint_rect(start, x as int, y as int, pixel_x - x, w as int, v),
        decreases end_x - pixel_x,
    {
        let ghost column_start = gray_pixels(*img_buff);
        let mut pixel_y = y;
        while pixel_y < end_y
            invariant
                x <= pixel_x < end_x,
                y <= pixel_y <= end_y,
                end_x == x + w,
                end_y == y + w,
                x + w <= dims.0,
                y + w <= dims.1,
                (y + w - 1) * (dims.0 as int) + (x + w - 1) <= u32::MAX,
                start.dom() == blank(dims.0, dims.1).dom(),
                column_start == paint_rect(start, x as int, y as int, pixel_x - x, w as int, v),
                gray_dims(*img_buff) == dims,
                gray_pixels(*img_buff) == Map::new(
                    |p: (u32, u32)| start.dom().contains(p),
                    |p: (u32, u32)|
                        if p.0 == pixel_x && y <= p.1 < pixel_y {
                            v
                        } else {
                            column_start[p]
                        },
                ),
            decreases end_y - pixel_y,
        {
            assert((pixel_y as int) * (dims.0 as int) <= (y + w - 1) * (dims.0 as int))
                by (nonlinear_arith)
                requires
                    pixel_y <= y + w - 1,
            ;
            put_gray_pixel(img_buff, pixel_x, pixel_y, v);
            assert(gray_pixels(*img_buff) =~= Map::new(
                |p: (u32, u32)| start.dom().contains(p),
                |p: (u32, u32)|
                    if p.0 == pixel_x && y <= p.1 < pixel_y + 1 {
                        v
                    } else {
                        column_start[p]
                    },
            ));
            pixel_y = pixel_y + 1;
        }
        let ghost next = paint_rect(start, x as int, y as int, pixel_x + 1 - x, w as int, v);
        assert(gray_pixels(*img_buff) =~= next);
        pixel_x = pixel_x + 1;
    }
    assert(gray_pixels(*img_buff) =~= paint_block(start, x as int, y as int, w as int, v));
}


/// The largest multiple of `w` that is at most `n`.
pub open spec fn tiled(n: int, w: int) -> int {
    (n / w) * w
}

/// The median of the `w`-by-`w` window at each corner.
pub open spec fn median_at(g: Seq<Seq<u8>>, w: int) -> spec_fn(int, int) -> u8 {
    |x: int, y: int| median(window(g, x, y, w))
}

/// What the median filter paints: each `w`-by-`w` block, from the corner `(0, 0)` on in steps
/// of `w`, that ends before the last column and the last row gets the median of its pixels.
pub open spec fn median_image(g: Seq<Seq<u8>>, w: int, width: u32, height: u32) -> Map<
    (u32, u32),
    u8,
> {
    sweep(blank(width, height), median_at(g, w), 0, w, w, width - 1, w, w, height - 1)
}

/// The median filter, pixel by pixel: a pixel inside the last whole block of columns and of
/// rows holds the median of the `w`-by-`w` block that contains it; every other pixel is black.
pub open spec fn median_pixel(g: Seq<Seq<u8>>, w: u32, width: u32, height: u32, p: (u32, u32)) -> u8 {
    if p.0 < tiled(width - 1, w as int) && p.1 < tiled(height - 1, w as int) {
        median(window(g, (p.0 / w * w) as int, (p.1 / w * w) as int, w as int))
    } else {
        0
    }
}

/// The inputs on which the median filter runs to its end.
pub open spec fn median_filter_accepts(g: Seq<Seq<u8>>, w: u32, width: u32, height: u32) -> bool {
    &&& 1 <= width
    &&& 1 <= w
    &&& (width as int) * (height as int) <= isize::MAX
    &&& tiled(width - 1, w as int) + w <= u32::MAX
    &&& w <= width - 1 ==> {
        &&& 1 <= height
        &&& tiled(height - 1, w as int) + w <= u32::MAX
    }
    &&& w <= width - 1 && w <= height - 1 ==> {
        &&& covers(g, tiled(width - 1, w as int), tiled(height - 1, w as int))
        &&& (tiled(height - 1, w as int) - 1) * width + tiled(width - 1, w as int) - 1 <= u32::MAX
    }
}

/// A copy of the matrix.
fn copy_matrix(mat: &Vec<Vec<u8>>) -> (c: Vec<Vec<u8>>)
    ensures
        grid(c) == grid(*mat),
{
    let c = mat.clone();
    proof {
        assert forall|i: int| 0 <= i < c@.len() implies c@[i]@ == mat@[i]@ by {
            assert(c@[i]@ =~= mat@[i]@);
        }
        assert(grid(c) =~= grid(*mat));
    }
    c
}

/// One more step of `w` still fits below `n`.
proof fn lemma_tile_step(k: int, w: int, n: int)
    requires
        1 <= w,
        0 <= k,
        k * w + w <= n,
    ensures
        (k + 1) * w <= tiled(n, w),
        k * w + w == (k + 1) * w,
{
    assert(k * w + w == (k + 1) * w) by (nonlinear_arith);
    assert((k + 1) <= n / w) by (nonlinear_arith)
        requires
            1 <= w,
            0 <= k,
            (k + 1) * w <= n,
    {
        vstd::arithmetic::div_mod::lemma_div_is_ordered((k + 1) * w, n, w);
        vstd::arithmetic::div_mod::lemma_div_multiples_vanish(k + 1, w);
    }
    assert((k + 1) * w <= (n / w) * w) by (nonlinear_arith)
        requires
            1 <= w,
            (k + 1) <= n / w,
    ;
}

/// The last corner of the sweep: once `k * w + w` passes `n`, `k * w` is `tiled(n, w)`.
proof fn lemma_tile_end(k: int, w: int, n: int)
    requires
        1 <= w,
        0 <= k,
        0 <= n,
        k * w <= tiled(n, w),
        n < k * w + w,
    ensures
        k * w == tiled(n, w),
{
    vstd::arithmetic::div_mod::lemma_fundamental_div_mod(n, w);
    assert(tiled(n, w) <= n) by (nonlinear_arith)
        requires
            n == w * (n / w) + n % w,
            0 <= n % w,
    ;
    assert(n / w == k) by (nonlinear_arith)
        requires
            1 <= w,
            0 <= k,
            k * w <= n,
            n < k * w + w,
            n == w * (n / w) + n % w,
            0 <= n % w < w,
    ;
    assert(k * w == (n / w) * w);
}

/// Replaces each `w`-by-`w` block of the image, from the corner `(0, 0)` on and up to the
/// last column and row (which the sweep never reaches), by the median of its pixels; the
/// pixels that no block covers stay black.
pub fn median_filter(mat_img: Vec<Vec<u8>>, w: u32, width: u32, height: u32) -> (img: GrayCanvas)
    requires
        median_filter_accepts(grid(mat_img), w, width, height),
    ensures
        gray_dims(img) == (width, height),
        gray_pixels(img) == median_image(grid(mat_img), w as int, width, height),
        forall|p: (u32, u32)|
            p.0 < width && p.1 < height ==> #[trigger] gray_pixels(img)[p] == median_pixel(
                grid(mat_img),
                w,
                width,
                height,
                p,
            ),
{
    let ghost g = grid(mat_img);
    let ghost value = median_at(g, w as int);
    let mut img_buff = new_gray_image(width, height);
    let mut x: u32 = 0;
    let ghost mut kx: int = 0;
    while x + w <= width - 1
        invariant
            median_filter_accepts(g, w, width, height),
            g == grid(mat_img),
            value == median_at(g, w as int),
            x == kx * w,
            0 <= kx,
            x <= tiled(width - 1, w as int),
            gray_dims(img_buff) == (width, height),
            gray_pixels(img_buff).dom() == blank(width, height).dom(),
            sweep(gray_pixels(img_buff), value, x as int, w as int, w as int, width - 1, w as int, w as int, height - 1)
                == median_image(g, w as int, width, height),
        decreases width - x,
    {
        proof {
            lemma_tile_step(kx, w as int, width - 1);
        }
        let ghost column_start = gray_pixels(img_buff);
        let mut y: u32 = 0;
        let ghost mut ky: int = 0;
        while y + w <= height - 1
            invariant
                median_filter_accepts(g, w, width, height),
                g == grid(mat_img),
                value == median_at(g, w as int),
                x + w <= width - 1,
                x + w <= tiled(width - 1, w as int),
                y == ky * w,
                0 <= ky,
                y <= tiled(height - 1, w as int),
                gray_dims(img_buff) == (width, height),
                gray_pixels(img_buff).dom() == blank(width, height).dom(),
                sweep_column(gray_pixels(img_buff), value, x as int, y as int, w as int, w as int, height - 1)
                    == sweep_column(column_start, value, x as int, 0, w as int, w as int, height - 1),
            decreases height - y,
        {
            proof {
                lemma_tile_step(ky, w as int, height - 1);
                assert(window_fits(g, x as int, y as int, w as int));
            }
            let medium = parse_matrice(x, y, w, copy_matrix(&mat_img));
            proof {
                assert((y + w - 1) * (width as int) + (x + w - 1) <= (tiled(height - 1, w as int) - 1) * width + tiled(width - 1, w as int) - 1) by (nonlinear_arith)
                    requires
                        y + w <= tiled(height - 1, w as int),
                        x + w <= tiled(width - 1, w as int),
                        1 <= w,
                ;
            }
            paint_square(&mut img_buff, x, y, w, medium);
            y = y + w;
            proof {
                ky = ky + 1;
            }
        }
        proof {
            lemma_tile_end(ky, w as int, height - 1);
        }
        x = x + w;
        proof {
            kx = kx + 1;
        }
    }
    proof {
        lemma_tile_end(kx, w as int, width - 1);
    }
    proof {
        assert forall|p: (u32, u32)| p.0 < width && p.1 < height implies #[trigger] gray_pixels(
            img_buff,
        )[p] == median_pixel(g, w, width, height, p) by {
            lemma_median_image_pixel(g, w, width, height, p.0, p.1);
        }
    }
    img_buff
}


/// A multiple of `s` that is at most `n` is at most `tiled(n, s)`.
proof fn lemma_multiple_below(k: int, s: int, n: int)
    requires
        1 <= s,
        0 <= k,
        k * s <= n,
    ensures
        k * s <= tiled(n, s),
{
    assert(k <= n / s) by (nonlinear_arith)
        requires
            1 <= s,
            0 <= k,
            k * s <= n,
    {
        vstd::arithmetic::div_mod::lemma_div_is_ordered(k * s, n, s);
        vstd::arithmetic::div_mod::lemma_div_multiples_vanish(k, s);
    }
    assert(k * s <= (n / s) * s) by (nonlinear_arith)
        requires
            1 <= s,
            k <= n / s,
    ;
}

/// The mean of the `w`-by-`w` window at each corner.
pub open spec fn mean_at(g: Seq<Seq<u8>>, w: int) -> spec_fn(int, int) -> u8 {
    |x: int, y: int| mean(window(g, x, y, w)) as u8
}

/// The last column at which the clustering filter starts a block.
pub open spec fn conglo_last_x(width: u32) -> int {
    tiled(width - 17, 3)
}

/// The last row at which the clustering filter starts a block.
pub open spec fn conglo_last_y(height: u32, w: u32) -> int {
    tiled(height - 3 - w, 3)
}

/// What the clustering filter paints: the `w`-by-`w` blocks whose corners step by 3 in both
/// directions, as long as the corner's column stays before `width - 16` and the block ends
/// before `height - 3`, each block getting the mean of its pixels; where blocks overlap, the
/// block painted last wins.
pub open spec fn conglo_image(g: Seq<Seq<u8>>, w: int, width: u32, height: u32) -> Map<
    (u32, u32),
    u8,
> {
    sweep(blank(width, height), mean_at(g, w), 0, 1, 3, width - 16, w, 3, height - 3)
}

/// The clustering filter reads column `c`: the last corner at or before it starts a block
/// that reaches it.
pub open spec fn conglo_reads_column(c: int, w: int, width: u32) -> bool {
    let a = last_corner(c, conglo_last_x(width));
    0 <= a && c < a + w
}

/// Every column that the clustering filter reads exists and holds the rows its blocks read.
pub open spec fn conglo_read_columns_fit(g: Seq<Seq<u8>>, w: u32, width: u32, height: u32) -> bool {
    forall|c: int|
        0 <= c && #[trigger] conglo_reads_column(c, w as int, width) ==> c < g.len()
            && conglo_last_y(height, w) + w <= g[c].len()
}

/// The window of every corner that the clustering filter visits lies inside the matrix.
proof fn lemma_corner_window_fits(g: Seq<Seq<u8>>, w: u32, width: u32, height: u32, x: int, y: int)
    requires
        conglo_read_columns_fit(g, w, width, height),
        1 <= w,
        0 <= x <= conglo_last_x(width),
        x % 3 == 0,
        0 <= y <= conglo_last_y(height, w),
    ensures
        window_fits(g, x, y, w as int),
{
    let lx = conglo_last_x(width);
    assert forall|c: int| x <= c < x + w implies conglo_reads_column(c, w as int, width) by {
        assert(x <= floor3(c));
        assert(x <= last_corner(c, lx));
    }
    assert(conglo_reads_column(x + w - 1, w as int, width));
    assert(conglo_last_y(height, w) + w <= g[x + w - 1].len());
    assert forall|c: int| x <= c < x + w implies y + w <= #[trigger] g[c].len() by {
        assert(conglo_reads_column(c, w as int, width));
        assert(conglo_last_y(height, w) + w <= g[c].len());
    }
}

/// The inputs on which the clustering filter runs to its end and paints inside the image.
pub open spec fn conglo_filter_accepts(g: Seq<Seq<u8>>, w: u32, width: u32, height: u32) -> bool {
    &&& 16 <= width
    &&& (width as int) * (height as int) <= isize::MAX
    &&& 17 <= width ==> 3 <= height
    &&& 17 <= width && 3 <= height ==> 1 <= w
    &&& 17 <= width && 3 <= height && w <= height - 3 ==> {
        &&& conglo_read_columns_fit(g, w, width, height)
        &&& conglo_last_x(width) + w <= width
        &&& w * w <= u32::MAX
        &&& (conglo_last_y(height, w) + w - 1) * width + conglo_last_x(width) + w - 1 <= u32::MAX
        &&& forall|a: int, b: int|
            0 <= a <= conglo_last_x(width) && a % 3 == 0 && 0 <= b <= conglo_last_y(height, w) && b
                % 3 == 0 ==> #[trigger] total(window(g, a, b, w as int)) <= u32::MAX
    }
}

/// Replaces `w`-by-`w` blocks of the image, their corners stepping by 3 in both directions,
/// by the mean of their pixels (rounded down); overlapping blocks are painted in order, column
/// by column, and pixels that no block covers stay black.
pub fn conglo_filter(mat_img: Vec<Vec<u8>>, w: u32, width: u32, height: u32) -> (img: GrayCanvas)
    requires
        conglo_filter_accepts(grid(mat_img), w, width, height),
    ensures
        gray_dims(img) == (width, height),
        gray_pixels(img) == conglo_image(grid(mat_img), w as int, width, height),
        forall|p: (u32, u32)|
            p.0 < width && p.1 < height ==> #[trigger] gray_pixels(img)[p] == conglo_pixel(
                grid(mat_img),
                w,
                width,
                height,
                p,
            ),
{
    let ghost g = grid(mat_img);
    let ghost value = mean_at(g, w as int);
    let mut img_buff = new_gray_image(width, height);
    let mut x: u32 = 0;
    let ghost mut kx: int = 0;
    while x + 1 <= width - 16
        invariant
            conglo_filter_accepts(g, w, width, height),
            g == grid(mat_img),
            value == mean_at(g, w as int),
            x == kx * 3,
            0 <= kx,
            x <= width - 14,
            gray_dims(img_buff) == (width, height),
            gray_pixels(img_buff).dom() == blank(width, height).dom(),
            sweep(gray_pixels(img_buff), value, x as int, 1, 3, width - 16, w as int, 3, height - 3)
                == conglo_image(g, w as int, width, height),
        decreases width - x,
    {
        proof {
            lemma_multiple_below(kx, 3, width - 17);
        }
        let ghost column_start = gray_pixels(img_buff);
        let mut y: u32 = 0;
        let ghost mut ky: int = 0;
        while y + w <= height - 3
            invariant
                conglo_filter_accepts(g, w, width, height),
                17 <= width,
                g == grid(mat_img),
                value == mean_at(g, w as int),
                x == kx * 3,
                0 <= kx,
                x <= conglo_last_x(width),
                y == ky * 3,
                0 <= ky,
                y == 0 || y + w <= height,
                gray_dims(img_buff) == (width, height),
                gray_pixels(img_buff).dom() == blank(width, height).dom(),
                sweep_column(gray_pixels(img_buff), value, x as int, y as int, w as int, 3, height - 3)
                    == sweep_column(column_start, value, x as int, 0, w as int, 3, height - 3),
            decreases height - y,
        {
            proof {
                lemma_multiple_below(ky, 3, height - 3 - w);
                lemma_corner_window_fits(g, w, width, height, x as int, y as int);
                assert(total(window(g, x as int, y as int, w as int)) <= u32::MAX);
            }
            let medium = parse_matrice_c(x, y, w, copy_matrix(&mat_img));
            proof {
                assert((y + w - 1) * (width as int) + (x + w - 1) <= (conglo_last_y(height, w) + w - 1) * width + conglo_last_x(width) + w - 1) by (nonlinear_arith)
                    requires
                        y <= conglo_last_y(height, w),
                        x <= conglo_last_x(width),
                        1 <= w,
                ;
            }
            paint_square(&mut img_buff, x, y, w, medium);
            y = y + 3;
            proof {
                ky = ky + 1;
            }
        }
        x = x + 3;
        proof {
            kx = kx + 1;
        }
    }
    proof {
        assert forall|p: (u32, u32)| p.0 < width && p.1 < height implies #[trigger] gray_pixels(
            img_buff,
        )[p] == conglo_pixel(g, w, width, height, p) by {
            lemma_conglo_image_closed_form(g, w, width, height, p);
        }
    }
    img_buff
}


/// Inside the block `[k * w, k * w + w)`, a coordinate divided by `w` gives `k`.
proof fn lemma_block_corner(c: int, k: int, w: int)
    requires
        1 <= w,
        0 <= k,
        k * w <= c < k * w + w,
    ensures
        (c / w) * w == k * w,
{
    vstd::arithmetic::div_mod::lemma_fundamental_div_mod(c, w);
    assert(c / w == k) by (nonlinear_arith)
        requires
            1 <= w,
            0 <= k,
            k * w <= c < k * w + w,
            c == w * (c / w) + c % w,
            0 <= c % w < w,
    ;
}

/// A column swept in steps of the block side: the rows from the starting corner up to the
/// last whole block take the value of their block, the others keep theirs.
proof fn lemma_sweep_column_tiles(
    m: Map<(u32, u32), u8>,
    value: spec_fn(int, int) -> u8,
    x: int,
    k: int,
    w: int,
    ylim: int,
)
    requires
        1 <= w,
        0 <= k,
        0 <= ylim,
        k * w <= tiled(ylim, w),
    ensures
        sweep_column(m, value, x, k * w, w, w, ylim).dom() == m.dom(),
        forall|p: (u32, u32)|
            #![trigger sweep_column(m, value, x, k * w, w, w, ylim)[p]]
            m.dom().contains(p) ==> sweep_column(m, value, x, k * w, w, w, ylim)[p] == if x <= p.0
                < x + w && k * w <= p.1 < tiled(ylim, w) {
                value(x, (p.1 as int / w) * w)
            } else {
                m[p]
            },
    decreases tiled(ylim, w) - k * w,
{
    let y = k * w;
    if y + w <= ylim {
        lemma_tile_step(k, w, ylim);
        let m2 = paint_block(m, x, y, w, value(x, y));
        lemma_sweep_column_tiles(m2, value, x, k + 1, w, ylim);
        assert(sweep_column(m, value, x, y, w, w, ylim) == sweep_column(
            m2,
            value,
            x,
            (k + 1) * w,
            w,
            w,
            ylim,
        ));
        assert forall|p: (u32, u32)| m.dom().contains(p) implies #[trigger] sweep_column(
            m,
            value,
            x,
            y,
            w,
            w,
            ylim,
        )[p] == if x <= p.0 < x + w && y <= p.1 < tiled(ylim, w) {
            value(x, (p.1 as int / w) * w)
        } else {
            m[p]
        } by {
            if y <= p.1 < y + w {
                lemma_block_corner(p.1 as int, k, w);
            }
        }
        assert(sweep_column(m, value, x, y, w, w, ylim).dom() =~= m.dom());
    } else {
        lemma_tile_end(k, w, ylim);
    }
}

/// The sweep of `median_filter` and of any filter that steps by its block side: the pixels
/// from the starting column up to the last whole block, and above the last whole block of
/// rows, take the value of the block that holds them; the others keep theirs.
proof fn lemma_sweep_tiles(
    m: Map<(u32, u32), u8>,
    value: spec_fn(int, int) -> u8,
    k: int,
    w: int,
    xlim: int,
    ylim: int,
)
    requires
        1 <= w,
        0 <= k,
        0 <= xlim,
        0 <= ylim,
        k * w <= tiled(xlim, w),
    ensures
        sweep(m, value, k * w, w, w, xlim, w, w, ylim).dom() == m.dom(),
        forall|p: (u32, u32)|
            #![trigger sweep(m, value, k * w, w, w, xlim, w, w, ylim)[p]]
            m.dom().contains(p) ==> sweep(m, value, k * w, w, w, xlim, w, w, ylim)[p] == if k * w
                <= p.0 < tiled(xlim, w) && p.1 < tiled(ylim, w) {
                value((p.0 as int / w) * w, (p.1 as int / w) * w)
            } else {
                m[p]
            },
    decreases tiled(xlim, w) - k * w,
{
    let x = k * w;
    if x + w <= xlim {
        lemma_tile_step(k, w, xlim);
        lemma_sweep_column_tiles(m, value, x, 0, w, ylim);
        let m2 = sweep_column(m, value, x, 0, w, w, ylim);
        lemma_sweep_tiles(m2, value, k + 1, w, xlim, ylim);
        assert forall|p: (u32, u32)| m.dom().contains(p) implies #[trigger] sweep(
            m,
            value,
            x,
            w,
            w,
            xlim,
            w,
            w,
            ylim,
        )[p] == if x <= p.0 < tiled(xlim, w) && p.1 < tiled(ylim, w) {
            value((p.0 as int / w) * w, (p.1 as int / w) * w)
        } else {
            m[p]
        } by {
            assert(0 * w == 0);
            if x <= p.0 < x + w {
                lemma_block_corner(p.0 as int, k, w);
            }
        }
    } else {
        lemma_tile_end(k, w, xlim);
    }
}

/// The median filter, pixel by pixel: a pixel inside the last whole block of columns and
/// rows holds the median of the `w`-by-`w` block that contains it; every other pixel of the
/// image is black.
pub proof fn lemma_median_image_pixel(
    g: Seq<Seq<u8>>,
    w: u32,
    width: u32,
    height: u32,
    px: u32,
    py: u32,
)
    requires
        1 <= w,
        px < width,
        py < height,
    ensures
        median_image(g, w as int, width, height).dom() == blank(width, height).dom(),
        median_image(g, w as int, width, height)[(px, py)] == if px < tiled(width - 1, w as int)
            && py < tiled(height - 1, w as int) {
            median(window(g, (px / w * w) as int, (py / w * w) as int, w as int))
        } else {
            0
        },
{
    let wi = w as int;
    assert(0 * wi == 0);
    assert(0 <= tiled(width - 1, wi)) by (nonlinear_arith)
        requires
            1 <= wi,
            0 <= width - 1,
    ;
    lemma_sweep_tiles(blank(width, height), median_at(g, wi), 0, wi, width - 1, height - 1);
    assert(blank(width, height).dom().contains((px, py)));
    assert(px / w * w == (px as int / wi) * wi);
    assert(py / w * w == (py as int / wi) * wi);
}


/// The block that holds a coordinate below `tiled(n, w)` ends at or before `tiled(n, w)`.
proof fn lemma_block_inside(c: int, w: int, n: int)
    requires
        1 <= w,
        0 <= c < tiled(n, w),
    ensures
        0 <= (c / w) * w,
        (c / w) * w <= c,
        (c / w) * w + w <= tiled(n, w),
{
    vstd::arithmetic::div_mod::lemma_fundamental_div_mod(c, w);
    assert(0 <= c / w) by (nonlinear_arith)
        requires
            1 <= w,
            0 <= c,
            c == w * (c / w) + c % w,
            c % w < w,
    ;
    assert(c / w < n / w) by (nonlinear_arith)
        requires
            1 <= w,
            0 <= c < (n / w) * w,
            c == w * (c / w) + c % w,
            0 <= c % w,
    ;
    assert((c / w) * w + w <= (n / w) * w) by (nonlinear_arith)
        requires
            1 <= w,
            c / w + 1 <= n / w,
    ;
    assert(0 <= (c / w) * w <= c) by (nonlinear_arith)
        requires
            1 <= w,
            0 <= c / w,
            c == w * (c / w) + c % w,
            0 <= c % w,
    ;
}

/// The median filter never invents a grey level: a pixel that a block covers holds one of
/// the grey levels of that block.
pub proof fn lemma_median_image_from_block(
    g: Seq<Seq<u8>>,
    w: u32,
    width: u32,
    height: u32,
    px: u32,
    py: u32,
)
    requires
        1 <= w,
        px < tiled(width - 1, w as int),
        py < tiled(height - 1, w as int),
        covers(g, tiled(width - 1, w as int), tiled(height - 1, w as int)),
    ensures
        window(g, (px / w * w) as int, (py / w * w) as int, w as int).contains(
            median_image(g, w as int, width, height)[(px, py)],
        ),
{
    let wi = w as int;
    if width == 0 {
        assert((-1int) / wi == -1) by (nonlinear_arith)
            requires
                1 <= wi,
        {
            vstd::arithmetic::div_mod::lemma_fundamental_div_mod(-1, wi);
        }
        assert(tiled(width - 1, wi) == (-1int) * wi);
        assert((-1int) * wi == -wi) by (nonlinear_arith);
        assert(false);
    }
    if height == 0 {
        assert((-1int) / wi == -1) by (nonlinear_arith)
            requires
                1 <= wi,
        {
            vstd::arithmetic::div_mod::lemma_fundamental_div_mod(-1, wi);
        }
        assert(tiled(height - 1, wi) == (-1int) * wi);
        assert((-1int) * wi == -wi) by (nonlinear_arith);
        assert(false);
    }
    lemma_block_inside(px as int, wi, width - 1);
    lemma_block_inside(py as int, wi, height - 1);
    assert(px / w * w == (px as int / wi) * wi);
    assert(py / w * w == (py as int / wi) * wi);
    assert(px <= width - 1) by (nonlinear_arith)
        requires
            px < (((width - 1) as int) / wi) * wi,
            1 <= wi,
            0 <= width - 1,
    {
        vstd::arithmetic::div_mod::lemma_fundamental_div_mod((width - 1) as int, wi);
    }
    assert(py <= height - 1) by (nonlinear_arith)
        requires
            py < (((height - 1) as int) / wi) * wi,
            1 <= wi,
            0 <= height - 1,
    {
        vstd::arithmetic::div_mod::lemma_fundamental_div_mod((height - 1) as int, wi);
    }
    lemma_median_image_pixel(g, w, width, height, px, py);
    let cx = (px as int / wi) * wi;
    let cy = (py as int / wi) * wi;
    assert(window_fits(g, cx, cy, wi));
    lemma_window_len(g, cx, cy, wi);
    assert(1 <= wi * wi) by (nonlinear_arith)
        requires
            1 <= wi,
    ;
    lemma_median_is_member(window(g, cx, cy, wi));
}


/// Whether `median_filter` runs to its end on these inputs.
pub fn median_filter_fits(mat_img: &Vec<Vec<u8>>, w: u32, width: u32, height: u32) -> (fits: bool)
    ensures
        fits == median_filter_accepts(grid(*mat_img), w, width, height),
{
    if width < 1 || w < 1 {
        return false;
    }
    assert((width as int) * (height as int) <= u64::MAX) by (nonlinear_arith)
        requires
            width <= u32::MAX,
            height <= u32::MAX,
    ;
    let area = (width as u64) * (height as u64);
    if area > isize::MAX as u64 {
        return false;
    }
    let qw = (width - 1) / w;
    proof {
        vstd::arithmetic::div_mod::lemma_fundamental_div_mod((width - 1) as int, w as int);
        assert((qw as int) * (w as int) <= width - 1) by (nonlinear_arith)
            requires
                qw == (width - 1) as int / (w as int),
                (width - 1) as int == (w as int) * ((width - 1) as int / (w as int)) + (width
                    - 1) as int % (w as int),
                0 <= (width - 1) as int % (w as int),
        ;
    }
    let tw = (qw as u64) * (w as u64);
    proof {
        assert(tw == tiled(width - 1, w as int));
    }
    if tw + w as u64 > 0xffff_ffff {
        return false;
    }
    if w > width - 1 {
        return true;
    }
    if height < 1 {
        return false;
    }
    let qh = (height - 1) / w;
    proof {
        vstd::arithmetic::div_mod::lemma_fundamental_div_mod((height - 1) as int, w as int);
        assert((qh as int) * (w as int) <= height - 1) by (nonlinear_arith)
            requires
                qh == (height - 1) as int / (w as int),
                (height - 1) as int == (w as int) * ((height - 1) as int / (w as int)) + (height
                    - 1) as int % (w as int),
                0 <= (height - 1) as int % (w as int),
        ;
    }
    let th = (qh as u64) * (w as u64);
    proof {
        assert(th == tiled(height - 1, w as int));
    }
    if th + w as u64 > 0xffff_ffff {
        return false;
    }
    if w > height - 1 {
        return true;
    }
    proof {
        assert(1 <= qw) by (nonlinear_arith)
            requires
                qw == (width - 1) as int / (w as int),
                1 <= w <= width - 1,
        {
            vstd::arithmetic::div_mod::lemma_div_is_ordered(w as int, (width - 1) as int, w as int);
            vstd::arithmetic::div_mod::lemma_div_basics(w as int);
        }
        assert(1 <= qh) by (nonlinear_arith)
            requires
                qh == (height - 1) as int / (w as int),
                1 <= w <= height - 1,
        {
            vstd::arithmetic::div_mod::lemma_div_is_ordered(w as int, (height - 1) as int, w as int);
            vstd::arithmetic::div_mod::lemma_div_basics(w as int);
        }
        assert(1 <= th) by (nonlinear_arith)
            requires
                th == (qh as int) * (w as int),
                1 <= qh,
                1 <= w,
        ;
        assert((th - 1) * (width as int) <= 0xffff_ffff * 0xffff_ffff) by (nonlinear_arith)
            requires
                0 <= th - 1 <= 0xffff_ffff,
                width <= 0xffff_ffff,
        ;
        assert(1 <= tw) by (nonlinear_arith)
            requires
                tw == (qw as int) * (w as int),
                1 <= qw,
                1 <= w,
        ;
        assert(tw <= 0xffff_ffff);
        assert((th - 1) * (width as int) + tw - 1 <= u64::MAX);
    }
    if (th - 1) * (width as u64) + tw - 1 > 0xffff_ffff {
        return false;
    }
    covers_exec(mat_img, tw as usize, th as usize)
}


/// The block whose corner is `(a, b)` holds the pixel `p`.
pub open spec fn in_block(p: (u32, u32), a: int, b: int, w: int) -> bool {
    a <= p.0 < a + w && b <= p.1 < b + w
}

/// After a column sweep, a pixel keeps its level or holds the value of a block that covers it.
proof fn lemma_sweep_column_provenance(
    m: Map<(u32, u32), u8>,
    value: spec_fn(int, int) -> u8,
    x: int,
    y: int,
    w: int,
    step: int,
    ylim: int,
    p: (u32, u32),
)
    requires
        0 <= y,
        m.dom().contains(p),
    ensures
        sweep_column(m, value, x, y, w, step, ylim).dom() == m.dom(),
        sweep_column(m, value, x, y, w, step, ylim)[p] == m[p] || exists|b: int|
            0 <= b && #[trigger] in_block(p, x, b, w) && sweep_column(
                m,
                value,
                x,
                y,
                w,
                step,
                ylim,
            )[p] == value(x, b),
    decreases ylim - y + step,
{
    if 0 < step && 0 < w && y + w <= ylim {
        let m2 = paint_block(m, x, y, w, value(x, y));
        assert(m2.dom() =~= m.dom());
        lemma_sweep_column_provenance(m2, value, x, y + step, w, step, ylim, p);
        if !in_block(p, x, y, w) {
            assert(m2[p] == m[p]);
        }
    }
}

/// After a sweep, a pixel keeps its level or holds the value of a block that covers it.
proof fn lemma_sweep_provenance(
    m: Map<(u32, u32), u8>,
    value: spec_fn(int, int) -> u8,
    x: int,
    xspan: int,
    xstep: int,
    xlim: int,
    w: int,
    ystep: int,
    ylim: int,
    p: (u32, u32),
)
    requires
        0 <= x,
        m.dom().contains(p),
    ensures
        sweep(m, value, x, xspan, xstep, xlim, w, ystep, ylim).dom() == m.dom(),
        sweep(m, value, x, xspan, xstep, xlim, w, ystep, ylim)[p] == m[p] || exists|a: int, b: int|
            0 <= a && 0 <= b && #[trigger] in_block(p, a, b, w) && sweep(
                m,
                value,
                x,
                xspan,
                xstep,
                xlim,
                w,
                ystep,
                ylim,
            )[p] == value(a, b),
    decreases xlim - x + xstep,
{
    if 0 < xstep && 0 <= xspan && x + xspan <= xlim {
        let m2 = sweep_column(m, value, x, 0, w, ystep, ylim);
        lemma_sweep_column_provenance(m, value, x, 0, w, ystep, ylim, p);
        lemma_sweep_provenance(m2, value, x + xstep, xspan, xstep, xlim, w, ystep, ylim, p);
        if m2[p] != m[p] {
            let b = choose|b: int| 0 <= b && #[trigger] in_block(p, x, b, w) && m2[p] == value(x, b);
            assert(in_block(p, x, b, w));
        }
    }
}

/// The clustering filter paints only block means: a pixel is black, or it holds the mean of
/// a `w`-by-`w` block that covers it.
pub proof fn lemma_conglo_image_pixel(g: Seq<Seq<u8>>, w: u32, width: u32, height: u32, p: (u32, u32))
    requires
        p.0 < width,
        p.1 < height,
    ensures
        conglo_image(g, w as int, width, height).dom() == blank(width, height).dom(),
        conglo_image(g, w as int, width, height)[p] == 0 || exists|a: int, b: int|
            0 <= a && 0 <= b && #[trigger] in_block(p, a, b, w as int) && conglo_image(
                g,
                w as int,
                width,
                height,
            )[p] == mean(window(g, a, b, w as int)) as u8,
{
    lemma_sweep_provenance(
        blank(width, height),
        mean_at(g, w as int),
        0,
        1,
        3,
        width - 16,
        w as int,
        3,
        height - 3,
        p,
    );
}


/// Whether `conglo_filter` runs to its end, painting inside the image, on these inputs.
pub fn conglo_filter_fits(mat_img: &Vec<Vec<u8>>, w: u32, width: u32, height: u32) -> (fits:
    bool)
    ensures
        fits == conglo_filter_accepts(grid(*mat_img), w, width, height),
{
    let ghost g = grid(*mat_img);
    if width < 16 {
        return false;
    }
    assert((width as int) * (height as int) <= u64::MAX) by (nonlinear_arith)
        requires
            width <= u32::MAX,
            height <= u32::MAX,
    ;
    if (width as u64) * (height as u64) > isize::MAX as u64 {
        return false;
    }
    if width < 17 {
        return true;
    }
    if height < 3 {
        return false;
    }
    if w < 1 {
        return false;
    }
    if w > height - 3 {
        return true;
    }
    let lx = (width - 17) / 3 * 3;
    let ly = (height - 3 - w) / 3 * 3;
    assert(lx == conglo_last_x(width));
    assert(ly == conglo_last_y(height, w));
    if lx as u64 + w as u64 > width as u64 {
        return false;
    }
    assert((w as int) * (w as int) <= u64::MAX) by (nonlinear_arith)
        requires
            w <= u32::MAX,
    ;
    if (w as u64) * (w as u64) > 0xffff_ffff {
        return false;
    }
    assert(((ly + w - 1) as int) * (width as int) <= u64::MAX - u32::MAX) by (nonlinear_arith)
        requires
            ly + w - 1 <= u32::MAX,
            width <= u32::MAX,
    ;
    if ((ly + w - 1) as u64) * (width as u64) + ((lx + w - 1) as u64) > 0xffff_ffff {
        return false;
    }
    let mut c: u32 = 0;
    while c < lx + w
        invariant
            g == grid(*mat_img),
            17 <= width,
            1 <= w <= height - 3,
            lx == conglo_last_x(width),
            ly == conglo_last_y(height, w),
            lx + w <= width,
            ly + w <= height - 3,
            c <= lx + w,
            forall|c1: int|
                0 <= c1 < c && #[trigger] conglo_reads_column(c1, w as int, width) ==> c1 < g.len()
                    && ly + w <= g[c1].len(),
        decreases lx + w - c,
    {
        let a = if c / 3 * 3 <= lx {
            c / 3 * 3
        } else {
            lx
        };
        assert(a == last_corner(c as int, lx as int));
        if c < a + w {
            assert(conglo_reads_column(c as int, w as int, width));
            if c as usize >= mat_img.len() {
                assert(!conglo_read_columns_fit(g, w, width, height));
                return false;
            }
            if mat_img[c as usize].len() < (ly + w) as usize {
                assert(mat_img@[c as int]@ == g[c as int]);
                assert(!conglo_read_columns_fit(g, w, width, height));
                return false;
            }
            assert(mat_img@[c as int]@ == g[c as int]);
            assert(c < g.len());
            assert(ly + w <= g[c as int].len());
        } else {
            assert(!conglo_reads_column(c as int, w as int, width));
        }
        assert forall|c1: int|
            0 <= c1 < c + 1 && #[trigger] conglo_reads_column(c1, w as int, width) implies c1
                < g.len() && ly + w <= g[c1].len() by {
            if c1 == c {
                assert(conglo_reads_column(c as int, w as int, width));
            }
        }
        c = c + 1;
    }
    assert forall|c1: int| 0 <= c1 && #[trigger] conglo_reads_column(c1, w as int, width) implies c1
        < g.len() && conglo_last_y(height, w) + w <= g[c1].len() by {
        if c1 >= lx + w {
            assert(last_corner(c1, lx as int) <= lx);
            assert(!conglo_reads_column(c1, w as int, width));
            assert(false);
        } else {
            assert(c1 < c);
        }
    }
    assert(conglo_read_columns_fit(g, w, width, height));
    let mut a: u32 = 0;
    while a <= lx
        invariant
            g == grid(*mat_img),
            17 <= width,
            1 <= w <= height - 3,
            lx == conglo_last_x(width),
            ly == conglo_last_y(height, w),
            lx <= width - 17,
            lx + w <= width,
            ly + w <= height - 3,
            (w as int) * (w as int) <= u32::MAX,
            conglo_read_columns_fit(g, w, width, height),
            a % 3 == 0,
            a <= lx + 3,
            forall|a1: int, b1: int|
                0 <= a1 < a && a1 % 3 == 0 && 0 <= b1 <= ly && b1 % 3 == 0 ==> #[trigger] total(
                    window(g, a1, b1, w as int),
                ) <= u32::MAX,
        decreases lx + 3 - a,
    {
        let mut b: u32 = 0;
        while b <= ly
            invariant
                g == grid(*mat_img),
                17 <= width,
                1 <= w <= height - 3,
                lx == conglo_last_x(width),
                ly == conglo_last_y(height, w),
                lx <= width - 17,
                lx + w <= width,
                ly + w <= height - 3,
                (w as int) * (w as int) <= u32::MAX,
                conglo_read_columns_fit(g, w, width, height),
                a % 3 == 0,
                a <= lx,
                b % 3 == 0,
                b <= ly + 3,
                forall|a1: int, b1: int|
                    0 <= a1 < a && a1 % 3 == 0 && 0 <= b1 <= ly && b1 % 3 == 0 ==> #[trigger] total(
                        window(g, a1, b1, w as int),
                    ) <= u32::MAX,
                forall|b1: int|
                    0 <= b1 < b && b1 % 3 == 0 ==> #[trigger] total(window(g, a as int, b1, w as int))
                        <= u32::MAX,
            decreases ly + 3 - b,
        {
            proof {
                lemma_corner_window_fits(g, w, width, height, a as int, b as int);
            }
            let t = window_total(a, b, w, mat_img);
            if t > 0xffff_ffff {
                assert(!(total(window(g, a as int, b as int, w as int)) <= u32::MAX));
                return false;
            }
            b = b + 3;
        }
        assert forall|a1: int, b1: int|
            0 <= a1 < a + 3 && a1 % 3 == 0 && 0 <= b1 <= ly && b1 % 3 == 0 implies #[trigger] total(
                window(g, a1, b1, w as int),
            ) <= u32::MAX by {
            if a1 >= a {
                assert(a1 == a);
            }
        }
        a = a + 3;
    }
    true
}


/// The median filter is idempotent: filtering again a matrix that holds the filtered image
/// (at least on the pixels that the blocks cover) gives the same image, since every block of
/// the filtered image is one grey level, which is its own median.
pub proof fn lemma_median_filter_idempotent(
    g: Seq<Seq<u8>>,
    g2: Seq<Seq<u8>>,
    w: u32,
    width: u32,
    height: u32,
)
    requires
        1 <= w,
        covers(g2, tiled(width - 1, w as int), tiled(height - 1, w as int)),
        forall|c: int, r: int|
            0 <= c < tiled(width - 1, w as int) && 0 <= r < tiled(height - 1, w as int)
                ==> #[trigger] g2[c][r] == median_image(g, w as int, width, height)[(
                c as u32,
                r as u32,
            )],
    ensures
        median_image(g2, w as int, width, height) == median_image(g, w as int, width, height),
{
    let wi = w as int;
    let m1 = median_image(g, wi, width, height);
    let m2 = median_image(g2, wi, width, height);
    assert forall|p: (u32, u32)| blank(width, height).dom().contains(p) implies m2[p] == m1[p] by {
        lemma_median_image_pixel(g, w, width, height, p.0, p.1);
        lemma_median_image_pixel(g2, w, width, height, p.0, p.1);
        if p.0 < tiled(width - 1, wi) && p.1 < tiled(height - 1, wi) {
            lemma_block_inside(p.0 as int, wi, width - 1);
            lemma_block_inside(p.1 as int, wi, height - 1);
            let kx = p.0 as int / wi;
            let ky = p.1 as int / wi;
            let cx = kx * wi;
            let cy = ky * wi;
            assert(p.0 / w * w == cx);
            assert(p.1 / w * w == cy);
            let v = median(window(g, cx, cy, wi));
            assert(m1[p] == v);
            lemma_tiled_below(width - 1, wi);
            lemma_tiled_below(height - 1, wi);
            assert forall|c: int, r: int| cx <= c < cx + wi && cy <= r < cy + wi implies #[trigger] g2[c][r]
                == v by {
                assert(c < tiled(width - 1, wi));
                assert(r < tiled(height - 1, wi));
                assert(g2[c][r] == m1[(c as u32, r as u32)]);
                lemma_block_corner(c, kx, wi);
                lemma_block_corner(r, ky, wi);
                assert(c <= width - 1);
                assert(r <= height - 1);
                lemma_median_image_pixel(g, w, width, height, c as u32, r as u32);
                assert((c as u32) / w * w == cx);
                assert((r as u32) / w * w == cy);
            }
            assert(window_fits(g2, cx, cy, wi));
            lemma_window_median_constant(g2, cx, cy, wi, v);
        }
    }
    lemma_sweep_dom(blank(width, height), median_at(g, wi), 0, wi, wi, width - 1, wi, wi, height - 1);
    lemma_sweep_dom(blank(width, height), median_at(g2, wi), 0, wi, wi, width - 1, wi, wi, height - 1);
    assert(m2 =~= m1);
}

/// `tiled(n, w)` lies between 0 and `n`.
proof fn lemma_tiled_below(n: int, w: int)
    requires
        0 <= n,
        1 <= w,
    ensures
        0 <= tiled(n, w) <= n,
{
    vstd::arithmetic::div_mod::lemma_fundamental_div_mod(n, w);
    assert(0 <= (n / w) * w <= n) by (nonlinear_arith)
        requires
            1 <= w,
            0 <= n,
            n == w * (n / w) + n % w,
            0 <= n % w < w,
    ;
}

/// A column sweep keeps the set of pixels.
proof fn lemma_sweep_column_dom(
    m: Map<(u32, u32), u8>,
    value: spec_fn(int, int) -> u8,
    x: int,
    y: int,
    w: int,
    step: int,
    ylim: int,
)
    ensures
        sweep_column(m, value, x, y, w, step, ylim).dom() == m.dom(),
    decreases ylim - y + step,
{
    if 0 < step && 0 < w && y + w <= ylim {
        let m2 = paint_block(m, x, y, w, value(x, y));
        assert(m2.dom() =~= m.dom());
        lemma_sweep_column_dom(m2, value, x, y + step, w, step, ylim);
    }
}

/// A sweep keeps the set of pixels.
proof fn lemma_sweep_dom(
    m: Map<(u32, u32), u8>,
    value: spec_fn(int, int) -> u8,
    x: int,
    xspan: int,
    xstep: int,
    xlim: int,
    w: int,
    ystep: int,
    ylim: int,
)
    ensures
        sweep(m, value, x, xspan, xstep, xlim, w, ystep, ylim).dom() == m.dom(),
    decreases xlim - x + xstep,
{
    if 0 < xstep && 0 <= xspan && x + xspan <= xlim {
        lemma_sweep_column_dom(m, value, x, 0, w, ystep, ylim);
        lemma_sweep_dom(
            sweep_column(m, value, x, 0, w, ystep, ylim),
            value,
            x + xstep,
            xspan,
            xstep,
            xlim,
            w,
            ystep,
            ylim,
        );
    }
}


/// The largest multiple of 3 that is at most `c`.
pub open spec fn floor3(c: int) -> int {
    (c / 3) * 3
}

/// The last corner, stepping by 3 from 0 up to `last`, that is at most `c`.
pub open spec fn last_corner(c: int, last: int) -> int {
    if floor3(c) <= last {
        floor3(c)
    } else {
        last
    }
}

/// The clustering filter, pixel by pixel: the block painted last over a pixel is the one
/// whose corner is the last corner at or before the pixel in each direction; the pixel holds
/// the mean of that block when the block reaches it, and is black otherwise.
pub open spec fn conglo_pixel(g: Seq<Seq<u8>>, w: u32, width: u32, height: u32, p: (u32, u32)) -> u8 {
    let cx = last_corner(p.0 as int, conglo_last_x(width));
    let cy = last_corner(p.1 as int, conglo_last_y(height, w));
    if 0 <= cx && 0 <= cy && p.0 < cx + w && p.1 < cy + w {
        mean(window(g, cx, cy, w as int)) as u8
    } else {
        0
    }
}

/// A column swept in steps of 3 from the corner `3 * k`: a pixel of the column holds the value
/// of the last corner at or before it, when that corner is swept and its block reaches it.
proof fn lemma_sweep_column_last(
    m: Map<(u32, u32), u8>,
    value: spec_fn(int, int) -> u8,
    x: int,
    k: int,
    w: int,
    ylim: int,
    p: (u32, u32),
)
    requires
        1 <= w,
        0 <= k,
        m.dom().contains(p),
    ensures
        sweep_column(m, value, x, 3 * k, w, 3, ylim)[p] == if x <= p.0 < x + w && 3 * k
            <= last_corner(p.1 as int, tiled(ylim - w, 3)) && p.1 < last_corner(
            p.1 as int,
            tiled(ylim - w, 3),
        ) + w {
            value(x, last_corner(p.1 as int, tiled(ylim - w, 3)))
        } else {
            m[p]
        },
    decreases ylim - 3 * k + 3,
{
    let y = 3 * k;
    let ly = tiled(ylim - w, 3);
    let yl = last_corner(p.1 as int, ly);
    if y + w <= ylim {
        let m2 = paint_block(m, x, y, w, value(x, y));
        assert(m2.dom() =~= m.dom());
        lemma_sweep_column_last(m2, value, x, k + 1, w, ylim, p);
        assert(3 * (k + 1) == y + 3);
        assert(y <= ly);
        assert(yl % 3 == 0);
    } else {
        assert(ly < y);
    }
}

/// The sweep of the clustering filter from the column `3 * k`: a pixel holds the value of the
/// last corners at or before it, when they are swept and their block reaches it.
proof fn lemma_sweep_last(
    m: Map<(u32, u32), u8>,
    value: spec_fn(int, int) -> u8,
    k: int,
    xlim: int,
    w: int,
    ylim: int,
    p: (u32, u32),
)
    requires
        1 <= w,
        0 <= k,
        m.dom().contains(p),
    ensures
        sweep(m, value, 3 * k, 1, 3, xlim, w, 3, ylim)[p] == if 3 * k <= last_corner(
            p.0 as int,
            tiled(xlim - 1, 3),
        ) && p.0 < last_corner(p.0 as int, tiled(xlim - 1, 3)) + w && 0 <= last_corner(
            p.1 as int,
            tiled(ylim - w, 3),
        ) && p.1 < last_corner(p.1 as int, tiled(ylim - w, 3)) + w {
            value(
                last_corner(p.0 as int, tiled(xlim - 1, 3)),
                last_corner(p.1 as int, tiled(ylim - w, 3)),
            )
        } else {
            m[p]
        },
    decreases xlim - 3 * k + 3,
{
    let x = 3 * k;
    let lx = tiled(xlim - 1, 3);
    let xl = last_corner(p.0 as int, lx);
    if x + 1 <= xlim {
        lemma_sweep_column_last(m, value, x, 0, w, ylim, p);
        lemma_sweep_column_dom(m, value, x, 0, w, 3, ylim);
        let m2 = sweep_column(m, value, x, 0, w, 3, ylim);
        lemma_sweep_last(m2, value, k + 1, xlim, w, ylim, p);
        assert(3 * (k + 1) == x + 3);
        assert(3 * 0 == 0);
        assert(x <= lx);
        assert(xl % 3 == 0);
    } else {
        assert(lx < x);
    }
}

/// With an empty block side nothing is painted.
proof fn lemma_sweep_empty_side(
    m: Map<(u32, u32), u8>,
    value: spec_fn(int, int) -> u8,
    x: int,
    xspan: int,
    xstep: int,
    xlim: int,
    w: int,
    ystep: int,
    ylim: int,
)
    requires
        w <= 0,
    ensures
        sweep(m, value, x, xspan, xstep, xlim, w, ystep, ylim) == m,
    decreases xlim - x + xstep,
{
    if 0 < xstep && 0 <= xspan && x + xspan <= xlim {
        assert(sweep_column(m, value, x, 0, w, ystep, ylim) == m);
        lemma_sweep_empty_side(m, value, x + xstep, xspan, xstep, xlim, w, ystep, ylim);
    }
}

/// The clustering filter in closed form: each pixel is `conglo_pixel`.
pub proof fn lemma_conglo_image_closed_form(
    g: Seq<Seq<u8>>,
    w: u32,
    width: u32,
    height: u32,
    p: (u32, u32),
)
    requires
        p.0 < width,
        p.1 < height,
    ensures
        conglo_image(g, w as int, width, height)[p] == conglo_pixel(g, w, width, height, p),
{
    let value = mean_at(g, w as int);
    assert(blank(width, height).dom().contains(p));
    if w == 0 {
        lemma_sweep_empty_side(blank(width, height), value, 0, 1, 3, width - 16, 0, 3, height - 3);
        let cx = last_corner(p.0 as int, conglo_last_x(width));
        assert(cx <= floor3(p.0 as int));
        assert(floor3(p.0 as int) <= p.0);
    } else {
        assert(3 * 0 == 0);
        lemma_sweep_last(blank(width, height), value, 0, width - 16, w as int, height - 3, p);
        assert(width - 16 - 1 == width - 17);
        assert(height - 3 - w == (height - 3) - (w as int));
    }
}

} // verus!
