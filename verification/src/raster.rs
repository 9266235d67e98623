use vstd::prelude::*;
use image::GenericImage;
use image::Pixel;

verus! {

/// A grey image of the `image` crate (`ImageBuffer<Luma<u8>, Vec<u8>>`), which the filters
/// paint pixel by pixel. Its contents are known through `gray_pixels` and `gray_dims`.
#[verifier::external_body]
pub struct GrayCanvas {
    img: image::GrayImage,
}

#[verifier::external_type_specification]
#[verifier::external_body]
pub struct ExDynamicImage(image::DynamicImage);

/// The grey level of each pixel of a grey image, keyed by `(x, y)`.
pub uninterp spec fn gray_pixels(img: GrayCanvas) -> Map<(u32, u32), u8>;

/// The width and height that a grey image was made with.
pub uninterp spec fn gray_dims(img: GrayCanvas) -> (u32, u32);

/// The `(red, green, blue, alpha)` value that `GenericImage::get_pixel` reads at `(x, y)`.
pub uninterp spec fn dynamic_pixels(img: image::DynamicImage) -> Map<(u32, u32), (u8, u8, u8, u8)>;

/// The width and height of an image, as `GenericImage::dimensions` reports them.
pub uninterp spec fn dynamic_dims(img: image::DynamicImage) -> (u32, u32);

/// The grey level that `Pixel::to_luma` gives for an opaque or translucent colour with these
/// red, green and blue channels.
pub uninterp spec fn luma_of_rgb(r: u8, g: u8, b: u8) -> u8;

/// Every pixel of a `width` by `height` image, black.
pub open spec fn blank(width: u32, height: u32) -> Map<(u32, u32), u8> {
    Map::new(|p: (u32, u32)| p.0 < width && p.1 < height, |p: (u32, u32)| 0u8)
}

/// `ImageBuffer::new`: allocates `width * height` zeroed grey levels, so every pixel is
/// black. The allocation of more than `isize::MAX` bytes panics, hence the bound.
#[verifier::external_body]
pub(crate) fn new_gray_image(width: u32, height: u32) -> (img: GrayCanvas)
    requires
        (width as int) * (height as int) <= isize::MAX,
    ensures
        gray_dims(img) == (width, height),
        gray_pixels(img) == blank(width, height),
{
    GrayCanvas { img: image::ImageBuffer::new(width, height) }
}

/// `ImageBuffer::put_pixel`: overwrites the pixel at `(x, y)` and nothing else. It computes
/// the index `y * width + x` in `u32`, which must not overflow; coordinates outside the
/// image are left out here.
#[verifier::external_body]
pub(crate) fn put_gray_pixel(img: &mut GrayCanvas, x: u32, y: u32, value: u8)
    requires
        x < gray_dims(*old(img)).0,
        y < gray_dims(*old(img)).1,
        (y as int) * (gray_dims(*old(img)).0 as int) + (x as int) <= u32::MAX,
    ensures
        gray_dims(*final(img)) == gray_dims(*old(img)),
        gray_pixels(*final(img)) == gray_pixels(*old(img)).insert((x, y), value),
{
    img.img.put_pixel(x, y, image::Luma([value]));
}

/// `GenericImage::dimensions` of a `DynamicImage`: its width and height.
#[verifier::external_body]
pub(crate) fn dynamic_dimensions(img: &image::DynamicImage) -> (dims: (u32, u32))
    ensures
        dims == dynamic_dims(*img),
{
    img.dimensions()
}

/// `GenericImage::get_pixel` of a `DynamicImage`: the pixel at `(x, y)` as red, green, blue
/// and alpha. It computes the index `y * width + x` in `u32`, which must not overflow;
/// coordinates outside the image are left out here.
#[verifier::external_body]
pub(crate) fn dynamic_get_pixel(img: &image::DynamicImage, x: u32, y: u32) -> (rgba: (
    u8,
    u8,
    u8,
    u8,
))
    requires
        x < dynamic_dims(*img).0,
        y < dynamic_dims(*img).1,
        (y as int) * (dynamic_dims(*img).0 as int) + (x as int) <= u32::MAX,
    ensures
        rgba == dynamic_pixels(*img)[(x, y)],
{
    let p = img.get_pixel(x, y);
    (p.data[0], p.data[1], p.data[2], p.data[3])
}

/// `Pixel::to_luma` of an `Rgba<u8>`: a grey level computed from the red, green and blue
/// channels only; the alpha channel does not enter it.
#[verifier::external_body]
pub(crate) fn rgba_to_luma(r: u8, g: u8, b: u8, a: u8) -> (l: u8)
    ensures
        l == luma_of_rgb(r, g, b),
{
    image::Rgba([r, g, b, a]).to_luma().data[0]
}


/// `ImageBuffer::dimensions`: the width and height the buffer was made with.
#[verifier::external_body]
fn gray_dimensions(img: &GrayCanvas) -> (dims: (u32, u32))
    ensures
        dims == gray_dims(*img),
{
    img.img.dimensions()
}

/// `ImageBuffer::into_raw`: the buffer's grey levels, row after row, the pixel `(x, y)`
/// standing at index `y * width + x`.
#[verifier::external_body]
fn gray_into_raw(img: GrayCanvas) -> (raw: Vec<u8>)
    ensures
        raw@.len() == (gray_dims(img).0 as int) * (gray_dims(img).1 as int),
        forall|x: u32, y: u32|
            x < gray_dims(img).0 && y < gray_dims(img).1 ==> raw@[(y as int) * (gray_dims(
                img,
            ).0 as int) + (x as int)] == #[trigger] gray_pixels(img)[(x, y)],
{
    img.img.into_raw()
}

impl GrayCanvas {
    /// The width, the height and the grey levels of the image, row after row.
    pub fn into_parts(self) -> (parts: (u32, u32, Vec<u8>))
        ensures
            parts.0 == gray_dims(self).0,
            parts.1 == gray_dims(self).1,
            parts.2@.len() == (parts.0 as int) * (parts.1 as int),
            forall|x: u32, y: u32|
                x < parts.0 && y < parts.1 ==> parts.2@[(y as int) * (parts.0 as int) + (x as int)]
                    == #[trigger] gray_pixels(self)[(x, y)],
    {
        let (width, height) = gray_dimensions(&self);
        let raw = gray_into_raw(self);
        (width, height, raw)
    }
}


/// The grey level that the pixel `(x, y)` of an image gives through `GenericImage::get_pixel`
/// and `Pixel::to_luma`.
pub open spec fn luma_at(img: image::DynamicImage, x: u32, y: u32) -> u8 {
    let p = dynamic_pixels(img)[(x, y)];
    luma_of_rgb(p.0, p.1, p.2)
}

/// The images that `generate_matrice_pix` reads to its end.
pub open spec fn generate_matrice_pix_accepts(img: image::DynamicImage) -> bool {
    let (width, height) = dynamic_dims(img);
    &&& 1 <= width
    &&& 2 <= width ==> 1 <= height
    &&& 2 <= width && 2 <= height ==> (height - 2) * (width as int) + (width - 2) <= u32::MAX
}

/// The grey levels of an image as a matrix `m[x][y]`, for every column but the last and every
/// row but the last.
pub fn generate_matrice_pix(img: image::DynamicImage) -> (mat_img: Vec<Vec<u8>>)
    requires
        generate_matrice_pix_accepts(img),
    ensures
        mat_img@.len() == dynamic_dims(img).0 - 1,
        forall|x: int|
            #![trigger mat_img@[x]]
            0 <= x < mat_img@.len() ==> mat_img@[x]@.len() == dynamic_dims(img).1 - 1,
        forall|x: int, y: int|
            0 <= x < mat_img@.len() && 0 <= y < dynamic_dims(img).1 - 1 ==> #[trigger] mat_img@[x]@[y]
                == luma_at(img, x as u32, y as u32),
{
    let (width, height) = dynamic_dimensions(&img);
    let mut mat_img: Vec<Vec<u8>> = Vec::new();
    for x in 0..(width - 1)
        invariant
            generate_matrice_pix_accepts(img),
            (width, height) == dynamic_dims(img),
            mat_img@.len() == x,
            forall|c: int| #![trigger mat_img@[c]] 0 <= c < x ==> mat_img@[c]@.len() == height - 1,
            forall|c: int, r: int|
                0 <= c < x && 0 <= r < height - 1 ==> #[trigger] mat_img@[c]@[r] == luma_at(
                    img,
                    c as u32,
                    r as u32,
                ),
    {
        let mut vec_tmp: Vec<u8> = Vec::new();
        for y in 0..(height - 1)
            invariant
                generate_matrice_pix_accepts(img),
                (width, height) == dynamic_dims(img),
                x < width - 1,
                vec_tmp@.len() == y,
                forall|r: int| 0 <= r < y ==> #[trigger] vec_tmp@[r] == luma_at(img, x, r as u32),
        {
            proof {
                assert((y as int) * (width as int) <= (height - 2) * (width as int))
                    by (nonlinear_arith)
                    requires
                        y <= height - 2,
                ;
            }
            let (r, g, b, a) = dynamic_get_pixel(&img, x, y);
            vec_tmp.push(rgba_to_luma(r, g, b, a));
        }
        mat_img.push(vec_tmp);
    }
    mat_img
}


/// Whether `generate_matrice_pix` reads the image to its end.
pub fn generate_matrice_pix_fits(img: &image::DynamicImage) -> (fits: bool)
    ensures
        fits == generate_matrice_pix_accepts(*img),
{
    let (width, height) = dynamic_dimensions(img);
    if width < 1 {
        return false;
    }
    if width < 2 {
        return true;
    }
    if height < 1 {
        return false;
    }
    if height < 2 {
        return true;
    }
    assert(((height - 2) as int) * (width as int) <= u64::MAX - u32::MAX) by (nonlinear_arith)
        requires
            width <= u32::MAX,
            height <= u32::MAX,
    ;
    ((height - 2) as u64) * (width as u64) + ((width - 2) as u64) <= 0xffff_ffff
}

} // verus!
