//! The single-channel 8-bit images of the `image` crate (`GrayImage`), which
//! hold the palette indices of rendered maps, and the `imageproc` operations on
//! them. Everything here is trusted: Verus believes the contracts without proof.
//! An image is seen through two names: its samples, row by row, and its width
//! and height.

use vstd::prelude::*;
use image::GrayImage;

verus! {

/// A gray image of the `image` crate (`GrayImage`: one `u8` sample per
/// pixel). Verus refuses a declaration of `image::ImageBuffer` (its parameter
/// is bounded by the outside trait `image::Pixel`), so the image is held here,
/// opaque, and seen through the two names below.
#[verifier::external_body]
pub struct GrayRaster {
    img: GrayImage,
}

/// The samples of a gray image, row by row (its raw buffer).
pub uninterp spec fn gray_pixels(img: GrayRaster) -> Seq<u8>;

/// The width and height of a gray image.
pub uninterp spec fn gray_dims(img: GrayRaster) -> (u32, u32);

/// Index of the sample of pixel `(x, y)` in an image of the given width.
pub open spec fn cell(x: int, y: int, width: int) -> int {
    y * width + x
}

/// `ImageBuffer::from_pixel` with `Luma([value])`: an image of the given size
/// whose every sample is `value`. It panics when `width * height` overflows
/// `usize` or exceeds the largest possible vector of bytes (`isize::MAX`),
/// which `requires` excludes.
#[verifier::external_body]
pub(crate) fn gray_from_pixel(width: u32, height: u32, value: u8) -> (r: GrayRaster)
    requires
        width * height <= usize::MAX,
        width * height <= isize::MAX,
    ensures
        gray_dims(r) == (width, height),
        gray_pixels(r) == Seq::new((width * height) as nat, |i: int| value),
{
    GrayRaster { img: GrayImage::from_pixel(width, height, image::Luma([value])) }
}

/// `ImageBuffer::dimensions`. The buffer of an `ImageBuffer` is never shorter
/// than `width * height` samples: its constructors check it and the field is
/// private.
#[verifier::external_body]
pub(crate) fn gray_dimensions(img: &GrayRaster) -> (r: (u32, u32))
    ensures
        r == gray_dims(*img),
        gray_pixels(*img).len() >= r.0 * r.1,
{
    img.img.dimensions()
}

/// `ImageBuffer::get_pixel`, which panics outside the image.
#[verifier::external_body]
pub(crate) fn gray_get(img: &GrayRaster, x: u32, y: u32) -> (r: u8)
    requires
        x < gray_dims(*img).0,
        y < gray_dims(*img).1,
    ensures
        r == gray_pixels(*img)[cell(x as int, y as int, gray_dims(*img).0 as int)],
{
    img.img.get_pixel(x, y).0[0]
}

/// `ImageBuffer::put_pixel`, which panics outside the image.
#[verifier::external_body]
pub(crate) fn gray_put(img: &mut GrayRaster, x: u32, y: u32, value: u8)
    requires
        x < gray_dims(*old(img)).0,
        y < gray_dims(*old(img)).1,
    ensures
        gray_dims(*final(img)) == gray_dims(*old(img)),
        gray_pixels(*final(img)) == gray_pixels(*old(img)).update(
            cell(x as int, y as int, gray_dims(*old(img)).0 as int),
            value,
        ),
{
    img.img.put_pixel(x, y, image::Luma([value]));
}

/// `ImageBuffer::as_raw`, copied: the samples.
#[verifier::external_body]
pub(crate) fn gray_raw(img: &GrayRaster) -> (r: Vec<u8>)
    ensures
        r@ == gray_pixels(*img),
{
    img.img.as_raw().clone()
}

/// What `imageproc::filter::median_filter` computes from the samples of an image
/// of the given size with the given radii.
pub uninterp spec fn median_filtered(pixels: Seq<u8>, width: u32, height: u32, x_radius: u32, y_radius: u32) -> Seq<u8>;

/// `imageproc::filter::median_filter`. An empty image is returned as it is;
/// otherwise the result is a new image of the same size. It panics when
/// `width + x_radius` or `height + y_radius` exceeds `i32::MAX`, and the kernel
/// size `(2 * x_radius + 1) * (2 * y_radius + 1)` is a `u32`; `requires`
/// excludes both.
#[verifier::external_body]
pub(crate) fn gray_median_filter(img: &GrayRaster, x_radius: u32, y_radius: u32) -> (r: GrayRaster)
    requires
        gray_dims(*img).0 == 0 || gray_dims(*img).1 == 0 || (gray_dims(*img).0 + x_radius <= i32::MAX
            && gray_dims(*img).1 + y_radius <= i32::MAX && (2 * x_radius + 1) * (2 * y_radius + 1)
            <= u32::MAX),
    ensures
        gray_dims(r) == gray_dims(*img),
        gray_dims(*img).0 == 0 || gray_dims(*img).1 == 0 ==> gray_pixels(r) == gray_pixels(*img),
        gray_dims(*img).0 != 0 && gray_dims(*img).1 != 0 ==> gray_pixels(r) == median_filtered(
            gray_pixels(*img),
            gray_dims(*img).0,
            gray_dims(*img).1,
            x_radius,
            y_radius,
        ) && gray_pixels(r).len() == gray_dims(*img).0 * gray_dims(*img).1,
{
    GrayRaster { img: imageproc::filter::median_filter(&img.img, x_radius, y_radius) }
}

/// `imageproc::drawing::draw_filled_rect_mut` with `Rect::at(left, top).of_size(width, height)`:
/// every pixel of the image inside the rectangle (clipped to the image) gets
/// `value`, the others are kept. `of_size` panics on a zero size, the image's
/// own bounds rectangle panics on an empty image, and the rectangles' right and
/// bottom edges are computed in `i32` (`left + width as i32 - 1`); `requires`
/// excludes all three.
#[verifier::external_body]
pub(crate) fn gray_fill_rect(img: &mut GrayRaster, left: i32, top: i32, width: u32, height: u32, value: u8)
    requires
        width > 0,
        height > 0,
        gray_dims(*old(img)).0 > 0,
        gray_dims(*old(img)).1 > 0,
        gray_dims(*old(img)).0 <= i32::MAX,
        gray_dims(*old(img)).1 <= i32::MAX,
        width <= i32::MAX,
        height <= i32::MAX,
        left + width <= i32::MAX,
        top + height <= i32::MAX,
    ensures
        gray_dims(*final(img)) == gray_dims(*old(img)),
        gray_pixels(*final(img)).len() == gray_pixels(*old(img)).len(),
        forall|x: int, y: int|
            0 <= x < gray_dims(*old(img)).0 && 0 <= y < gray_dims(*old(img)).1 ==> #[trigger] gray_pixels(
                *final(img),
            )[cell(x, y, gray_dims(*old(img)).0 as int)] == if left <= x < left + width && top <= y
                < top + height {
                value
            } else {
                gray_pixels(*old(img))[cell(x, y, gray_dims(*old(img)).0 as int)]
            },
{
    imageproc::drawing::draw_filled_rect_mut(
        &mut img.img,
        imageproc::rect::Rect::at(left, top).of_size(width, height),
        image::Luma([value]),
    );
}

/// `ImageBuffer::from_raw`: an image of the given size over the given samples,
/// or `None` when there are fewer than `width * height` of them.
#[verifier::external_body]
pub(crate) fn gray_from_raw(width: u32, height: u32, samples: Vec<u8>) -> (r: Option<GrayRaster>)
    ensures
        r is Some <==> samples@.len() >= width * height,
        r matches Some(img) ==> gray_dims(img) == (width, height) && gray_pixels(img) == samples@,
{
    GrayImage::from_raw(width, height, samples).map(|img| GrayRaster { img })
}

impl GrayRaster {
    /// A gray image of the given size over the given samples (row by row), or
    /// `None` when there are fewer than `width * height` samples.
    pub fn from_raw(width: u32, height: u32, samples: Vec<u8>) -> (r: Option<GrayRaster>)
        ensures
            r is Some <==> samples@.len() >= width * height,
            r matches Some(img) ==> gray_dims(img) == (width, height) && gray_pixels(img) == samples@,
    {
        gray_from_raw(width, height, samples)
    }

    /// The width and height.
    pub fn dimensions(&self) -> (r: (u32, u32))
        ensures
            r == gray_dims(*self),
    {
        gray_dimensions(self)
    }

    /// The samples, row by row.
    pub fn samples(&self) -> (r: Vec<u8>)
        ensures
            r@ == gray_pixels(*self),
    {
        gray_raw(self)
    }
}

} // verus!
