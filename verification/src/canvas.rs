//! The pixels: images as the `image` crate holds them, and the canvas they
//! are drawn onto.
//!
//! This is where the library meets the `image` crate. The functions marked
//! `external_body` are not proved: each makes one call into that crate and
//! states what the call does, over the pixels of an image as a map from
//! column and row to the red, green, blue and alpha of the pixel there.

use vstd::prelude::*;

verus! {

/// An image of any pixel format, as `image::DynamicImage` holds it. Nothing
/// of its inside is known here.
#[verifier::external_type_specification]
#[verifier::external_body]
pub struct ExDynamicImage(image::DynamicImage);

/// An image of four 8-bit channels that other images are drawn onto: an
/// `image::RgbaImage`, of which nothing is known here but what the functions
/// below state.
#[verifier::external_body]
pub struct Canvas {
    pixels: image::RgbaImage,
}

impl Canvas {
    /// The canvas as an image of the `image` crate, with the same size and
    /// the same pixels.
    pub fn into_image(self) -> (img: image::DynamicImage)
        ensures
            image_size(img) == canvas_size(self),
            image_pixels(img) == canvas_pixels(self),
    {
        canvas_into_image(self)
    }
}

/// The pixels of the image: for each column and row within the image's size,
/// what `GenericImageView::get_pixel` reads there.
pub uninterp spec fn image_pixels(img: image::DynamicImage) -> Map<(int, int), (u8, u8, u8, u8)>;

/// The width and the height of the image.
pub uninterp spec fn image_size(img: image::DynamicImage) -> (u32, u32);

/// The image holds integer samples: it is of one of the variants with 8-bit
/// or 16-bit channels. Every pixel of such an image reads as 8-bit RGBA. Of an
/// image with floating-point samples a pixel may not: reading a sample that
/// is not a number panics.
pub uninterp spec fn has_integer_samples(img: image::DynamicImage) -> bool;

/// The pixels of the canvas, for each column and row within its size.
pub uninterp spec fn canvas_pixels(canvas: Canvas) -> Map<(int, int), (u8, u8, u8, u8)>;

/// The width and the height of the canvas.
pub uninterp spec fn canvas_size(canvas: Canvas) -> (u32, u32);

/// The cells of an image of the given size.
pub open spec fn cells(width: int, height: int) -> Set<(int, int)> {
    Set::new(|cell: (int, int)| 0 <= cell.0 < width && 0 <= cell.1 < height)
}

/// A canvas of the given size on which every channel of every pixel is zero.
pub open spec fn blank_pixels(width: int, height: int) -> Map<(int, int), (u8, u8, u8, u8)> {
    Map::new(
        |cell: (int, int)| cells(width, height).contains(cell),
        |cell: (int, int)| (0u8, 0u8, 0u8, 0u8),
    )
}

/// The pixels of a canvas after an image was drawn onto it with its first
/// pixel at column `x` and row `y`: where the image lies, the canvas has the
/// image's pixels; elsewhere it is as before. What of the image would lie
/// beyond the canvas is left out.
pub open spec fn pixels_after_draw(
    bottom: Map<(int, int), (u8, u8, u8, u8)>,
    top: Map<(int, int), (u8, u8, u8, u8)>,
    top_size: (u32, u32),
    x: u32,
    y: u32,
) -> Map<(int, int), (u8, u8, u8, u8)> {
    Map::new(
        |cell: (int, int)| bottom.dom().contains(cell),
        |cell: (int, int)|
            if x <= cell.0 < x + top_size.0 && y <= cell.1 < y + top_size.1 {
                top[(cell.0 - x, cell.1 - y)]
            } else {
                bottom[cell]
            },
    )
}

/// `DynamicImage::width`: the width of the image.
#[verifier::external_body]
pub(crate) fn image_width(img: &image::DynamicImage) -> (width: u32)
    ensures
        width == image_size(*img).0,
{
    img.width()
}

/// `DynamicImage::height`: the height of the image.
#[verifier::external_body]
pub(crate) fn image_height(img: &image::DynamicImage) -> (height: u32)
    ensures
        height == image_size(*img).1,
{
    img.height()
}

/// The four bytes for each pixel of a canvas of this size can be counted and
/// fit a vector: the bytes of one row do not overflow `usize`, and the bytes
/// of all rows are no more than `isize::MAX`, the most a vector holds.
pub open spec fn canvas_is_addressable(width: int, height: int) -> bool {
    4 * width <= usize::MAX && 4 * width * height <= isize::MAX
}

/// `ImageBuffer::new`: a canvas of the given size with every channel of every
/// pixel zero. The call panics when it cannot count the bytes of the canvas or
/// a vector cannot hold them, so the size is required to be addressable.
#[verifier::external_body]
pub(crate) fn blank_canvas(width: u32, height: u32) -> (canvas: Canvas)
    requires
        canvas_is_addressable(width as int, height as int),
    ensures
        canvas_size(canvas) == (width, height),
        canvas_pixels(canvas) == blank_pixels(width as int, height as int),
{
    Canvas { pixels: image::RgbaImage::new(width, height) }
}

/// The variants of `DynamicImage`, told apart: whether the image is of one of
/// the eight variants with integer samples. The two variants with
/// floating-point samples, and any variant that may be added, are not.
#[verifier::external_body]
pub(crate) fn image_has_integer_samples(img: &image::DynamicImage) -> (r: bool)
    ensures
        r == has_integer_samples(*img),
{
    match img {
        image::DynamicImage::ImageLuma8(_) => true,
        image::DynamicImage::ImageLumaA8(_) => true,
        image::DynamicImage::ImageRgb8(_) => true,
        image::DynamicImage::ImageRgba8(_) => true,
        image::DynamicImage::ImageLuma16(_) => true,
        image::DynamicImage::ImageLumaA16(_) => true,
        image::DynamicImage::ImageRgb16(_) => true,
        image::DynamicImage::ImageRgba16(_) => true,
        _ => false,
    }
}

/// `imageops::replace`: copies the image onto the canvas, pixel by pixel,
/// with the image's first pixel at column `x` and row `y`, and leaves out
/// what would lie beyond the canvas. The canvas keeps its size.
///
/// The call reads each pixel it copies as 8-bit RGBA, which panics on a
/// floating-point sample that is not a number, so the image is required to
/// hold integer samples.
#[verifier::external_body]
pub(crate) fn draw_image(canvas: &mut Canvas, top: &image::DynamicImage, x: u32, y: u32)
    requires
        has_integer_samples(*top),
    ensures
        canvas_size(*final(canvas)) == canvas_size(*old(canvas)),
        canvas_pixels(*final(canvas)) == pixels_after_draw(
            canvas_pixels(*old(canvas)),
            image_pixels(*top),
            image_size(*top),
            x,
            y,
        ),
{
    image::imageops::replace(&mut canvas.pixels, top, i64::from(x), i64::from(y));
}

/// `DynamicImage::ImageRgba8`: the canvas as an image, with the same size and
/// the same pixels.
#[verifier::external_body]
pub(crate) fn canvas_into_image(canvas: Canvas) -> (img: image::DynamicImage)
    ensures
        image_size(img) == canvas_size(canvas),
        image_pixels(img) == canvas_pixels(canvas),
{
    image::DynamicImage::ImageRgba8(canvas.pixels)
}

} // verus!
