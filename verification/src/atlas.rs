//! The finished atlas: the images of a collection drawn onto one canvas at
//! the places the layout gives them.

use crate::bounding_box::BoundingBox;
use crate::canvas::{
    blank_canvas, blank_pixels, canvas_into_image, canvas_is_addressable, canvas_pixels,
    canvas_size, cells, draw_image, has_integer_samples, image_has_integer_samples,
    image_height, image_pixels, image_size, image_width, pixels_after_draw, Canvas,
};
use crate::packer::{
    canvas_height, canvas_width, draws_of, lemma_layout_keeps_images_apart,
    lemma_layout_keeps_margins, pack, pack_succeeds, reservable, reserved_by, sprites_of,
    DrawInstruction, ImageCollection, NamedImage, PackedLayout, SpriteData,
};
use crate::stable_sort::{is_sorted, is_stable_sort_of};
use crate::tree2d::InsertionError;
use vstd::prelude::*;

verus! {

/// An atlas: the canvas with every image drawn onto it, and where each image
/// went, by name and sorted by name.
pub struct PackedImage {
    pub img: image::DynamicImage,
    pub sprite_data: Vec<SpriteData>,
}

/// Why no atlas was made.
#[derive(Debug)]
pub enum AtlasError {
    /// The size noted with some image is not the size of its pixels.
    WrongSize,
    /// Some image holds floating-point samples, which may not read as 8-bit
    /// RGBA.
    FloatSamples,
    /// Some image found no room, or the canvas would not be representable.
    NoSpace(InsertionError),
    /// The canvas would hold more bytes than can be addressed.
    CanvasTooLarge,
}

impl AtlasError {
    /// The message of the error.
    pub open spec fn message(self) -> Seq<char> {
        match self {
            AtlasError::WrongSize => "Error packing images, an image is not of the size noted"@,
            AtlasError::FloatSamples => "Error packing images, an image holds float samples"@,
            AtlasError::NoSpace(error) => error@,
            AtlasError::CanvasTooLarge => "Error packing images, the sheet is too large"@,
        }
    }

    /// The message, as it is shown to a user.
    pub fn to_string(&self) -> (text: String)
        ensures
            text@ == self.message(),
    {
        match self {
            AtlasError::WrongSize => {
                "Error packing images, an image is not of the size noted".to_owned()
            },
            AtlasError::FloatSamples => {
                "Error packing images, an image holds float samples".to_owned()
            },
            AtlasError::NoSpace(error) => error.to_string(),
            AtlasError::CanvasTooLarge => "Error packing images, the sheet is too large".to_owned(),
        }
    }
}

/// Names an image and notes its size.
pub fn named_image(name: String, img: image::DynamicImage) -> (named: NamedImage<
    image::DynamicImage,
>)
    ensures
        named.name == name,
        named.img == img,
        (named.width, named.height) == image_size(img),
{
    let width = image_width(&img);
    let height = image_height(&img);
    NamedImage { name, width, height, img }
}

/// The pixels of a blank canvas of the given size after the instructions were
/// carried out in order, each drawing the image it names.
pub open spec fn composed(
    images: Seq<NamedImage<image::DynamicImage>>,
    width: int,
    height: int,
    draws: Seq<DrawInstruction>,
) -> Map<(int, int), (u8, u8, u8, u8)>
    decreases draws.len(),
{
    if draws.len() == 0 {
        blank_pixels(width, height)
    } else {
        let top = images[draws.last().source as int].img;
        pixels_after_draw(
            composed(images, width, height, draws.drop_last()),
            image_pixels(top),
            image_size(top),
            draws.last().x,
            draws.last().y,
        )
    }
}

/// The rectangle of the canvas that the instruction's image is drawn at.
pub open spec fn drawn_at(draw: DrawInstruction) -> BoundingBox {
    BoundingBox { x: draw.x, y: draw.y, width: draw.width, height: draw.height }
}

/// Each image has the size that is noted with it.
pub open spec fn sizes_are_true(images: Seq<NamedImage<image::DynamicImage>>) -> bool {
    forall|i: int|
        0 <= i < images.len() ==> image_size((#[trigger] images[i]).img) == (
            images[i].width,
            images[i].height,
        )
}

/// Each image holds integer samples.
pub open spec fn all_hold_integer_samples(images: Seq<NamedImage<image::DynamicImage>>) -> bool {
    forall|i: int| 0 <= i < images.len() ==> has_integer_samples((#[trigger] images[i]).img)
}

/// After the first `n` of a list of instructions that draw at rectangles
/// without a common cell, a cell of the canvas shows the pixel of the image
/// that was drawn over it, and is blank if none was.
proof fn lemma_composed_cell(
    images: Seq<NamedImage<image::DynamicImage>>,
    width: int,
    height: int,
    draws: Seq<DrawInstruction>,
    n: int,
    px: int,
    py: int,
)
    requires
        0 <= n <= draws.len(),
        0 <= px < width,
        0 <= py < height,
        forall|k: int|
            0 <= k < draws.len() ==> image_size(
                images[(#[trigger] draws[k]).source as int].img,
            ) == (draws[k].width, draws[k].height),
        forall|k: int, l: int|
            0 <= k < draws.len() && 0 <= l < draws.len() && k != l ==> !(drawn_at(
                #[trigger] draws[k],
            ).covers_cell(px, py) && drawn_at(#[trigger] draws[l]).covers_cell(px, py)),
    ensures
        composed(images, width, height, draws.take(n)).dom().contains((px, py)),
        forall|k: int|
            0 <= k < n && drawn_at(#[trigger] draws[k]).covers_cell(px, py) ==> composed(
                images,
                width,
                height,
                draws.take(n),
            )[(px, py)] == image_pixels(images[draws[k].source as int].img)[(
                px - draws[k].x,
                py - draws[k].y,
            )],
        (forall|k: int| 0 <= k < n ==> !drawn_at(#[trigger] draws[k]).covers_cell(px, py))
            ==> composed(images, width, height, draws.take(n))[(px, py)] == (0u8, 0u8, 0u8, 0u8),
    decreases n,
{
    if n == 0 {
        assert(cells(width, height).contains((px, py)));
    } else {
        let done = draws.take(n - 1);
        let last = draws[n - 1];
        assert(draws.take(n).drop_last() =~= done);
        assert(draws.take(n).last() == last);
        lemma_composed_cell(images, width, height, draws, n - 1, px, py);
        if drawn_at(last).covers_cell(px, py) {
            assert forall|k: int| 0 <= k < n - 1 implies !drawn_at(#[trigger] draws[k]).covers_cell(
                px,
                py,
            ) by {
                assert(draws[n - 1] == last);
            }
        }
    }
}

/// What an atlas shows: at every cell of an image's rectangle the pixel of
/// that image, and at every cell that lies in no image's rectangle a blank
/// pixel. No image is drawn over another.
pub proof fn lemma_atlas_shows_every_image(
    images: Seq<NamedImage<image::DynamicImage>>,
    padding: u8,
    px: int,
    py: int,
)
    requires
        1 + 2 * images.len() <= usize::MAX,
        reservable(images, padding),
        sizes_are_true(images),
        0 <= px < canvas_width(images, padding),
        0 <= py < canvas_height(images, padding),
    ensures
        ({
            let draws = draws_of(images, padding);
            let pixels = composed(
                images,
                canvas_width(images, padding),
                canvas_height(images, padding),
                draws,
            );
            &&& pixels.dom().contains((px, py))
            &&& forall|k: int|
                0 <= k < draws.len() && drawn_at(#[trigger] draws[k]).covers_cell(px, py)
                    ==> pixels[(px, py)] == image_pixels(images[draws[k].source as int].img)[(
                    px - draws[k].x,
                    py - draws[k].y,
                )]
            &&& (forall|k: int|
                0 <= k < draws.len() ==> !drawn_at(#[trigger] draws[k]).covers_cell(px, py))
                ==> pixels[(px, py)] == (0u8, 0u8, 0u8, 0u8)
        }),
{
    let draws = draws_of(images, padding);
    assert forall|k: int| 0 <= k < draws.len() implies image_size(
        images[(#[trigger] draws[k]).source as int].img,
    ) == (draws[k].width, draws[k].height) by {
        lemma_layout_keeps_margins(images, padding, k);
    }
    assert forall|k: int, l: int| 0 <= k < draws.len() && 0 <= l < draws.len() && k != l implies !(
    drawn_at(#[trigger] draws[k]).covers_cell(px, py) && drawn_at(#[trigger] draws[l]).covers_cell(
        px,
        py,
    )) by {
        lemma_layout_keeps_margins(images, padding, k);
        lemma_layout_keeps_margins(images, padding, l);
        lemma_layout_keeps_images_apart(images, padding, k, l);
        if drawn_at(draws[k]).covers_cell(px, py) {
            assert(reserved_by(draws[k], padding).covers_cell(px, py));
        }
        if drawn_at(draws[l]).covers_cell(px, py) {
            assert(reserved_by(draws[l], padding).covers_cell(px, py));
        }
    }
    lemma_composed_cell(
        images,
        canvas_width(images, padding),
        canvas_height(images, padding),
        draws,
        draws.len() as int,
        px,
        py,
    );
    assert(draws.take(draws.len() as int) =~= draws);
}

/// Decides whether a canvas of this size can be had.
pub fn is_canvas_addressable(width: u32, height: u32) -> (r: bool)
    ensures
        r == canvas_is_addressable(width as int, height as int),
{
    let w: u64 = width as u64;
    let h: u64 = height as u64;
    assert(w * h <= 0xFFFF_FFFF * 0xFFFF_FFFF) by (nonlinear_arith)
        requires
            w <= 0xFFFF_FFFF,
            h <= 0xFFFF_FFFF,
    ;
    let area: u64 = w * h;
    assert(4 * width * height == 4 * area) by (nonlinear_arith)
        requires
            area == width * height,
    ;
    w <= (usize::MAX as u64) / 4 && area <= (isize::MAX as u64) / 4
}

/// Decides whether each image has the size that is noted with it.
pub fn are_sizes_true(images: &Vec<NamedImage<image::DynamicImage>>) -> (r: bool)
    ensures
        r == sizes_are_true(images@),
{
    let n: usize = images.len();
    let mut all: bool = true;
    let mut i: usize = 0;
    while i < n
        invariant
            i <= n,
            n == images@.len(),
            all == (forall|j: int|
                0 <= j < i ==> image_size((#[trigger] images@[j]).img) == (
                    images@[j].width,
                    images@[j].height,
                )),
        decreases n - i,
    {
        let image = &images[i];
        if image_width(&image.img) != image.width || image_height(&image.img) != image.height {
            all = false;
        }
        i += 1;
    }
    all
}

/// Decides whether each image holds integer samples.
pub fn do_all_hold_integer_samples(images: &Vec<NamedImage<image::DynamicImage>>) -> (r: bool)
    ensures
        r == all_hold_integer_samples(images@),
{
    let n: usize = images.len();
    let mut all: bool = true;
    let mut i: usize = 0;
    while i < n
        invariant
            i <= n,
            n == images@.len(),
            all == (forall|j: int|
                0 <= j < i ==> has_integer_samples((#[trigger] images@[j]).img)),
        decreases n - i,
    {
        if !image_has_integer_samples(&images[i].img) {
            all = false;
        }
        i += 1;
    }
    all
}

/// Draws the images onto a blank canvas of the layout's size, one for each
/// instruction of the layout and in their order.
pub fn compose(layout: &PackedLayout, images: &Vec<NamedImage<image::DynamicImage>>) -> (canvas:
    Canvas)
    requires
        canvas_is_addressable(layout.width as int, layout.height as int),
        forall|k: int|
            0 <= k < layout.draws@.len() ==> (#[trigger] layout.draws@[k]).source < images@.len()
                && has_integer_samples(images@[layout.draws@[k].source as int].img),
    ensures
        canvas_size(canvas) == (layout.width, layout.height),
        canvas_pixels(canvas) == composed(
            images@,
            layout.width as int,
            layout.height as int,
            layout.draws@,
        ),
{
    let ghost width = layout.width as int;
    let ghost height = layout.height as int;
    let mut canvas = blank_canvas(layout.width, layout.height);
    let count: usize = layout.draws.len();
    let mut k: usize = 0;
    while k < count
        invariant
            k <= count,
            count == layout.draws@.len(),
            width == layout.width,
            height == layout.height,
            forall|k: int|
                0 <= k < layout.draws@.len() ==> (#[trigger] layout.draws@[k]).source
                    < images@.len() && has_integer_samples(
                    images@[layout.draws@[k].source as int].img,
                ),
            canvas_size(canvas) == (layout.width, layout.height),
            canvas_pixels(canvas) == composed(images@, width, height, layout.draws@.take(k as int)),
        decreases count - k,
    {
        let draw = &layout.draws[k];
        proof {
            assert(layout.draws@.take(k + 1).drop_last() =~= layout.draws@.take(k as int));
            assert(layout.draws@.take(k + 1).last() == layout.draws@[k as int]);
        }
        draw_image(&mut canvas, &images[draw.source].img, draw.x, draw.y);
        k += 1;
    }
    proof {
        assert(layout.draws@.take(count as int) =~= layout.draws@);
    }
    canvas
}

/// Lays the images of the collection out and draws them onto one canvas.
///
/// Fails, and draws nothing, when an image is not of the size that is noted
/// with it; else when an image holds floating-point samples; else when the
/// layout cannot be had; else when the canvas would be too large to address.
pub fn pack_images(padding: u8, img_collection: &ImageCollection<image::DynamicImage>) -> (r:
    Result<PackedImage, AtlasError>)
    ensures
        is_sorted(img_collection@),
        match r {
            Ok(packed) => {
                &&& sizes_are_true(img_collection@)
                &&& all_hold_integer_samples(img_collection@)
                &&& pack_succeeds(img_collection@, padding)
                &&& canvas_is_addressable(
                    canvas_width(img_collection@, padding),
                    canvas_height(img_collection@, padding),
                )
                &&& 1 + 2 * img_collection@.len() <= usize::MAX
                &&& image_size(packed.img).0 == canvas_width(img_collection@, padding)
                &&& image_size(packed.img).1 == canvas_height(img_collection@, padding)
                &&& image_pixels(packed.img) == composed(
                    img_collection@,
                    canvas_width(img_collection@, padding),
                    canvas_height(img_collection@, padding),
                    draws_of(img_collection@, padding),
                )
                &&& is_stable_sort_of(packed.sprite_data@, sprites_of(img_collection@, padding))
            },
            Err(AtlasError::WrongSize) => !sizes_are_true(img_collection@),
            Err(AtlasError::FloatSamples) => {
                &&& sizes_are_true(img_collection@)
                &&& !all_hold_integer_samples(img_collection@)
            },
            Err(AtlasError::NoSpace(error)) => {
                &&& sizes_are_true(img_collection@)
                &&& all_hold_integer_samples(img_collection@)
                &&& !pack_succeeds(img_collection@, padding)
                &&& error@ == InsertionError::no_space_message()
            },
            Err(AtlasError::CanvasTooLarge) => {
                &&& sizes_are_true(img_collection@)
                &&& all_hold_integer_samples(img_collection@)
                &&& pack_succeeds(img_collection@, padding)
                &&& !canvas_is_addressable(
                    canvas_width(img_collection@, padding),
                    canvas_height(img_collection@, padding),
                )
            },
        },
{
    let images = img_collection.named_images();
    if !are_sizes_true(images) {
        return Err(AtlasError::WrongSize);
    }
    if !do_all_hold_integer_samples(images) {
        return Err(AtlasError::FloatSamples);
    }
    let layout = match pack(padding, img_collection) {
        Ok(layout) => layout,
        Err(error) => {
            return Err(AtlasError::NoSpace(error));
        },
    };
    if !is_canvas_addressable(layout.width, layout.height) {
        return Err(AtlasError::CanvasTooLarge);
    }
    let canvas = compose(&layout, images);
    Ok(PackedImage { img: canvas_into_image(canvas), sprite_data: layout.sprite_data })
}

} // verus!
