//! The atlas assembler: lays named images out on one canvas, the largest
//! first, each with a margin of `padding` around it.

use crate::bounding_box::BoundingBox;
use crate::laws::{
    holds_item, lemma_fresh_nodes_inv, lemma_fresh_nodes_tile_plane,
    lemma_inserted_items_are_placed, lemma_insertions_keep_inv,
    lemma_insertions_place_each_payload_once, lemma_inv_placed_in_bounds, lemma_node_count,
    lemma_node_of_placement, lemma_payloads_of_placements, lemma_placements_do_not_overlap,
    lemma_total_bounding_box_encloses, lemma_total_bounding_box_in_bounds, node_of_placement,
};
use crate::name_order::{lemma_bytes_precede_is_strict_weak_order, name_comes_before, text_precedes};
use crate::partition::{
    by_value, fresh_nodes, insert_all_nodes, insert_all_succeeds, item_payloads, payloads,
    placements, tiles_plane, total_bounding_box, tree_inv, DataSize, Node,
};
use crate::stable_sort::{is_sorted, is_stable_sort_of, stable_sort, Ranked};
use crate::tree2d::{InsertionError, Tree2d};
use vstd::multiset::Multiset;
use vstd::prelude::*;
use vstd::seq_lib::{to_multiset_contains, to_multiset_len};

verus! {

/// An image as the assembler sees it: its name, its size in pixels, and the
/// pixels themselves, which the assembler carries along and never reads.
pub struct NamedImage<P> {
    pub name: String,
    pub width: u32,
    pub height: u32,
    pub img: P,
}

impl<P> NamedImage<P> {
    /// The number of pixels.
    pub open spec fn spec_area(self) -> int {
        self.width * self.height
    }

    /// The number of pixels, in 64 bits, where it always fits.
    pub fn area(&self) -> (r: u64)
        ensures
            r == self.spec_area(),
    {
        let w: u64 = self.width as u64;
        let h: u64 = self.height as u64;
        assert(w * h <= 0xFFFF_FFFF * 0xFFFF_FFFF) by (nonlinear_arith)
            requires
                w <= 0xFFFF_FFFF,
                h <= 0xFFFF_FFFF,
        ;
        w * h
    }
}

/// Larger images come first.
impl<P> Ranked for NamedImage<P> {
    open spec fn precedes(self, other: Self) -> bool {
        self.spec_area() > other.spec_area()
    }

    proof fn lemma_strict_weak_order(x: Self, y: Self, z: Self) {
    }

    fn comes_before(&self, other: &Self) -> (r: bool) {
        self.area() > other.area()
    }
}

/// Where an image ended up on the canvas, under the image's name.
pub struct SpriteData {
    pub name: String,
    pub x: u32,
    pub y: u32,
    pub width: u32,
    pub height: u32,
}

/// Sprites are listed by name.
impl Ranked for SpriteData {
    open spec fn precedes(self, other: Self) -> bool {
        text_precedes(self.name@, other.name@)
    }

    proof fn lemma_strict_weak_order(x: Self, y: Self, z: Self) {
        lemma_bytes_precede_is_strict_weak_order(
            vstd::utf8::encode_utf8(x.name@),
            vstd::utf8::encode_utf8(y.name@),
            vstd::utf8::encode_utf8(z.name@),
        );
    }

    fn comes_before(&self, other: &Self) -> (r: bool) {
        name_comes_before(self.name.as_str(), other.name.as_str())
    }
}

/// `greatest` is the largest width among the items, and zero when there are
/// none.
pub open spec fn is_greatest_width<P>(items: Seq<NamedImage<P>>, greatest: u32) -> bool {
    &&& forall|i: int| 0 <= i < items.len() ==> (#[trigger] items[i]).width <= greatest
    &&& items.len() == 0 ==> greatest == 0
    &&& items.len() > 0 ==> exists|i: int|
        0 <= i < items.len() && (#[trigger] items[i]).width == greatest
}

/// `greatest` is the largest height among the items, and zero when there are
/// none.
pub open spec fn is_greatest_height<P>(items: Seq<NamedImage<P>>, greatest: u32) -> bool {
    &&& forall|i: int| 0 <= i < items.len() ==> (#[trigger] items[i]).height <= greatest
    &&& items.len() == 0 ==> greatest == 0
    &&& items.len() > 0 ==> exists|i: int|
        0 <= i < items.len() && (#[trigger] items[i]).height == greatest
}

/// Sequences that hold the same items equally often have the same greatest
/// width and the same greatest height.
proof fn lemma_greatest_of_same_items<P>(
    a: Seq<NamedImage<P>>,
    b: Seq<NamedImage<P>>,
    width: u32,
    height: u32,
)
    requires
        a.to_multiset() == b.to_multiset(),
        is_greatest_width(a, width),
        is_greatest_height(a, height),
    ensures
        a.len() == b.len(),
        is_greatest_width(b, width),
        is_greatest_height(b, height),
{
    to_multiset_len(a);
    to_multiset_len(b);
    assert forall|i: int| 0 <= i < b.len() implies (#[trigger] b[i]).width <= width
        && b[i].height <= height by {
        to_multiset_contains(a, b[i]);
        to_multiset_contains(b, b[i]);
        assert(b.contains(b[i]));
        let j = choose|j: int| 0 <= j < a.len() && a[j] == b[i];
        assert(a[j].width <= width && a[j].height <= height);
    }
    if a.len() > 0 {
        let widest = choose|i: int| 0 <= i < a.len() && (#[trigger] a[i]).width == width;
        to_multiset_contains(a, a[widest]);
        to_multiset_contains(b, a[widest]);
        assert(a.contains(a[widest]));
        let k = choose|k: int| 0 <= k < b.len() && b[k] == a[widest];
        assert(b[k].width == width);
        let highest = choose|i: int| 0 <= i < a.len() && (#[trigger] a[i]).height == height;
        to_multiset_contains(a, a[highest]);
        to_multiset_contains(b, a[highest]);
        assert(a.contains(a[highest]));
        let l = choose|l: int| 0 <= l < b.len() && b[l] == a[highest];
        assert(b[l].height == height);
    }
}

/// The images of one atlas, the largest first. Its view is the sequence of
/// the images in that order.
pub struct ImageCollection<P> {
    named_images: Vec<NamedImage<P>>,
    max_width: u32,
    max_height: u32,
    num_images: usize,
}

impl<P> View for ImageCollection<P> {
    type V = Seq<NamedImage<P>>;

    closed spec fn view(&self) -> Seq<NamedImage<P>> {
        self.named_images@
    }
}

impl<P> ImageCollection<P> {
    /// No image stands before a larger one, and what is noted of the images
    /// is true of them.
    #[verifier::type_invariant]
    spec fn largest_first(self) -> bool {
        &&& is_sorted(self.named_images@)
        &&& is_greatest_width(self.named_images@, self.max_width)
        &&& is_greatest_height(self.named_images@, self.max_height)
        &&& self.num_images == self.named_images@.len()
    }

    /// The largest width among the images; zero when there are none.
    pub closed spec fn spec_max_width(&self) -> u32 {
        self.max_width
    }

    /// The largest height among the images; zero when there are none.
    pub closed spec fn spec_max_height(&self) -> u32 {
        self.max_height
    }

    /// The number of images.
    pub closed spec fn spec_num_images(&self) -> usize {
        self.num_images
    }

    /// Takes the images in, notes the largest width and the largest height
    /// among them, and orders them by descending area. Images of equal area
    /// stay in the order they came in.
    pub fn new(named_images: Vec<NamedImage<P>>) -> (collection: ImageCollection<P>)
        ensures
            is_stable_sort_of(collection@, named_images@),
            is_greatest_width(named_images@, collection.spec_max_width()),
            is_greatest_height(named_images@, collection.spec_max_height()),
            collection.spec_num_images() == named_images@.len(),
    {
        let mut max_width: u32 = 0;
        let mut max_height: u32 = 0;
        let num_images: usize = named_images.len();
        let mut i: usize = 0;
        while i < num_images
            invariant
                i <= num_images,
                num_images == named_images@.len(),
                is_greatest_width(named_images@.take(i as int), max_width),
                is_greatest_height(named_images@.take(i as int), max_height),
            decreases num_images - i,
        {
            let ghost before = named_images@.take(i as int);
            let ghost after = named_images@.take(i + 1);
            let ghost old_width = max_width;
            let ghost old_height = max_height;
            let image = &named_images[i];
            if image.width > max_width {
                max_width = image.width;
            }
            if image.height > max_height {
                max_height = image.height;
            }
            proof {
                assert(after[i as int] == named_images@[i as int]);
                assert forall|j: int| 0 <= j < after.len() implies (#[trigger] after[j]).width
                    <= max_width && after[j].height <= max_height by {
                    if j < i {
                        assert(before[j] == after[j]);
                    }
                }
                if max_width != image.width {
                    let j = choose|j: int|
                        0 <= j < before.len() && (#[trigger] before[j]).width == old_width;
                    assert(after[j] == before[j]);
                }
                if max_height != image.height {
                    let j = choose|j: int|
                        0 <= j < before.len() && (#[trigger] before[j]).height == old_height;
                    assert(after[j] == before[j]);
                }
            }
            i += 1;
        }
        let ghost items = named_images@;
        proof {
            assert(items.take(num_images as int) =~= items);
        }
        let sorted = stable_sort(named_images);
        proof {
            lemma_greatest_of_same_items(items, sorted@, max_width, max_height);
        }
        ImageCollection { named_images: sorted, max_width, max_height, num_images }
    }

    /// The images, the largest first.
    pub fn named_images(&self) -> (images: &Vec<NamedImage<P>>)
        ensures
            images@ == self@,
            is_sorted(self@),
    {
        proof {
            use_type_invariant(self);
        }
        &self.named_images
    }

    /// The largest width among the images; zero when there are none.
    pub fn max_width(&self) -> (r: u32)
        ensures
            r == self.spec_max_width(),
            is_greatest_width(self@, r),
    {
        proof {
            use_type_invariant(self);
        }
        self.max_width
    }

    /// The largest height among the images; zero when there are none.
    pub fn max_height(&self) -> (r: u32)
        ensures
            r == self.spec_max_height(),
            is_greatest_height(self@, r),
    {
        proof {
            use_type_invariant(self);
        }
        self.max_height
    }

    /// The number of images.
    pub fn num_images(&self) -> (r: usize)
        ensures
            r == self.spec_num_images(),
            r == self@.len(),
    {
        proof {
            use_type_invariant(self);
        }
        self.num_images
    }
}

/// Where to draw one image: `source` is the image's position in the
/// collection, `x` and `y` are where its first pixel goes on the canvas.
pub struct DrawInstruction {
    pub source: usize,
    pub x: u32,
    pub y: u32,
    pub width: u32,
    pub height: u32,
}

/// A finished layout: the size of the canvas, the images to draw in the order
/// of the tree's nodes, and the same placements by name, sorted by name.
pub struct PackedLayout {
    pub width: u32,
    pub height: u32,
    pub draws: Vec<DrawInstruction>,
    pub sprite_data: Vec<SpriteData>,
}

/// What is reserved for the image at position `i`: its size with the padding
/// added once to the width and once to the height. The payload that goes
/// into the tree is the position itself.
pub open spec fn reserved_item<P>(images: Seq<NamedImage<P>>, padding: u8, i: int) -> (
    DataSize,
    usize,
) {
    (
        DataSize {
            width: (images[i].width + padding) as u32,
            height: (images[i].height + padding) as u32,
        },
        i as usize,
    )
}

/// What is reserved for each image, in the order of the images.
pub open spec fn reserved_items<P>(images: Seq<NamedImage<P>>, padding: u8) -> Seq<
    (DataSize, usize),
> {
    Seq::new(images.len(), |i: int| reserved_item(images, padding, i))
}

/// Every image with its padding is at most `u32::MAX` wide and high.
pub open spec fn reservable<P>(images: Seq<NamedImage<P>>, padding: u8) -> bool {
    forall|i: int|
        0 <= i < images.len() ==> (#[trigger] images[i]).width + padding <= u32::MAX
            && images[i].height + padding <= u32::MAX
}

/// The nodes of the tree after the padded images were inserted in order.
pub open spec fn packed_nodes<P>(images: Seq<NamedImage<P>>, padding: u8) -> Seq<Node<usize>> {
    insert_all_nodes(fresh_nodes::<usize>(), reserved_items(images, padding))
}

/// The instruction that draws the image of a placement: the image goes
/// `padding` to the right of and below the corner of what was reserved.
pub open spec fn draw_of<P>(
    images: Seq<NamedImage<P>>,
    padding: u8,
    placement: (usize, BoundingBox),
) -> DrawInstruction {
    DrawInstruction {
        source: placement.0,
        x: (placement.1.x + padding) as u32,
        y: (placement.1.y + padding) as u32,
        width: images[placement.0 as int].width,
        height: images[placement.0 as int].height,
    }
}

/// The record of a placement under the image's name.
pub open spec fn sprite_of<P>(
    images: Seq<NamedImage<P>>,
    padding: u8,
    placement: (usize, BoundingBox),
) -> SpriteData {
    SpriteData {
        name: images[placement.0 as int].name,
        x: (placement.1.x + padding) as u32,
        y: (placement.1.y + padding) as u32,
        width: images[placement.0 as int].width,
        height: images[placement.0 as int].height,
    }
}

/// The width of the canvas: that of the total bounding box of what was
/// reserved, with the padding added once more.
pub open spec fn canvas_width<P>(images: Seq<NamedImage<P>>, padding: u8) -> int {
    total_bounding_box(packed_nodes(images, padding)).width + padding
}

/// The height of the canvas: that of the total bounding box of what was
/// reserved, with the padding added once more.
pub open spec fn canvas_height<P>(images: Seq<NamedImage<P>>, padding: u8) -> int {
    total_bounding_box(packed_nodes(images, padding)).height + padding
}

/// The layout can be had: every padded image is representable and finds room,
/// and the canvas, which is the total bounding box with the padding added
/// once more on the far edges, is representable too.
pub open spec fn pack_succeeds<P>(images: Seq<NamedImage<P>>, padding: u8) -> bool {
    &&& reservable(images, padding)
    &&& insert_all_succeeds(fresh_nodes::<usize>(), reserved_items(images, padding))
    &&& canvas_width(images, padding) <= u32::MAX
    &&& canvas_height(images, padding) <= u32::MAX
}

/// The drawing instructions of a layout, one for each placement and in the
/// order of the placements.
pub open spec fn draws_of<P>(images: Seq<NamedImage<P>>, padding: u8) -> Seq<DrawInstruction> {
    placements(packed_nodes(images, padding)).map_values(
        |placement: (usize, BoundingBox)| draw_of(images, padding, placement),
    )
}

/// The placements of a layout by name, in the order of the placements.
pub open spec fn sprites_of<P>(images: Seq<NamedImage<P>>, padding: u8) -> Seq<SpriteData> {
    placements(packed_nodes(images, padding)).map_values(
        |placement: (usize, BoundingBox)| sprite_of(images, padding, placement),
    )
}

/// The placement is that of one of the images: it names the image by its
/// position and reserves the image's size plus the padding, at a place whose
/// far corner is representable.
pub open spec fn is_placement_of_image<P>(
    images: Seq<NamedImage<P>>,
    padding: u8,
    placement: (usize, BoundingBox),
) -> bool {
    &&& placement.0 < images.len()
    &&& placement.1.width == images[placement.0 as int].width + padding
    &&& placement.1.height == images[placement.0 as int].height + padding
    &&& placement.1.in_bounds()
}

/// In a tree that holds the padded images and nothing else, every placement
/// is that of one of the images.
pub proof fn lemma_placements_are_of_images<P>(images: Seq<NamedImage<P>>, padding: u8)
    requires
        images.len() <= usize::MAX,
        reservable(images, padding),
        tree_inv(packed_nodes(images, padding)),
    ensures
        forall|k: int|
            0 <= k < placements(packed_nodes(images, padding)).len() ==> is_placement_of_image(
                images,
                padding,
                #[trigger] placements(packed_nodes(images, padding))[k],
            ),
{
    let items = reserved_items(images, padding);
    let nodes = packed_nodes(images, padding);
    lemma_inserted_items_are_placed(fresh_nodes::<usize>(), items);
    lemma_inv_placed_in_bounds(nodes);
    assert forall|k: int| 0 <= k < placements(nodes).len() implies is_placement_of_image(
        images,
        padding,
        #[trigger] placements(nodes)[k],
    ) by {
        lemma_node_of_placement(nodes, k);
        let m = node_of_placement(nodes, k);
        assert(!(m < 1 && fresh_nodes::<usize>()[m] is Occupied));
        let j = choose|j: int| 0 <= j < items.len() && holds_item(nodes[m], #[trigger] items[j]);
        assert(items[j] == reserved_item(images, padding, j));
        assert(images[j].width + padding <= u32::MAX);
    }
}

/// What the instruction's image reserved: the image's rectangle on the
/// canvas, extended by the padding to the left and to the top.
pub open spec fn reserved_by(draw: DrawInstruction, padding: u8) -> BoundingBox {
    BoundingBox {
        x: (draw.x - padding) as u32,
        y: (draw.y - padding) as u32,
        width: (draw.width + padding) as u32,
        height: (draw.height + padding) as u32,
    }
}

/// The trees of a layout satisfy the invariant of the partition tree and
/// tile the plane.
pub proof fn lemma_packed_nodes_inv<P>(images: Seq<NamedImage<P>>, padding: u8)
    requires
        1 + 2 * images.len() <= usize::MAX,
    ensures
        tree_inv(packed_nodes(images, padding)),
        tiles_plane(packed_nodes(images, padding)),
{
    lemma_fresh_nodes_inv::<usize>();
    lemma_fresh_nodes_tile_plane::<usize>();
    lemma_insertions_keep_inv(fresh_nodes::<usize>(), reserved_items(images, padding));
}

/// Every image of a layout lies on the canvas and keeps at least the padding
/// between itself and each edge of the canvas.
pub proof fn lemma_layout_keeps_margins<P>(images: Seq<NamedImage<P>>, padding: u8, k: int)
    requires
        1 + 2 * images.len() <= usize::MAX,
        reservable(images, padding),
        0 <= k < draws_of(images, padding).len(),
    ensures
        ({
            let draw = draws_of(images, padding)[k];
            &&& padding <= draw.x
            &&& padding <= draw.y
            &&& draw.x + draw.width + padding <= canvas_width(images, padding)
            &&& draw.y + draw.height + padding <= canvas_height(images, padding)
            &&& draw.source < images.len()
            &&& draw.width == images[draw.source as int].width
            &&& draw.height == images[draw.source as int].height
        }),
{
    let nodes = packed_nodes(images, padding);
    lemma_packed_nodes_inv(images, padding);
    lemma_placements_are_of_images(images, padding);
    lemma_inv_placed_in_bounds(nodes);
    lemma_total_bounding_box_in_bounds(nodes);
    lemma_total_bounding_box_encloses(nodes, k);
    let placement = placements(nodes)[k];
    assert(is_placement_of_image(images, padding, placement));
    assert(draws_of(images, padding)[k] == draw_of(images, padding, placement));
}

/// No two images of a layout come closer to each other than the padding: what
/// the one reserved and what the other reserved have no cell in common.
pub proof fn lemma_layout_keeps_images_apart<P>(
    images: Seq<NamedImage<P>>,
    padding: u8,
    k: int,
    l: int,
)
    requires
        1 + 2 * images.len() <= usize::MAX,
        reservable(images, padding),
        0 <= k < draws_of(images, padding).len(),
        0 <= l < draws_of(images, padding).len(),
        k != l,
    ensures
        forall|px: int, py: int|
            !(#[trigger] reserved_by(draws_of(images, padding)[k], padding).covers_cell(px, py)
                && reserved_by(draws_of(images, padding)[l], padding).covers_cell(px, py)),
{
    let nodes = packed_nodes(images, padding);
    lemma_packed_nodes_inv(images, padding);
    lemma_placements_are_of_images(images, padding);
    lemma_placements_do_not_overlap(nodes, k, l);
    let draws = draws_of(images, padding);
    assert(is_placement_of_image(images, padding, placements(nodes)[k]));
    assert(is_placement_of_image(images, padding, placements(nodes)[l]));
    assert(reserved_by(draws[k], padding) == placements(nodes)[k].1);
    assert(reserved_by(draws[l], padding) == placements(nodes)[l].1);
}

/// The images that the instructions of a layout draw, named by position and
/// in the order of the instructions.
pub open spec fn sources_of<P>(images: Seq<NamedImage<P>>, padding: u8) -> Seq<usize> {
    Seq::new(draws_of(images, padding).len(), |k: int| draws_of(images, padding)[k].source)
}

/// A layout in which every image found room draws every image, and each of
/// them once.
pub proof fn lemma_layout_draws_each_image_once<P>(images: Seq<NamedImage<P>>, padding: u8, i: int)
    requires
        images.len() <= usize::MAX,
        insert_all_succeeds(fresh_nodes::<usize>(), reserved_items(images, padding)),
        0 <= i < images.len(),
    ensures
        draws_of(images, padding).len() == images.len(),
        sources_of(images, padding).to_multiset().count(i as usize) == 1,
{
    let items = reserved_items(images, padding);
    let nodes = packed_nodes(images, padding);
    let positions = Seq::new(images.len(), |j: int| j as usize);
    lemma_insertions_place_each_payload_once(fresh_nodes::<usize>(), items);
    lemma_payloads_of_placements(nodes);
    assert(payloads(fresh_nodes::<usize>()) =~= Seq::<usize>::empty()) by {
        let none = fresh_nodes::<usize>().drop_last();
        assert(none.len() == 0);
        assert(payloads(none) =~= Seq::<usize>::empty());
        assert(payloads(fresh_nodes::<usize>()) == payloads(none));
    }
    assert(Seq::<usize>::empty().to_multiset() =~= Multiset::<usize>::empty()) by {
        to_multiset_len(Seq::<usize>::empty());
    }
    assert(item_payloads(items) =~= positions);
    assert(sources_of(images, padding) =~= payloads(nodes));
    assert(payloads(nodes).to_multiset() =~= positions.to_multiset());
    to_multiset_len(payloads(nodes));
    to_multiset_len(positions);
    assert(positions[i] == i as usize);
    assert(positions.contains(i as usize));
    to_multiset_contains(positions, i as usize);
    positions.lemma_multiset_has_no_duplicates();
}

/// Lays the images of the collection out on one canvas.
///
/// Each image reserves its size plus `padding` in width and in height, the
/// images are inserted in the order of the collection, and each is drawn
/// `padding` away from the corner of what it reserved. The canvas is the
/// total bounding box of what was reserved, with `padding` added once more to
/// its width and to its height. Fails, and gives no layout at all, when some
/// padded image finds no room or the canvas would not be representable.
pub fn pack<P>(padding: u8, img_collection: &ImageCollection<P>) -> (r: Result<
    PackedLayout,
    InsertionError,
>)
    ensures
        is_sorted(img_collection@),
        r is Ok <==> pack_succeeds(img_collection@, padding),
        r matches Ok(layout) ==> {
            &&& layout.width == canvas_width(img_collection@, padding)
            &&& layout.height == canvas_height(img_collection@, padding)
            &&& layout.draws@ == draws_of(img_collection@, padding)
            &&& is_stable_sort_of(layout.sprite_data@, sprites_of(img_collection@, padding))
            &&& layout.draws@.len() == img_collection@.len()
            &&& layout.sprite_data@.len() == img_collection@.len()
            &&& 1 + 2 * img_collection@.len() <= usize::MAX
            &&& forall|k: int|
                0 <= k < layout.draws@.len() ==> (#[trigger] layout.draws@[k]).source
                    < img_collection@.len()
        },
        r matches Err(error) ==> error@ == InsertionError::no_space_message(),
{
    let images = img_collection.named_images();
    let margin: u32 = padding as u32;
    let n: usize = images.len();
    let mut data: Vec<(DataSize, usize)> = Vec::new();
    let mut i: usize = 0;
    while i < n
        invariant
            i <= n,
            n == images@.len(),
            images@ == img_collection@,
            is_sorted(img_collection@),
            margin == padding,
            data@.len() == i,
            forall|j: int| 0 <= j < i ==> data@[j] == reserved_item(images@, padding, j),
            forall|j: int|
                0 <= j < i ==> (#[trigger] images@[j]).width + padding <= u32::MAX
                    && images@[j].height + padding <= u32::MAX,
        decreases n - i,
    {
        let image = &images[i];
        let width = match image.width.checked_add(margin) {
            Some(width) => width,
            None => {
                proof {
                    assert(images@[i as int].width + padding > u32::MAX);
                }
                return Err(InsertionError::no_space());
            },
        };
        let height = match image.height.checked_add(margin) {
            Some(height) => height,
            None => {
                proof {
                    assert(images@[i as int].height + padding > u32::MAX);
                }
                return Err(InsertionError::no_space());
            },
        };
        data.push((DataSize { width, height }, i));
        i += 1;
    }
    proof {
        assert(data@ =~= reserved_items(images@, padding));
    }
    let mut tree = Tree2d::<usize>::new();
    match tree.insert_all(data) {
        Ok(()) => {},
        Err(error) => {
            return Err(error);
        },
    }
    let flattened = tree.flatten();
    let bb = tree.get_total_bounding_box();
    let canvas_width = match bb.width.checked_add(margin) {
        Some(width) => width,
        None => {
            return Err(InsertionError::no_space());
        },
    };
    let canvas_height = match bb.height.checked_add(margin) {
        Some(height) => height,
        None => {
            return Err(InsertionError::no_space());
        },
    };
    let ghost placed = placements(tree@);
    let ghost to_draw = |placement: (usize, BoundingBox)| draw_of(images@, padding, placement);
    let ghost to_sprite = |placement: (usize, BoundingBox)| sprite_of(images@, padding, placement);
    proof {
        lemma_node_count(tree@);
        lemma_placements_are_of_images(images@, padding);
        assert(placed == placements(packed_nodes(images@, padding)));
        assert forall|p: int| 0 <= p < placed.len() implies is_placement_of_image(
            images@,
            padding,
            #[trigger] placed[p],
        ) by {
            assert(placed[p] == placements(packed_nodes(images@, padding))[p]);
        }
        assert(flattened@.len() == by_value(flattened@).len());
    }
    let mut draws: Vec<DrawInstruction> = Vec::new();
    let mut sprite_data: Vec<SpriteData> = Vec::new();
    let count: usize = flattened.len();
    let mut k: usize = 0;
    while k < count
        invariant
            k <= count,
            count == flattened@.len(),
            count == placed.len(),
            count == n,
            n == images@.len(),
            margin == padding,
            by_value(flattened@) == placed,
            forall|p: int|
                0 <= p < placed.len() ==> is_placement_of_image(
                    images@,
                    padding,
                    #[trigger] placed[p],
                ),
            to_draw == |placement: (usize, BoundingBox)| draw_of(images@, padding, placement),
            to_sprite == |placement: (usize, BoundingBox)| sprite_of(images@, padding, placement),
            draws@ == placed.take(k as int).map_values(to_draw),
            sprite_data@ == placed.take(k as int).map_values(to_sprite),
        decreases count - k,
    {
        let pair = &flattened[k];
        let source: usize = *pair.0;
        let reserved: BoundingBox = pair.1;
        proof {
            assert(by_value(flattened@)[k as int] == (source, reserved));
            assert(is_placement_of_image(images@, padding, placed[k as int]));
        }
        let x: u32 = reserved.x + margin;
        let y: u32 = reserved.y + margin;
        let image = &images[source];
        draws.push(DrawInstruction { source, x, y, width: image.width, height: image.height });
        sprite_data.push(
            SpriteData { name: image.name.clone(), x, y, width: image.width, height: image.height },
        );
        proof {
            assert(placed.take(k + 1) =~= placed.take(k as int).push(placed[k as int]));
            assert(placed.take(k + 1).map_values(to_draw) =~= placed.take(k as int).map_values(
                to_draw,
            ).push(to_draw(placed[k as int])));
            assert(placed.take(k + 1).map_values(to_sprite) =~= placed.take(k as int).map_values(
                to_sprite,
            ).push(to_sprite(placed[k as int])));
        }
        k += 1;
    }
    proof {
        assert(placed.take(count as int) =~= placed);
        to_multiset_len(sprite_data@);
    }
    let sprite_data = stable_sort(sprite_data);
    proof {
        to_multiset_len(sprite_data@);
    }
    Ok(PackedLayout { width: canvas_width, height: canvas_height, draws, sprite_data })
}

} // verus!
