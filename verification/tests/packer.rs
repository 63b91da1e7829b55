use std::error::Error;

use corral::atlas::{compose, is_canvas_addressable, named_image, pack_images, AtlasError};
use corral::packer::{pack, DrawInstruction, ImageCollection, NamedImage, SpriteData};

fn make_rect(w: u32, h: u32) -> image::DynamicImage {
    let mut img = image::RgbaImage::new(w, h);
    for i in 0..w {
        for j in 0..h {
            img.put_pixel(i, j, image::Rgba([255, 0, 0, 255]));
        }
    }
    image::DynamicImage::ImageRgba8(img)
}

fn make_colored(w: u32, h: u32, color: [u8; 4]) -> image::DynamicImage {
    let mut img = image::RgbaImage::new(w, h);
    for i in 0..w {
        for j in 0..h {
            img.put_pixel(i, j, image::Rgba(color));
        }
    }
    image::DynamicImage::ImageRgba8(img)
}

fn sized(name: &str, width: u32, height: u32) -> NamedImage<()> {
    NamedImage {
        name: name.to_owned(),
        width,
        height,
        img: (),
    }
}

fn names<P>(collection: &ImageCollection<P>) -> Vec<String> {
    collection
        .named_images()
        .iter()
        .map(|image| image.name.clone())
        .collect()
}

fn draw_tuple(draw: &DrawInstruction) -> (usize, u32, u32, u32, u32) {
    (draw.source, draw.x, draw.y, draw.width, draw.height)
}

fn sprite_tuple(sprite: &SpriteData) -> (String, u32, u32, u32, u32) {
    (
        sprite.name.clone(),
        sprite.x,
        sprite.y,
        sprite.width,
        sprite.height,
    )
}

#[test]
fn packer_pack_one() -> Result<(), Box<dyn Error>> {
    let (w, h) = (1, 1);
    let padding = 1;
    let mut expected_output_img = image::RgbaImage::new(w + padding * 2, h + padding * 2);
    for i in 0..w + padding * 2 {
        for j in 0..h + padding * 2 {
            let color = if i < padding || j < padding {
                image::Rgba([0, 0, 0, 0])
            } else if i >= padding + w || j >= padding + h {
                image::Rgba([0, 0, 0, 0])
            } else {
                image::Rgba([255, 0, 0, 255])
            };
            expected_output_img.put_pixel(i, j, color);
        }
    }

    let img_collection =
        ImageCollection::new(vec![named_image("red_pixel".to_owned(), make_rect(w, h))]);

    let packed = pack_images(padding as u8, &img_collection).map_err(|e| e.to_string())?;
    assert!(packed.img.as_rgba8().is_some());
    if let Some(img) = packed.img.as_rgba8() {
        let p: Vec<&image::Rgba<u8>> = img.pixels().collect();
        let q: Vec<&image::Rgba<u8>> = expected_output_img.pixels().collect();
        assert_eq!(q, p);
    }
    Ok(())
}

#[test]
fn lib_pack_one() {
    let (w, h) = (1, 1);
    let mut img = image::RgbaImage::new(w, h);
    for i in 0..w {
        for j in 0..h {
            img.put_pixel(i, j, image::Rgba([255, 0, 0, 255]));
        }
    }

    let padding = 1;
    let mut expected_output_img = image::RgbaImage::new(w + padding * 2, h + padding * 2);
    for i in 0..w + padding * 2 {
        for j in 0..h + padding * 2 {
            let color = if i < padding || j < padding {
                image::Rgba([0, 0, 0, 0])
            } else if i >= padding + w || j >= padding + h {
                image::Rgba([0, 0, 0, 0])
            } else {
                image::Rgba([255, 0, 0, 255])
            };
            expected_output_img.put_pixel(i, j, color);
        }
    }

    let img_collection = ImageCollection::new(vec![named_image(
        String::new(),
        image::DynamicImage::ImageRgba8(img),
    )]);

    let packed = pack_images(padding as u8, &img_collection).expect("one image finds room");
    assert!(packed.img.as_rgba8().is_some());
    if let Some(img) = packed.img.as_rgba8() {
        let p: Vec<&image::Rgba<u8>> = img.pixels().collect();
        let q: Vec<&image::Rgba<u8>> = expected_output_img.pixels().collect();
        assert_eq!(q, p);
    }
}

#[test]
fn named_image_notes_the_size_of_the_image() {
    let named = named_image("strip".to_owned(), make_rect(3, 2));
    assert_eq!("strip", named.name);
    assert_eq!(3, named.width);
    assert_eq!(2, named.height);
    assert_eq!(6, named.area());
    assert_eq!((3, 2), (named.img.width(), named.img.height()));
}

#[test]
fn collection_orders_by_descending_area_and_keeps_ties() {
    let collection = ImageCollection::new(vec![
        sized("small", 1, 1),
        sized("wide", 4, 1),
        sized("big", 3, 3),
        sized("tall", 1, 4),
        sized("square", 2, 2),
        sized("nothing", 0, 9),
    ]);
    assert_eq!(
        vec!["big", "wide", "tall", "square", "small", "nothing"],
        names(&collection)
    );
    assert_eq!(4, collection.max_width());
    assert_eq!(9, collection.max_height());
    assert_eq!(6, collection.num_images());
}

#[test]
fn collection_of_nothing() {
    let collection = ImageCollection::<()>::new(vec![]);
    assert!(collection.named_images().is_empty());
    assert_eq!(0, collection.max_width());
    assert_eq!(0, collection.max_height());
    assert_eq!(0, collection.num_images());
    let layout = pack(3, &collection).expect("nothing to place, nothing to fail");
    assert_eq!((3, 3), (layout.width, layout.height));
    assert!(layout.draws.is_empty());
    assert!(layout.sprite_data.is_empty());
}

#[test]
fn collection_ranks_areas_beyond_32_bits() {
    // 65536 squared is zero in 32 bits.
    let collection = ImageCollection::new(vec![sized("dot", 1, 1), sized("huge", 65536, 65536)]);
    assert_eq!(vec!["huge", "dot"], names(&collection));
}

#[test]
fn layout_adds_padding_to_sizes_offsets_and_canvas() {
    let collection = ImageCollection::new(vec![sized("b", 2, 2), sized("a", 4, 2)]);
    assert_eq!(vec!["a", "b"], names(&collection));

    let layout = pack(1, &collection).expect("both images find room");
    // Reserved: 5 by 3 at the origin, then 3 by 3 beside it.
    assert_eq!((9, 4), (layout.width, layout.height));
    let draws: Vec<_> = layout.draws.iter().map(draw_tuple).collect();
    assert_eq!(vec![(0, 1, 1, 4, 2), (1, 6, 1, 2, 2)], draws);
    let sprites: Vec<_> = layout.sprite_data.iter().map(sprite_tuple).collect();
    assert_eq!(
        vec![
            ("a".to_owned(), 1, 1, 4, 2),
            ("b".to_owned(), 6, 1, 2, 2)
        ],
        sprites
    );
}

#[test]
fn layout_without_padding() {
    let collection = ImageCollection::new(vec![
        sized("one", 1, 1),
        sized("two", 1, 1),
        sized("three", 1, 1),
        sized("four", 1, 1),
    ]);
    let layout = pack(0, &collection).expect("four unit squares find room");
    assert_eq!((4, 1), (layout.width, layout.height));
    assert_eq!(4, layout.width * layout.height);
    // Drawn in the order of the tree's nodes, listed in the order of the names.
    let draws: Vec<_> = layout.draws.iter().map(draw_tuple).collect();
    assert_eq!(
        vec![(0, 0, 0, 1, 1), (1, 1, 0, 1, 1), (2, 2, 0, 1, 1), (3, 3, 0, 1, 1)],
        draws
    );
    let sprites: Vec<_> = layout.sprite_data.iter().map(sprite_tuple).collect();
    assert_eq!(
        vec![
            ("four".to_owned(), 3, 0, 1, 1),
            ("one".to_owned(), 0, 0, 1, 1),
            ("three".to_owned(), 2, 0, 1, 1),
            ("two".to_owned(), 1, 0, 1, 1),
        ],
        sprites
    );
}

#[test]
fn sprites_of_one_name_stay_in_the_order_they_were_placed() {
    let collection = ImageCollection::new(vec![
        sized("twin", 3, 1),
        sized("twin", 2, 1),
        sized("alone", 1, 1),
    ]);
    let layout = pack(0, &collection).expect("all three find room");
    let sprites: Vec<_> = layout.sprite_data.iter().map(sprite_tuple).collect();
    assert_eq!("alone", sprites[0].0);
    assert_eq!(("twin".to_owned(), 0, 0, 3, 1), sprites[1]);
    assert_eq!("twin", sprites[2].0);
    assert_eq!((2, 1), (sprites[2].3, sprites[2].4));
}

#[test]
fn an_image_too_large_with_its_padding_fails_the_layout() {
    let collection = ImageCollection::new(vec![sized("edge", u32::MAX, 1), sized("dot", 1, 1)]);
    let error = pack(1, &collection).err().expect("nothing is as wide as that");
    assert_eq!(
        "Error inserting data, no partition large enough",
        error.to_string()
    );
    let collection = ImageCollection::new(vec![sized("edge", 1, u32::MAX - 1)]);
    assert!(pack(2, &collection).is_err());
}

#[test]
fn a_canvas_beyond_the_plane_fails_the_layout() {
    // The image just fits with its padding; the margin on the far edge does not.
    let collection = ImageCollection::new(vec![sized("edge", u32::MAX - 1, 1)]);
    assert!(pack(1, &collection).is_err());
    let collection = ImageCollection::new(vec![sized("edge", u32::MAX - 2, 1)]);
    let layout = pack(1, &collection).expect("one cell of margin is left on each side");
    assert_eq!((u32::MAX, 3), (layout.width, layout.height));
    assert_eq!((0, 1, 1, u32::MAX - 2, 1), draw_tuple(&layout.draws[0]));
}

#[test]
fn the_whole_plane_can_be_laid_out_without_padding() {
    let collection = ImageCollection::new(vec![sized("plane", u32::MAX, u32::MAX)]);
    let layout = pack(0, &collection).expect("the root holds it");
    assert_eq!((u32::MAX, u32::MAX), (layout.width, layout.height));
    assert!(!is_canvas_addressable(layout.width, layout.height));
}

#[test]
fn canvas_is_addressable_when_its_bytes_fit_a_vector() {
    assert!(is_canvas_addressable(0, 0));
    assert!(is_canvas_addressable(1024, 1024));
    assert!(is_canvas_addressable(0, u32::MAX));
    let limit = (isize::MAX as u128) / 4;
    for (width, height) in [
        (u32::MAX, 1u32 << 29),
        (u32::MAX, 1u32 << 30),
        (1u32 << 31, 1u32 << 30),
        (1u32 << 30, 1u32 << 29),
        (46340, 46340),
        (46341, 46341),
    ] {
        assert_eq!(
            (width as u128) <= (usize::MAX as u128) / 4
                && (width as u128) * (height as u128) <= limit,
            is_canvas_addressable(width, height)
        );
    }
    assert!(!is_canvas_addressable(u32::MAX, u32::MAX));
}

#[test]
fn an_atlas_too_large_to_address_fails() {
    // Two images without a pixel: one as wide as the plane allows, one very
    // high. The sheet that holds both has more bytes than a vector can.
    let wide = image::DynamicImage::ImageRgba8(image::RgbaImage::new(u32::MAX - 10, 0));
    let high = image::DynamicImage::ImageRgba8(image::RgbaImage::new(0, 1 << 30));
    let collection = ImageCollection::new(vec![
        named_image("wide".to_owned(), wide),
        named_image("high".to_owned(), high),
    ]);
    let layout = pack(1, &collection).expect("both images find room");
    assert_eq!((u32::MAX - 8, (1 << 30) + 3), (layout.width, layout.height));
    assert!(!is_canvas_addressable(layout.width, layout.height));
    let error = pack_images(1, &collection).err().expect("no such sheet can be had");
    assert!(matches!(error, AtlasError::CanvasTooLarge));
    assert_eq!("Error packing images, the sheet is too large", error.to_string());
}

#[test]
fn an_image_of_another_size_than_noted_fails_the_atlas() {
    let mut named = named_image("dot".to_owned(), make_rect(1, 1));
    named.width = 2;
    let collection = ImageCollection::new(vec![
        named_image("fine".to_owned(), make_rect(3, 3)),
        named,
    ]);
    assert!(pack(1, &collection).is_ok());
    let error = pack_images(1, &collection).err().expect("one size is not true");
    assert!(matches!(error, AtlasError::WrongSize));
    assert_eq!(
        "Error packing images, an image is not of the size noted",
        error.to_string()
    );

    let mut named = named_image("dot".to_owned(), make_rect(1, 1));
    named.height = 0;
    let collection = ImageCollection::new(vec![named]);
    assert!(matches!(
        pack_images(0, &collection),
        Err(AtlasError::WrongSize)
    ));
}

#[test]
fn an_image_with_float_samples_fails_the_atlas() {
    let mut floats = image::Rgb32FImage::new(2, 1);
    floats.put_pixel(0, 0, image::Rgb([0.5, 0.25, 1.0]));
    floats.put_pixel(1, 0, image::Rgb([f32::NAN, 0.0, 0.0]));
    let collection = ImageCollection::new(vec![
        named_image("fine".to_owned(), make_rect(3, 3)),
        named_image("floats".to_owned(), image::DynamicImage::ImageRgb32F(floats)),
    ]);
    let error = pack_images(1, &collection).err().expect("float samples are not drawn");
    assert!(matches!(error, AtlasError::FloatSamples));
    assert_eq!(
        "Error packing images, an image holds float samples",
        error.to_string()
    );

    let floats = image::Rgba32FImage::new(1, 1);
    let collection = ImageCollection::new(vec![named_image(
        "floats".to_owned(),
        image::DynamicImage::ImageRgba32F(floats),
    )]);
    assert!(matches!(
        pack_images(0, &collection),
        Err(AtlasError::FloatSamples)
    ));
}

#[test]
fn a_wrong_size_is_reported_before_float_samples() {
    let mut named = named_image(
        "floats".to_owned(),
        image::DynamicImage::ImageRgb32F(image::Rgb32FImage::new(1, 1)),
    );
    named.width = 5;
    let collection = ImageCollection::new(vec![named]);
    assert!(matches!(
        pack_images(0, &collection),
        Err(AtlasError::WrongSize)
    ));
}

#[test]
fn an_atlas_for_which_an_image_finds_no_room_fails() {
    // Two images without a pixel, each as wide as the plane allows with its
    // padding, and a third that is too high to go below them.
    let collection = ImageCollection::new(vec![
        named_image(
            "wide".to_owned(),
            image::DynamicImage::ImageRgba8(image::RgbaImage::new(u32::MAX - 1, 0)),
        ),
        named_image(
            "high".to_owned(),
            image::DynamicImage::ImageRgba8(image::RgbaImage::new(0, u32::MAX - 1)),
        ),
    ]);
    let error = pack_images(1, &collection).err().expect("the second finds no room");
    assert!(matches!(error, AtlasError::NoSpace(_)));
    assert_eq!(
        "Error inserting data, no partition large enough",
        error.to_string()
    );
}

#[test]
fn every_integer_format_is_drawn() {
    let images = vec![
        image::DynamicImage::ImageLuma8(image::GrayImage::new(1, 1)),
        image::DynamicImage::ImageLumaA8(image::GrayAlphaImage::new(1, 1)),
        image::DynamicImage::ImageRgb8(image::RgbImage::new(1, 1)),
        image::DynamicImage::ImageRgba8(image::RgbaImage::new(1, 1)),
        image::DynamicImage::new_luma16(1, 1),
        image::DynamicImage::new_luma_a16(1, 1),
        image::DynamicImage::new_rgb16(1, 1),
        image::DynamicImage::new_rgba16(1, 1),
    ];
    let named = images
        .into_iter()
        .enumerate()
        .map(|(n, img)| named_image(n.to_string(), img))
        .collect();
    let collection = ImageCollection::new(named);
    let packed = pack_images(0, &collection).expect("integer samples are drawn");
    assert_eq!((8, 1), (packed.img.width(), packed.img.height()));
    let canvas = packed.img.as_rgba8().expect("the atlas has four 8-bit channels");
    // Without an alpha channel a pixel reads as opaque.
    let alphas: Vec<u8> = (0..8).map(|x| canvas.get_pixel(x, 0).0[3]).collect();
    assert_eq!(vec![255, 0, 255, 0, 255, 0, 255, 0], alphas);
}

#[test]
fn atlas_draws_each_image_where_the_layout_puts_it() {
    let blue = [0, 0, 255, 255];
    let green = [0, 255, 0, 128];
    let collection = ImageCollection::new(vec![
        named_image("green".to_owned(), make_colored(1, 2, green)),
        named_image("blue".to_owned(), make_colored(3, 2, blue)),
    ]);
    let packed = pack_images(1, &collection).expect("both images find room");
    // Reserved: 4 by 3 at the origin, then 2 by 3 beside it.
    assert_eq!((7, 4), (packed.img.width(), packed.img.height()));
    let canvas = packed.img.as_rgba8().expect("the atlas has four 8-bit channels");
    for x in 0..7 {
        for y in 0..4 {
            let expected = if (1..4).contains(&x) && (1..3).contains(&y) {
                blue
            } else if x == 5 && (1..3).contains(&y) {
                green
            } else {
                [0, 0, 0, 0]
            };
            assert_eq!(image::Rgba(expected), *canvas.get_pixel(x, y), "at {} {}", x, y);
        }
    }
    let sprites: Vec<_> = packed.sprite_data.iter().map(sprite_tuple).collect();
    assert_eq!(
        vec![
            ("blue".to_owned(), 1, 1, 3, 2),
            ("green".to_owned(), 5, 1, 1, 2)
        ],
        sprites
    );
}

#[test]
fn atlas_reads_other_pixel_formats_as_eight_bit_rgba() {
    let mut gray = image::GrayImage::new(2, 1);
    gray.put_pixel(0, 0, image::Luma([7]));
    gray.put_pixel(1, 0, image::Luma([200]));
    let collection = ImageCollection::new(vec![named_image(
        "gray".to_owned(),
        image::DynamicImage::ImageLuma8(gray),
    )]);
    let packed = pack_images(0, &collection).expect("one image finds room");
    let canvas = packed.img.as_rgba8().expect("the atlas has four 8-bit channels");
    assert_eq!((2, 1), canvas.dimensions());
    assert_eq!(image::Rgba([7, 7, 7, 255]), *canvas.get_pixel(0, 0));
    assert_eq!(image::Rgba([200, 200, 200, 255]), *canvas.get_pixel(1, 0));
}

#[test]
fn compose_draws_later_instructions_over_earlier_ones_and_clips() {
    let red = [255, 0, 0, 255];
    let blue = [0, 0, 255, 255];
    let images = vec![
        named_image("red".to_owned(), make_colored(2, 2, red)),
        named_image("blue".to_owned(), make_colored(2, 2, blue)),
    ];
    let collection = ImageCollection::new(vec![sized("a", 2, 2), sized("b", 2, 2)]);
    let mut layout = pack(0, &collection).expect("both find room");
    assert_eq!((4, 2), (layout.width, layout.height));
    // Move the second image so that it covers half of the first and sticks
    // out of the canvas on the right.
    layout.draws[0].x = 2;
    layout.draws[1].x = 3;
    layout.draws[1].y = 1;
    let packed = compose(&layout, &images).into_image();
    let canvas = packed.as_rgba8().expect("the canvas has four 8-bit channels");
    assert_eq!((4, 2), canvas.dimensions());
    let expected = [
        [[0, 0, 0, 0], [0, 0, 0, 0], red, red],
        [[0, 0, 0, 0], [0, 0, 0, 0], red, blue],
    ];
    for y in 0..2 {
        for x in 0..4 {
            assert_eq!(
                image::Rgba(expected[y as usize][x as usize]),
                *canvas.get_pixel(x, y),
                "at {} {}",
                x,
                y
            );
        }
    }
}

#[test]
fn images_keep_the_padding_between_them_and_to_the_edges() {
    let padding = 2u8;
    let margin = padding as u32;
    let sizes = [
        (128, 96),
        (96, 128),
        (64, 96),
        (96, 64),
        (64, 64),
        (256, 64),
        (32, 32),
        (32, 32),
        (42, 42),
        (16, 16),
        (16, 16),
        (8, 8),
        (8, 8),
        (1, 300),
    ];
    let images = sizes
        .iter()
        .enumerate()
        .map(|(n, (w, h))| sized(&n.to_string(), *w, *h))
        .collect();
    let collection = ImageCollection::new(images);
    let layout = pack(padding, &collection).expect("all images find room");
    assert_eq!(sizes.len(), layout.draws.len());
    assert_eq!(sizes.len(), layout.sprite_data.len());

    let mut drawn = vec![false; sizes.len()];
    for draw in &layout.draws {
        let image = &collection.named_images()[draw.source];
        assert_eq!((image.width, image.height), (draw.width, draw.height));
        assert!(!drawn[draw.source]);
        drawn[draw.source] = true;
        assert!(margin <= draw.x && margin <= draw.y);
        assert!(draw.x + draw.width + margin <= layout.width);
        assert!(draw.y + draw.height + margin <= layout.height);
    }
    for (k, a) in layout.draws.iter().enumerate() {
        for b in layout.draws.iter().skip(k + 1) {
            let apart_in_x = a.x + a.width + margin <= b.x || b.x + b.width + margin <= a.x;
            let apart_in_y = a.y + a.height + margin <= b.y || b.y + b.height + margin <= a.y;
            assert!(apart_in_x || apart_in_y);
        }
    }
    let names: Vec<&str> = layout.sprite_data.iter().map(|s| s.name.as_str()).collect();
    let mut sorted = names.clone();
    sorted.sort();
    assert_eq!(sorted, names);
}
