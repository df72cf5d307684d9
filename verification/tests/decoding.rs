use std::io::Cursor;

use sixel_graphics::decode::{decode_placement_rgba, sized_png};
use sixel_graphics::pixels::DecodedRgba;
use sixel_graphics::placement::{
    HostPlacement, KittyImageFormat, KittyImagePlacement, KittyPlacementRenderInfo, Rect,
};
use sixel_graphics::protocol::sixel_cell_size;

fn placement(format: KittyImageFormat, width: u32, height: u32, data: Vec<u8>) -> HostPlacement {
    HostPlacement {
        area: Rect::new(0, 0, 20, 10),
        cell_size: sixel_cell_size(),
        placement: KittyImagePlacement {
            image_id: 1,
            placement_id: 1,
            z: 0,
            x_offset: 0,
            y_offset: 0,
            image_width: width,
            image_height: height,
            format,
            data_len: data.len(),
            data_fingerprint: 1,
            data,
            render: KittyPlacementRenderInfo {
                pixel_width: 0,
                pixel_height: 0,
                grid_cols: 1,
                grid_rows: 1,
                viewport_col: 0,
                viewport_row: 0,
                source_x: 0,
                source_y: 0,
                source_width: 0,
                source_height: 0,
            },
        },
    }
}

fn png(picture: image::DynamicImage) -> Vec<u8> {
    let mut bytes = Vec::new();
    picture
        .write_to(&mut Cursor::new(&mut bytes), image::ImageFormat::Png)
        .unwrap();
    bytes
}

#[test]
fn rgba_data_is_taken_as_it_is() {
    let mut placed = placement(KittyImageFormat::Rgba, 2, 1, vec![1, 2, 3, 4, 5, 6, 7, 8]);
    let decoded = decode_placement_rgba(&mut placed).unwrap();
    assert_eq!((decoded.width, decoded.height), (2, 1));
    assert_eq!(decoded.data, vec![1, 2, 3, 4, 5, 6, 7, 8]);
    assert!(placed.placement.data.is_empty());
}

#[test]
fn rgb_data_becomes_opaque() {
    let mut placed = placement(KittyImageFormat::Rgb, 1, 2, vec![1, 2, 3, 4, 5, 6]);
    let decoded = decode_placement_rgba(&mut placed).unwrap();
    assert_eq!((decoded.width, decoded.height), (1, 2));
    assert_eq!(decoded.data, vec![1, 2, 3, 255, 4, 5, 6, 255]);
    assert!(placed.placement.data.is_empty());
}

#[test]
fn raw_data_of_the_wrong_length_stays() {
    for format in [KittyImageFormat::Rgba, KittyImageFormat::Rgb] {
        for len in [0, 1, 5, 7] {
            let mut placed = placement(format, 2, 1, vec![9; len]);
            assert!(decode_placement_rgba(&mut placed).is_none());
            assert_eq!(placed.placement.data, vec![9; len]);
        }
    }
    let mut huge = placement(KittyImageFormat::Rgba, u32::MAX, u32::MAX, vec![9; 4]);
    assert!(decode_placement_rgba(&mut huge).is_none());
    assert_eq!(huge.placement.data, vec![9; 4]);
}

#[test]
fn png_data_is_decoded_to_rgba() {
    let pixels = vec![255, 0, 0, 255, 0, 255, 0, 128, 0, 0, 255, 0, 9, 8, 7, 6];
    let picture = image::RgbaImage::from_raw(2, 2, pixels.clone()).unwrap();
    let stream = png(image::DynamicImage::ImageRgba8(picture));
    let mut placed = placement(KittyImageFormat::Png, 2, 2, stream);
    let decoded = decode_placement_rgba(&mut placed).unwrap();
    assert_eq!((decoded.width, decoded.height), (2, 2));
    assert_eq!(decoded.data, pixels);
    assert!(placed.placement.data.is_empty());
}

#[test]
fn png_data_without_alpha_becomes_opaque() {
    let rgb = image::RgbImage::from_raw(2, 1, vec![1, 2, 3, 4, 5, 6]).unwrap();
    let stream = png(image::DynamicImage::ImageRgb8(rgb));
    let decoded =
        decode_placement_rgba(&mut placement(KittyImageFormat::Png, 2, 1, stream)).unwrap();
    assert_eq!(decoded.data, vec![1, 2, 3, 255, 4, 5, 6, 255]);

    let gray = image::GrayImage::from_raw(2, 1, vec![0, 200]).unwrap();
    let stream = png(image::DynamicImage::ImageLuma8(gray));
    let decoded =
        decode_placement_rgba(&mut placement(KittyImageFormat::Png, 2, 1, stream)).unwrap();
    assert_eq!(decoded.data, vec![0, 0, 0, 255, 200, 200, 200, 255]);
}

#[test]
fn png_data_of_another_size_is_refused_and_spent() {
    let picture = image::RgbaImage::from_raw(1, 1, vec![1, 2, 3, 4]).unwrap();
    let stream = png(image::DynamicImage::ImageRgba8(picture));
    let mut placed = placement(KittyImageFormat::Png, 1, 2, stream);
    assert!(decode_placement_rgba(&mut placed).is_none());
    assert!(placed.placement.data.is_empty());
}

#[test]
fn broken_png_data_is_refused_and_spent() {
    for data in [vec![], vec![0; 40], b"\x89PNG\r\n\x1a\n".to_vec()] {
        let mut placed = placement(KittyImageFormat::Png, 1, 1, data);
        assert!(decode_placement_rgba(&mut placed).is_none());
        assert!(placed.placement.data.is_empty());
    }
}

#[test]
fn pictures_are_kept_only_at_the_announced_size() {
    let picture = || DecodedRgba {
        width: 1,
        height: 1,
        data: vec![1, 2, 3, 4],
    };
    let kept = sized_png(Some(picture()), 1, 1).unwrap();
    assert_eq!((kept.width, kept.height), (1, 1));
    assert_eq!(kept.data, vec![1, 2, 3, 4]);
    assert!(sized_png(Some(picture()), 2, 1).is_none());
    assert!(sized_png(Some(picture()), 1, 2).is_none());
    assert!(sized_png(None, 1, 1).is_none());
}
