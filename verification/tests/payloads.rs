use sixel_graphics::cache::append_positioned_payload;
use sixel_graphics::payload::{append_sixel_cursor, encode_sixel_payload};
use sixel_graphics::pixels::DecodedRgba;
use sixel_graphics::placement::{
    ClippedPlacement, HostPlacement, KittyImageFormat, KittyImagePlacement,
    KittyPlacementRenderInfo, Rect,
};
use sixel_graphics::protocol::{sixel_cell_size, HostCellSize};

fn placement(cell_size: HostCellSize) -> HostPlacement {
    HostPlacement {
        area: Rect::new(0, 0, 20, 10),
        cell_size,
        placement: KittyImagePlacement {
            image_id: 1,
            placement_id: 1,
            z: 0,
            x_offset: 0,
            y_offset: 0,
            image_width: 2,
            image_height: 1,
            format: KittyImageFormat::Rgba,
            data_len: 8,
            data_fingerprint: 1,
            data: vec![],
            render: KittyPlacementRenderInfo {
                pixel_width: 0,
                pixel_height: 0,
                grid_cols: 1,
                grid_rows: 1,
                viewport_col: 0,
                viewport_row: 0,
                source_x: 0,
                source_y: 0,
                source_width: 0,
                source_height: 0,
            },
        },
    }
}

fn red_and_green() -> DecodedRgba {
    DecodedRgba {
        width: 2,
        height: 1,
        data: vec![255, 0, 0, 255, 0, 255, 0, 255],
    }
}

fn one_cell() -> ClippedPlacement {
    ClippedPlacement {
        x: 0,
        y: 0,
        cols: 1,
        rows: 1,
        source_x: 0,
        source_y: 0,
        source_width: 2,
        source_height: 1,
        x_offset: 0,
        y_offset: 0,
    }
}

fn encoded(rgba: &[u8], width: usize, height: usize) -> Vec<u8> {
    icy_sixel::sixel_encode(rgba, width, height, &icy_sixel::EncodeOptions::default())
        .unwrap()
        .into_bytes()
}

#[test]
fn cursor_positions_count_from_one() {
    for (x, y, expected) in [
        (0, 0, "\x1b[1;1H"),
        (9, 8, "\x1b[9;10H"),
        (131_069, 99, "\x1b[100;131070H"),
        (u32::MAX - 1, 12_344, "\x1b[12345;4294967295H"),
    ] {
        let mut bytes = b"before".to_vec();
        append_sixel_cursor(
            &mut bytes,
            ClippedPlacement {
                x,
                y,
                ..one_cell()
            },
        );
        assert_eq!(bytes, [b"before", expected.as_bytes()].concat());
    }
}

#[test]
fn payloads_follow_their_cursor() {
    let mut bytes = b"+".to_vec();
    append_positioned_payload(
        &mut bytes,
        ClippedPlacement {
            x: 4,
            y: 2,
            ..one_cell()
        },
        &b"payload".to_vec(),
    );
    assert_eq!(bytes, b"+\x1b[3;5Hpayload");
}

#[test]
fn a_payload_is_the_encoded_raster() {
    let payload =
        encode_sixel_payload(&placement(sixel_cell_size()), one_cell(), &red_and_green()).unwrap();
    // Ten by twenty pixels: five red and five green ones in every row.
    let row = [[255, 0, 0, 255].repeat(5), [0, 255, 0, 255].repeat(5)].concat();
    assert_eq!(payload, encoded(&row.repeat(20), 10, 20));
    assert!(payload.starts_with(b"\x1bP9;1;0q"));
    assert!(payload.ends_with(b"\x1b\\"));
}

#[test]
fn a_payload_keeps_its_partial_band() {
    let cell = HostCellSize {
        width_px: 3,
        height_px: 7,
    };
    let mut picture = red_and_green();
    picture.data = [9, 8, 7, 255].repeat(2);
    let payload = encode_sixel_payload(&placement(cell), one_cell(), &picture).unwrap();
    assert_eq!(payload, encoded(&[9, 8, 7, 255].repeat(21), 3, 7));
    assert!(String::from_utf8(payload).unwrap().contains(";3;7"));
}

#[test]
fn padding_moves_the_content_inside_the_raster() {
    let cell = HostCellSize {
        width_px: 4,
        height_px: 2,
    };
    let padded = ClippedPlacement {
        x_offset: 2,
        y_offset: 1,
        ..one_cell()
    };
    let payload = encode_sixel_payload(&placement(cell), padded, &red_and_green()).unwrap();
    let raster = [vec![0; 24], vec![255, 0, 0, 255, 0, 255, 0, 255]].concat();
    assert_eq!(payload, encoded(&raster, 4, 2));
}

#[test]
fn padding_beyond_the_raster_leaves_nothing_to_see() {
    let cell = HostCellSize {
        width_px: 4,
        height_px: 2,
    };
    let hidden = ClippedPlacement {
        x_offset: 40,
        ..one_cell()
    };
    let payload = encode_sixel_payload(&placement(cell), hidden, &red_and_green()).unwrap();
    assert_eq!(payload, encoded(&[0; 32], 4, 2));
}

#[test]
fn a_payload_does_not_depend_on_the_position() {
    let here = placement(sixel_cell_size());
    let moved = ClippedPlacement {
        x: 77,
        y: 88,
        ..one_cell()
    };
    assert_eq!(
        encode_sixel_payload(&here, moved, &red_and_green()),
        encode_sixel_payload(&here, one_cell(), &red_and_green())
    );
}

#[test]
fn a_crop_outside_the_image_has_no_payload() {
    let here = placement(sixel_cell_size());
    for outside in [
        ClippedPlacement {
            source_x: 1,
            ..one_cell()
        },
        ClippedPlacement {
            source_height: 2,
            ..one_cell()
        },
        ClippedPlacement {
            source_x: u32::MAX,
            ..one_cell()
        },
        ClippedPlacement {
            source_y: u32::MAX,
            ..one_cell()
        },
    ] {
        assert_eq!(
            encode_sixel_payload(&here, outside, &red_and_green()),
            None
        );
    }
}

#[test]
fn a_raster_without_pixels_has_no_payload() {
    for (width_px, height_px) in [(0, 20), (10, 0), (0, 0)] {
        let here = placement(HostCellSize {
            width_px,
            height_px,
        });
        assert_eq!(
            encode_sixel_payload(&here, one_cell(), &red_and_green()),
            None
        );
    }
}

#[test]
fn a_raster_beyond_the_number_range_has_no_payload() {
    let here = placement(sixel_cell_size());
    for huge in [
        ClippedPlacement {
            cols: u32::MAX,
            ..one_cell()
        },
        ClippedPlacement {
            rows: u32::MAX,
            ..one_cell()
        },
    ] {
        assert_eq!(encode_sixel_payload(&here, huge, &red_and_green()), None);
    }
}

#[test]
fn a_raster_beyond_the_encoder_has_no_payload() {
    let wide = placement(HostCellSize {
        width_px: 1_000_001,
        height_px: 1,
    });
    assert_eq!(
        encode_sixel_payload(&wide, one_cell(), &red_and_green()),
        None
    );
    // 999_997 rows make 166_667 bands, 1_000_002 rows high.
    let tall = placement(HostCellSize {
        width_px: 1,
        height_px: 999_997,
    });
    assert_eq!(
        encode_sixel_payload(&tall, one_cell(), &red_and_green()),
        None
    );
}

#[test]
fn a_raster_that_cannot_be_addressed_has_no_payload() {
    let announced = DecodedRgba {
        width: u32::MAX,
        height: u32::MAX,
        data: vec![255; 4],
    };
    let far = ClippedPlacement {
        source_y: 1 << 31,
        source_width: 1,
        ..one_cell()
    };
    assert_eq!(
        encode_sixel_payload(&placement(sixel_cell_size()), far, &announced),
        None
    );
}
