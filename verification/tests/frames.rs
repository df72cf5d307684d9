use sixel_graphics::cache::{
    append_cached_sixel_placement, encode_sixel_placements, SixelGraphicsCache,
};
use sixel_graphics::clip::{clipped_sixel_placement, kitty_format_code};
use sixel_graphics::order::paint_order_of;
use sixel_graphics::placement::{
    HostPlacement, KittyImageFormat, KittyImagePlacement, KittyPlacementRenderInfo, Rect,
};
use sixel_graphics::protocol::{sixel_cell_size, HostCellSize};
use sixel_graphics::signature::image_signature;

/// A picture of one color, two cells wide and one cell high.
fn placement(area: Rect, fingerprint: u64, color: [u8; 4]) -> HostPlacement {
    HostPlacement {
        area,
        cell_size: sixel_cell_size(),
        placement: KittyImagePlacement {
            image_id: 7,
            placement_id: 3,
            z: 0,
            x_offset: 0,
            y_offset: 0,
            image_width: 4,
            image_height: 4,
            format: KittyImageFormat::Rgba,
            data_len: 64,
            data_fingerprint: fingerprint,
            data: color.repeat(16),
            render: KittyPlacementRenderInfo {
                pixel_width: 0,
                pixel_height: 0,
                grid_cols: 2,
                grid_rows: 1,
                viewport_col: 0,
                viewport_row: 0,
                source_x: 0,
                source_y: 0,
                source_width: 0,
                source_height: 0,
            },
        },
    }
}

const RED: [u8; 4] = [255, 0, 0, 255];
const BLUE: [u8; 4] = [0, 0, 255, 255];

fn stream(color: [u8; 4]) -> Vec<u8> {
    icy_sixel::sixel_encode(
        &color.repeat(400),
        20,
        20,
        &icy_sixel::EncodeOptions::default(),
    )
    .unwrap()
    .into_bytes()
}

fn at(cursor: &str, payload: &[u8]) -> Vec<u8> {
    [cursor.as_bytes(), payload].concat()
}

#[test]
fn an_empty_frame_paints_nothing_and_forgets_everything() {
    let mut cache = SixelGraphicsCache::default();
    let mut frame = [placement(Rect::new(0, 0, 20, 10), 1, RED)];
    encode_sixel_placements(&mut frame, None, &mut cache);
    assert_eq!((cache.images.len(), cache.payloads.len()), (1, 1));
    assert!(encode_sixel_placements(&mut [], None, &mut cache).is_empty());
    assert_eq!((cache.images.len(), cache.payloads.len()), (0, 0));
}

#[test]
fn a_frame_is_its_positioned_payloads() {
    let mut cache = SixelGraphicsCache::default();
    let mut frame = [
        placement(Rect::new(0, 0, 20, 5), 1, RED),
        placement(Rect::new(3, 6, 20, 9), 2, BLUE),
    ];
    let bytes = encode_sixel_placements(&mut frame, None, &mut cache);
    // The taller pane comes first.
    assert_eq!(
        bytes,
        [
            at("\x1b[7;4H", &stream(BLUE)),
            at("\x1b[1;1H", &stream(RED))
        ]
        .concat()
    );
    assert_eq!((cache.images.len(), cache.payloads.len()), (2, 2));
    assert!(frame.iter().all(|p| p.placement.data.is_empty()));
}

#[test]
fn painting_goes_from_tall_and_wide_to_small() {
    let areas = [(5, 5), (9, 2), (5, 8), (5, 5), (9, 3), (0, 0)];
    let frame: Vec<HostPlacement> = areas
        .iter()
        .map(|&(height, width)| placement(Rect::new(0, 0, width, height), 1, RED))
        .collect();
    assert_eq!(paint_order_of(&frame), vec![4, 1, 2, 0, 3, 5]);
    assert_eq!(paint_order_of(&[]), Vec::<usize>::new());
}

#[test]
fn a_row_without_data_borrows_the_picture_of_a_later_one() {
    let mut cache = SixelGraphicsCache::default();
    let mut frame = [
        placement(Rect::new(0, 0, 20, 9), 1, RED),
        placement(Rect::new(0, 5, 20, 3), 1, RED),
    ];
    frame[0].placement.data.clear();
    let bytes = encode_sixel_placements(&mut frame, None, &mut cache);
    let payload = stream(RED);
    assert_eq!(
        bytes,
        [at("\x1b[1;1H", &payload), at("\x1b[6;1H", &payload)].concat()
    );
    assert_eq!((cache.images.len(), cache.payloads.len()), (1, 1));
}

#[test]
fn a_picture_is_decoded_once() {
    let mut cache = SixelGraphicsCache::default();
    let mut frame = [
        placement(Rect::new(0, 0, 20, 9), 1, RED),
        placement(Rect::new(0, 5, 20, 3), 1, RED),
    ];
    encode_sixel_placements(&mut frame, None, &mut cache);
    assert!(frame[0].placement.data.is_empty());
    assert_eq!(frame[1].placement.data, RED.repeat(16));
}

#[test]
fn a_picture_outlives_the_data_it_came_with() {
    let mut cache = SixelGraphicsCache::default();
    let mut frame = [placement(Rect::new(0, 0, 20, 9), 1, RED)];
    let first = encode_sixel_placements(&mut frame, None, &mut cache);
    assert!(frame[0].placement.data.is_empty());
    assert_eq!(encode_sixel_placements(&mut frame, None, &mut cache), first);
    // Another crop of the picture has to be encoded from the kept pixels.
    frame[0].placement.render.source_width = 2;
    let cropped = encode_sixel_placements(&mut frame, None, &mut cache);
    assert_eq!(cropped, at("\x1b[1;1H", &stream(RED)));
    assert_eq!((cache.images.len(), cache.payloads.len()), (1, 1));
}

#[test]
fn a_cleared_cache_has_forgotten_the_picture() {
    let mut cache = SixelGraphicsCache::default();
    let mut frame = [placement(Rect::new(0, 0, 20, 9), 1, RED)];
    encode_sixel_placements(&mut frame, None, &mut cache);
    cache.clear();
    assert_eq!((cache.images.len(), cache.payloads.len()), (0, 0));
    assert!(encode_sixel_placements(&mut frame, None, &mut cache).is_empty());
}

#[test]
fn what_is_hidden_is_not_kept() {
    let mut cache = SixelGraphicsCache::default();
    let mut frame = [placement(Rect::new(0, 9, 20, 9), 1, RED)];
    assert!(encode_sixel_placements(&mut frame, Some(9), &mut cache).is_empty());
    assert!(frame[0].placement.data.is_empty());
    assert_eq!((cache.images.len(), cache.payloads.len()), (0, 0));
}

#[test]
fn what_cannot_be_decoded_is_skipped() {
    let mut cache = SixelGraphicsCache::default();
    let mut frame = [
        placement(Rect::new(0, 0, 20, 9), 1, RED),
        placement(Rect::new(0, 5, 20, 3), 2, BLUE),
    ];
    frame[0].placement.data.pop();
    let bytes = encode_sixel_placements(&mut frame, None, &mut cache);
    assert_eq!(bytes, at("\x1b[6;1H", &stream(BLUE)));
    assert_eq!(frame[0].placement.data.len(), 63);
    assert_eq!((cache.images.len(), cache.payloads.len()), (1, 1));
}

#[test]
fn ids_do_not_change_what_is_painted() {
    let mut cache = SixelGraphicsCache::default();
    let mut frame = [placement(Rect::new(0, 0, 20, 9), 1, RED)];
    let first = encode_sixel_placements(&mut frame, None, &mut cache);
    frame[0].placement.image_id = 1234;
    frame[0].placement.placement_id = 5678;
    assert_eq!(encode_sixel_placements(&mut frame, None, &mut cache), first);
}

#[test]
fn moved_panes_move_the_cursor_alone() {
    let mut cache = SixelGraphicsCache::default();
    let mut frame = [placement(Rect::new(0, 0, 20, 9), 1, RED)];
    encode_sixel_placements(&mut frame, Some(40), &mut cache);
    frame[0].area = Rect::new(11, 22, 20, 9);
    assert_eq!(
        encode_sixel_placements(&mut frame, Some(40), &mut cache),
        at("\x1b[23;12H", &stream(RED))
    );
}

#[test]
fn a_placement_is_painted_once_and_reported() {
    let mut cache = SixelGraphicsCache::default();
    let mut bytes = b"frame:".to_vec();
    let mut red = placement(Rect::new(1, 2, 20, 9), 1, RED);
    let key = append_cached_sixel_placement(&mut bytes, &mut red, None, &mut cache).unwrap();
    assert_eq!(
        bytes,
        [b"frame:".to_vec(), at("\x1b[3;2H", &stream(RED))].concat()
    );
    let (clipped, code) = clipped_sixel_placement(&red, None).unwrap();
    assert_eq!(code, kitty_format_code(KittyImageFormat::Rgba));
    assert_eq!(key.image, image_signature(&red, code));
    assert_eq!((key.cols, key.rows), (clipped.cols, clipped.rows));
    assert_eq!(cache.payloads.get(&key), Some(&stream(RED)));
    assert_eq!(cache.images.get(&key.image).unwrap().data, RED.repeat(16));
}

#[test]
fn a_picture_that_cannot_be_encoded_is_still_stashed() {
    let mut cache = SixelGraphicsCache::default();
    let mut bytes = Vec::new();
    let mut flat = placement(Rect::new(0, 0, 20, 9), 1, RED);
    flat.cell_size = HostCellSize {
        width_px: 10,
        height_px: 0,
    };
    assert_eq!(
        append_cached_sixel_placement(&mut bytes, &mut flat, None, &mut cache),
        None
    );
    assert!(bytes.is_empty());
    assert!(flat.placement.data.is_empty());
    assert_eq!((cache.images.len(), cache.payloads.len()), (1, 0));
}

#[test]
fn the_cell_size_is_not_part_of_a_signature() {
    let mut cache = SixelGraphicsCache::default();
    let mut frame = [placement(Rect::new(0, 0, 20, 9), 1, RED)];
    let first = encode_sixel_placements(&mut frame, None, &mut cache);
    frame[0].cell_size = HostCellSize {
        width_px: 8,
        height_px: 16,
    };
    assert_eq!(encode_sixel_placements(&mut frame, None, &mut cache), first);
}

#[test]
fn a_frame_with_unpainted_placements_repeats() {
    let mut cache = SixelGraphicsCache::default();
    let mut frame = [
        placement(Rect::new(0, 0, 20, 9), 1, RED),
        placement(Rect::new(0, 5, 20, 3), 2, BLUE),
        placement(Rect::new(4, 5, 20, 2), 3, BLUE),
        placement(Rect::new(9, 9, 0, 0), 4, BLUE),
    ];
    frame[0].placement.data.pop();
    frame[2].placement.format = KittyImageFormat::Png;
    let first = encode_sixel_placements(&mut frame, None, &mut cache);
    assert_eq!(first, at("\x1b[6;1H", &stream(BLUE)));
    assert!(frame[2].placement.data.is_empty());
    assert_eq!(encode_sixel_placements(&mut frame, None, &mut cache), first);
    assert_eq!((cache.images.len(), cache.payloads.len()), (1, 1));
}

#[test]
fn cells_of_two_sizes_need_not_repeat() {
    let mut cache = SixelGraphicsCache::default();
    let mut frame = [
        placement(Rect::new(0, 0, 20, 9), 1, RED),
        placement(Rect::new(0, 5, 20, 3), 1, RED),
    ];
    frame[0].cell_size = HostCellSize {
        width_px: 10,
        height_px: 0,
    };
    let payload = stream(RED);
    assert_eq!(
        encode_sixel_placements(&mut frame, None, &mut cache),
        at("\x1b[6;1H", &payload)
    );
    assert_eq!(
        encode_sixel_placements(&mut frame, None, &mut cache),
        [at("\x1b[1;1H", &payload), at("\x1b[6;1H", &payload)].concat()
    );
}

#[test]
fn the_picture_of_a_painted_payload_is_kept() {
    let mut cache = SixelGraphicsCache::default();
    let mut frame = [
        placement(Rect::new(0, 0, 20, 9), 1, RED),
        placement(Rect::new(0, 5, 20, 3), 2, BLUE),
    ];
    frame[1].cell_size = HostCellSize {
        width_px: 3,
        height_px: 7,
    };
    encode_sixel_placements(&mut frame, None, &mut cache);
    for shown in &frame {
        let image = image_signature(shown, kitty_format_code(shown.placement.format));
        assert!(cache.images.get(&image).is_some());
    }
    assert_eq!((cache.images.len(), cache.payloads.len()), (2, 2));
}

#[test]
fn data_of_a_cached_picture_is_left_alone() {
    let mut cache = SixelGraphicsCache::default();
    let mut frame = [placement(Rect::new(0, 0, 20, 9), 1, RED)];
    encode_sixel_placements(&mut frame, None, &mut cache);
    frame[0].placement.data = RED.repeat(16);
    frame[0].placement.render.source_width = 2;
    encode_sixel_placements(&mut frame, None, &mut cache);
    assert_eq!(frame[0].placement.data, RED.repeat(16));
}

#[test]
fn cells_of_two_sizes_repeat_behind_one_that_is_encoded() {
    let mut cache = SixelGraphicsCache::default();
    let mut frame = [
        placement(Rect::new(0, 0, 20, 9), 1, RED),
        placement(Rect::new(0, 3, 20, 7), 1, RED),
        placement(Rect::new(0, 5, 20, 3), 1, RED),
    ];
    frame[1].cell_size = HostCellSize {
        width_px: 10,
        height_px: 0,
    };
    let payload = stream(RED);
    let first = encode_sixel_placements(&mut frame, None, &mut cache);
    assert_eq!(
        first,
        [
            at("\x1b[1;1H", &payload),
            at("\x1b[4;1H", &payload),
            at("\x1b[6;1H", &payload)
        ]
        .concat()
    );
    assert_eq!(encode_sixel_placements(&mut frame, None, &mut cache), first);
}

#[test]
fn changed_content_is_encoded_anew_and_the_former_dropped() {
    let mut cache = SixelGraphicsCache::default();
    let mut red = [placement(Rect::new(0, 0, 20, 9), 1, RED)];
    encode_sixel_placements(&mut red, None, &mut cache);
    let mut blue = [placement(Rect::new(0, 0, 20, 9), 2, BLUE)];
    assert_eq!(
        encode_sixel_placements(&mut blue, None, &mut cache),
        at("\x1b[1;1H", &stream(BLUE))
    );
    let stale = image_signature(&red[0], kitty_format_code(KittyImageFormat::Rgba));
    assert!(cache.images.get(&stale).is_none());
    assert_eq!((cache.images.len(), cache.payloads.len()), (1, 1));
}
