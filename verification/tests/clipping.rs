use sixel_graphics::clip::{
    clipped_placement_with_bottom_limit, clipped_sixel_placement, kitty_format_code,
};
use sixel_graphics::placement::{
    ClippedPlacement, HostPlacement, KittyImageFormat, KittyImagePlacement,
    KittyPlacementRenderInfo, Rect,
};
use sixel_graphics::protocol::sixel_cell_size;
use sixel_graphics::signature::{image_signature, ImageSignature};

fn placement(viewport_col: i32, viewport_row: i32) -> HostPlacement {
    HostPlacement {
        area: Rect::new(4, 6, 20, 10),
        cell_size: sixel_cell_size(),
        placement: KittyImagePlacement {
            image_id: 1,
            placement_id: 1,
            z: 0,
            x_offset: 3,
            y_offset: 5,
            image_width: 30,
            image_height: 60,
            format: KittyImageFormat::Rgba,
            data_len: 7200,
            data_fingerprint: 9,
            data: vec![],
            render: KittyPlacementRenderInfo {
                pixel_width: 0,
                pixel_height: 0,
                grid_cols: 3,
                grid_rows: 3,
                viewport_col,
                viewport_row,
                source_x: 0,
                source_y: 0,
                source_width: 0,
                source_height: 0,
            },
        },
    }
}

#[test]
fn a_fitting_placement_is_kept_whole() {
    let (clipped, code) = clipped_sixel_placement(&placement(2, 1), None).unwrap();
    assert_eq!(code, 32);
    assert_eq!(
        clipped,
        ClippedPlacement {
            x: 6,
            y: 7,
            cols: 3,
            rows: 3,
            source_x: 0,
            source_y: 0,
            source_width: 30,
            source_height: 60,
            x_offset: 3,
            y_offset: 5,
        }
    );
}

#[test]
fn cells_before_the_pane_are_cut_off_with_their_pixels() {
    let (clipped, _) = clipped_sixel_placement(&placement(-1, -2), None).unwrap();
    assert_eq!(
        clipped,
        ClippedPlacement {
            x: 4,
            y: 6,
            cols: 2,
            rows: 1,
            source_x: 10,
            source_y: 40,
            source_width: 20,
            source_height: 20,
            x_offset: 0,
            y_offset: 0,
        }
    );
}

#[test]
fn cells_behind_the_pane_are_cut_off_with_their_pixels() {
    let (clipped, _) = clipped_sixel_placement(&placement(18, 9), None).unwrap();
    assert_eq!((clipped.x, clipped.y), (22, 15));
    assert_eq!((clipped.cols, clipped.rows), (2, 1));
    assert_eq!((clipped.source_x, clipped.source_width), (0, 20));
    assert_eq!((clipped.source_y, clipped.source_height), (0, 20));
    assert_eq!((clipped.x_offset, clipped.y_offset), (3, 5));
}

#[test]
fn pixels_that_touch_a_visible_cell_are_shown() {
    let mut uneven = placement(-1, 0);
    uneven.placement.render.grid_cols = 4;
    uneven.area.width = 2;
    let (clipped, _) = clipped_sixel_placement(&uneven, None).unwrap();
    // Cells 1 and 2 of four, over 30 pixels: 7.5 to 22.5.
    assert_eq!((clipped.source_x, clipped.source_width), (7, 16));
}

#[test]
fn the_shown_part_ends_with_the_image() {
    let mut partial = placement(0, 0);
    partial.placement.render.source_x = 20;
    partial.placement.render.source_width = 100;
    partial.placement.render.source_y = 10;
    partial.placement.render.source_height = 9;
    let (clipped, _) = clipped_sixel_placement(&partial, None).unwrap();
    assert_eq!((clipped.source_x, clipped.source_width), (20, 10));
    assert_eq!((clipped.source_y, clipped.source_height), (10, 9));
}

#[test]
fn what_cannot_be_seen_is_left_out() {
    for (col, row) in [(-3, 0), (20, 0), (0, -3), (0, 10), (i32::MIN, i32::MAX)] {
        assert_eq!(clipped_sixel_placement(&placement(col, row), None), None);
    }
    let mut empty = placement(0, 0);
    empty.placement.render.grid_rows = 0;
    assert_eq!(clipped_sixel_placement(&empty, None), None);
    let mut outside = placement(0, 0);
    outside.placement.render.source_x = 30;
    assert_eq!(clipped_sixel_placement(&outside, None), None);
    let mut pixelless = placement(0, 0);
    pixelless.placement.image_height = 0;
    assert_eq!(clipped_sixel_placement(&pixelless, None), None);
}

#[test]
fn huge_placements_are_clipped_without_overflow() {
    let mut huge = placement(i32::MIN, 0);
    huge.placement.render.grid_cols = u32::MAX;
    huge.placement.image_width = u32::MAX;
    let (clipped, _) = clipped_sixel_placement(&huge, None).unwrap();
    assert_eq!((clipped.cols, clipped.source_x), (20, 1 << 31));
    assert_eq!(clipped.source_width, 20);
}

#[test]
fn rows_below_the_safe_bottom_are_left_out() {
    for (bottom, rows) in [(7, 1), (8, 2), (9, 3), (16, 3), (u16::MAX, 3)] {
        let (clipped, _) = clipped_sixel_placement(&placement(0, 0), Some(bottom)).unwrap();
        assert_eq!(clipped.rows, rows);
        assert!(clipped.y + clipped.rows <= u32::from(bottom));
    }
    for bottom in [0, 5, 6] {
        assert_eq!(clipped_sixel_placement(&placement(0, 0), Some(bottom)), None);
    }
    assert_eq!(
        clipped_placement_with_bottom_limit(&placement(0, 0), Some(8)),
        clipped_sixel_placement(&placement(0, 0), Some(8))
    );
}

#[test]
fn formats_have_their_kitty_codes() {
    assert_eq!(kitty_format_code(KittyImageFormat::Rgb), 24);
    assert_eq!(kitty_format_code(KittyImageFormat::Rgba), 32);
    assert_eq!(kitty_format_code(KittyImageFormat::Png), 100);
}

#[test]
fn signatures_tell_content_not_ids() {
    let mut first = placement(0, 0);
    let signature = image_signature(&first, 32);
    assert_eq!(
        signature,
        ImageSignature {
            format_code: 32,
            width: 30,
            height: 60,
            data_len: 7200,
            data_fingerprint: 9,
        }
    );
    first.placement.image_id = 77;
    first.placement.placement_id = 78;
    first.placement.data = vec![1, 2, 3];
    assert_eq!(image_signature(&first, 32), signature);
    first.placement.data_fingerprint = 10;
    assert_ne!(image_signature(&first, 32), signature);
}
