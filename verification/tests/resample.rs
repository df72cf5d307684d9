use sixel_graphics::coverage::footprint;
use sixel_graphics::pixels::DecodedRgba;
use sixel_graphics::placement::ClippedPlacement;
use sixel_graphics::resample::crop_scale_rgba;

fn crop(source_x: u32, source_y: u32, source_width: u32, source_height: u32) -> ClippedPlacement {
    ClippedPlacement {
        x: 0,
        y: 0,
        cols: 1,
        rows: 1,
        source_x,
        source_y,
        source_width,
        source_height,
        x_offset: 0,
        y_offset: 0,
    }
}

fn picture(width: u32, height: u32, pixels: &[[u8; 4]]) -> DecodedRgba {
    DecodedRgba {
        width,
        height,
        data: pixels.concat(),
    }
}

const RED: [u8; 4] = [255, 0, 0, 255];
const GREEN: [u8; 4] = [0, 255, 0, 255];
const BLUE: [u8; 4] = [0, 0, 255, 255];
const CLEAR: [u8; 4] = [0, 0, 0, 0];

#[test]
fn upscaling_copies_the_nearest_pixel() {
    let source = picture(2, 1, &[RED, GREEN]);
    let target = crop_scale_rgba(&source, crop(0, 0, 2, 1), 5, 2, 0, 0).unwrap();
    // Pixel x comes from x * 2 / 5.
    let row = [RED, RED, RED, GREEN, GREEN].concat();
    assert_eq!(target, row.repeat(2));
}

#[test]
fn own_size_copies_the_crop() {
    let source = picture(
        3,
        2,
        &[RED, GREEN, BLUE, CLEAR, [1, 2, 3, 4], [5, 6, 7, 0]],
    );
    let target = crop_scale_rgba(&source, crop(1, 0, 2, 2), 2, 2, 0, 0).unwrap();
    assert_eq!(
        target,
        [GREEN, BLUE, [1, 2, 3, 4], [5, 6, 7, 0]].concat()
    );
}

#[test]
fn padding_is_transparent() {
    let source = picture(1, 1, &[RED]);
    let target = crop_scale_rgba(&source, crop(0, 0, 1, 1), 3, 2, 1, 1).unwrap();
    assert_eq!(target, [CLEAR, CLEAR, CLEAR, CLEAR, RED, RED].concat());
}

#[test]
fn padding_that_covers_the_target_leaves_it_transparent() {
    let source = picture(1, 1, &[RED]);
    for (x_offset, y_offset) in [(2, 0), (0, 2), (9, 9)] {
        let target = crop_scale_rgba(&source, crop(0, 0, 1, 1), 2, 2, x_offset, y_offset).unwrap();
        assert_eq!(target, vec![0; 16]);
    }
}

#[test]
fn fractional_downscaling_weighs_shared_pixels() {
    let source = picture(
        3,
        1,
        &[[10, 0, 0, 255], [40, 0, 0, 255], [100, 0, 0, 255]],
    );
    let target = crop_scale_rgba(&source, crop(0, 0, 3, 1), 2, 1, 0, 0).unwrap();
    // (2 * 10 + 40) / 3 and (40 + 2 * 100) / 3.
    assert_eq!(target, vec![20, 0, 0, 255, 80, 0, 0, 255]);
}

#[test]
fn transparent_pixels_do_not_bleed_into_color() {
    let source = picture(2, 1, &[RED, [0, 255, 0, 0]]);
    let target = crop_scale_rgba(&source, crop(0, 0, 2, 1), 1, 1, 0, 0).unwrap();
    // Half of 255 is rounded up.
    assert_eq!(target, vec![255, 0, 0, 128]);
}

#[test]
fn color_is_weighted_by_alpha() {
    let source = picture(2, 1, &[[200, 0, 10, 100], [100, 0, 20, 50]]);
    let target = crop_scale_rgba(&source, crop(0, 0, 2, 1), 1, 1, 0, 0).unwrap();
    // (200 * 100 + 100 * 50) / 150 = 166.67, (10 * 100 + 20 * 50) / 150 = 13.3, 150 / 2.
    assert_eq!(target, vec![167, 0, 13, 75]);
}

#[test]
fn averages_without_visible_pixels_are_transparent_black() {
    let source = picture(2, 2, &[[9, 9, 9, 0]; 4]);
    let target = crop_scale_rgba(&source, crop(0, 0, 2, 2), 1, 1, 0, 0).unwrap();
    assert_eq!(target, CLEAR.to_vec());
}

#[test]
fn one_axis_may_shrink_while_the_other_grows() {
    let source = picture(2, 1, &[[0, 0, 0, 255], [100, 0, 0, 255]]);
    let target = crop_scale_rgba(&source, crop(0, 0, 2, 1), 1, 2, 0, 0).unwrap();
    assert_eq!(target, [50, 0, 0, 255].repeat(2));
}

#[test]
fn one_color_survives_every_size() {
    let source = picture(4, 4, &[[7, 8, 9, 200]; 16]);
    for (width, height) in [(1, 1), (3, 2), (2, 5), (4, 4), (9, 7)] {
        let target = crop_scale_rgba(&source, crop(0, 0, 4, 4), width, height, 0, 0).unwrap();
        assert_eq!(target, [7, 8, 9, 200].repeat((width * height) as usize));
    }
}

#[test]
fn a_thin_stroke_leaves_a_trace_wherever_it_is() {
    for stroke in 0..11 {
        let mut data = [0, 0, 0, 255].repeat(11);
        data[stroke * 4] = 255;
        let source = DecodedRgba {
            width: 11,
            height: 1,
            data,
        };
        let target = crop_scale_rgba(&source, crop(0, 0, 11, 1), 4, 1, 0, 0).unwrap();
        assert!(target.chunks(4).any(|pixel| pixel[0] > 0), "{stroke}");
    }
}

#[test]
fn a_target_beyond_memory_is_refused() {
    let source = picture(1, 1, &[RED]);
    assert_eq!(
        crop_scale_rgba(&source, crop(0, 0, 1, 1), u32::MAX, u32::MAX, 0, 0),
        None
    );
}

#[test]
fn an_empty_target_is_empty() {
    let source = picture(1, 1, &[RED]);
    assert_eq!(
        crop_scale_rgba(&source, crop(0, 0, 1, 1), 0, 3, 0, 0),
        Some(vec![])
    );
}

#[test]
fn footprints_cover_each_pixel_once() {
    for (source_len, dest_len) in [(8, 2), (3, 2), (7, 3), (5, 5), (2, 5), (1, 4)] {
        let mut spread = vec![0; source_len as usize];
        for dest in 0..dest_len {
            let covered = footprint(dest, source_len, dest_len);
            assert_eq!(
                covered.weights.iter().sum::<u64>(),
                u64::from(source_len)
            );
            for (i, weight) in covered.weights.iter().enumerate() {
                spread[covered.first as usize + i] += weight;
            }
        }
        assert_eq!(spread, vec![u64::from(dest_len); source_len as usize]);
    }
    let middle = footprint(1, 7, 3);
    assert_eq!((middle.first, middle.weights), (2, vec![2, 3, 2]));
}

#[test]
fn pixels_outside_the_crop_do_not_matter() {
    let one = picture(3, 2, &[RED, GREEN, BLUE, CLEAR, [1, 2, 3, 4], [5, 6, 7, 8]]);
    let other = picture(3, 2, &[BLUE, GREEN, BLUE, RED, [1, 2, 3, 4], [5, 6, 7, 8]]);
    for (width, height) in [(1, 1), (2, 2), (5, 3)] {
        assert_eq!(
            crop_scale_rgba(&one, crop(1, 0, 2, 2), width, height, 0, 0),
            crop_scale_rgba(&other, crop(1, 0, 2, 2), width, height, 0, 0)
        );
    }
}

#[test]
fn a_crop_that_cannot_be_addressed_has_no_target() {
    let mut source = picture(1, 1, &[RED]);
    source.width = u32::MAX;
    // Row 2^31 of rows of almost 2^34 bytes starts beyond 2^64 bytes.
    assert_eq!(
        crop_scale_rgba(&source, crop(0, 1 << 31, 1, 1), 2, 2, 1, 1),
        None
    );
    // Nothing is addressed where there is nothing to copy.
    assert_eq!(
        crop_scale_rgba(&source, crop(0, 1 << 31, 1, 1), 1, 1, 1, 0),
        Some(vec![0; 4])
    );
}

#[test]
fn equal_crops_at_different_places_look_alike() {
    let one = picture(3, 1, &[RED, [1, 2, 3, 4], [5, 6, 7, 8]]);
    let other = picture(2, 3, &[GREEN, BLUE, [1, 2, 3, 4], [5, 6, 7, 8], CLEAR, RED]);
    for (width, height) in [(1, 1), (2, 1), (5, 3)] {
        let target = crop_scale_rgba(&one, crop(1, 0, 2, 1), width, height, 0, 0);
        assert!(target.is_some());
        assert_eq!(
            target,
            crop_scale_rgba(&other, crop(0, 1, 2, 1), width, height, 0, 0)
        );
    }
}
