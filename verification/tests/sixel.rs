use std::io::{self, Write};

use sixel_graphics::cache::{encode_sixel_placements, SixelGraphicsCache};
use sixel_graphics::clip::clipped_sixel_placement;
use sixel_graphics::pixels::DecodedRgba;
use sixel_graphics::placement::{
    HostPlacement, KittyImageFormat, KittyImagePlacement, KittyPlacementRenderInfo, Rect,
};
use sixel_graphics::protocol::{
    host_graphics_protocol_for_env, sixel_cell_size, write_host_output, HostCellSize,
    HostEnvironment, HostGraphicsProtocol, SIXEL_WRITE_CHUNK_BYTES,
};
use sixel_graphics::resample::crop_scale_rgba;

fn test_placement(viewport_col: i32, viewport_row: i32) -> HostPlacement {
    HostPlacement {
        area: Rect::new(0, 0, 20, 10),
        cell_size: sixel_cell_size(),
        placement: KittyImagePlacement {
            image_id: 7,
            placement_id: 3,
            z: 0,
            x_offset: 0,
            y_offset: 0,
            image_width: 30,
            image_height: 30,
            format: KittyImageFormat::Rgba,
            data_len: 30 * 30 * 4,
            data_fingerprint: 42,
            data: vec![255; 30 * 30 * 4],
            render: KittyPlacementRenderInfo {
                pixel_width: 0,
                pixel_height: 0,
                grid_cols: 3,
                grid_rows: 3,
                viewport_col,
                viewport_row,
                source_x: 0,
                source_y: 0,
                source_width: 0,
                source_height: 0,
            },
        },
    }
}

/// What the variables that `env` answers for say about the terminal.
fn environment(env: impl Fn(&str) -> Option<String>) -> HostEnvironment {
    HostEnvironment {
        term_program: env("TERM_PROGRAM"),
        kitty_window_id: env("KITTY_WINDOW_ID").is_some(),
        ghostty_resources_dir: env("GHOSTTY_RESOURCES_DIR").is_some(),
        wezterm_pane: env("WEZTERM_PANE").is_some(),
        wt_session: env("WT_SESSION").is_some(),
    }
}

#[derive(Default)]
struct RecordingWriter {
    bytes: Vec<u8>,
    writes: Vec<usize>,
}

impl Write for RecordingWriter {
    fn write(&mut self, buf: &[u8]) -> io::Result<usize> {
        self.writes.push(buf.len());
        self.bytes.extend_from_slice(buf);
        Ok(buf.len())
    }

    fn flush(&mut self) -> io::Result<()> {
        Ok(())
    }
}

#[test]
fn windows_terminal_selects_sixel_host_output() {
    let env = |name: &str| match name {
        "WT_SESSION" => Some(String::from("session")),
        _ => None,
    };

    assert_eq!(
        host_graphics_protocol_for_env(true, &environment(env)),
        HostGraphicsProtocol::Sixel
    );
    assert_eq!(
        host_graphics_protocol_for_env(false, &environment(|_| None)),
        HostGraphicsProtocol::Disabled
    );
}

#[test]
fn kitty_hosts_keep_the_kitty_protocol() {
    for (name, value) in [
        ("KITTY_WINDOW_ID", "1"),
        ("GHOSTTY_RESOURCES_DIR", "/ghostty"),
        ("WEZTERM_PANE", "0"),
        ("TERM_PROGRAM", "WezTerm"),
    ] {
        let env = |requested: &str| {
            if requested == name {
                Some(String::from(value))
            } else {
                None
            }
        };
        assert_eq!(
            host_graphics_protocol_for_env(true, &environment(env)),
            HostGraphicsProtocol::Kitty,
            "{name} should stay on Kitty"
        );
    }
}

#[test]
fn sixel_hosts_report_the_virtual_cell_grid() {
    let protocol = HostGraphicsProtocol::Sixel;
    let reported = HostCellSize {
        width_px: 8,
        height_px: 16,
    };

    assert_eq!(protocol.cell_size(reported), sixel_cell_size());
    assert_eq!(HostGraphicsProtocol::Kitty.cell_size(reported), reported);
}

#[test]
fn sixel_output_uses_bounded_terminal_writes() {
    let bytes = vec![b'x'; SIXEL_WRITE_CHUNK_BYTES * 2 + 7];
    let mut writer = RecordingWriter::default();

    for write in write_host_output(HostGraphicsProtocol::Sixel, &bytes) {
        writer.write_all(write).unwrap();
    }

    assert_eq!(writer.bytes, bytes);
    assert_eq!(
        writer.writes,
        vec![SIXEL_WRITE_CHUNK_BYTES, SIXEL_WRITE_CHUNK_BYTES, 7]
    );
}

#[test]
fn sixel_downsampling_preserves_thin_strokes() {
    let source = DecodedRgba {
        width: 8,
        height: 8,
        data: (0..64)
            .flat_map(|i| {
                let value = if (i % 8 + i / 8) % 2 == 0 { 0 } else { 255 };
                [value, value, value, 255]
            })
            .collect(),
    };
    let mut placement = test_placement(0, 0);
    placement.cell_size = HostCellSize {
        width_px: 10,
        height_px: 10,
    };
    let (mut clipped, _) = clipped_sixel_placement(&placement, None).expect("clipped placement");
    clipped.source_width = 8;
    clipped.source_height = 8;

    let rgba = crop_scale_rgba(&source, clipped, 2, 2, 0, 0).unwrap();

    assert_eq!(rgba, [128, 128, 128, 255].repeat(4));
}

#[test]
fn sixel_placement_encodes_cursor_and_visible_pixel_geometry() {
    let mut placement = test_placement(2, 1);
    let mut cache = SixelGraphicsCache::default();

    let encoded = encode_sixel_placements(std::slice::from_mut(&mut placement), None, &mut cache);

    let text = String::from_utf8_lossy(&encoded);
    assert!(text.starts_with("\u{1b}[2;3H\u{1b}P"), "{text:?}");
    assert!(text.contains("q"), "{text:?}");
}

#[test]
fn sixel_placement_leaves_the_host_terminal_bottom_row_unused() {
    // A host with rows 0..=9 passes its last usable row as `safe_bottom`.
    // The image starts at row 7, so row 9 must stay unpainted.
    let place_at_bottom = |safe_bottom: Option<u16>| {
        let mut placement = test_placement(0, 0);
        placement.area = Rect::new(0, 7, 20, 10);
        let mut cache = SixelGraphicsCache::default();
        let encoded = encode_sixel_placements(
            std::slice::from_mut(&mut placement),
            safe_bottom,
            &mut cache,
        );
        let (clipped, _) = clipped_sixel_placement(&placement, safe_bottom).expect("clipped");
        (clipped.rows, clipped.y, encoded)
    };

    let (unclipped_rows, _, _) = place_at_bottom(None);
    let (clipped_rows, cursor_row, encoded) = place_at_bottom(Some(9));

    assert_eq!(unclipped_rows, 3);
    assert_eq!(clipped_rows, 2, "the bottom host row stays unused");
    assert_eq!(cursor_row, 7);
    assert!(String::from_utf8_lossy(&encoded).starts_with("\u{1b}[8;1H"));
}

#[test]
fn sixel_cache_reuses_a_payload_when_only_the_position_changes() {
    let mut placement = test_placement(0, 0);
    let mut cache = SixelGraphicsCache::default();
    let first = encode_sixel_placements(std::slice::from_mut(&mut placement), None, &mut cache);
    assert_eq!(cache.payloads.len(), 1);

    // A scrolled row reuses the same crop under a new screen position.
    let mut moved = test_placement(0, 0);
    moved.area = Rect::new(0, 1, 20, 10);
    let second = encode_sixel_placements(std::slice::from_mut(&mut moved), None, &mut cache);

    assert_eq!(cache.payloads.len(), 1);
    assert_ne!(first, second, "cursor row must follow the placement");
    assert_eq!(
        first.strip_prefix(b"\x1b[1;1H"),
        second.strip_prefix(b"\x1b[2;1H")
    );
}

#[test]
fn sixel_cache_reencodes_changed_image_content() {
    let mut placement = test_placement(0, 0);
    let mut cache = SixelGraphicsCache::default();
    let first = encode_sixel_placements(std::slice::from_mut(&mut placement), None, &mut cache);

    let mut changed = test_placement(0, 0);
    changed.placement.data_fingerprint = 43;
    changed.placement.data = vec![0; 30 * 30 * 4];
    let second = encode_sixel_placements(std::slice::from_mut(&mut changed), None, &mut cache);

    assert_ne!(first, second);
    assert_eq!(cache.payloads.len(), 1, "stale payloads are pruned");
}
