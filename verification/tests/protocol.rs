use sixel_graphics::protocol::{
    host_graphics_protocol_for_env, sixel_cell_size, write_host_output, HostCellSize,
    HostEnvironment, HostGraphicsProtocol, SIXEL_WRITE_CHUNK_BYTES,
};

fn windows_terminal(term_program: Option<&str>) -> HostEnvironment {
    HostEnvironment {
        term_program: term_program.map(String::from),
        kitty_window_id: false,
        ghostty_resources_dir: false,
        wezterm_pane: false,
        wt_session: true,
    }
}

#[test]
fn graphics_are_disabled_by_default() {
    assert_eq!(
        HostGraphicsProtocol::default(),
        HostGraphicsProtocol::Disabled
    );
    assert!(!HostGraphicsProtocol::Disabled.is_sixel());
    assert!(!HostGraphicsProtocol::Kitty.is_sixel());
    assert!(HostGraphicsProtocol::Sixel.is_sixel());
}

#[test]
fn disabled_graphics_ignore_the_environment() {
    assert_eq!(
        host_graphics_protocol_for_env(false, &windows_terminal(Some("kitty"))),
        HostGraphicsProtocol::Disabled
    );
}

#[test]
fn named_kitty_hosts_win_over_a_windows_terminal_session() {
    for name in ["kitty", "Kitty", "GHOSTTY", "ghostty", "WezTerm", "wezterm"] {
        assert_eq!(
            host_graphics_protocol_for_env(true, &windows_terminal(Some(name))),
            HostGraphicsProtocol::Kitty,
            "{name}"
        );
    }
}

#[test]
fn other_programs_do_not_hide_a_windows_terminal_session() {
    for name in ["", "vscode", "kittyx", "kitt", "k\u{131}tty", "\u{212a}itty"] {
        assert_eq!(
            host_graphics_protocol_for_env(true, &windows_terminal(Some(name))),
            HostGraphicsProtocol::Sixel,
            "{name}"
        );
    }
}

#[test]
fn unknown_hosts_get_the_kitty_protocol() {
    let mut env = windows_terminal(Some("xterm"));
    env.wt_session = false;
    assert_eq!(
        host_graphics_protocol_for_env(true, &env),
        HostGraphicsProtocol::Kitty
    );
}

#[test]
fn the_virtual_cell_is_ten_by_twenty() {
    assert_eq!(
        sixel_cell_size(),
        HostCellSize {
            width_px: 10,
            height_px: 20
        }
    );
    let reported = HostCellSize {
        width_px: 7,
        height_px: 9,
    };
    assert_eq!(HostGraphicsProtocol::Disabled.cell_size(reported), reported);
}

#[test]
fn other_hosts_get_one_write() {
    let bytes = vec![b'y'; SIXEL_WRITE_CHUNK_BYTES * 3];
    for protocol in [HostGraphicsProtocol::Kitty, HostGraphicsProtocol::Disabled] {
        assert_eq!(write_host_output(protocol, &bytes), vec![&bytes[..]]);
        let empty: &[u8] = &[];
        assert_eq!(write_host_output(protocol, empty), vec![empty]);
    }
}

#[test]
fn sixel_writes_join_to_the_output() {
    for len in [
        0,
        1,
        SIXEL_WRITE_CHUNK_BYTES - 1,
        SIXEL_WRITE_CHUNK_BYTES,
        SIXEL_WRITE_CHUNK_BYTES + 1,
        SIXEL_WRITE_CHUNK_BYTES * 2,
    ] {
        let bytes: Vec<u8> = (0..len).map(|i| (i % 251) as u8).collect();
        let writes = write_host_output(HostGraphicsProtocol::Sixel, &bytes);
        assert_eq!(writes.concat(), bytes);
        assert!(writes
            .iter()
            .all(|write| !write.is_empty() && write.len() <= SIXEL_WRITE_CHUNK_BYTES));
        assert_eq!(writes.len(), len.div_ceil(SIXEL_WRITE_CHUNK_BYTES));
    }
}

#[test]
fn every_mark_of_a_kitty_host_is_known() {
    assert!(!windows_terminal(None).is_known_kitty_host());
    assert!(!windows_terminal(Some("xterm")).is_known_kitty_host());
    assert!(windows_terminal(Some("Ghostty")).is_known_kitty_host());
    for mark in 0..3 {
        let mut env = windows_terminal(None);
        env.kitty_window_id = mark == 0;
        env.ghostty_resources_dir = mark == 1;
        env.wezterm_pane = mark == 2;
        assert!(env.is_known_kitty_host());
    }
}
