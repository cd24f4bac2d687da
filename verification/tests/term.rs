//! Terminal sizes: reading them, and settling on one.

use bevy_kitty::term::{parse_csi_14t_reply, reply_goes_on, CellSize, TermClock, TermSize};

/// A measured real terminal: 1920x1080 over a 212x51 grid.
fn real_term() -> TermSize {
    size(212, 51, 1920, 1080)
}

fn size(cols: u16, rows: u16, xpixel: u16, ypixel: u16) -> TermSize {
    TermSize {
        cols,
        rows,
        xpixel,
        ypixel,
    }
}

#[test]
fn parses_a_full_spec() {
    let ts = TermSize::parse_spec("212x51@1920x1080").unwrap();
    assert_eq!(ts, real_term());
}

#[test]
fn rejects_malformed_specs() {
    assert!(TermSize::parse_spec("212x51").is_none());
    assert!(TermSize::parse_spec("212@1920x1080").is_none());
    assert!(TermSize::parse_spec("").is_none());
    assert!(TermSize::parse_spec("axb@cxd").is_none());
}

#[test]
fn csi_reply_is_height_then_width() {
    // The one ordering trap in the whole query path.
    assert_eq!(parse_csi_14t_reply("\x1b[4;1080;1920t"), Some((1920, 1080)));
    assert_eq!(parse_csi_14t_reply("4;1080;1920"), Some((1920, 1080)));
    // A response to a different query must not be read as a size.
    assert_eq!(parse_csi_14t_reply("\x1b[6;51;212t"), None);
    assert_eq!(parse_csi_14t_reply(""), None);
}

#[test]
fn specs_tolerate_spaces_signs_and_leading_zeros() {
    assert_eq!(
        TermSize::parse_spec(" 212 x\t51 @+1920x\u{3000}01080\n"),
        Some(real_term())
    );
    assert!(TermSize::parse_spec("-1x51@1920x1080").is_none());
    assert!(TermSize::parse_spec("+x51@1920x1080").is_none());
    assert!(TermSize::parse_spec("++1x51@1920x1080").is_none());
    assert!(TermSize::parse_spec("2 12x51@1920x1080").is_none());
    assert!(TermSize::parse_spec("212x51@1920").is_none());
    assert!(TermSize::parse_spec("x51@1920x1080").is_none());
    // The first separator counts, so a second one spoils the number behind it.
    assert!(TermSize::parse_spec("212x51x3@1920x1080").is_none());
    assert!(TermSize::parse_spec("212x51@1920x1080@").is_none());
}

#[test]
fn numbers_past_sixteen_bits_are_refused() {
    assert_eq!(
        TermSize::parse_spec("65535x0@65535x0"),
        Some(size(65535, 0, 65535, 0))
    );
    assert!(TermSize::parse_spec("65536x1@1x1").is_none());
    assert!(TermSize::parse_spec("99999999999999999999x1@1x1").is_none());
}

#[test]
fn every_spec_reads_back() {
    for t in [
        real_term(),
        size(0, 0, 0, 0),
        size(1, 10, 100, 1000),
        size(65535, 65535, 65535, 65535),
    ] {
        let s = format!("{}x{}@{}x{}", t.cols, t.rows, t.xpixel, t.ypixel);
        assert_eq!(TermSize::parse_spec(&s), Some(t));
    }
}

#[test]
fn replies_are_read_leniently_but_not_wrongly() {
    assert_eq!(parse_csi_14t_reply("\x1b\x1b[[4; 7 ;9t"), Some((9, 7)));
    // What follows the third field is not read.
    assert_eq!(parse_csi_14t_reply("4;1;2;3;4t"), Some((2, 1)));
    assert_eq!(parse_csi_14t_reply("4;1t"), None);
    assert_eq!(parse_csi_14t_reply("4;1;t"), None);
    assert_eq!(parse_csi_14t_reply("4;1;2tt"), None);
    assert_eq!(parse_csi_14t_reply("[\x1b4;1;2t"), None);
    assert_eq!(parse_csi_14t_reply("04;1;2t"), None);
    assert_eq!(parse_csi_14t_reply("4;70000;2t"), None);
}

#[test]
fn a_forced_size_wins() {
    let forced = size(3, 4, 5, 6);
    assert_eq!(
        TermSize::query(Some(forced), Some(real_term()), None),
        forced
    );
    assert!(!TermSize::lacks_pixels(Some(forced), Some(size(80, 24, 0, 0))));
}

#[test]
fn a_full_report_is_used_as_it_is() {
    assert_eq!(TermSize::query(None, Some(real_term()), None), real_term());
    assert!(!TermSize::lacks_pixels(None, Some(real_term())));
}

#[test]
fn a_report_without_a_grid_falls_back() {
    let fallback = size(80, 24, 640, 384);
    assert_eq!(TermSize::query(None, None, None), fallback);
    assert_eq!(
        TermSize::query(None, Some(size(0, 24, 640, 384)), None),
        fallback
    );
    assert_eq!(
        TermSize::query(None, Some(size(80, 0, 1, 1)), None),
        fallback
    );
    assert!(!TermSize::lacks_pixels(None, Some(size(80, 0, 0, 0))));
}

#[test]
fn missing_pixels_come_from_the_measured_cells() {
    let report = size(212, 51, 0, 0);
    assert!(TermSize::lacks_pixels(None, Some(report)));
    let cell = CellSize::measured(Some((1920, 1080)), 212, 51);
    assert!(cell.is_some());
    assert_eq!(TermSize::query(None, Some(report), cell), real_term());
    // A resize changes the grid; the cells stay as big as they were.
    assert_eq!(
        TermSize::query(None, Some(size(106, 102, 0, 0)), cell),
        size(106, 102, 960, 2160)
    );
    // Rounded to the nearest pixel, and capped.
    assert_eq!(
        TermSize::query(None, Some(size(1, 1, 0, 0)), cell),
        size(1, 1, 9, 21)
    );
    assert_eq!(
        TermSize::query(None, Some(size(65535, 51, 0, 7)), cell),
        size(65535, 51, 65535, 1080)
    );
}

#[test]
fn a_report_without_pixels_falls_back_when_nothing_was_measured() {
    // Guessing a cell size would get the aspect wrong.
    let fallback = size(80, 24, 640, 384);
    for report in [
        size(100, 50, 0, 0),
        size(212, 51, 0, 0),
        size(9000, 5000, 5, 0),
        size(9000, 5000, 0, 5),
    ] {
        assert!(TermSize::lacks_pixels(None, Some(report)));
        assert_eq!(TermSize::query(None, Some(report), None), fallback);
    }
    assert!(CellSize::measured(None, 1, 1).is_none());
    assert!(CellSize::measured(Some((0, 1)), 1, 1).is_none());
    assert!(CellSize::measured(Some((1, 0)), 1, 1).is_none());
    assert!(CellSize::measured(Some((1, 1)), 0, 1).is_none());
    assert!(CellSize::measured(Some((1, 1)), 1, 0).is_none());
}

#[test]
fn a_reply_is_read_up_to_its_final_letter() {
    assert!(reply_goes_on(b""));
    assert!(reply_goes_on(b"\x1b[4;1080;1920"));
    assert!(!reply_goes_on(b"\x1b[4;1080;1920t"));
    assert!(reply_goes_on(b"ta"));
    assert!(reply_goes_on(&[0; 63]));
    assert!(!reply_goes_on(&[0; 64]));
    assert!(!reply_goes_on(&[0; 100]));
}

#[test]
fn cells_are_floored_and_never_empty() {
    assert_eq!(real_term().cell_px(), (9, 21));
    assert_eq!(real_term().grid_px(), (1908, 1071));
    assert_eq!(size(0, 0, 5, 5).cell_px(), (8, 16));
    assert_eq!(size(0, 0, 5, 5).grid_px(), (0, 0));
    assert_eq!(size(10, 10, 5, 5).cell_px(), (1, 1));
    assert_eq!(size(65535, 1, 65535, 65535).grid_px(), (65535, 65535));
}

#[test]
fn the_terminal_is_asked_first_and_then_now_and_then() {
    let mut clock = TermClock::new();
    assert!(clock.advance());
    assert_eq!(clock.tick, 1);
    // Still unknown, so still asked.
    assert!(clock.advance());
    clock.set(real_term());
    assert_eq!(clock.term, Some(real_term()));
    let mut asked = Vec::new();
    for _ in 0..300 {
        if clock.advance() {
            asked.push(clock.tick);
        }
    }
    assert_eq!(asked, [120, 240]);
}

#[test]
fn the_first_ticks_and_then_few_are_logged() {
    let mut clock = TermClock::new();
    let mut logged = Vec::new();
    for _ in 0..250 {
        clock.advance();
        if clock.reports() {
            logged.push(clock.tick);
        }
    }
    assert_eq!(logged, [1, 2, 3, 120, 240]);
}
