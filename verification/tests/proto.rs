//! The escape sequences, byte for byte.

use base64::engine::general_purpose::STANDARD;
use base64::Engine;
use bevy_kitty::proto::{
    cursor_to, delete_all_placements, delete_placement, enter_screen, leave_screen, place,
    place_scaled, transmit_and_display_rgba, transmit_rgba, write_apc, APC_GRAPHICS_INTRODUCER,
    APC_TERMINATOR, CHUNK,
};

fn text(out: Vec<u8>) -> String {
    String::from_utf8(out).unwrap()
}

#[test]
fn small_payload_is_single_chunk_with_m0() {
    let mut out = Vec::new();
    // 2x1 RGBA = 8 bytes -> base64 is short, one chunk.
    transmit_and_display_rgba(&mut out, 1, 2, 1, &[255, 0, 0, 255, 0, 255, 0, 255]);
    let s = text(out);
    assert!(s.starts_with("\x1b_Ga=T,f=32,s=2,v=1,i=1,q=2,m=0;"));
    assert!(s.ends_with("\x1b\\"));
    // exactly one APC packet
    assert_eq!(s.matches("\x1b_G").count(), 1);
}

#[test]
fn large_payload_splits_into_chunks() {
    let mut out = Vec::new();
    // 4096-byte base64 limit; 320x180x4 raw -> ~307KB base64 -> many chunks.
    let rgba = vec![128u8; 320 * 180 * 4];
    transmit_and_display_rgba(&mut out, 1, 320, 180, &rgba);
    let s = text(out);
    let packets = s.matches("\x1b_G").count();
    assert!(packets > 1, "expected multiple chunks, got {packets}");
    // first packet carries the control block, exactly one m=0 (the last).
    assert!(s.contains("a=T,f=32,s=320,v=180,i=1,q=2,m=1;"));
    assert_eq!(s.matches("m=0;").count(), 1);
}

#[test]
fn control_only_packet_has_no_payload_sep_chunks() {
    let mut out = Vec::new();
    delete_all_placements(&mut out);
    assert_eq!(text(out), "\x1b_Ga=d,d=a,q=2\x1b\\");
}

#[test]
fn place_scaled_omits_zero_keys() {
    // Zero cols/rows is how the glyph pass asks kitty to draw an image at its natural
    // pixel size. Emitting `c=0` instead would collapse it.
    let mut out = Vec::new();
    place_scaled(&mut out, 7, 9, 42, 0, 0, 3, 4);
    let s = text(out);
    assert_eq!(s, "\x1b_Ga=p,i=7,p=9,z=42,C=1,q=2,X=3,Y=4\x1b\\");
    assert!(!s.contains("c="));
    assert!(!s.contains("r="));
}

#[test]
fn place_scaled_emits_all_keys_when_set() {
    let mut out = Vec::new();
    place_scaled(&mut out, 1001, 1, 100246, 12, 6, 6, 16);
    assert_eq!(
        text(out),
        "\x1b_Ga=p,i=1001,p=1,z=100246,C=1,q=2,c=12,r=6,X=6,Y=16\x1b\\"
    );
}

#[test]
fn negative_z_survives_formatting() {
    // The background sits at a negative z. `z` is i32 on purpose.
    let mut out = Vec::new();
    place(&mut out, 1, 1, -100_000);
    let s = text(out);
    assert!(s.contains("z=-100000"), "got {s:?}");
}

#[test]
fn chunk_boundary_payload_still_ends_with_m0() {
    // A payload landing exactly on the 4096-byte base64 boundary is the classic
    // off-by-one: the last chunk must still be flagged m=0.
    // 3072 raw bytes -> exactly 4096 base64 chars.
    let mut out = Vec::new();
    transmit_rgba(&mut out, 5, 768, 1, &vec![7u8; 3072]);
    let s = text(out);
    assert_eq!(s.matches("\x1b_G").count(), 1, "should be one chunk");
    assert_eq!(s.matches("m=0;").count(), 1);
    assert!(!s.contains("m=1"));
}

#[test]
fn cursor_is_one_based_row_then_col() {
    // Row first, then column: transposing these puts everything on the wrong axis, and
    // the failure looks like a coordinate bug elsewhere.
    let mut out = Vec::new();
    cursor_to(&mut out, 42, 81);
    assert_eq!(text(out), "\x1b[42;81H");
}

#[test]
fn delete_placement_targets_one_image_and_placement() {
    let mut out = Vec::new();
    delete_placement(&mut out, 1001, 3);
    assert_eq!(text(out), "\x1b_Ga=d,d=i,i=1001,p=3,q=2\x1b\\");
}

#[test]
fn the_exported_introducer_matches_what_is_actually_written() {
    // The point of exporting it: another writer sharing stdout compares against this
    // constant to guarantee its own APC letter does not collide.
    let mut out = Vec::new();
    transmit_rgba(&mut out, 1, 1, 1, &[0, 0, 0, 255]);
    assert!(out.starts_with(&APC_GRAPHICS_INTRODUCER));
    assert!(out.ends_with(&APC_TERMINATOR));

    let mut out = Vec::new();
    delete_all_placements(&mut out);
    assert!(out.starts_with(&APC_GRAPHICS_INTRODUCER));
    assert!(out.ends_with(&APC_TERMINATOR));
}

#[test]
fn payloads_are_standard_base64_with_padding() {
    // One, two and three bytes past a group, and the two symbols past the letters and
    // digits of the alphabet.
    let cases: [(&[u8], &str); 6] = [
        (&[0], "AA=="),
        (&[0, 0, 1], "AAAB"),
        (&[255], "/w=="),
        (&[255, 255], "//8="),
        (&[251, 239, 190], "++++"),
        (&[77, 97, 110, 77], "TWFuTQ=="),
    ];
    for (bytes, want) in cases {
        let mut out = Vec::new();
        transmit_rgba(&mut out, 9, 1, 1, bytes);
        assert_eq!(
            text(out),
            format!("\x1b_Ga=t,f=32,s=1,v=1,i=9,q=2,m=0;{want}\x1b\\")
        );
    }
}

#[test]
fn an_image_without_bytes_is_a_control_packet() {
    let mut out = Vec::new();
    transmit_rgba(&mut out, 9, 0, 0, &[]);
    assert_eq!(text(out), "\x1b_Ga=t,f=32,s=0,v=0,i=9,q=2\x1b\\");
}

#[test]
fn chunks_join_to_the_payload() {
    // Two full chunks and one byte more.
    let payload: Vec<u8> = (0..2 * CHUNK + 1).map(|i| b'A' + (i % 26) as u8).collect();
    let mut out = Vec::new();
    write_apc(&mut out, "a=t", &payload);
    let s = text(out);
    let mut joined = String::new();
    let mut flags = String::new();
    for block in s.split("\x1b_G").skip(1) {
        let body = block.strip_suffix("\x1b\\").unwrap();
        let (head, chunk) = body.split_once(';').unwrap();
        assert!(chunk.len() <= CHUNK);
        flags.push_str(head);
        flags.push(' ');
        joined.push_str(chunk);
    }
    assert_eq!(flags, "a=t,m=1 m=1 m=0 ");
    assert_eq!(joined.into_bytes(), payload);
}

#[test]
fn what_is_there_before_stays() {
    let mut out = vec![1, 2, 3];
    cursor_to(&mut out, 1, 1);
    assert_eq!(out, b"\x01\x02\x03\x1b[1;1H");
}

#[test]
fn the_screen_is_cleared_and_the_cursor_comes_back() {
    let mut out = Vec::new();
    enter_screen(&mut out);
    assert_eq!(text(out), "\x1b[2J\x1b[H\x1b[?25l");
    let mut out = Vec::new();
    leave_screen(&mut out);
    assert_eq!(text(out), "\x1b[?25h");
}

#[test]
fn the_extremes_of_every_number_are_spelled_out() {
    let mut out = Vec::new();
    place_scaled(
        &mut out,
        u32::MAX,
        u32::MAX,
        i32::MIN,
        u32::MAX,
        1,
        10,
        100,
    );
    assert_eq!(
        text(out),
        "\x1b_Ga=p,i=4294967295,p=4294967295,z=-2147483648,C=1,q=2,\
         c=4294967295,r=1,X=10,Y=100\x1b\\"
    );
    let mut out = Vec::new();
    cursor_to(&mut out, 0, u16::MAX);
    assert_eq!(text(out), "\x1b[0;65535H");
}

#[test]
fn storing_and_showing_differ_by_one_letter() {
    for len in [0, 4, 3072, 3076, 40_000] {
        let rgba: Vec<u8> = (0..len).map(|i| i as u8).collect();
        let (mut shown, mut stored) = (Vec::new(), Vec::new());
        transmit_and_display_rgba(&mut shown, 9, 12, 34, &rgba);
        transmit_rgba(&mut stored, 9, 12, 34, &rgba);
        assert_eq!(shown.len(), stored.len());
        let differ: Vec<usize> = (0..shown.len()).filter(|&i| shown[i] != stored[i]).collect();
        assert_eq!(differ, [5]);
        assert_eq!((shown[5], stored[5]), (b'T', b't'));
    }
}

#[test]
fn the_pixels_can_be_decoded_again() {
    for len in [1, 2, 3, 4, 3071, 3072, 3073, 10_000] {
        let rgba: Vec<u8> = (0..len).map(|i| (i * 7) as u8).collect();
        let mut out = Vec::new();
        transmit_rgba(&mut out, 1, 1, 1, &rgba);
        let payload: String = text(out)
            .split("\x1b_G")
            .skip(1)
            .map(|block| block.split_once(';').unwrap().1.trim_end_matches("\x1b\\").to_string())
            .collect();
        assert_eq!(STANDARD.decode(payload).unwrap(), rgba);
    }
}
