//! Frame mode: unpadding, dirty-skip and the bytes of a frame.

use bevy_kitty::frame::{aligned_bytes_per_row, fnv1a, FrameState, FrameStep};

fn bytes(step: FrameStep) -> Option<Vec<u8>> {
    match step {
        FrameStep::Send(b) => Some(b),
        _ => None,
    }
}

#[test]
fn row_alignment_rounds_up_to_256() {
    assert_eq!(
        aligned_bytes_per_row(1280),
        1280,
        "320px is already aligned"
    );
    assert_eq!(aligned_bytes_per_row(1281), 1536);
    assert_eq!(aligned_bytes_per_row(1), 256);
    assert_eq!(aligned_bytes_per_row(256), 256);
}

#[test]
fn a_common_resolution_actually_needs_padding() {
    // The reason the decode is stride-aware even though 320px is not padded: change the
    // width and it immediately matters. 200px -> 800B -> 1024B.
    assert_ne!(aligned_bytes_per_row(200 * 4), 200 * 4);
}

#[test]
fn hash_distinguishes_frames_but_matches_identical_ones() {
    let a = vec![1u8, 2, 3, 4];
    let b = vec![1u8, 2, 3, 5];
    assert_eq!(fnv1a(&a), fnv1a(&a.clone()));
    assert_ne!(fnv1a(&a), fnv1a(&b));
    // An empty frame must not collide with the zero-initialised last hash of 0, or the
    // very first frame would be skipped as "unchanged".
    assert_ne!(fnv1a(&[]), 0);
}

#[test]
fn the_hash_is_fnv1a() {
    assert_eq!(fnv1a(b""), 0xcbf2_9ce4_8422_2325);
    assert_eq!(fnv1a(b"a"), 0xaf63_dc4c_8601_ec8c);
    assert_eq!(fnv1a(b"foobar"), 0x8594_4171_f739_67e8);
}

#[test]
fn padding_is_taken_off_row_by_row() {
    // 1x2 pixels: rows of 4 bytes, 256 apart.
    let mut padded = vec![9u8; 512];
    padded[..4].copy_from_slice(&[1, 2, 3, 4]);
    padded[256..260].copy_from_slice(&[5, 6, 7, 8]);
    let mut state = FrameState::new();
    let sent = bytes(state.on_readback(&padded, 1, 2)).unwrap();
    // AQIDBAUGBwg= is bytes 1 to 8.
    assert_eq!(
        String::from_utf8(sent).unwrap(),
        "\x1b[1;1H\x1b_Ga=T,f=32,s=1,v=2,i=1,q=2,m=0;AQIDBAUGBwg=\x1b\\"
    );
}

#[test]
fn an_aligned_frame_is_copied_whole() {
    let padded: Vec<u8> = (0..512).map(|i| i as u8).collect();
    let mut state = FrameState::new();
    let mut longer = padded.clone();
    longer.extend_from_slice(&[1, 2, 3]);
    let a = bytes(state.on_readback(&padded, 64, 2)).unwrap();
    let b = bytes(FrameState::new().on_readback(&longer, 64, 2)).unwrap();
    assert_eq!(a, b, "bytes past the last row are not part of the frame");
}

#[test]
fn a_short_readback_is_dropped() {
    let mut state = FrameState::new();
    assert!(matches!(
        state.on_readback(&[0; 511], 1, 2),
        FrameStep::Short
    ));
    assert!(matches!(
        state.on_readback(&[0; 512], 1, 2),
        FrameStep::Send(_)
    ));
}

#[test]
fn an_unchanged_frame_is_sent_once() {
    let frame = vec![7u8; 256];
    let other = vec![8u8; 256];
    let mut state = FrameState::default();
    assert!(bytes(state.on_readback(&frame, 1, 1)).is_some());
    // Not reported as sent, so it goes out again.
    assert!(bytes(state.on_readback(&frame, 1, 1)).is_some());
    state.sent();
    assert_eq!(state.frames_emitted(), 1);
    assert!(matches!(
        state.on_readback(&frame, 1, 1),
        FrameStep::Unchanged
    ));
    assert_eq!(state.frames_skipped(), 1);
    assert!(bytes(state.on_readback(&other, 1, 1)).is_some());
    state.sent();
    assert!(bytes(state.on_readback(&frame, 1, 1)).is_some());
    assert_eq!((state.frames_emitted(), state.frames_skipped()), (2, 1));
}

#[test]
fn what_is_in_the_padding_does_not_matter() {
    let readback = |fill: u8| {
        let mut padded = vec![fill; 512];
        padded[..8].copy_from_slice(&[1, 2, 3, 4, 5, 6, 7, 8]);
        padded[256..264].copy_from_slice(&[9, 10, 11, 12, 13, 14, 15, 16]);
        padded
    };
    let mut state = FrameState::new();
    assert!(bytes(state.on_readback(&readback(0), 2, 2)).is_some());
    state.sent();
    assert!(matches!(
        state.on_readback(&readback(255), 2, 2),
        FrameStep::Unchanged
    ));
}
