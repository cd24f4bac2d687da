//! Bitmaps: checking, filling, tinting, mirroring, cropping and resampling.

use bevy_kitty::colour::{Levels, Tint};
use bevy_kitty::pixels::{
    apply_levels, apply_tint, bake_levels, crop_image_rgba, crop_rgba, flip_rgba, scale_rgba, solid_rgba,
    Bitmap, CellRect, CpuImage,
};

/// A colour given as fractions, quantised to sixteen levels.
fn levels(r: f32, g: f32, b: f32, a: f32) -> Levels {
    let q = |v: f32| (v.clamp(0.0, 1.0) * 15.0).round() as u8;
    Levels {
        r: q(r),
        g: q(g),
        b: q(b),
        a: q(a),
    }
}

/// A colour given as fractions, as a pixel.
fn pixel(r: f32, g: f32, b: f32, a: f32) -> [u8; 4] {
    let q = |v: f32| (v.clamp(0.0, 1.0) * 255.0).round() as u8;
    [q(r), q(g), q(b), q(a)]
}

/// A tint given as fractions.
fn tint(r: f32, g: f32, b: f32, a: f32) -> Tint {
    let table = |f: f32| (0..=255u8).map(|v| (v as f32 * f).round() as u8).collect();
    Tint::new(table(r), table(g), table(b), table(a)).unwrap()
}

#[test]
fn bitmap_rejects_a_length_mismatch() {
    // A short buffer must skip one sprite, not panic mid-frame.
    assert!(Bitmap::new(vec![0; 16], 2, 2).is_some());
    assert!(Bitmap::new(vec![0; 15], 2, 2).is_none());
    assert!(Bitmap::new(vec![0; 17], 2, 2).is_none());
}

#[test]
fn bitmap_keeps_its_parts() {
    let b = Bitmap::new((0..24).collect(), 3, 2).unwrap();
    assert_eq!((b.w, b.h), (3, 2));
    assert_eq!(b.rgba, (0..24).collect::<Vec<u8>>());
    assert!(Bitmap::new(Vec::new(), 0, 7).is_some());
    // Dimensions whose size has no byte count on any machine.
    assert!(Bitmap::new(Vec::new(), u32::MAX, u32::MAX).is_none());
}

#[test]
fn solid_tile_is_exactly_the_requested_colour() {
    let px = solid_rgba(pixel(1.0, 0.0, 0.5, 1.0), 3, 2);
    assert_eq!(px.len(), 3 * 2 * 4);
    for chunk in px.chunks_exact(4) {
        assert_eq!(chunk, &[255, 0, 128, 255]);
    }
}

#[test]
fn white_tint_is_recognised_so_the_multiply_is_skipped() {
    assert!(levels(1.0, 1.0, 1.0, 1.0).is_white());
    assert!(!levels(1.0, 1.0, 1.0, 0.5).is_white());
    assert!(!levels(0.5, 1.0, 1.0, 1.0).is_white());
}

#[test]
fn tint_multiplies_every_channel_including_alpha() {
    let mut px = vec![200, 100, 50, 255];
    apply_tint(&mut px, &tint(0.5, 0.5, 0.5, 0.5));
    assert_eq!(px, vec![100, 50, 25, 128]);
}

#[test]
fn each_channel_has_its_own_tint() {
    let mut px = vec![200, 200, 200, 200, 10, 20, 30, 40, 7, 7, 7];
    apply_tint(&mut px, &tint(1.0, 0.5, 0.25, 0.0));
    // The three bytes past the last whole pixel stay.
    assert_eq!(px, vec![200, 100, 50, 0, 10, 10, 8, 0, 7, 7, 7]);
}

#[test]
fn a_tint_needs_all_its_entries() {
    let full: Vec<u8> = vec![0; 256];
    let short: Vec<u8> = vec![0; 255];
    assert!(Tint::new(full.clone(), full.clone(), full.clone(), full.clone()).is_some());
    assert!(Tint::new(short.clone(), full.clone(), full.clone(), full.clone()).is_none());
    assert!(Tint::new(full.clone(), short.clone(), full.clone(), full.clone()).is_none());
    assert!(Tint::new(full.clone(), full.clone(), short.clone(), full.clone()).is_none());
    assert!(Tint::new(full.clone(), full.clone(), full, short).is_none());
}

#[test]
fn levels_multiply_as_fractions_of_fifteen_do() {
    // Every value under every level, against the same product in floating point.
    for q in 0..=15u8 {
        let l = Levels {
            r: q,
            g: 15,
            b: 0,
            a: q,
        };
        let f = q as f32 / 15.0;
        for v in 0..=255u8 {
            let mut px = vec![v, v, v, v];
            apply_levels(&mut px, &l);
            let want = (v as f32 * f).round() as u8;
            assert_eq!(px, vec![want, v, 0, want], "value {v} at level {q}");
        }
    }
}

#[test]
fn a_solid_pixel_is_the_tint_of_white() {
    for q in 0..=15u8 {
        let l = Levels {
            r: q,
            g: q,
            b: q,
            a: q,
        };
        let mut px = vec![255, 255, 255, 255];
        apply_levels(&mut px, &l);
        assert_eq!(px, l.pixel());
        assert_eq!(l.pixel()[0], (q as f32 / 15.0 * 255.0).round() as u8);
    }
}

#[test]
fn flip_x_mirrors_columns_not_rows() {
    // 2x1: red then green.
    let src = vec![255, 0, 0, 255, 0, 255, 0, 255];
    let out = flip_rgba(&src, 2, 1, true, false);
    assert_eq!(&out[0..4], &[0, 255, 0, 255], "first pixel should be green");
    assert_eq!(&out[4..8], &[255, 0, 0, 255], "second pixel should be red");
    // Flipping the other axis on a single row changes nothing.
    assert_eq!(flip_rgba(&src, 2, 1, false, true), src);
}

#[test]
fn flip_both_axes_is_a_180_rotation() {
    // 2x2, distinct pixels in each corner.
    let src: Vec<u8> = vec![
        1, 1, 1, 255, 2, 2, 2, 255, //
        3, 3, 3, 255, 4, 4, 4, 255,
    ];
    let out = flip_rgba(&src, 2, 2, true, true);
    assert_eq!(&out[0..4], &[4, 4, 4, 255]);
    assert_eq!(&out[12..16], &[1, 1, 1, 255]);
}

#[test]
fn flipping_twice_gives_the_bitmap_back() {
    let src: Vec<u8> = (0..60).collect();
    for (fx, fy) in [(false, false), (true, false), (false, true), (true, true)] {
        let once = flip_rgba(&src, 5, 3, fx, fy);
        assert_eq!(flip_rgba(&once, 5, 3, fx, fy), src);
    }
    // Both ways is the pixels in reverse.
    let out = flip_rgba(&src, 5, 3, true, true);
    for p in 0..15 {
        assert_eq!(out[p * 4..p * 4 + 4], src[(14 - p) * 4..(14 - p) * 4 + 4]);
    }
}

#[test]
fn flip_y_swaps_rows() {
    let src: Vec<u8> = (0..24).collect();
    let out = flip_rgba(&src, 3, 2, false, true);
    assert_eq!(out[..12], src[12..]);
    assert_eq!(out[12..], src[..12]);
}

#[test]
fn baking_tints_first_and_then_mirrors() {
    let src = Bitmap::new(vec![100, 100, 100, 100, 200, 200, 200, 200], 2, 1).unwrap();
    let levels = |r: u8, a: u8| Levels {
        r,
        g: 15,
        b: 15,
        a,
    };
    assert_eq!(
        bake_levels(src.clone(), &levels(3, 15), true, false),
        [40, 200, 200, 200, 20, 100, 100, 100]
    );
    assert_eq!(
        bake_levels(src.clone(), &levels(15, 0), false, true),
        [100, 100, 100, 0, 200, 200, 200, 0]
    );
    assert_eq!(
        bake_levels(src.clone(), &levels(15, 15), false, false),
        src.rgba
    );
}

#[test]
fn cropping_takes_the_cell_and_nothing_else() {
    // 4x3, every byte its own value.
    let data: Vec<u8> = (0..48).collect();
    let cell = CellRect {
        x0: 1,
        y0: 1,
        x1: 3,
        y1: 3,
    };
    assert_eq!((cell.width(), cell.height()), (2, 2));
    let b = crop_rgba(&data, 4, 3, Some(cell)).unwrap();
    assert_eq!((b.w, b.h), (2, 2));
    assert_eq!(
        b.rgba,
        [20, 21, 22, 23, 24, 25, 26, 27, 36, 37, 38, 39, 40, 41, 42, 43]
    );
    // No cell is the whole image, without what follows it.
    let mut long = data.clone();
    long.push(99);
    let b = crop_rgba(&long, 4, 3, None).unwrap();
    assert_eq!((b.w, b.h), (4, 3));
    assert_eq!(b.rgba, data);
}

#[test]
fn a_cell_out_of_bounds_or_short_data_is_refused() {
    let data = vec![0u8; 48];
    let cell = |x0, y0, x1, y1| Some(CellRect { x0, y0, x1, y1 });
    assert!(crop_rgba(&data, 4, 3, cell(0, 0, 4, 3)).is_some());
    assert!(crop_rgba(&data, 4, 3, cell(0, 0, 5, 3)).is_none());
    assert!(crop_rgba(&data, 4, 3, cell(0, 0, 4, 4)).is_none());
    assert!(crop_rgba(&data[..47], 4, 3, cell(0, 0, 1, 1)).is_none());
    assert!(crop_rgba(&data, u32::MAX, u32::MAX, cell(0, 0, 1, 1)).is_none());
    // An empty cell is an empty bitmap.
    assert_eq!(crop_rgba(&data, 4, 3, cell(4, 3, 4, 3)).unwrap().rgba, []);
}

#[test]
fn only_rgba_images_with_data_are_cropped() {
    let data = [1u8, 2, 3, 4];
    let img = CpuImage {
        data: Some(&data),
        width: 1,
        height: 1,
        rgba8: true,
    };
    assert_eq!(crop_image_rgba(&img, None).unwrap().rgba, data);
    assert!(crop_image_rgba(&CpuImage { rgba8: false, ..img }, None).is_none());
    assert!(crop_image_rgba(&CpuImage { data: None, ..img }, None).is_none());
    assert!(crop_image_rgba(&CpuImage { width: 2, ..img }, None).is_none());
}

#[test]
fn upscale_preserves_exact_pixel_values() {
    // Nearest-neighbour on the way up: no new colours may appear, or pixel art turns to
    // mush.
    let src = vec![255, 0, 0, 255, 0, 0, 255, 255];
    let out = scale_rgba(&src, 2, 1, 4, 2);
    assert_eq!(out.len(), 4 * 2 * 4);
    for chunk in out.chunks_exact(4) {
        assert!(
            chunk == [255, 0, 0, 255] || chunk == [0, 0, 255, 255],
            "unexpected interpolated pixel {chunk:?}"
        );
    }
}

#[test]
fn upscale_samples_the_centre_of_each_pixel() {
    // Three source pixels over five: centres at 0.3, 0.9, 1.5, 2.1 and 2.7.
    let src: Vec<u8> = [[1u8; 4], [2; 4], [3; 4]].concat();
    let out = scale_rgba(&src, 3, 1, 5, 1);
    let firsts: Vec<u8> = out.chunks_exact(4).map(|p| p[0]).collect();
    assert_eq!(firsts, [1, 1, 2, 3, 3]);
}

#[test]
fn downscale_averages_rather_than_dropping_pixels() {
    // 2x1 black+white averaged to 1x1 must be grey. Nearest would give one of the two,
    // silently discarding the hi-dpi detail that was paid for.
    let src = vec![0, 0, 0, 255, 255, 255, 255, 255];
    let out = scale_rgba(&src, 2, 1, 1, 1);
    assert_eq!(out.len(), 4);
    assert!(
        (120..=135).contains(&out[0]),
        "expected a mid grey, got {}",
        out[0]
    );
    assert_eq!(out, [127, 127, 127, 255]);
}

#[test]
fn downscale_covers_every_pixel_that_it_touches() {
    // Three pixels over two: the middle one counts for both.
    let src: Vec<u8> = [[0u8; 4], [30; 4], [90; 4]].concat();
    let out = scale_rgba(&src, 3, 1, 2, 1);
    let firsts: Vec<u8> = out.chunks_exact(4).map(|p| p[0]).collect();
    assert_eq!(firsts, [15, 60]);
}

#[test]
fn shrinking_on_one_axis_averages_on_both() {
    // Narrower but taller: each pixel still averages the box that it covers.
    let src: Vec<u8> = [[10u8; 4], [20; 4]].concat();
    let out = scale_rgba(&src, 2, 1, 1, 2);
    assert_eq!(out, [15, 15, 15, 15, 15, 15, 15, 15]);
}

#[test]
fn scaling_to_the_same_size_copies() {
    let src: Vec<u8> = (0..80).collect();
    assert_eq!(scale_rgba(&src, 5, 4, 5, 4), src);
}

#[test]
fn scaling_agrees_with_floating_point() {
    // A spread of glyph-like sizes, against the same sampling in floating point.
    let src: Vec<u8> = (0..13 * 17 * 4).map(|i| (i * 37 % 251) as u8).collect();
    for (dw, dh) in [(1, 1), (5, 7), (13, 9), (20, 33), (26, 34), (30, 42), (12, 40)] {
        assert_eq!(
            scale_rgba(&src, 13, 17, dw, dh),
            float_scale(&src, 13, 17, dw, dh),
            "to {dw}x{dh}"
        );
    }
}

fn float_scale(src: &[u8], sw: u32, sh: u32, dw: u32, dh: u32) -> Vec<u8> {
    let mut out = Vec::new();
    for y in 0..dh {
        for x in 0..dw {
            let lo = |v: u32, s: u32, d: u32| (v as f32 * s as f32 / d as f32).floor() as u32;
            let hi = |v: u32, s: u32, d: u32| {
                (((v + 1) as f32 * s as f32 / d as f32).ceil() as u32).min(s)
            };
            let at = |v: u32, s: u32, d: u32| {
                (((v as f32 + 0.5) * s as f32 / d as f32) as u32).min(s - 1)
            };
            for c in 0..4 {
                if dw < sw || dh < sh {
                    let (mut sum, mut n) = (0u32, 0u32);
                    for sy in lo(y, sh, dh)..hi(y, sh, dh) {
                        for sx in lo(x, sw, dw)..hi(x, sw, dw) {
                            sum += src[((sy * sw + sx) * 4 + c) as usize] as u32;
                            n += 1;
                        }
                    }
                    out.push((sum / n) as u8);
                } else {
                    let (sx, sy) = (at(x, sw, dw), at(y, sh, dh));
                    out.push(src[((sy * sw + sx) * 4 + c) as usize]);
                }
            }
        }
    }
    out
}

#[test]
fn scaling_a_degenerate_source_returns_blank_not_a_panic() {
    let out = scale_rgba(&[], 0, 0, 4, 4);
    assert_eq!(out.len(), 4 * 4 * 4);
    assert!(out.iter().all(|&b| b == 0));
}
