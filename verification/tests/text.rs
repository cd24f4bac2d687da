//! The text pass: glyph keys, uploads and placements.

use bevy_kitty::colour::Levels;
use bevy_kitty::pixels::CpuImage;
use bevy_kitty::proto;
use bevy_kitty::screen::Geom;
use bevy_kitty::sprite::{TEXT_Z_BIAS, Z_SPREAD};
use bevy_kitty::text::{glyph_key, text_z, GlyphDraw, GlyphScene, GLYPH_ID_BASE};

const WHITE: Levels = Levels {
    r: 15,
    g: 15,
    b: 15,
    a: 15,
};
const RED: Levels = Levels {
    r: 15,
    g: 0,
    b: 0,
    a: 15,
};

/// A 4x2 atlas: a white left half with a rising alpha, a coloured right half.
const ATLAS: [u8; 32] = [
    255, 255, 255, 0, 255, 255, 255, 80, 1, 2, 3, 4, 5, 6, 7, 8, //
    255, 255, 255, 160, 255, 255, 255, 240, 9, 10, 11, 12, 13, 14, 15, 16,
];

fn atlas() -> CpuImage<'static> {
    CpuImage {
        data: Some(&ATLAS),
        width: 4,
        height: 2,
        rgba8: true,
    }
}

/// The left half of the atlas, at its own size.
fn glyph(entity: u64, index: u64) -> GlyphDraw<'static> {
    GlyphDraw {
        entity,
        index,
        texture: "atlas0".to_string(),
        rx: "0".to_string(),
        ry: "0".to_string(),
        x0: 0,
        y0: 0,
        gw: 2,
        gh: 2,
        atlas: Some(atlas()),
        alpha_mask: true,
        colour: WHITE,
        tw: 2,
        th: 2,
        row: 3,
        col: 4 + index as u16,
        xoff: 5,
        yoff: 6,
        z: 1_000_000,
    }
}

fn draw(scene: &mut GlyphScene, glyphs: Vec<GlyphDraw<'static>>) -> (String, usize, usize, usize) {
    let mut buf = Vec::new();
    scene.begin_tick();
    assert!(scene.can_draw(glyphs.len()));
    let tally = scene.render_glyphs(&mut buf, &glyphs);
    (
        String::from_utf8(buf).unwrap(),
        tally.uploaded,
        tally.placed,
        tally.gone.len(),
    )
}

#[test]
fn glyph_ids_never_collide_with_the_sprite_or_frame_bands() {
    let mut scene = GlyphScene::default();
    let id = scene.alloc_img_id();
    assert!(id > GLYPH_ID_BASE, "{id}");
    // Well clear of frame mode's id 1 and the sprite pass's 1000-based band.
    assert!(id > 1000, "glyph id {id} would collide with sprite ids");
    assert_eq!(scene.alloc_placement_id(), 100_001);
    assert_eq!(scene.alloc_placement_id(), 100_002);
}

#[test]
fn the_same_letter_in_the_same_colour_and_size_shares_one_key() {
    // This is the reuse the whole pass exists for: 167 glyphs from 69 images.
    let a = glyph_key("atlas0", "4", "8", 5, 7, &WHITE, 30, 42);
    let b = glyph_key("atlas0", "4", "8", 5, 7, &WHITE, 30, 42);
    assert_eq!(a, b);
}

#[test]
fn colour_and_target_size_both_split_the_cache() {
    // Kitty cannot tint or rescale a placement, so either difference is a genuinely
    // different image. Omitting one from the key would draw the wrong colour or a squashed
    // letter.
    let base = glyph_key("atlas0", "4", "8", 5, 7, &WHITE, 30, 42);
    let recoloured = glyph_key("atlas0", "4", "8", 5, 7, &RED, 30, 42);
    let resized = glyph_key("atlas0", "4", "8", 5, 7, &WHITE, 60, 84);
    assert_ne!(base, recoloured);
    assert_ne!(base, resized);
}

#[test]
fn different_atlas_rects_are_different_glyphs() {
    // Two letters at the same size in the same colour differ only by rect.
    let a = glyph_key("atlas0", "4", "8", 5, 7, &WHITE, 30, 42);
    let b = glyph_key("atlas0", "12", "8", 5, 7, &WHITE, 30, 42);
    assert_ne!(a, b);
}

#[test]
fn keys_spell_out_everything() {
    assert_eq!(
        glyph_key("atlas0", "4", "8.5", 5, 7, &RED, 30, 42),
        "atlas0|4,8.5,5,7|1.000,0.000,0.000,1.000|30x42"
    );
    // Every level, against the same fraction printed with three decimals.
    for q in 0..=15u8 {
        let l = Levels {
            r: q,
            g: q,
            b: q,
            a: q,
        };
        let f = format!("{:.3}", q as f32 / 15.0);
        assert_eq!(
            glyph_key("t", "0", "0", 1, 1, &l, 1, 1),
            format!("t|0,0,1,1|{f},{f},{f},{f}|1x1")
        );
    }
}

#[test]
fn glyph_placements_carry_no_cell_span() {
    // The fix for squashed text: cols/rows must stay 0 so kitty draws the pre-scaled glyph
    // 1:1. proto::place_scaled omits zero keys.
    let geom = Geom {
        row: 2,
        col: 66,
        xoff: 1,
        yoff: 20,
        z: 5_100_000,
        cols: 0,
        rows: 0,
    };
    let mut buf = Vec::new();
    proto::place_scaled(
        &mut buf, 100_001, 100_001, geom.z, geom.cols, geom.rows, geom.xoff, geom.yoff,
    );
    let s = String::from_utf8(buf).unwrap();
    assert!(
        !s.contains(",c="),
        "glyph placement must not size by cells: {s}"
    );
    assert!(
        !s.contains(",r="),
        "glyph placement must not size by cells: {s}"
    );
    assert!(s.contains("X=1"));
    assert!(s.contains("Y=20"));
}

#[test]
fn text_sorts_above_y_sorted_world_sprites() {
    // The guarantee: text beats the y-sort band (world z around 1.0), so a label is never
    // hidden behind the actor it names, even at text z=0.
    let y_sort_max = (1.02_f32 * Z_SPREAD as f32) as i32;
    let text_at_zero = (0.0_f32 * Z_SPREAD as f32) as i32 + TEXT_Z_BIAS;
    assert!(
        text_at_zero > y_sort_max,
        "text at z=0 ({text_at_zero}) must beat the y-sort band ({y_sort_max})"
    );
    assert_eq!(text_z(0), text_at_zero);
}

#[test]
fn a_high_z_overlay_still_draws_over_text_which_is_correct() {
    // The LIMIT of the bias: a full-screen colour grade at world z 100 tints the text along
    // with the scene, which is what a real window does.
    let grade = (100.0_f32 * Z_SPREAD as f32) as i32;
    let text_at_zero = TEXT_Z_BIAS;
    assert!(
        grade > text_at_zero,
        "a z=100 overlay ({grade}) is expected to sit above text ({text_at_zero})"
    );
}

#[test]
fn a_glyph_goes_up_once_and_is_placed_often() {
    let mut scene = GlyphScene::new();
    let (s, uploaded, placed, gone) = draw(&mut scene, vec![glyph(1, 0), glyph(1, 1), glyph(2, 0)]);
    assert_eq!((uploaded, placed, gone), (1, 3, 0));
    assert_eq!(
        s,
        "\x1b_Ga=t,f=32,s=2,v=2,i=100001,q=2,m=0;////AP///1D///+g////8A==\x1b\\\
         \x1b[3;4H\x1b_Ga=p,i=100001,p=100001,z=1000000,C=1,q=2,X=5,Y=6\x1b\\\
         \x1b[3;5H\x1b_Ga=p,i=100001,p=100002,z=1000000,C=1,q=2,X=5,Y=6\x1b\\\
         \x1b[3;4H\x1b_Ga=p,i=100001,p=100003,z=1000000,C=1,q=2,X=5,Y=6\x1b\\"
    );
    assert_eq!((scene.glyph_count(), scene.slot_count()), (1, 3));
    // Still text is free.
    let (s, uploaded, placed, gone) = draw(&mut scene, vec![glyph(1, 0), glyph(1, 1), glyph(2, 0)]);
    assert_eq!((s.as_str(), uploaded, placed, gone), ("", 0, 0, 0));
}

#[test]
fn changed_text_re_points_its_slots() {
    let mut scene = GlyphScene::new();
    draw(&mut scene, vec![glyph(1, 0), glyph(1, 1)]);
    // The first letter turns red, the second is gone.
    let mut red = glyph(1, 0);
    red.colour = RED;
    let (s, uploaded, placed, gone) = draw(&mut scene, vec![red]);
    assert_eq!((uploaded, placed, gone), (1, 1, 1));
    assert_eq!(
        s,
        "\x1b_Ga=t,f=32,s=2,v=2,i=100002,q=2,m=0;/wAAAP8AAFD/AACg/wAA8A==\x1b\\\
         \x1b_Ga=d,d=i,i=100001,p=100001,q=2\x1b\\\
         \x1b[3;4H\x1b_Ga=p,i=100002,p=100001,z=1000000,C=1,q=2,X=5,Y=6\x1b\\\
         \x1b_Ga=d,d=i,i=100001,p=100002,q=2\x1b\\"
    );
    assert_eq!((scene.glyph_count(), scene.slot_count()), (2, 1));
}

#[test]
fn glyphs_are_cropped_tinted_and_scaled() {
    let mut scene = GlyphScene::new();
    // A colour glyph keeps its colours under a white tint, and is averaged to one pixel.
    let mut g = glyph(1, 0);
    g.x0 = 2;
    g.rx = "2".to_string();
    g.alpha_mask = false;
    g.tw = 1;
    g.th = 1;
    // 1, 5, 9, 13 average to 7, and so on: BwgJCg== is 7, 8, 9, 10.
    let (s, ..) = draw(&mut scene, vec![g]);
    assert!(s.starts_with("\x1b_Ga=t,f=32,s=1,v=1,i=100001,q=2,m=0;BwgJCg==\x1b\\"));
    // A tint that is not white is honoured all the same.
    let mut g = glyph(1, 0);
    g.x0 = 2;
    g.rx = "2".to_string();
    g.alpha_mask = false;
    g.colour = RED;
    g.tw = 1;
    g.th = 1;
    // BwAACg== is 7, 0, 0, 10.
    let (s, ..) = draw(&mut scene, vec![g]);
    assert!(s.starts_with("\x1b_Ga=t,f=32,s=1,v=1,i=100002,q=2,m=0;BwAACg==\x1b\\"));
}

#[test]
fn a_glyph_without_pixels_is_not_drawn_but_keeps_its_slot() {
    let mut scene = GlyphScene::new();
    draw(&mut scene, vec![glyph(1, 0)]);
    let unavailable = |atlas: Option<CpuImage<'static>>| {
        let mut g = glyph(1, 0);
        g.colour = RED;
        g.atlas = atlas;
        g
    };
    for atlas in [
        None,
        Some(CpuImage {
            data: None,
            ..atlas()
        }),
        Some(CpuImage {
            rgba8: false,
            ..atlas()
        }),
        Some(CpuImage {
            height: 1,
            ..atlas()
        }),
    ] {
        let (s, uploaded, placed, gone) = draw(&mut scene, vec![unavailable(atlas)]);
        assert_eq!((s.as_str(), uploaded, placed, gone), ("", 0, 0, 0));
        assert_eq!(scene.slot_count(), 1);
    }
    // A glyph that never had pixels has no slot.
    let mut never = unavailable(None);
    never.entity = 9;
    draw(&mut scene, vec![glyph(1, 0), never]);
    assert_eq!(scene.slot_count(), 1);
}

#[test]
fn the_clock_runs_once_a_tick() {
    let mut scene = GlyphScene::new();
    assert!(scene.begin_tick());
    scene.set_term(bevy_kitty::term::TermSize {
        cols: 80,
        rows: 24,
        xpixel: 640,
        ypixel: 384,
    });
    assert!(!scene.begin_tick());
    assert_eq!(scene.clock().tick, 2);
}

#[test]
fn drawing_a_glyph_again_is_free() {
    let mut scene = GlyphScene::new();
    scene.begin_tick();
    let g = glyph(1, 0);
    let mut buf = Vec::new();
    let first = scene.draw_glyph(&mut buf, &g);
    assert!(first.uploaded && first.placed);
    // One cursor move and one placement, which spans no cells.
    let s = String::from_utf8(buf).unwrap();
    assert!(s.ends_with(
        "\x1b[3;4H\x1b_Ga=p,i=100001,p=100001,z=1000000,C=1,q=2,X=5,Y=6\x1b\\"
    ));
    assert_eq!(s.matches("a=p").count(), 1);
    let mut buf = Vec::new();
    let again = scene.draw_glyph(&mut buf, &g);
    assert!(!again.uploaded && !again.placed && buf.is_empty());
    assert_eq!((scene.glyph_count(), scene.slot_count()), (1, 1));
}

#[test]
fn a_full_band_uploads_no_more_glyphs() {
    let mut scene = GlyphScene::new();
    draw(&mut scene, vec![glyph(1, 0)]);
    let mut last = 100_001;
    while !scene.is_full() {
        last = scene.alloc_img_id();
    }
    assert_eq!(last, 200_000);
    assert_eq!(last, bevy_kitty::ui::UI_IMG_ID_BASE);
    // A colour that never went up is not drawn; what went up is drawn anywhere.
    let mut red = glyph(1, 1);
    red.colour = RED;
    let (s, uploaded, placed, gone) = draw(&mut scene, vec![glyph(1, 0), red]);
    assert_eq!((s.as_str(), uploaded, placed, gone), ("", 0, 0, 0));
    let (s, uploaded, placed, gone) = draw(&mut scene, vec![glyph(1, 0), glyph(1, 2)]);
    assert!(s.contains("a=p,i=100001,p=100002,"));
    assert_eq!((uploaded, placed, gone), (0, 1, 0));
}
