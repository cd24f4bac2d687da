//! The sprite pass: keys, uploads and placements.

use std::collections::HashSet;

use bevy_kitty::colour::{push_tint, Levels};
use bevy_kitty::label::{id_index, image_label, AssetName};
use bevy_kitty::pixels::{Bitmap, CellRect};
use bevy_kitty::screen::Geom;
use bevy_kitty::sprite::{
    plan_sprite, SheetCell, SpriteDraw, SpriteLook, SpritePlan, SpriteScene, SOLID_TILE_PX,
    SPRITE_IMG_ID_BASE, TEXT_Z_BIAS, Z_SPREAD,
};

/// A colour given as fractions, quantised to sixteen levels.
fn quantise(r: f32, g: f32, b: f32, a: f32) -> Levels {
    let q = |v: f32| (v.clamp(0.0, 1.0) * 15.0).round() as u8;
    Levels {
        r: q(r),
        g: q(g),
        b: q(b),
        a: q(a),
    }
}

const WHITE: Levels = Levels {
    r: 15,
    g: 15,
    b: 15,
    a: 15,
};

fn tint_key(l: Levels) -> String {
    let mut key = String::new();
    push_tint(&mut key, &l);
    key
}

fn file(name: &str) -> AssetName {
    AssetName::Path {
        file_name: Some(name.to_string()),
        full: format!("sheets/{name}"),
    }
}

/// A visible, untinted sprite of a file.
fn look(name: &str) -> SpriteLook {
    SpriteLook {
        visible: true,
        tint: WHITE,
        flip_x: false,
        flip_y: false,
        cell: SheetCell::Whole,
        default_image: false,
        has_pixels: false,
        image: file(name),
        sized: false,
    }
}

/// A flat-colour sprite.
fn panel(tint: Levels) -> SpriteLook {
    SpriteLook {
        tint,
        default_image: true,
        has_pixels: true,
        image: AssetName::Generated {
            id: "AssetId<Image>{ index: 0, generation: 0}".to_string(),
        },
        sized: true,
        ..look("")
    }
}

fn key_of(plan: &SpritePlan) -> Option<&str> {
    match plan {
        SpritePlan::Skip => None,
        SpritePlan::Solid { key } => Some(key),
        SpritePlan::Image { key, .. } => Some(key),
    }
}

fn geom(row: u16, col: u16) -> Geom {
    Geom {
        row,
        col,
        xoff: 1,
        yoff: 2,
        z: 100_250,
        cols: 12,
        rows: 6,
    }
}

fn bitmap(w: u32, h: u32) -> Bitmap {
    Bitmap::new((0..w * h * 4).map(|i| i as u8).collect(), w, h).unwrap()
}

/// Draws one sprite, as a tick does.
fn draw(
    scene: &mut SpriteScene,
    entity: u64,
    look: &SpriteLook,
    pixels: Option<Bitmap>,
    at: Option<Geom>,
) -> String {
    let mut buf = Vec::new();
    let plan = plan_sprite(look);
    if let Some(up) = scene.ensure_bitmap(&mut buf, look, plan, pixels) {
        scene.place(&mut buf, entity, up, at);
    }
    String::from_utf8(buf).unwrap()
}

#[test]
fn image_ids_start_above_frame_modes_reserved_id() {
    // Frame mode owns id 1. Colliding with it would make a sprite overwrite the
    // whole-screen plate, which looks like the screen going blank.
    let mut scene = SpriteScene::default();
    let first = scene.alloc_img_id();
    assert!(
        first > 1,
        "first sprite img id {first} must clear frame mode's id 1"
    );
    assert_eq!(first, SPRITE_IMG_ID_BASE + 1);
    assert_eq!(scene.alloc_img_id(), SPRITE_IMG_ID_BASE + 2);
}

#[test]
fn placement_ids_are_never_reused() {
    let mut scene = SpriteScene::default();
    let ids: Vec<u32> = (0..100).map(|_| scene.alloc_placement_id()).collect();
    let unique: HashSet<u32> = ids.iter().copied().collect();
    assert_eq!(unique.len(), ids.len(), "placement ids must be unique");
    assert_eq!(ids[0], 1);
    assert_eq!(ids[99], 100);
}

#[test]
fn a_fade_collapses_to_a_handful_of_cache_keys() {
    // The measured bug that quantising fixes: at full precision a fade minted a new key
    // (and a new upload) every tick.
    let keys: HashSet<String> = (0..=100)
        .map(|i| {
            let a = i as f32 / 100.0;
            tint_key(quantise(1.0, 1.0, 1.0, a))
        })
        .collect();
    assert!(
        keys.len() <= 17,
        "101 fade steps should collapse to at most 17 keys, got {}",
        keys.len()
    );
}

#[test]
fn quantised_colour_matches_the_key_that_names_it() {
    // If the pixels were tinted with the raw colour but keyed by the quantised one, two
    // visibly different bitmaps would share a cache entry.
    let tint_a = quantise(0.51, 0.2, 0.9, 1.0);
    let tint_b = quantise(0.515, 0.2, 0.9, 1.0);
    assert_eq!(
        tint_key(tint_a),
        tint_key(tint_b),
        "near-identical colours should share a key"
    );
    assert_eq!(tint_a, tint_b, "and therefore share exact pixels");
}

#[test]
fn a_generated_image_key_is_short_not_a_type_name() {
    // An asset id's debug form is ~60-77 characters of type name, which buried the
    // informative part of the key in the logs. Both of its shapes (index for a runtime
    // asset, uuid for a compile-time constant) must come out short.
    let id = bevy::asset::AssetId::<bevy::image::Image>::default();
    let label = id_index(&format!("{id:?}"));
    assert!(
        label.len() <= 12,
        "expected a short id, got {} chars: {label}",
        label.len()
    );
    assert!(
        !label.contains("bevy_image"),
        "the type name leaked into the key: {label}"
    );
}

#[test]
fn both_shapes_of_an_id_are_understood() {
    assert_eq!(
        id_index("AssetId<bevy_image::image::Image>{ index: 68, generation: 0}"),
        "68"
    );
    assert_eq!(
        id_index("AssetId<bevy_image::image::Image>{uuid: 97128bb1-2588-480b-bdc6-87b4adbec477}"),
        "97128bb1"
    );
    // Unrecognised: the last dozen characters.
    assert_eq!(id_index("0123456789abcdef"), "456789abcdef");
    assert_eq!(id_index("short"), "short");
    assert_eq!(id_index(""), "");
    // The first marker counts, up to the second.
    assert_eq!(id_index("index: 5index: 6"), "5");
    assert_eq!(id_index("index:  7 }}"), "7");
    assert_eq!(id_index("index: }"), "");
    // Characters, not bytes.
    assert_eq!(
        id_index("\u{e9}\u{e9}\u{e9}0123456789ab\u{e9}"),
        "123456789ab\u{e9}"
    );
}

#[test]
fn labels_prefer_the_file_name() {
    assert_eq!(image_label(&file("artie_sheet.png")), "artie_sheet.png");
    let bare = AssetName::Path {
        file_name: None,
        full: "..".to_string(),
    };
    assert_eq!(image_label(&bare), "..");
    let made = AssetName::Generated {
        id: "AssetId<Image>{ index: 68, generation: 0}".to_string(),
    };
    assert_eq!(image_label(&made), "gen:68");
}

#[test]
fn white_tint_produces_an_empty_key_suffix() {
    // So an untinted sprite shares one cache entry rather than one per colour.
    assert_eq!(tint_key(quantise(1.0, 1.0, 1.0, 1.0)), "");
    assert_ne!(tint_key(quantise(1.0, 0.0, 0.0, 1.0)), "");
}

#[test]
fn a_solid_tile_costs_one_pixel_however_big_it_draws() {
    // The measured trap: full-screen effect overlays get sized well beyond the virtual
    // resolution. Kitty stretches the placement, so a flat colour needs exactly one pixel.
    assert_eq!(SOLID_TILE_PX, 1);
    let bytes = (SOLID_TILE_PX as usize).pow(2) * 4;
    assert_eq!(bytes, 4, "a solid upload should be 4 bytes, got {bytes}");
    let mut scene = SpriteScene::new();
    let red = Levels {
        r: 15,
        g: 0,
        b: 0,
        a: 15,
    };
    // /wAA/w== is 255, 0, 0, 255. A mirrored flat colour is the same colour.
    let mut mirrored = panel(red);
    mirrored.flip_x = true;
    assert_eq!(
        draw(&mut scene, 1, &mirrored, None, None),
        "\x1b_Ga=t,f=32,s=1,v=1,i=1001,q=2,m=0;/wAA/w==\x1b\\"
    );
    // The placement still spans the cells that the panel fills.
    let wide = Geom {
        cols: 3200,
        rows: 1800,
        ..geom(1, 1)
    };
    let s = draw(&mut scene, 1, &panel(red), None, Some(wide));
    assert!(!s.contains("a=t"));
    assert!(s.contains("c=3200,r=1800"));
}

#[test]
fn solid_tiles_are_cached_by_colour_alone_not_by_size() {
    // Because the pixels do not depend on the size, differently sized panels sharing a
    // colour must share ONE upload. Keying by size would give a hundred-panel UI a hundred
    // identical 4-byte images.
    let key_of = |l: Levels| format!("solid{}", tint_key(l));
    let red = quantise(1.0, 0.0, 0.0, 1.0);
    assert_eq!(key_of(red), key_of(red));
    assert_ne!(key_of(red), key_of(quantise(0.0, 0.0, 1.0, 1.0)));
    // And that is the key that a flat sprite gets.
    match plan_sprite(&panel(red)) {
        SpritePlan::Solid { key } => assert_eq!(key, key_of(red)),
        _ => panic!("a panel should be solid"),
    }
}

#[test]
fn z_spread_keeps_a_narrow_band_distinguishable() {
    // The real failure: a `* 10.0` factor truncated a [1.0, 1.018] y-sort band to a single
    // z, losing front-to-back ordering entirely.
    let near = (1.0_f32 * Z_SPREAD as f32) as i32;
    let far = (1.018_f32 * Z_SPREAD as f32) as i32;
    assert!(far - near > 1000, "band spans only {} z values", far - near);
    // And text still clears the whole world band.
    assert!(
        TEXT_Z_BIAS > far,
        "text bias {TEXT_Z_BIAS} must clear world max {far}"
    );
}

#[test]
fn keys_name_the_sheet_the_cell_the_tint_and_the_flip() {
    let mut l = look("artie_sheet.png");
    l.cell = SheetCell::Cell {
        index: 1,
        rect: CellRect {
            x0: 64,
            y0: 0,
            x1: 128,
            y1: 64,
        },
    };
    l.tint = Levels {
        r: 13,
        g: 11,
        b: 8,
        a: 15,
    };
    match plan_sprite(&l) {
        SpritePlan::Image { key, cell } => {
            assert_eq!(key, "artie_sheet.png#1@db8f");
            assert_eq!(cell.unwrap().width(), 64);
        }
        _ => panic!("a file should be an image"),
    }
    let mut keys = HashSet::new();
    for (fx, fy, suffix) in [
        (false, false, ""),
        (true, false, "|fx"),
        (false, true, "|fy"),
        (true, true, "|fxy"),
    ] {
        l.flip_x = fx;
        l.flip_y = fy;
        let plan = plan_sprite(&l);
        let key = key_of(&plan).unwrap().to_string();
        assert_eq!(key, format!("artie_sheet.png#1@db8f{suffix}"));
        keys.insert(key);
    }
    assert_eq!(keys.len(), 4);
}

#[test]
fn what_draws_nothing_is_skipped() {
    let skipped = |l: SpriteLook| matches!(plan_sprite(&l), SpritePlan::Skip);
    assert!(!skipped(look("a.png")));
    assert!(skipped(SpriteLook {
        visible: false,
        ..look("a.png")
    }));
    // Fully transparent, and so faint that it quantises to it.
    assert!(skipped(SpriteLook {
        tint: quantise(1.0, 1.0, 1.0, 0.0),
        ..look("a.png")
    }));
    assert!(skipped(SpriteLook {
        tint: quantise(1.0, 1.0, 1.0, 0.03),
        ..look("a.png")
    }));
    assert!(!skipped(SpriteLook {
        tint: quantise(1.0, 1.0, 1.0, 0.04),
        ..look("a.png")
    }));
    assert!(skipped(SpriteLook {
        cell: SheetCell::Missing,
        ..look("a.png")
    }));
    // Neither an image nor a size.
    assert!(skipped(SpriteLook {
        sized: false,
        ..panel(WHITE)
    }));
}

#[test]
fn the_default_image_is_not_an_image() {
    // There is a white pixel behind the default handle, which no sprite means to draw.
    assert!(matches!(
        plan_sprite(&panel(WHITE)),
        SpritePlan::Solid { .. }
    ));
    let generated = SpriteLook {
        default_image: false,
        ..panel(WHITE)
    };
    assert!(matches!(plan_sprite(&generated), SpritePlan::Image { .. }));
    let unloaded = SpriteLook {
        has_pixels: false,
        ..generated
    };
    assert!(matches!(plan_sprite(&unloaded), SpritePlan::Solid { .. }));
}

#[test]
fn a_bitmap_goes_up_once_and_then_only_moves() {
    let mut scene = SpriteScene::new();
    scene.begin_tick();
    let l = look("a.png");
    let plan = plan_sprite(&l);
    assert!(scene.wants_pixels(&plan));
    // AAECAwQFBgc= is bytes 0 to 7.
    let up = "\x1b_Ga=t,f=32,s=2,v=1,i=1001,q=2,m=0;AAECAwQFBgc=\x1b\\";
    let at = |row: u16, col: u16, pid: u32| {
        format!(
            "\x1b[{row};{col}H\x1b_Ga=p,i=1001,p={pid},z=100250,C=1,q=2,c=12,r=6,X=1,Y=2\x1b\\"
        )
    };
    assert_eq!(
        draw(&mut scene, 7, &l, Some(bitmap(2, 1)), Some(geom(3, 4))),
        format!("{up}{}", at(3, 4, 1))
    );
    assert!(!scene.wants_pixels(&plan));
    // A second entity shares the upload, under a placement of its own.
    assert_eq!(
        draw(&mut scene, 8, &l, None, Some(geom(5, 6))),
        at(5, 6, 2)
    );
    // A still sprite costs nothing; a moved one costs a placement.
    assert_eq!(draw(&mut scene, 7, &l, None, Some(geom(3, 4))), "");
    assert_eq!(
        draw(&mut scene, 7, &l, None, Some(geom(3, 5))),
        at(3, 5, 1)
    );
    assert_eq!(scene.bitmap_count(), 1);
    assert_eq!(scene.entity_count(), 2);
    assert!(scene.placement_ids_are_unique());
}

#[test]
fn a_tick_draws_all_sprites_in_order() {
    let sprite = |entity: u64, look: SpriteLook, pixels: Option<Bitmap>, at: Option<Geom>| {
        SpriteDraw {
            entity,
            look,
            pixels,
            geom: at,
        }
    };
    let red = Levels {
        r: 15,
        g: 0,
        b: 0,
        a: 15,
    };
    let list = |pixels: Option<Bitmap>| {
        vec![
            sprite(7, look("a.png"), pixels, Some(geom(3, 4))),
            // The same image again, found no pixels for a second time.
            sprite(8, look("a.png"), None, Some(geom(5, 6))),
            sprite(9, panel(red), None, Some(geom(7, 8))),
            // Off-screen: it gets an id of its own, and goes again.
            sprite(10, look("a.png"), None, None),
            // Not loaded yet.
            sprite(11, look("b.png"), None, Some(geom(1, 1))),
            sprite(
                12,
                SpriteLook {
                    visible: false,
                    ..look("a.png")
                },
                None,
                Some(geom(1, 1)),
            ),
        ]
    };
    let at = |img: u32, pid: u32, row: u16, col: u16| {
        format!(
            "\x1b[{row};{col}H\x1b_Ga=p,i={img},p={pid},z=100250,C=1,q=2,c=12,r=6,X=1,Y=2\x1b\\"
        )
    };
    let mut scene = SpriteScene::new();
    scene.begin_tick();
    let mut buf = Vec::new();
    let tally = scene.render_sprites(&mut buf, list(Some(bitmap(2, 1))));
    assert_eq!(
        String::from_utf8(buf).unwrap(),
        format!(
            "\x1b_Ga=t,f=32,s=2,v=1,i=1001,q=2,m=0;AAECAwQFBgc=\x1b\\{}{}\
             \x1b_Ga=t,f=32,s=1,v=1,i=1002,q=2,m=0;/wAA/w==\x1b\\{}",
            at(1001, 1, 3, 4),
            at(1001, 2, 5, 6),
            at(1002, 3, 7, 8),
        )
    );
    assert_eq!((tally.uploaded, tally.placed), (2, 3));
    assert_eq!(tally.gone, vec![10u128 << 64]);
    assert_eq!((scene.bitmap_count(), scene.entity_count()), (2, 3));
    let up = scene.uploaded(&plan_sprite(&look("a.png"))).unwrap();
    assert_eq!((up.w, up.h, up.img_id), (2, 1, 1001));
    assert!(scene.uploaded(&plan_sprite(&look("b.png"))).is_none());
    assert!(scene.uploaded(&SpritePlan::Skip).is_none());
    // The same again costs nothing.
    scene.begin_tick();
    let mut buf = Vec::new();
    let tally = scene.render_sprites(&mut buf, list(None));
    assert!(buf.is_empty());
    assert_eq!((tally.uploaded, tally.placed), (0, 0));
    assert_eq!(tally.gone.len(), 1);
    // Nothing is left of an empty scene, but the bitmaps stay.
    scene.begin_tick();
    let mut buf = Vec::new();
    let tally = scene.render_sprites(&mut buf, Vec::new());
    let s = String::from_utf8(buf).unwrap();
    assert_eq!(s.matches("a=d").count(), 3);
    assert_eq!(tally.gone.len(), 3);
    assert_eq!((scene.bitmap_count(), scene.entity_count()), (2, 0));
}

#[test]
fn a_new_image_drops_the_old_placement_first() {
    let mut scene = SpriteScene::new();
    scene.begin_tick();
    draw(
        &mut scene,
        7,
        &look("a.png"),
        Some(bitmap(1, 1)),
        Some(geom(1, 1)),
    );
    let s = draw(
        &mut scene,
        7,
        &look("b.png"),
        Some(bitmap(1, 1)),
        Some(geom(1, 1)),
    );
    assert_eq!(
        s,
        "\x1b_Ga=t,f=32,s=1,v=1,i=1002,q=2,m=0;AAECAw==\x1b\\\
         \x1b_Ga=d,d=i,i=1001,p=1,q=2\x1b\\\
         \x1b[1;1H\x1b_Ga=p,i=1002,p=1,z=100250,C=1,q=2,c=12,r=6,X=1,Y=2\x1b\\"
    );
    // Back again: no pixels, but the other placement goes first.
    let s = draw(&mut scene, 7, &look("a.png"), None, Some(geom(1, 1)));
    assert!(s.starts_with("\x1b_Ga=d,d=i,i=1002,p=1,q=2\x1b\\\x1b[1;1H"));
    assert!(!s.contains("a=t"));
}

#[test]
fn tint_and_flip_are_baked_into_the_pixels() {
    let mut scene = SpriteScene::new();
    let mut l = look("a.png");
    l.tint = Levels {
        r: 15,
        g: 0,
        b: 15,
        a: 15,
    };
    l.flip_x = true;
    let src = Bitmap::new(vec![1, 2, 3, 4, 5, 6, 7, 8], 2, 1).unwrap();
    let s = draw(&mut scene, 1, &l, Some(src), None);
    // BQAHCAEAAwQ= is 5, 0, 7, 8, 1, 0, 3, 4.
    assert_eq!(
        s,
        "\x1b_Ga=t,f=32,s=2,v=1,i=1001,q=2,m=0;BQAHCAEAAwQ=\x1b\\"
    );
}

#[test]
fn pixels_that_are_not_there_yet_are_asked_for_again() {
    let mut scene = SpriteScene::new();
    let l = look("a.png");
    assert_eq!(draw(&mut scene, 1, &l, None, Some(geom(1, 1))), "");
    assert_eq!((scene.bitmap_count(), scene.entity_count()), (0, 0));
    assert!(scene.wants_pixels(&plan_sprite(&l)));
    assert!(!scene.wants_pixels(&plan_sprite(&panel(WHITE))));
    assert!(!scene.wants_pixels(&SpritePlan::Skip));
}

#[test]
fn what_vanishes_is_retired_and_its_bitmap_stays() {
    let mut scene = SpriteScene::new();
    scene.begin_tick();
    let l = look("a.png");
    draw(&mut scene, 1, &l, Some(bitmap(1, 1)), Some(geom(1, 1)));
    draw(&mut scene, 2, &l, None, Some(geom(2, 2)));
    let mut buf = Vec::new();
    assert!(scene.finish(&mut buf).is_empty());
    assert!(buf.is_empty());
    // Entity 1 goes off-screen, entity 2 is gone, entity 3 appears off-screen.
    scene.begin_tick();
    assert_eq!(draw(&mut scene, 1, &l, None, None), "");
    assert_eq!(draw(&mut scene, 3, &l, None, None), "");
    assert_eq!(scene.entity_count(), 3);
    let gone = scene.finish(&mut buf);
    assert_eq!(gone.len(), 3);
    let s = String::from_utf8(buf).unwrap();
    assert!(s.contains("\x1b_Ga=d,d=i,i=1001,p=1,q=2\x1b\\"));
    assert!(s.contains("\x1b_Ga=d,d=i,i=1001,p=2,q=2\x1b\\"));
    assert_eq!(
        s.matches("a=d").count(),
        2,
        "what never showed costs nothing"
    );
    assert_eq!((scene.bitmap_count(), scene.entity_count()), (1, 0));
    // It comes back under a new placement id, without an upload.
    scene.begin_tick();
    let s = draw(&mut scene, 1, &l, None, Some(geom(1, 1)));
    assert!(s.contains("a=p,i=1001,p=4,"));
    assert!(!s.contains("a=t"));
}

#[test]
fn a_still_scene_costs_nothing() {
    let mut scene = SpriteScene::new();
    for tick in 0..3 {
        scene.begin_tick();
        let mut bytes = 0;
        for e in 0..5u64 {
            let l = look(if e % 2 == 0 { "a.png" } else { "b.png" });
            let pixels = scene
                .wants_pixels(&plan_sprite(&l))
                .then(|| bitmap(1, 1));
            bytes += draw(&mut scene, e, &l, pixels, Some(geom(e as u16, 1))).len();
        }
        let mut buf = Vec::new();
        scene.finish(&mut buf);
        bytes += buf.len();
        assert_eq!(bytes == 0, tick > 0, "tick {tick} cost {bytes} bytes");
    }
    assert!(scene.can_draw(1000));
    assert!(!scene.can_draw(u32::MAX as usize));
    assert_eq!(scene.clock().tick, 3);
}

#[test]
fn a_still_scene_with_a_missing_image_costs_nothing() {
    // Two sprites wait for one image; a third is drawn.
    let sprites = || {
        (0..3u64)
            .map(|e| SpriteDraw {
                entity: e,
                look: look(if e == 2 { "a.png" } else { "missing.png" }),
                pixels: (e == 2).then(|| bitmap(1, 1)),
                geom: Some(geom(1 + e as u16, 1)),
            })
            .collect::<Vec<_>>()
    };
    let mut scene = SpriteScene::new();
    for tick in 0..4 {
        scene.begin_tick();
        let mut buf = Vec::new();
        let tally = scene.render_sprites(&mut buf, sprites());
        let first = usize::from(tick == 0);
        assert_eq!((tally.uploaded, tally.placed), (first, first));
        assert_eq!(tally.gone.len(), 0);
        assert_eq!(buf.is_empty(), tick > 0);
        assert_eq!((scene.bitmap_count(), scene.entity_count()), (1, 1));
    }
}

#[test]
fn a_full_band_uploads_nothing_more_and_goes_on_showing() {
    // The last id of the sprites is the greatest below the first of the glyphs. One more
    // would replace a glyph's pixels.
    let mut scene = SpriteScene::new();
    scene.begin_tick();
    let known = look("a.png");
    draw(&mut scene, 1, &known, Some(bitmap(1, 1)), Some(geom(1, 1)));
    let mut last = 1001;
    while !scene.is_full() {
        last = scene.alloc_img_id();
    }
    assert_eq!(last, 100_000);
    assert_eq!(last, bevy_kitty::text::GLYPH_ID_BASE);

    let fresh = look("b.png");
    let s = draw(&mut scene, 2, &fresh, Some(bitmap(1, 1)), Some(geom(2, 1)));
    assert_eq!(s, "");
    let s = draw(&mut scene, 3, &panel(WHITE), None, Some(geom(3, 1)));
    assert_eq!(s, "");
    let mut buf = Vec::new();
    let up = scene.ensure_bitmap(&mut buf, &fresh, plan_sprite(&fresh), Some(bitmap(1, 1)));
    assert!(up.is_none() && buf.is_empty());
    let s = draw(&mut scene, 4, &known, None, Some(geom(4, 1)));
    assert!(s.contains("a=p,i=1001,p=2,"));
    assert_eq!((scene.bitmap_count(), scene.entity_count()), (1, 2));
}

#[test]
fn a_new_image_comes_after_the_old_one_went() {
    let mut scene = SpriteScene::new();
    scene.begin_tick();
    draw(&mut scene, 1, &look("a.png"), Some(bitmap(1, 1)), Some(geom(1, 1)));
    let mut buf = Vec::new();
    assert!(scene.finish(&mut buf).is_empty());
    // The next tick shows another image in the same slot: same placement id, and the old
    // placement goes first.
    scene.begin_tick();
    let s = draw(&mut scene, 1, &look("b.png"), Some(bitmap(1, 1)), Some(geom(1, 1)));
    let old = s.find("a=d,d=i,i=1001,p=1,").unwrap();
    let new = s.find("a=p,i=1002,p=1,").unwrap();
    assert!(old < new);
    scene.finish(&mut buf);
    assert!(buf.is_empty());
    // Then it is gone: one deletion, of what was shown last.
    scene.begin_tick();
    assert_eq!(scene.finish(&mut buf).len(), 1);
    assert_eq!(
        String::from_utf8(buf).unwrap(),
        "\x1b_Ga=d,d=i,i=1002,p=1,q=2\x1b\\"
    );
    assert_eq!(scene.bitmap_count(), 2);
}

#[test]
fn a_still_scene_is_free_though_one_sprite_brought_the_pixels() {
    // The pixels of a new image come with the first sprite that shows it; whether any of
    // the others brings them too does not matter.
    for brings in [vec![0], vec![0, 2], vec![0, 1, 2]] {
        let sprites = |tick: usize| {
            (0..3u64)
                .map(|e| SpriteDraw {
                    entity: e,
                    look: look("a.png"),
                    pixels: (tick == 0 && brings.contains(&e)).then(|| bitmap(1, 1)),
                    geom: Some(geom(1 + e as u16, 1)),
                })
                .collect::<Vec<_>>()
        };
        let mut scene = SpriteScene::new();
        for tick in 0..3 {
            scene.begin_tick();
            let mut buf = Vec::new();
            let tally = scene.render_sprites(&mut buf, sprites(tick));
            let want = if tick == 0 { (1, 3) } else { (0, 0) };
            assert_eq!((tally.uploaded, tally.placed), want);
            assert_eq!(buf.is_empty(), tick > 0);
            assert_eq!((scene.bitmap_count(), scene.entity_count()), (1, 3));
            assert!(scene.placement_ids_are_unique());
        }
    }
}
