//! The interface pass: nodes, keys, uploads and placements.

use std::collections::HashSet;

use bevy_kitty::colour::Levels;
use bevy_kitty::label::AssetName;
use bevy_kitty::pixels::{Bitmap, CellRect};
use bevy_kitty::sprite::{TEXT_Z_BIAS, Z_SPREAD};
use bevy_kitty::ui::{
    ui_image_key, ui_solid_key, ui_text_z, ui_z, CellBox, ImagePart, SolidPart, UiDraw, UiNode,
    UiPart, UiScene, UI_IMG_ID_BASE, UI_TEXT_Z_BIAS, UI_Z_BASE,
};

/// A colour given as fractions, quantised to sixteen levels.
fn quantise(r: f32, g: f32, b: f32, a: f32) -> Levels {
    let q = |v: f32| (v.clamp(0.0, 1.0) * 15.0).round() as u8;
    Levels {
        r: q(r),
        g: q(g),
        b: q(b),
        a: q(a),
    }
}

const WHITE: Levels = Levels {
    r: 15,
    g: 15,
    b: 15,
    a: 15,
};

fn cells(row: u16) -> CellBox {
    CellBox {
        row,
        col: 2,
        xoff: 0,
        yoff: 3,
        cols: 4,
        rows: 1,
    }
}

fn solid(level: u8, row: u16) -> Option<SolidPart> {
    Some(SolidPart {
        levels: Levels {
            r: level,
            g: 0,
            b: 0,
            a: 15,
        },
        at: Some(cells(row)),
    })
}

fn node(entity: u64) -> UiNode {
    UiNode {
        entity,
        visible: true,
        empty: false,
        stack: 7,
        background: None,
        image: None,
        border_top: None,
        border_bottom: None,
        border_left: None,
        border_right: None,
        outline_top: None,
        outline_bottom: None,
        outline_left: None,
        outline_right: None,
    }
}

fn image(name: &str) -> ImagePart {
    ImagePart {
        name: AssetName::Path {
            file_name: Some(name.to_string()),
            full: name.to_string(),
        },
        region: None,
        levels: WHITE,
        flip_x: false,
        flip_y: false,
        at: Some(cells(9)),
    }
}

fn place(img: u32, pid: u32, row: u16) -> String {
    format!("\x1b[{row};2H\x1b_Ga=p,i={img},p={pid},z=2000007,C=1,q=2,c=4,r=1,Y=3\x1b\\")
}

#[test]
fn ui_ids_have_their_own_band() {
    // A collision with the sprite (>=1001) or glyph (>=100_001) bands would silently
    // replace someone else's pixels with a UI panel.
    let mut scene = UiScene::default();
    let img = scene.alloc_img_id();
    assert!(img > 100_001, "ui img id {img} must clear the glyph band");
    assert_eq!(img, UI_IMG_ID_BASE + 1);
    assert_eq!(scene.alloc_placement_id(), UI_IMG_ID_BASE + 1);
}

#[test]
fn ui_draws_above_the_world_and_above_text() {
    // The interface renders after the 2D pass, so a HUD must not fall behind the scene.
    // World-space text keeps a lower bias on purpose.
    assert!(UI_Z_BASE > TEXT_Z_BIAS);
    let world_max = (1.02_f32 * Z_SPREAD as f32) as i32;
    assert!(UI_Z_BASE > world_max);
}

#[test]
fn stack_index_orders_within_the_ui_band() {
    // Two siblings at the same position stack by document order, which no transform
    // records. Dropping the stack index would make their order arbitrary.
    let back = UI_Z_BASE;
    let front = UI_Z_BASE + 7;
    assert!(front > back);
    assert_eq!(ui_z(0), back);
    assert_eq!(ui_z(7), front);
    // A wrapped index lies behind.
    assert_eq!(ui_z(u32::MAX), UI_Z_BASE - 1);
    assert_eq!(ui_z(0x8000_0000), UI_Z_BASE + i32::MIN);
    assert_eq!(ui_text_z(), UI_Z_BASE + UI_TEXT_Z_BIAS);
}

#[test]
fn a_whole_palette_collapses_to_a_few_uploads() {
    // Solid tiles are keyed by colour alone, not by size, so a hundred differently sized
    // panels sharing a palette share their uploads.
    let sizes = [(10.0, 10.0), (200.0, 40.0), (1.0, 300.0)];
    let keys: HashSet<String> = sizes
        .iter()
        .map(|_| ui_solid_key(&quantise(0.1, 0.2, 0.3, 1.0)))
        .collect();
    assert_eq!(keys.len(), 1, "size must not split the solid cache");
    assert_eq!(
        keys.into_iter().next().unwrap(),
        "ui-solid@235f",
        "the key names the colour"
    );
}

#[test]
fn each_part_of_a_node_gets_its_own_slot_key() {
    // A node can draw many rectangles. Keying by entity alone would make them fight over
    // one placement id, which is the ghosting bug.
    let parts = [
        UiPart::Background,
        UiPart::Image,
        UiPart::BorderTop,
        UiPart::BorderRight,
        UiPart::BorderBottom,
        UiPart::BorderLeft,
        UiPart::OutlineTop,
        UiPart::OutlineRight,
        UiPart::OutlineBottom,
        UiPart::OutlineLeft,
    ];
    let unique: HashSet<UiPart> = parts.iter().copied().collect();
    assert_eq!(
        unique.len(),
        parts.len(),
        "UiPart variants must be distinct"
    );
    let codes: HashSet<u64> = parts.iter().map(|p| p.code()).collect();
    assert_eq!(codes.len(), parts.len());
}

#[test]
fn image_keys_name_the_region_the_tint_and_the_flip() {
    let mut p = image("icons.png");
    assert_eq!(ui_image_key(&p), "ui-img:icons.png@ffff");
    p.region = Some(CellRect {
        x0: 16,
        y0: 32,
        x1: 24,
        y1: 48,
    });
    p.flip_y = true;
    p.levels = quantise(1.0, 0.5, 0.0, 1.0);
    assert_eq!(ui_image_key(&p), "ui-img:icons.png#16,32,8,16@f80f|fy");
}

#[test]
fn a_node_draws_its_parts_in_order() {
    let mut n = node(5);
    n.outline_right = solid(10, 19);
    n.outline_left = solid(9, 18);
    n.outline_bottom = solid(8, 17);
    n.outline_top = solid(7, 16);
    n.border_right = solid(6, 15);
    n.border_left = solid(5, 14);
    n.border_bottom = solid(4, 13);
    n.border_top = solid(3, 12);
    n.image = Some(image("a.png"));
    n.background = solid(1, 10);
    let mut scene = UiScene::new();
    scene.begin_tick();
    let mut buf = Vec::new();
    assert!(scene.wants_pixels(&n));
    let pixels = Bitmap::new(vec![1, 2, 3, 4], 1, 1);
    let tally = scene.draw_node(&mut buf, &n, pixels);
    assert_eq!((tally.uploaded, tally.placed), (10, 10));
    let s = String::from_utf8(buf).unwrap();
    let mut want = String::new();
    let rows = [10, 9, 12, 13, 14, 15, 16, 17, 18, 19];
    let payloads = [
        "EQAA/w==", "AQIDBA==", "MwAA/w==", "RAAA/w==", "VQAA/w==", "ZgAA/w==", "dwAA/w==",
        "iAAA/w==", "mQAA/w==", "qgAA/w==",
    ];
    for i in 0..10u32 {
        let id = 200_001 + i;
        want.push_str(&format!(
            "\x1b_Ga=t,f=32,s=1,v=1,i={id},q=2,m=0;{}\x1b\\",
            payloads[i as usize]
        ));
        want.push_str(&place(id, id, rows[i as usize]));
    }
    assert_eq!(s, want);
    assert_eq!((scene.bitmap_count(), scene.slot_count()), (10, 10));
    // A second tick is free.
    scene.begin_tick();
    assert!(!scene.wants_pixels(&n));
    let mut buf = Vec::new();
    let tally = scene.draw_node(&mut buf, &n, None);
    assert_eq!((tally.uploaded, tally.placed), (0, 0));
    assert!(scene.finish(&mut buf).is_empty());
    assert!(buf.is_empty());
}

#[test]
fn panels_of_one_colour_share_an_upload() {
    let mut scene = UiScene::new();
    scene.begin_tick();
    let mut buf = Vec::new();
    for e in 0..20 {
        let mut n = node(e);
        n.background = solid(3, e as u16 + 1);
        scene.draw_node(&mut buf, &n, None);
    }
    assert_eq!((scene.bitmap_count(), scene.slot_count()), (1, 20));
    let s = String::from_utf8(buf).unwrap();
    assert_eq!(s.matches("a=t").count(), 1);
    assert_eq!(s.matches("a=p").count(), 20);
}

#[test]
fn a_tick_draws_all_nodes_and_retires_the_rest() {
    let draws = |count: u64| -> Vec<UiDraw> {
        (0..count)
            .map(|e| {
                let mut n = node(e);
                n.background = solid(3, e as u16 + 1);
                n.image = Some(image("a.png"));
                UiDraw {
                    node: n,
                    pixels: Bitmap::new(vec![1, 2, 3, 4], 1, 1),
                }
            })
            .collect()
    };
    let mut scene = UiScene::new();
    scene.begin_tick();
    let mut buf = Vec::new();
    let tally = scene.render_ui(&mut buf, draws(2));
    assert_eq!((tally.uploaded, tally.placed), (2, 4));
    assert!(tally.gone.is_empty());
    let want = format!(
        "\x1b_Ga=t,f=32,s=1,v=1,i=200001,q=2,m=0;MwAA/w==\x1b\\{}\
         \x1b_Ga=t,f=32,s=1,v=1,i=200002,q=2,m=0;AQIDBA==\x1b\\{}{}{}",
        place(200_001, 200_001, 1),
        place(200_002, 200_002, 9),
        place(200_001, 200_003, 2),
        place(200_002, 200_004, 9),
    );
    assert_eq!(String::from_utf8(buf).unwrap(), want);
    // The same again is free.
    scene.begin_tick();
    let mut buf = Vec::new();
    let tally = scene.render_ui(&mut buf, draws(2));
    assert_eq!((tally.uploaded, tally.placed, tally.gone.len()), (0, 0, 0));
    assert!(buf.is_empty());
    // Without its second node, the two rectangles of that node go.
    scene.begin_tick();
    let mut buf = Vec::new();
    let tally = scene.render_ui(&mut buf, draws(1));
    assert_eq!((tally.uploaded, tally.placed, tally.gone.len()), (0, 0, 2));
    let s = String::from_utf8(buf).unwrap();
    assert!(s.contains("\x1b_Ga=d,d=i,i=200001,p=200003,q=2\x1b\\"));
    assert!(s.contains("\x1b_Ga=d,d=i,i=200002,p=200004,q=2\x1b\\"));
    assert_eq!((scene.bitmap_count(), scene.slot_count()), (2, 2));
}

#[test]
fn hidden_empty_and_clipped_parts_draw_nothing() {
    let mut scene = UiScene::new();
    scene.begin_tick();
    let mut shown = node(1);
    shown.background = solid(3, 1);
    shown.image = Some(image("a.png"));
    let mut buf = Vec::new();
    scene.draw_node(&mut buf, &shown, Bitmap::new(vec![0; 4], 1, 1));
    assert_eq!(scene.slot_count(), 2);
    scene.finish(&mut buf);

    for change in 0..3 {
        let mut n = node(1);
        n.background = solid(3, 1);
        n.image = Some(image("b.png"));
        match change {
            0 => n.visible = false,
            1 => n.empty = true,
            _ => {
                n.background.as_mut().unwrap().at = None;
                n.image.as_mut().unwrap().at = None;
            }
        }
        assert!(!scene.wants_pixels(&n));
        scene.begin_tick();
        let mut buf = Vec::new();
        let tally = scene.draw_node(&mut buf, &n, Bitmap::new(vec![0; 4], 1, 1));
        assert_eq!((tally.uploaded, tally.placed), (0, 0));
        assert!(buf.is_empty());
    }
    // Nothing was seen, so both go; the bitmaps stay.
    let mut buf = Vec::new();
    assert_eq!(scene.finish(&mut buf).len(), 2);
    assert_eq!(String::from_utf8(buf).unwrap().matches("a=d").count(), 2);
    assert_eq!((scene.bitmap_count(), scene.slot_count()), (2, 0));
}

#[test]
fn an_image_is_tinted_and_mirrored_before_it_goes_up() {
    let mut n = node(1);
    let mut p = image("a.png");
    p.levels = quantise(0.5, 1.0, 0.0, 1.0);
    p.flip_x = true;
    n.image = Some(p);
    let mut scene = UiScene::new();
    scene.begin_tick();
    let mut buf = Vec::new();
    let src = Bitmap::new(vec![10, 20, 30, 40, 50, 60, 70, 80], 2, 1);
    scene.draw_node(&mut buf, &n, src);
    // The tint is 8/15 of red, all of green and none of blue: GzwAUAUUACg= is
    // 27, 60, 0, 80, 5, 20, 0, 40.
    assert!(String::from_utf8(buf)
        .unwrap()
        .starts_with("\x1b_Ga=t,f=32,s=2,v=1,i=200001,q=2,m=0;GzwAUAUUACg=\x1b\\"));
}

#[test]
fn colours_of_one_key_share_their_bytes() {
    // Whichever of two nearly equal colours comes first, the same pixel goes up: the one
    // that the key names.
    let colours = [
        quantise(0.51, 0.51, 0.51, 1.0),
        quantise(0.515, 0.515, 0.515, 1.0),
    ];
    assert_eq!(ui_solid_key(&colours[0]), ui_solid_key(&colours[1]));
    let draw = |order: [usize; 2]| {
        let mut scene = UiScene::new();
        scene.begin_tick();
        let mut buf = Vec::new();
        for (entity, i) in order.into_iter().enumerate() {
            let mut n = node(entity as u64);
            n.background = Some(SolidPart {
                levels: colours[i],
                at: Some(cells(1)),
            });
            scene.draw_node(&mut buf, &n, None);
        }
        assert_eq!((scene.bitmap_count(), scene.slot_count()), (1, 2));
        String::from_utf8(buf).unwrap()
    };
    let text = draw([0, 1]);
    assert_eq!(text, draw([1, 0]));
    // Eight fifteenths of 255 is 136: iIiI/w== is 136, 136, 136, 255.
    assert!(text.starts_with("\x1b_Ga=t,f=32,s=1,v=1,i=200001,q=2,m=0;iIiI/w==\x1b\\"));

    // An image under either tint is the same image.
    let tinted = |levels: Levels| {
        let mut p = image("a.png");
        p.levels = levels;
        let mut n = node(1);
        n.image = Some(p);
        let mut scene = UiScene::new();
        scene.begin_tick();
        let mut buf = Vec::new();
        scene.draw_node(&mut buf, &n, Bitmap::new(vec![9, 99, 199, 255], 1, 1));
        buf
    };
    assert_eq!(tinted(colours[0]), tinted(colours[1]));
}

#[test]
fn a_still_interface_with_a_missing_image_costs_nothing() {
    let nodes = || {
        let mut a = node(1);
        a.background = solid(3, 1);
        a.image = Some(image("missing.png"));
        let mut b = node(2);
        b.background = solid(3, 2);
        vec![
            UiDraw {
                node: a,
                pixels: None,
            },
            UiDraw {
                node: b,
                pixels: None,
            },
        ]
    };
    let mut scene = UiScene::new();
    scene.begin_tick();
    let mut buf = Vec::new();
    let first = scene.render_ui(&mut buf, nodes());
    assert_eq!((first.uploaded, first.placed, first.gone.len()), (1, 2, 0));
    for _ in 0..3 {
        scene.begin_tick();
        let mut buf = Vec::new();
        let tally = scene.render_ui(&mut buf, nodes());
        assert_eq!((tally.uploaded, tally.placed, tally.gone.len()), (0, 0, 0));
        assert!(buf.is_empty());
        assert_eq!((scene.bitmap_count(), scene.slot_count()), (1, 2));
    }
}

#[test]
fn an_image_without_pixels_is_skipped_and_the_rest_is_not() {
    let mut n = node(1);
    n.background = solid(1, 1);
    n.image = Some(image("a.png"));
    n.border_top = solid(2, 2);
    let mut scene = UiScene::new();
    scene.begin_tick();
    let mut buf = Vec::new();
    let tally = scene.draw_node(&mut buf, &n, None);
    assert_eq!((tally.uploaded, tally.placed), (2, 2));
    assert!(scene.wants_pixels(&n));
    assert!(scene.can_draw(10));
    assert!(!scene.is_full());
    assert_eq!(scene.clock().tick, 1);
}

#[test]
fn the_three_bands_do_not_meet() {
    let mut sprites = bevy_kitty::sprite::SpriteScene::new();
    let mut glyphs = bevy_kitty::text::GlyphScene::new();
    let mut panels = UiScene::new();
    for _ in 0..100 {
        let (s, g, u) = (
            sprites.alloc_img_id(),
            glyphs.alloc_img_id(),
            panels.alloc_img_id(),
        );
        assert!(1 < s && s < 100_000 && 100_000 < g && g < 200_000 && 200_000 < u);
    }
}
