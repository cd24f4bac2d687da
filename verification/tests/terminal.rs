//! The passes against a terminal: the bytes they write are read back by a small terminal,
//! and what it shows is held against what was drawn.

use std::collections::{BTreeMap, BTreeSet};

use base64::engine::general_purpose::STANDARD;
use base64::Engine;
use bevy_kitty::colour::Levels;
use bevy_kitty::label::AssetName;
use bevy_kitty::pixels::{Bitmap, CpuImage};
use bevy_kitty::screen::Geom;
use bevy_kitty::sprite::{plan_sprite, SheetCell, SpriteDraw, SpriteLook, SpriteScene};
use bevy_kitty::text::{GlyphDraw, GlyphScene};
use bevy_kitty::ui::{CellBox, SolidPart, UiDraw, UiNode, UiScene};

/// A stored image.
#[derive(Clone, PartialEq, Eq, PartialOrd, Ord, Debug)]
struct Stored {
    w: u32,
    h: u32,
    rgba: Vec<u8>,
}

/// A place on screen: row, column, offsets, depth and span.
type Place = (u16, u16, u32, u32, i32, u32, u32);

fn place_of(g: &Geom) -> Place {
    (g.row, g.col, g.xoff, g.yoff, g.z, g.cols, g.rows)
}

/// A terminal that knows the sequences that the passes use.
#[derive(Default)]
struct Terminal {
    images: BTreeMap<u32, Stored>,
    placements: BTreeMap<(u32, u32), Place>,
    cursor: (u16, u16),
    uploads: usize,
}

impl Terminal {
    fn read(&mut self, bytes: &[u8]) {
        let text = std::str::from_utf8(bytes).unwrap();
        let mut rest = text;
        let mut pending: Option<(String, String)> = None;
        while !rest.is_empty() {
            if let Some(after) = rest.strip_prefix("\x1b[") {
                let (cell, tail) = after.split_once('H').unwrap();
                let (row, col) = cell.split_once(';').unwrap();
                self.cursor = (row.parse().unwrap(), col.parse().unwrap());
                rest = tail;
                continue;
            }
            let after = rest.strip_prefix("\x1b_G").expect("an APC block");
            let (body, tail) = after.split_once("\x1b\\").unwrap();
            rest = tail;
            let (head, payload) = body.split_once(';').unwrap_or((body, ""));
            assert!(payload.len() <= 4096);
            let (control, mut data) = match pending.take() {
                Some((control, data)) => {
                    assert!(head == "m=1" || head == "m=0");
                    (control, data)
                }
                None => (head.to_string(), String::new()),
            };
            data.push_str(payload);
            if head.ends_with("m=1") {
                pending = Some((control, data));
            } else {
                self.command(&control, &data);
            }
        }
        assert!(pending.is_none(), "an unfinished upload");
    }

    fn command(&mut self, control: &str, data: &str) {
        let keys: BTreeMap<&str, &str> = control
            .split(',')
            .map(|pair| pair.split_once('=').unwrap())
            .collect();
        let number = |key: &str| -> u32 { keys.get(key).map_or(0, |v| v.parse().unwrap()) };
        assert_eq!(keys["q"], "2", "no replies are wanted");
        let id = number("i");
        match keys["a"] {
            "t" => {
                assert_eq!(keys["f"], "32");
                let rgba = STANDARD.decode(data).unwrap();
                assert!(!self.images.contains_key(&id), "image {id} went up twice");
                self.uploads += 1;
                self.images.insert(
                    id,
                    Stored {
                        w: number("s"),
                        h: number("v"),
                        rgba,
                    },
                );
            }
            "p" => {
                assert!(self.images.contains_key(&id), "image {id} never went up");
                let z: i32 = keys["z"].parse().unwrap();
                let (row, col) = self.cursor;
                self.placements.insert(
                    (id, number("p")),
                    (
                        row,
                        col,
                        number("X"),
                        number("Y"),
                        z,
                        number("c"),
                        number("r"),
                    ),
                );
            }
            "d" => {
                let gone = self.placements.remove(&(id, number("p")));
                assert!(gone.is_some(), "nothing to delete");
            }
            other => panic!("unknown action {other}"),
        }
    }

    /// What is on screen of a band of image ids: the pixels and their places.
    fn shows(&self, lo: u32, hi: u32) -> BTreeSet<(Stored, Place)> {
        let mut pids = BTreeSet::new();
        self.placements
            .iter()
            .filter(|((img, _), _)| lo < *img && *img < hi)
            .map(|((img, pid), at)| {
                assert!(pids.insert(*pid), "two images under placement {pid}");
                (self.images[img].clone(), *at)
            })
            .collect()
    }
}

/// A small generator of repeatable choices.
struct Dice(u64);

impl Dice {
    fn roll(&mut self, n: u64) -> u64 {
        self.0 = self
            .0
            .wrapping_mul(6364136223846793005)
            .wrapping_add(1442695040888963407);
        (self.0 >> 33) % n
    }
}

const WHITE: Levels = Levels {
    r: 15,
    g: 15,
    b: 15,
    a: 15,
};

fn look(name: &str) -> SpriteLook {
    SpriteLook {
        visible: true,
        tint: WHITE,
        flip_x: false,
        flip_y: false,
        cell: SheetCell::Whole,
        default_image: false,
        has_pixels: false,
        image: AssetName::Path {
            file_name: Some(name.to_string()),
            full: name.to_string(),
        },
        sized: false,
    }
}

/// The pixels of an image, different for every name. The last one takes several chunks.
fn pixels(n: u64) -> Bitmap {
    let (w, h) = if n == 3 { (60, 70) } else { (2 + n as u32, 1) };
    let rgba = (0..w * h * 4).map(|i| (i as u64 * 7 + n) as u8).collect();
    Bitmap::new(rgba, w, h).unwrap()
}

fn geom(dice: &mut Dice) -> Geom {
    Geom {
        row: 1 + dice.roll(40) as u16,
        col: 1 + dice.roll(200) as u16,
        xoff: dice.roll(3) as u32,
        yoff: dice.roll(3) as u32,
        z: dice.roll(200_000) as i32 - 100_000,
        cols: 1 + dice.roll(9) as u32,
        rows: 1 + dice.roll(9) as u32,
    }
}

#[test]
fn sprites_are_shown_as_they_were_drawn() {
    let mut dice = Dice(7);
    let mut scene = SpriteScene::new();
    let mut term = Terminal::default();
    let mut used = BTreeSet::new();
    for tick in 0..60 {
        // Which sprites there are, what they show and where, or nowhere.
        let mut list: Vec<(u64, u64, Option<Geom>)> = Vec::new();
        for entity in 0..6 {
            if dice.roll(4) > 0 {
                let at = if dice.roll(5) > 0 {
                    Some(geom(&mut dice))
                } else {
                    None
                };
                list.push((entity, dice.roll(4), at));
            }
        }
        for again in [false, true] {
            scene.begin_tick();
            let draws: Vec<SpriteDraw> = list
                .iter()
                .map(|(entity, image, at)| {
                    let look = look(&format!("{image}.png"));
                    let found = scene.wants_pixels(&plan_sprite(&look));
                    SpriteDraw {
                        entity: *entity,
                        look,
                        pixels: if found { Some(pixels(*image)) } else { None },
                        geom: *at,
                    }
                })
                .collect();
            assert!(scene.can_draw(draws.len()));
            let mut buf = Vec::new();
            scene.render_sprites(&mut buf, draws);
            if again {
                assert!(buf.is_empty(), "tick {tick}: a still scene costs nothing");
            }
            term.read(&buf);
            let want: BTreeSet<(Stored, Place)> = list
                .iter()
                .filter_map(|(_, image, at)| {
                    let b = pixels(*image);
                    let stored = Stored {
                        w: b.w,
                        h: b.h,
                        rgba: b.rgba,
                    };
                    at.as_ref().map(|g| (stored, place_of(g)))
                })
                .collect();
            assert_eq!(term.shows(1000, 100_000), want, "tick {tick}");
            assert!(scene.placement_ids_are_unique());
        }
        used.extend(list.iter().map(|(_, image, _)| *image));
        assert_eq!(scene.bitmap_count(), used.len());
        assert_eq!(term.uploads, used.len());
    }
    assert_eq!(used.len(), 4);
}

const ATLAS: [u8; 16] = [9, 8, 7, 6, 5, 4, 3, 2, 250, 251, 252, 253, 10, 20, 30, 40];

fn glyph(entity: u64, index: u64, letter: u32, row: u16) -> GlyphDraw<'static> {
    GlyphDraw {
        entity,
        index,
        texture: "atlas".to_string(),
        rx: letter.to_string(),
        ry: "0".to_string(),
        x0: letter,
        y0: 0,
        gw: 1,
        gh: 1,
        atlas: Some(CpuImage {
            data: Some(&ATLAS),
            width: 4,
            height: 1,
            rgba8: true,
        }),
        alpha_mask: false,
        colour: WHITE,
        tw: 1,
        th: 1,
        row,
        col: 1 + index as u16,
        xoff: 0,
        yoff: 0,
        z: 1_000_000,
    }
}

fn panel(entity: u64, level: u8, row: u16) -> UiDraw {
    UiDraw {
        node: UiNode {
            entity,
            visible: true,
            empty: false,
            stack: 3,
            background: Some(SolidPart {
                levels: Levels {
                    r: level,
                    g: 0,
                    b: 0,
                    a: 15,
                },
                at: Some(CellBox {
                    row,
                    col: 1,
                    xoff: 0,
                    yoff: 0,
                    cols: 3,
                    rows: 1,
                }),
            }),
            image: None,
            border_top: None,
            border_bottom: None,
            border_left: None,
            border_right: None,
            outline_top: None,
            outline_bottom: None,
            outline_left: None,
            outline_right: None,
        },
        pixels: None,
    }
}

#[test]
fn the_passes_do_not_disturb_each_other() {
    let mut dice = Dice(11);
    let mut sprites = SpriteScene::new();
    let mut glyphs = GlyphScene::new();
    let mut panels = UiScene::new();
    let mut term = Terminal::default();
    for tick in 0..40 {
        let shown: Vec<(u64, u64, Geom)> = (0..3)
            .filter(|_| dice.roll(3) > 0)
            .collect::<Vec<u64>>()
            .into_iter()
            .map(|e| (e, dice.roll(3), geom(&mut dice)))
            .collect();
        let word: Vec<u32> = (0..dice.roll(6)).map(|_| dice.roll(4) as u32).collect();
        let levels: Vec<u8> = (0..dice.roll(5)).map(|_| dice.roll(16) as u8).collect();
        let mut buf = Vec::new();
        sprites.begin_tick();
        let draws = shown
            .iter()
            .map(|(e, image, at)| SpriteDraw {
                entity: *e,
                look: look(&format!("{image}.png")),
                pixels: Some(pixels(*image)),
                geom: Some(*at),
            })
            .collect();
        sprites.render_sprites(&mut buf, draws);
        glyphs.begin_tick();
        let letters: Vec<GlyphDraw> = word
            .iter()
            .enumerate()
            .map(|(i, letter)| glyph(100, i as u64, *letter, 2))
            .collect();
        glyphs.render_glyphs(&mut buf, &letters);
        panels.begin_tick();
        let nodes = levels
            .iter()
            .enumerate()
            .map(|(i, level)| panel(i as u64, *level, 1 + i as u16))
            .collect();
        panels.render_ui(&mut buf, nodes);
        term.read(&buf);

        let want: BTreeSet<(Stored, Place)> = shown
            .iter()
            .map(|(_, image, at)| {
                let b = pixels(*image);
                (
                    Stored {
                        w: b.w,
                        h: b.h,
                        rgba: b.rgba,
                    },
                    place_of(at),
                )
            })
            .collect();
        assert_eq!(term.shows(1000, 100_000), want, "sprites of tick {tick}");
        let want: BTreeSet<(Stored, Place)> = word
            .iter()
            .enumerate()
            .map(|(i, letter)| {
                let at = *letter as usize * 4;
                (
                    Stored {
                        w: 1,
                        h: 1,
                        rgba: ATLAS[at..at + 4].to_vec(),
                    },
                    (2, 1 + i as u16, 0, 0, 1_000_000, 0, 0),
                )
            })
            .collect();
        assert_eq!(term.shows(100_000, 200_000), want, "text of tick {tick}");
        let want: BTreeSet<(Stored, Place)> = levels
            .iter()
            .enumerate()
            .map(|(i, level)| {
                (
                    Stored {
                        w: 1,
                        h: 1,
                        rgba: vec![level * 17, 0, 0, 255],
                    },
                    (1 + i as u16, 1, 0, 0, 2_000_003, 3, 1),
                )
            })
            .collect();
        assert_eq!(term.shows(200_000, 300_000), want, "panels of tick {tick}");
    }
    assert_eq!(
        term.uploads,
        sprites.bitmap_count() + glyphs.glyph_count() + panels.bitmap_count()
    );
}
