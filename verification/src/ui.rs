//! The interface pass: node backgrounds, images, borders and outlines, each a rectangle
//! already clipped and mapped to terminal cells.
//!
//! A tick is [`UiScene::begin_tick`], then [`UiScene::render_ui`] with all nodes. Before
//! that, [`UiScene::wants_pixels`] says whether the pixels of a node's image have to be
//! fetched.

use vstd::prelude::*;
use vstd::string::*;

use crate::cache::Shelf;
use crate::colour::{
    a_colour_is_red_green_blue_alpha, flip_text, levels_and_flip_close_a_key, levels_pixel,
    levels_text, levels_text_is_injective, push_flip, push_levels, Levels,
};
use crate::digits::{
    digits, digits_injective, digits_read_back, four_fields, push_digits,
};
use crate::frame::FRAME_IMG_ID;
use crate::ghosting::Tableau;
use crate::items::{
    a_list_of_one_item, an_empty_list_is_idle, distinct_slots, drawing_counts_few, drawn_from,
    fitting_both, lists_join, ticked_from, Item, Tally, TickTally,
};
use crate::label::{image_label, label_text, AssetName};
use crate::pass::{slots_show_uploads, Pass};
use crate::pixels::{
    bake_levels, baking_tints_and_moves_each_pixel, levels_baked, sendable, solid, solid_rgba,
    Bitmap, CellRect,
};
use crate::proto::encodable;
use crate::screen::{stream, stream_of_both, stream_of_one, Geom, Packet, Picture};
use crate::slots::{
    following, key_of, keys_are_distinct, lists_unseen, retire_packets, show_packets, slot_key,
    Book,
};
use crate::sprite::{SpriteScene, TEXT_Z_BIAS};
use crate::term::{TermClock, TermSize, REQUERY_TICKS};
use crate::text::GlyphScene;
use crate::ticks::{
    a_placement_is_two_packets, a_still_scene_is_free, nothing_arrived, pixels_come_first,
    same_things, same_things_join, stands_still,
};

verus! {

/// First kitty image id of the interface pass, less one.
///
/// Its own band, clear of frame mode's id 1, the sprite pass's >=1001 and the glyph pass's
/// >=100_001, which end where the next begins. A collision would silently replace someone
/// else's pixels.
pub const UI_IMG_ID_BASE: u32 = 200_000;

/// The interface draws above the world. The stack index is added to this, so relative
/// order is preserved inside the band. Text keeps its own bias, which sits below this on
/// purpose: a panel drawn over a world-space label is correct.
pub const UI_Z_BASE: i32 = 2_000_000;

/// Bias added to interface TEXT on top of [`UI_Z_BASE`], so a label always draws over the
/// panel it sits on. Larger than any plausible stack index.
pub const UI_TEXT_Z_BIAS: i32 = 100_000;

/// Which piece of a node a slot draws.
///
/// A single node can produce up to ten rectangles: a background, an image, four borders
/// and four outline edges. Each needs its own placement id, so the key has to name the
/// part and not just the entity.
#[derive(Clone, Copy, PartialEq, Eq, Hash, Debug, Structural)]
pub enum UiPart {
    Background,
    Image,
    BorderTop,
    BorderRight,
    BorderBottom,
    BorderLeft,
    OutlineTop,
    OutlineRight,
    OutlineBottom,
    OutlineLeft,
}

impl UiPart {
    /// The number of a part.
    pub open spec fn number(self) -> u64 {
        match self {
            UiPart::Background => 0,
            UiPart::Image => 1,
            UiPart::BorderTop => 2,
            UiPart::BorderRight => 3,
            UiPart::BorderBottom => 4,
            UiPart::BorderLeft => 5,
            UiPart::OutlineTop => 6,
            UiPart::OutlineRight => 7,
            UiPart::OutlineBottom => 8,
            UiPart::OutlineLeft => 9,
        }
    }

    /// The number of a part.
    pub fn code(self) -> (n: u64)
        ensures
            n == self.number(),
    {
        match self {
            UiPart::Background => 0,
            UiPart::Image => 1,
            UiPart::BorderTop => 2,
            UiPart::BorderRight => 3,
            UiPart::BorderBottom => 4,
            UiPart::BorderLeft => 5,
            UiPart::OutlineTop => 6,
            UiPart::OutlineRight => 7,
            UiPart::OutlineBottom => 8,
            UiPart::OutlineLeft => 9,
        }
    }
}

/// A rectangle of terminal cells, with a pixel offset into its first cell.
#[derive(Clone, Copy, PartialEq, Eq, Debug, Structural)]
pub struct CellBox {
    pub row: u16,
    pub col: u16,
    pub xoff: u32,
    pub yoff: u32,
    pub cols: u32,
    pub rows: u32,
}

/// A flat-colour rectangle.
pub struct SolidPart {
    /// The colour, quantised.
    pub levels: Levels,
    /// Where it goes, or `None` if it is clipped away.
    pub at: Option<CellBox>,
}

/// An image rectangle.
pub struct ImagePart {
    /// Where the image comes from.
    pub name: AssetName,
    /// The region of the image to show, or `None` for all of it.
    pub region: Option<CellRect>,
    /// The tint, quantised.
    pub levels: Levels,
    pub flip_x: bool,
    pub flip_y: bool,
    /// Where it goes, or `None` if it is clipped away.
    pub at: Option<CellBox>,
}

/// What the pass reads of a node. A part that draws nothing, because the node has none or
/// because it is transparent or empty, is `None`.
pub struct UiNode {
    pub entity: u64,
    pub visible: bool,
    /// Whether the node's box is empty.
    pub empty: bool,
    /// The paint order that the layout computed.
    pub stack: u32,
    pub background: Option<SolidPart>,
    pub image: Option<ImagePart>,
    pub border_top: Option<SolidPart>,
    pub border_bottom: Option<SolidPart>,
    pub border_left: Option<SolidPart>,
    pub border_right: Option<SolidPart>,
    pub outline_top: Option<SolidPart>,
    pub outline_bottom: Option<SolidPart>,
    pub outline_left: Option<SolidPart>,
    pub outline_right: Option<SolidPart>,
}

// ---- stacking -----------------------------------------------------------------------

/// A stack index as a signed number, wrapping past the greatest.
pub open spec fn signed_stack(stack: u32) -> int {
    if stack <= i32::MAX {
        stack as int
    } else {
        stack - 0x1_0000_0000
    }
}

/// The kitty `z` of a node: above the world, ordered by the stack index.
pub fn ui_z(stack: u32) -> (z: i32)
    requires
        UI_Z_BASE + signed_stack(stack) <= i32::MAX,
    ensures
        z == UI_Z_BASE + signed_stack(stack),
{
    if stack <= 0x7fff_ffff {
        UI_Z_BASE + stack as i32
    } else {
        UI_Z_BASE - 1 - (u32::MAX - stack) as i32
    }
}

/// The kitty `z` of interface text.
pub fn ui_text_z() -> (z: i32)
    ensures
        z == UI_Z_BASE + UI_TEXT_Z_BIAS,
{
    UI_Z_BASE + UI_TEXT_Z_BIAS
}

// ---- keys ---------------------------------------------------------------------------

/// The key of a flat colour: one upload per colour, whatever the size.
pub open spec fn solid_key(l: Levels) -> Seq<char> {
    "ui-solid"@ + levels_text(l)
}

/// The suffix of a key for a region of an image.
pub open spec fn region_text(region: Option<CellRect>) -> Seq<char> {
    match region {
        None => Seq::empty(),
        Some(r) => "#"@ + digits(r.x0 as nat) + ","@ + digits(r.y0 as nat) + ","@ + digits(
            (r.x1 - r.x0) as nat,
        ) + ","@ + digits((r.y1 - r.y0) as nat),
    }
}

/// The key of an image: two nodes sharing one sheet but showing different regions are
/// different pixels.
pub open spec fn image_key(p: ImagePart) -> Seq<char> {
    "ui-img:"@ + label_text(p.name) + region_text(p.region) + levels_text(p.levels) + flip_text(
        p.flip_x,
        p.flip_y,
    )
}

/// Builds the key of a flat colour.
pub fn ui_solid_key(l: &Levels) -> (key: String)
    requires
        l.wf(),
    ensures
        key@ == solid_key(*l),
{
    let mut key = String::from_str("ui-solid");
    push_levels(&mut key, l);
    key
}

/// Builds the key of an image.
pub fn ui_image_key(p: &ImagePart) -> (key: String)
    requires
        p.wf(),
    ensures
        key@ == image_key(*p),
{
    let mut key = String::from_str("ui-img:");
    let label = image_label(&p.name);
    key.append(label.as_str());
    let ghost head = key@;
    if let Some(r) = &p.region {
        key.append("#");
        push_digits(&mut key, r.x0 as u64);
        key.append(",");
        push_digits(&mut key, r.y0 as u64);
        key.append(",");
        push_digits(&mut key, r.width() as u64);
        key.append(",");
        push_digits(&mut key, r.height() as u64);
    }
    assert(key@ =~= head + region_text(p.region));
    push_levels(&mut key, &p.levels);
    push_flip(&mut key, p.flip_x, p.flip_y);
    key
}

// ---- a node's rectangles ------------------------------------------------------------

impl ImagePart {
    /// Whether its numbers are in range.
    pub open spec fn wf(self) -> bool {
        &&& self.levels.wf()
        &&& self.region matches Some(r) ==> r.wf()
    }
}

/// Whether a flat rectangle's levels are levels.
pub open spec fn solid_wf(p: Option<SolidPart>) -> bool {
    p matches Some(s) ==> s.levels.wf()
}

/// The geometry of a rectangle at a depth.
pub open spec fn geom_of(b: CellBox, z: i32) -> Geom {
    Geom { row: b.row, col: b.col, xoff: b.xoff, yoff: b.yoff, z, cols: b.cols, rows: b.rows }
}

/// What goes up for a flat colour: one pixel of it. The levels are those of the key, so the
/// upload can never disagree with the key that names it.
pub open spec fn solid_picture(l: Levels) -> Option<Picture> {
    Some(Picture { w: 1, h: 1, rgba: solid(levels_pixel(l), 1, 1) })
}

/// What a flat rectangle draws: one pixel per colour, stretched by the placement. Nothing
/// if it is clipped away.
pub open spec fn solid_items(entity: u64, part: UiPart, z: i32, p: Option<SolidPart>) -> Seq<Item> {
    match p {
        Some(SolidPart { levels, at: Some(b) }) => seq![
            Item {
                slot: key_of(entity, part.number()),
                key: solid_key(levels),
                picture: solid_picture(levels),
                geom: Some(geom_of(b, z)),
                keeps: false,
            },
        ],
        _ => Seq::empty(),
    }
}

/// What goes up for an image, given the pixels that were found for it: those pixels under
/// the levels and the mirror that the key names.
pub open spec fn image_picture(p: ImagePart, pixels: Option<Bitmap>) -> Option<Picture> {
    match pixels {
        None => None,
        Some(b) => Some(
            Picture {
                w: b.w,
                h: b.h,
                rgba: levels_baked(b.rgba@, b.w, b.h, p.levels, p.flip_x, p.flip_y),
            },
        ),
    }
}

/// What an image rectangle draws, given the pixels that were found for it. Nothing if it
/// is clipped away.
pub open spec fn image_items(
    entity: u64,
    z: i32,
    p: Option<ImagePart>,
    pixels: Option<Bitmap>,
) -> Seq<Item> {
    match p {
        Some(part) => match part.at {
            Some(b) => seq![
                Item {
                    slot: key_of(entity, UiPart::Image.number()),
                    key: image_key(part),
                    picture: image_picture(part, pixels),
                    geom: Some(geom_of(b, z)),
                    keeps: false,
                },
            ],
            None => Seq::empty(),
        },
        None => Seq::empty(),
    }
}

impl UiNode {
    /// Whether the node draws anything at all.
    pub open spec fn drawn(self) -> bool {
        self.visible && !self.empty
    }

    /// The node's depth.
    pub open spec fn z(self) -> i32 {
        (UI_Z_BASE + signed_stack(self.stack)) as i32
    }

    /// Whether the node's numbers are in range.
    pub open spec fn wf(self) -> bool {
        &&& self.drawn() ==> UI_Z_BASE + signed_stack(self.stack) <= i32::MAX
        &&& self.image matches Some(p) ==> p.wf()
        &&& solid_wf(self.background)
        &&& solid_wf(self.border_top)
        &&& solid_wf(self.border_bottom)
        &&& solid_wf(self.border_left)
        &&& solid_wf(self.border_right)
        &&& solid_wf(self.outline_top)
        &&& solid_wf(self.outline_bottom)
        &&& solid_wf(self.outline_left)
        &&& solid_wf(self.outline_right)
    }
}

/// What a node draws, in order: its background, its image, its borders, its outline.
pub open spec fn node_items(node: UiNode, pixels: Option<Bitmap>) -> Seq<Item> {
    let e = node.entity;
    let z = node.z();
    if !node.drawn() {
        Seq::empty()
    } else {
        solid_items(e, UiPart::Background, z, node.background) + image_items(
            e,
            z,
            node.image,
            pixels,
        ) + solid_items(e, UiPart::BorderTop, z, node.border_top) + solid_items(
            e,
            UiPart::BorderBottom,
            z,
            node.border_bottom,
        ) + solid_items(e, UiPart::BorderLeft, z, node.border_left) + solid_items(
            e,
            UiPart::BorderRight,
            z,
            node.border_right,
        ) + solid_items(e, UiPart::OutlineTop, z, node.outline_top) + solid_items(
            e,
            UiPart::OutlineBottom,
            z,
            node.outline_bottom,
        ) + solid_items(e, UiPart::OutlineLeft, z, node.outline_left) + solid_items(
            e,
            UiPart::OutlineRight,
            z,
            node.outline_right,
        )
    }
}

/// A node to draw, and the pixels that were found for its image.
pub struct UiDraw {
    pub node: UiNode,
    pub pixels: Option<Bitmap>,
}

impl UiDraw {
    /// Whether the node's numbers are in range and its pixels can be sent.
    pub open spec fn wf(self) -> bool {
        &&& self.node.wf()
        &&& self.node.image matches Some(i) ==> (self.pixels matches Some(b) ==> sendable(
            b,
            i.flip_x || i.flip_y,
        ))
    }
}

/// What nodes draw, one after the other.
pub open spec fn interface_items(ds: Seq<UiDraw>) -> Seq<Item>
    decreases ds.len(),
{
    if ds.len() == 0 {
        Seq::empty()
    } else {
        interface_items(ds.drop_last()) + node_items(ds.last().node, ds.last().pixels)
    }
}

// ---- the scene ----------------------------------------------------------------------

/// Persistent state for the interface pass.
pub struct UiScene {
    pass: Pass,
}

impl UiScene {
    /// The uploaded bitmaps, and the slots of the rectangles on screen.
    pub closed spec fn tableau(self) -> Tableau {
        Tableau { shelf: self.pass.shelf(), book: self.pass.book() }
    }

    /// The tick counter and the terminal size last seen.
    pub closed spec fn time(self) -> TermClock {
        self.pass.time()
    }

    /// The invariant of the pass, in its bands of ids.
    pub open spec fn wf(self) -> bool {
        &&& self.tableau().shelf.wf()
        &&& self.tableau().book.wf()
        &&& slots_show_uploads(self.tableau().shelf, self.tableau().book)
        &&& self.tableau().shelf.base == UI_IMG_ID_BASE
        &&& self.tableau().shelf.top == u32::MAX
        &&& self.tableau().book.base == UI_IMG_ID_BASE
    }

    /// A scene that has drawn nothing.
    pub fn new() -> (scene: UiScene)
        ensures
            scene.wf(),
            scene.tableau() == (Tableau {
                shelf: Shelf::fresh(UI_IMG_ID_BASE, u32::MAX),
                book: Book::fresh(UI_IMG_ID_BASE),
            }),
            scene.time() == (TermClock { tick: 0, term: None }),
    {
        UiScene { pass: Pass::new(UI_IMG_ID_BASE, u32::MAX, UI_IMG_ID_BASE) }
    }

    /// How many distinct bitmaps the pass has uploaded.
    pub fn bitmap_count(&self) -> (n: usize)
        ensures
            n == self.tableau().shelf.images.len(),
    {
        self.pass.image_count()
    }

    /// How many rectangles are currently placed.
    pub fn slot_count(&self) -> (n: usize)
        ensures
            n == self.tableau().book.slots.len(),
    {
        self.pass.slot_count()
    }

    /// Whether there are placement ids for `n` more rectangles. Then that many can be drawn,
    /// whatever slots there are.
    pub fn can_draw(&self, n: usize) -> (b: bool)
        requires
            self.wf(),
        ensures
            b == self.tableau().has_room_for(n as nat),
    {
        self.pass.has_ids(n)
    }

    /// Whether the pass has used up its image ids. Nothing new goes up any more then; what
    /// has gone up can still be shown.
    pub fn is_full(&self) -> (b: bool)
        ensures
            b == !self.tableau().shelf.has_room(),
    {
        self.pass.is_full()
    }

    /// Hands out the next image id of the band.
    pub fn alloc_img_id(&mut self) -> (id: u32)
        requires
            old(self).wf(),
            old(self).tableau().shelf.has_room(),
        ensures
            final(self).wf(),
            id == old(self).tableau().shelf.next_id(),
            UI_IMG_ID_BASE < id,
            final(self).tableau() == (Tableau {
                shelf: Shelf { next: id, ..old(self).tableau().shelf },
                ..old(self).tableau()
            }),
            final(self).time() == old(self).time(),
    {
        self.pass.alloc_img_id()
    }

    /// Hands out the next placement id.
    pub fn alloc_placement_id(&mut self) -> (id: u32)
        requires
            old(self).wf(),
            following(old(self).tableau().book.next, UI_IMG_ID_BASE) <= u32::MAX,
        ensures
            final(self).wf(),
            id == following(old(self).tableau().book.next, UI_IMG_ID_BASE),
            final(self).tableau() == (Tableau {
                book: Book { next: id, ..old(self).tableau().book },
                ..old(self).tableau()
            }),
            final(self).time() == old(self).time(),
    {
        self.pass.alloc_placement_id()
    }

    /// The tick counter and the terminal size last seen.
    pub fn clock(&self) -> (clock: TermClock)
        ensures
            clock == self.time(),
    {
        self.pass.clock()
    }

    /// Takes note of the terminal's size.
    pub fn set_term(&mut self, size: TermSize)
        requires
            old(self).wf(),
        ensures
            final(self).wf(),
            final(self).time() == (TermClock { term: Some(size), ..old(self).time() }),
            final(self).tableau() == old(self).tableau(),
    {
        self.pass.set_term(size);
    }

    /// Starts a tick. Returns whether the terminal has to be asked for its size.
    pub fn begin_tick(&mut self) -> (ask: bool)
        requires
            old(self).wf(),
            old(self).time().tick < u64::MAX,
        ensures
            final(self).wf(),
            final(self).time() == (TermClock {
                tick: (old(self).time().tick + 1) as u64,
                ..old(self).time()
            }),
            final(self).tableau() == old(self).tableau().begun(),
            ask == (old(self).time().term is None || final(self).time().tick % REQUERY_TICKS == 0),
    {
        self.pass.begin_tick()
    }

    /// Whether the pixels of a node's image have to be fetched: it shows an image that is
    /// not uploaded yet.
    pub fn wants_pixels(&self, node: &UiNode) -> (b: bool)
        requires
            node.wf(),
        ensures
            b == (node.drawn() && (node.image matches Some(p) && p.at is Some
                && !self.tableau().shelf.images.contains_key(image_key(p)))),
    {
        if !node.visible || node.empty {
            return false;
        }
        match &node.image {
            Some(p) => match p.at {
                Some(_) => {
                    let key = ui_image_key(p);
                    self.pass.lookup(key.as_str()).is_none()
                },
                None => false,
            },
            None => false,
        }
    }

    /// Uploads a bitmap once, or finds the id it already has, and shows it in a slot if
    /// anything changed. Without a bitmap, or once the image ids are used up, only an image
    /// that is uploaded can be shown.
    fn draw_bitmap(
        &mut self,
        buf: &mut Vec<u8>,
        slot: u128,
        key: String,
        bitmap: Option<Bitmap>,
        geom: Geom,
    ) -> (tally: Tally)
        requires
            old(self).wf(),
            old(self).tableau().fits(
                Item { slot, key: key@, picture: picture_of(bitmap), geom: Some(geom), keeps: false },
            ),
            bitmap matches Some(b) ==> encodable(b.rgba@.len()),
        ensures
            final(self).wf(),
            final(self).time() == old(self).time(),
            ({
                let t = old(self).tableau();
                let it = Item {
                    slot,
                    key: key@,
                    picture: picture_of(bitmap),
                    geom: Some(geom),
                    keeps: false,
                };
                &&& final(self).tableau() == t.drew(it)
                &&& final(buf)@ == old(buf)@ + stream(t.packets(it))
                &&& tally.uploaded == (if t.uploads(it) {
                    1nat
                } else {
                    0
                })
                &&& tally.placed == (if t.places(it) {
                    1nat
                } else {
                    0
                })
            }),
    {
        let ghost t = self.tableau();
        let ghost it = Item {
            slot,
            key: key@,
            picture: picture_of(bitmap),
            geom: Some(geom),
            keeps: false,
        };
        let ghost ps = show_packets(
            t.book.claimed(it.slot).slots[it.slot],
            t.image_of(it)->0,
            geom,
        );
        if let Some(up) = self.pass.lookup(key.as_str()) {
            let sent = self.pass.show(buf, slot, up.img_id, geom);
            assert(Seq::<Packet>::empty() + ps =~= ps);
            return Tally {
                uploaded: 0,
                placed: if sent {
                    1
                } else {
                    0
                },
            };
        }
        if self.pass.is_full() {
            assert(buf@ =~= old(buf)@ + stream(Seq::<Packet>::empty()));
            return Tally { uploaded: 0, placed: 0 };
        }
        match bitmap {
            None => {
                assert(buf@ =~= old(buf)@ + stream(Seq::<Packet>::empty()));
                Tally { uploaded: 0, placed: 0 }
            },
            Some(b) => {
                let ghost up_packet = Packet::Transmit {
                    id: t.shelf.next_id(),
                    w: b.w,
                    h: b.h,
                    rgba: b.rgba@,
                };
                let up = self.pass.upload(buf, key, b.w, b.h, b.rgba.as_slice());
                let sent = self.pass.show(buf, slot, up.img_id, geom);
                proof {
                    stream_of_one(up_packet);
                    stream_of_both(seq![up_packet], ps);
                }
                Tally {
                    uploaded: 1,
                    placed: if sent {
                        1
                    } else {
                        0
                    },
                }
            },
        }
    }

    /// Draws one flat-colour rectangle.
    fn draw_solid(
        &mut self,
        buf: &mut Vec<u8>,
        entity: u64,
        part: UiPart,
        z: i32,
        p: &Option<SolidPart>,
    ) -> (tally: Tally)
        requires
            old(self).wf(),
            solid_wf(*p),
            old(self).tableau().fits_all(solid_items(entity, part, z, *p)),
        ensures
            final(self).wf(),
            final(self).time() == old(self).time(),
            drawn_from(
                old(self).tableau(),
                final(self).tableau(),
                old(buf)@,
                final(buf)@,
                solid_items(entity, part, z, *p),
                tally,
            ),
    {
        let ghost its = solid_items(entity, part, z, *p);
        let ghost t = self.tableau();
        proof {
            an_empty_list_is_idle(t, its, buf@);
            a_list_of_one_item(t, its);
        }
        match p {
            None => Tally { uploaded: 0, placed: 0 },
            Some(s) => match s.at {
                None => Tally { uploaded: 0, placed: 0 },
                Some(b) => {
                    let key = ui_solid_key(&s.levels);
                    let rgba = solid_rgba(s.levels.pixel(), 1, 1);
                    let slot: u128 = slot_key(entity, part.code());
                    let geom = Geom {
                        row: b.row,
                        col: b.col,
                        xoff: b.xoff,
                        yoff: b.yoff,
                        z,
                        cols: b.cols,
                        rows: b.rows,
                    };
                    self.draw_bitmap(buf, slot, key, Some(Bitmap { rgba, w: 1, h: 1 }), geom)
                },
            },
        }
    }

    /// Draws a node's image.
    fn draw_image(
        &mut self,
        buf: &mut Vec<u8>,
        entity: u64,
        z: i32,
        p: &Option<ImagePart>,
        pixels: Option<Bitmap>,
    ) -> (tally: Tally)
        requires
            old(self).wf(),
            *p matches Some(i) ==> i.wf() && (pixels matches Some(b) ==> sendable(
                b,
                i.flip_x || i.flip_y,
            )),
            old(self).tableau().fits_all(image_items(entity, z, *p, pixels)),
        ensures
            final(self).wf(),
            final(self).time() == old(self).time(),
            drawn_from(
                old(self).tableau(),
                final(self).tableau(),
                old(buf)@,
                final(buf)@,
                image_items(entity, z, *p, pixels),
                tally,
            ),
    {
        let ghost its = image_items(entity, z, *p, pixels);
        let ghost t = self.tableau();
        proof {
            an_empty_list_is_idle(t, its, buf@);
            a_list_of_one_item(t, its);
        }
        match p {
            None => Tally { uploaded: 0, placed: 0 },
            Some(i) => match i.at {
                None => Tally { uploaded: 0, placed: 0 },
                Some(b) => {
                    let key = ui_image_key(i);
                    let slot: u128 = slot_key(entity, UiPart::Image.code());
                    let geom = Geom {
                        row: b.row,
                        col: b.col,
                        xoff: b.xoff,
                        yoff: b.yoff,
                        z,
                        cols: b.cols,
                        rows: b.rows,
                    };
                    let bitmap = match pixels {
                        None => None,
                        Some(bm) => {
                            let w: u32 = bm.w;
                            let h: u32 = bm.h;
                            let rgba = bake_levels(bm, &i.levels, i.flip_x, i.flip_y);
                            Some(Bitmap { rgba, w, h })
                        },
                    };
                    self.draw_bitmap(buf, slot, key, bitmap, geom)
                },
            },
        }
    }

    /// Draws one flat-colour rectangle after the items `done`, counting on.
    fn add_solid(
        &mut self,
        buf: &mut Vec<u8>,
        entity: u64,
        part: UiPart,
        z: i32,
        p: &Option<SolidPart>,
        sum: Tally,
        Ghost(from): Ghost<(Tableau, Seq<u8>)>,
        Ghost(done): Ghost<Seq<Item>>,
    ) -> (tally: Tally)
        requires
            old(self).wf(),
            solid_wf(*p),
            done.len() <= 9,
            from.0.fits_all(done + solid_items(entity, part, z, *p)),
            drawn_from(from.0, old(self).tableau(), from.1, old(buf)@, done, sum),
        ensures
            final(self).wf(),
            final(self).time() == old(self).time(),
            drawn_from(
                from.0,
                final(self).tableau(),
                from.1,
                final(buf)@,
                done + solid_items(entity, part, z, *p),
                tally,
            ),
    {
        let ghost its = solid_items(entity, part, z, *p);
        proof {
            drawing_counts_few(from.0, done);
            drawing_counts_few(self.tableau(), its);
            fitting_both(from.0, done, its);
        }
        let n = self.draw_solid(buf, entity, part, z, p);
        proof {
            lists_join(from.0, from.1, done, its);
        }
        Tally { uploaded: sum.uploaded + n.uploaded, placed: sum.placed + n.placed }
    }

    /// Draws a node's image after the items `done`, counting on.
    fn add_image(
        &mut self,
        buf: &mut Vec<u8>,
        entity: u64,
        z: i32,
        p: &Option<ImagePart>,
        pixels: Option<Bitmap>,
        sum: Tally,
        Ghost(from): Ghost<(Tableau, Seq<u8>)>,
        Ghost(done): Ghost<Seq<Item>>,
    ) -> (tally: Tally)
        requires
            old(self).wf(),
            *p matches Some(i) ==> i.wf() && (pixels matches Some(b) ==> sendable(
                b,
                i.flip_x || i.flip_y,
            )),
            done.len() <= 9,
            from.0.fits_all(done + image_items(entity, z, *p, pixels)),
            drawn_from(from.0, old(self).tableau(), from.1, old(buf)@, done, sum),
        ensures
            final(self).wf(),
            final(self).time() == old(self).time(),
            drawn_from(
                from.0,
                final(self).tableau(),
                from.1,
                final(buf)@,
                done + image_items(entity, z, *p, pixels),
                tally,
            ),
    {
        let ghost its = image_items(entity, z, *p, pixels);
        proof {
            drawing_counts_few(from.0, done);
            drawing_counts_few(self.tableau(), its);
            fitting_both(from.0, done, its);
        }
        let n = self.draw_image(buf, entity, z, p, pixels);
        proof {
            lists_join(from.0, from.1, done, its);
        }
        Tally { uploaded: sum.uploaded + n.uploaded, placed: sum.placed + n.placed }
    }

    /// Draws a node: its background, its image, its four borders and its four outline
    /// edges, as far as it has them, sending only what changed. `pixels` are those found
    /// for its image; they are looked at only if the image is not uploaded yet.
    #[verifier::rlimit(60)]
    pub fn draw_node(&mut self, buf: &mut Vec<u8>, node: &UiNode, pixels: Option<Bitmap>) -> (tally:
        Tally)
        requires
            old(self).wf(),
            node.wf(),
            node.image matches Some(i) ==> (pixels matches Some(b) ==> sendable(
                b,
                i.flip_x || i.flip_y,
            )),
            old(self).tableau().fits_all(node_items(*node, pixels)),
        ensures
            final(self).wf(),
            final(self).time() == old(self).time(),
            drawn_from(
                old(self).tableau(),
                final(self).tableau(),
                old(buf)@,
                final(buf)@,
                node_items(*node, pixels),
                tally,
            ),
    {
        let ghost t = self.tableau();
        let ghost start = buf@;
        if !node.visible || node.empty {
            proof {
                an_empty_list_is_idle(t, Seq::empty(), buf@);
            }
            return Tally { uploaded: 0, placed: 0 };
        }
        let e: u64 = node.entity;
        let z: i32 = ui_z(node.stack);
        let ghost all = node_items(*node, pixels);
        let ghost mut done: Seq<Item> = Seq::empty();
        proof {
            an_empty_list_is_idle(t, done, buf@);
            a_node_fits_piece_by_piece(t, *node, pixels);
        }
        let mut sum = Tally { uploaded: 0, placed: 0 };
        let go = Ghost((t, start));
        sum = self.add_solid(buf, e, UiPart::Background, z, &node.background, sum, go, Ghost(done));
        proof {
            done = done + solid_items(e, UiPart::Background, z, node.background);
        }
        sum = self.add_image(buf, e, z, &node.image, pixels, sum, go, Ghost(done));
        proof {
            done = done + image_items(e, z, node.image, pixels);
        }
        sum = self.add_solid(buf, e, UiPart::BorderTop, z, &node.border_top, sum, go, Ghost(done));
        proof {
            done = done + solid_items(e, UiPart::BorderTop, z, node.border_top);
        }
        sum = self.add_solid(
            buf,
            e,
            UiPart::BorderBottom,
            z,
            &node.border_bottom,
            sum,
            go,
            Ghost(done),
        );
        proof {
            done = done + solid_items(e, UiPart::BorderBottom, z, node.border_bottom);
        }
        sum = self.add_solid(buf, e, UiPart::BorderLeft, z, &node.border_left, sum, go, Ghost(done));
        proof {
            done = done + solid_items(e, UiPart::BorderLeft, z, node.border_left);
        }
        sum = self.add_solid(
            buf,
            e,
            UiPart::BorderRight,
            z,
            &node.border_right,
            sum,
            go,
            Ghost(done),
        );
        proof {
            done = done + solid_items(e, UiPart::BorderRight, z, node.border_right);
        }
        sum = self.add_solid(buf, e, UiPart::OutlineTop, z, &node.outline_top, sum, go, Ghost(done));
        proof {
            done = done + solid_items(e, UiPart::OutlineTop, z, node.outline_top);
        }
        sum = self.add_solid(
            buf,
            e,
            UiPart::OutlineBottom,
            z,
            &node.outline_bottom,
            sum,
            go,
            Ghost(done),
        );
        proof {
            done = done + solid_items(e, UiPart::OutlineBottom, z, node.outline_bottom);
        }
        sum = self.add_solid(
            buf,
            e,
            UiPart::OutlineLeft,
            z,
            &node.outline_left,
            sum,
            go,
            Ghost(done),
        );
        proof {
            done = done + solid_items(e, UiPart::OutlineLeft, z, node.outline_left);
        }
        sum = self.add_solid(
            buf,
            e,
            UiPart::OutlineRight,
            z,
            &node.outline_right,
            sum,
            go,
            Ghost(done),
        );
        proof {
            done = done + solid_items(e, UiPart::OutlineRight, z, node.outline_right);
            assert(done =~= all);
        }
        sum
    }

    /// Draws all nodes of a tick, in order, and retires the rectangles that are no longer
    /// on screen.
    pub fn render_ui(&mut self, buf: &mut Vec<u8>, nodes: Vec<UiDraw>) -> (tally: TickTally)
        requires
            old(self).wf(),
            forall|i: int| 0 <= i < nodes@.len() ==> (#[trigger] nodes@[i]).wf(),
            old(self).tableau().fits_all(interface_items(nodes@)),
            interface_items(nodes@).len() <= usize::MAX,
        ensures
            final(self).wf(),
            final(self).time() == old(self).time(),
            ticked_from(
                old(self).tableau(),
                final(self).tableau(),
                old(buf)@,
                final(buf)@,
                interface_items(nodes@),
                tally,
            ),
    {
        let ghost t = self.tableau();
        let ghost start = buf@;
        let ghost all = nodes@;
        let mut sum = Tally { uploaded: 0, placed: 0 };
        proof {
            an_empty_list_is_idle(t, interface_items(all.take(0)), start);
        }
        for d in it: nodes.into_iter()
            invariant
                it.seq() == all,
                self.wf(),
                self.time() == old(self).time(),
                forall|i: int| 0 <= i < all.len() ==> (#[trigger] all[i]).wf(),
                t.fits_all(interface_items(all)),
                interface_items(all).len() <= usize::MAX,
                drawn_from(
                    t,
                    self.tableau(),
                    start,
                    buf@,
                    interface_items(all.take(it.index() as int)),
                    sum,
                ),
        {
            let ghost i = it.index() as int;
            let ghost done = interface_items(all.take(i));
            let ghost its = node_items(d.node, d.pixels);
            proof {
                assert(all[i] == d);
                assert(d.wf());
                assert(all.take(i + 1).drop_last() =~= all.take(i));
                fewer_nodes_draw_less(t, all, i + 1);
                drawing_counts_few(t, done + its);
                lists_join(t, start, done, its);
                fitting_both(t, done, its);
            }
            let UiDraw { node, pixels } = d;
            let n = self.draw_node(buf, &node, pixels);
            sum = Tally { uploaded: sum.uploaded + n.uploaded, placed: sum.placed + n.placed };
        }
        assert(all.take(all.len() as int) =~= all);
        let gone = self.finish(buf);
        TickTally { uploaded: sum.uploaded, placed: sum.placed, gone }
    }

    /// Ends a tick: retires the rectangles that are no longer drawn, because their node
    /// is despawned, hidden or scrolled out of its clip. The shared bitmaps stay uploaded.
    /// Returns the keys of the slots that went, in an unspecified order.
    pub fn finish(&mut self, buf: &mut Vec<u8>) -> (gone: Vec<u128>)
        requires
            old(self).wf(),
        ensures
            final(self).wf(),
            final(self).tableau() == old(self).tableau().retired(),
            final(self).time() == old(self).time(),
            lists_unseen(old(self).tableau().book, gone@),
            final(buf)@ == old(buf)@ + stream(
                retire_packets(old(self).tableau().book.slots, gone@),
            ),
    {
        self.pass.finish(buf)
    }
}

/// If all pieces of a node fit, the first ones do, however many.
proof fn a_node_fits_piece_by_piece(t: Tableau, node: UiNode, pixels: Option<Bitmap>)
    requires
        node.drawn(),
        t.fits_all(node_items(node, pixels)),
    ensures
        ({
            let e = node.entity;
            let z = node.z();
            let s0 = Seq::<Item>::empty();
            let s1 = s0 + solid_items(e, UiPart::Background, z, node.background);
            let s2 = s1 + image_items(e, z, node.image, pixels);
            let s3 = s2 + solid_items(e, UiPart::BorderTop, z, node.border_top);
            let s4 = s3 + solid_items(e, UiPart::BorderBottom, z, node.border_bottom);
            let s5 = s4 + solid_items(e, UiPart::BorderLeft, z, node.border_left);
            let s6 = s5 + solid_items(e, UiPart::BorderRight, z, node.border_right);
            let s7 = s6 + solid_items(e, UiPart::OutlineTop, z, node.outline_top);
            let s8 = s7 + solid_items(e, UiPart::OutlineBottom, z, node.outline_bottom);
            let s9 = s8 + solid_items(e, UiPart::OutlineLeft, z, node.outline_left);
            let s10 = s9 + solid_items(e, UiPart::OutlineRight, z, node.outline_right);
            &&& s10 == node_items(node, pixels)
            &&& t.fits_all(s1) && t.fits_all(s2) && t.fits_all(s3) && t.fits_all(s4)
            &&& t.fits_all(s5) && t.fits_all(s6) && t.fits_all(s7) && t.fits_all(s8)
            &&& t.fits_all(s9) && t.fits_all(s10)
        }),
{
    let e = node.entity;
    let z = node.z();
    let x1 = solid_items(e, UiPart::Background, z, node.background);
    let x2 = image_items(e, z, node.image, pixels);
    let x3 = solid_items(e, UiPart::BorderTop, z, node.border_top);
    let x4 = solid_items(e, UiPart::BorderBottom, z, node.border_bottom);
    let x5 = solid_items(e, UiPart::BorderLeft, z, node.border_left);
    let x6 = solid_items(e, UiPart::BorderRight, z, node.border_right);
    let x7 = solid_items(e, UiPart::OutlineTop, z, node.outline_top);
    let x8 = solid_items(e, UiPart::OutlineBottom, z, node.outline_bottom);
    let x9 = solid_items(e, UiPart::OutlineLeft, z, node.outline_left);
    let x10 = solid_items(e, UiPart::OutlineRight, z, node.outline_right);
    let s1 = Seq::<Item>::empty() + x1;
    assert(s1 =~= x1);
    let s2 = s1 + x2;
    let s3 = s2 + x3;
    let s4 = s3 + x4;
    let s5 = s4 + x5;
    let s6 = s5 + x6;
    let s7 = s6 + x7;
    let s8 = s7 + x8;
    let s9 = s8 + x9;
    fitting_both(t, s9, x10);
    fitting_both(t, s8, x9);
    fitting_both(t, s7, x8);
    fitting_both(t, s6, x7);
    fitting_both(t, s5, x6);
    fitting_both(t, s4, x5);
    fitting_both(t, s3, x4);
    fitting_both(t, s2, x3);
    fitting_both(t, s1, x2);
}

/// A bitmap as it goes up.
pub open spec fn picture_of(bitmap: Option<Bitmap>) -> Option<Picture> {
    match bitmap {
        None => None,
        Some(b) => Some(Picture { w: b.w, h: b.h, rgba: b.rgba@ }),
    }
}

/// The first nodes of a list draw no more than the whole list, and fit if it does.
proof fn fewer_nodes_draw_less(t: Tableau, ds: Seq<UiDraw>, n: int)
    requires
        0 <= n <= ds.len(),
        t.fits_all(interface_items(ds)),
    ensures
        interface_items(ds.take(n)).len() <= interface_items(ds).len(),
        t.fits_all(interface_items(ds.take(n))),
    decreases ds.len() - n,
{
    if n < ds.len() {
        fewer_nodes_draw_less(t, ds, n + 1);
        assert(ds.take(n + 1).drop_last() =~= ds.take(n));
        fitting_both(t, interface_items(ds.take(n)), node_items(ds[n].node, ds[n].pixels));
    } else {
        assert(ds.take(n) =~= ds);
    }
}

impl Default for UiScene {
    fn default() -> (scene: UiScene)
        ensures
            scene.wf(),
            scene.tableau() == (Tableau {
                shelf: Shelf::fresh(UI_IMG_ID_BASE, u32::MAX),
                book: Book::fresh(UI_IMG_ID_BASE),
            }),
            scene.time() == (TermClock { tick: 0, term: None }),
    {
        UiScene::new()
    }
}

// ---- laws ---------------------------------------------------------------------------

/// Different parts of a node, and parts of different nodes, have different slots: they
/// never fight over one placement id.
pub proof fn parts_have_their_own_slots(e1: u64, p1: UiPart, e2: u64, p2: UiPart)
    requires
        key_of(e1, p1.number()) == key_of(e2, p2.number()),
    ensures
        e1 == e2,
        p1 == p2,
{
    keys_are_distinct(e1, p1.number(), e2, p2.number());
}

/// Whether a slot is one of a node's.
pub open spec fn of_node(entity: u64, slot: u128) -> bool {
    exists|n: u64| slot == #[trigger] key_of(entity, n)
}

/// The rectangles of one node are all in slots of their own.
pub proof fn a_node_never_draws_a_slot_twice(node: UiNode, pixels: Option<Bitmap>)
    ensures
        distinct_slots(node_items(node, pixels)),
        node_items(node, pixels).len() <= 10,
        forall|i: int|
            0 <= i < node_items(node, pixels).len() ==> of_node(
                node.entity,
                (#[trigger] node_items(node, pixels)[i]).slot,
            ),
{
    if node.drawn() {
        let e = node.entity;
        let z = node.z();
        let all = node_items(node, pixels);
        let parts = seq![
            solid_items(e, UiPart::Background, z, node.background),
            image_items(e, z, node.image, pixels),
            solid_items(e, UiPart::BorderTop, z, node.border_top),
            solid_items(e, UiPart::BorderBottom, z, node.border_bottom),
            solid_items(e, UiPart::BorderLeft, z, node.border_left),
            solid_items(e, UiPart::BorderRight, z, node.border_right),
            solid_items(e, UiPart::OutlineTop, z, node.outline_top),
            solid_items(e, UiPart::OutlineBottom, z, node.outline_bottom),
            solid_items(e, UiPart::OutlineLeft, z, node.outline_left),
            solid_items(e, UiPart::OutlineRight, z, node.outline_right),
        ];
        let mut done = parts[0];
        let mut used = seq![0u64];
        slots_stay_apart_start(e, parts[0], 0);
        slots_stay_apart(e, done, used, parts[1], 1);
        done = done + parts[1];
        used = used.push(1);
        slots_stay_apart(e, done, used, parts[2], 2);
        done = done + parts[2];
        used = used.push(2);
        slots_stay_apart(e, done, used, parts[3], 4);
        done = done + parts[3];
        used = used.push(4);
        slots_stay_apart(e, done, used, parts[4], 5);
        done = done + parts[4];
        used = used.push(5);
        slots_stay_apart(e, done, used, parts[5], 3);
        done = done + parts[5];
        used = used.push(3);
        slots_stay_apart(e, done, used, parts[6], 6);
        done = done + parts[6];
        used = used.push(6);
        slots_stay_apart(e, done, used, parts[7], 8);
        done = done + parts[7];
        used = used.push(8);
        slots_stay_apart(e, done, used, parts[8], 9);
        done = done + parts[8];
        used = used.push(9);
        slots_stay_apart(e, done, used, parts[9], 7);
        done = done + parts[9];
        used = used.push(7);
        assert(done =~= all);
        assert forall|i: int| 0 <= i < all.len() implies of_node(e, (#[trigger] all[i]).slot) by {
            assert(is_part(e, used, all[i].slot));
        }
    }
}

/// Whether every node is an entity of its own.
pub open spec fn distinct_nodes(ds: Seq<UiDraw>) -> bool {
    forall|i: int, j: int|
        0 <= i < j < ds.len() ==> (#[trigger] ds[i]).node.entity != (#[trigger] ds[j]).node.entity
}

/// Whether a slot is one of the nodes of a list.
spec fn of_some_node(ds: Seq<UiDraw>, slot: u128) -> bool {
    exists|i: int| 0 <= i < ds.len() && of_node((#[trigger] ds[i]).node.entity, slot)
}

proof fn interface_slots_are_the_nodes(ds: Seq<UiDraw>)
    ensures
        forall|k: int|
            0 <= k < interface_items(ds).len() ==> of_some_node(
                ds,
                (#[trigger] interface_items(ds)[k]).slot,
            ),
    decreases ds.len(),
{
    if ds.len() > 0 {
        let rest = ds.drop_last();
        let before = interface_items(rest);
        let all = interface_items(ds);
        let last = ds[ds.len() - 1];
        interface_slots_are_the_nodes(rest);
        a_node_never_draws_a_slot_twice(last.node, last.pixels);
        assert forall|k: int| 0 <= k < all.len() implies of_some_node(
            ds,
            (#[trigger] all[k]).slot,
        ) by {
            if k < before.len() {
                assert(of_some_node(rest, before[k].slot));
                let i = choose|i: int|
                    0 <= i < rest.len() && of_node((#[trigger] rest[i]).node.entity, before[k].slot);
                assert(of_node(ds[i].node.entity, all[k].slot));
            } else {
                let own = node_items(last.node, last.pixels);
                assert(all[k] == own[k - before.len()]);
                assert(of_node(last.node.entity, own[k - before.len()].slot));
            }
        }
    }
}

/// The rectangles of an interface are all in slots of their own, whatever nodes it has.
pub proof fn an_interface_never_draws_a_slot_twice(ds: Seq<UiDraw>)
    requires
        distinct_nodes(ds),
    ensures
        distinct_slots(interface_items(ds)),
    decreases ds.len(),
{
    if ds.len() > 0 {
        let rest = ds.drop_last();
        let last = ds[ds.len() - 1];
        assert forall|i: int, j: int| 0 <= i < j < rest.len() implies (
        #[trigger] rest[i]).node.entity != (#[trigger] rest[j]).node.entity by {
            assert(rest[i] == ds[i] && rest[j] == ds[j]);
        }
        an_interface_never_draws_a_slot_twice(rest);
        interface_slots_are_the_nodes(rest);
        a_node_never_draws_a_slot_twice(last.node, last.pixels);
        let before = interface_items(rest);
        let own = node_items(last.node, last.pixels);
        let all = interface_items(ds);
        assert forall|j: int, k: int| 0 <= j < k < all.len() implies (#[trigger] all[j]).slot != (
        #[trigger] all[k]).slot by {
            if k < before.len() {
                assert(all[j] == before[j] && all[k] == before[k]);
            } else if j >= before.len() {
                assert(all[j] == own[j - before.len()] && all[k] == own[k - before.len()]);
            } else {
                let slot = all[j].slot;
                assert(of_some_node(rest, before[j].slot));
                let i = choose|i: int|
                    0 <= i < rest.len() && of_node((#[trigger] rest[i]).node.entity, slot);
                assert(of_node(last.node.entity, own[k - before.len()].slot));
                assert(ds[i].node.entity != ds[ds.len() - 1].node.entity);
                if slot == all[k].slot {
                    let m = choose|m: u64| slot == #[trigger] key_of(rest[i].node.entity, m);
                    let n = choose|n: u64| slot == #[trigger] key_of(last.node.entity, n);
                    keys_are_distinct(rest[i].node.entity, m, last.node.entity, n);
                }
            }
        }
    }
}

/// Nodes draw ten rectangles each at most.
pub proof fn an_interface_draws_ten_rectangles_per_node(ds: Seq<UiDraw>)
    ensures
        interface_items(ds).len() <= 10 * ds.len(),
    decreases ds.len(),
{
    if ds.len() > 0 {
        an_interface_draws_ten_rectangles_per_node(ds.drop_last());
        a_node_never_draws_a_slot_twice(ds.last().node, ds.last().pixels);
    }
}

/// Whether a list draws in the slots of some parts of a node only, each once at most.
spec fn uses_parts(its: Seq<Item>, e: u64, used: Seq<u64>) -> bool {
    &&& its.len() <= used.len()
    &&& distinct_slots(its)
    &&& forall|i: int| 0 <= i < its.len() ==> is_part(e, used, (#[trigger] its[i]).slot)
}

/// Whether a slot is one of some parts of a node.
spec fn is_part(e: u64, used: Seq<u64>, slot: u128) -> bool {
    exists|j: int| 0 <= j < used.len() && slot == key_of(e, #[trigger] used[j])
}

proof fn slots_stay_apart_start(e: u64, its: Seq<Item>, n: u64)
    requires
        its.len() <= 1,
        its.len() == 1 ==> its[0].slot == key_of(e, n),
    ensures
        uses_parts(its, e, seq![n]),
{
    assert forall|i: int| 0 <= i < its.len() implies is_part(
        e,
        seq![n],
        (#[trigger] its[i]).slot,
    ) by {
        assert(its[i].slot == key_of(e, seq![n][0]));
    }
}

proof fn slots_stay_apart(e: u64, done: Seq<Item>, used: Seq<u64>, its: Seq<Item>, n: u64)
    requires
        uses_parts(done, e, used),
        !used.contains(n),
        its.len() <= 1,
        its.len() == 1 ==> its[0].slot == key_of(e, n),
    ensures
        uses_parts(done + its, e, used.push(n)),
{
    let all = done + its;
    let more = used.push(n);
    assert forall|i: int| 0 <= i < all.len() implies is_part(e, more, (#[trigger] all[i]).slot) by {
        if i < done.len() {
            assert(is_part(e, used, done[i].slot));
            let j = choose|j: int|
                0 <= j < used.len() && done[i].slot == key_of(e, #[trigger] used[j]);
            assert(all[i].slot == key_of(e, more[j]));
        } else {
            assert(all[i].slot == key_of(e, more[used.len() as int]));
        }
    }
    assert forall|i: int, k: int| 0 <= i < k < all.len() implies (#[trigger] all[i]).slot != (
    #[trigger] all[k]).slot by {
        if k < done.len() {
            assert(done[i].slot != done[k].slot);
        } else {
            assert(is_part(e, used, done[i].slot));
            let j = choose|j: int|
                0 <= j < used.len() && done[i].slot == key_of(e, #[trigger] used[j]);
            assert(used.contains(used[j]));
            if all[i].slot == all[k].slot {
                keys_are_distinct(e, used[j], e, n);
            }
        }
    }
    assert(distinct_slots(all));
    assert(all.len() <= more.len());
}

/// The interface draws above text and world, in the order of the stack, and its text
/// above its panels.
pub proof fn the_interface_is_in_front(back: u32, front: u32)
    requires
        back < front <= i32::MAX - UI_Z_BASE,
    ensures
        UI_Z_BASE > TEXT_Z_BIAS,
        UI_Z_BASE + signed_stack(back) >= UI_Z_BASE,
        UI_Z_BASE + signed_stack(back) < UI_Z_BASE + signed_stack(front),
        front < UI_TEXT_Z_BIAS ==> UI_Z_BASE + signed_stack(front) < UI_Z_BASE + UI_TEXT_Z_BIAS,
{
}

/// The three passes never share an image id, and none uses the frame's: no pass ever
/// replaces another's pixels.
pub proof fn bands_never_meet(
    sprites: SpriteScene,
    glyphs: GlyphScene,
    panels: UiScene,
    a: Seq<char>,
    b: Seq<char>,
    c: Seq<char>,
)
    requires
        sprites.wf(),
        glyphs.wf(),
        panels.wf(),
        sprites.shelf().images.contains_key(a),
        glyphs.tableau().shelf.images.contains_key(b),
        panels.tableau().shelf.images.contains_key(c),
    ensures
        FRAME_IMG_ID < sprites.shelf().images[a].img_id < glyphs.tableau().shelf.images[b].img_id
            < panels.tableau().shelf.images[c].img_id,
{
}

/// The bands that the three passes hand out image ids from have nothing in common, and the
/// frame's id is in none of them.
pub proof fn bands_are_apart(sprites: SpriteScene, glyphs: GlyphScene, panels: UiScene)
    requires
        sprites.wf(),
        glyphs.wf(),
        panels.wf(),
    ensures
        sprites.tableau().band().clear_of(glyphs.tableau().band()),
        sprites.tableau().band().clear_of(panels.tableau().band()),
        glyphs.tableau().band().clear_of(panels.tableau().band()),
        !sprites.tableau().band().holds(FRAME_IMG_ID),
        !glyphs.tableau().band().holds(FRAME_IMG_ID),
        !panels.tableau().band().holds(FRAME_IMG_ID),
{
}

/// Flat colours share an upload only if they quantise alike, and never share one with an
/// image.
pub proof fn solid_keys_tell_colours_apart(a: Levels, b: Levels, p: ImagePart)
    requires
        a.wf(),
        b.wf(),
    ensures
        solid_key(a) == solid_key(b) <==> a == b,
        solid_key(a) != image_key(p),
{
    reveal_strlit("ui-solid");
    reveal_strlit("ui-img:");
    if solid_key(a) == solid_key(b) {
        assert(solid_key(a).skip(8) =~= levels_text(a));
        assert(solid_key(b).skip(8) =~= levels_text(b));
        levels_text_is_injective(a, b);
    }
    assert(solid_key(a)[3] == 's');
    assert(image_key(p)[3] == 'i');
}

proof fn region_text_is_injective(a: Option<CellRect>, b: Option<CellRect>)
    requires
        a matches Some(r) ==> r.wf(),
        b matches Some(r) ==> r.wf(),
        region_text(a) == region_text(b),
    ensures
        a == b,
{
    reveal_strlit("#");
    if let Some(r) = a {
        assert(region_text(a).len() > 0);
        if let Some(q) = b {
            let (r0, r1, r2, r3) = (
                digits(r.x0 as nat),
                digits(r.y0 as nat),
                digits((r.x1 - r.x0) as nat),
                digits((r.y1 - r.y0) as nat),
            );
            let (q0, q1, q2, q3) = (
                digits(q.x0 as nat),
                digits(q.y0 as nat),
                digits((q.x1 - q.x0) as nat),
                digits((q.y1 - q.y0) as nat),
            );
            assert(region_text(a).skip(1) =~= r0 + ","@ + r1 + ","@ + r2 + ","@ + r3);
            assert(region_text(b).skip(1) =~= q0 + ","@ + q1 + ","@ + q2 + ","@ + q3);
            digits_read_back(r.x0 as nat);
            digits_read_back(r.y0 as nat);
            digits_read_back((r.x1 - r.x0) as nat);
            digits_read_back(q.x0 as nat);
            digits_read_back(q.y0 as nat);
            digits_read_back((q.x1 - q.x0) as nat);
            four_fields((r0, r1, r2, r3), (q0, q1, q2, q3));
            digits_injective(r.x0 as nat, q.x0 as nat);
            digits_injective(r.y0 as nat, q.y0 as nat);
            digits_injective((r.x1 - r.x0) as nat, (q.x1 - q.x0) as nat);
            digits_injective((r.y1 - r.y0) as nat, (q.y1 - q.y0) as nat);
        }
    } else if let Some(q) = b {
        assert(region_text(b).len() > 0);
    }
}

/// Nodes share a bitmap only if their tints quantise alike and they are mirrored the same
/// way, and nodes of one image only if they show the same region of it too.
pub proof fn image_keys_tell_variants_apart(a: ImagePart, b: ImagePart)
    requires
        a.wf(),
        b.wf(),
        image_key(a) == image_key(b),
    ensures
        a.levels == b.levels,
        a.flip_x == b.flip_x,
        a.flip_y == b.flip_y,
        label_text(a.name) == label_text(b.name) ==> a.region == b.region,
{
    let (ha, hb) = (
        "ui-img:"@ + label_text(a.name) + region_text(a.region),
        "ui-img:"@ + label_text(b.name) + region_text(b.region),
    );
    levels_and_flip_close_a_key(
        (ha, a.levels, a.flip_x, a.flip_y),
        (hb, b.levels, b.flip_x, b.flip_y),
    );
    if label_text(a.name) == label_text(b.name) {
        let n = ("ui-img:"@ + label_text(a.name)).len() as int;
        assert(ha.skip(n) =~= region_text(a.region));
        assert(hb.skip(n) =~= region_text(b.region));
        region_text_is_injective(a.region, b.region);
    }
}

/// Flat rectangles that share an upload have the same picture: however their colours
/// differ beyond the levels, the bytes that go up are those of the key.
pub proof fn solids_of_one_key_agree(a: SolidPart, b: SolidPart)
    requires
        a.levels.wf(),
        b.levels.wf(),
        solid_key(a.levels) == solid_key(b.levels),
    ensures
        solid_picture(a.levels) == solid_picture(b.levels),
{
    assert(solid_key(a.levels).skip(8) =~= levels_text(a.levels)) by {
        reveal_strlit("ui-solid");
    }
    assert(solid_key(b.levels).skip(8) =~= levels_text(b.levels)) by {
        reveal_strlit("ui-solid");
    }
    levels_text_is_injective(a.levels, b.levels);
}

/// Image rectangles that share an upload have the same picture, as soon as the pixels
/// found for them are the same.
pub proof fn images_of_one_key_agree(a: ImagePart, b: ImagePart, p: Bitmap, q: Bitmap)
    requires
        a.wf(),
        b.wf(),
        image_key(a) == image_key(b),
        p.rgba@ == q.rgba@,
        p.w == q.w,
        p.h == q.h,
    ensures
        image_picture(a, Some(p)) == image_picture(b, Some(q)),
{
    image_keys_tell_variants_apart(a, b);
}

/// Whether two lists are of the same nodes, each drawing the same rectangles. The pixels of
/// their images may be available in the one and not in the other.
pub open spec fn same_nodes(a: Seq<UiDraw>, b: Seq<UiDraw>) -> bool {
    &&& a.len() == b.len()
    &&& forall|i: int|
        0 <= i < a.len() ==> same_things(
            node_items((#[trigger] a[i]).node, a[i].pixels),
            node_items((#[trigger] b[i]).node, b[i].pixels),
        )
}

proof fn same_nodes_draw_the_same(a: Seq<UiDraw>, b: Seq<UiDraw>)
    requires
        same_nodes(a, b),
    ensures
        same_things(interface_items(a), interface_items(b)),
    decreases a.len(),
{
    if a.len() > 0 {
        let (x, y) = (a.drop_last(), b.drop_last());
        let (p, q) = (a[a.len() - 1], b[b.len() - 1]);
        assert forall|i: int| 0 <= i < x.len() implies same_things(
            node_items((#[trigger] x[i]).node, x[i].pixels),
            node_items((#[trigger] y[i]).node, y[i].pixels),
        ) by {
            assert(x[i] == a[i] && y[i] == b[i]);
        }
        same_nodes_draw_the_same(x, y);
        same_things_join(
            interface_items(x),
            interface_items(y),
            node_items(p.node, p.pixels),
            node_items(q.node, q.pixels),
        );
    }
}

/// A still interface costs zero bytes: a tick that draws the same nodes as the tick before,
/// with no more pixels available than then, sends nothing, and neither the bitmaps nor the
/// rectangles become more or fewer.
pub proof fn a_still_interface_costs_nothing(
    t: Tableau,
    ds: Seq<UiDraw>,
    again: Seq<UiDraw>,
    gone: Seq<u128>,
)
    requires
        t.shelf.wf(),
        distinct_nodes(ds),
        same_nodes(ds, again),
        pixels_come_first(t, interface_items(ds)),
        nothing_arrived(t.begun(), interface_items(ds), interface_items(again)),
        lists_unseen(
            t.begun().drew_all(interface_items(ds)).retired().begun().drew_all(
                interface_items(again),
            ).book,
            gone,
        ),
    ensures
        stands_still(
            t.begun().drew_all(interface_items(ds)).retired(),
            interface_items(again),
            gone,
        ),
{
    an_interface_never_draws_a_slot_twice(ds);
    same_nodes_draw_the_same(ds, again);
    a_still_scene_is_free(t, interface_items(ds), interface_items(again), gone);
}

// ---- where every rectangle goes -----------------------------------------------------

/// The box of a part of a node, if the node has that part and it is not clipped away.
pub open spec fn box_of(node: UiNode, part: UiPart) -> Option<CellBox> {
    match part {
        UiPart::Background => match node.background {
            Some(p) => p.at,
            None => None,
        },
        UiPart::Image => match node.image {
            Some(p) => p.at,
            None => None,
        },
        UiPart::BorderTop => match node.border_top {
            Some(p) => p.at,
            None => None,
        },
        UiPart::BorderBottom => match node.border_bottom {
            Some(p) => p.at,
            None => None,
        },
        UiPart::BorderLeft => match node.border_left {
            Some(p) => p.at,
            None => None,
        },
        UiPart::BorderRight => match node.border_right {
            Some(p) => p.at,
            None => None,
        },
        UiPart::OutlineTop => match node.outline_top {
            Some(p) => p.at,
            None => None,
        },
        UiPart::OutlineBottom => match node.outline_bottom {
            Some(p) => p.at,
            None => None,
        },
        UiPart::OutlineLeft => match node.outline_left {
            Some(p) => p.at,
            None => None,
        },
        UiPart::OutlineRight => match node.outline_right {
            Some(p) => p.at,
            None => None,
        },
    }
}

/// The flat part of a node that a part names. The image is none.
pub open spec fn flat_part(node: UiNode, part: UiPart) -> Option<SolidPart> {
    match part {
        UiPart::Background => node.background,
        UiPart::BorderTop => node.border_top,
        UiPart::BorderBottom => node.border_bottom,
        UiPart::BorderLeft => node.border_left,
        UiPart::BorderRight => node.border_right,
        UiPart::OutlineTop => node.outline_top,
        UiPart::OutlineBottom => node.outline_bottom,
        UiPart::OutlineLeft => node.outline_left,
        UiPart::OutlineRight => node.outline_right,
        UiPart::Image => None,
    }
}

/// What a node draws for a part that has a box.
pub open spec fn item_of(node: UiNode, pixels: Option<Bitmap>, part: UiPart) -> Item {
    if part is Image {
        image_items(node.entity, node.z(), node.image, pixels)[0]
    } else {
        solid_items(node.entity, part, node.z(), flat_part(node, part))[0]
    }
}

/// Whether a depth is that of a stack index: above the world by the index, read as a signed
/// 32-bit number.
pub open spec fn is_depth(z: i32, stack: u32) -> bool {
    z - UI_Z_BASE == (if stack < 0x8000_0000 {
        stack as int
    } else {
        stack - 0x1_0000_0000
    })
}

/// Every part that a node has is among the node's items.
pub proof fn every_part_is_drawn(node: UiNode, pixels: Option<Bitmap>, part: UiPart) -> (i: int)
    requires
        node.visible,
        !node.empty,
        box_of(node, part) is Some,
    ensures
        0 <= i < node_items(node, pixels).len(),
        node_items(node, pixels)[i] == item_of(node, pixels, part),
        parts_behind(node, layer(part)) <= i,
        i < parts_behind(node, layer(part) + 1) || layer(part) == 3,
{
    let e = node.entity;
    let z = node.z();
    let x1 = solid_items(e, UiPart::Background, z, node.background);
    let x2 = image_items(e, z, node.image, pixels);
    let x3 = solid_items(e, UiPart::BorderTop, z, node.border_top);
    let x4 = solid_items(e, UiPart::BorderBottom, z, node.border_bottom);
    let x5 = solid_items(e, UiPart::BorderLeft, z, node.border_left);
    let x6 = solid_items(e, UiPart::BorderRight, z, node.border_right);
    let x7 = solid_items(e, UiPart::OutlineTop, z, node.outline_top);
    let x8 = solid_items(e, UiPart::OutlineBottom, z, node.outline_bottom);
    let x9 = solid_items(e, UiPart::OutlineLeft, z, node.outline_left);
    let x10 = solid_items(e, UiPart::OutlineRight, z, node.outline_right);
    let s1 = x1;
    let s2 = s1 + x2;
    let s3 = s2 + x3;
    let s4 = s3 + x4;
    let s5 = s4 + x5;
    let s6 = s5 + x6;
    let s7 = s6 + x7;
    let s8 = s7 + x8;
    let s9 = s8 + x9;
    let s10 = s9 + x10;
    assert(s10 == node_items(node, pixels));
    match part {
        UiPart::Background => {
            let i = 0int;
            assert(s1[i] == x1[0]);
            assert(s2[i] == x1[0]);
            assert(s3[i] == x1[0]);
            assert(s4[i] == x1[0]);
            assert(s5[i] == x1[0]);
            assert(s6[i] == x1[0]);
            assert(s7[i] == x1[0]);
            assert(s8[i] == x1[0]);
            assert(s9[i] == x1[0]);
            assert(s10[i] == x1[0]);
            i
        },
        UiPart::Image => {
            let i = s1.len() as int;
            assert(s2[i] == x2[0]);
            assert(s3[i] == x2[0]);
            assert(s4[i] == x2[0]);
            assert(s5[i] == x2[0]);
            assert(s6[i] == x2[0]);
            assert(s7[i] == x2[0]);
            assert(s8[i] == x2[0]);
            assert(s9[i] == x2[0]);
            assert(s10[i] == x2[0]);
            i
        },
        UiPart::BorderTop => {
            let i = s2.len() as int;
            assert(s3[i] == x3[0]);
            assert(s4[i] == x3[0]);
            assert(s5[i] == x3[0]);
            assert(s6[i] == x3[0]);
            assert(s7[i] == x3[0]);
            assert(s8[i] == x3[0]);
            assert(s9[i] == x3[0]);
            assert(s10[i] == x3[0]);
            i
        },
        UiPart::BorderBottom => {
            let i = s3.len() as int;
            assert(s4[i] == x4[0]);
            assert(s5[i] == x4[0]);
            assert(s6[i] == x4[0]);
            assert(s7[i] == x4[0]);
            assert(s8[i] == x4[0]);
            assert(s9[i] == x4[0]);
            assert(s10[i] == x4[0]);
            i
        },
        UiPart::BorderLeft => {
            let i = s4.len() as int;
            assert(s5[i] == x5[0]);
            assert(s6[i] == x5[0]);
            assert(s7[i] == x5[0]);
            assert(s8[i] == x5[0]);
            assert(s9[i] == x5[0]);
            assert(s10[i] == x5[0]);
            i
        },
        UiPart::BorderRight => {
            let i = s5.len() as int;
            assert(s6[i] == x6[0]);
            assert(s7[i] == x6[0]);
            assert(s8[i] == x6[0]);
            assert(s9[i] == x6[0]);
            assert(s10[i] == x6[0]);
            i
        },
        UiPart::OutlineTop => {
            let i = s6.len() as int;
            assert(s7[i] == x7[0]);
            assert(s8[i] == x7[0]);
            assert(s9[i] == x7[0]);
            assert(s10[i] == x7[0]);
            i
        },
        UiPart::OutlineBottom => {
            let i = s7.len() as int;
            assert(s8[i] == x8[0]);
            assert(s9[i] == x8[0]);
            assert(s10[i] == x8[0]);
            i
        },
        UiPart::OutlineLeft => {
            let i = s8.len() as int;
            assert(s9[i] == x9[0]);
            assert(s10[i] == x9[0]);
            i
        },
        UiPart::OutlineRight => {
            let i = s9.len() as int;
            assert(s10[i] == x10[0]);
            i
        },
    }
}

/// Every part that a node has is drawn in its own slot, at the depth of the node's stack
/// index, over the whole of its box: from the cell and the offset of the box, and as many
/// columns and rows as the box spans.
pub proof fn every_part_fills_its_box(node: UiNode, pixels: Option<Bitmap>, part: UiPart)
    requires
        node.wf(),
        node.visible,
        !node.empty,
        box_of(node, part) is Some,
    ensures
        ({
            let it = item_of(node, pixels, part);
            let b = box_of(node, part)->0;
            &&& it.slot == key_of(node.entity, part.number())
            &&& !it.keeps
            &&& it.geom matches Some(g) && g.row == b.row && g.col == b.col && g.xoff == b.xoff
                && g.yoff == b.yoff && g.cols == b.cols && g.rows == b.rows && is_depth(
                g.z,
                node.stack,
            )
        }),
{
    if part is Image {
        assert(image_items(node.entity, node.z(), node.image, pixels).len() == 1);
    } else {
        assert(solid_items(node.entity, part, node.z(), flat_part(node, part)).len() == 1);
    }
}

/// What is sent for a part of a node. If drawing it sends a placement, the last two packets
/// move the cursor to the cell of the part's box and show the part's image there, at the
/// depth of the node, with the offset of the box, over all its columns and rows; nothing
/// else is placed, and if it sends none, nothing is.
pub proof fn every_part_is_placed_in_its_box(
    t: Tableau,
    node: UiNode,
    pixels: Option<Bitmap>,
    part: UiPart,
)
    requires
        node.wf(),
        node.visible,
        !node.empty,
        box_of(node, part) is Some,
    ensures
        ({
            let it = item_of(node, pixels, part);
            let b = box_of(node, part)->0;
            let ps = t.packets(it);
            let n = ps.len() as int;
            if t.places(it) {
                &&& n >= 2
                &&& ps[n - 2] == (Packet::Cursor { row: b.row, col: b.col })
                &&& ps[n - 1] matches Packet::Place { z, cols, rows, xoff, yoff, .. } && is_depth(
                    z,
                    node.stack,
                ) && cols == b.cols && rows == b.rows && xoff == b.xoff && yoff == b.yoff
                &&& forall|j: int|
                    0 <= j < n - 2 ==> !((#[trigger] ps[j]) is Cursor) && !(ps[j] is Place)
            } else {
                forall|j: int|
                    0 <= j < n ==> !((#[trigger] ps[j]) is Cursor) && !(ps[j] is Place)
            }
        }),
{
    every_part_fills_its_box(node, pixels, part);
    a_placement_is_two_packets(t, item_of(node, pixels, part));
}

/// Every flat part of a node shows one pixel of its own colour: red, green, blue and alpha,
/// each to 255 what its level is to 15.
pub proof fn every_flat_part_has_its_own_colour(node: UiNode, pixels: Option<Bitmap>, part: UiPart)
    requires
        node.wf(),
        flat_part(node, part) is Some,
        box_of(node, part) is Some,
    ensures
        ({
            let l = (flat_part(node, part)->0).levels;
            item_of(node, pixels, part).picture matches Some(p) && p.w == 1 && p.h == 1
                && p.rgba.len() == 4 && 15 * p.rgba[0] == 255 * l.r && 15 * p.rgba[1] == 255 * l.g
                && 15 * p.rgba[2] == 255 * l.b && 15 * p.rgba[3] == 255 * l.a
        }),
{
    let l = (flat_part(node, part)->0).levels;
    assert(l.wf());
    let px = levels_pixel(l);
    a_colour_is_red_green_blue_alpha(l, 0);
    assert(solid_items(node.entity, part, node.z(), flat_part(node, part)).len() == 1);
    assert(item_of(node, pixels, part).picture == solid_picture(l));
    let rgba = solid(px, 1, 1);
    assert(rgba.len() == 4 && rgba[0] == px[0] && rgba[1] == px[1] && rgba[2] == px[2] && rgba[3]
        == px[3]);
}

/// A node's image shows the pixels that were found for it, on the mirrored side if it is
/// mirrored, each channel scaled by the level of the node's tint, rounded to the nearest.
pub proof fn an_image_part_shows_its_pixels(
    p: ImagePart,
    b: Bitmap,
    x: int,
    y: int,
    c: int,
)
    requires
        p.wf(),
        b.wf(),
        0 <= x < b.w,
        0 <= y < b.h,
        0 <= c < 4,
    ensures
        image_picture(p, None) is None,
        ({
            let sx = if p.flip_x {
                b.w - 1 - x
            } else {
                x
            };
            let sy = if p.flip_y {
                b.h - 1 - y
            } else {
                y
            };
            let v = b.rgba@[4 * (sy * b.w + sx) + c];
            let q = seq![p.levels.r, p.levels.g, p.levels.b, p.levels.a][c] as int;
            image_picture(p, Some(b)) matches Some(pic) && pic.w == b.w && pic.h == b.h
                && pic.rgba.len() == b.rgba@.len() && 2 * v * q - 15 <= 30 * pic.rgba[4 * (y * b.w
                + x) + c] <= 2 * v * q + 15
        }),
{
    baking_tints_and_moves_each_pixel(b.rgba@, b.w, b.h, p.levels, p.flip_x, p.flip_y, x, y, c);
}

/// A node draws only the parts that it has: every item of it is in the slot of a part that
/// has a box, and a node that is hidden or empty draws nothing.
pub proof fn a_node_draws_only_its_parts(node: UiNode, pixels: Option<Bitmap>)
    ensures
        !node.visible || node.empty ==> node_items(node, pixels).len() == 0,
        node.visible && !node.empty ==> node_items(node, pixels).len() == part_count(
            node,
            UiPart::Background,
        ) + part_count(node, UiPart::Image) + part_count(node, UiPart::BorderTop) + part_count(
            node,
            UiPart::BorderBottom,
        ) + part_count(node, UiPart::BorderLeft) + part_count(node, UiPart::BorderRight) + part_count(
            node,
            UiPart::OutlineTop,
        ) + part_count(node, UiPart::OutlineBottom) + part_count(node, UiPart::OutlineLeft)
            + part_count(node, UiPart::OutlineRight),
{
}

/// One for a part that has a box, none for one that has not.
pub open spec fn part_count(node: UiNode, part: UiPart) -> int {
    if box_of(node, part) is Some {
        1
    } else {
        0
    }
}

/// A stack index counts as a signed 32-bit number: the same, or less by the number of all
/// 32-bit numbers.
pub proof fn a_stack_index_wraps(stack: u32)
    ensures
        i32::MIN <= signed_stack(stack) <= i32::MAX,
        (signed_stack(stack) - stack) % 0x1_0000_0000 == 0,
{
}

/// Everything is drawn in its turn: the background before the image, the image before the
/// borders, and the borders before the outline.
pub proof fn parts_are_drawn_in_order(
    node: UiNode,
    pixels: Option<Bitmap>,
    first: UiPart,
    second: UiPart,
) -> (at: (int, int))
    requires
        node.visible,
        !node.empty,
        box_of(node, first) is Some,
        box_of(node, second) is Some,
        layer(first) < layer(second),
    ensures
        0 <= at.0 < at.1 < node_items(node, pixels).len(),
        node_items(node, pixels)[at.0] == item_of(node, pixels, first),
        node_items(node, pixels)[at.1] == item_of(node, pixels, second),
{
    (every_part_is_drawn(node, pixels, first), every_part_is_drawn(node, pixels, second))
}

/// How far back a part of a node is: the background is behind the image, the image behind
/// the borders, and those behind the outline.
pub open spec fn layer(part: UiPart) -> int {
    match part {
        UiPart::Background => 0,
        UiPart::Image => 1,
        UiPart::BorderTop => 2,
        UiPart::BorderRight => 2,
        UiPart::BorderBottom => 2,
        UiPart::BorderLeft => 2,
        UiPart::OutlineTop => 3,
        UiPart::OutlineRight => 3,
        UiPart::OutlineBottom => 3,
        UiPart::OutlineLeft => 3,
    }
}

/// How many parts of the background, the image and the borders a node has, up to a layer.
pub open spec fn parts_behind(node: UiNode, n: int) -> int {
    (if n > 0 {
        part_count(node, UiPart::Background)
    } else {
        0
    }) + (if n > 1 {
        part_count(node, UiPart::Image)
    } else {
        0
    }) + (if n > 2 {
        part_count(node, UiPart::BorderTop) + part_count(node, UiPart::BorderBottom) + part_count(
            node,
            UiPart::BorderLeft,
        ) + part_count(node, UiPart::BorderRight)
    } else {
        0
    })
}

/// Every node of an interface is drawn, part by part, right behind the nodes before it.
pub proof fn every_node_is_drawn_in_its_turn(ds: Seq<UiDraw>, i: int, k: int)
    requires
        0 <= i < ds.len(),
        0 <= k < node_items(ds[i].node, ds[i].pixels).len(),
    ensures
        ({
            let n = interface_items(ds.take(i)).len() as int;
            &&& n + k < interface_items(ds).len()
            &&& interface_items(ds)[n + k] == node_items(ds[i].node, ds[i].pixels)[k]
        }),
    decreases ds.len(),
{
    let rest = ds.drop_last();
    if i == ds.len() - 1 {
        assert(ds.take(i) =~= rest);
    } else {
        assert(rest.take(i) =~= ds.take(i));
        every_node_is_drawn_in_its_turn(rest, i, k);
    }
}

/// A region of an image is named by its corner and its size: a hash, and then the left edge,
/// the top edge, the width and the height, with commas between them. A whole image has no
/// such name.
pub proof fn a_region_is_named_by_corner_and_size(p: ImagePart)
    requires
        p.wf(),
    ensures
        p.region is None ==> region_text(p.region).len() == 0,
        p.region matches Some(r) ==> region_text(p.region) == seq!['#'] + digits(r.x0 as nat)
            + seq![','] + digits(r.y0 as nat) + seq![','] + digits((r.x1 - r.x0) as nat)
            + seq![','] + digits((r.y1 - r.y0) as nat),
{
    reveal_strlit("#");
    reveal_strlit(",");
    assert("#"@ =~= seq!['#']);
    assert(","@ =~= seq![',']);
}

} // verus!
