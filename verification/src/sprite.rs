//! The sprite pass: upload each distinct bitmap once, then emit cheap per-tick placement
//! deltas. A moved sprite costs tens of bytes, not a whole framebuffer.
//!
//! A tick is [`SpriteScene::begin_tick`], then [`SpriteScene::render_sprites`] with all
//! sprites. Before that, [`plan_sprite`] says what a sprite shows,
//! [`SpriteScene::wants_pixels`] whether the pixels of its image have to be fetched, and
//! [`SpriteScene::uploaded`] how big an image is that has gone up.

use vstd::prelude::*;
use vstd::string::*;

use crate::cache::{Shelf, Upload};
use crate::colour::{
    a_colour_is_red_green_blue_alpha, flip_text, flip_text_facts, flip_text_is_injective,
    levels_pixel, push_flip, push_tint, tint_text, tint_text_facts, tint_text_is_injective, Levels,
};
use crate::digits::{
    behind_a_label, digits, digits_injective, digits_read_back, lacks, push_digits, suffix_parts,
};
use crate::ghosting::Tableau;
use crate::items::{
    a_list_of_one_item, an_empty_list_is_idle, distinct_slots, drawing_counts_few, drawn_from,
    fitting_both, lists_join, ticked_from, Item, Tally, TickTally,
};
use crate::label::{image_label, label_text, AssetName};
use crate::pass::{slots_show_uploads, Pass};
use crate::pixels::{
    bake_levels, baking_tints_and_moves_each_pixel, levels_baked, sendable, solid, solid_rgba,
    Bitmap, CellRect,
};
use crate::screen::{encode, stream, stream_of_both, stream_of_one, Geom, Packet, Picture};
use crate::slots::{
    distinct_ids, key_of, keys_are_distinct, lists_unseen, retire_packets, show_packets, slot_key,
    Book,
};
use crate::term::{TermClock, TermSize, REQUERY_TICKS};
use crate::text::GLYPH_ID_BASE;
use crate::ticks::{
    a_placement_is_two_packets, a_still_scene_is_free, nothing_arrived, pixels_come_first,
    same_things, same_things_join, stands_still,
};

verus! {

/// Multiplier turning a world z into a kitty `z` index.
///
/// Y-sorted 2D games often use a very narrow z band, so a small factor collapses every
/// actor onto one z and front-to-back ordering is lost entirely.
pub const Z_SPREAD: i32 = 100_000;

/// Bias added to text's kitty `z`, so a string is never hidden behind the sprite it
/// labels.
///
/// Sized to clear the y-sort band (world z around 1.0) by a factor of ten. Text beats
/// **world-space sprites**, not **screen-space overlays** at a high world z.
pub const TEXT_Z_BIAS: i32 = 1_000_000;

/// First kitty image id of the sprite pass, less one. Below this is reserved: frame mode
/// uses id 1.
pub const SPRITE_IMG_ID_BASE: u32 = 1000;

/// The pixel size a flat-colour tile is synthesised at.
///
/// One pixel: a placement is stretched to its cell span by kitty, and every pixel of a
/// flat colour is the same colour. Keyed at a fixed size, the cache holds one image per
/// COLOUR rather than one per (colour, size) pair.
pub const SOLID_TILE_PX: u32 = 1;

/// Which part of its image a sprite draws.
pub enum SheetCell {
    /// All of it.
    Whole,
    /// One cell of a sheet.
    Cell { index: u64, rect: CellRect },
    /// A cell of a sheet whose layout is not there yet, or has no such cell.
    Missing,
}

/// What the pass reads of a sprite to decide what it shows.
pub struct SpriteLook {
    pub visible: bool,
    /// The colour, quantised.
    pub tint: Levels,
    pub flip_x: bool,
    pub flip_y: bool,
    pub cell: SheetCell,
    /// Whether the image handle is the default one, behind which there is a white pixel
    /// that no sprite means to draw.
    pub default_image: bool,
    /// Whether the image has pixels on the CPU side.
    pub has_pixels: bool,
    /// Where the image comes from.
    pub image: AssetName,
    /// Whether the sprite has a size of its own.
    pub sized: bool,
}

/// What a sprite shows.
pub enum SpritePlan {
    /// Nothing.
    Skip,
    /// A flat colour, under a cache key.
    Solid { key: String },
    /// An image, or one cell of it, under a cache key.
    Image { key: String, cell: Option<CellRect> },
}

impl SpriteLook {
    /// Whether levels are levels and corners are in order.
    pub open spec fn wf(self) -> bool {
        &&& self.tint.wf()
        &&& self.cell matches SheetCell::Cell { rect, .. } ==> rect.wf()
    }

    /// Whether there is a real image: loaded from a path, or with pixels of its own.
    pub open spec fn has_image(self) -> bool {
        !self.default_image && (self.image is Path || self.has_pixels)
    }

    /// Whether the sprite draws nothing: hidden, fully transparent, a cell that is not
    /// there, or neither an image nor a size to fill.
    pub open spec fn skipped(self) -> bool {
        ||| !self.visible
        ||| self.tint.a == 0
        ||| self.cell is Missing
        ||| !self.has_image() && !self.sized
    }
}

/// The suffix of a key for a cell of a sheet.
pub open spec fn cell_text(cell: SheetCell) -> Seq<char> {
    match cell {
        SheetCell::Cell { index, .. } => "#"@ + digits(index as nat),
        _ => Seq::empty(),
    }
}

/// The key of a flat colour. It does NOT include the size, because the pixels do not
/// depend on it.
pub open spec fn solid_key(tint: Levels) -> Seq<char> {
    "solid"@ + tint_text(tint)
}

/// The key of an image. The tint and the flip are baked into the uploaded pixels, so they
/// are part of it.
pub open spec fn image_key(look: SpriteLook) -> Seq<char> {
    label_text(look.image) + cell_text(look.cell) + tint_text(look.tint) + flip_text(
        look.flip_x,
        look.flip_y,
    )
}

/// Whether a plan is the plan of a look.
pub open spec fn plans(look: SpriteLook, plan: SpritePlan) -> bool {
    match plan {
        SpritePlan::Skip => look.skipped(),
        SpritePlan::Solid { key } => {
            &&& !look.skipped()
            &&& !look.has_image()
            &&& key@ == solid_key(look.tint)
        },
        SpritePlan::Image { key, cell } => {
            &&& !look.skipped()
            &&& look.has_image()
            &&& key@ == image_key(look)
            &&& cell == (match look.cell {
                SheetCell::Cell { rect, .. } => Some(rect),
                _ => None,
            })
        },
    }
}

/// Decides what a sprite shows, and under which key.
pub fn plan_sprite(look: &SpriteLook) -> (plan: SpritePlan)
    requires
        look.wf(),
    ensures
        plans(*look, plan),
{
    if !look.visible || look.tint.a == 0 {
        return SpritePlan::Skip;
    }
    let cell: Option<CellRect> = match &look.cell {
        SheetCell::Missing => {
            return SpritePlan::Skip;
        },
        SheetCell::Cell { rect, .. } => Some(*rect),
        SheetCell::Whole => None,
    };
    let has_path = match &look.image {
        AssetName::Path { .. } => true,
        AssetName::Generated { .. } => false,
    };
    if !look.default_image && (has_path || look.has_pixels) {
        let mut key = image_label(&look.image);
        if let SheetCell::Cell { index, .. } = &look.cell {
            key.append("#");
            push_digits(&mut key, *index);
        }
        push_tint(&mut key, &look.tint);
        push_flip(&mut key, look.flip_x, look.flip_y);
        assert(key@ =~= image_key(*look));
        SpritePlan::Image { key, cell }
    } else if look.sized {
        let mut key = String::from_str("solid");
        push_tint(&mut key, &look.tint);
        SpritePlan::Solid { key }
    } else {
        SpritePlan::Skip
    }
}

// ---- pixels -------------------------------------------------------------------------

/// What goes up for a sprite, given the pixels that were found for its image. Nothing
/// goes up while there are none.
pub open spec fn sprite_picture(look: SpriteLook, pixels: Option<Bitmap>) -> Option<Picture> {
    if !look.has_image() {
        Some(
            Picture {
                w: SOLID_TILE_PX,
                h: SOLID_TILE_PX,
                rgba: solid(levels_pixel(look.tint), SOLID_TILE_PX, SOLID_TILE_PX),
            },
        )
    } else {
        match pixels {
            None => None,
            Some(b) => Some(
                Picture {
                    w: b.w,
                    h: b.h,
                    rgba: levels_baked(b.rgba@, b.w, b.h, look.tint, look.flip_x, look.flip_y),
                },
            ),
        }
    }
}

/// The key of a plan.
pub open spec fn plan_key(plan: SpritePlan) -> Seq<char> {
    match plan {
        SpritePlan::Skip => Seq::empty(),
        SpritePlan::Solid { key } => key@,
        SpritePlan::Image { key, .. } => key@,
    }
}

// ---- drawing ------------------------------------------------------------------------

/// A sprite to draw, the pixels that were found for its image, and where it goes: nowhere,
/// if it is behind the camera or off-screen.
pub struct SpriteDraw {
    pub entity: u64,
    pub look: SpriteLook,
    pub pixels: Option<Bitmap>,
    pub geom: Option<Geom>,
}

impl SpriteDraw {
    /// Whether the look is in range and the pixels can be sent.
    pub open spec fn wf(self) -> bool {
        &&& self.look.wf()
        &&& self.pixels matches Some(b) ==> sendable(b, self.look.flip_x || self.look.flip_y)
    }
}

/// The key of what a sprite shows.
pub open spec fn look_key(look: SpriteLook) -> Seq<char> {
    if look.has_image() {
        image_key(look)
    } else {
        solid_key(look.tint)
    }
}

/// What a sprite draws: one item, or nothing.
pub open spec fn sprite_items(d: SpriteDraw) -> Seq<Item> {
    if d.look.skipped() {
        Seq::empty()
    } else {
        seq![
            Item {
                slot: key_of(d.entity, 0),
                key: look_key(d.look),
                picture: sprite_picture(d.look, d.pixels),
                geom: d.geom,
                keeps: false,
            },
        ]
    }
}

/// What sprites draw, one after the other.
pub open spec fn scene_items(ds: Seq<SpriteDraw>) -> Seq<Item>
    decreases ds.len(),
{
    if ds.len() == 0 {
        Seq::empty()
    } else {
        scene_items(ds.drop_last()) + sprite_items(ds.last())
    }
}

/// Sprites draw one item each at most.
pub proof fn a_sprite_is_one_item(ds: Seq<SpriteDraw>)
    ensures
        scene_items(ds).len() <= ds.len(),
    decreases ds.len(),
{
    if ds.len() > 0 {
        a_sprite_is_one_item(ds.drop_last());
    }
}

proof fn fewer_sprites_fit_too(t: Tableau, ds: Seq<SpriteDraw>, n: int)
    requires
        0 <= n <= ds.len(),
        t.fits_all(scene_items(ds)),
    ensures
        t.fits_all(scene_items(ds.take(n))),
    decreases ds.len() - n,
{
    if n < ds.len() {
        fewer_sprites_fit_too(t, ds, n + 1);
        assert(ds.take(n + 1).drop_last() =~= ds.take(n));
        fitting_both(t, scene_items(ds.take(n)), sprite_items(ds[n]));
    } else {
        assert(ds.take(n) =~= ds);
    }
}

// ---- the scene ----------------------------------------------------------------------

/// Persistent sprite-pass state across ticks.
pub struct SpriteScene {
    pass: Pass,
}

impl SpriteScene {
    /// The uploaded bitmaps, keyed by the file name, the cell, the tint and the flip. Two
    /// files of one name in two directories share a key, and so do cells of one index in
    /// two layouts.
    pub closed spec fn shelf(self) -> Shelf {
        self.pass.shelf()
    }

    /// The entities' placements and last-drawn state.
    pub closed spec fn book(self) -> Book {
        self.pass.book()
    }

    /// The tick counter and the terminal size last seen.
    pub closed spec fn time(self) -> TermClock {
        self.pass.time()
    }

    /// The images and the slots together.
    pub open spec fn tableau(self) -> Tableau {
        Tableau { shelf: self.shelf(), book: self.book() }
    }

    /// The invariant of the pass, in its bands of ids.
    pub open spec fn wf(self) -> bool {
        &&& self.shelf().wf()
        &&& self.book().wf()
        &&& slots_show_uploads(self.shelf(), self.book())
        &&& self.shelf().base == SPRITE_IMG_ID_BASE
        &&& self.shelf().top == GLYPH_ID_BASE
        &&& self.book().base == 0
    }

    /// A scene that has drawn nothing.
    pub fn new() -> (scene: SpriteScene)
        ensures
            scene.wf(),
            scene.shelf() == Shelf::fresh(SPRITE_IMG_ID_BASE, GLYPH_ID_BASE),
            scene.book() == Book::fresh(0),
            scene.time() == (TermClock { tick: 0, term: None }),
    {
        SpriteScene { pass: Pass::new(SPRITE_IMG_ID_BASE, GLYPH_ID_BASE, 0) }
    }

    /// How many distinct bitmaps are uploaded. Exposed for tests and diagnostics.
    pub fn bitmap_count(&self) -> (n: usize)
        ensures
            n == self.shelf().images.len(),
    {
        self.pass.image_count()
    }

    /// How many entities currently hold a placement.
    pub fn entity_count(&self) -> (n: usize)
        ensures
            n == self.book().slots.len(),
    {
        self.pass.slot_count()
    }

    /// Does every placement id map to exactly one image id?
    ///
    /// This is the anti-ghosting invariant, exposed so it can be asserted rather than
    /// assumed. The answer is read off the live slots, and it is yes for every scene that
    /// is well formed.
    pub fn placement_ids_are_unique(&self) -> (b: bool)
        ensures
            b == distinct_ids(self.book().slots),
            self.wf() ==> b,
    {
        self.pass.placement_ids_are_unique()
    }

    /// Whether there are placement ids for `n` more sprites. Then that many can be drawn,
    /// whatever slots there are.
    pub fn can_draw(&self, n: usize) -> (b: bool)
        ensures
            b == self.tableau().has_room_for(n as nat),
    {
        self.pass.has_ids(n)
    }

    /// Whether the pass has used up its image ids. Nothing new goes up any more then; what
    /// has gone up can still be shown.
    pub fn is_full(&self) -> (b: bool)
        ensures
            b == !self.shelf().has_room(),
    {
        self.pass.is_full()
    }

    /// Hands out the next image id of the band.
    pub fn alloc_img_id(&mut self) -> (id: u32)
        requires
            old(self).wf(),
            old(self).shelf().has_room(),
        ensures
            final(self).wf(),
            id == old(self).shelf().next_id(),
            SPRITE_IMG_ID_BASE < id <= GLYPH_ID_BASE,
            final(self).shelf() == (Shelf { next: id, ..old(self).shelf() }),
            final(self).book() == old(self).book(),
            final(self).time() == old(self).time(),
    {
        self.pass.alloc_img_id()
    }

    /// Hands out the next placement id.
    pub fn alloc_placement_id(&mut self) -> (id: u32)
        requires
            old(self).wf(),
            old(self).book().next < u32::MAX,
        ensures
            final(self).wf(),
            id == old(self).book().next + 1,
            final(self).book() == (Book { next: id, ..old(self).book() }),
            final(self).shelf() == old(self).shelf(),
            final(self).time() == old(self).time(),
    {
        self.pass.alloc_placement_id()
    }

    /// The tick counter and the terminal size last seen.
    pub fn clock(&self) -> (clock: TermClock)
        ensures
            clock == self.time(),
    {
        self.pass.clock()
    }

    /// Takes note of the terminal's size.
    pub fn set_term(&mut self, size: TermSize)
        requires
            old(self).wf(),
        ensures
            final(self).wf(),
            final(self).time() == (TermClock { term: Some(size), ..old(self).time() }),
            final(self).shelf() == old(self).shelf(),
            final(self).book() == old(self).book(),
    {
        self.pass.set_term(size);
    }

    /// Starts a tick. Returns whether the terminal has to be asked for its size.
    pub fn begin_tick(&mut self) -> (ask: bool)
        requires
            old(self).wf(),
            old(self).time().tick < u64::MAX,
        ensures
            final(self).wf(),
            final(self).time() == (TermClock {
                tick: (old(self).time().tick + 1) as u64,
                ..old(self).time()
            }),
            final(self).shelf() == old(self).shelf(),
            final(self).book() == old(self).book().begun(),
            ask == (old(self).time().term is None || final(self).time().tick % REQUERY_TICKS == 0),
    {
        self.pass.begin_tick()
    }

    /// The upload that a sprite shows, if it has gone up: its size, and its id.
    pub fn uploaded(&self, plan: &SpritePlan) -> (up: Option<Upload>)
        ensures
            up == (if !(plan is Skip) && self.shelf().images.contains_key(plan_key(*plan)) {
                Some(self.shelf().images[plan_key(*plan)])
            } else {
                None
            }),
    {
        match plan {
            SpritePlan::Skip => None,
            SpritePlan::Solid { key } => self.pass.lookup(key.as_str()),
            SpritePlan::Image { key, .. } => self.pass.lookup(key.as_str()),
        }
    }

    /// Whether the pixels of a sprite's image have to be fetched: it shows an image that
    /// is not uploaded yet.
    pub fn wants_pixels(&self, plan: &SpritePlan) -> (b: bool)
        ensures
            b == (plan is Image && !self.shelf().images.contains_key(plan_key(*plan))),
    {
        match plan {
            SpritePlan::Image { key, .. } => self.pass.lookup(key.as_str()).is_none(),
            _ => false,
        }
    }

    /// Makes sure that what a sprite shows is uploaded, once ever, and says under which
    /// id. `pixels` are those found for the sprite's image; without them nothing goes up,
    /// which is normal while an asset loads. Nothing new goes up either once the band of
    /// image ids is used up.
    pub fn ensure_bitmap(
        &mut self,
        buf: &mut Vec<u8>,
        look: &SpriteLook,
        plan: SpritePlan,
        pixels: Option<Bitmap>,
    ) -> (up: Option<Upload>)
        requires
            old(self).wf(),
            look.wf(),
            plans(*look, plan),
            pixels matches Some(b) ==> sendable(b, look.flip_x || look.flip_y),
        ensures
            final(self).wf(),
            final(self).book() == old(self).book(),
            final(self).time() == old(self).time(),
            ({
                let key = plan_key(plan);
                if plan is Skip {
                    &&& up is None
                    &&& final(self).shelf() == old(self).shelf()
                    &&& final(buf)@ == old(buf)@
                } else if old(self).shelf().images.contains_key(key) {
                    &&& up == Some(old(self).shelf().images[key])
                    &&& final(self).shelf() == old(self).shelf()
                    &&& final(buf)@ == old(buf)@
                } else if !old(self).shelf().has_room() {
                    &&& up is None
                    &&& final(self).shelf() == old(self).shelf()
                    &&& final(buf)@ == old(buf)@
                } else {
                    match sprite_picture(*look, pixels) {
                        None => {
                            &&& up is None
                            &&& final(self).shelf() == old(self).shelf()
                            &&& final(buf)@ == old(buf)@
                        },
                        Some(p) => {
                            let id = old(self).shelf().next_id();
                            &&& up == Some(Upload { w: p.w, h: p.h, img_id: id })
                            &&& final(self).shelf() == old(self).shelf().stored(key, p.w, p.h)
                            &&& final(buf)@ == old(buf)@ + encode(
                                Packet::Transmit { id, w: p.w, h: p.h, rgba: p.rgba },
                            )
                        },
                    }
                }
            }),
    {
        match plan {
            SpritePlan::Skip => None,
            SpritePlan::Solid { key } => {
                if let Some(up) = self.pass.lookup(key.as_str()) {
                    return Some(up);
                }
                if self.pass.is_full() {
                    return None;
                }
                let rgba = solid_rgba(look.tint.pixel(), SOLID_TILE_PX, SOLID_TILE_PX);
                Some(self.pass.upload(buf, key, SOLID_TILE_PX, SOLID_TILE_PX, rgba.as_slice()))
            },
            SpritePlan::Image { key, .. } => {
                if let Some(up) = self.pass.lookup(key.as_str()) {
                    return Some(up);
                }
                if self.pass.is_full() {
                    return None;
                }
                match pixels {
                    None => None,
                    Some(b) => {
                        let w: u32 = b.w;
                        let h: u32 = b.h;
                        let rgba = bake_levels(b, &look.tint, look.flip_x, look.flip_y);
                        Some(self.pass.upload(buf, key, w, h, rgba.as_slice()))
                    },
                }
            },
        }
    }

    /// Gives an entity its placement id, held for its whole life, and shows an uploaded
    /// bitmap at a place, sending only what changed. An entity without a place, behind
    /// the camera or off-screen, is not drawn. Returns whether a placement was sent.
    pub fn place(&mut self, buf: &mut Vec<u8>, entity: u64, up: Upload, geom: Option<Geom>) -> (sent:
        bool)
        requires
            old(self).wf(),
            old(self).book().has_room(key_of(entity, 0)),
            old(self).shelf().base < up.img_id <= old(self).shelf().next,
        ensures
            final(self).wf(),
            final(self).shelf() == old(self).shelf(),
            final(self).time() == old(self).time(),
            ({
                let key = key_of(entity, 0);
                let slot = old(self).book().claimed(key).slots[key];
                match geom {
                    None => {
                        &&& !sent
                        &&& final(self).book() == old(self).book().claimed(key)
                        &&& final(buf)@ == old(buf)@
                    },
                    Some(g) => {
                        &&& sent == (slot.cur_img_id != up.img_id || slot.last_geom != Some(g))
                        &&& final(self).book() == old(self).book().shown(key, up.img_id, g)
                        &&& final(buf)@ == old(buf)@ + stream(show_packets(slot, up.img_id, g))
                    },
                }
            }),
    {
        let key: u128 = slot_key(entity, 0);
        match geom {
            None => {
                self.pass.claim(key);
                false
            },
            Some(g) => self.pass.show(buf, key, up.img_id, g),
        }
    }

    /// Draws one sprite: uploads what it shows unless that has gone up, and sends its
    /// placement if it moved or changed.
    pub fn draw_sprite(&mut self, buf: &mut Vec<u8>, d: SpriteDraw) -> (tally: Tally)
        requires
            old(self).wf(),
            d.wf(),
            old(self).tableau().fits_all(sprite_items(d)),
        ensures
            final(self).wf(),
            final(self).time() == old(self).time(),
            drawn_from(
                old(self).tableau(),
                final(self).tableau(),
                old(buf)@,
                final(buf)@,
                sprite_items(d),
                tally,
            ),
    {
        let ghost t = self.tableau();
        let ghost its = sprite_items(d);
        let ghost it = its[0];
        let ghost start = buf@;
        let SpriteDraw { entity, look, pixels, geom } = d;
        proof {
            an_empty_list_is_idle(t, its, start);
            a_list_of_one_item(t, its);
        }
        let plan = plan_sprite(&look);
        if let SpritePlan::Skip = plan {
            return Tally { uploaded: 0, placed: 0 };
        }
        let fresh = self.uploaded(&plan).is_none();
        match self.ensure_bitmap(buf, &look, plan, pixels) {
            None => {
                assert(buf@ =~= start + stream(t.packets(it)));
                Tally { uploaded: 0, placed: 0 }
            },
            Some(up) => {
                let ghost mid = buf@;
                let sent = self.place(buf, entity, up, geom);
                proof {
                    let slot = t.book.claimed(it.slot).slots[it.slot];
                    let ups = if t.knows(it) {
                        Seq::empty()
                    } else {
                        seq![
                            Packet::Transmit {
                                id: up.img_id,
                                w: up.w,
                                h: up.h,
                                rgba: (it.picture->0).rgba,
                            },
                        ]
                    };
                    let shows = match geom {
                        None => Seq::empty(),
                        Some(g) => show_packets(slot, up.img_id, g),
                    };
                    if !t.knows(it) {
                        stream_of_one(ups[0]);
                    }
                    assert(mid =~= start + stream(ups));
                    assert(buf@ =~= mid + stream(shows));
                    stream_of_both(ups, shows);
                    assert(t.packets(it) =~= ups + shows);
                    assert(buf@ =~= start + stream(t.packets(it)));
                }
                Tally {
                    uploaded: if fresh {
                        1
                    } else {
                        0
                    },
                    placed: if sent {
                        1
                    } else {
                        0
                    },
                }
            },
        }
    }

    /// Draws all sprites of a tick, in order, and retires the placements of entities that
    /// vanished.
    pub fn render_sprites(&mut self, buf: &mut Vec<u8>, sprites: Vec<SpriteDraw>) -> (tally:
        TickTally)
        requires
            old(self).wf(),
            forall|i: int| 0 <= i < sprites@.len() ==> (#[trigger] sprites@[i]).wf(),
            old(self).tableau().fits_all(scene_items(sprites@)),
        ensures
            final(self).wf(),
            final(self).time() == old(self).time(),
            ticked_from(
                old(self).tableau(),
                final(self).tableau(),
                old(buf)@,
                final(buf)@,
                scene_items(sprites@),
                tally,
            ),
    {
        let ghost t = self.tableau();
        let ghost start = buf@;
        let ghost all = sprites@;
        let mut sum = Tally { uploaded: 0, placed: 0 };
        proof {
            an_empty_list_is_idle(t, scene_items(all.take(0)), start);
        }
        assert(sprites.len() == all.len());
        for d in it: sprites.into_iter()
            invariant
                it.seq() == all,
                all.len() <= usize::MAX,
                self.wf(),
                self.time() == old(self).time(),
                forall|i: int| 0 <= i < all.len() ==> (#[trigger] all[i]).wf(),
                t.fits_all(scene_items(all)),
                drawn_from(
                    t,
                    self.tableau(),
                    start,
                    buf@,
                    scene_items(all.take(it.index() as int)),
                    sum,
                ),
        {
            let ghost i = it.index() as int;
            let ghost done = scene_items(all.take(i));
            let ghost its = sprite_items(d);
            proof {
                assert(all[i] == d);
                assert(d.wf());
                assert(all.take(i + 1).drop_last() =~= all.take(i));
                a_sprite_is_one_item(all.take(i + 1));
                drawing_counts_few(t, done + its);
                lists_join(t, start, done, its);
                fewer_sprites_fit_too(t, all, i + 1);
                fitting_both(t, done, its);
            }
            let n = self.draw_sprite(buf, d);
            sum = Tally { uploaded: sum.uploaded + n.uploaded, placed: sum.placed + n.placed };
        }
        assert(all.take(all.len() as int) =~= all);
        let gone = self.finish(buf);
        TickTally { uploaded: sum.uploaded, placed: sum.placed, gone }
    }

    /// Ends a tick: retires the placements of entities that vanished, despawned or
    /// off-screen. The shared bitmaps stay uploaded. Returns the keys of the slots that
    /// went, in an unspecified order.
    pub fn finish(&mut self, buf: &mut Vec<u8>) -> (gone: Vec<u128>)
        requires
            old(self).wf(),
        ensures
            final(self).wf(),
            final(self).book() == old(self).book().retired(),
            final(self).shelf() == old(self).shelf(),
            final(self).time() == old(self).time(),
            lists_unseen(old(self).book(), gone@),
            final(buf)@ == old(buf)@ + stream(retire_packets(old(self).book().slots, gone@)),
    {
        self.pass.finish(buf)
    }
}

// ---- laws ---------------------------------------------------------------------------

/// Every panel of a colour shares one upload, and panels of different colours do not.
pub proof fn solid_keys_tell_colours_apart(a: Levels, b: Levels)
    requires
        a.wf(),
        b.wf(),
    ensures
        solid_key(a) == solid_key(b) <==> a == b,
{
    if solid_key(a) == solid_key(b) {
        let n = "solid"@.len() as int;
        assert(solid_key(a).skip(n) =~= tint_text(a));
        assert(solid_key(b).skip(n) =~= tint_text(b));
        tint_text_is_injective(a, b);
    }
}

/// Which cell of its image a sprite draws.
pub open spec fn cell_index(cell: SheetCell) -> Option<u64> {
    match cell {
        SheetCell::Cell { index, .. } => Some(index),
        _ => None,
    }
}

proof fn cell_text_facts(cell: SheetCell)
    ensures
        lacks(cell_text(cell), '@'),
        lacks(cell_text(cell), '|'),
{
    reveal_strlit("#");
    if let SheetCell::Cell { index, .. } = cell {
        digits_read_back(index as nat);
    }
}

proof fn cell_text_is_injective(a: SheetCell, b: SheetCell)
    requires
        cell_text(a) == cell_text(b),
    ensures
        cell_index(a) == cell_index(b),
{
    reveal_strlit("#");
    let (ca, cb) = (cell_text(a), cell_text(b));
    if let SheetCell::Cell { index, .. } = a {
        assert(ca.len() > 0);
        if let SheetCell::Cell { index: other, .. } = b {
            assert(ca.skip(1) =~= digits(index as nat));
            assert(cb.skip(1) =~= digits(other as nat));
            digits_injective(index as nat, other as nat);
        }
    }
}

/// Two sprites of one image share a bitmap only if they draw the same cell of it, in the
/// same tint, mirrored the same way: no variant reuses the wrong pixels.
pub proof fn image_keys_tell_variants_apart(a: SpriteLook, b: SpriteLook)
    requires
        a.wf(),
        b.wf(),
        label_text(a.image) == label_text(b.image),
        image_key(a) == image_key(b),
    ensures
        cell_index(a.cell) == cell_index(b.cell),
        a.tint == b.tint,
        a.flip_x == b.flip_x,
        a.flip_y == b.flip_y,
{
    let (ca, cb) = (cell_text(a.cell), cell_text(b.cell));
    let (ta, tb) = (tint_text(a.tint), tint_text(b.tint));
    let (fa, fb) = (flip_text(a.flip_x, a.flip_y), flip_text(b.flip_x, b.flip_y));
    cell_text_facts(a.cell);
    cell_text_facts(b.cell);
    tint_text_facts(a.tint);
    tint_text_facts(b.tint);
    flip_text_facts(a.flip_x, a.flip_y);
    flip_text_facts(b.flip_x, b.flip_y);
    behind_a_label(label_text(a.image), (ca, ta, fa), (cb, tb, fb));
    suffix_parts(ca, ta, fa, cb, tb, fb);
    cell_text_is_injective(a.cell, b.cell);
    tint_text_is_injective(a.tint, b.tint);
    flip_text_is_injective(a.flip_x, a.flip_y, b.flip_x, b.flip_y);
}

/// Sprites that share a bitmap show the same picture: those that fill a colour always, and
/// those of one image as soon as the pixels found for it are the same.
pub proof fn shared_bitmaps_agree(
    a: SpriteLook,
    b: SpriteLook,
    pixels: Option<Bitmap>,
    others: Option<Bitmap>,
)
    requires
        a.wf(),
        b.wf(),
        a.has_image() == b.has_image(),
        look_key(a) == look_key(b),
        a.has_image() ==> label_text(a.image) == label_text(b.image) && match (pixels, others) {
            (Some(p), Some(q)) => p.rgba@ == q.rgba@ && p.w == q.w && p.h == q.h,
            (None, None) => true,
            _ => false,
        },
    ensures
        sprite_picture(a, pixels) == sprite_picture(b, others),
{
    if a.has_image() {
        image_keys_tell_variants_apart(a, b);
    } else {
        solid_keys_tell_colours_apart(a.tint, b.tint);
    }
}

/// Whether every sprite is an entity of its own.
pub open spec fn distinct_sprites(ds: Seq<SpriteDraw>) -> bool {
    forall|i: int, j: int|
        0 <= i < j < ds.len() ==> (#[trigger] ds[i]).entity != (#[trigger] ds[j]).entity
}

/// Whether a slot is that of a sprite of a list.
spec fn of_sprite(ds: Seq<SpriteDraw>, slot: u128) -> bool {
    exists|i: int| 0 <= i < ds.len() && slot == key_of((#[trigger] ds[i]).entity, 0)
}

proof fn scene_slots_are_the_sprites(ds: Seq<SpriteDraw>)
    ensures
        forall|k: int|
            0 <= k < scene_items(ds).len() ==> of_sprite(ds, (#[trigger] scene_items(ds)[k]).slot),
    decreases ds.len(),
{
    if ds.len() > 0 {
        let rest = ds.drop_last();
        let before = scene_items(rest);
        let all = scene_items(ds);
        scene_slots_are_the_sprites(rest);
        assert forall|k: int| 0 <= k < all.len() implies of_sprite(ds, (#[trigger] all[k]).slot) by {
            if k < before.len() {
                assert(of_sprite(rest, before[k].slot));
                let i = choose|i: int|
                    0 <= i < rest.len() && before[k].slot == key_of((#[trigger] rest[i]).entity, 0);
                assert(all[k].slot == key_of(ds[i].entity, 0));
            } else {
                assert(all[k].slot == key_of(ds[ds.len() - 1].entity, 0));
            }
        }
    }
}

/// Every sprite is in a slot of its own.
pub proof fn sprites_have_their_own_slots(ds: Seq<SpriteDraw>)
    requires
        distinct_sprites(ds),
    ensures
        distinct_slots(scene_items(ds)),
    decreases ds.len(),
{
    if ds.len() > 0 {
        let rest = ds.drop_last();
        let last = ds[ds.len() - 1];
        assert forall|i: int, j: int| 0 <= i < j < rest.len() implies (#[trigger] rest[i]).entity
            != (#[trigger] rest[j]).entity by {
            assert(rest[i] == ds[i] && rest[j] == ds[j]);
        }
        sprites_have_their_own_slots(rest);
        scene_slots_are_the_sprites(rest);
        let before = scene_items(rest);
        let all = scene_items(ds);
        assert forall|j: int, k: int| 0 <= j < k < all.len() implies (#[trigger] all[j]).slot != (
        #[trigger] all[k]).slot by {
            assert(all[j] == before[j]);
            if k < before.len() {
                assert(all[k] == before[k]);
            } else {
                assert(of_sprite(rest, before[j].slot));
                let i = choose|i: int|
                    0 <= i < rest.len() && before[j].slot == key_of((#[trigger] rest[i]).entity, 0);
                assert(ds[i].entity != ds[ds.len() - 1].entity);
                if all[j].slot == all[k].slot {
                    keys_are_distinct(rest[i].entity, 0, last.entity, 0);
                }
            }
        }
    }
}

/// A solid tile of any size costs one pixel.
pub proof fn a_solid_tile_is_four_bytes(look: SpriteLook, pixels: Option<Bitmap>)
    requires
        look.wf(),
        !look.has_image(),
    ensures
        sprite_picture(look, pixels) matches Some(p) && p.w == 1 && p.h == 1 && p.rgba
            == levels_pixel(look.tint) && p.rgba.len() == 4,
{
    assert(solid(levels_pixel(look.tint), 1, 1) =~= levels_pixel(look.tint));
}

impl Default for SpriteScene {
    fn default() -> (scene: SpriteScene)
        ensures
            scene.wf(),
            scene.shelf() == Shelf::fresh(SPRITE_IMG_ID_BASE, GLYPH_ID_BASE),
            scene.book() == Book::fresh(0),
            scene.time() == (TermClock { tick: 0, term: None }),
    {
        SpriteScene::new()
    }
}

/// Whether two lists are of the same sprites: the same entities showing the same things at
/// the same places. Their pixels may be available in the one and not in the other.
pub open spec fn same_sprites(a: Seq<SpriteDraw>, b: Seq<SpriteDraw>) -> bool {
    &&& a.len() == b.len()
    &&& forall|i: int|
        0 <= i < a.len() ==> {
            &&& (#[trigger] a[i]).entity == (#[trigger] b[i]).entity
            &&& a[i].look.skipped() == b[i].look.skipped()
            &&& look_key(a[i].look) == look_key(b[i].look)
            &&& a[i].geom == b[i].geom
        }
}

proof fn same_sprites_draw_the_same(a: Seq<SpriteDraw>, b: Seq<SpriteDraw>)
    requires
        same_sprites(a, b),
    ensures
        same_things(scene_items(a), scene_items(b)),
    decreases a.len(),
{
    if a.len() > 0 {
        let (x, y) = (a.drop_last(), b.drop_last());
        assert forall|i: int| 0 <= i < x.len() implies {
            &&& (#[trigger] x[i]).entity == (#[trigger] y[i]).entity
            &&& x[i].look.skipped() == y[i].look.skipped()
            &&& look_key(x[i].look) == look_key(y[i].look)
            &&& x[i].geom == y[i].geom
        } by {
            assert(x[i] == a[i] && y[i] == b[i]);
        }
        same_sprites_draw_the_same(x, y);
        assert(a[a.len() - 1].entity == b[b.len() - 1].entity);
        same_things_join(
            scene_items(x),
            scene_items(y),
            sprite_items(a.last()),
            sprite_items(b.last()),
        );
    }
}

/// A still scene costs zero bytes: a tick that draws the same sprites as the tick before,
/// with no more pixels available than then, sends nothing, and neither the bitmaps nor the
/// entities become more or fewer.
pub proof fn still_sprites_cost_nothing(
    t: Tableau,
    ds: Seq<SpriteDraw>,
    again: Seq<SpriteDraw>,
    gone: Seq<u128>,
)
    requires
        t.shelf.wf(),
        distinct_sprites(ds),
        same_sprites(ds, again),
        pixels_come_first(t, scene_items(ds)),
        nothing_arrived(t.begun(), scene_items(ds), scene_items(again)),
        lists_unseen(
            t.begun().drew_all(scene_items(ds)).retired().begun().drew_all(
                scene_items(again),
            ).book,
            gone,
        ),
    ensures
        stands_still(t.begun().drew_all(scene_items(ds)).retired(), scene_items(again), gone),
{
    sprites_have_their_own_slots(ds);
    same_sprites_draw_the_same(ds, again);
    a_still_scene_is_free(t, scene_items(ds), scene_items(again), gone);
}

// ---- what is shown, and where --------------------------------------------------------

/// What a sprite shows. Nothing, if it is hidden, or fully transparent, or a cell that is
/// not there; else its image, if the handle is not the default one and the image comes from
/// a file or has pixels; else its colour, if it has a size of its own. Of a sheet, the image
/// is the cell that the sprite names.
pub proof fn a_sprite_shows_its_image_or_its_colour(look: SpriteLook, plan: SpritePlan)
    requires
        plans(look, plan),
    ensures
        !look.visible ==> plan is Skip,
        look.tint.a == 0 ==> plan is Skip,
        look.cell is Missing ==> plan is Skip,
        look.visible && look.tint.a > 0 && !(look.cell is Missing) && !look.default_image
            && look.has_pixels ==> plan is Image,
        look.visible && look.tint.a > 0 && !(look.cell is Missing) && !look.default_image
            && look.image is Path ==> plan is Image,
        look.visible && look.tint.a > 0 && !(look.cell is Missing) && look.default_image
            && look.sized ==> plan is Solid,
        look.visible && look.tint.a > 0 && !(look.cell is Missing) && look.image is Generated
            && !look.has_pixels && look.sized ==> plan is Solid,
        look.default_image && !look.sized ==> plan is Skip,
        look.image is Generated && !look.has_pixels && !look.sized ==> plan is Skip,
        look.cell matches SheetCell::Cell { rect, .. } ==> (plan matches SpritePlan::Image {
            cell,
            ..
        } ==> cell == Some(rect)),
        look.cell is Whole ==> (plan matches SpritePlan::Image { cell, .. } ==> cell is None),
{
}

/// A sprite is drawn exactly if it shows something.
pub proof fn a_sprite_is_drawn_if_it_shows_something(d: SpriteDraw, plan: SpritePlan)
    requires
        plans(d.look, plan),
    ensures
        plan is Skip <==> sprite_items(d).len() == 0,
        !(plan is Skip) <==> sprite_items(d).len() == 1,
        plan matches SpritePlan::Solid { key } ==> sprite_items(d)[0].key == key@,
        plan matches SpritePlan::Image { key, .. } ==> sprite_items(d)[0].key == key@,
        plan is Solid ==> sprite_items(d)[0].picture is Some,
        plan is Image ==> (sprite_items(d)[0].picture is Some <==> d.pixels is Some),
{
}

/// What is sent for a sprite. If drawing it sends a placement, the last two packets move the
/// cursor to the cell of the sprite's place and show its image there, at its depth, with its
/// offset, over all its columns and rows; nothing else is placed. A sprite without a place
/// sends no placement.
pub proof fn a_sprite_is_placed_where_it_stands(t: Tableau, d: SpriteDraw)
    requires
        sprite_items(d).len() > 0,
    ensures
        sprite_items(d)[0].slot == key_of(d.entity, 0),
        !sprite_items(d)[0].keeps,
        d.geom is None ==> !t.places(sprite_items(d)[0]),
        ({
            let it = sprite_items(d)[0];
            let ps = t.packets(it);
            let n = ps.len() as int;
            if t.places(it) {
                &&& n >= 2
                &&& d.geom matches Some(g) && ps[n - 2] == (Packet::Cursor {
                    row: g.row,
                    col: g.col,
                }) && (ps[n - 1] matches Packet::Place { z, cols, rows, xoff, yoff, .. } && z
                    == g.z && cols == g.cols && rows == g.rows && xoff == g.xoff && yoff == g.yoff)
                &&& forall|j: int|
                    0 <= j < n - 2 ==> !((#[trigger] ps[j]) is Cursor) && !(ps[j] is Place)
            } else {
                forall|j: int|
                    0 <= j < n ==> !((#[trigger] ps[j]) is Cursor) && !(ps[j] is Place)
            }
        }),
{
    a_placement_is_two_packets(t, sprite_items(d)[0]);
}

/// A sprite that shows its colour shows one pixel of it: red, green, blue and alpha, each to
/// 255 what its level is to 15.
pub proof fn a_flat_sprite_has_its_own_colour(
    look: SpriteLook,
    plan: SpritePlan,
    pixels: Option<Bitmap>,
)
    requires
        look.wf(),
        plans(look, plan),
        plan is Solid,
    ensures
        sprite_picture(look, pixels) matches Some(p) && p.w == 1 && p.h == 1 && p.rgba.len() == 4
            && 15 * p.rgba[0] == 255 * look.tint.r && 15 * p.rgba[1] == 255 * look.tint.g && 15
            * p.rgba[2] == 255 * look.tint.b && 15 * p.rgba[3] == 255 * look.tint.a,
{
    a_solid_tile_is_four_bytes(look, pixels);
    a_colour_is_red_green_blue_alpha(look.tint, 0);
}

/// A sprite that shows its image shows the pixels that were found for it, on the mirrored
/// side if it is mirrored, each channel scaled by the level of the sprite's tint, rounded to
/// the nearest. Without pixels it shows nothing yet.
pub proof fn an_image_sprite_shows_its_pixels(
    look: SpriteLook,
    plan: SpritePlan,
    b: Bitmap,
    x: int,
    y: int,
    c: int,
)
    requires
        look.wf(),
        plans(look, plan),
        plan is Image,
        b.wf(),
        0 <= x < b.w,
        0 <= y < b.h,
        0 <= c < 4,
    ensures
        sprite_picture(look, None) is None,
        ({
            let sx = if look.flip_x {
                b.w - 1 - x
            } else {
                x
            };
            let sy = if look.flip_y {
                b.h - 1 - y
            } else {
                y
            };
            let v = b.rgba@[4 * (sy * b.w + sx) + c];
            let q = seq![look.tint.r, look.tint.g, look.tint.b, look.tint.a][c] as int;
            sprite_picture(look, Some(b)) matches Some(pic) && pic.w == b.w && pic.h == b.h
                && pic.rgba.len() == b.rgba@.len() && 2 * v * q - 15 <= 30 * pic.rgba[4 * (y * b.w
                + x) + c] <= 2 * v * q + 15
        }),
{
    baking_tints_and_moves_each_pixel(
        b.rgba@,
        b.w,
        b.h,
        look.tint,
        look.flip_x,
        look.flip_y,
        x,
        y,
        c,
    );
}

/// Every sprite of a scene that draws anything is among the items of the scene, right behind
/// those of the sprites before it.
pub proof fn every_sprite_is_drawn_in_its_turn(ds: Seq<SpriteDraw>, i: int)
    requires
        0 <= i < ds.len(),
        sprite_items(ds[i]).len() > 0,
    ensures
        ({
            let k = scene_items(ds.take(i)).len() as int;
            &&& k < scene_items(ds).len()
            &&& scene_items(ds)[k] == sprite_items(ds[i])[0]
        }),
    decreases ds.len(),
{
    let rest = ds.drop_last();
    if i == ds.len() - 1 {
        assert(ds.take(i) =~= rest);
    } else {
        assert(rest.take(i) =~= ds.take(i));
        every_sprite_is_drawn_in_its_turn(rest, i);
    }
}

/// A key says no more than it has to: a whole image in its own colours, not mirrored, is
/// named by its label alone, and a cell of a sheet by the label, a hash and its number.
pub proof fn a_plain_key_is_a_name(look: SpriteLook)
    requires
        look.tint.r == 15,
        look.tint.g == 15,
        look.tint.b == 15,
        look.tint.a == 15,
        !look.flip_x,
        !look.flip_y,
    ensures
        look.cell is Whole ==> image_key(look) == label_text(look.image),
        look.cell matches SheetCell::Cell { index, .. } ==> image_key(look) == label_text(
            look.image,
        ) + seq!['#'] + digits(index as nat),
{
    reveal_strlit("#");
    assert("#"@ =~= seq!['#']);
    assert(image_key(look) =~= label_text(look.image) + cell_text(look.cell));
    if let SheetCell::Cell { index, .. } = look.cell {
        assert(image_key(look) =~= label_text(look.image) + seq!['#'] + digits(index as nat));
    }
}

} // verus!
