//! The text pass: every glyph is cropped from the font atlas, tinted, scaled and uploaded
//! ONCE, and then placed as many times as it appears.

use vstd::prelude::*;
use vstd::string::*;

use crate::cache::Shelf;
use crate::colour::{
    fraction_text, fraction_text_is_injective, fractions_are_nearest, push_fraction, thousandths,
    Levels,
};
use crate::digits::{
    digits, digits_injective, digits_read_back, four_fields, lacks, push_digits, split_at_separator,
};
use crate::ghosting::Tableau;
use crate::items::{distinct_slots, ticked_from, the_next_one_fits, Item, TickTally};
use crate::pass::{slots_show_uploads, Pass};
use crate::pixels::{
    apply_levels, byte_len, crop_image_rgba, croppable, cropped, cropping_keeps_each_pixel,
    cropping_stays_inside, levels_tinted, scale_rgba, scaled, scaling_to_the_same_size_copies,
    tinting_scales_each_channel, CellRect, CpuImage,
};
use crate::proto::encodable;
use crate::screen::{stream, stream_of_both, stream_of_one, Geom, Packet, Picture};
use crate::slots::{
    following, key_of, keys_are_distinct, lists_unseen, show_packets, slot_key, Book,
};
use crate::sprite::{TEXT_Z_BIAS, Z_SPREAD};
use crate::term::{TermClock, TermSize, REQUERY_TICKS};
use crate::ticks::{
    a_placement_is_two_packets, a_still_scene_is_free, drawing_again_is_free, nothing_arrived,
    pixels_come_first, stands_still,
};
use crate::ui::UI_IMG_ID_BASE;

verus! {

/// First kitty image id of the glyph pass, less one.
///
/// Its own band, so glyph ids can never collide with frame mode's id 1 or the sprite
/// pass's allocator, which ends here. A collision would silently replace a sprite's pixels
/// with a letter.
pub const GLYPH_ID_BASE: u32 = 100_000;

/// One glyph to draw, its top-left already resolved to a terminal cell.
pub struct GlyphDraw<'a> {
    /// The text entity, and which of its glyphs this is.
    pub entity: u64,
    pub index: u64,
    /// The name of the atlas texture.
    pub texture: String,
    /// The left and the top edge of the glyph in the atlas, as text.
    pub rx: String,
    pub ry: String,
    /// The glyph's corner in the atlas, and its size there, in whole pixels.
    pub x0: u32,
    pub y0: u32,
    pub gw: u32,
    pub gh: u32,
    /// The atlas, if it is available.
    pub atlas: Option<CpuImage<'a>>,
    /// Whether the glyph is white with a coverage alpha, meant to be tinted. Colour
    /// glyphs keep their own colours, but still honour a tint that is not white.
    pub alpha_mask: bool,
    /// The text colour, quantised.
    pub colour: Levels,
    /// The size to draw at, in terminal pixels.
    pub tw: u32,
    pub th: u32,
    /// Where to draw.
    pub row: u16,
    pub col: u16,
    pub xoff: u32,
    pub yoff: u32,
    pub z: i32,
}

/// What drawing a glyph came to.
#[derive(Clone, Copy, PartialEq, Eq, Debug, Structural)]
pub struct GlyphOutcome {
    pub uploaded: bool,
    pub placed: bool,
}

impl<'a> GlyphDraw<'a> {
    /// Whether the glyph's numbers are in range: the levels are levels, its far corner
    /// has coordinates, and its scaled pixels can be sent.
    pub open spec fn wf(self) -> bool {
        &&& self.colour.wf()
        &&& self.x0 + self.gw <= u32::MAX
        &&& self.y0 + self.gh <= u32::MAX
        &&& byte_len(self.tw, self.th) <= usize::MAX
        &&& encodable(byte_len(self.tw, self.th))
    }

    /// The glyph's rectangle in the atlas.
    pub open spec fn rect(self) -> CellRect {
        CellRect {
            x0: self.x0,
            y0: self.y0,
            x1: (self.x0 + self.gw) as u32,
            y1: (self.y0 + self.gh) as u32,
        }
    }

    /// The glyph's slot.
    pub open spec fn slot(self) -> u128 {
        key_of(self.entity, self.index)
    }

    /// Where the glyph goes. It spans no cells: kitty draws the image at its natural,
    /// already exactly scaled pixel size, which keeps the aspect of small glyphs.
    pub open spec fn place(self) -> Geom {
        Geom {
            row: self.row,
            col: self.col,
            xoff: self.xoff,
            yoff: self.yoff,
            z: self.z,
            cols: 0,
            rows: 0,
        }
    }
}

// ---- the key ------------------------------------------------------------------------

/// Four levels as fractions.
pub open spec fn colour_text(l: Levels) -> Seq<char> {
    fraction_text(l.r) + ","@ + fraction_text(l.g) + ","@ + fraction_text(l.b) + ","@
        + fraction_text(l.a)
}

/// The glyph cache key: atlas texture, rectangle, colour and target size.
pub open spec fn key_text(
    texture: Seq<char>,
    rx: Seq<char>,
    ry: Seq<char>,
    gw: u32,
    gh: u32,
    colour: Levels,
    tw: u32,
    th: u32,
) -> Seq<char> {
    texture + "|"@ + rx + ","@ + ry + ","@ + digits(gw as nat) + ","@ + digits(gh as nat) + "|"@
        + colour_text(colour) + "|"@ + digits(tw as nat) + "x"@ + digits(th as nat)
}

/// The key of a glyph.
pub open spec fn draw_key(d: GlyphDraw) -> Seq<char> {
    key_text(d.texture@, d.rx@, d.ry@, d.gw, d.gh, d.colour, d.tw, d.th)
}

/// Builds the glyph cache key.
///
/// Everything baked into the pixels has to appear here: kitty cannot tint or
/// non-uniformly scale a placement, so two colours or two target sizes of the same
/// letter are genuinely different images.
pub fn glyph_key(
    texture: &str,
    rx: &str,
    ry: &str,
    gw: u32,
    gh: u32,
    colour: &Levels,
    tw: u32,
    th: u32,
) -> (key: String)
    requires
        colour.wf(),
    ensures
        key@ == key_text(texture@, rx@, ry@, gw, gh, *colour, tw, th),
{
    let mut key = String::from_str(texture);
    key.append("|");
    key.append(rx);
    key.append(",");
    key.append(ry);
    key.append(",");
    push_digits(&mut key, gw as u64);
    key.append(",");
    push_digits(&mut key, gh as u64);
    key.append("|");
    let ghost head = key@;
    push_fraction(&mut key, colour.r);
    key.append(",");
    push_fraction(&mut key, colour.g);
    key.append(",");
    push_fraction(&mut key, colour.b);
    key.append(",");
    push_fraction(&mut key, colour.a);
    assert(key@ =~= head + colour_text(*colour));
    key.append("|");
    push_digits(&mut key, tw as u64);
    key.append("x");
    push_digits(&mut key, th as u64);
    key
}

// ---- pixels -------------------------------------------------------------------------

/// What goes up for a glyph: its rectangle of the atlas, tinted and scaled to its exact
/// target pixels. Nothing goes up while the atlas is not available or does not hold the
/// rectangle.
pub open spec fn glyph_picture(d: GlyphDraw) -> Option<Picture> {
    match d.atlas {
        None => None,
        Some(atlas) => if atlas.data is Some && atlas.rgba8 && croppable(
            atlas.data->0@.len(),
            atlas.width,
            atlas.height,
            d.rect(),
        ) {
            let crop = cropped(atlas.data->0@, atlas.width, d.rect());
            let inked = if d.alpha_mask || !d.colour.white() {
                levels_tinted(crop, d.colour)
            } else {
                crop
            };
            Some(
                Picture { w: d.tw, h: d.th, rgba: scaled(inked, d.gw, d.gh, d.tw, d.th) },
            )
        } else {
            None
        },
    }
}

/// Crops, tints and scales a glyph.
fn glyph_pixels(d: &GlyphDraw) -> (rgba: Option<Vec<u8>>)
    requires
        d.wf(),
    ensures
        rgba is Some <==> glyph_picture(*d) is Some,
        rgba matches Some(px) ==> px@ == (glyph_picture(*d)->0).rgba,
{
    let atlas = match &d.atlas {
        Some(atlas) => atlas,
        None => {
            return None;
        },
    };
    let rect = CellRect { x0: d.x0, y0: d.y0, x1: d.x0 + d.gw, y1: d.y0 + d.gh };
    let bitmap = match crop_image_rgba(atlas, Some(rect)) {
        Some(b) => b,
        None => {
            return None;
        },
    };
    let mut rgba = bitmap.rgba;
    if d.alpha_mask || !d.colour.is_white() {
        apply_levels(&mut rgba, &d.colour);
    }
    if d.gw == d.tw && d.gh == d.th {
        proof {
            scaling_to_the_same_size_copies(rgba@, d.gw, d.gh);
        }
        Some(rgba)
    } else {
        Some(scale_rgba(rgba.as_slice(), d.gw, d.gh, d.tw, d.th))
    }
}

// ---- the scene ----------------------------------------------------------------------

/// A glyph as an item to draw. It keeps its slot while it has no image.
pub open spec fn item_of(d: GlyphDraw) -> Item {
    Item {
        slot: d.slot(),
        key: draw_key(d),
        picture: glyph_picture(d),
        geom: Some(d.place()),
        keeps: true,
    }
}

/// Glyphs as items to draw.
pub open spec fn items_of(ds: Seq<GlyphDraw>) -> Seq<Item> {
    ds.map_values(|d: GlyphDraw| item_of(d))
}

/// Persistent state for the text pass.
pub struct GlyphScene {
    pass: Pass,
}

impl GlyphScene {
    /// The uploaded glyph images, and the slots of the glyph instances on screen.
    pub closed spec fn tableau(self) -> Tableau {
        Tableau { shelf: self.pass.shelf(), book: self.pass.book() }
    }

    /// The tick counter and the terminal size last seen.
    pub closed spec fn time(self) -> TermClock {
        self.pass.time()
    }

    /// The invariant of the pass, in its bands of ids.
    pub open spec fn wf(self) -> bool {
        &&& self.tableau().shelf.wf()
        &&& self.tableau().book.wf()
        &&& slots_show_uploads(self.tableau().shelf, self.tableau().book)
        &&& self.tableau().shelf.base == GLYPH_ID_BASE
        &&& self.tableau().shelf.top == UI_IMG_ID_BASE
        &&& self.tableau().book.base == GLYPH_ID_BASE
    }

    /// A scene that has drawn nothing.
    pub fn new() -> (scene: GlyphScene)
        ensures
            scene.wf(),
            scene.tableau() == (Tableau {
                shelf: Shelf::fresh(GLYPH_ID_BASE, UI_IMG_ID_BASE),
                book: Book::fresh(GLYPH_ID_BASE),
            }),
            scene.time() == (TermClock { tick: 0, term: None }),
    {
        GlyphScene { pass: Pass::new(GLYPH_ID_BASE, UI_IMG_ID_BASE, GLYPH_ID_BASE) }
    }

    /// How many distinct glyph images are uploaded.
    pub fn glyph_count(&self) -> (n: usize)
        ensures
            n == self.tableau().shelf.images.len(),
    {
        self.pass.image_count()
    }

    /// How many glyph instances are currently placed.
    pub fn slot_count(&self) -> (n: usize)
        ensures
            n == self.tableau().book.slots.len(),
    {
        self.pass.slot_count()
    }

    /// Whether there are placement ids for `n` more glyphs. Then that many can be drawn,
    /// whatever slots there are.
    pub fn can_draw(&self, n: usize) -> (b: bool)
        requires
            self.wf(),
        ensures
            b == self.tableau().has_room_for(n as nat),
    {
        self.pass.has_ids(n)
    }

    /// Whether the pass has used up its image ids. Nothing new goes up any more then; what
    /// has gone up can still be shown.
    pub fn is_full(&self) -> (b: bool)
        ensures
            b == !self.tableau().shelf.has_room(),
    {
        self.pass.is_full()
    }

    /// Hands out the next image id of the band.
    pub fn alloc_img_id(&mut self) -> (id: u32)
        requires
            old(self).wf(),
            old(self).tableau().shelf.has_room(),
        ensures
            final(self).wf(),
            id == old(self).tableau().shelf.next_id(),
            GLYPH_ID_BASE < id <= UI_IMG_ID_BASE,
            final(self).tableau() == (Tableau {
                shelf: Shelf { next: id, ..old(self).tableau().shelf },
                ..old(self).tableau()
            }),
            final(self).time() == old(self).time(),
    {
        self.pass.alloc_img_id()
    }

    /// Hands out the next placement id.
    pub fn alloc_placement_id(&mut self) -> (id: u32)
        requires
            old(self).wf(),
            following(old(self).tableau().book.next, GLYPH_ID_BASE) <= u32::MAX,
        ensures
            final(self).wf(),
            id == following(old(self).tableau().book.next, GLYPH_ID_BASE),
            final(self).tableau() == (Tableau {
                book: Book { next: id, ..old(self).tableau().book },
                ..old(self).tableau()
            }),
            final(self).time() == old(self).time(),
    {
        self.pass.alloc_placement_id()
    }

    /// The tick counter and the terminal size last seen.
    pub fn clock(&self) -> (clock: TermClock)
        ensures
            clock == self.time(),
    {
        self.pass.clock()
    }

    /// Takes note of the terminal's size.
    pub fn set_term(&mut self, size: TermSize)
        requires
            old(self).wf(),
        ensures
            final(self).wf(),
            final(self).time() == (TermClock { term: Some(size), ..old(self).time() }),
            final(self).tableau() == old(self).tableau(),
    {
        self.pass.set_term(size);
    }

    /// Starts a tick. Returns whether the terminal has to be asked for its size.
    pub fn begin_tick(&mut self) -> (ask: bool)
        requires
            old(self).wf(),
            old(self).time().tick < u64::MAX,
        ensures
            final(self).wf(),
            final(self).time() == (TermClock {
                tick: (old(self).time().tick + 1) as u64,
                ..old(self).time()
            }),
            final(self).tableau() == old(self).tableau().begun(),
            ask == (old(self).time().term is None || final(self).time().tick % REQUERY_TICKS == 0),
    {
        self.pass.begin_tick()
    }

    /// Draws one glyph. Its image is cropped, tinted and UPLOADED exactly once, ever;
    /// every later occurrence in the same colour and size reuses it, so text costs
    /// placements rather than pixel uploads. A glyph whose pixels are not available is
    /// not drawn, but keeps its slot; so does a new one once the band of image ids is used
    /// up.
    pub fn draw_glyph(&mut self, buf: &mut Vec<u8>, d: &GlyphDraw) -> (out: GlyphOutcome)
        requires
            old(self).wf(),
            d.wf(),
            old(self).tableau().fits(item_of(*d)),
        ensures
            final(self).wf(),
            final(self).time() == old(self).time(),
            final(self).tableau() == old(self).tableau().drew(item_of(*d)),
            final(buf)@ == old(buf)@ + stream(old(self).tableau().packets(item_of(*d))),
            out.uploaded == old(self).tableau().uploads(item_of(*d)),
            out.placed == old(self).tableau().places(item_of(*d)),
    {
        let ghost t = self.tableau();
        let ghost it = item_of(*d);
        let key = glyph_key(
            d.texture.as_str(),
            d.rx.as_str(),
            d.ry.as_str(),
            d.gw,
            d.gh,
            &d.colour,
            d.tw,
            d.th,
        );
        let slot: u128 = slot_key(d.entity, d.index);
        let geom = Geom {
            row: d.row,
            col: d.col,
            xoff: d.xoff,
            yoff: d.yoff,
            z: d.z,
            cols: 0,
            rows: 0,
        };
        let ghost ps = show_packets(
            t.book.claimed(it.slot).slots[it.slot],
            t.image_of(it)->0,
            geom,
        );
        if let Some(up) = self.pass.lookup(key.as_str()) {
            let placed = self.pass.show(buf, slot, up.img_id, geom);
            assert(Seq::<Packet>::empty() + ps =~= ps);
            return GlyphOutcome { uploaded: false, placed };
        }
        if self.pass.is_full() {
            self.pass.mark(slot);
            assert(buf@ =~= old(buf)@ + stream(Seq::<Packet>::empty()));
            return GlyphOutcome { uploaded: false, placed: false };
        }
        match glyph_pixels(d) {
            None => {
                self.pass.mark(slot);
                assert(buf@ =~= old(buf)@ + stream(Seq::<Packet>::empty()));
                GlyphOutcome { uploaded: false, placed: false }
            },
            Some(rgba) => {
                let ghost up_packet = Packet::Transmit {
                    id: t.shelf.next_id(),
                    w: d.tw,
                    h: d.th,
                    rgba: rgba@,
                };
                let up = self.pass.upload(buf, key, d.tw, d.th, rgba.as_slice());
                let placed = self.pass.show(buf, slot, up.img_id, geom);
                proof {
                    stream_of_one(up_packet);
                    stream_of_both(seq![up_packet], ps);
                }
                GlyphOutcome { uploaded: true, placed }
            },
        }
    }

    /// Draws all glyphs of a tick, in order, and retires the slots that are no longer on
    /// screen.
    #[verifier::spinoff_prover]
    pub fn render_glyphs(&mut self, buf: &mut Vec<u8>, glyphs: &Vec<GlyphDraw>) -> (tally: TickTally)
        requires
            old(self).wf(),
            forall|i: int| 0 <= i < glyphs@.len() ==> (#[trigger] glyphs@[i]).wf(),
            old(self).tableau().fits_all(items_of(glyphs@)),
        ensures
            final(self).wf(),
            final(self).time() == old(self).time(),
            ticked_from(
                old(self).tableau(),
                final(self).tableau(),
                old(buf)@,
                final(buf)@,
                items_of(glyphs@),
                tally,
            ),
    {
        let ghost t = self.tableau();
        let ghost its = items_of(glyphs@);
        let ghost start = buf@;
        let n: usize = glyphs.len();
        let mut uploaded: usize = 0;
        let mut placed: usize = 0;
        let mut i: usize = 0;
        while i < n
            invariant
                i <= n == glyphs@.len(),
                its == items_of(glyphs@),
                self.wf(),
                self.time() == old(self).time(),
                forall|j: int| 0 <= j < glyphs@.len() ==> (#[trigger] glyphs@[j]).wf(),
                self.tableau() == t.drew_all(its.take(i as int)),
                t.fits_all(its),
                buf@ == start + stream(t.all_packets(its.take(i as int))),
                uploaded == t.upload_count(its.take(i as int)),
                placed == t.place_count(its.take(i as int)),
                uploaded <= i,
                placed <= i,
            decreases n - i,
        {
            let d = &glyphs[i];
            let ghost upto = its.take(i as int);
            let ghost it = item_of(*d);
            let ghost mid = self.tableau();
            proof {
                assert(its.take(i + 1) =~= upto.push(it));
                assert(upto.push(it).drop_last() =~= upto);
                the_next_one_fits(t, its, i as int);
                stream_of_both(t.all_packets(upto), mid.packets(it));
            }
            let out = self.draw_glyph(buf, d);
            proof {
                assert(t.drew_all(upto.push(it)) == mid.drew(it));
                assert(t.all_packets(upto.push(it)) == t.all_packets(upto) + mid.packets(it));
                assert(buf@ =~= start + stream(t.all_packets(upto.push(it))));
            }
            if out.uploaded {
                uploaded += 1;
            }
            if out.placed {
                placed += 1;
            }
            i += 1;
        }
        assert(its.take(n as int) =~= its);
        let gone = self.pass.finish(buf);
        TickTally { uploaded, placed, gone }
    }
}

/// The kitty `z` of a world-space text whose own z maps to `world`: the relative order of
/// texts is kept, and the whole layer is biased forward.
pub fn text_z(world: i32) -> (z: i32)
    requires
        world + TEXT_Z_BIAS <= i32::MAX,
    ensures
        z == world + TEXT_Z_BIAS,
{
    world + TEXT_Z_BIAS
}

// ---- laws ---------------------------------------------------------------------------

/// Whether a number's text holds neither of the key's separators.
pub open spec fn plain(s: Seq<char>) -> bool {
    lacks(s, ',') && lacks(s, '|')
}

proof fn digits_are_plain(n: nat)
    ensures
        plain(digits(n)),
        lacks(digits(n), 'x'),
{
    digits_read_back(n);
}

proof fn fractions_are_plain(q: u8)
    requires
        q <= 15,
    ensures
        plain(fraction_text(q)),
{
    reveal_strlit(".");
    let t = thousandths(q as int);
    digits_read_back((t / 1000) as nat);
}

proof fn colours_lack_bars(l: Levels)
    requires
        l.wf(),
    ensures
        lacks(colour_text(l), '|'),
{
    reveal_strlit(",");
    fractions_are_plain(l.r);
    fractions_are_plain(l.g);
    fractions_are_plain(l.b);
    fractions_are_plain(l.a);
}

proof fn colour_text_is_injective(a: Levels, b: Levels)
    requires
        a.wf(),
        b.wf(),
        colour_text(a) == colour_text(b),
    ensures
        a == b,
{
    fractions_are_plain(a.r);
    fractions_are_plain(a.g);
    fractions_are_plain(a.b);
    fractions_are_plain(b.r);
    fractions_are_plain(b.g);
    fractions_are_plain(b.b);
    four_fields(
        (fraction_text(a.r), fraction_text(a.g), fraction_text(a.b), fraction_text(a.a)),
        (fraction_text(b.r), fraction_text(b.g), fraction_text(b.b), fraction_text(b.a)),
    );
    fraction_text_is_injective(a.r, b.r);
    fraction_text_is_injective(a.g, b.g);
    fraction_text_is_injective(a.b, b.b);
    fraction_text_is_injective(a.a, b.a);
}

/// The parts of a key behind the texture.
spec fn key_parts(rx: Seq<char>, ry: Seq<char>, gw: u32, gh: u32, l: Levels, tw: u32, th: u32) -> (
    Seq<char>,
    Seq<char>,
    Seq<char>,
    Seq<char>,
    Seq<char>,
    Seq<char>,
) {
    let p6 = digits(tw as nat).push('x') + digits(th as nat);
    let p5 = colour_text(l).push('|') + p6;
    let p4 = digits(gh as nat).push('|') + p5;
    let p3 = digits(gw as nat).push(',') + p4;
    let p2 = ry.push(',') + p3;
    let p1 = rx.push(',') + p2;
    (p1, p2, p3, p4, p5, p6)
}

proof fn key_text_in_parts(
    texture: Seq<char>,
    rx: Seq<char>,
    ry: Seq<char>,
    gw: u32,
    gh: u32,
    l: Levels,
    tw: u32,
    th: u32,
)
    ensures
        key_text(texture, rx, ry, gw, gh, l, tw, th) == texture.push('|') + key_parts(
            rx,
            ry,
            gw,
            gh,
            l,
            tw,
            th,
        ).0,
{
    reveal_strlit("|");
    reveal_strlit(",");
    reveal_strlit("x");
    assert(key_text(texture, rx, ry, gw, gh, l, tw, th) =~= texture.push('|') + key_parts(
        rx,
        ry,
        gw,
        gh,
        l,
        tw,
        th,
    ).0);
}

/// Two glyphs share an image only if everything baked into its pixels agrees: the atlas,
/// the rectangle, the colour and the target size.
pub proof fn glyph_keys_tell_images_apart(a: GlyphDraw, b: GlyphDraw)
    requires
        a.wf(),
        b.wf(),
        lacks(a.texture@, '|'),
        lacks(b.texture@, '|'),
        plain(a.rx@),
        plain(a.ry@),
        plain(b.rx@),
        plain(b.ry@),
        draw_key(a) == draw_key(b),
    ensures
        a.texture@ == b.texture@,
        a.rx@ == b.rx@,
        a.ry@ == b.ry@,
        a.gw == b.gw,
        a.gh == b.gh,
        a.colour == b.colour,
        a.tw == b.tw,
        a.th == b.th,
{
    key_text_in_parts(a.texture@, a.rx@, a.ry@, a.gw, a.gh, a.colour, a.tw, a.th);
    key_text_in_parts(b.texture@, b.rx@, b.ry@, b.gw, b.gh, b.colour, b.tw, b.th);
    let p = key_parts(a.rx@, a.ry@, a.gw, a.gh, a.colour, a.tw, a.th);
    let q = key_parts(b.rx@, b.ry@, b.gw, b.gh, b.colour, b.tw, b.th);
    digits_are_plain(a.gw as nat);
    digits_are_plain(b.gw as nat);
    digits_are_plain(a.gh as nat);
    digits_are_plain(b.gh as nat);
    digits_are_plain(a.tw as nat);
    digits_are_plain(b.tw as nat);
    colours_lack_bars(a.colour);
    colours_lack_bars(b.colour);
    split_at_separator(a.texture@, p.0, b.texture@, q.0, '|');
    split_at_separator(a.rx@, p.1, b.rx@, q.1, ',');
    split_at_separator(a.ry@, p.2, b.ry@, q.2, ',');
    split_at_separator(digits(a.gw as nat), p.3, digits(b.gw as nat), q.3, ',');
    split_at_separator(digits(a.gh as nat), p.4, digits(b.gh as nat), q.4, '|');
    split_at_separator(colour_text(a.colour), p.5, colour_text(b.colour), q.5, '|');
    split_at_separator(
        digits(a.tw as nat),
        digits(a.th as nat),
        digits(b.tw as nat),
        digits(b.th as nat),
        'x',
    );
    digits_injective(a.gw as nat, b.gw as nat);
    digits_injective(a.gh as nat, b.gh as nat);
    digits_injective(a.tw as nat, b.tw as nat);
    digits_injective(a.th as nat, b.th as nat);
    colour_text_is_injective(a.colour, b.colour);
}

/// Glyphs that share an image have the same picture, as soon as their corner in the atlas,
/// their kind and the atlas are the same: the colour and the sizes are those of the key.
pub proof fn glyphs_of_one_key_agree(a: GlyphDraw, b: GlyphDraw)
    requires
        a.wf(),
        b.wf(),
        lacks(a.texture@, '|'),
        lacks(b.texture@, '|'),
        plain(a.rx@),
        plain(a.ry@),
        plain(b.rx@),
        plain(b.ry@),
        draw_key(a) == draw_key(b),
        a.x0 == b.x0,
        a.y0 == b.y0,
        a.alpha_mask == b.alpha_mask,
        a.atlas == b.atlas,
    ensures
        glyph_picture(a) == glyph_picture(b),
{
    glyph_keys_tell_images_apart(a, b);
}

/// Whether no glyph is listed twice.
pub open spec fn distinct_glyphs(ds: Seq<GlyphDraw>) -> bool {
    forall|i: int, j: int|
        0 <= i < j < ds.len() ==> (#[trigger] ds[i]).entity != (#[trigger] ds[j]).entity
            || ds[i].index != ds[j].index
}

/// Every glyph of a tick is in a slot of its own, as long as no glyph is listed twice.
pub proof fn glyphs_have_their_own_slots(ds: Seq<GlyphDraw>)
    requires
        distinct_glyphs(ds),
    ensures
        distinct_slots(items_of(ds)),
{
    let its = items_of(ds);
    assert forall|i: int, j: int| 0 <= i < j < its.len() implies (#[trigger] its[i]).slot != (
    #[trigger] its[j]).slot by {
        assert(its[i].slot == ds[i].slot() && its[j].slot == ds[j].slot());
        if its[i].slot == its[j].slot {
            keys_are_distinct(ds[i].entity, ds[i].index, ds[j].entity, ds[j].index);
        }
    }
}

/// Text beats the y-sorted world: at any z from zero up it lies in front of every sprite
/// up to a world z of ten. A sprite placed higher than that on purpose lies in front of
/// text at z zero.
pub proof fn text_clears_the_world(text: i32, sprite: i32)
    ensures
        text >= 0 && sprite < 10 * Z_SPREAD ==> text + TEXT_Z_BIAS > sprite,
        sprite > 10 * Z_SPREAD ==> sprite > TEXT_Z_BIAS,
{
}

impl Default for GlyphScene {
    fn default() -> (scene: GlyphScene)
        ensures
            scene.wf(),
            scene.tableau() == (Tableau {
                shelf: Shelf::fresh(GLYPH_ID_BASE, UI_IMG_ID_BASE),
                book: Book::fresh(GLYPH_ID_BASE),
            }),
            scene.time() == (TermClock { tick: 0, term: None }),
    {
        GlyphScene::new()
    }
}

/// Whether two lists are of the same glyphs: the same images at the same places in the same
/// slots. The atlas may be available in the one and not in the other.
pub open spec fn same_glyphs(a: Seq<GlyphDraw>, b: Seq<GlyphDraw>) -> bool {
    &&& a.len() == b.len()
    &&& forall|i: int|
        0 <= i < a.len() ==> {
            &&& (#[trigger] a[i]).slot() == (#[trigger] b[i]).slot()
            &&& draw_key(a[i]) == draw_key(b[i])
            &&& a[i].place() == b[i].place()
        }
}

/// Still text costs zero bytes: a tick that draws the same glyphs as the tick before, with
/// no more of the atlases available than then, sends nothing, and neither the images nor
/// the slots become more or fewer.
pub proof fn still_text_costs_nothing(
    t: Tableau,
    ds: Seq<GlyphDraw>,
    again: Seq<GlyphDraw>,
    gone: Seq<u128>,
)
    requires
        t.shelf.wf(),
        distinct_glyphs(ds),
        same_glyphs(ds, again),
        pixels_come_first(t, items_of(ds)),
        nothing_arrived(t.begun(), items_of(ds), items_of(again)),
        lists_unseen(
            t.begun().drew_all(items_of(ds)).retired().begun().drew_all(items_of(again)).book,
            gone,
        ),
    ensures
        stands_still(t.begun().drew_all(items_of(ds)).retired(), items_of(again), gone),
        gone.len() == 0,
{
    let (x, y) = (items_of(ds), items_of(again));
    assert forall|i: int| 0 <= i < x.len() implies {
        &&& (#[trigger] x[i]).slot == (#[trigger] y[i]).slot
        &&& x[i].key == y[i].key
        &&& x[i].geom == y[i].geom
        &&& x[i].keeps == y[i].keeps
    } by {
        assert(ds[i].slot() == again[i].slot());
    }
    glyphs_have_their_own_slots(ds);
    a_still_scene_is_free(t, x, y, gone);
}

/// Drawing a glyph again is free: it uploads nothing, sends nothing and changes nothing.
pub proof fn drawing_a_glyph_again_is_free(t: Tableau, d: GlyphDraw)
    ensures
        ({
            let u = t.drew(item_of(d));
            &&& !u.uploads(item_of(d))
            &&& !u.places(item_of(d))
            &&& u.packets(item_of(d)) == Seq::<Packet>::empty()
            &&& u.drew(item_of(d)) == u
        }),
{
    drawing_again_is_free(t, item_of(d));
}

/// A glyph is placed at its natural size. If drawing it sends a placement, the last two
/// packets move the cursor to the glyph's cell and show its image there, spanning no cells;
/// nothing else is placed, and if it sends none, nothing is.
pub proof fn glyphs_keep_their_natural_size(t: Tableau, d: GlyphDraw)
    ensures
        ({
            let ps = t.packets(item_of(d));
            let n = ps.len() as int;
            if t.places(item_of(d)) {
                &&& n >= 2
                &&& ps[n - 2] == (Packet::Cursor { row: d.row, col: d.col })
                &&& ps[n - 1] matches Packet::Place { z, cols, rows, xoff, yoff, .. } && z == d.z
                    && cols == 0 && rows == 0 && xoff == d.xoff && yoff == d.yoff
                &&& forall|i: int|
                    0 <= i < n - 2 ==> !((#[trigger] ps[i]) is Cursor) && !(ps[i] is Place)
            } else {
                forall|i: int|
                    0 <= i < n ==> !((#[trigger] ps[i]) is Cursor) && !(ps[i] is Place)
            }
        }),
{
    a_placement_is_two_packets(t, item_of(d));
}

/// A glyph has a picture if and only if the atlas has its pixels: it is there, in four
/// bytes per pixel, and the glyph's rectangle, from its corner to its corner plus its size,
/// lies inside it. The picture is as big as the glyph is drawn.
pub proof fn a_letter_needs_its_rectangle(d: GlyphDraw)
    requires
        d.wf(),
    ensures
        glyph_picture(d) is Some <==> (d.atlas matches Some(a) && a.rgba8 && (a.data matches Some(bytes)
            && d.x0 + d.gw <= a.width && d.y0 + d.gh <= a.height && 4 * (a.width * a.height)
            <= bytes@.len())),
        glyph_picture(d) matches Some(p) ==> p.w == d.tw && p.h == d.th && p.rgba.len() == 4 * (d.tw
            * d.th),
{
    if let Some(a) = d.atlas {
        if let Some(bytes) = a.data {
            cropping_stays_inside(bytes@.len(), a.width, a.height, Some(d.rect()));
        }
    }
}

/// A glyph at its own size shows its own rectangle of the atlas: its pixel at `(x, y)` is
/// the atlas pixel that lies `x` to the right of the glyph's corner and `y` below it, each
/// channel scaled by the level of the text colour, rounded to the nearest. White text shows
/// the atlas pixels as they are.
pub proof fn a_letter_is_its_own_rectangle(d: GlyphDraw, x: int, y: int, c: int)
    requires
        d.wf(),
        d.tw == d.gw,
        d.th == d.gh,
        glyph_picture(d) is Some,
        0 <= x < d.gw,
        0 <= y < d.gh,
        0 <= c < 4,
    ensures
        ({
            let out = (glyph_picture(d)->0).rgba[4 * (y * d.gw + x) + c];
            let a = d.atlas->0;
            let v = (a.data->0)@[4 * ((d.y0 + y) * a.width + (d.x0 + x)) + c];
            let q = seq![d.colour.r, d.colour.g, d.colour.b, d.colour.a][c] as int;
            &&& 2 * v * q - 15 <= 30 * out <= 2 * v * q + 15
            &&& q == 15 ==> out == v
        }),
{
    let a = d.atlas->0;
    let data = (a.data->0)@;
    let crop = cropped(data, a.width, d.rect());
    let inked = if d.alpha_mask || !d.colour.white() {
        levels_tinted(crop, d.colour)
    } else {
        crop
    };
    cropping_keeps_each_pixel(data, a.width, d.rect(), x, y, c);
    assert(0 <= y * d.gw + x && 4 * (y * d.gw + x) + 4 <= crop.len()) by {
        assert(0 <= y * d.gw && y * d.gw + d.gw <= d.gw * d.gh) by (nonlinear_arith)
            requires
                0 <= y < d.gh,
                0 <= d.gw,
        ;
    }
    tinting_scales_each_channel(crop, d.colour, y * d.gw + x, c);
    let at = 4 * (y * d.gw + x) + c;
    let q = seq![d.colour.r, d.colour.g, d.colour.b, d.colour.a][c] as int;
    let v = data[4 * ((d.y0 + y) * a.width + (d.x0 + x)) + c];
    assert(crop[at] == v) by {
        let r = d.rect();
        assert(y * (r.x1 - r.x0) == y * d.gw) by (nonlinear_arith)
            requires
                r.x1 - r.x0 == d.gw,
        ;
        assert((r.y0 + y) * a.width == (d.y0 + y) * a.width) by (nonlinear_arith)
            requires
                r.y0 == d.y0,
        ;
    }
    assert(q == 15 ==> 2 * v * q == 30 * v) by (nonlinear_arith);
    assert(inked.len() == byte_len(d.gw, d.gh));
    scaling_to_the_same_size_copies(inked, d.gw, d.gh);
}

/// A glyph at another size is the glyph at its own size, resampled.
pub proof fn a_letter_is_resampled_whole(d: GlyphDraw)
    requires
        d.wf(),
    ensures
        ({
            let own = GlyphDraw { tw: d.gw, th: d.gh, ..d };
            &&& glyph_picture(own) is Some <==> glyph_picture(d) is Some
            &&& glyph_picture(d) matches Some(p) ==> p.rgba == scaled(
                (glyph_picture(own)->0).rgba,
                d.gw,
                d.gh,
                d.tw,
                d.th,
            )
        }),
{
    let own = GlyphDraw { tw: d.gw, th: d.gh, ..d };
    assert(own.rect() == d.rect());
    if glyph_picture(d) is Some {
        let a = d.atlas->0;
        let crop = cropped((a.data->0)@, a.width, d.rect());
        let inked = if d.alpha_mask || !d.colour.white() {
            levels_tinted(crop, d.colour)
        } else {
            crop
        };
        assert(inked.len() == byte_len(d.gw, d.gh));
        scaling_to_the_same_size_copies(inked, d.gw, d.gh);
    }
}

/// A glyph is drawn in a slot of its entity and its index, at its cell, offset and depth,
/// spanning no cells, and keeps its slot while it has no image.
pub proof fn a_letter_is_drawn_where_it_stands(ds: Seq<GlyphDraw>, i: int)
    requires
        0 <= i < ds.len(),
    ensures
        items_of(ds).len() == ds.len(),
        ({
            let it = items_of(ds)[i];
            &&& it.slot / 0x1_0000_0000_0000_0000 == ds[i].entity
            &&& it.slot % 0x1_0000_0000_0000_0000 == ds[i].index
            &&& it.keeps
            &&& it.picture == glyph_picture(ds[i])
            &&& it.geom matches Some(g) && g.row == ds[i].row && g.col == ds[i].col && g.xoff
                == ds[i].xoff && g.yoff == ds[i].yoff && g.z == ds[i].z && g.cols == 0 && g.rows == 0
        }),
{
}

/// The colour in a glyph's key is red, green, blue and alpha in that order, five characters
/// each, with commas between them.
pub proof fn a_colour_is_spelled_in_order(l: Levels, c: int)
    requires
        l.wf(),
        0 <= c < 4,
    ensures
        colour_text(l).len() == 23,
        colour_text(l).subrange(6 * c, 6 * c + 5) == fraction_text(
            seq![l.r, l.g, l.b, l.a][c],
        ),
        c < 3 ==> colour_text(l)[6 * c + 5] == ',',
{
    reveal_strlit(",");
    fractions_are_nearest(l.r);
    fractions_are_nearest(l.g);
    fractions_are_nearest(l.b);
    fractions_are_nearest(l.a);
    assert(colour_text(l).subrange(6 * c, 6 * c + 5) =~= fraction_text(
        seq![l.r, l.g, l.b, l.a][c],
    ));
}

} // verus!
