//! What every drawing pass is made of: the images it has uploaded, the slots it has on
//! screen, and its clock. Uploads come once per distinct image, placements only when
//! something changed.

use vstd::prelude::*;

use crate::cache::{ImageCache, Shelf, Upload};
use crate::proto::encodable;
use crate::screen::{encode, stream, Geom, Packet};
use crate::slots::{
    distinct_ids, following, lists_unseen, retire_packets, show_packets, Book, Placements,
};
use crate::term::{TermClock, TermSize, REQUERY_TICKS};

verus! {

/// Persistent state of a pass across ticks.
pub struct Pass {
    images: ImageCache,
    placements: Placements,
    clock: TermClock,
}

/// Whether the slots show images of the cache and nothing else.
pub open spec fn slots_show_uploads(shelf: Shelf, book: Book) -> bool {
    forall|k: u128| #[trigger]
        book.slots.contains_key(k) && book.slots[k].cur_img_id != 0 ==> shelf.base
            < book.slots[k].cur_img_id <= shelf.next
}

impl Pass {
    /// The images that are uploaded.
    pub closed spec fn shelf(self) -> Shelf {
        self.images@
    }

    /// The slots that are on screen.
    pub closed spec fn book(self) -> Book {
        self.placements@
    }

    /// The tick counter and the terminal size last seen.
    pub closed spec fn time(self) -> TermClock {
        self.clock
    }

    /// The invariant of a pass: image ids and placement ids are each unique, and every
    /// placement shows an uploaded image.
    pub open spec fn wf(self) -> bool {
        &&& self.shelf().wf()
        &&& self.book().wf()
        &&& slots_show_uploads(self.shelf(), self.book())
    }

    /// A pass that has drawn nothing, with its band of image ids and the start of its
    /// placement ids.
    pub fn new(img_base: u32, img_top: u32, placement_base: u32) -> (pass: Pass)
        ensures
            pass.wf(),
            pass.shelf() == Shelf::fresh(img_base, img_top),
            pass.book() == Book::fresh(placement_base),
            pass.time() == (TermClock { tick: 0, term: None }),
    {
        Pass {
            images: ImageCache::new(img_base, img_top),
            placements: Placements::new(placement_base),
            clock: TermClock::new(),
        }
    }

    /// How many distinct images are uploaded.
    pub fn image_count(&self) -> (n: usize)
        ensures
            n == self.shelf().images.len(),
    {
        self.images.len()
    }

    /// How many slots are live.
    pub fn slot_count(&self) -> (n: usize)
        ensures
            n == self.book().slots.len(),
    {
        self.placements.len()
    }

    /// Whether there are placement ids for `n` more slots.
    pub fn has_ids(&self, n: usize) -> (b: bool)
        ensures
            b == (following(self.book().next, self.book().base) - 1 + n <= u32::MAX),
    {
        n <= self.placements.ids_left() as usize
    }

    /// Whether the pass has used up its image ids.
    pub fn is_full(&self) -> (b: bool)
        ensures
            b == !self.shelf().has_room(),
    {
        self.images.is_full()
    }

    /// Hands out the next image id.
    pub fn alloc_img_id(&mut self) -> (id: u32)
        requires
            old(self).wf(),
            old(self).shelf().has_room(),
        ensures
            final(self).wf(),
            id == old(self).shelf().next_id(),
            final(self).shelf() == (Shelf { next: id, ..old(self).shelf() }),
            final(self).book() == old(self).book(),
            final(self).time() == old(self).time(),
    {
        self.images.alloc_img_id()
    }

    /// Hands out the next placement id.
    pub fn alloc_placement_id(&mut self) -> (id: u32)
        requires
            old(self).wf(),
            following(old(self).book().next, old(self).book().base) <= u32::MAX,
        ensures
            final(self).wf(),
            id == following(old(self).book().next, old(self).book().base),
            final(self).book() == (Book { next: id, ..old(self).book() }),
            final(self).shelf() == old(self).shelf(),
            final(self).time() == old(self).time(),
    {
        self.placements.alloc_placement_id()
    }

    /// Whether no two live slots share a placement id.
    pub fn placement_ids_are_unique(&self) -> (b: bool)
        ensures
            b == distinct_ids(self.book().slots),
    {
        self.placements.ids_are_unique()
    }

    /// The tick counter and the terminal size last seen.
    pub fn clock(&self) -> (clock: TermClock)
        ensures
            clock == self.time(),
    {
        self.clock
    }

    /// Takes note of the terminal's size.
    pub fn set_term(&mut self, size: TermSize)
        requires
            old(self).wf(),
        ensures
            final(self).wf(),
            final(self).time() == (TermClock { term: Some(size), ..old(self).time() }),
            final(self).shelf() == old(self).shelf(),
            final(self).book() == old(self).book(),
    {
        self.clock.set(size);
    }

    /// Starts a tick. Returns whether the terminal has to be asked for its size.
    pub fn begin_tick(&mut self) -> (ask: bool)
        requires
            old(self).wf(),
            old(self).time().tick < u64::MAX,
        ensures
            final(self).wf(),
            final(self).time() == (TermClock {
                tick: (old(self).time().tick + 1) as u64,
                ..old(self).time()
            }),
            final(self).shelf() == old(self).shelf(),
            final(self).book() == old(self).book().begun(),
            ask == (old(self).time().term is None || final(self).time().tick % REQUERY_TICKS == 0),
    {
        let ask = self.clock.advance();
        self.placements.begin();
        ask
    }

    /// The upload under a key, if there is one.
    pub fn lookup(&self, key: &str) -> (up: Option<Upload>)
        ensures
            up == (if self.shelf().images.contains_key(key@) {
                Some(self.shelf().images[key@])
            } else {
                None
            }),
    {
        self.images.get(key)
    }

    /// Uploads an image that is not there yet.
    pub fn upload(&mut self, buf: &mut Vec<u8>, key: String, w: u32, h: u32, rgba: &[u8]) -> (up:
        Upload)
        requires
            old(self).wf(),
            old(self).shelf().has_room(),
            !old(self).shelf().images.contains_key(key@),
            encodable(rgba@.len()),
        ensures
            final(self).wf(),
            final(self).shelf() == old(self).shelf().stored(key@, w, h),
            final(self).book() == old(self).book(),
            final(self).time() == old(self).time(),
            up == (Upload { w, h, img_id: old(self).shelf().next_id() }),
            final(buf)@ == old(buf)@ + encode(
                Packet::Transmit { id: up.img_id, w, h, rgba: rgba@ },
            ),
    {
        self.images.store(buf, key, w, h, rgba)
    }

    /// Notes that a slot is on screen this tick.
    pub fn mark(&mut self, key: u128)
        requires
            old(self).wf(),
        ensures
            final(self).wf(),
            final(self).book() == old(self).book().marked(key),
            final(self).shelf() == old(self).shelf(),
            final(self).time() == old(self).time(),
    {
        self.placements.mark(key);
    }

    /// Makes sure that a key has a slot.
    pub fn claim(&mut self, key: u128)
        requires
            old(self).wf(),
            old(self).book().has_room(key),
        ensures
            final(self).wf(),
            final(self).book() == old(self).book().claimed(key),
            final(self).shelf() == old(self).shelf(),
            final(self).time() == old(self).time(),
    {
        let _ = self.placements.claim(key);
    }

    /// Shows an uploaded image at a place, sending only what changed. Returns whether a
    /// placement was sent.
    pub fn show(&mut self, buf: &mut Vec<u8>, key: u128, img_id: u32, geom: Geom) -> (sent: bool)
        requires
            old(self).wf(),
            old(self).book().has_room(key),
            old(self).shelf().base < img_id <= old(self).shelf().next,
        ensures
            final(self).wf(),
            final(self).book() == old(self).book().shown(key, img_id, geom),
            final(self).shelf() == old(self).shelf(),
            final(self).time() == old(self).time(),
            final(buf)@ == old(buf)@ + stream(
                show_packets(old(self).book().claimed(key).slots[key], img_id, geom),
            ),
            sent == ({
                let slot = old(self).book().claimed(key).slots[key];
                slot.cur_img_id != img_id || slot.last_geom != Some(geom)
            }),
    {
        self.placements.show(buf, key, img_id, geom)
    }

    /// Ends a tick: takes off the screen what was not seen. Returns the keys of the
    /// slots that went, in an unspecified order.
    pub fn finish(&mut self, buf: &mut Vec<u8>) -> (gone: Vec<u128>)
        requires
            old(self).wf(),
        ensures
            final(self).wf(),
            final(self).book() == old(self).book().retired(),
            final(self).shelf() == old(self).shelf(),
            final(self).time() == old(self).time(),
            lists_unseen(old(self).book(), gone@),
            final(buf)@ == old(buf)@ + stream(retire_packets(old(self).book().slots, gone@)),
    {
        self.placements.retire(buf)
    }
}

} // verus!
