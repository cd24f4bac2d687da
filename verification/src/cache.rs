//! The images that a pass has uploaded, each exactly once, and the ids that they went up
//! under. An image's key holds the file name, the cell, the tint and the flip that its
//! pixels were made with, so files of one name in two directories share a key, and so do
//! cells of one index in two layouts.
//!
//! Every pass has a band of image ids to itself. Once the band is used up, no more images
//! go up: an id of another pass's would silently replace that pass's pixels.

use vstd::hash_map::StringHashMap;
use vstd::prelude::*;

use crate::proto;
use crate::proto::encodable;
use crate::screen::{encode, play, Packet, Screen};
use crate::slots::following;

verus! {

broadcast use vstd::hash_map::group_hash_map_axioms;

/// An image uploaded to the terminal: its size and the id it went up under. Assigned and
/// transmitted exactly ONCE; whatever shows this image just places this id.
#[derive(Clone, Copy, PartialEq, Eq, Debug, Structural)]
pub struct Upload {
    pub w: u32,
    pub h: u32,
    pub img_id: u32,
}

/// The cache as a value.
#[verifier::ext_equal]
pub struct Shelf {
    pub images: Map<Seq<char>, Upload>,
    /// The greatest id below the band.
    pub base: u32,
    /// The greatest id of the band.
    pub top: u32,
    /// The id handed out last.
    pub next: u32,
}

impl Shelf {
    /// A cache with no images.
    pub open spec fn fresh(base: u32, top: u32) -> Shelf {
        Shelf { images: Map::empty(), base, top, next: 0 }
    }

    /// Whether an image id of the band is left.
    pub open spec fn has_room(self) -> bool {
        following(self.next, self.base) <= self.top
    }

    /// The id that the next image gets.
    pub open spec fn next_id(self) -> u32 {
        following(self.next, self.base) as u32
    }

    /// The cache once an image of a given size is in it.
    pub open spec fn stored(self, key: Seq<char>, w: u32, h: u32) -> Shelf {
        let img_id = self.next_id();
        Shelf { images: self.images.insert(key, (Upload { w, h, img_id })), next: img_id, ..self }
    }

    /// Every image has an id of the band, and no two images share one.
    pub open spec fn wf(self) -> bool {
        &&& self.next <= self.top
        &&& self.images.dom().finite()
        &&& forall|k: Seq<char>| #[trigger]
            self.images.contains_key(k) ==> self.base < self.images[k].img_id <= self.next
        &&& forall|j: Seq<char>, k: Seq<char>| #[trigger]
            self.images.contains_key(j) && #[trigger] self.images.contains_key(k)
                && self.images[j].img_id == self.images[k].img_id ==> j == k
    }
}

/// Every image of the cache is stored in the terminal, at the size that the cache says.
pub open spec fn kept(s: Screen, shelf: Shelf) -> bool {
    forall|k: Seq<char>| #[trigger]
        shelf.images.contains_key(k) ==> {
            let up = shelf.images[k];
            &&& s.images.contains_key(up.img_id)
            &&& s.images[up.img_id].w == up.w
            &&& s.images[up.img_id].h == up.h
        }
}

/// The image cache of a pass.
pub struct ImageCache {
    map: StringHashMap<Upload>,
    base: u32,
    top: u32,
    next: u32,
}

impl View for ImageCache {
    type V = Shelf;

    closed spec fn view(&self) -> Shelf {
        Shelf { images: self.map@, base: self.base, top: self.top, next: self.next }
    }
}

impl ImageCache {
    /// An empty cache that hands out the image ids above `base`, up to `top`.
    pub fn new(base: u32, top: u32) -> (cache: ImageCache)
        ensures
            cache@ == Shelf::fresh(base, top),
            cache@.wf(),
    {
        ImageCache { map: StringHashMap::new(), base, top, next: 0 }
    }

    /// How many distinct images are uploaded.
    pub fn len(&self) -> (n: usize)
        ensures
            n == self@.images.len(),
    {
        self.map.len()
    }

    /// Whether the image ids of the band are used up.
    pub fn is_full(&self) -> (b: bool)
        ensures
            b == !self@.has_room(),
    {
        self.next >= self.top || self.base >= self.top
    }

    /// The upload under a key, if there is one.
    pub fn get(&self, key: &str) -> (up: Option<Upload>)
        ensures
            up == (if self@.images.contains_key(key@) {
                Some(self@.images[key@])
            } else {
                None
            }),
    {
        match self.map.get(key) {
            Some(up) => Some(*up),
            None => None,
        }
    }

    /// Hands out the next image id. An id is never handed out twice.
    pub fn alloc_img_id(&mut self) -> (id: u32)
        requires
            old(self)@.has_room(),
        ensures
            id == old(self)@.next_id(),
            final(self)@ == (Shelf { next: id, ..old(self)@ }),
    {
        let top: u32 = if self.next < self.base {
            self.base
        } else {
            self.next
        };
        self.next = top + 1;
        self.next
    }

    /// Uploads an image under an id of its own and keeps it under its key.
    pub fn store(&mut self, buf: &mut Vec<u8>, key: String, w: u32, h: u32, rgba: &[u8]) -> (up:
        Upload)
        requires
            old(self)@.wf(),
            old(self)@.has_room(),
            !old(self)@.images.contains_key(key@),
            encodable(rgba@.len()),
        ensures
            final(self)@ == old(self)@.stored(key@, w, h),
            final(self)@.wf(),
            up == (Upload { w, h, img_id: old(self)@.next_id() }),
            final(buf)@ == old(buf)@ + encode(
                Packet::Transmit { id: up.img_id, w, h, rgba: rgba@ },
            ),
    {
        let img_id: u32 = self.alloc_img_id();
        proto::transmit_rgba(buf, img_id, w, h, rgba);
        let up = Upload { w, h, img_id };
        self.map.insert(key, up);
        up
    }
}

/// Nothing is ever uploaded twice or replaced: a new image goes up under an id that no
/// other image of the cache has, every earlier key keeps its id, and the terminal keeps
/// every earlier picture as it was.
pub proof fn uploads_are_for_good(s: Screen, shelf: Shelf, key: Seq<char>, w: u32, h: u32, rgba: Seq<u8>)
    requires
        shelf.wf(),
        shelf.has_room(),
        kept(s, shelf),
        !shelf.images.contains_key(key),
    ensures
        ({
            let after = shelf.stored(key, w, h);
            let t = play(
                s,
                seq![Packet::Transmit { id: shelf.next_id(), w, h, rgba }],
            );
            &&& after.wf()
            &&& kept(t, after)
            &&& t.images[shelf.next_id()].rgba == rgba
            &&& forall|k: Seq<char>| #[trigger]
                shelf.images.contains_key(k) ==> {
                    let id = shelf.images[k].img_id;
                    &&& after.images.contains_key(k)
                    &&& after.images[k] == shelf.images[k]
                    &&& id != shelf.next_id()
                    &&& t.images[id] == s.images[id]
                }
            &&& t.placements == s.placements
        }),
{
    let p = Packet::Transmit { id: shelf.next_id(), w, h, rgba };
    reveal_with_fuel(play, 2);
    assert(seq![p].drop_last() =~= Seq::<Packet>::empty());
}

} // verus!
