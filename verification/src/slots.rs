//! Placement bookkeeping, shared by every drawing pass.
//!
//! Each on-screen thing owns ONE placement id for its whole life, and each distinct
//! bitmap owns ONE image id. A frame change re-points the placement at a different
//! image; a move re-places the same pair. Two different image ids must never be on
//! screen under one placement id, or kitty *stacks* them instead of replacing, which
//! looks like ghosting.

use std::collections::{HashMap, HashSet};
use vstd::prelude::*;
use vstd::std_specs::iter::IteratorSpec;

use crate::proto;
use crate::screen::{stream, stream_push, Geom, Packet};

verus! {

broadcast use vstd::std_specs::hash::group_hash_axioms;

/// Render state of one on-screen thing. A slot never owns pixels.
#[derive(Clone, Copy, Debug)]
pub struct Slot {
    pub placement_id: u32,
    /// The shared image that this placement currently shows (0 = none yet).
    pub cur_img_id: u32,
    pub last_geom: Option<Geom>,
}

/// The slot table as a value: the live slots, those drawn this tick, and the id counter.
#[verifier::ext_equal]
pub struct Book {
    pub slots: Map<u128, Slot>,
    pub seen: Set<u128>,
    pub base: u32,
    pub next: u32,
}

/// The key of a slot: an entity, and which of the entity's pieces it is.
pub open spec fn key_of(entity: u64, piece: u64) -> u128 {
    (entity * 0x1_0000_0000_0000_0000 + piece) as u128
}

/// Different entities, and different pieces of one entity, have different slots.
pub proof fn keys_are_distinct(e1: u64, p1: u64, e2: u64, p2: u64)
    requires
        key_of(e1, p1) == key_of(e2, p2),
    ensures
        e1 == e2,
        p1 == p2,
{
}

/// The key of a slot.
pub fn slot_key(entity: u64, piece: u64) -> (key: u128)
    ensures
        key == key_of(entity, piece),
{
    (entity as u128) * 0x1_0000_0000_0000_0000 + piece as u128
}

/// The id after `next` in a band that starts above `base`.
pub open spec fn following(next: u32, base: u32) -> int {
    (if next < base {
        base
    } else {
        next
    }) + 1
}

impl Book {
    /// A table with no slots.
    pub open spec fn fresh(base: u32) -> Book {
        Book { slots: Map::empty(), seen: Set::empty(), base, next: 0 }
    }

    /// Whether a slot can be had for a key: it is there, or an id is left.
    pub open spec fn has_room(self, key: u128) -> bool {
        self.slots.contains_key(key) || following(self.next, self.base) <= u32::MAX
    }

    /// The table once a key has a slot.
    pub open spec fn claimed(self, key: u128) -> Book {
        if self.slots.contains_key(key) {
            self
        } else {
            let id = following(self.next, self.base) as u32;
            Book {
                slots: self.slots.insert(
                    key,
                    (Slot { placement_id: id, cur_img_id: 0, last_geom: None }),
                ),
                next: id,
                ..self
            }
        }
    }

    /// The table once a key has been seen this tick.
    pub open spec fn marked(self, key: u128) -> Book {
        Book { seen: self.seen.insert(key), ..self }
    }

    /// The table once a key shows an image at a place.
    pub open spec fn shown(self, key: u128, img_id: u32, geom: Geom) -> Book {
        let b = self.claimed(key).marked(key);
        Book {
            slots: b.slots.insert(
                key,
                (Slot {
                    placement_id: b.slots[key].placement_id,
                    cur_img_id: img_id,
                    last_geom: Some(geom),
                }),
            ),
            ..b
        }
    }

    /// The table once the slots that this tick did not see are gone.
    pub open spec fn retired(self) -> Book {
        Book { slots: self.slots.restrict(self.seen), ..self }
    }

    /// The table at the start of a tick.
    pub open spec fn begun(self) -> Book {
        Book { seen: Set::empty(), ..self }
    }

    /// No two slots share a placement id, every id was handed out by the counter, and a
    /// slot that shows an image knows where.
    pub open spec fn wf(self) -> bool {
        &&& forall|k: u128| #[trigger]
            self.slots.contains_key(k) ==> {
                &&& 0 < self.slots[k].placement_id <= self.next
                &&& self.slots[k].cur_img_id != 0 ==> self.slots[k].last_geom is Some
            }
        &&& distinct_ids(self.slots)
    }
}

/// No two slots share a placement id.
pub open spec fn distinct_ids(slots: Map<u128, Slot>) -> bool {
    forall|j: u128, k: u128| #[trigger]
        slots.contains_key(j) && #[trigger] slots.contains_key(k) && slots[j].placement_id
            == slots[k].placement_id ==> j == k
}

/// What is sent to show an image at a place in a slot. Showing a different image than
/// before drops the old placement first. Nothing is sent where nothing changed.
pub open spec fn show_packets(slot: Slot, img_id: u32, geom: Geom) -> Seq<Packet> {
    (if slot.cur_img_id != img_id && slot.cur_img_id != 0 {
        seq![Packet::Delete { img_id: slot.cur_img_id, placement_id: slot.placement_id }]
    } else {
        Seq::empty()
    }) + (if slot.cur_img_id != img_id || slot.last_geom != Some(geom) {
        seq![
            Packet::Cursor { row: geom.row, col: geom.col },
            Packet::Place {
                img_id,
                placement_id: slot.placement_id,
                z: geom.z,
                cols: geom.cols,
                rows: geom.rows,
                xoff: geom.xoff,
                yoff: geom.yoff,
            },
        ]
    } else {
        Seq::empty()
    })
}

/// What is sent to retire slots, in the order given. A slot that shows nothing costs
/// nothing.
pub open spec fn retire_packets(slots: Map<u128, Slot>, gone: Seq<u128>) -> Seq<Packet>
    decreases gone.len(),
{
    if gone.len() == 0 {
        Seq::empty()
    } else {
        let slot = slots[gone.last()];
        let before = retire_packets(slots, gone.drop_last());
        if slot.cur_img_id != 0 {
            before.push(
                Packet::Delete { img_id: slot.cur_img_id, placement_id: slot.placement_id },
            )
        } else {
            before
        }
    }
}

/// Whether a sequence lists each live slot that was not seen, once.
pub open spec fn lists_unseen(b: Book, gone: Seq<u128>) -> bool {
    &&& gone.no_duplicates()
    &&& forall|k: u128| #[trigger]
        gone.contains(k) <==> b.slots.contains_key(k) && !b.seen.contains(k)
}

/// The slot table of a pass.
pub struct Placements {
    slots: HashMap<u128, Slot>,
    seen: HashSet<u128>,
    base: u32,
    next: u32,
}

impl View for Placements {
    type V = Book;

    closed spec fn view(&self) -> Book {
        Book { slots: self.slots@, seen: self.seen@, base: self.base, next: self.next }
    }
}

impl Placements {
    /// An empty table that hands out placement ids above `base`.
    pub fn new(base: u32) -> (table: Placements)
        ensures
            table@ == Book::fresh(base),
            table@.wf(),
    {
        Placements { slots: HashMap::new(), seen: HashSet::new(), base, next: 0 }
    }

    /// How many slots are live.
    pub fn len(&self) -> (n: usize)
        ensures
            n == self@.slots.len(),
    {
        self.slots.len()
    }

    /// How many placement ids are left.
    pub fn ids_left(&self) -> (n: u32)
        ensures
            n == u32::MAX - following(self@.next, self@.base) + 1,
    {
        let top: u32 = if self.next < self.base {
            self.base
        } else {
            self.next
        };
        u32::MAX - top
    }

    /// Hands out the next placement id. An id is never handed out twice.
    pub fn alloc_placement_id(&mut self) -> (id: u32)
        requires
            following(old(self)@.next, old(self)@.base) <= u32::MAX,
        ensures
            id == following(old(self)@.next, old(self)@.base),
            final(self)@ == (Book { next: id, ..old(self)@ }),
    {
        let top: u32 = if self.next < self.base {
            self.base
        } else {
            self.next
        };
        self.next = top + 1;
        self.next
    }

    /// Starts a tick: nothing has been seen yet.
    pub fn begin(&mut self)
        ensures
            final(self)@ == old(self)@.begun(),
    {
        self.seen = HashSet::new();
    }

    /// Notes that a key is on screen this tick.
    pub fn mark(&mut self, key: u128)
        ensures
            final(self)@ == old(self)@.marked(key),
    {
        self.seen.insert(key);
    }

    /// Makes sure that a key has a slot, held for its whole life, and returns it.
    pub fn claim(&mut self, key: u128) -> (slot: Slot)
        requires
            old(self)@.wf(),
            old(self)@.has_room(key),
        ensures
            final(self)@ == old(self)@.claimed(key),
            final(self)@.wf(),
            slot == final(self)@.slots[key],
    {
        match self.slots.get(&key) {
            Some(slot) => *slot,
            None => {
                let placement_id: u32 = self.alloc_placement_id();
                let slot = Slot { placement_id, cur_img_id: 0, last_geom: None };
                self.slots.insert(key, slot);
                slot
            },
        }
    }

    /// Shows an image at a place in the slot of a key, sending only what changed.
    /// Returns whether a placement was sent.
    pub fn show(&mut self, buf: &mut Vec<u8>, key: u128, img_id: u32, geom: Geom) -> (sent: bool)
        requires
            old(self)@.wf(),
            old(self)@.has_room(key),
        ensures
            final(self)@ == old(self)@.shown(key, img_id, geom),
            final(self)@.wf(),
            final(buf)@ == old(buf)@ + stream(
                show_packets(old(self)@.claimed(key).slots[key], img_id, geom),
            ),
            sent == ({
                let slot = old(self)@.claimed(key).slots[key];
                slot.cur_img_id != img_id || slot.last_geom != Some(geom)
            }),
    {
        let slot = self.claim(key);
        self.mark(key);
        let ghost mut sent_packets: Seq<Packet> = Seq::empty();
        let img_changed = slot.cur_img_id != img_id;
        if img_changed && slot.cur_img_id != 0 {
            proto::delete_placement(buf, slot.cur_img_id, slot.placement_id);
            proof {
                let p = Packet::Delete {
                    img_id: slot.cur_img_id,
                    placement_id: slot.placement_id,
                };
                stream_push(sent_packets, p);
                sent_packets = sent_packets.push(p);
            }
        }
        assert(buf@ == old(buf)@ + stream(sent_packets));
        let geom_changed = match slot.last_geom {
            Some(last) => last != geom,
            None => true,
        };
        if img_changed || geom_changed {
            proto::cursor_to(buf, geom.row, geom.col);
            proto::place_scaled(
                buf,
                img_id,
                slot.placement_id,
                geom.z,
                geom.cols,
                geom.rows,
                geom.xoff,
                geom.yoff,
            );
            proof {
                let c = Packet::Cursor { row: geom.row, col: geom.col };
                let p = Packet::Place {
                    img_id,
                    placement_id: slot.placement_id,
                    z: geom.z,
                    cols: geom.cols,
                    rows: geom.rows,
                    xoff: geom.xoff,
                    yoff: geom.yoff,
                };
                stream_push(sent_packets, c);
                stream_push(sent_packets.push(c), p);
                sent_packets = sent_packets.push(c).push(p);
            }
        }
        assert(sent_packets =~= show_packets(slot, img_id, geom));
        self.slots.insert(
            key,
            Slot { placement_id: slot.placement_id, cur_img_id: img_id, last_geom: Some(geom) },
        );
        img_changed || geom_changed
    }

    /// Does every placement id belong to one slot?
    ///
    /// This is the anti-ghosting invariant, exposed so it can be asserted rather than
    /// assumed.
    pub fn ids_are_unique(&self) -> (b: bool)
        ensures
            b == distinct_ids(self@.slots),
    {
        let mut ids: HashSet<u32> = HashSet::new();
        let keys = self.slots.keys();
        let ghost all = keys.remaining().unref();
        for k in it: keys
            invariant
                it.seq().unref() == all,
                all.to_set() == self.slots@.dom(),
                it.seq().no_duplicates(),
                forall|id: u32| #[trigger]
                    ids@.contains(id) <==> exists|j: int|
                        0 <= j < it.index() && self.slots@[#[trigger] all[j]].placement_id == id,
                forall|i: int, j: int|
                    0 <= i < j < it.index() ==> self.slots@[#[trigger] all[i]].placement_id
                        != self.slots@[#[trigger] all[j]].placement_id,
        {
            let ghost n = it.index() as int;
            assert(all[n] == *k);
            assert(all.to_set().contains(*k)) by {
                assert(all.contains(all[n]));
            }
            if let Some(slot) = self.slots.get(k) {
                if !ids.insert(slot.placement_id) {
                    proof {
                        let j = choose|j: int|
                            0 <= j < n && self.slots@[#[trigger] all[j]].placement_id
                                == slot.placement_id;
                        assert(all.contains(all[j]));
                        assert(self.slots@.contains_key(all[j]));
                        assert(it.seq()[j] != it.seq()[n]);
                    }
                    return false;
                }
            }
        }
        proof {
            assert forall|j: u128, k: u128| #[trigger]
                self.slots@.contains_key(j) && #[trigger] self.slots@.contains_key(k)
                    && self.slots@[j].placement_id == self.slots@[k].placement_id implies j == k by {
                assert(all.to_set().contains(j) && all.to_set().contains(k));
                let a = choose|a: int| 0 <= a < all.len() && all[a] == j;
                let b = choose|b: int| 0 <= b < all.len() && all[b] == k;
                assert(all[a] == j && all[b] == k);
            }
        }
        true
    }

    /// The keys of the live slots that were not seen this tick.
    fn unseen(&self) -> (gone: Vec<u128>)
        ensures
            lists_unseen(self@, gone@),
    {
        let mut gone: Vec<u128> = Vec::new();
        let keys = self.slots.keys();
        let ghost all = keys.remaining().unref();
        for k in it: keys
            invariant
                it.seq().unref() == all,
                all.to_set() == self.slots@.dom(),
                it.seq().no_duplicates(),
                gone@.no_duplicates(),
                forall|x: u128| #[trigger]
                    gone@.contains(x) <==> !self.seen@.contains(x) && all.take(
                        it.index() as int,
                    ).contains(x),
        {
            let ghost i = it.index() as int;
            let ghost before = gone@;
            proof {
                assert(all[i] == *k);
                assert(all.take(i + 1) =~= all.take(i).push(*k));
                assert(!all.take(i).contains(*k)) by {
                    if all.take(i).contains(*k) {
                        let j = choose|j: int| 0 <= j < i && all.take(i)[j] == *k;
                        assert(it.seq()[j] == it.seq()[i]);
                    }
                }
                assert forall|x: u128| #[trigger] all.take(i + 1).contains(x) <==> all.take(
                    i,
                ).contains(x) || x == *k by {
                    contains_after_push(all.take(i), *k, x);
                }
            }
            if !self.seen.contains(k) {
                gone.push(*k);
                proof {
                    assert(!before.contains(*k));
                    assert forall|x: u128| #[trigger] gone@.contains(x) <==> before.contains(x)
                        || x == *k by {
                        contains_after_push(before, *k, x);
                    }
                }
            }
        }
        assert(all.take(all.len() as int) =~= all);
        gone
    }

    /// Removes every slot that was not seen this tick, taking its placement off the
    /// screen. Only the PLACEMENT goes: the shared image stays uploaded. Returns the
    /// keys in the order in which they were retired, which is unspecified.
    pub fn retire(&mut self, buf: &mut Vec<u8>) -> (gone: Vec<u128>)
        requires
            old(self)@.wf(),
        ensures
            final(self)@ == old(self)@.retired(),
            final(self)@.wf(),
            lists_unseen(old(self)@, gone@),
            final(buf)@ == old(buf)@ + stream(retire_packets(old(self)@.slots, gone@)),
    {
        let gone = self.unseen();
        let ghost start = buf@;
        let mut i: usize = 0;
        while i < gone.len()
            invariant
                i <= gone.len(),
                lists_unseen(old(self)@, gone@),
                self@ == (Book {
                    slots: old(self)@.slots.remove_keys(gone@.take(i as int).to_set()),
                    ..old(self)@
                }),
                buf@ == start + stream(retire_packets(old(self)@.slots, gone@.take(i as int))),
            decreases gone.len() - i,
        {
            let k: u128 = gone[i];
            let ghost upto = gone@.take(i as int);
            proof {
                assert(gone@.contains(k));
                assert(!upto.to_set().contains(k));
                assert(gone@.take(i + 1) =~= upto.push(k));
                assert(upto.push(k).drop_last() =~= upto);
                assert(upto.push(k).to_set() =~= upto.to_set().insert(k)) by {
                    assert forall|x: u128| #[trigger] upto.push(k).contains(x) <==> upto.contains(x)
                        || x == k by {
                        contains_after_push(upto, k, x);
                    }
                }
                assert(old(self)@.slots.remove_keys(upto.to_set().insert(k)) =~= old(
                    self,
                )@.slots.remove_keys(upto.to_set()).remove(k));
            }
            if let Some(slot) = self.slots.remove(&k) {
                if slot.cur_img_id != 0 {
                    proto::delete_placement(buf, slot.cur_img_id, slot.placement_id);
                    proof {
                        stream_push(
                            retire_packets(old(self)@.slots, upto),
                            Packet::Delete {
                                img_id: slot.cur_img_id,
                                placement_id: slot.placement_id,
                            },
                        );
                    }
                }
            }
            i += 1;
        }
        proof {
            assert(gone@.take(gone@.len() as int) =~= gone@);
            assert(old(self)@.slots.remove_keys(gone@.to_set()) =~= old(self)@.slots.restrict(
                old(self)@.seen,
            )) by {
                assert forall|x: u128| #[trigger] gone@.to_set().contains(x) <==> old(
                    self,
                )@.slots.contains_key(x) && !old(self)@.seen.contains(x) by {
                    assert(gone@.to_set().contains(x) == gone@.contains(x));
                }
            }
        }
        gone
    }
}

/// What a sequence holds after one more item.
proof fn contains_after_push(s: Seq<u128>, last: u128, x: u128)
    ensures
        s.push(last).contains(x) <==> s.contains(x) || x == last,
{
    if s.contains(x) {
        let j = choose|j: int| 0 <= j < s.len() && s[j] == x;
        assert(s.push(last)[j] == x);
    }
    assert(s.push(last)[s.len() as int] == last);
}

// ---- laws ---------------------------------------------------------------------------

/// A key is the entity's, and the piece's: either can be read off it again.
pub proof fn a_key_names_its_entity_and_piece(entity: u64, piece: u64)
    ensures
        key_of(entity, piece) / 0x1_0000_0000_0000_0000 == entity,
        key_of(entity, piece) % 0x1_0000_0000_0000_0000 == piece,
{
}

/// The next id is the least that is above the band's base and above the id handed out last.
pub proof fn the_next_id_is_the_least_new_one(next: u32, base: u32, id: int)
    ensures
        following(next, base) > next,
        following(next, base) > base,
        id > next && id > base ==> following(next, base) <= id,
{
}

/// What showing an image in a slot does to the table: the slot keeps its placement id, or
/// gets the next one if it is new; it shows the image at the place; it counts as seen; and no
/// other slot changes.
pub proof fn showing_changes_one_slot(b: Book, key: u128, img_id: u32, geom: Geom, other: u128)
    requires
        b.has_room(key),
        other != key,
    ensures
        ({
            let a = b.shown(key, img_id, geom);
            &&& a.slots.contains_key(key)
            &&& a.slots[key].cur_img_id == img_id
            &&& a.slots[key].last_geom == Some(geom)
            &&& b.slots.contains_key(key) ==> a.slots[key].placement_id
                == b.slots[key].placement_id && a.next == b.next
            &&& !b.slots.contains_key(key) ==> a.slots[key].placement_id == a.next && a.next
                > b.next && a.next > b.base
            &&& a.seen.contains(key)
            &&& a.seen.contains(other) == b.seen.contains(other)
            &&& a.slots.contains_key(other) == b.slots.contains_key(other)
            &&& b.slots.contains_key(other) ==> a.slots[other] == b.slots[other]
            &&& a.base == b.base
        }),
{
}

/// A tick starts with nothing seen, and ends with the slots that were seen, as they are, and
/// no others.
pub proof fn a_tick_keeps_what_it_saw(b: Book, key: u128)
    ensures
        !b.begun().seen.contains(key),
        b.begun().slots == b.slots,
        b.begun().next == b.next,
        b.retired().slots.contains_key(key) <==> b.slots.contains_key(key) && b.seen.contains(key),
        b.retired().slots.contains_key(key) ==> b.retired().slots[key] == b.slots[key],
        b.retired().next == b.next,
{
}

/// Showing the same image in the same place again sends nothing; a new place sends the
/// cursor and the placement, and another image sends them too, after the removal of the old
/// one, if there is an old one.
pub proof fn only_a_change_is_sent(slot: Slot, img_id: u32, geom: Geom)
    requires
        img_id != 0,
    ensures
        ({
            let ps = show_packets(slot, img_id, geom);
            let n = ps.len() as int;
            &&& slot.cur_img_id == img_id && slot.last_geom == Some(geom) ==> n == 0
            &&& slot.cur_img_id == img_id && slot.last_geom != Some(geom) ==> n == 2
            &&& slot.cur_img_id == 0 ==> n == 2
            &&& slot.cur_img_id != 0 && slot.cur_img_id != img_id ==> n == 3 && (ps[0] matches
                Packet::Delete { img_id: i, placement_id: p } && i == slot.cur_img_id && p
                == slot.placement_id)
            &&& n > 0 ==> ps[n - 2] == (Packet::Cursor { row: geom.row, col: geom.col }) && (ps[n
                - 1] matches Packet::Place { img_id: i, placement_id: p, z, cols, rows, xoff, yoff }
                && i == img_id && p == slot.placement_id && z == geom.z && cols == geom.cols && rows
                == geom.rows && xoff == geom.xoff && yoff == geom.yoff)
        }),
{
}

} // verus!
