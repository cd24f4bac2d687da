//! The laws of ticks that follow one another: a still scene costs no bytes, a slot keeps
//! its placement id for as long as it lives, the old image goes before the new one comes,
//! what is no longer drawn is taken off the screen once, and no pass touches what is
//! another's.

use vstd::prelude::*;

use crate::cache::Shelf;
use crate::ghosting::{
    an_empty_table_shows_nothing, faithful, other_bands_keep_the_screen, Tableau,
};
use crate::items::{
    a_tick_is_faithful, a_tick_shows_what_it_drew, distinct_slots, drawing_settles, gets_image,
    images_are_never_dropped, is_drawn, is_held, seen_as_drawn, shows, slots_stay_distinct, stays,
    turns_stay, Item,
};
use crate::pass::slots_show_uploads;
use crate::screen::{play, play_both, subject, Packet, Screen};
use crate::slots::{distinct_ids, lists_unseen, retire_packets, show_packets, Book, Slot};

verus! {

// ---- one item -----------------------------------------------------------------------

/// Drawing the same thing again is free: it uploads nothing, sends nothing and changes
/// nothing.
pub proof fn drawing_again_is_free(t: Tableau, it: Item)
    ensures
        !t.drew(it).uploads(it),
        !t.drew(it).places(it),
        t.drew(it).packets(it) == Seq::<Packet>::empty(),
        t.drew(it).drew(it) == t.drew(it),
{
    let u = t.drew(it);
    if let Some(id) = u.image_of(it) {
        assert(t.image_of(it) == Some(id));
        assert(u.knows(it));
        assert(u.packets(it) =~= Seq::<Packet>::empty());
    }
    assert(u.drew(it).book.slots =~= u.book.slots);
    assert(u.drew(it).book.seen =~= u.book.seen);
    assert(u.drew(it) =~= u);
}

/// Drawing a thing sends a placement or none. If it does, the last two packets move the
/// cursor to the thing's place and show the thing's image there, at its depth and size,
/// under the placement id of its slot, and nothing else is placed.
pub proof fn a_placement_is_two_packets(t: Tableau, it: Item)
    ensures
        ({
            let ps = t.packets(it);
            let n = ps.len() as int;
            if t.places(it) {
                let g = it.geom->0;
                &&& n >= 2
                &&& ps[n - 2] == (Packet::Cursor { row: g.row, col: g.col })
                &&& ps[n - 1] == (Packet::Place {
                    img_id: t.image_of(it)->0,
                    placement_id: t.book.claimed(it.slot).slots[it.slot].placement_id,
                    z: g.z,
                    cols: g.cols,
                    rows: g.rows,
                    xoff: g.xoff,
                    yoff: g.yoff,
                })
                &&& forall|i: int|
                    0 <= i < n - 2 ==> !((#[trigger] ps[i]) is Cursor) && !(ps[i] is Place)
            } else {
                forall|i: int|
                    0 <= i < n ==> !((#[trigger] ps[i]) is Cursor) && !(ps[i] is Place)
            }
        }),
{
}

// ---- still scenes -------------------------------------------------------------------

/// Whether two lists draw the same things: the same images at the same places in the same
/// slots. Their pixels may be available in the one and not in the other.
pub open spec fn same_things(a: Seq<Item>, b: Seq<Item>) -> bool {
    &&& a.len() == b.len()
    &&& forall|i: int|
        0 <= i < a.len() ==> {
            &&& (#[trigger] a[i]).slot == (#[trigger] b[i]).slot
            &&& a[i].key == b[i].key
            &&& a[i].geom == b[i].geom
            &&& a[i].keeps == b[i].keeps
        }
}

/// Whether the pixels of an item's image are available with it, or with one before it.
pub open spec fn has_pixels_by(its: Seq<Item>, i: int) -> bool {
    exists|h: int| 0 <= h <= i && (#[trigger] its[h]).key == its[i].key && its[h].picture is Some
}

/// Whether, of the things that share an image that is not uploaded, the first has its pixels
/// if any has. The others need none.
pub open spec fn pixels_come_first(t: Tableau, its: Seq<Item>) -> bool {
    forall|i: int, j: int|
        0 <= i < j < its.len() && (#[trigger] its[i]).key == (#[trigger] its[j]).key && !t.knows(
            its[i],
        ) && its[j].picture is Some ==> has_pixels_by(its, i)
}

/// Whether pixels that were not available the first time are not available the second time
/// either, but for images that are uploaded by then.
pub open spec fn nothing_arrived(t: Tableau, its: Seq<Item>, again: Seq<Item>) -> bool {
    forall|i: int|
        0 <= i < its.len() && (#[trigger] again[i]).picture is Some && !t.drew_all(its).knows(
            again[i],
        ) ==> its[i].picture is Some
}

/// Where pixels come first, no image goes up that an earlier item lacked.
proof fn no_image_comes_late(t: Tableau, mid: Tableau, its: Seq<Item>, i: int, n: int)
    requires
        pixels_come_first(t, its),
        0 <= i < n < its.len(),
        !t.knows(its[i]),
        !mid.knows(its[i]),
        forall|h: int|
            0 <= h < n && !mid.knows(#[trigger] its[h]) ==> its[h].picture is None
                || !mid.shelf.has_room(),
    ensures
        mid.uploads(its[n]) ==> its[i].key != its[n].key,
{
    if mid.uploads(its[n]) && its[i].key == its[n].key {
        assert(has_pixels_by(its, i));
        let h = choose|h: int|
            0 <= h <= i && (#[trigger] its[h]).key == its[i].key && its[h].picture is Some;
        assert(!mid.knows(its[h]));
    }
}

proof fn pixels_still_come_first(t: Tableau, its: Seq<Item>)
    requires
        its.len() > 0,
        pixels_come_first(t, its),
    ensures
        pixels_come_first(t, its.drop_last()),
{
    let rest = its.drop_last();
    assert forall|i: int, j: int|
        0 <= i < j < rest.len() && (#[trigger] rest[i]).key == (#[trigger] rest[j]).key
            && !t.knows(rest[i]) && rest[j].picture is Some implies has_pixels_by(rest, i) by {
        assert(rest[i] == its[i] && rest[j] == its[j]);
        assert(has_pixels_by(its, i));
        let h = choose|h: int|
            0 <= h <= i && (#[trigger] its[h]).key == its[i].key && its[h].picture is Some;
        assert(rest[h] == its[h]);
    }
}

/// Where pixels come first, an item has an image at its turn if it has one at the end, and
/// what has none is without pixels or without an id.
proof fn images_come_in_time(t: Tableau, its: Seq<Item>)
    requires
        pixels_come_first(t, its),
        t.shelf.images.dom().finite(),
    ensures
        forall|i: int|
            0 <= i < its.len() ==> (gets_image(t, its, i) <==> t.drew_all(its).knows(
                #[trigger] its[i],
            )),
        forall|i: int|
            0 <= i < its.len() && !t.drew_all(its).knows(#[trigger] its[i]) ==> its[i].picture is None
                || !t.drew_all(its).shelf.has_room(),
    decreases its.len(),
{
    if its.len() > 0 {
        let rest = its.drop_last();
        let n = its.len() - 1;
        let last = its[n];
        pixels_still_come_first(t, its);
        turns_stay(t, its);
        images_come_in_time(t, rest);
        images_are_never_dropped(t, rest);
        let mid = t.drew_all(rest);
        let end = mid.drew(last);
        assert(end == t.drew_all(its));
        assert forall|h: int| 0 <= h < n && !mid.knows(#[trigger] its[h]) implies its[h].picture is None
            || !mid.shelf.has_room() by {
            assert(rest[h] == its[h]);
        }
        assert forall|i: int| 0 <= i < its.len() implies (gets_image(t, its, i) <==> end.knows(
            #[trigger] its[i],
        )) && (!end.knows(its[i]) ==> its[i].picture is None || !end.shelf.has_room()) by {
            if i < n {
                assert(rest[i] == its[i]);
                assert(gets_image(t, rest, i) == gets_image(t, its, i));
                assert(gets_image(t, rest, i) <==> mid.knows(rest[i]));
                if !mid.knows(its[i]) {
                    no_image_comes_late(t, mid, its, i, n);
                }
            }
        }
    }
}

/// Whether drawing an item changes nothing that is seen: its slot shows it in its place, it
/// is without a place and without a slot, or it has no image.
spec fn settled(t: Tableau, it: Item) -> bool {
    if t.knows(it) {
        &&& t.book.slots.contains_key(it.slot) <==> it.geom is Some
        &&& !t.places(it)
    } else {
        !t.uploads(it)
    }
}

/// Whether the slots of `u` are those of `t` and new ones that show nothing.
spec fn only_blanks_more(t: Tableau, u: Tableau) -> bool {
    &&& u.shelf == t.shelf
    &&& forall|k: u128| #[trigger]
        u.book.slots.contains_key(k) ==> if t.book.slots.contains_key(k) {
            u.book.slots[k] == t.book.slots[k]
        } else {
            u.book.slots[k].cur_img_id == 0
        }
    &&& forall|k: u128| #[trigger]
        t.book.slots.contains_key(k) ==> u.book.slots.contains_key(k)
}

/// Redrawing what is settled sends nothing. An item has an image at its turn if it had one
/// before.
proof fn redrawing_is_free(t: Tableau, its: Seq<Item>)
    requires
        forall|i: int| 0 <= i < its.len() ==> settled(t, #[trigger] its[i]),
    ensures
        t.all_packets(its) == Seq::<Packet>::empty(),
        t.upload_count(its) == 0,
        t.place_count(its) == 0,
        only_blanks_more(t, t.drew_all(its)),
        forall|i: int|
            0 <= i < its.len() ==> (gets_image(t, its, i) <==> t.knows(#[trigger] its[i])),
    decreases its.len(),
{
    if its.len() > 0 {
        let rest = its.drop_last();
        let n = its.len() - 1;
        assert forall|i: int| 0 <= i < rest.len() implies settled(t, #[trigger] rest[i]) by {
            assert(rest[i] == its[i]);
        }
        turns_stay(t, its);
        redrawing_is_free(t, rest);
        let last = its[n];
        assert(settled(t, last));
        let mid = t.drew_all(rest);
        assert(mid.packets(last) =~= Seq::<Packet>::empty());
        assert(t.all_packets(its) =~= Seq::<Packet>::empty());
        assert forall|i: int| 0 <= i < its.len() implies (gets_image(t, its, i) <==> t.knows(
            #[trigger] its[i],
        )) by {
            if i < n {
                assert(gets_image(t, rest, i) == gets_image(t, its, i));
                assert(rest[i] == its[i]);
            }
        }
    }
}

proof fn blanks_retire_for_free(slots: Map<u128, Slot>, gone: Seq<u128>)
    requires
        forall|k: u128| #[trigger] gone.contains(k) ==> slots[k].cur_img_id == 0,
    ensures
        retire_packets(slots, gone) == Seq::<Packet>::empty(),
    decreases gone.len(),
{
    if gone.len() > 0 {
        let rest = gone.drop_last();
        assert forall|k: u128| #[trigger] rest.contains(k) implies slots[k].cur_img_id == 0 by {
            let j = choose|j: int| 0 <= j < rest.len() && rest[j] == k;
            assert(gone[j] == k);
            assert(gone.contains(k));
        }
        assert(gone.contains(gone.last()));
        blanks_retire_for_free(slots, rest);
    }
}

/// An item of a list with slots of its own is the only one in its slot.
proof fn one_item_per_slot(its: Seq<Item>, i: int, j: int)
    requires
        distinct_slots(its),
        0 <= i < its.len(),
        0 <= j < its.len(),
        its[i].slot == its[j].slot,
    ensures
        i == j,
{
    assert(!(i < j) || its[i].slot != its[j].slot);
    assert(!(j < i) || its[j].slot != its[i].slot);
}

/// After a tick, a thing is settled, if the next tick has no pixels that this one lacked.
proof fn a_tick_settles(t: Tableau, its: Seq<Item>, again: Seq<Item>)
    requires
        t.book.seen.is_empty(),
        t.shelf.images.dom().finite(),
        distinct_slots(its),
        pixels_come_first(t, its),
        same_things(its, again),
        nothing_arrived(t, its, again),
    ensures
        forall|i: int|
            0 <= i < again.len() ==> settled(
                t.drew_all(its).retired().begun(),
                #[trigger] again[i],
            ),
{
    drawing_settles(t, its);
    images_come_in_time(t, its);
    images_are_never_dropped(t, its);
    let one = t.drew_all(its);
    let two = one.retired().begun();
    assert forall|i: int| 0 <= i < again.len() implies settled(two, #[trigger] again[i]) by {
        let it = its[i];
        assert(it.slot == again[i].slot);
        assert(gets_image(t, its, i) <==> one.knows(it));
        if one.knows(it) {
            assert(shows(one, it));
            assert(is_held(t, its, it.slot) <==> it.geom is Some) by {
                if is_held(t, its, it.slot) {
                    let j = choose|j: int|
                        0 <= j < its.len() && (#[trigger] its[j]).slot == it.slot && stays(
                            t,
                            its,
                            j,
                        );
                    one_item_per_slot(its, i, j);
                }
                if it.geom is Some {
                    assert(stays(t, its, i) && its[i].slot == it.slot);
                }
            }
            assert(one.book.seen.contains(it.slot) <==> it.geom is Some);
        } else {
            assert(!one.knows(again[i]));
            assert(it.picture is None || !one.shelf.has_room());
            assert(!two.uploads(again[i]));
        }
    }
}

/// Whether a tick that draws a list of items comes to nothing: no upload, no placement,
/// nothing taken off the screen, and the same images and slots afterwards.
pub open spec fn stands_still(t: Tableau, its: Seq<Item>, gone: Seq<u128>) -> bool {
    let drawn = t.begun().drew_all(its);
    &&& t.begun().all_packets(its) == Seq::<Packet>::empty()
    &&& t.begun().upload_count(its) == 0
    &&& t.begun().place_count(its) == 0
    &&& retire_packets(drawn.book.slots, gone) == Seq::<Packet>::empty()
    &&& drawn.retired().shelf == t.shelf
    &&& drawn.retired().book.slots == t.book.slots
}

/// A still scene costs zero bytes. A tick that draws the same things as the tick before,
/// with no pixels that then were missing, uploads nothing, places nothing and takes
/// nothing off the screen, and it leaves the images and the slots as they were. Only things
/// without a place come and go, unseen.
pub proof fn a_still_scene_is_free(t: Tableau, its: Seq<Item>, again: Seq<Item>, gone: Seq<u128>)
    requires
        t.shelf.wf(),
        distinct_slots(its),
        pixels_come_first(t, its),
        same_things(its, again),
        nothing_arrived(t.begun(), its, again),
        lists_unseen(t.begun().drew_all(its).retired().begun().drew_all(again).book, gone),
    ensures
        stands_still(t.begun().drew_all(its).retired(), again, gone),
        (forall|i: int| 0 <= i < its.len() ==> (#[trigger] its[i]).geom is Some) ==> gone.len()
            == 0,
{
    let zero = t.begun();
    let one = zero.drew_all(its);
    let two = one.retired().begun();
    let three = two.drew_all(again);
    assert forall|i: int, j: int|
        0 <= i < j < its.len() && (#[trigger] its[i]).key == (#[trigger] its[j]).key && !zero.knows(
            its[i],
        ) && its[j].picture is Some implies has_pixels_by(its, i) by {
        assert(!t.knows(its[i]));
    }
    a_tick_settles(zero, its, again);
    redrawing_is_free(two, again);
    assert(distinct_slots(again)) by {
        assert forall|i: int, j: int| 0 <= i < j < again.len() implies (#[trigger] again[i]).slot
            != (#[trigger] again[j]).slot by {
            assert(its[i].slot == again[i].slot && its[j].slot == again[j].slot);
        }
    }
    drawing_settles(zero, its);
    drawing_settles(two, again);
    images_come_in_time(zero, its);
    assert forall|k: u128| is_held(zero, its, k) implies #[trigger] is_held(two, again, k) by {
        let i = choose|i: int|
            0 <= i < its.len() && (#[trigger] its[i]).slot == k && stays(zero, its, i);
        assert(its[i].slot == again[i].slot);
        assert(gets_image(zero, its, i) <==> one.knows(its[i]));
        assert(gets_image(two, again, i) <==> two.knows(again[i]));
        assert(stays(two, again, i));
    }
    assert forall|k: u128| #[trigger] two.book.slots.contains_key(k) implies three.book.seen.contains(
        k,
    ) by {
        assert(one.book.seen.contains(k));
        assert(is_held(two, again, k));
    }
    assert forall|k: u128|
        #![trigger three.book.slots.contains_key(k)]
        three.book.slots.contains_key(k) && !two.book.slots.contains_key(k) implies exists|i: int|
        0 <= i < again.len() && (#[trigger] again[i]).slot == k && two.knows(again[i])
            && again[i].geom is None by {
        let i = choose|i: int|
            0 <= i < again.len() && (#[trigger] again[i]).slot == k && gets_image(two, again, i);
        assert(settled(two, again[i]));
        assert(two.knows(again[i]));
    }
    assert forall|k: u128| #[trigger]
        three.book.slots.contains_key(k) && three.book.seen.contains(k) implies two.book.slots.contains_key(
        k,
    ) by {
        assert(is_held(two, again, k));
        let j = choose|j: int|
            0 <= j < again.len() && (#[trigger] again[j]).slot == k && stays(two, again, j);
        if !two.book.slots.contains_key(k) {
            let i = choose|i: int|
                0 <= i < again.len() && (#[trigger] again[i]).slot == k && two.knows(again[i])
                    && again[i].geom is None;
            one_item_per_slot(again, i, j);
            assert(gets_image(two, again, i) <==> two.knows(again[i]));
        }
    }
    assert forall|k: u128| #[trigger] gone.contains(k) implies three.book.slots[k].cur_img_id == 0
        && !two.book.slots.contains_key(k) by {
        assert(three.book.slots.contains_key(k) && !three.book.seen.contains(k));
    }
    blanks_retire_for_free(three.book.slots, gone);
    assert(three.retired().book.slots =~= two.book.slots);
    if (forall|i: int| 0 <= i < its.len() ==> (#[trigger] its[i]).geom is Some) && gone.len() > 0 {
        let k = gone[0];
        assert(gone.contains(k));
        assert(three.book.slots.contains_key(k));
        let i = choose|i: int|
            0 <= i < again.len() && (#[trigger] again[i]).slot == k && two.knows(again[i])
                && again[i].geom is None;
        assert(its[i].slot == again[i].slot);
    }
}

/// Lists drawn one after the other draw the same things if each does.
pub(crate) proof fn same_things_join(a: Seq<Item>, b: Seq<Item>, c: Seq<Item>, d: Seq<Item>)
    requires
        same_things(a, b),
        same_things(c, d),
    ensures
        same_things(a + c, b + d),
{
    let (x, y) = (a + c, b + d);
    assert forall|i: int| 0 <= i < x.len() implies {
        &&& (#[trigger] x[i]).slot == (#[trigger] y[i]).slot
        &&& x[i].key == y[i].key
        &&& x[i].geom == y[i].geom
        &&& x[i].keeps == y[i].keeps
    } by {
        if i < a.len() {
            assert(x[i] == a[i] && y[i] == b[i]);
        } else {
            assert(x[i] == c[i - a.len()] && y[i] == d[i - a.len()]);
        }
    }
}

// ---- consecutive ticks --------------------------------------------------------------

/// Whether a packet is sent once.
pub open spec fn sent_once(ps: Seq<Packet>, p: Packet) -> bool {
    exists|m: int| 0 <= m < ps.len() && #[trigger] ps[m] == p && alone_at(ps, m)
}

/// Whether no packet is the same as that at an index.
pub open spec fn alone_at(ps: Seq<Packet>, m: int) -> bool {
    forall|n: int| 0 <= n < ps.len() && n != m ==> #[trigger] ps[n] != ps[m]
}

/// Whether a packet shows an image under a placement id.
pub open spec fn puts(p: Packet, img: u32, pid: u32) -> bool {
    p matches Packet::Place { img_id, placement_id, .. } && img_id == img && placement_id == pid
}

/// Whether one image's placement is deleted, and after that another image is placed under
/// the same placement id.
pub open spec fn replaced_in(ps: Seq<Packet>, from: u32, to: u32, pid: u32) -> bool {
    exists|m: int, n: int|
        #![trigger ps[m], ps[n]]
        0 <= m < n < ps.len() && ps[m] == (Packet::Delete { img_id: from, placement_id: pid })
            && puts(ps[n], to, pid)
}

/// The placement id that a packet takes off the screen or puts on it.
spec fn placement_of(p: Packet) -> Option<u32> {
    match p {
        Packet::Place { placement_id, .. } => Some(placement_id),
        Packet::Delete { placement_id, .. } => Some(placement_id),
        _ => None,
    }
}

/// Whether a placement id is that of a slot that was seen.
spec fn seen_under(t: Tableau, pid: u32) -> bool {
    exists|k: u128| #[trigger]
        t.book.slots.contains_key(k) && t.book.seen.contains(k) && t.book.slots[k].placement_id
            == pid
}

/// Drawing keeps the slots sound: placement ids stay unique, and a slot keeps its own.
proof fn slots_stay_sound(t: Tableau, its: Seq<Item>)
    requires
        t.book.wf(),
        t.fits_all(its),
    ensures
        t.drew_all(its).book.wf(),
        forall|k: u128| #[trigger]
            t.book.slots.contains_key(k) ==> {
                &&& t.drew_all(its).book.slots.contains_key(k)
                &&& t.drew_all(its).book.slots[k].placement_id == t.book.slots[k].placement_id
            },
    decreases its.len(),
{
    if its.len() > 0 {
        let rest = its.drop_last();
        slots_stay_sound(t, rest);
        let mid = t.drew_all(rest);
        let end = mid.drew(its.last());
        assert(end == t.drew_all(its));
        assert(end.book.wf());
    }
}

/// What drawing places or deletes belongs to a slot that was seen.
proof fn drawing_touches_seen_slots(t: Tableau, its: Seq<Item>)
    requires
        t.book.wf(),
        t.fits_all(its),
    ensures
        forall|m: int|
            0 <= m < t.all_packets(its).len() ==> (placement_of(
                #[trigger] t.all_packets(its)[m],
            ) matches Some(pid) ==> seen_under(t.drew_all(its), pid)),
    decreases its.len(),
{
    if its.len() > 0 {
        let rest = its.drop_last();
        let last = its.last();
        drawing_touches_seen_slots(t, rest);
        slots_stay_sound(t, rest);
        let mid = t.drew_all(rest);
        let end = mid.drew(last);
        let ps = t.all_packets(its);
        let before = t.all_packets(rest);
        assert forall|m: int| 0 <= m < ps.len() implies (placement_of(
            #[trigger] ps[m],
        ) matches Some(pid) ==> seen_under(end, pid)) by {
            if let Some(pid) = placement_of(ps[m]) {
                if m < before.len() {
                    assert(ps[m] == before[m]);
                    let k = choose|k: u128| #[trigger]
                        mid.book.slots.contains_key(k) && mid.book.seen.contains(k)
                            && mid.book.slots[k].placement_id == pid;
                    assert(end.book.slots.contains_key(k) && end.book.seen.contains(k)
                        && end.book.slots[k].placement_id == pid);
                } else {
                    assert(ps[m] == mid.packets(last)[m - before.len()]);
                    let k = last.slot;
                    assert(end.book.slots.contains_key(k) && end.book.seen.contains(k)
                        && end.book.slots[k].placement_id == pid);
                }
            }
        }
    }
}

/// A slot that shows another image than before was emptied first.
proof fn drawing_empties_first(t: Tableau, its: Seq<Item>, i: int)
    requires
        distinct_slots(its),
        0 <= i < its.len(),
        gets_image(t, its, i),
        its[i].geom is Some,
        t.book.slots.contains_key(its[i].slot),
        t.book.slots[its[i].slot].cur_img_id != 0,
        t.drew_all(its).book.slots[its[i].slot].cur_img_id
            != t.book.slots[its[i].slot].cur_img_id,
    ensures
        replaced_in(
            t.all_packets(its),
            t.book.slots[its[i].slot].cur_img_id,
            t.drew_all(its).book.slots[its[i].slot].cur_img_id,
            t.book.slots[its[i].slot].placement_id,
        ),
    decreases its.len(),
{
    let rest = its.drop_last();
    let n = its.len() - 1;
    let last = its[n];
    let k = its[i].slot;
    let slot = t.book.slots[k];
    let mid = t.drew_all(rest);
    let end = mid.drew(last);
    let before = t.all_packets(rest);
    let ps = t.all_packets(its);
    let new = end.book.slots[k].cur_img_id;
    turns_stay(t, its);
    slots_stay_distinct(its);
    drawing_settles(t, rest);
    assert(end == t.drew_all(its));
    if i < n {
        assert(rest[i] == its[i]);
        assert(k != last.slot);
        assert(gets_image(t, rest, i) == gets_image(t, its, i));
        assert(mid.book.slots.contains_key(k));
        drawing_empties_first(t, rest, i);
        let (a, b) = choose|a: int, b: int|
            #![trigger before[a], before[b]]
            0 <= a < b < before.len() && before[a] == (Packet::Delete {
                img_id: slot.cur_img_id,
                placement_id: slot.placement_id,
            }) && puts(before[b], new, slot.placement_id);
        assert(ps[a] == before[a] && ps[b] == before[b]);
    } else {
        assert(!is_drawn(t, rest, k)) by {
            if is_drawn(t, rest, k) {
                let j = choose|j: int|
                    0 <= j < rest.len() && (#[trigger] rest[j]).slot == k && gets_image(t, rest, j);
                assert(rest[j] == its[j]);
                one_item_per_slot(its, i, j);
            }
        }
        assert(mid.book.slots[k] == slot);
        let id = mid.image_of(last)->0;
        let own = mid.packets(last);
        let shown = show_packets(slot, id, last.geom->0);
        let ups = (own.len() - shown.len()) as int;
        assert(own.skip(ups) =~= shown);
        assert(shown[0] == own[ups] && shown[2] == own[ups + 2]);
        let at = before.len() + ups;
        assert(ps[at] == shown[0] && ps[at + 2] == shown[2]);
        assert(ps[at] == (Packet::Delete {
            img_id: slot.cur_img_id,
            placement_id: slot.placement_id,
        }));
        assert(puts(ps[at + 2], new, slot.placement_id));
    }
}

/// The packet that takes a slot off the screen.
pub open spec fn removal(slot: Slot) -> Packet {
    Packet::Delete { img_id: slot.cur_img_id, placement_id: slot.placement_id }
}

/// What is deleted at the end of a tick is what slots showed.
proof fn retirements_show_images(slots: Map<u128, Slot>, gone: Seq<u128>)
    ensures
        forall|m: int|
            0 <= m < retire_packets(slots, gone).len() ==> exists|j: int|
                0 <= j < gone.len() && (#[trigger] retire_packets(slots, gone)[m]) == removal(
                    slots[#[trigger] gone[j]],
                ) && slots[gone[j]].cur_img_id != 0,
    decreases gone.len(),
{
    if gone.len() > 0 {
        let rest = gone.drop_last();
        retirements_show_images(slots, rest);
        let before = retire_packets(slots, rest);
        let ps = retire_packets(slots, gone);
        assert forall|m: int| 0 <= m < ps.len() implies exists|j: int|
            0 <= j < gone.len() && (#[trigger] ps[m]) == removal(slots[#[trigger] gone[j]])
                && slots[gone[j]].cur_img_id != 0 by {
            if m < before.len() {
                let j = choose|j: int|
                    0 <= j < rest.len() && before[m] == removal(slots[#[trigger] rest[j]])
                        && slots[rest[j]].cur_img_id != 0;
                assert(gone[j] == rest[j]);
                assert(ps[m] == removal(slots[gone[j]]));
            } else {
                assert(ps[m] == removal(slots[gone[gone.len() - 1]]));
            }
        }
    }
}

/// Retiring slots deletes the placement of each that shows an image once.
proof fn retiring_deletes_each_once(slots: Map<u128, Slot>, gone: Seq<u128>, k: u128)
    requires
        gone.no_duplicates(),
        gone.contains(k),
        slots[k].cur_img_id != 0,
        distinct_ids(slots),
        forall|x: u128| #[trigger] gone.contains(x) ==> slots.contains_key(x),
    ensures
        sent_once(retire_packets(slots, gone), removal(slots[k])),
    decreases gone.len(),
{
    let rest = gone.drop_last();
    let last = gone.last();
    let before = retire_packets(slots, rest);
    let ps = retire_packets(slots, gone);
    let p = removal(slots[k]);
    let i = choose|i: int| 0 <= i < gone.len() && gone[i] == k;
    assert forall|x: u128| #[trigger] rest.contains(x) implies slots.contains_key(x) by {
        let j = choose|j: int| 0 <= j < rest.len() && rest[j] == x;
        assert(gone[j] == x);
        assert(gone.contains(x));
    }
    assert(gone.contains(last));
    if k == last {
        retirements_show_images(slots, rest);
        let n = before.len() as int;
        assert(ps[n] == p);
        assert forall|m: int| 0 <= m < ps.len() && m != n implies #[trigger] ps[m] != ps[n] by {
            assert(ps[m] == before[m]);
            let j = choose|j: int|
                0 <= j < rest.len() && before[m] == removal(slots[#[trigger] rest[j]])
                    && slots[rest[j]].cur_img_id != 0;
            assert(rest.contains(rest[j]));
            assert(gone[j] == rest[j] && gone[gone.len() - 1] == k);
            assert(slots.contains_key(rest[j]) && slots.contains_key(k));
        }
        assert(alone_at(ps, n));
    } else {
        assert(rest[i] == k);
        retiring_deletes_each_once(slots, rest, k);
        let m = choose|m: int| 0 <= m < before.len() && #[trigger] before[m] == p && alone_at(before, m);
        assert(ps[m] == p);
        assert forall|n: int| 0 <= n < ps.len() && n != m implies #[trigger] ps[n] != ps[m] by {
            if n < before.len() {
                assert(ps[n] == before[n]);
            } else {
                assert(ps[n] == removal(slots[last]));
                assert(slots.contains_key(last) && slots.contains_key(k));
            }
        }
        assert(alone_at(ps, m));
    }
}

/// Everything that a tick sends: what drawing sends, and then what retiring does.
pub open spec fn tick_packets(t: Tableau, its: Seq<Item>, gone: Seq<u128>) -> Seq<Packet> {
    t.begun().all_packets(its) + retire_packets(t.begun().drew_all(its).book.slots, gone)
}

/// The images and slots after a tick.
pub open spec fn ticked(t: Tableau, its: Seq<Item>) -> Tableau {
    t.begun().drew_all(its).retired()
}

/// Whether a tick carries the slots of the tick before over as it should. The slots that
/// are held stay, and no others. A slot that stays keeps its placement id. Where it shows
/// another image than before, the old placement is deleted before the new one is placed. A
/// slot that goes is taken off the screen, once.
pub open spec fn slots_carry_over(t: Tableau, its: Seq<Item>, gone: Seq<u128>) -> bool {
    let end = ticked(t, its);
    let ps = tick_packets(t, its, gone);
    &&& forall|k: u128| #[trigger]
        end.book.slots.contains_key(k) ==> is_held(t.begun(), its, k)
    &&& forall|k: u128| #[trigger]
        t.book.slots.contains_key(k) && is_held(t.begun(), its, k) ==> end.book.slots.contains_key(k)
    &&& forall|k: u128| #[trigger]
        t.book.slots.contains_key(k) && end.book.slots.contains_key(k)
            ==> end.book.slots[k].placement_id == t.book.slots[k].placement_id
    &&& forall|k: u128| #[trigger]
        t.book.slots.contains_key(k) && end.book.slots.contains_key(k)
            && t.book.slots[k].cur_img_id != 0 && end.book.slots[k].cur_img_id
            != t.book.slots[k].cur_img_id ==> replaced_in(
            ps,
            t.book.slots[k].cur_img_id,
            end.book.slots[k].cur_img_id,
            t.book.slots[k].placement_id,
        )
    &&& forall|k: u128| #[trigger]
        t.book.slots.contains_key(k) && !end.book.slots.contains_key(k)
            && t.book.slots[k].cur_img_id != 0 ==> sent_once(ps, removal(t.book.slots[k]))
}

/// Every tick carries the slots of the tick before over as it should: a slot that goes on
/// being drawn keeps its placement id, the old image goes before the new one comes, and a
/// slot that is no longer drawn is taken off the screen, once.
pub proof fn slots_over_a_tick(t: Tableau, its: Seq<Item>, gone: Seq<u128>)
    requires
        t.book.wf(),
        t.begun().fits_all(its),
        distinct_slots(its),
        lists_unseen(t.begun().drew_all(its).book, gone),
    ensures
        slots_carry_over(t, its, gone),
{
    let zero = t.begun();
    let drawn = zero.drew_all(its);
    let end = drawn.retired();
    let all = zero.all_packets(its);
    let last = retire_packets(drawn.book.slots, gone);
    let ps = all + last;
    slots_stay_sound(zero, its);
    drawing_settles(zero, its);
    drawing_touches_seen_slots(zero, its);
    assert forall|k: u128| #[trigger] end.book.slots.contains_key(k) implies is_held(zero, its, k) by {
        assert(drawn.book.seen.contains(k));
    }
    assert forall|k: u128| #[trigger]
        t.book.slots.contains_key(k) && is_held(zero, its, k) implies end.book.slots.contains_key(
        k,
    ) by {
        assert(zero.book.slots.contains_key(k));
        assert(drawn.book.seen.contains(k));
    }
    assert forall|k: u128| #[trigger]
        t.book.slots.contains_key(k) && end.book.slots.contains_key(k) implies end.book.slots[k].placement_id
        == t.book.slots[k].placement_id by {
        assert(zero.book.slots.contains_key(k));
    }
    assert forall|k: u128| #[trigger]
        t.book.slots.contains_key(k) && end.book.slots.contains_key(k)
            && t.book.slots[k].cur_img_id != 0 && end.book.slots[k].cur_img_id
            != t.book.slots[k].cur_img_id implies replaced_in(
        ps,
        t.book.slots[k].cur_img_id,
        end.book.slots[k].cur_img_id,
        t.book.slots[k].placement_id,
    ) by {
        a_changed_slot_was_drawn(zero, its, k);
        let i = choose|i: int|
            0 <= i < its.len() && (#[trigger] its[i]).slot == k && gets_image(zero, its, i)
                && its[i].geom is Some;
        drawing_empties_first(zero, its, i);
        let (from, to, pid) = (
            t.book.slots[k].cur_img_id,
            end.book.slots[k].cur_img_id,
            t.book.slots[k].placement_id,
        );
        let (a, b) = choose|a: int, b: int|
            #![trigger all[a], all[b]]
            0 <= a < b < all.len() && all[a] == (Packet::Delete { img_id: from, placement_id: pid })
                && puts(all[b], to, pid);
        assert(ps[a] == all[a] && ps[b] == all[b]);
    }
    assert forall|k: u128| #[trigger]
        t.book.slots.contains_key(k) && !end.book.slots.contains_key(k)
            && t.book.slots[k].cur_img_id != 0 implies sent_once(ps, removal(t.book.slots[k])) by {
        assert(zero.book.slots.contains_key(k));
        assert(drawn.book.slots.contains_key(k) && !drawn.book.seen.contains(k));
        if drawn.book.slots[k] != t.book.slots[k] {
            a_changed_slot_was_drawn(zero, its, k);
            let i = choose|i: int|
                0 <= i < its.len() && (#[trigger] its[i]).slot == k && gets_image(zero, its, i)
                    && its[i].geom is Some;
            assert(stays(zero, its, i));
            assert(is_held(zero, its, k));
        }
        let p = removal(t.book.slots[k]);
        assert(gone.contains(k));
        retiring_deletes_each_once(drawn.book.slots, gone, k);
        let m = choose|m: int| 0 <= m < last.len() && #[trigger] last[m] == p && alone_at(last, m);
        let at = all.len() + m;
        assert(ps[at] == p);
        assert forall|n: int| 0 <= n < ps.len() && n != at implies #[trigger] ps[n] != ps[at] by {
            if n < all.len() {
                assert(ps[n] == all[n]);
                if all[n] == p {
                    let pid = t.book.slots[k].placement_id;
                    assert(placement_of(all[n]) == Some(pid));
                    assert(seen_under(drawn, pid));
                    let j = choose|j: u128| #[trigger]
                        drawn.book.slots.contains_key(j) && drawn.book.seen.contains(j)
                            && drawn.book.slots[j].placement_id == pid;
                    assert(drawn.book.slots.contains_key(j) && drawn.book.slots.contains_key(k));
                }
            } else {
                assert(ps[n] == last[n - all.len()]);
            }
        }
        assert(alone_at(ps, at));
    }
}

/// A slot that changed is that of an item that has an image and a place.
proof fn a_changed_slot_was_drawn(t: Tableau, its: Seq<Item>, k: u128)
    requires
        distinct_slots(its),
        t.book.slots.contains_key(k),
        t.drew_all(its).book.slots[k] != t.book.slots[k],
    ensures
        exists|i: int|
            0 <= i < its.len() && (#[trigger] its[i]).slot == k && gets_image(t, its, i)
                && its[i].geom is Some,
    decreases its.len(),
{
    if its.len() > 0 {
        let rest = its.drop_last();
        let n = its.len() - 1;
        let last = its[n];
        let mid = t.drew_all(rest);
        assert(t.drew_all(its) == mid.drew(last));
        turns_stay(t, its);
        slots_stay_distinct(its);
        drawing_settles(t, rest);
        assert(mid.book.slots.contains_key(k));
        if mid.book.slots[k] != t.book.slots[k] {
            a_changed_slot_was_drawn(t, rest, k);
            let i = choose|i: int|
                0 <= i < rest.len() && (#[trigger] rest[i]).slot == k && gets_image(t, rest, i)
                    && rest[i].geom is Some;
            assert(gets_image(t, rest, i) == gets_image(t, its, i));
            assert(its[i] == rest[i]);
        } else {
            assert(its[n].slot == k && gets_image(t, its, n) && its[n].geom is Some);
        }
    }
}

// ---- runs ---------------------------------------------------------------------------

/// A tick of a pass: what it draws, and the order in which it retires the rest.
pub struct Tick {
    pub its: Seq<Item>,
    pub gone: Seq<u128>,
}

/// Whether a pass can do a tick: every thing has a slot of its own, the placement ids do not
/// run out, and what is retired is what was not seen.
pub open spec fn may_tick(t: Tableau, tick: Tick) -> bool {
    &&& distinct_slots(tick.its)
    &&& t.begun().fits_all(tick.its)
    &&& lists_unseen(t.begun().drew_all(tick.its).book, tick.gone)
}

/// The images and slots after several ticks.
pub open spec fn after_ticks(t: Tableau, ticks: Seq<Tick>) -> Tableau
    decreases ticks.len(),
{
    if ticks.len() == 0 {
        t
    } else {
        ticked(after_ticks(t, ticks.drop_last()), ticks.last().its)
    }
}

/// Everything that several ticks send.
pub open spec fn run_packets(t: Tableau, ticks: Seq<Tick>) -> Seq<Packet>
    decreases ticks.len(),
{
    if ticks.len() == 0 {
        Seq::empty()
    } else {
        run_packets(t, ticks.drop_last()) + tick_packets(
            after_ticks(t, ticks.drop_last()),
            ticks.last().its,
            ticks.last().gone,
        )
    }
}

/// Whether a pass can do several ticks, one after the other.
pub open spec fn may_run(t: Tableau, ticks: Seq<Tick>) -> bool
    decreases ticks.len(),
{
    ticks.len() == 0 || (may_run(t, ticks.drop_last()) && may_tick(
        after_ticks(t, ticks.drop_last()),
        ticks.last(),
    ))
}

/// Whether every image of one cache is in another, under the same id, and there are at
/// least as many.
pub open spec fn no_image_dropped(t: Tableau, u: Tableau) -> bool {
    &&& t.shelf.images.len() <= u.shelf.images.len()
    &&& forall|k: Seq<char>| #[trigger]
        t.shelf.images.contains_key(k) ==> u.shelf.images.contains_key(k) && u.shelf.images[k]
            == t.shelf.images[k]
}

proof fn a_run_stays_faithful(s: Screen, t: Tableau, ticks: Seq<Tick>)
    requires
        t.wf(),
        faithful(s, t),
        may_run(t, ticks),
    ensures
        after_ticks(t, ticks).wf(),
        after_ticks(t, ticks).band() == t.band(),
        faithful(play(s, run_packets(t, ticks)), after_ticks(t, ticks)),
    decreases ticks.len(),
{
    if ticks.len() > 0 {
        let rest = ticks.drop_last();
        let now = after_ticks(t, rest);
        let tick = ticks.last();
        a_run_stays_faithful(s, t, rest);
        a_tick_is_faithful(play(s, run_packets(t, rest)), now, tick.its, tick.gone);
        play_both(s, run_packets(t, rest), tick_packets(now, tick.its, tick.gone));
    }
}

/// The first ticks of a run are a run.
proof fn a_run_begins_with_runs(t: Tableau, ticks: Seq<Tick>, n: int)
    requires
        may_run(t, ticks),
        0 <= n <= ticks.len(),
    ensures
        may_run(t, ticks.take(n)),
        n < ticks.len() ==> may_tick(after_ticks(t, ticks.take(n)), ticks[n]),
    decreases ticks.len() - n,
{
    if n == ticks.len() {
        assert(ticks.take(n) =~= ticks);
    } else {
        a_run_begins_with_runs(t, ticks, n + 1);
        assert(ticks.take(n + 1).drop_last() =~= ticks.take(n));
        assert(ticks.take(n + 1).last() == ticks[n]);
    }
}

/// What holds of every tick of every run, from a pass that has drawn nothing and a terminal
/// with nothing of the pass on it, for as long as the placement ids last.
///
/// Placement ids are unique. The terminal holds every image of the pass and shows exactly
/// what its slots say, which is what the tick drew. A slot that goes on being drawn keeps
/// its placement id, the old image goes before the new one comes, and a slot that is no
/// longer drawn is forgotten and taken off the screen, once. No image is ever dropped, so
/// there are never fewer.
pub proof fn every_tick_of_a_run(s: Screen, t: Tableau, ticks: Seq<Tick>, n: int)
    requires
        t.shelf == Shelf::fresh(t.shelf.base, t.shelf.top),
        t.book == Book::fresh(t.book.base),
        forall|img_id: u32, placement_id: u32| #[trigger]
            s.placements.contains_key((img_id, placement_id)) ==> !t.band().holds(img_id),
        may_run(t, ticks),
        0 <= n < ticks.len(),
    ensures
        ({
            let now = after_ticks(t, ticks.take(n));
            let next = after_ticks(t, ticks.take(n + 1));
            let (its, gone) = (ticks[n].its, ticks[n].gone);
            let before = run_packets(t, ticks.take(n));
            let e = play(s, run_packets(t, ticks.take(n + 1)));
            &&& next == ticked(now, its)
            &&& run_packets(t, ticks.take(n + 1)) == before + tick_packets(now, its, gone)
            &&& now.wf() && next.wf()
            &&& distinct_ids(next.book.slots)
            &&& faithful(e, next)
            &&& seen_as_drawn(e, now.begun(), its)
            &&& slots_carry_over(now, its, gone)
            &&& no_image_dropped(now, next)
        }),
{
    let now = after_ticks(t, ticks.take(n));
    let (its, gone) = (ticks[n].its, ticks[n].gone);
    let m = play(s, run_packets(t, ticks.take(n)));
    assert(ticks.take(n + 1).drop_last() =~= ticks.take(n));
    assert(ticks.take(n + 1).last() == ticks[n]);
    a_run_begins_with_runs(t, ticks, n);
    a_run_begins_with_runs(t, ticks, n + 1);
    an_empty_table_shows_nothing(s, t.book.base, t.band());
    assert(faithful(s, t));
    a_run_stays_faithful(s, t, ticks.take(n));
    a_run_stays_faithful(s, t, ticks.take(n + 1));
    play_both(s, run_packets(t, ticks.take(n)), tick_packets(now, its, gone));
    a_tick_shows_what_it_drew(m, now, its, gone);
    slots_over_a_tick(now, its, gone);
    images_are_never_dropped(now.begun(), its);
}

// ---- several passes -----------------------------------------------------------------

/// Everything that drawing says is about images of the pass's own band.
proof fn drawing_stays_in_its_band(t: Tableau, its: Seq<Item>)
    requires
        t.wf(),
        slots_show_uploads(t.shelf, t.book),
        t.fits_all(its),
    ensures
        t.drew_all(its).wf(),
        t.drew_all(its).band() == t.band(),
        slots_show_uploads(t.drew_all(its).shelf, t.drew_all(its).book),
        forall|m: int|
            0 <= m < t.all_packets(its).len() ==> (subject(
                #[trigger] t.all_packets(its)[m],
            ) matches Some(id) ==> t.band().holds(id)),
    decreases its.len(),
{
    if its.len() > 0 {
        let rest = its.drop_last();
        let last = its.last();
        drawing_stays_in_its_band(t, rest);
        let mid = t.drew_all(rest);
        let end = mid.drew(last);
        let before = t.all_packets(rest);
        let ps = t.all_packets(its);
        assert(end == t.drew_all(its));
        assert(mid.knows(last) ==> t.band().holds(mid.shelf.images[last.key].img_id));
        assert(end.book.wf());
        assert(end.shelf.wf());
        assert forall|m: int| 0 <= m < ps.len() implies (subject(#[trigger] ps[m]) matches Some(id)
            ==> t.band().holds(id)) by {
            if m < before.len() {
                assert(ps[m] == before[m]);
            } else {
                assert(ps[m] == mid.packets(last)[m - before.len()]);
                let k = last.slot;
                assert(mid.book.slots.contains_key(k) && mid.book.slots[k].cur_img_id != 0
                    ==> t.band().holds(mid.book.slots[k].cur_img_id));
            }
        }
    }
}

/// Everything that a tick says is about images of the pass's own band.
pub proof fn a_tick_stays_in_its_band(t: Tableau, its: Seq<Item>, gone: Seq<u128>)
    requires
        t.wf(),
        slots_show_uploads(t.shelf, t.book),
        t.begun().fits_all(its),
        lists_unseen(t.begun().drew_all(its).book, gone),
    ensures
        ({
            let drawn = t.begun().drew_all(its);
            let ps = t.begun().all_packets(its) + retire_packets(drawn.book.slots, gone);
            forall|m: int|
                0 <= m < ps.len() ==> (subject(#[trigger] ps[m]) matches Some(id)
                    ==> t.band().holds(id))
        }),
{
    let zero = t.begun();
    let drawn = zero.drew_all(its);
    let all = zero.all_packets(its);
    let last = retire_packets(drawn.book.slots, gone);
    let ps = all + last;
    drawing_stays_in_its_band(zero, its);
    retirements_show_images(drawn.book.slots, gone);
    assert forall|m: int| 0 <= m < ps.len() implies (subject(#[trigger] ps[m]) matches Some(id)
        ==> t.band().holds(id)) by {
        if m < all.len() {
            assert(ps[m] == all[m]);
        } else {
            assert(ps[m] == last[m - all.len()]);
            let j = choose|j: int|
                0 <= j < gone.len() && last[m - all.len()] == removal(
                    drawn.book.slots[#[trigger] gone[j]],
                ) && drawn.book.slots[gone[j]].cur_img_id != 0;
            assert(gone.contains(gone[j]));
            assert(drawn.book.slots.contains_key(gone[j]));
        }
    }
}

/// Passes leave each other alone: a tick of one pass leaves the terminal holding every
/// image of another, and showing of it exactly what it showed.
pub proof fn a_tick_leaves_other_passes_alone(
    s: Screen,
    t: Tableau,
    its: Seq<Item>,
    gone: Seq<u128>,
    other: Tableau,
)
    requires
        t.wf(),
        slots_show_uploads(t.shelf, t.book),
        t.begun().fits_all(its),
        lists_unseen(t.begun().drew_all(its).book, gone),
        other.wf(),
        faithful(s, other),
        t.band().clear_of(other.band()),
    ensures
        ({
            let drawn = t.begun().drew_all(its);
            let e = play(s, t.begun().all_packets(its) + retire_packets(drawn.book.slots, gone));
            &&& faithful(e, other)
            &&& forall|k: Seq<char>| #[trigger]
                other.shelf.images.contains_key(k) ==> {
                    let id = other.shelf.images[k].img_id;
                    e.images[id] == s.images[id]
                }
        }),
{
    let drawn = t.begun().drew_all(its);
    let ps = t.begun().all_packets(its) + retire_packets(drawn.book.slots, gone);
    let e = play(s, ps);
    a_tick_stays_in_its_band(t, its, gone);
    assert forall|m: int| 0 <= m < ps.len() implies (subject(#[trigger] ps[m]) matches Some(id)
        ==> !other.band().holds(id)) by {
        assert(subject(ps[m]) matches Some(id) ==> t.band().holds(id));
    }
    other_bands_keep_the_screen(s, other.book.slots, ps, other.band());
    assert forall|k: Seq<char>| #[trigger] other.shelf.images.contains_key(k) implies {
        let id = other.shelf.images[k].img_id;
        e.images.contains_key(id) && e.images[id] == s.images[id]
    } by {
        assert(s.images.contains_key(other.shelf.images[k].img_id));
    }
}

} // verus!
