//! Drawing a list of things, each a key, pixels and a place: what goes up, what is sent,
//! and what is on screen afterwards. Every pass draws this way.

use vstd::prelude::*;

use crate::ghosting::{
    after, every_step_is_faithful, every_step_keeps_the_pictures, faithful, owns, sent, Step, Tableau,
};
use crate::screen::{play, play_both, stream, stream_of_both, Geom, Packet, Picture, Screen};
use crate::slots::{following, lists_unseen, retire_packets, show_packets};

verus! {

/// One thing to draw.
pub struct Item {
    /// The slot that it is drawn in.
    pub slot: u128,
    /// The cache key of its image.
    pub key: Seq<char>,
    /// Its pixels, if they are available. Looked at only if the image is not uploaded.
    pub picture: Option<Picture>,
    /// Where it goes. Without a place it gets its image and its slot, but is not drawn.
    pub geom: Option<Geom>,
    /// Whether it keeps its slot while it has no image.
    pub keeps: bool,
}

impl Tableau {
    /// Whether an item's image is uploaded.
    pub open spec fn knows(self, it: Item) -> bool {
        self.shelf.images.contains_key(it.key)
    }

    /// Whether drawing an item uploads its image: it never was, its pixels are available,
    /// and an image id is left.
    pub open spec fn uploads(self, it: Item) -> bool {
        !self.knows(it) && it.picture is Some && self.shelf.has_room()
    }

    /// The image that an item shows, uploaded now or before.
    pub open spec fn image_of(self, it: Item) -> Option<u32> {
        if self.knows(it) {
            Some(self.shelf.images[it.key].img_id)
        } else if self.uploads(it) {
            Some(self.shelf.next_id())
        } else {
            None
        }
    }

    /// Whether drawing an item sends a placement: its slot shows something else, or
    /// elsewhere.
    pub open spec fn places(self, it: Item) -> bool {
        let slot = self.book.claimed(it.slot).slots[it.slot];
        match self.image_of(it) {
            None => false,
            Some(id) => it.geom is Some && (slot.cur_img_id != id || slot.last_geom != it.geom),
        }
    }

    /// The images and slots once an item is drawn.
    pub open spec fn drew(self, it: Item) -> Tableau {
        match self.image_of(it) {
            None => if it.keeps {
                Tableau { book: self.book.marked(it.slot), ..self }
            } else {
                self
            },
            Some(id) => Tableau {
                shelf: if self.knows(it) {
                    self.shelf
                } else {
                    self.shelf.stored(it.key, (it.picture->0).w, (it.picture->0).h)
                },
                book: match it.geom {
                    None => self.book.claimed(it.slot),
                    Some(g) => self.book.shown(it.slot, id, g),
                },
            },
        }
    }

    /// What is sent to draw an item: its pixels if they never were, and its placement if
    /// it has one and it changed.
    pub open spec fn packets(self, it: Item) -> Seq<Packet> {
        match self.image_of(it) {
            None => Seq::empty(),
            Some(id) => (if self.knows(it) {
                Seq::empty()
            } else {
                seq![
                    Packet::Transmit {
                        id,
                        w: (it.picture->0).w,
                        h: (it.picture->0).h,
                        rgba: (it.picture->0).rgba,
                    },
                ]
            }) + (match it.geom {
                None => Seq::empty(),
                Some(g) => show_packets(self.book.claimed(it.slot).slots[it.slot], id, g),
            }),
        }
    }

    /// The images and slots once a list of items is drawn.
    pub open spec fn drew_all(self, its: Seq<Item>) -> Tableau
        decreases its.len(),
    {
        if its.len() == 0 {
            self
        } else {
            self.drew_all(its.drop_last()).drew(its.last())
        }
    }

    /// What is sent to draw a list of items.
    pub open spec fn all_packets(self, its: Seq<Item>) -> Seq<Packet>
        decreases its.len(),
    {
        if its.len() == 0 {
            Seq::empty()
        } else {
            self.all_packets(its.drop_last()) + self.drew_all(its.drop_last()).packets(its.last())
        }
    }

    /// How many images a list of items uploads.
    pub open spec fn upload_count(self, its: Seq<Item>) -> nat
        decreases its.len(),
    {
        if its.len() == 0 {
            0
        } else {
            self.upload_count(its.drop_last()) + if self.drew_all(its.drop_last()).uploads(
                its.last(),
            ) {
                1nat
            } else {
                0
            }
        }
    }

    /// How many placements a list of items sends.
    pub open spec fn place_count(self, its: Seq<Item>) -> nat
        decreases its.len(),
    {
        if its.len() == 0 {
            0
        } else {
            self.place_count(its.drop_last()) + if self.drew_all(its.drop_last()).places(
                its.last(),
            ) {
                1nat
            } else {
                0
            }
        }
    }

    /// Whether placement ids are left for `n` more slots.
    pub open spec fn has_room_for(self, n: nat) -> bool {
        following(self.book.next, self.book.base) - 1 + n <= u32::MAX
    }

    /// Whether an item can be drawn without running out of placement ids: it has no image,
    /// it has a slot, or an id is left.
    pub open spec fn fits(self, it: Item) -> bool {
        self.image_of(it) is Some ==> self.book.has_room(it.slot)
    }

    /// Whether a list of items can be drawn without running out of placement ids.
    pub open spec fn fits_all(self, its: Seq<Item>) -> bool
        decreases its.len(),
    {
        its.len() == 0 || (self.fits_all(its.drop_last()) && self.drew_all(its.drop_last()).fits(
            its.last(),
        ))
    }

    /// The start of a tick.
    pub open spec fn begun(self) -> Tableau {
        Tableau { book: self.book.begun(), ..self }
    }

    /// The end of a tick.
    pub open spec fn retired(self) -> Tableau {
        Tableau { book: self.book.retired(), ..self }
    }
}

/// What drawing came to: how many images went up and how many placements were sent.
#[derive(Clone, Copy, PartialEq, Eq, Debug, Structural)]
pub struct Tally {
    pub uploaded: usize,
    pub placed: usize,
}

/// What a whole tick came to.
pub struct TickTally {
    pub uploaded: usize,
    pub placed: usize,
    /// The slots that were retired, in an unspecified order.
    pub gone: Vec<u128>,
}

/// Whether a list of items was drawn: the images and slots, the bytes sent, and the
/// counts are those of the list.
pub open spec fn drawn_from(
    t: Tableau,
    u: Tableau,
    before: Seq<u8>,
    after: Seq<u8>,
    its: Seq<Item>,
    tally: Tally,
) -> bool {
    &&& u == t.drew_all(its)
    &&& after == before + stream(t.all_packets(its))
    &&& tally.uploaded == t.upload_count(its)
    &&& tally.placed == t.place_count(its)
}

/// Whether a tick drew a list of items and retired the rest.
pub open spec fn ticked_from(
    t: Tableau,
    u: Tableau,
    before: Seq<u8>,
    after: Seq<u8>,
    its: Seq<Item>,
    tally: TickTally,
) -> bool {
    let drawn = t.drew_all(its);
    &&& u == drawn.retired()
    &&& lists_unseen(drawn.book, tally.gone@)
    &&& after == before + stream(t.all_packets(its)) + stream(
        retire_packets(drawn.book.slots, tally.gone@),
    )
    &&& tally.uploaded == t.upload_count(its)
    &&& tally.placed == t.place_count(its)
}

/// Drawing nothing changes nothing.
pub proof fn an_empty_list_is_idle(t: Tableau, its: Seq<Item>, buf: Seq<u8>)
    ensures
        its.len() == 0 ==> drawn_from(t, t, buf, buf, its, Tally { uploaded: 0, placed: 0 }),
{
    if its.len() == 0 {
        assert(buf + stream(t.all_packets(its)) =~= buf);
    }
}

/// Drawing a list of one item is drawing the item.
pub proof fn a_list_of_one_item(t: Tableau, its: Seq<Item>)
    ensures
        its.len() == 1 ==> {
            let it = its[0];
            &&& t.drew_all(its) == t.drew(it)
            &&& t.all_packets(its) == t.packets(it)
            &&& t.fits_all(its) == t.fits(it)
            &&& t.upload_count(its) == (if t.uploads(it) {
                1nat
            } else {
                0
            })
            &&& t.place_count(its) == (if t.places(it) {
                1nat
            } else {
                0
            })
        },
{
    reveal_with_fuel(Tableau::fits_all, 2);
    reveal_with_fuel(Tableau::drew_all, 2);
    reveal_with_fuel(Tableau::all_packets, 2);
    reveal_with_fuel(Tableau::upload_count, 2);
    reveal_with_fuel(Tableau::place_count, 2);
    if its.len() == 1 {
        assert(its.drop_last() =~= Seq::<Item>::empty());
        assert(Seq::<Packet>::empty() + t.packets(its[0]) =~= t.packets(its[0]));
    }
}

/// Two lists drawn one after the other are one list drawn.
pub proof fn lists_join(t: Tableau, start: Seq<u8>, a: Seq<Item>, b: Seq<Item>)
    ensures
        t.drew_all(a + b) == t.drew_all(a).drew_all(b),
        start + stream(t.all_packets(a + b)) == start + stream(t.all_packets(a)) + stream(
            t.drew_all(a).all_packets(b),
        ),
        t.upload_count(a + b) == t.upload_count(a) + t.drew_all(a).upload_count(b),
        t.place_count(a + b) == t.place_count(a) + t.drew_all(a).place_count(b),
{
    drawing_both(t, a, b);
    stream_of_both(t.all_packets(a), t.drew_all(a).all_packets(b));
    assert(start + (stream(t.all_packets(a)) + stream(t.drew_all(a).all_packets(b))) =~= start
        + stream(t.all_packets(a)) + stream(t.drew_all(a).all_packets(b)));
}

/// Drawing keeps to the bands, and its counts are no greater than its length.
pub proof fn drawing_counts_few(t: Tableau, its: Seq<Item>)
    ensures
        t.drew_all(its).band() == t.band(),
        t.drew_all(its).book.base == t.book.base,
        t.upload_count(its) <= its.len(),
        t.place_count(its) <= its.len(),
    decreases its.len(),
{
    if its.len() > 0 {
        drawing_counts_few(t, its.drop_last());
    }
}

/// Ids for as many slots as a list is long are enough to draw it: every item takes one at
/// most.
pub proof fn one_id_each_is_enough(t: Tableau, its: Seq<Item>, n: nat)
    requires
        t.has_room_for(its.len() + n),
    ensures
        t.fits_all(its),
        t.drew_all(its).has_room_for(n),
    decreases its.len(),
{
    if its.len() > 0 {
        one_id_each_is_enough(t, its.drop_last(), n + 1);
    }
}

/// Two lists fit if the one does and then the other.
pub proof fn fitting_both(t: Tableau, a: Seq<Item>, b: Seq<Item>)
    ensures
        t.fits_all(a + b) <==> t.fits_all(a) && t.drew_all(a).fits_all(b),
    decreases b.len(),
{
    if b.len() == 0 {
        assert(a + b =~= a);
    } else {
        fitting_both(t, a, b.drop_last());
        drawing_both(t, a, b.drop_last());
        assert((a + b).drop_last() =~= a + b.drop_last());
        assert((a + b).last() == b.last());
    }
}

/// Of a list that fits, every item fits when its turn comes.
pub proof fn the_next_one_fits(t: Tableau, its: Seq<Item>, i: int)
    requires
        0 <= i < its.len(),
        t.fits_all(its),
    ensures
        t.fits_all(its.take(i)),
        t.drew_all(its.take(i)).fits(its[i]),
    decreases its.len() - i,
{
    if i == its.len() - 1 {
        assert(its.take(i) =~= its.drop_last());
    } else {
        the_next_one_fits(t, its, i + 1);
        assert(its.take(i + 1).drop_last() =~= its.take(i));
    }
}

/// Drawing two lists is drawing the one and then the other.
pub proof fn drawing_both(t: Tableau, a: Seq<Item>, b: Seq<Item>)
    ensures
        t.drew_all(a + b) == t.drew_all(a).drew_all(b),
        t.all_packets(a + b) == t.all_packets(a) + t.drew_all(a).all_packets(b),
        t.upload_count(a + b) == t.upload_count(a) + t.drew_all(a).upload_count(b),
        t.place_count(a + b) == t.place_count(a) + t.drew_all(a).place_count(b),
    decreases b.len(),
{
    if b.len() == 0 {
        assert(a + b =~= a);
        assert(t.all_packets(a + b) =~= t.all_packets(a) + t.drew_all(a).all_packets(b));
    } else {
        drawing_both(t, a, b.drop_last());
        assert((a + b).drop_last() =~= a + b.drop_last());
        assert((a + b).last() == b.last());
        assert(t.all_packets(a + b) =~= t.all_packets(a) + t.drew_all(a).all_packets(b));
    }
}

/// Drawing an item leaves the terminal holding every image of the pass and showing
/// exactly what its slots say.
pub proof fn an_item_is_drawn_faithfully(s: Screen, t: Tableau, it: Item)
    requires
        t.wf(),
        faithful(s, t),
        t.fits(it),
    ensures
        t.drew(it).wf(),
        faithful(play(s, t.packets(it)), t.drew(it)),
{
    match t.image_of(it) {
        None => {},
        Some(id) => {
            let show = match it.geom {
                None => Step::Claim { key: it.slot },
                Some(geom) => Step::Show { key: it.slot, img_id: id, geom },
            };
            if t.knows(it) {
                assert(t.shelf.images.contains_key(it.key));
                every_step_is_faithful(s, t, show);
                assert(t.packets(it) =~= sent(t, show));
            } else {
                let p = it.picture->0;
                let up = Step::Upload { name: it.key, w: p.w, h: p.h, rgba: p.rgba };
                every_step_is_faithful(s, t, up);
                let b = after(t, up);
                assert(b.shelf.images.contains_key(it.key));
                every_step_is_faithful(play(s, sent(t, up)), b, show);
                play_both(s, sent(t, up), sent(b, show));
                assert(t.packets(it) =~= sent(t, up) + sent(b, show));
            }
        },
    }
}

proof fn items_are_drawn_faithfully(s: Screen, t: Tableau, its: Seq<Item>)
    requires
        t.wf(),
        faithful(s, t),
        t.fits_all(its),
    ensures
        t.drew_all(its).wf(),
        faithful(play(s, t.all_packets(its)), t.drew_all(its)),
        t.drew_all(its).band() == t.band(),
    decreases its.len(),
{
    if its.len() > 0 {
        let rest = its.drop_last();
        items_are_drawn_faithfully(s, t, rest);
        let mid = t.drew_all(rest);
        an_item_is_drawn_faithfully(play(s, t.all_packets(rest)), mid, its.last());
        play_both(s, t.all_packets(rest), mid.packets(its.last()));
    }
}

/// A whole tick leaves the terminal holding every image of the pass and showing exactly
/// what was drawn, for every order in which the stale slots are retired.
pub proof fn a_tick_is_faithful(s: Screen, t: Tableau, its: Seq<Item>, gone: Seq<u128>)
    requires
        t.wf(),
        faithful(s, t),
        t.begun().fits_all(its),
        lists_unseen(t.begun().drew_all(its).book, gone),
    ensures
        ({
            let drawn = t.begun().drew_all(its);
            &&& drawn.retired().wf()
            &&& drawn.retired().band() == t.band()
            &&& faithful(
                play(s, t.begun().all_packets(its) + retire_packets(drawn.book.slots, gone)),
                drawn.retired(),
            )
        }),
{
    let zero = t.begun();
    items_are_drawn_faithfully(s, zero, its);
    let drawn = zero.drew_all(its);
    every_step_is_faithful(play(s, zero.all_packets(its)), drawn, Step::Retire { gone });
    play_both(s, zero.all_packets(its), retire_packets(drawn.book.slots, gone));
}

/// Whether an image of a pass has the pixels it should: those that it had before, or those
/// of an item that it was uploaded for.
pub open spec fn carried(
    s: Screen,
    t: Tableau,
    e: Screen,
    u: Tableau,
    its: Seq<Item>,
    key: Seq<char>,
) -> bool {
    let id = u.shelf.images[key].img_id;
    if t.shelf.images.contains_key(key) {
        u.shelf.images[key] == t.shelf.images[key] && e.images[id] == s.images[id]
    } else {
        exists|j: int|
            0 <= j < its.len() && (#[trigger] its[j]).key == key && its[j].picture == Some(
                e.images[id],
            )
    }
}

/// Drawing a list of items leaves the pixels of every earlier image as they were, and
/// every new image has the pixels of an item of the list.
pub proof fn uploads_carry_their_pixels(s: Screen, t: Tableau, its: Seq<Item>)
    requires
        t.wf(),
        faithful(s, t),
        t.fits_all(its),
    ensures
        forall|k: Seq<char>| #[trigger]
            t.drew_all(its).shelf.images.contains_key(k) ==> carried(
                s,
                t,
                play(s, t.all_packets(its)),
                t.drew_all(its),
                its,
                k,
            ),
    decreases its.len(),
{
    if its.len() > 0 {
        let rest = its.drop_last();
        uploads_carry_their_pixels(s, t, rest);
        items_are_drawn_faithfully(s, t, rest);
        let mid = t.drew_all(rest);
        let m = play(s, t.all_packets(rest));
        let last = its[its.len() - 1];
        an_item_keeps_the_pictures(m, mid, last);
        play_both(s, t.all_packets(rest), mid.packets(last));
        let u = t.drew_all(its);
        let e = play(s, t.all_packets(its));
        assert forall|k: Seq<char>| #[trigger] u.shelf.images.contains_key(k) implies carried(
            s,
            t,
            e,
            u,
            its,
            k,
        ) by {
            let id = u.shelf.images[k].img_id;
            assert(u == mid.drew(last));
            if mid.shelf.images.contains_key(k) {
                assert(carried(s, t, m, mid, rest, k));
                assert(u.shelf.images[k] == mid.shelf.images[k]);
                assert(e.images[id] == m.images[id]);
                if !t.shelf.images.contains_key(k) {
                    let j = choose|j: int|
                        0 <= j < rest.len() && (#[trigger] rest[j]).key == k && rest[j].picture
                            == Some(m.images[id]);
                    assert(its[j] == rest[j]);
                }
            } else {
                images_are_never_dropped(t, rest);
                assert(last.picture == Some(e.images[id]));
                assert(its[its.len() - 1].key == k);
            }
        }
    }
}

/// Bitmaps are never dropped: whatever is drawn, every image that is uploaded keeps its id
/// and its size, and there are never fewer of them.
pub proof fn images_are_never_dropped(t: Tableau, its: Seq<Item>)
    requires
        t.shelf.images.dom().finite(),
    ensures
        forall|k: Seq<char>| #[trigger]
            t.shelf.images.contains_key(k) ==> {
                &&& t.drew_all(its).shelf.images.contains_key(k)
                &&& t.drew_all(its).shelf.images[k] == t.shelf.images[k]
            },
        t.drew_all(its).shelf.images.dom().finite(),
        t.drew_all(its).shelf.images.len() == t.shelf.images.len() + t.upload_count(its),
    decreases its.len(),
{
    if its.len() > 0 {
        images_are_never_dropped(t, its.drop_last());
    }
}

proof fn an_item_keeps_the_pictures(s: Screen, t: Tableau, it: Item)
    requires
        t.wf(),
        faithful(s, t),
        t.fits(it),
    ensures
        forall|k: Seq<char>| #[trigger]
            t.shelf.images.contains_key(k) ==> {
                let id = t.shelf.images[k].img_id;
                &&& t.drew(it).shelf.images.contains_key(k)
                &&& t.drew(it).shelf.images[k] == t.shelf.images[k]
                &&& play(s, t.packets(it)).images[id] == s.images[id]
            },
        t.uploads(it) ==> play(s, t.packets(it)).images[t.shelf.next_id()] == it.picture->0,
        forall|k: Seq<char>| #[trigger]
            t.drew(it).shelf.images.contains_key(k) ==> t.shelf.images.contains_key(k) || (
            t.uploads(it) && k == it.key && t.drew(it).shelf.images[k].img_id == t.shelf.next_id()),
{
    match t.image_of(it) {
        None => {},
        Some(id) => {
            let show = match it.geom {
                None => Step::Claim { key: it.slot },
                Some(geom) => Step::Show { key: it.slot, img_id: id, geom },
            };
            if t.knows(it) {
                assert(t.shelf.images.contains_key(it.key));
                assert(t.packets(it) =~= sent(t, show));
                assert forall|k: Seq<char>| #[trigger] t.shelf.images.contains_key(k) implies play(
                    s,
                    t.packets(it),
                ).images[t.shelf.images[k].img_id] == s.images[t.shelf.images[k].img_id] by {
                    every_step_keeps_the_pictures(s, t, show, k);
                }
            } else {
                let p = it.picture->0;
                let up = Step::Upload { name: it.key, w: p.w, h: p.h, rgba: p.rgba };
                every_step_is_faithful(s, t, up);
                let b = after(t, up);
                let m = play(s, sent(t, up));
                assert(b.shelf.images.contains_key(it.key));
                play_both(s, sent(t, up), sent(b, show));
                assert(t.packets(it) =~= sent(t, up) + sent(b, show));
                assert(m.images[id] == p) by {
                    reveal_with_fuel(play, 2);
                    assert(sent(t, up).drop_last() =~= Seq::<Packet>::empty());
                }
                every_step_keeps_the_pictures(m, b, show, it.key);
                assert forall|k: Seq<char>| #[trigger] t.shelf.images.contains_key(k) implies play(
                    s,
                    t.packets(it),
                ).images[t.shelf.images[k].img_id] == s.images[t.shelf.images[k].img_id] by {
                    every_step_keeps_the_pictures(s, t, up, k);
                    every_step_keeps_the_pictures(m, b, show, k);
                }
            }
        },
    }
}

/// Whether every item of a list has a slot of its own.
pub open spec fn distinct_slots(its: Seq<Item>) -> bool {
    forall|i: int, j: int|
        0 <= i < j < its.len() ==> (#[trigger] its[i]).slot != (#[trigger] its[j]).slot
}

/// Whether an item of a list has an image when its turn comes: it is uploaded, or its
/// pixels are available and an id is left.
#[verifier::opaque]
pub open spec fn gets_image(t: Tableau, its: Seq<Item>, i: int) -> bool {
    t.drew_all(its.take(i)).image_of(its[i]) is Some
}

/// Whether an item of a list holds its slot: it has an image and a place, or it has no
/// image and keeps what it showed.
pub open spec fn stays(t: Tableau, its: Seq<Item>, i: int) -> bool {
    if gets_image(t, its, i) {
        its[i].geom is Some
    } else {
        its[i].keeps
    }
}

/// Whether a slot is that of an item that holds it.
pub open spec fn is_held(t: Tableau, its: Seq<Item>, slot: u128) -> bool {
    exists|i: int| 0 <= i < its.len() && (#[trigger] its[i]).slot == slot && stays(t, its, i)
}

/// Whether a slot is that of an item that has an image.
pub open spec fn is_drawn(t: Tableau, its: Seq<Item>, slot: u128) -> bool {
    exists|i: int| 0 <= i < its.len() && (#[trigger] its[i]).slot == slot && gets_image(t, its, i)
}

/// Whether an item's image is uploaded and its slot, if it has a place, shows it there.
pub open spec fn shows(t: Tableau, it: Item) -> bool {
    &&& t.knows(it)
    &&& t.book.slots.contains_key(it.slot)
    &&& !t.places(it)
}

pub(crate) proof fn turns_stay(t: Tableau, its: Seq<Item>)
    requires
        its.len() > 0,
    ensures
        forall|i: int|
            0 <= i < its.len() - 1 ==> #[trigger] gets_image(t, its.drop_last(), i) == gets_image(
                t,
                its,
                i,
            ),
        gets_image(t, its, its.len() - 1) == (t.drew_all(its.drop_last()).image_of(
            its.last(),
        ) is Some),
{
    reveal(gets_image);
    let rest = its.drop_last();
    assert forall|i: int| 0 <= i < rest.len() implies #[trigger] gets_image(t, rest, i)
        == gets_image(t, its, i) by {
        assert(rest.take(i) =~= its.take(i));
        assert(rest[i] == its[i]);
    }
    assert(its.take(its.len() - 1) =~= rest);
}

proof fn held_with_one_more(t: Tableau, its: Seq<Item>, k: u128)
    requires
        its.len() > 0,
    ensures
        is_held(t, its, k) <==> is_held(t, its.drop_last(), k) || (its.last().slot == k && stays(
            t,
            its,
            its.len() - 1,
        )),
{
    let rest = its.drop_last();
    let n = its.len() - 1;
    turns_stay(t, its);
    if is_held(t, its, k) {
        let i = choose|i: int|
            0 <= i < its.len() && (#[trigger] its[i]).slot == k && stays(t, its, i);
        if i < n {
            assert(gets_image(t, rest, i) == gets_image(t, its, i));
            assert(rest[i].slot == k && stays(t, rest, i));
        }
    }
    if is_held(t, rest, k) {
        let i = choose|i: int|
            0 <= i < rest.len() && (#[trigger] rest[i]).slot == k && stays(t, rest, i);
        assert(gets_image(t, rest, i) == gets_image(t, its, i));
        assert(its[i].slot == k && stays(t, its, i));
    }
    assert(its[n] == its.last());
}

proof fn drawn_with_one_more(t: Tableau, its: Seq<Item>, k: u128)
    requires
        its.len() > 0,
    ensures
        is_drawn(t, its, k) <==> is_drawn(t, its.drop_last(), k) || (its.last().slot == k
            && gets_image(t, its, its.len() - 1)),
{
    let rest = its.drop_last();
    let n = its.len() - 1;
    turns_stay(t, its);
    if is_drawn(t, its, k) {
        let i = choose|i: int|
            0 <= i < its.len() && (#[trigger] its[i]).slot == k && gets_image(t, its, i);
        if i < n {
            assert(gets_image(t, rest, i) == gets_image(t, its, i));
            assert(rest[i].slot == k);
        }
    }
    if is_drawn(t, rest, k) {
        let i = choose|i: int|
            0 <= i < rest.len() && (#[trigger] rest[i]).slot == k && gets_image(t, rest, i);
        assert(gets_image(t, rest, i) == gets_image(t, its, i));
        assert(its[i].slot == k);
    }
    assert(its[n] == its.last());
}

pub(crate) proof fn slots_stay_distinct(its: Seq<Item>)
    requires
        its.len() > 0,
        distinct_slots(its),
    ensures
        distinct_slots(its.drop_last()),
{
    let rest = its.drop_last();
    assert forall|i: int, j: int| 0 <= i < j < rest.len() implies (#[trigger] rest[i]).slot != (
    #[trigger] rest[j]).slot by {
        assert(rest[i] == its[i] && rest[j] == its[j]);
    }
}

/// Drawing a list leaves every item that has an image shown, sees the slots that are held,
/// and touches no slot but those of items that have an image.
pub(crate) proof fn drawing_settles(t: Tableau, its: Seq<Item>)
    requires
        distinct_slots(its),
    ensures
        forall|k: Seq<char>| #[trigger]
            t.shelf.images.contains_key(k) ==> t.drew_all(its).shelf.images.contains_key(k),
        forall|i: int|
            0 <= i < its.len() && gets_image(t, its, i) ==> shows(t.drew_all(its), #[trigger] its[i]),
        forall|k: u128| #[trigger]
            t.drew_all(its).book.seen.contains(k) <==> t.book.seen.contains(k) || is_held(
                t,
                its,
                k,
            ),
        forall|k: u128| #[trigger]
            t.drew_all(its).book.slots.contains_key(k) <==> t.book.slots.contains_key(k) || is_drawn(
                t,
                its,
                k,
            ),
        forall|k: u128|
            t.book.slots.contains_key(k) && !is_drawn(t, its, k) ==> #[trigger] t.drew_all(
                its,
            ).book.slots[k] == t.book.slots[k],
    decreases its.len(),
{
    if its.len() > 0 {
        let rest = its.drop_last();
        let n = its.len() - 1;
        turns_stay(t, its);
        slots_stay_distinct(its);
        drawing_settles(t, rest);
        let last = its[n];
        let mid = t.drew_all(rest);
        let end = mid.drew(last);
        assert(end == t.drew_all(its));
        assert(gets_image(t, its, n) ==> shows(end, last));
        assert forall|i: int| 0 <= i < its.len() && gets_image(t, its, i) implies shows(
            end,
            #[trigger] its[i],
        ) by {
            if i < n {
                assert(its[i].slot != last.slot);
                assert(gets_image(t, rest, i) == gets_image(t, its, i));
                assert(shows(mid, rest[i]));
            }
        }
        assert forall|k: u128| #[trigger] end.book.seen.contains(k) <==> t.book.seen.contains(k)
            || is_held(t, its, k) by {
            assert(mid.book.seen.contains(k) <==> t.book.seen.contains(k) || is_held(t, rest, k));
            held_with_one_more(t, its, k);
        }
        assert forall|k: u128| #[trigger] end.book.slots.contains_key(k) <==> t.book.slots.contains_key(
            k,
        ) || is_drawn(t, its, k) by {
            assert(mid.book.slots.contains_key(k) <==> t.book.slots.contains_key(k) || is_drawn(
                t,
                rest,
                k,
            ));
            drawn_with_one_more(t, its, k);
        }
        assert forall|k: u128|
            t.book.slots.contains_key(k) && !is_drawn(t, its, k) implies #[trigger] end.book.slots[k]
            == t.book.slots[k] by {
            drawn_with_one_more(t, its, k);
            assert(mid.book.slots[k] == t.book.slots[k]);
        }
    }
}

/// Whether the terminal shows an item: its image, stored, at its place, under the placement
/// id of its slot.
pub open spec fn displays(s: Screen, t: Tableau, it: Item) -> bool {
    &&& t.shelf.images.contains_key(it.key)
    &&& t.book.slots.contains_key(it.slot)
    &&& ({
        let id = t.shelf.images[it.key].img_id;
        let at = (id, t.book.slots[it.slot].placement_id);
        &&& s.images.contains_key(id)
        &&& s.placements.contains_key(at)
        &&& it.geom == Some(s.placements[at])
    })
}

/// Whether a placement on screen is that of an item of a list that was drawn.
pub open spec fn is_displayed(t: Tableau, its: Seq<Item>, img_id: u32, placement_id: u32) -> bool {
    let end = t.drew_all(its);
    exists|i: int|
        #![trigger its[i]]
        0 <= i < its.len() && gets_image(t, its, i) && its[i].geom is Some
            && end.shelf.images[its[i].key].img_id == img_id
            && end.book.slots[its[i].slot].placement_id == placement_id
}

/// Whether a placement on screen was there before, in the slot of an item that keeps it
/// while it has no image.
pub open spec fn is_kept_over(t: Tableau, its: Seq<Item>, img_id: u32, placement_id: u32) -> bool {
    exists|i: int|
        #![trigger its[i]]
        0 <= i < its.len() && !gets_image(t, its, i) && its[i].keeps && owns(
            t.book.slots,
            its[i].slot,
            img_id,
            placement_id,
        )
}

/// Whether a screen shows what a list of items draws, and of the images of the pass
/// nothing else: every item that has an image and a place is shown there, an item without
/// is shown nowhere, or, if it keeps its slot, as it was before.
pub open spec fn seen_as_drawn(e: Screen, t: Tableau, its: Seq<Item>) -> bool {
    let end = t.drew_all(its).retired();
    &&& forall|i: int|
        0 <= i < its.len() && gets_image(t, its, i) && its[i].geom is Some ==> displays(
            e,
            end,
            #[trigger] its[i],
        )
    &&& forall|i: int|
        0 <= i < its.len() && !stays(t, its, i) ==> !end.book.slots.contains_key(
            (#[trigger] its[i]).slot,
        )
    &&& forall|img_id: u32, placement_id: u32| #[trigger]
        e.placements.contains_key((img_id, placement_id)) && t.band().holds(img_id)
            ==> is_displayed(t, its, img_id, placement_id) || is_kept_over(
            t,
            its,
            img_id,
            placement_id,
        )
}

/// What is drawn is what is seen. After a tick that drew a list of things, the terminal
/// shows every one of them that has an image and a place, with its own image at that
/// place; the others it does not show, but for those that keep what they showed before;
/// and of the images of the pass it shows nothing else.
pub proof fn a_tick_shows_what_it_drew(s: Screen, t: Tableau, its: Seq<Item>, gone: Seq<u128>)
    requires
        t.wf(),
        faithful(s, t),
        t.begun().fits_all(its),
        distinct_slots(its),
        lists_unseen(t.begun().drew_all(its).book, gone),
    ensures
        ({
            let drawn = t.begun().drew_all(its);
            let e = play(s, t.begun().all_packets(its) + retire_packets(drawn.book.slots, gone));
            seen_as_drawn(e, t.begun(), its)
        }),
{
    let zero = t.begun();
    items_are_drawn_faithfully(s, zero, its);
    a_tick_is_faithful(s, t, its, gone);
    drawing_settles(zero, its);
    let drawn = zero.drew_all(its);
    let end = drawn.retired();
    let e = play(s, zero.all_packets(its) + retire_packets(drawn.book.slots, gone));
    let band = t.band();
    assert forall|i: int|
        0 <= i < its.len() && gets_image(zero, its, i) && its[i].geom is Some implies displays(
        e,
        end,
        #[trigger] its[i],
    ) by {
        let it = its[i];
        assert(shows(drawn, it));
        assert(stays(zero, its, i));
        assert(is_held(zero, its, it.slot));
        assert(drawn.book.seen.contains(it.slot));
        assert(end.book.slots.contains_key(it.slot));
        assert(end.shelf.images.contains_key(it.key));
    }
    assert forall|i: int|
        0 <= i < its.len() && !stays(zero, its, i) implies !end.book.slots.contains_key(
        (#[trigger] its[i]).slot,
    ) by {
        if is_held(zero, its, its[i].slot) {
            let j = choose|j: int|
                0 <= j < its.len() && (#[trigger] its[j]).slot == its[i].slot && stays(
                    zero,
                    its,
                    j,
                );
            assert(!(i < j) || its[i].slot != its[j].slot);
            assert(!(j < i) || its[j].slot != its[i].slot);
        }
        assert(!drawn.book.seen.contains(its[i].slot));
    }
    assert forall|img_id: u32, placement_id: u32| #[trigger]
        e.placements.contains_key((img_id, placement_id)) && band.holds(img_id) implies is_displayed(
        zero,
        its,
        img_id,
        placement_id,
    ) || is_kept_over(zero, its, img_id, placement_id) by {
        let k = choose|k: u128| owns(end.book.slots, k, img_id, placement_id);
        assert(owns(end.book.slots, k, img_id, placement_id));
        assert(drawn.book.seen.contains(k));
        assert(is_held(zero, its, k));
        let i = choose|i: int|
            0 <= i < its.len() && (#[trigger] its[i]).slot == k && stays(zero, its, i);
        if gets_image(zero, its, i) {
            assert(shows(drawn, its[i]));
        } else {
            if is_drawn(zero, its, k) {
                let j = choose|j: int|
                    0 <= j < its.len() && (#[trigger] its[j]).slot == k && gets_image(zero, its, j);
                assert(!(i < j) || its[i].slot != its[j].slot);
                assert(!(j < i) || its[j].slot != its[i].slot);
            }
            assert(drawn.book.slots[k] == zero.book.slots[k]);
            assert(owns(t.book.slots, its[i].slot, img_id, placement_id));
        }
    }
}

/// One upload serves every occurrence: drawing an item whose image is uploaded, here or
/// in any other slot, sends no pixels.
pub proof fn a_known_image_is_never_sent_again(t: Tableau, it: Item)
    requires
        t.knows(it),
    ensures
        forall|i: int|
            0 <= i < t.packets(it).len() ==> !((#[trigger] t.packets(it)[i]) is Transmit),
        t.drew(it).shelf == t.shelf,
{
}

// ---- counting what is sent -----------------------------------------------------------

/// How many packets upload pixels.
pub open spec fn uploads_in(ps: Seq<Packet>) -> nat
    decreases ps.len(),
{
    if ps.len() == 0 {
        0
    } else {
        uploads_in(ps.drop_last()) + if ps.last() is Transmit {
            1nat
        } else {
            0
        }
    }
}

/// How many packets place an image.
pub open spec fn placements_in(ps: Seq<Packet>) -> nat
    decreases ps.len(),
{
    if ps.len() == 0 {
        0
    } else {
        placements_in(ps.drop_last()) + if ps.last() is Place {
            1nat
        } else {
            0
        }
    }
}

proof fn counts_of_both(a: Seq<Packet>, b: Seq<Packet>)
    ensures
        uploads_in(a + b) == uploads_in(a) + uploads_in(b),
        placements_in(a + b) == placements_in(a) + placements_in(b),
    decreases b.len(),
{
    if b.len() == 0 {
        assert(a + b =~= a);
    } else {
        counts_of_both(a, b.drop_last());
        assert((a + b).drop_last() =~= a + b.drop_last());
        assert((a + b).last() == b.last());
    }
}

proof fn counts_of_one(p: Packet)
    ensures
        uploads_in(seq![p]) == (if p is Transmit {
            1nat
        } else {
            0
        }),
        placements_in(seq![p]) == (if p is Place {
            1nat
        } else {
            0
        }),
{
    let e = Seq::<Packet>::empty();
    assert(seq![p].drop_last() =~= e);
    assert(uploads_in(e) == 0 && placements_in(e) == 0);
}

proof fn counts_of_an_item(t: Tableau, it: Item)
    ensures
        uploads_in(t.packets(it)) == (if t.uploads(it) {
            1nat
        } else {
            0
        }),
        placements_in(t.packets(it)) == (if t.places(it) {
            1nat
        } else {
            0
        }),
{
    let e = Seq::<Packet>::empty();
    assert(uploads_in(e) == 0 && placements_in(e) == 0);
    if let Some(id) = t.image_of(it) {
        let ups = if t.knows(it) {
            e
        } else {
            seq![
                Packet::Transmit {
                    id,
                    w: (it.picture->0).w,
                    h: (it.picture->0).h,
                    rgba: (it.picture->0).rgba,
                },
            ]
        };
        if !t.knows(it) {
            counts_of_one(ups[0]);
        }
        match it.geom {
            None => {
                counts_of_both(ups, e);
            },
            Some(g) => {
                let slot = t.book.claimed(it.slot).slots[it.slot];
                let del = if slot.cur_img_id != id && slot.cur_img_id != 0 {
                    let d = Packet::Delete {
                        img_id: slot.cur_img_id,
                        placement_id: slot.placement_id,
                    };
                    counts_of_one(d);
                    seq![d]
                } else {
                    e
                };
                let put = if slot.cur_img_id != id || slot.last_geom != Some(g) {
                    let c = Packet::Cursor { row: g.row, col: g.col };
                    let p = Packet::Place {
                        img_id: id,
                        placement_id: slot.placement_id,
                        z: g.z,
                        cols: g.cols,
                        rows: g.rows,
                        xoff: g.xoff,
                        yoff: g.yoff,
                    };
                    counts_of_one(c);
                    counts_of_one(p);
                    counts_of_both(seq![c], seq![p]);
                    assert(seq![c] + seq![p] =~= seq![c, p]);
                    seq![c, p]
                } else {
                    e
                };
                assert(show_packets(slot, id, g) =~= del + put);
                counts_of_both(del, put);
                counts_of_both(ups, del + put);
            },
        }
    }
}

/// The counts are true: as many images went up as uploads were sent, and as many placements
/// were made as placements were sent.
pub proof fn counts_are_of_what_was_sent(t: Tableau, its: Seq<Item>)
    ensures
        t.upload_count(its) == uploads_in(t.all_packets(its)),
        t.place_count(its) == placements_in(t.all_packets(its)),
    decreases its.len(),
{
    if its.len() > 0 {
        let rest = its.drop_last();
        let mid = t.drew_all(rest);
        counts_are_of_what_was_sent(t, rest);
        counts_of_an_item(mid, its.last());
        counts_of_both(t.all_packets(rest), mid.packets(its.last()));
    }
}

/// An image goes up as soon as its pixels are there and an id is left, and then at once,
/// before anything else, with its own size and its own pixels, under the next id of the
/// band; from then on its key has that id. Without pixels, or without an id, nothing is sent
/// for it.
pub proof fn an_image_goes_up_with_its_own_pixels(t: Tableau, it: Item)
    requires
        !t.shelf.images.contains_key(it.key),
    ensures
        it.picture is None ==> t.packets(it).len() == 0,
        t.shelf.next >= t.shelf.top ==> t.packets(it).len() == 0,
        it.picture matches Some(p) ==> (t.shelf.base < t.shelf.top && t.shelf.next < t.shelf.top
            ==> {
            let id = if t.shelf.next < t.shelf.base {
                t.shelf.base + 1
            } else {
                t.shelf.next + 1
            };
            &&& t.packets(it).len() > 0
            &&& t.packets(it)[0] matches Packet::Transmit { id: i, w, h, rgba } && i == id && w
                == p.w && h == p.h && rgba == p.rgba
            &&& t.drew(it).shelf.images.contains_key(it.key)
            &&& t.drew(it).shelf.images[it.key].img_id == id
            &&& t.drew(it).shelf.images[it.key].w == p.w
            &&& t.drew(it).shelf.images[it.key].h == p.h
        }),
{
}

} // verus!
