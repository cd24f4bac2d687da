//! The laws of placement: what is on screen is what the slots say, whatever the passes
//! draw, move, re-point and retire. No ghost of an earlier frame is left behind.

use vstd::prelude::*;

use crate::cache::{kept, uploads_are_for_good, Shelf};
use crate::screen::{apply, play, play_both, subject, Geom, Packet, Screen};
use crate::slots::{
    lists_unseen, retire_packets, show_packets, Book, Slot,
};

verus! {

/// The image ids that one pass hands out: those above a base, up to a top.
pub struct Band {
    pub base: u32,
    pub top: u32,
}

impl Band {
    /// Whether an image id is the pass's own.
    pub open spec fn holds(self, id: u32) -> bool {
        self.base < id <= self.top
    }

    /// Whether no image id is in both bands.
    pub open spec fn clear_of(self, other: Band) -> bool {
        self.top <= other.base || other.top <= self.base
    }
}

/// Whether a slot shows an image under a placement id.
pub open spec fn owns(slots: Map<u128, Slot>, key: u128, img_id: u32, placement_id: u32) -> bool {
    &&& slots.contains_key(key)
    &&& slots[key].cur_img_id == img_id
    &&& slots[key].placement_id == placement_id
}

/// Of the images of a band, the screen shows exactly what the slots say, where they say:
/// every slot that shows an image is on screen with its geometry, and every placement on
/// screen belongs to a slot.
pub open spec fn on_screen(s: Screen, slots: Map<u128, Slot>, band: Band) -> bool {
    &&& forall|k: u128| #[trigger]
        slots.contains_key(k) && slots[k].cur_img_id != 0 ==> {
            let at = (slots[k].cur_img_id, slots[k].placement_id);
            &&& band.holds(slots[k].cur_img_id)
            &&& s.placements.contains_key(at)
            &&& slots[k].last_geom == Some(s.placements[at])
        }
    &&& forall|img_id: u32, placement_id: u32| #[trigger]
        s.placements.contains_key((img_id, placement_id)) && band.holds(img_id) ==> exists|k: u128|
            owns(slots, k, img_id, placement_id)
}

/// A screen with nothing of a band on it is what an empty table says.
pub proof fn an_empty_table_shows_nothing(s: Screen, base: u32, band: Band)
    requires
        forall|img_id: u32, placement_id: u32| #[trigger]
            s.placements.contains_key((img_id, placement_id)) ==> !band.holds(img_id),
    ensures
        on_screen(s, Book::fresh(base).slots, band),
{
}

/// Giving a key its slot draws nothing.
pub proof fn claiming_keeps_the_screen(s: Screen, b: Book, key: u128, band: Band)
    requires
        b.wf(),
        b.has_room(key),
        on_screen(s, b.slots, band),
    ensures
        b.claimed(key).wf(),
        on_screen(s, b.claimed(key).slots, band),
{
    let c = b.claimed(key);
    assert forall|img_id: u32, placement_id: u32| #[trigger]
        s.placements.contains_key((img_id, placement_id)) && band.holds(
            img_id,
        ) implies exists|k: u128| owns(c.slots, k, img_id, placement_id) by {
        let k = choose|k: u128| owns(b.slots, k, img_id, placement_id);
        assert(owns(c.slots, k, img_id, placement_id));
    }
}

/// Showing an image in a slot, new, moved or re-pointed, leaves the screen showing what
/// the slots say. The old image of the slot is gone.
pub proof fn showing_keeps_the_screen(
    s: Screen,
    b: Book,
    key: u128,
    img_id: u32,
    geom: Geom,
    band: Band,
)
    requires
        b.wf(),
        b.has_room(key),
        band.holds(img_id),
        s.images.contains_key(img_id),
        on_screen(s, b.slots, band),
    ensures
        b.shown(key, img_id, geom).wf(),
        on_screen(
            play(s, show_packets(b.claimed(key).slots[key], img_id, geom)),
            b.shown(key, img_id, geom).slots,
            band,
        ),
        play(s, show_packets(b.claimed(key).slots[key], img_id, geom)).images == s.images,
{
    claiming_keeps_the_screen(s, b, key, band);
    let c = b.claimed(key);
    let slot = c.slots[key];
    let pid = slot.placement_id;
    let d = b.shown(key, img_id, geom);
    let ps = show_packets(slot, img_id, geom);
    reveal_with_fuel(play, 4);
    let del = Packet::Delete { img_id: slot.cur_img_id, placement_id: pid };
    let cur = Packet::Cursor { row: geom.row, col: geom.col };
    let put = Packet::Place {
        img_id,
        placement_id: pid,
        z: geom.z,
        cols: geom.cols,
        rows: geom.rows,
        xoff: geom.xoff,
        yoff: geom.yoff,
    };
    let replaced = slot.cur_img_id != img_id && slot.cur_img_id != 0;
    let moved = slot.cur_img_id != img_id || slot.last_geom != Some(geom);
    if replaced {
        assert(ps =~= seq![del, cur, put]);
        assert(ps.drop_last() =~= seq![del, cur]);
        assert(ps.drop_last().drop_last() =~= seq![del]);
        assert(ps.drop_last().drop_last().drop_last() =~= Seq::<Packet>::empty());
    } else if moved {
        assert(ps =~= seq![cur, put]);
        assert(ps.drop_last() =~= seq![cur]);
        assert(ps.drop_last().drop_last() =~= Seq::<Packet>::empty());
    } else {
        assert(ps =~= Seq::<Packet>::empty());
    }
    let t = play(s, ps);
    if replaced {
        assert(t.placements =~= s.placements.remove((slot.cur_img_id, pid)).insert(
            (img_id, pid),
            geom,
        ));
    } else if moved {
        assert(t.placements =~= s.placements.insert((img_id, pid), geom));
    } else {
        assert(t.placements == s.placements);
    }
    assert forall|k: u128| #[trigger]
        d.slots.contains_key(k) && d.slots[k].cur_img_id != 0 implies {
        let at = (d.slots[k].cur_img_id, d.slots[k].placement_id);
        &&& band.holds(d.slots[k].cur_img_id)
        &&& t.placements.contains_key(at)
        &&& d.slots[k].last_geom == Some(t.placements[at])
    } by {
        if k != key {
            assert(c.slots.contains_key(k));
            assert(c.slots[k].placement_id != pid);
        }
    }
    assert forall|i: u32, p: u32| #[trigger]
        t.placements.contains_key((i, p)) && band.holds(i) implies exists|k: u128|
        owns(d.slots, k, i, p) by {
        if i == img_id && p == pid {
            assert(owns(d.slots, key, i, p));
        } else {
            assert(s.placements.contains_key((i, p)));
            let k = choose|k: u128| owns(c.slots, k, i, p);
            if k == key {
                assert(i == slot.cur_img_id && p == pid);
            }
            assert(owns(d.slots, k, i, p));
        }
    }
}

/// Retiring slots takes exactly their placements off the screen, in whatever order.
proof fn retiring_a_list_keeps_the_screen(s: Screen, b: Book, gone: Seq<u128>, band: Band)
    requires
        b.wf(),
        on_screen(s, b.slots, band),
        gone.no_duplicates(),
        forall|k: u128| #[trigger] gone.contains(k) ==> b.slots.contains_key(k),
    ensures
        on_screen(
            play(s, retire_packets(b.slots, gone)),
            b.slots.remove_keys(gone.to_set()),
            band,
        ),
        play(s, retire_packets(b.slots, gone)).images == s.images,
    decreases gone.len(),
{
    if gone.len() == 0 {
        assert(gone.to_set() =~= Set::<u128>::empty());
        assert(b.slots.remove_keys(gone.to_set()) =~= b.slots);
    } else {
        let key = gone.last();
        let rest = gone.drop_last();
        assert(gone.contains(key));
        assert forall|k: u128| #[trigger] rest.contains(k) implies b.slots.contains_key(k) by {
            let j = choose|j: int| 0 <= j < rest.len() && rest[j] == k;
            assert(gone[j] == k);
            assert(gone.contains(k));
        }
        retiring_a_list_keeps_the_screen(s, b, rest, band);
        let before = retire_packets(b.slots, rest);
        let mid = play(s, before);
        let slots = b.slots.remove_keys(rest.to_set());
        let slot = b.slots[key];
        let t = play(s, retire_packets(b.slots, gone));
        assert(!rest.contains(key)) by {
            if rest.contains(key) {
                let j = choose|j: int| 0 <= j < rest.len() && rest[j] == key;
                assert(gone[j] == gone[gone.len() - 1]);
            }
        }
        assert(slots.contains_key(key));
        let left = b.slots.remove_keys(gone.to_set());
        assert(left =~= slots.remove(key)) by {
            assert forall|x: u128| #[trigger] gone.contains(x) <==> rest.contains(x) || x == key by {
                if gone.contains(x) {
                    let j = choose|j: int| 0 <= j < gone.len() && gone[j] == x;
                    if j < rest.len() {
                        assert(rest[j] == x);
                    }
                }
                if rest.contains(x) {
                    let j = choose|j: int| 0 <= j < rest.len() && rest[j] == x;
                    assert(gone[j] == x);
                }
            }
            assert(gone.to_set() =~= rest.to_set().insert(key));
        }
        if slot.cur_img_id != 0 {
            let del = Packet::Delete { img_id: slot.cur_img_id, placement_id: slot.placement_id };
            assert(before.push(del).drop_last() =~= before);
            assert(t == apply(mid, del));
        } else {
            assert(t == mid);
        }
        assert forall|k: u128| #[trigger]
            left.contains_key(k) && left[k].cur_img_id != 0 implies {
            let at = (left[k].cur_img_id, left[k].placement_id);
            &&& band.holds(left[k].cur_img_id)
            &&& t.placements.contains_key(at)
            &&& left[k].last_geom == Some(t.placements[at])
        } by {
            assert(slots.contains_key(k));
            assert(b.slots.contains_key(k) && b.slots.contains_key(key));
            assert(left[k].placement_id != slot.placement_id);
        }
        assert forall|i: u32, p: u32| #[trigger]
            t.placements.contains_key((i, p)) && band.holds(i) implies exists|k: u128|
            owns(left, k, i, p) by {
            assert(mid.placements.contains_key((i, p)));
            let k = choose|k: u128| owns(slots, k, i, p);
            if k == key {
                assert(i == slot.cur_img_id && p == slot.placement_id);
                assert(i != 0 ==> !t.placements.contains_key((i, p)));
            }
            assert(owns(left, k, i, p));
        }
    }
}

/// The end of a tick takes off the screen exactly what was not seen, in whatever order
/// the slots are walked.
pub proof fn retiring_keeps_the_screen(s: Screen, b: Book, gone: Seq<u128>, band: Band)
    requires
        b.wf(),
        lists_unseen(b, gone),
        on_screen(s, b.slots, band),
    ensures
        b.retired().wf(),
        on_screen(play(s, retire_packets(b.slots, gone)), b.retired().slots, band),
        play(s, retire_packets(b.slots, gone)).images == s.images,
{
    retiring_a_list_keeps_the_screen(s, b, gone, band);
    assert(b.slots.remove_keys(gone.to_set()) =~= b.slots.restrict(b.seen)) by {
        assert forall|x: u128| #[trigger] gone.to_set().contains(x) <==> b.slots.contains_key(x)
            && !b.seen.contains(x) by {
            assert(gone.to_set().contains(x) == gone.contains(x));
        }
    }
}

/// No ghosting: of the images of a pass, no two are on screen under one placement id.
pub proof fn no_two_images_share_a_placement(
    s: Screen,
    b: Book,
    band: Band,
    img1: u32,
    img2: u32,
    placement_id: u32,
)
    requires
        b.wf(),
        on_screen(s, b.slots, band),
        band.holds(img1),
        band.holds(img2),
        s.placements.contains_key((img1, placement_id)),
        s.placements.contains_key((img2, placement_id)),
    ensures
        img1 == img2,
{
    let j = choose|k: u128| owns(b.slots, k, img1, placement_id);
    let k = choose|k: u128| owns(b.slots, k, img2, placement_id);
    assert(owns(b.slots, j, img1, placement_id));
    assert(owns(b.slots, k, img2, placement_id));
    assert(b.slots.contains_key(j) && b.slots.contains_key(k));
}

/// Passes do not disturb each other: packets about images outside a band leave what the
/// band shows as it was.
pub proof fn other_bands_keep_the_screen(s: Screen, slots: Map<u128, Slot>, ps: Seq<Packet>, band: Band)
    requires
        on_screen(s, slots, band),
        forall|i: int|
            0 <= i < ps.len() ==> (subject(#[trigger] ps[i]) matches Some(id) ==> !band.holds(id)),
    ensures
        on_screen(play(s, ps), slots, band),
        forall|id: u32| #[trigger]
            s.images.contains_key(id) && band.holds(id) ==> play(s, ps).images.contains_key(id)
                && play(s, ps).images[id] == s.images[id],
    decreases ps.len(),
{
    if ps.len() > 0 {
        let rest = ps.drop_last();
        assert forall|i: int| 0 <= i < rest.len() implies (subject(#[trigger] rest[i]) matches Some(
            id,
        ) ==> !band.holds(id)) by {
            assert(rest[i] == ps[i]);
        }
        other_bands_keep_the_screen(s, slots, rest, band);
        let mid = play(s, rest);
        let t = apply(mid, ps.last());
        assert(subject(ps[ps.len() - 1]) matches Some(id) ==> !band.holds(id));
        assert forall|i: u32, p: u32| band.holds(i) implies #[trigger] t.placements.contains_key(
            (i, p),
        ) == mid.placements.contains_key((i, p)) by {}
    }
}

// ---- whole passes -------------------------------------------------------------------

/// The images and the slots of a pass, as values.
#[verifier::ext_equal]
pub struct Tableau {
    pub shelf: Shelf,
    pub book: Book,
}

impl Tableau {
    /// The image ids of the pass.
    pub open spec fn band(self) -> Band {
        Band { base: self.shelf.base, top: self.shelf.top }
    }

    /// Image ids and placement ids are each unique, and the image ids are of the band.
    pub open spec fn wf(self) -> bool {
        &&& self.shelf.wf()
        &&& self.book.wf()
    }
}

/// One thing that a pass does, or that happens to the terminal meanwhile.
pub enum Step {
    /// A tick starts.
    Begin,
    /// An image goes up.
    Upload { name: Seq<char>, w: u32, h: u32, rgba: Seq<u8> },
    /// A thing is seen.
    Mark { key: u128 },
    /// A thing gets its slot.
    Claim { key: u128 },
    /// A thing shows an image at a place.
    Show { key: u128, img_id: u32, geom: Geom },
    /// A tick ends: what was not seen goes, in some order.
    Retire { gone: Seq<u128> },
    /// Another pass draws.
    Foreign { packets: Seq<Packet> },
}

/// Whether a pass can take a step: only what is new goes up, only what is up is shown,
/// ids are left, and other passes keep to image ids of their own.
pub open spec fn may(st: Tableau, step: Step) -> bool {
    match step {
        Step::Begin => true,
        Step::Upload { name, .. } => {
            &&& !st.shelf.images.contains_key(name)
            &&& st.shelf.has_room()
        },
        Step::Mark { .. } => true,
        Step::Claim { key } => st.book.has_room(key),
        Step::Show { key, img_id, .. } => {
            &&& st.book.has_room(key)
            &&& exists|k: Seq<char>| #[trigger]
                st.shelf.images.contains_key(k) && st.shelf.images[k].img_id == img_id
        },
        Step::Retire { gone } => lists_unseen(st.book, gone),
        Step::Foreign { packets } => forall|i: int|
            0 <= i < packets.len() ==> (subject(#[trigger] packets[i]) matches Some(id)
                ==> !st.band().holds(id)),
    }
}

/// The pass after a step.
pub open spec fn after(st: Tableau, step: Step) -> Tableau {
    match step {
        Step::Begin => Tableau { book: st.book.begun(), ..st },
        Step::Upload { name, w, h, .. } => Tableau { shelf: st.shelf.stored(name, w, h), ..st },
        Step::Mark { key } => Tableau { book: st.book.marked(key), ..st },
        Step::Claim { key } => Tableau { book: st.book.claimed(key), ..st },
        Step::Show { key, img_id, geom } => Tableau { book: st.book.shown(key, img_id, geom), ..st },
        Step::Retire { .. } => Tableau { book: st.book.retired(), ..st },
        Step::Foreign { .. } => st,
    }
}

/// What a step sends.
pub open spec fn sent(st: Tableau, step: Step) -> Seq<Packet> {
    match step {
        Step::Begin => Seq::empty(),
        Step::Upload { w, h, rgba, .. } => seq![
            Packet::Transmit { id: st.shelf.next_id(), w, h, rgba },
        ],
        Step::Mark { .. } => Seq::empty(),
        Step::Claim { .. } => Seq::empty(),
        Step::Show { key, img_id, geom } => show_packets(
            st.book.claimed(key).slots[key],
            img_id,
            geom,
        ),
        Step::Retire { gone } => retire_packets(st.book.slots, gone),
        Step::Foreign { packets } => packets,
    }
}

/// The terminal holds every image of the pass, and shows exactly what its slots say.
pub open spec fn faithful(s: Screen, st: Tableau) -> bool {
    kept(s, st.shelf) && on_screen(s, st.book.slots, st.band())
}

/// Whatever a pass does, and whatever the other passes do meanwhile, the terminal goes on
/// holding every image of the pass and showing exactly what its slots say.
pub proof fn every_step_is_faithful(s: Screen, st: Tableau, step: Step)
    requires
        st.wf(),
        faithful(s, st),
        may(st, step),
    ensures
        after(st, step).wf(),
        after(st, step).band() == st.band(),
        faithful(play(s, sent(st, step)), after(st, step)),
{
    let t = play(s, sent(st, step));
    match step {
        Step::Begin => {},
        Step::Upload { name, w, h, rgba } => {
            uploads_are_for_good(s, st.shelf, name, w, h, rgba);
        },
        Step::Mark { .. } => {},
        Step::Claim { key } => {
            claiming_keeps_the_screen(s, st.book, key, st.band());
        },
        Step::Show { key, img_id, geom } => {
            let k = choose|k: Seq<char>| #[trigger]
                st.shelf.images.contains_key(k) && st.shelf.images[k].img_id == img_id;
            assert(st.shelf.images.contains_key(k));
            showing_keeps_the_screen(s, st.book, key, img_id, geom, st.band());
        },
        Step::Retire { gone } => {
            retiring_keeps_the_screen(s, st.book, gone, st.band());
        },
        Step::Foreign { packets } => {
            other_bands_keep_the_screen(s, st.book.slots, packets, st.band());
            assert forall|k: Seq<char>| #[trigger] st.shelf.images.contains_key(k) implies {
                let up = st.shelf.images[k];
                &&& t.images.contains_key(up.img_id)
                &&& t.images[up.img_id].w == up.w
                &&& t.images[up.img_id].h == up.h
            } by {
                assert(s.images.contains_key(st.shelf.images[k].img_id));
            }
        },
    }
}

/// Whatever a pass does, and whatever the other passes do meanwhile, an image that is
/// uploaded keeps its id, and the terminal keeps its pixels.
pub proof fn every_step_keeps_the_pictures(s: Screen, st: Tableau, step: Step, name: Seq<char>)
    requires
        st.wf(),
        faithful(s, st),
        may(st, step),
        st.shelf.images.contains_key(name),
    ensures
        after(st, step).shelf.images.contains_key(name),
        after(st, step).shelf.images[name] == st.shelf.images[name],
        ({
            let id = st.shelf.images[name].img_id;
            play(s, sent(st, step)).images[id] == s.images[id]
        }),
{
    match step {
        Step::Begin => {},
        Step::Upload { name: new, w, h, rgba } => {
            uploads_are_for_good(s, st.shelf, new, w, h, rgba);
        },
        Step::Mark { .. } => {},
        Step::Claim { .. } => {},
        Step::Show { key, img_id, geom } => {
            let k = choose|k: Seq<char>| #[trigger]
                st.shelf.images.contains_key(k) && st.shelf.images[k].img_id == img_id;
            assert(st.shelf.images.contains_key(k));
            showing_keeps_the_screen(s, st.book, key, img_id, geom, st.band());
        },
        Step::Retire { gone } => {
            retiring_keeps_the_screen(s, st.book, gone, st.band());
        },
        Step::Foreign { packets } => {
            other_bands_keep_the_screen(s, st.book.slots, packets, st.band());
            assert(s.images.contains_key(st.shelf.images[name].img_id));
        },
    }
}

/// The pass after several steps.
pub open spec fn after_all(st: Tableau, steps: Seq<Step>) -> Tableau
    decreases steps.len(),
{
    if steps.len() == 0 {
        st
    } else {
        after(after_all(st, steps.drop_last()), steps.last())
    }
}

/// What several steps send.
pub open spec fn sent_all(st: Tableau, steps: Seq<Step>) -> Seq<Packet>
    decreases steps.len(),
{
    if steps.len() == 0 {
        Seq::empty()
    } else {
        sent_all(st, steps.drop_last()) + sent(
            after_all(st, steps.drop_last()),
            steps.last(),
        )
    }
}

/// Whether a pass can take several steps, one after the other.
pub open spec fn may_all(st: Tableau, steps: Seq<Step>) -> bool
    decreases steps.len(),
{
    steps.len() == 0 || (may_all(st, steps.drop_last()) && may(
        after_all(st, steps.drop_last()),
        steps.last(),
    ))
}

/// A whole run of a pass, from a terminal with nothing of the pass on it, is faithful at
/// every point: no ghost, no missing sprite, no sprite in the wrong place, no lost image,
/// and no two images under one placement id.
pub proof fn every_run_is_faithful(s: Screen, st: Tableau, steps: Seq<Step>)
    requires
        st.shelf == Shelf::fresh(st.shelf.base, st.shelf.top),
        st.book == Book::fresh(st.book.base),
        forall|img_id: u32, placement_id: u32| #[trigger]
            s.placements.contains_key((img_id, placement_id)) ==> !st.band().holds(img_id),
        may_all(st, steps),
    ensures
        after_all(st, steps).wf(),
        after_all(st, steps).band() == st.band(),
        faithful(play(s, sent_all(st, steps)), after_all(st, steps)),
    decreases steps.len(),
{
    if steps.len() == 0 {
    } else {
        let rest = steps.drop_last();
        every_run_is_faithful(s, st, rest);
        let mid = after_all(st, rest);
        every_step_is_faithful(play(s, sent_all(st, rest)), mid, steps.last());
        play_both(s, sent_all(st, rest), sent(mid, steps.last()));
    }
}

/// Once uploaded, an image is never sent again or replaced for the rest of a run: its key
/// keeps its id, and the terminal keeps its pixels.
pub proof fn every_run_keeps_the_pictures(s: Screen, st: Tableau, steps: Seq<Step>, name: Seq<char>)
    requires
        st.wf(),
        faithful(s, st),
        may_all(st, steps),
        st.shelf.images.contains_key(name),
    ensures
        after_all(st, steps).wf(),
        faithful(play(s, sent_all(st, steps)), after_all(st, steps)),
        after_all(st, steps).shelf.images.contains_key(name),
        after_all(st, steps).shelf.images[name] == st.shelf.images[name],
        ({
            let id = st.shelf.images[name].img_id;
            play(s, sent_all(st, steps)).images[id] == s.images[id]
        }),
    decreases steps.len(),
{
    if steps.len() > 0 {
        let rest = steps.drop_last();
        every_run_keeps_the_pictures(s, st, rest, name);
        let mid = after_all(st, rest);
        let t = play(s, sent_all(st, rest));
        every_step_is_faithful(t, mid, steps.last());
        every_step_keeps_the_pictures(t, mid, steps.last(), name);
        play_both(s, sent_all(st, rest), sent(mid, steps.last()));
    }
}

} // verus!
