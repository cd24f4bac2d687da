//! What a terminal makes of the escape sequences: the packets that the passes send, the
//! bytes that each of them is, and the images and placements that the terminal holds
//! after reading them.
//!
//! Everything here but [`Geom`] is a model. The passes are stated and proved against
//! it: the contract of a drawing function names the packets that it appends, and the
//! laws say what is on screen once the terminal has read them.

use vstd::prelude::*;
use vstd::utf8::encode_utf8;

use crate::proto::{
    command, cursor_text, delete_control, place_scaled_control, transmission,
};

verus! {

/// The placement geometry last emitted for a slot. Re-place only when this changes, so a
/// still sprite costs zero bytes.
#[derive(Clone, Copy, PartialEq, Eq, Debug, Structural)]
pub struct Geom {
    pub row: u16,
    pub col: u16,
    pub xoff: u32,
    pub yoff: u32,
    pub z: i32,
    pub cols: u32,
    pub rows: u32,
}

/// One thing that a drawing pass says to the terminal.
pub enum Packet {
    /// Store pixels under an image id, without showing them.
    Transmit { id: u32, w: u32, h: u32, rgba: Seq<u8> },
    /// Move the cursor to a cell.
    Cursor { row: u16, col: u16 },
    /// Show a stored image at the cursor cell.
    Place {
        img_id: u32,
        placement_id: u32,
        z: i32,
        cols: u32,
        rows: u32,
        xoff: u32,
        yoff: u32,
    },
    /// Take one placement of one image off the screen.
    Delete { img_id: u32, placement_id: u32 },
}

/// The bytes of a packet.
pub open spec fn encode(p: Packet) -> Seq<u8> {
    match p {
        Packet::Transmit { id, w, h, rgba } => transmission(false, id, w, h, rgba),
        Packet::Cursor { row, col } => encode_utf8(cursor_text(row, col)),
        Packet::Place { img_id, placement_id, z, cols, rows, xoff, yoff } => command(
            place_scaled_control(img_id, placement_id, z, cols, rows, xoff, yoff),
        ),
        Packet::Delete { img_id, placement_id } => command(delete_control(img_id, placement_id)),
    }
}

/// The bytes of several packets, one after the other.
pub open spec fn stream(ps: Seq<Packet>) -> Seq<u8>
    decreases ps.len(),
{
    if ps.len() == 0 {
        Seq::empty()
    } else {
        stream(ps.drop_last()) + encode(ps.last())
    }
}

/// The pixels that a terminal keeps under an image id.
pub struct Picture {
    pub w: u32,
    pub h: u32,
    pub rgba: Seq<u8>,
}

/// The state of a terminal: its stored images, what is placed on screen, and the cursor.
#[verifier::ext_equal]
pub struct Screen {
    pub images: Map<u32, Picture>,
    /// Keyed by image id and placement id TOGETHER: a placement replaces an earlier one
    /// only where both agree. The same placement id under two image ids is two placements.
    pub placements: Map<(u32, u32), Geom>,
    pub cursor: (u16, u16),
}

/// The state after one packet. A placement of an image that is not stored does nothing.
pub open spec fn apply(s: Screen, p: Packet) -> Screen {
    match p {
        Packet::Transmit { id, w, h, rgba } => Screen {
            images: s.images.insert(id, (Picture { w, h, rgba })),
            ..s
        },
        Packet::Cursor { row, col } => Screen { cursor: (row, col), ..s },
        Packet::Place { img_id, placement_id, z, cols, rows, xoff, yoff } => if s.images.contains_key(
            img_id,
        ) {
            let (row, col) = s.cursor;
            Screen {
                placements: s.placements.insert(
                    (img_id, placement_id),
                    (Geom { row, col, xoff, yoff, z, cols, rows }),
                ),
                ..s
            }
        } else {
            s
        },
        Packet::Delete { img_id, placement_id } => Screen {
            placements: s.placements.remove((img_id, placement_id)),
            ..s
        },
    }
}

/// The state after several packets, read in order.
pub open spec fn play(s: Screen, ps: Seq<Packet>) -> Screen
    decreases ps.len(),
{
    if ps.len() == 0 {
        s
    } else {
        apply(play(s, ps.drop_last()), ps.last())
    }
}

/// The image id that a packet concerns; the cursor concerns none.
pub open spec fn subject(p: Packet) -> Option<u32> {
    match p {
        Packet::Transmit { id, .. } => Some(id),
        Packet::Cursor { .. } => None,
        Packet::Place { img_id, .. } => Some(img_id),
        Packet::Delete { img_id, .. } => Some(img_id),
    }
}

/// The bytes of two runs of packets are the bytes of the runs, one after the other.
pub proof fn stream_of_both(a: Seq<Packet>, b: Seq<Packet>)
    ensures
        stream(a + b) == stream(a) + stream(b),
    decreases b.len(),
{
    if b.len() == 0 {
        assert(a + b =~= a);
        assert(stream(b) =~= Seq::<u8>::empty());
    } else {
        stream_of_both(a, b.drop_last());
        assert((a + b).drop_last() =~= a + b.drop_last());
        assert((a + b).last() == b.last());
        assert(stream(a + b) =~= stream(a) + stream(b));
    }
}

/// One packet more is its bytes more.
pub proof fn stream_push(a: Seq<Packet>, p: Packet)
    ensures
        stream(a.push(p)) == stream(a) + encode(p),
{
    assert(a.push(p).drop_last() =~= a);
}

/// The bytes of one packet.
pub proof fn stream_of_one(p: Packet)
    ensures
        stream(seq![p]) == encode(p),
{
    stream_push(Seq::empty(), p);
    assert(Seq::<Packet>::empty().push(p) =~= seq![p]);
    assert(stream(Seq::<Packet>::empty()) + encode(p) =~= encode(p));
}

/// Reading two runs of packets is reading the one and then the other.
pub proof fn play_both(s: Screen, a: Seq<Packet>, b: Seq<Packet>)
    ensures
        play(s, a + b) == play(play(s, a), b),
    decreases b.len(),
{
    if b.len() == 0 {
        assert(a + b =~= a);
    } else {
        play_both(s, a, b.drop_last());
        assert((a + b).drop_last() =~= a + b.drop_last());
        assert((a + b).last() == b.last());
    }
}

} // verus!
