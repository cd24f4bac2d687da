//! Frame mode: send the whole composited plate whenever it changed.
//!
//! The cost is about 307 KB of base64 per changed frame at 320x180, which is why it is
//! not the default. It is the ground truth to diff the other passes against.

use vstd::arithmetic::div_mod::lemma_fundamental_div_mod;
use vstd::prelude::*;
use vstd::slice::slice_subrange;
use vstd::utf8::encode_utf8;

use crate::proto;
use crate::proto::{cursor_text, encodable, transmission};

verus! {

/// The image id that the whole frame goes up under. A fixed id, so each frame replaces
/// the last and the terminal's image count never grows.
pub const FRAME_IMG_ID: u32 = 1;

/// The row alignment of a GPU copy buffer, in bytes.
pub const ROW_ALIGNMENT: u32 = 256;

/// A row length rounded up to the row alignment.
pub open spec fn aligned(unpadded: nat) -> nat {
    ((unpadded + 255) / 256) * 256
}

/// Rounds `unpadded` up to a multiple of 256.
///
/// A GPU readback returns the raw, row-PADDED copy buffer. So the decode path has to be
/// stride-aware even though at 320 px (1280 B = 5 x 256) there happens to be no padding.
pub fn aligned_bytes_per_row(unpadded: u32) -> (padded: u32)
    requires
        aligned(unpadded as nat) <= u32::MAX,
    ensures
        padded == aligned(unpadded as nat),
{
    let blocks: u64 = (unpadded as u64 + 255) / 256;
    (blocks * 256) as u32
}

// ---- the hash -----------------------------------------------------------------------

/// One byte more of the hash.
pub open spec fn hash_step(h: u64, b: u8) -> u64 {
    ((h ^ (b as u64)) as int * 0x100_0000_01b3 % 0x1_0000_0000_0000_0000) as u64
}

/// The FNV-1a hash of bytes.
pub open spec fn hash_of(bytes: Seq<u8>) -> u64
    decreases bytes.len(),
{
    if bytes.len() == 0 {
        0xcbf2_9ce4_8422_2325
    } else {
        hash_step(hash_of(bytes.drop_last()), bytes.last())
    }
}

/// A cheap non-cryptographic hash (FNV-1a) for dirty-skip. It only has to say "did this
/// frame change", not resist collisions.
pub fn fnv1a(bytes: &[u8]) -> (h: u64)
    ensures
        h == hash_of(bytes@),
{
    let mut h: u64 = 0xcbf2_9ce4_8422_2325;
    let mut i: usize = 0;
    while i < bytes.len()
        invariant
            i <= bytes@.len(),
            h == hash_of(bytes@.take(i as int)),
        decreases bytes@.len() - i,
    {
        let b: u8 = bytes[i];
        let ghost before = h;
        h = (h ^ (b as u64)).wrapping_mul(0x100_0000_01b3);
        i += 1;
        assert(bytes@.take(i as int).drop_last() =~= bytes@.take(i - 1));
        assert(h == hash_step(before, b));
    }
    assert(bytes@.take(bytes@.len() as int) =~= bytes@);
    h
}

// ---- unpadding ----------------------------------------------------------------------

/// The first `rows` rows of a padded buffer, without their padding.
pub open spec fn tight(padded: Seq<u8>, row: nat, stride: nat, rows: nat) -> Seq<u8>
    decreases rows,
{
    if rows == 0 {
        Seq::empty()
    } else {
        tight(padded, row, stride, (rows - 1) as nat) + padded.subrange(
            (rows - 1) * stride,
            (rows - 1) * stride + row,
        )
    }
}

/// The pixels of a readback of a given size, and `None` if it is short.
pub open spec fn readback(padded: Seq<u8>, width: u32, height: u32) -> Option<Seq<u8>> {
    let row = (width * 4) as nat;
    if padded.len() < aligned(row) * height {
        None
    } else {
        Some(tight(padded, row, aligned(row), height as nat))
    }
}

/// Where a byte of a frame stands in the padded buffer.
pub proof fn tight_bytes(padded: Seq<u8>, row: nat, stride: nat, rows: nat)
    requires
        row <= stride,
        stride * rows <= padded.len(),
    ensures
        tight(padded, row, stride, rows).len() == row * rows,
        forall|y: int, x: int|
            0 <= y < rows && 0 <= x < row ==> #[trigger] tight(padded, row, stride, rows)[y * row
                + x] == padded[y * stride + x],
    decreases rows,
{
    if rows > 0 {
        let n = (rows - 1) as nat;
        assert(stride * n + stride == stride * rows && n * stride == stride * n) by (nonlinear_arith)
            requires
                n == rows - 1,
        ;
        tight_bytes(padded, row, stride, n);
        let before = tight(padded, row, stride, n);
        let all = tight(padded, row, stride, rows);
        assert(row * n + row == row * rows && n * row == row * n) by (nonlinear_arith)
            requires
                n == rows - 1,
        ;
        assert forall|y: int, x: int| 0 <= y < rows && 0 <= x < row implies #[trigger] all[y * row
            + x] == padded[y * stride + x] by {
            if y < n {
                assert(y * row + row <= row * n && 0 <= y * row) by (nonlinear_arith)
                    requires
                        0 <= y < n,
                ;
                assert(before[y * row + x] == padded[y * stride + x]);
            } else {
                let from = (n * stride) as int;
                assert(y == n);
                assert(all[n * row + x] == padded.subrange(from, from + row)[x]);
            }
        }
    } else {
        assert(row * 0 == 0) by (nonlinear_arith);
    }
}

/// Repacks padded rows into tight RGBA.
fn unpad(out: &mut Vec<u8>, padded: &[u8], row: usize, stride: usize, rows: u32)
    requires
        row <= stride,
        stride * rows <= padded@.len(),
    ensures
        final(out)@ == tight(padded@, row as nat, stride as nat, rows as nat),
{
    out.clear();
    let total: usize = padded.len();
    let mut y: u32 = 0;
    let mut start: usize = 0;
    while y < rows
        invariant
            y <= rows,
            row <= stride,
            stride * rows <= padded@.len() == total,
            start == y * stride,
            out@ == tight(padded@, row as nat, stride as nat, y as nat),
        decreases rows - y,
    {
        assert(y * stride + stride == (y + 1) * stride && (y + 1) * stride <= stride * rows)
            by (nonlinear_arith)
            requires
                0 <= y < rows,
                0 <= stride,
        ;
        out.extend_from_slice(slice_subrange(padded, start, start + row));
        start = start + stride;
        y += 1;
    }
}

// ---- the state ----------------------------------------------------------------------

/// What to do about a readback.
pub enum FrameStep {
    /// It is short of pixels: drop it.
    Short,
    /// It shows what the terminal already shows: send nothing.
    Unchanged,
    /// It is new: send these bytes, and report back.
    Send(Vec<u8>),
}

/// State for frame mode: last-frame hash for dirty-skip, plus a reused buffer.
pub struct FrameState {
    last_hash: u64,
    scratch: Vec<u8>,
    frames_emitted: u64,
    frames_skipped: u64,
}

/// The bytes of a frame: the cursor at the first cell, and the picture shown there.
pub open spec fn frame_bytes(width: u32, height: u32, rgba: Seq<u8>) -> Seq<u8> {
    encode_utf8(cursor_text(1, 1)) + transmission(true, FRAME_IMG_ID, width, height, rgba)
}

impl FrameState {
    /// The hash of the last frame that was handed out to be sent.
    pub closed spec fn hash(self) -> u64 {
        self.last_hash
    }

    /// How many frames went out.
    pub closed spec fn emitted(self) -> u64 {
        self.frames_emitted
    }

    /// How many frames were skipped.
    pub closed spec fn skipped(self) -> u64 {
        self.frames_skipped
    }

    /// A state that has sent nothing.
    pub fn new() -> (state: FrameState)
        ensures
            state.hash() == 0,
            state.emitted() == 0,
            state.skipped() == 0,
    {
        FrameState { last_hash: 0, scratch: Vec::new(), frames_emitted: 0, frames_skipped: 0 }
    }

    /// How many frames went out.
    pub fn frames_emitted(&self) -> (n: u64)
        ensures
            n == self.emitted(),
    {
        self.frames_emitted
    }

    /// How many frames were skipped.
    pub fn frames_skipped(&self) -> (n: u64)
        ensures
            n == self.skipped(),
    {
        self.frames_skipped
    }

    /// Whether a frame looks like the last one handed out, and frames have gone out at all.
    pub open spec fn knows(self, rgba: Seq<u8>) -> bool {
        hash_of(rgba) == self.hash() && self.emitted() > 0
    }

    /// Takes a readback, decides whether it is worth sending, and says what to send. An
    /// unchanged frame costs zero bytes.
    pub fn on_readback(&mut self, padded: &[u8], width: u32, height: u32) -> (step: FrameStep)
        requires
            aligned((width * 4) as nat) <= u32::MAX,
            readback(padded@, width, height) is Some ==> encodable((width * 4 * height) as nat),
            old(self).skipped() < u64::MAX,
        ensures
            final(self).emitted() == old(self).emitted(),
            match readback(padded@, width, height) {
                None => {
                    &&& step is Short
                    &&& final(self).hash() == old(self).hash()
                    &&& final(self).skipped() == old(self).skipped()
                },
                Some(rgba) => if old(self).knows(rgba) {
                    &&& step is Unchanged
                    &&& final(self).hash() == old(self).hash()
                    &&& final(self).skipped() == old(self).skipped() + 1
                } else {
                    &&& step matches FrameStep::Send(bytes)
                    &&& bytes@ == frame_bytes(width, height, rgba)
                    &&& final(self).hash() == hash_of(rgba)
                    &&& final(self).skipped() == old(self).skipped()
                },
            },
    {
        proof {
            aligned_covers((width * 4) as nat);
        }
        let row: u32 = width * 4;
        let stride: u32 = aligned_bytes_per_row(row);
        assert(0 <= stride * height <= 0xffff_ffff * 0xffff_ffff) by (nonlinear_arith)
            requires
                stride <= 0xffff_ffff,
                height <= 0xffff_ffff,
        ;
        let expected: u64 = (stride as u64) * (height as u64);
        if (padded.len() as u64) < expected {
            return FrameStep::Short;
        }
        unpad(&mut self.scratch, padded, row as usize, stride as usize, height);
        proof {
            tight_bytes(padded@, row as nat, stride as nat, height as nat);
            assert(width * 4 * height == row * height) by (nonlinear_arith)
                requires
                    row == width * 4,
            ;
        }
        let hash: u64 = fnv1a(self.scratch.as_slice());
        if hash == self.last_hash && self.frames_emitted > 0 {
            self.frames_skipped = self.frames_skipped + 1;
            return FrameStep::Unchanged;
        }
        self.last_hash = hash;
        let mut buf: Vec<u8> = Vec::new();
        proto::cursor_to(&mut buf, 1, 1);
        proto::transmit_and_display_rgba(
            &mut buf,
            FRAME_IMG_ID,
            width,
            height,
            self.scratch.as_slice(),
        );
        assert(buf@ =~= frame_bytes(width, height, self.scratch@));
        FrameStep::Send(buf)
    }

    /// Takes note that the bytes of a frame went out.
    pub fn sent(&mut self)
        requires
            old(self).emitted() < u64::MAX,
        ensures
            final(self).emitted() == old(self).emitted() + 1,
            final(self).hash() == old(self).hash(),
            final(self).skipped() == old(self).skipped(),
    {
        self.frames_emitted = self.frames_emitted + 1;
    }
}

impl Default for FrameState {
    fn default() -> (state: FrameState)
        ensures
            state.hash() == 0,
            state.emitted() == 0,
            state.skipped() == 0,
    {
        FrameState::new()
    }
}

// ---- laws ---------------------------------------------------------------------------

/// Alignment never shortens a row, adds less than one alignment, and gives a multiple of
/// it. An aligned row stays.
pub proof fn aligned_covers(row: nat)
    ensures
        row <= aligned(row) < row + ROW_ALIGNMENT,
        aligned(row) % (ROW_ALIGNMENT as nat) == 0,
        row % (ROW_ALIGNMENT as nat) == 0 ==> aligned(row) == row,
{
}

/// Whether two padded buffers hold the same pixels, whatever is in their padding.
pub open spec fn same_rows(a: Seq<u8>, b: Seq<u8>, row: nat, stride: nat, rows: nat) -> bool {
    forall|y: int, x: int|
        0 <= y < rows && 0 <= x < row ==> #[trigger] a[y * stride + x] == b[y * stride + x]
}

proof fn same_rows_same_frame(a: Seq<u8>, b: Seq<u8>, row: nat, stride: nat, rows: nat)
    requires
        row <= stride,
        stride * rows <= a.len(),
        stride * rows <= b.len(),
        same_rows(a, b, row, stride, rows),
    ensures
        tight(a, row, stride, rows) == tight(b, row, stride, rows),
    decreases rows,
{
    if rows > 0 {
        let n = (rows - 1) as nat;
        assert(stride * n + stride == stride * rows && n * stride == stride * n) by (nonlinear_arith)
            requires
                n == rows - 1,
        ;
        assert(same_rows(a, b, row, stride, n));
        same_rows_same_frame(a, b, row, stride, n);
        let from = (n * stride) as int;
        let (p, q) = (a.subrange(from, from + row), b.subrange(from, from + row));
        assert forall|x: int| 0 <= x < row implies #[trigger] p[x] == q[x] by {
            assert(a[n * stride + x] == b[n * stride + x]);
        }
        assert(p =~= q);
    }
}

/// Padding is not part of a frame: two readbacks with the same pixels are the same frame,
/// whatever the bytes between the rows and past the last row are.
pub proof fn padding_does_not_matter(a: Seq<u8>, b: Seq<u8>, width: u32, height: u32)
    requires
        ({
            let row = (width * 4) as nat;
            &&& a.len() >= aligned(row) * height
            &&& b.len() >= aligned(row) * height
            &&& same_rows(a, b, row, aligned(row), height as nat)
        }),
    ensures
        readback(a, width, height) == readback(b, width, height),
        readback(a, width, height) is Some,
{
    let row = (width * 4) as nat;
    aligned_covers(row);
    same_rows_same_frame(a, b, row, aligned(row), height as nat);
}

/// A frame that was sent is not sent again while it stays the same, and the very first
/// frame always goes out.
pub proof fn a_still_frame_is_sent_once(before: FrameState, after: FrameState, rgba: Seq<u8>)
    requires
        after.hash() == hash_of(rgba),
        after.emitted() == before.emitted() + 1,
    ensures
        after.knows(rgba),
        before.emitted() == 0 ==> !before.knows(rgba),
{
}

/// Whether a stride is that of a row: the first multiple of the alignment that holds it.
pub open spec fn is_stride(stride: int, row: int) -> bool {
    row <= stride < row + 256 && stride % 256 == 0
}

/// Where every pixel of a frame comes from. A readback is short exactly if it does not hold
/// all rows, padding and all; else the frame has four bytes to a pixel, row by row, and each
/// channel of a pixel is the one at its place in its padded row.
pub proof fn a_readback_is_its_own_pixels(
    padded: Seq<u8>,
    width: u32,
    height: u32,
    stride: int,
    x: int,
    y: int,
    c: int,
)
    requires
        is_stride(stride, 4 * width),
    ensures
        readback(padded, width, height) is None <==> padded.len() < stride * height,
        readback(padded, width, height) matches Some(out) ==> {
            &&& out.len() == 4 * width * height
            &&& 0 <= x < width && 0 <= y < height && 0 <= c < 4 ==> out[4 * (y * width + x) + c]
                == padded[y * stride + 4 * x + c]
        },
{
    let row = (width * 4) as nat;
    aligned_covers(row);
    assert(aligned(row) == stride);
    let rows = height as nat;
    if padded.len() >= stride * height {
        tight_bytes(padded, row, aligned(row), rows);
        assert(row * rows == 4 * width * height) by (nonlinear_arith)
            requires
                row == width * 4,
                rows == height,
        ;
        if 0 <= x < width && 0 <= y < height && 0 <= c < 4 {
            let at = 4 * x + c;
            assert(0 <= at < row);
            assert(4 * (y * width + x) + c == y * row + at) by (nonlinear_arith)
                requires
                    row == width * 4,
                    at == 4 * x + c,
            ;
            assert(tight(padded, row, aligned(row), rows)[y * row + at] == padded[y * stride + at]);
        }
    }
}

/// A frame is unchanged exactly if a frame has gone out and the last one handed out has the
/// same hash.
pub proof fn a_frame_is_known_by_its_hash(s: FrameState, a: Seq<u8>, b: Seq<u8>)
    requires
        s.hash() == hash_of(a),
    ensures
        s.emitted() == 0 ==> !s.knows(b),
        s.emitted() > 0 ==> (s.knows(b) <==> hash_of(a) == hash_of(b)),
{
}

/// A hash step can be undone: the multiplier is odd, so it has an inverse.
proof fn hash_steps_differ(h: u64, a: u8, k: u64, b: u8)
    requires
        h ^ (a as u64) != k ^ (b as u64),
    ensures
        hash_step(h, a) != hash_step(k, b),
{
    let (x, y) = ((h ^ (a as u64)) as int, (k ^ (b as u64)) as int);
    let m = 0x1_0000_0000_0000_0000int;
    let p = 0x100_0000_01b3int;
    let q = 0xce965057aff6957bint;
    assert(p * q == 0xce9650590fint * m + 1);
    if hash_step(h, a) == hash_step(k, b) {
        let r = (x * p) % m;
        assert(r == (y * p) % m);
        lemma_fundamental_div_mod(x * p, m);
        lemma_fundamental_div_mod(y * p, m);
        let d = (x * p) / m - (y * p) / m;
        assert((x - y) * p == m * d) by (nonlinear_arith)
            requires
                x * p == m * ((x * p) / m) + r,
                y * p == m * ((y * p) / m) + r,
                d == (x * p) / m - (y * p) / m,
        ;
        let e = d * q - 0xce9650590fint * (x - y);
        assert(x - y == m * e) by (nonlinear_arith)
            requires
                (x - y) * p == m * d,
                p * q == 0xce9650590fint * m + 1,
                e == d * q - 0xce9650590fint * (x - y),
        ;
        assert(e == 0) by (nonlinear_arith)
            requires
                x - y == m * e,
                -m < x - y < m,
                m > 0,
        ;
    }
}

/// Two frames of one size that differ in one byte never have the same hash, so a changed
/// byte is never skipped.
pub proof fn a_changed_byte_changes_the_hash(a: Seq<u8>, b: Seq<u8>, i: int)
    requires
        a.len() == b.len(),
        0 <= i < a.len(),
        a[i] != b[i],
        forall|j: int| 0 <= j < a.len() && j != i ==> #[trigger] a[j] == b[j],
    ensures
        hash_of(a) != hash_of(b),
    decreases a.len(),
{
    let (u, v) = (a.drop_last(), b.drop_last());
    let (x, y) = (a.last(), b.last());
    let (h, k) = (hash_of(u), hash_of(v));
    if i == a.len() - 1 {
        assert(u =~= v);
        assert(x != y ==> h ^ (x as u64) != h ^ (y as u64)) by (bit_vector);
    } else {
        a_changed_byte_changes_the_hash(u, v, i);
        assert(a[a.len() - 1] == b[a.len() - 1]);
        assert(h != k ==> h ^ (x as u64) != k ^ (x as u64)) by (bit_vector);
    }
    hash_steps_differ(h, x, k, y);
}

} // verus!
