//! The kitty graphics protocol encoder: functions that append escape sequences to a
//! byte buffer. It knows nothing about the rest of the crate.
//!
//! An "APC" packet is `ESC _ G <control> ; <payload> ESC \` where `<control>` is
//! comma-separated `key=value` pairs and `<payload>` is base64. Payloads over
//! 4096 bytes are split into chunks flagged `m=1` (more follow) or `m=0` (last).

use base64::engine::general_purpose::STANDARD;
use base64::Engine;
use vstd::prelude::*;
use vstd::slice::slice_subrange;
use vstd::string::*;
use vstd::utf8::encode_utf8;

use crate::digits::{digits, push_digits, push_signed_digits, signed_digits};

verus! {

/// Max base64 bytes per APC chunk, per the kitty protocol.
pub const CHUNK: usize = 4096;

/// The introducer every graphics packet starts with: `ESC _ G`.
///
/// Exported because stdout is a shared channel. Anything else writing its own APC
/// blocks to the same stream has to pick a different letter after `ESC _`, and needs
/// something to compare against.
pub const APC_GRAPHICS_INTRODUCER: [u8; 3] = [0x1b, 0x5f, 0x47];

/// The terminator ending every APC block: `ESC \`.
pub const APC_TERMINATOR: [u8; 2] = [0x1b, 0x5c];

// ---- base64 -------------------------------------------------------------------------

/// The character of the standard base64 alphabet for a value below 64.
pub open spec fn base64_symbol(v: int) -> u8 {
    if v < 26 {
        (65 + v) as u8
    } else if v < 52 {
        (71 + v) as u8
    } else if v < 62 {
        (v - 4) as u8
    } else if v == 62 {
        43
    } else {
        47
    }
}

/// The byte at a position, zero past the end.
pub open spec fn byte_at(bytes: Seq<u8>, i: int) -> int {
    if i < bytes.len() {
        bytes[i] as int
    } else {
        0
    }
}

/// The `k`-th run of six bits: position `k % 4` of the 24-bit group `k / 4`.
pub open spec fn sextet(bytes: Seq<u8>, k: int) -> int {
    let g = 3 * (k / 4);
    let v = byte_at(bytes, g) * 65536 + byte_at(bytes, g + 1) * 256 + byte_at(bytes, g + 2);
    if k % 4 == 0 {
        v / 262144
    } else if k % 4 == 1 {
        v / 4096 % 64
    } else if k % 4 == 2 {
        v / 64 % 64
    } else {
        v % 64
    }
}

/// How many characters `n` bytes take in padded base64.
pub open spec fn base64_len(n: nat) -> nat {
    4 * ((n + 2) / 3)
}

/// Standard base64 with `=` padding.
pub open spec fn base64_text(bytes: Seq<u8>) -> Seq<u8> {
    Seq::new(
        base64_len(bytes.len()),
        |k: int|
            if 6 * k >= 8 * bytes.len() {
                61u8
            } else {
                base64_symbol(sextet(bytes, k))
            },
    )
}

/// Whether the base64 text of `n` bytes fits in one allocation.
pub open spec fn encodable(n: nat) -> bool {
    base64_len(n) <= isize::MAX
}

/// `base64::engine::general_purpose::STANDARD.encode`: the standard alphabet, with
/// padding. The claim is that the bytes of the returned text are exactly
/// `base64_text`, for any input whose encoded length can be allocated.
#[verifier::external_body]
fn b64(bytes: &[u8]) -> (text: Vec<u8>)
    requires
        encodable(bytes@.len()),
    ensures
        text@ == base64_text(bytes@),
{
    STANDARD.encode(bytes).into_bytes()
}

// ---- packets ------------------------------------------------------------------------

/// One APC block around a body.
pub open spec fn framed(body: Seq<u8>) -> Seq<u8> {
    APC_GRAPHICS_INTRODUCER@ + body + APC_TERMINATOR@
}

/// How many chunks a payload of a given length is split into.
pub open spec fn chunk_count(len: nat) -> nat {
    ((len + CHUNK - 1) / CHUNK as int) as nat
}

/// Where the `k`-th chunk starts.
pub open spec fn chunk_start(len: nat, k: nat) -> nat {
    if k * CHUNK < len {
        k * CHUNK as nat
    } else {
        len
    }
}

/// The `k`-th chunk of a payload: 4096 bytes of it, or what is left at its end.
pub open spec fn chunk(payload: Seq<u8>, k: nat) -> Seq<u8> {
    payload.subrange(
        chunk_start(payload.len(), k) as int,
        chunk_start(payload.len(), k + 1) as int,
    )
}

/// The body of the `k`-th block of a chunked packet. The first one carries the control
/// block; `m=0` marks the last one and `m=1` all others.
pub open spec fn chunk_body(control: Seq<u8>, payload: Seq<u8>, k: nat) -> Seq<u8> {
    let head = if k == 0 {
        control.push(0x2c)
    } else {
        Seq::empty()
    };
    let more: u8 = if k + 1 == chunk_count(payload.len()) {
        0x30
    } else {
        0x31
    };
    head + seq![0x6du8, 0x3d, more, 0x3b] + chunk(payload, k)
}

/// The first `n` blocks of a chunked packet.
pub open spec fn chunked(control: Seq<u8>, payload: Seq<u8>, n: nat) -> Seq<u8>
    decreases n,
{
    if n == 0 {
        Seq::empty()
    } else {
        chunked(control, payload, (n - 1) as nat) + framed(
            chunk_body(control, payload, (n - 1) as nat),
        )
    }
}

/// A whole APC packet: one block without a payload, or one block per chunk.
pub open spec fn apc(control: Seq<u8>, payload: Seq<u8>) -> Seq<u8> {
    if payload.len() == 0 {
        framed(control)
    } else {
        chunked(control, payload, chunk_count(payload.len()))
    }
}

/// Writes one kitty APC packet, chunking the base64 payload across multiple blocks
/// when it exceeds the 4096-byte limit. `control` is the control block for the FIRST
/// chunk (e.g. `"a=T,f=32,s=320,v=180,i=1,q=2"`); continuation chunks carry only
/// `m=1`/`m=0`.
pub fn write_apc(out: &mut Vec<u8>, control: &str, payload_b64: &[u8])
    ensures
        final(out)@ == old(out)@ + apc(encode_utf8(control@), payload_b64@),
{
    if payload_b64.len() == 0 {
        out.extend_from_slice(&APC_GRAPHICS_INTRODUCER);
        out.extend_from_slice(control.as_bytes());
        out.extend_from_slice(&APC_TERMINATOR);
        return;
    }
    let ghost start = out@;
    let ghost mut k: nat = 0;
    let ghost text = encode_utf8(control@);
    let mut pos: usize = 0;
    while pos < payload_b64.len()
        invariant
            payload_b64@.len() > 0,
            text == encode_utf8(control@),
            k <= chunk_count(payload_b64@.len()),
            pos == chunk_start(payload_b64@.len(), k),
            (pos == 0) == (k == 0),
            (pos == payload_b64@.len()) == (k == chunk_count(payload_b64@.len())),
            out@ == start + chunked(text, payload_b64@, k),
        decreases payload_b64.len() - pos,
    {
        let ghost before = out@;
        let left: usize = payload_b64.len() - pos;
        let end: usize = if left > CHUNK {
            pos + CHUNK
        } else {
            payload_b64.len()
        };
        out.extend_from_slice(&APC_GRAPHICS_INTRODUCER);
        if pos == 0 {
            out.extend_from_slice(control.as_bytes());
            out.push(0x2c);
        }
        out.push(0x6d);
        out.push(0x3d);
        if end == payload_b64.len() {
            out.push(0x30);
        } else {
            out.push(0x31);
        }
        out.push(0x3b);
        out.extend_from_slice(slice_subrange(payload_b64, pos, end));
        out.extend_from_slice(&APC_TERMINATOR);
        proof {
            assert(chunk(payload_b64@, k) == payload_b64@.subrange(pos as int, end as int));
            assert(out@ =~= before + framed(chunk_body(text, payload_b64@, k)));
            k = k + 1;
        }
        pos = end;
    }
}

// ---- control blocks -----------------------------------------------------------------

/// The control block of a transmission: `T` displays the image at once, `t` stores it.
/// `f=32` is RGBA, and `q=2` suppresses every reply of the terminal.
pub open spec fn transmit_control(display: bool, id: u32, width: u32, height: u32) -> Seq<char> {
    (if display {
        "a=T,f=32,s="@
    } else {
        "a=t,f=32,s="@
    }) + digits(width as nat) + ",v="@ + digits(height as nat) + ",i="@ + digits(id as nat)
        + ",q=2"@
}

/// The control block of a placement. `C=1` keeps the cursor where it is.
pub open spec fn place_control(img_id: u32, placement_id: u32, z: i32) -> Seq<char> {
    "a=p,i="@ + digits(img_id as nat) + ",p="@ + digits(placement_id as nat) + ",z="@
        + signed_digits(z as int) + ",C=1,q=2"@
}

/// A key and its value, or nothing for a value of zero.
pub open spec fn nonzero_key(key: Seq<char>, n: u32) -> Seq<char> {
    if n > 0 {
        key + digits(n as nat)
    } else {
        Seq::empty()
    }
}

/// The control block of a placement scaled to a box of cells with a pixel offset.
pub open spec fn place_scaled_control(
    img_id: u32,
    placement_id: u32,
    z: i32,
    cols: u32,
    rows: u32,
    xoff: u32,
    yoff: u32,
) -> Seq<char> {
    place_control(img_id, placement_id, z) + nonzero_key(",c="@, cols) + nonzero_key(",r="@, rows)
        + nonzero_key(",X="@, xoff) + nonzero_key(",Y="@, yoff)
}

/// The control block that removes one placement of one image.
pub open spec fn delete_control(img_id: u32, placement_id: u32) -> Seq<char> {
    "a=d,d=i,i="@ + digits(img_id as nat) + ",p="@ + digits(placement_id as nat) + ",q=2"@
}

/// The sequence that moves the cursor to a row and a column, both counted from one.
pub open spec fn cursor_text(row: u16, col: u16) -> Seq<char> {
    "\x1b["@ + digits(row as nat) + ";"@ + digits(col as nat) + "H"@
}

/// The bytes of a transmission of raw pixels.
pub open spec fn transmission(display: bool, id: u32, width: u32, height: u32, rgba: Seq<u8>) -> Seq<
    u8,
> {
    apc(encode_utf8(transmit_control(display, id, width, height)), base64_text(rgba))
}

/// A packet that is a control block and nothing else.
pub open spec fn command(control: Seq<char>) -> Seq<u8> {
    apc(encode_utf8(control), Seq::empty())
}

/// Appends a key and a number.
fn push_key(control: &mut String, key: &str, n: u32)
    ensures
        final(control)@ == old(control)@ + key@ + digits(n as nat),
{
    control.append(key);
    push_digits(control, n as u64);
}

/// Appends a key and a number unless the number is zero.
fn push_nonzero_key(control: &mut String, key: &str, n: u32)
    ensures
        final(control)@ == old(control)@ + nonzero_key(key@, n),
{
    if n > 0 {
        push_key(control, key, n);
    }
}

/// Sends an image with the given control block head.
fn transmit(out: &mut Vec<u8>, display: bool, id: u32, width: u32, height: u32, rgba: &[u8])
    requires
        encodable(rgba@.len()),
    ensures
        final(out)@ == old(out)@ + transmission(display, id, width, height, rgba@),
{
    let mut control = String::from_str(
        if display {
            "a=T,f=32,s="
        } else {
            "a=t,f=32,s="
        },
    );
    push_digits(&mut control, width as u64);
    push_key(&mut control, ",v=", height);
    push_key(&mut control, ",i=", id);
    control.append(",q=2");
    let payload = b64(rgba);
    write_apc(out, control.as_str(), payload.as_slice());
}

/// Transmits and displays a full RGBA image under a fixed image id. Sending the same
/// `id` again REPLACES the prior image data, so the frame count on the terminal side
/// never grows.
pub fn transmit_and_display_rgba(out: &mut Vec<u8>, id: u32, width: u32, height: u32, rgba: &[u8])
    requires
        encodable(rgba@.len()),
    ensures
        final(out)@ == old(out)@ + transmission(true, id, width, height, rgba@),
{
    transmit(out, true, id, width, height, rgba);
}

/// Transmits an image WITHOUT displaying it, keyed by `id`, for later placement. This is
/// how the sprite pass uploads each distinct bitmap exactly once.
pub fn transmit_rgba(out: &mut Vec<u8>, id: u32, width: u32, height: u32, rgba: &[u8])
    requires
        encodable(rgba@.len()),
    ensures
        final(out)@ == old(out)@ + transmission(false, id, width, height, rgba@),
{
    transmit(out, false, id, width, height, rgba);
}

/// The control block of a placement, spelled out.
fn place_prefix(img_id: u32, placement_id: u32, z: i32) -> (control: String)
    ensures
        control@ == place_control(img_id, placement_id, z),
{
    let mut control = String::from_str("a=p,i=");
    push_digits(&mut control, img_id as u64);
    push_key(&mut control, ",p=", placement_id);
    control.append(",z=");
    push_signed_digits(&mut control, z);
    control.append(",C=1,q=2");
    control
}

/// Places an already-transmitted image `img_id` at the current cursor cell, as placement
/// `placement_id`, at stacking order `z` (higher = in front).
pub fn place(out: &mut Vec<u8>, img_id: u32, placement_id: u32, z: i32)
    ensures
        final(out)@ == old(out)@ + command(place_control(img_id, placement_id, z)),
{
    let control = place_prefix(img_id, placement_id, z);
    write_apc(out, control.as_str(), &[]);
}

/// Places `img_id` scaled to span `cols`x`rows` terminal cells at the current cursor
/// cell, with a sub-cell pixel offset (`xoff`, `yoff`) into the first cell. The same
/// placement id replaces the prior placement in place. Any of `cols`, `rows` and the
/// offsets that are zero are omitted, so that kitty draws the image at its natural size.
pub fn place_scaled(
    out: &mut Vec<u8>,
    img_id: u32,
    placement_id: u32,
    z: i32,
    cols: u32,
    rows: u32,
    xoff: u32,
    yoff: u32,
)
    ensures
        final(out)@ == old(out)@ + command(
            place_scaled_control(img_id, placement_id, z, cols, rows, xoff, yoff),
        ),
{
    let mut control = place_prefix(img_id, placement_id, z);
    push_nonzero_key(&mut control, ",c=", cols);
    push_nonzero_key(&mut control, ",r=", rows);
    push_nonzero_key(&mut control, ",X=", xoff);
    push_nonzero_key(&mut control, ",Y=", yoff);
    write_apc(out, control.as_str(), &[]);
}

/// Deletes a specific placement of an image. The transmitted image data stays, for
/// re-placement.
pub fn delete_placement(out: &mut Vec<u8>, img_id: u32, placement_id: u32)
    ensures
        final(out)@ == old(out)@ + command(delete_control(img_id, placement_id)),
{
    let mut control = String::from_str("a=d,d=i,i=");
    push_digits(&mut control, img_id as u64);
    push_key(&mut control, ",p=", placement_id);
    control.append(",q=2");
    write_apc(out, control.as_str(), &[]);
}

/// Deletes ALL placements (keeps image data).
pub fn delete_all_placements(out: &mut Vec<u8>)
    ensures
        final(out)@ == old(out)@ + command("a=d,d=a,q=2"@),
{
    write_apc(out, "a=d,d=a,q=2", &[]);
}

/// Moves the terminal cursor to a 1-based (row, col) cell. Plain CSI, not a kitty APC:
/// used to position the next placement.
pub fn cursor_to(out: &mut Vec<u8>, row: u16, col: u16)
    ensures
        final(out)@ == old(out)@ + encode_utf8(cursor_text(row, col)),
{
    let mut text = String::from_str("\x1b[");
    push_digits(&mut text, row as u64);
    text.append(";");
    push_digits(&mut text, col as u64);
    text.append("H");
    out.extend_from_slice(text.as_str().as_bytes());
}

/// Clears the screen, homes the cursor and hides it. Emitted once at startup.
pub fn enter_screen(out: &mut Vec<u8>)
    ensures
        final(out)@ == old(out)@ + encode_utf8("\x1b[2J\x1b[H\x1b[?25l"@),
{
    out.extend_from_slice("\x1b[2J\x1b[H\x1b[?25l".as_bytes());
}

/// Shows the cursor again. Pairs with [`enter_screen`] on the way out, so a run never
/// leaves the user's terminal without a cursor.
pub fn leave_screen(out: &mut Vec<u8>)
    ensures
        final(out)@ == old(out)@ + encode_utf8("\x1b[?25h"@),
{
    out.extend_from_slice("\x1b[?25h".as_bytes());
}

// ---- laws ---------------------------------------------------------------------------

/// What the first `n` chunks hold, end to end.
pub open spec fn joined(payload: Seq<u8>, n: nat) -> Seq<u8>
    decreases n,
{
    if n == 0 {
        Seq::empty()
    } else {
        joined(payload, (n - 1) as nat) + chunk(payload, (n - 1) as nat)
    }
}

proof fn joined_is_a_prefix(payload: Seq<u8>, n: nat)
    ensures
        joined(payload, n) == payload.take(chunk_start(payload.len(), n) as int),
    decreases n,
{
    if n > 0 {
        joined_is_a_prefix(payload, (n - 1) as nat);
    }
}

/// Chunking loses and reorders nothing: the chunks of a payload, end to end, are the
/// payload. No chunk is empty or longer than the limit, and all but the last are full.
pub proof fn chunks_make_up_the_payload(payload: Seq<u8>)
    ensures
        joined(payload, chunk_count(payload.len())) == payload,
        forall|k: nat|
            k < chunk_count(payload.len()) ==> 1 <= (#[trigger] chunk(payload, k)).len() <= CHUNK,
        forall|k: nat|
            k + 1 < chunk_count(payload.len()) ==> (#[trigger] chunk(payload, k)).len() == CHUNK,
{
    joined_is_a_prefix(payload, chunk_count(payload.len()));
}

/// A payload that fits one chunk, the exact limit included, is sent as a single block
/// flagged `m=0`.
pub proof fn a_short_payload_is_one_block(control: Seq<u8>, payload: Seq<u8>)
    requires
        0 < payload.len() <= CHUNK,
    ensures
        apc(control, payload) == framed(control + seq![0x2cu8, 0x6d, 0x3d, 0x30, 0x3b] + payload),
{
    assert(chunk_count(payload.len()) == 1);
    assert(chunk(payload, 0) =~= payload);
    assert(chunked(control, payload, 0) =~= Seq::<u8>::empty());
    assert(chunked(control, payload, 1) =~= framed(chunk_body(control, payload, 0)));
    assert(chunk_body(control, payload, 0) =~= control + seq![0x2cu8, 0x6d, 0x3d, 0x30, 0x3b]
        + payload);
}

proof fn chunked_is_framed(control: Seq<u8>, payload: Seq<u8>, n: nat)
    requires
        n > 0,
    ensures
        APC_GRAPHICS_INTRODUCER@.is_prefix_of(chunked(control, payload, n)),
        APC_TERMINATOR@.is_suffix_of(chunked(control, payload, n)),
    decreases n,
{
    let rest = chunked(control, payload, (n - 1) as nat);
    let block = framed(chunk_body(control, payload, (n - 1) as nat));
    assert(chunked(control, payload, n) == rest + block);
    assert(APC_GRAPHICS_INTRODUCER@ =~= block.take(3));
    assert(APC_TERMINATOR@ =~= (rest + block).skip((rest + block).len() - 2));
    if n == 1 {
        assert(rest + block =~= block);
    } else {
        chunked_is_framed(control, payload, (n - 1) as nat);
        assert(APC_GRAPHICS_INTRODUCER@ =~= rest.take(3));
        assert((rest + block).take(3) =~= rest.take(3));
    }
}

/// Every packet starts with the exported introducer and ends with the exported
/// terminator.
pub proof fn packets_are_framed(control: Seq<u8>, payload: Seq<u8>)
    ensures
        APC_GRAPHICS_INTRODUCER@.is_prefix_of(apc(control, payload)),
        APC_TERMINATOR@.is_suffix_of(apc(control, payload)),
{
    if payload.len() == 0 {
        let block = framed(control);
        assert(APC_GRAPHICS_INTRODUCER@ =~= block.take(3));
        assert(APC_TERMINATOR@ =~= block.skip(block.len() - 2));
    } else {
        chunked_is_framed(control, payload, chunk_count(payload.len()));
    }
}

/// With every box and offset zero a scaled placement is a plain one: no key is sent
/// with the value zero.
pub proof fn zero_keys_are_omitted(img_id: u32, placement_id: u32, z: i32)
    ensures
        place_scaled_control(img_id, placement_id, z, 0, 0, 0, 0) == place_control(
            img_id,
            placement_id,
            z,
        ),
{
}

/// Base64 text holds letters, digits, `+`, `/` and `=` only: neither `ESC` nor `;` can
/// occur in a payload, so a payload never ends its own packet.
pub proof fn base64_stays_in_its_alphabet(bytes: Seq<u8>)
    ensures
        forall|k: int|
            0 <= k < base64_text(bytes).len() ==> {
                let c = #[trigger] base64_text(bytes)[k];
                ||| 65 <= c <= 90
                ||| 97 <= c <= 122
                ||| 48 <= c <= 57
                ||| c == 43
                ||| c == 47
                ||| c == 61
            },
{
    assert forall|k: int| 0 <= k < base64_text(bytes).len() implies {
        let c = #[trigger] base64_text(bytes)[k];
        ||| 65 <= c <= 90
        ||| 97 <= c <= 122
        ||| 48 <= c <= 57
        ||| c == 43
        ||| c == 47
        ||| c == 61
    } by {
        sextet_in_range(bytes, k);
    }
}

pub(crate) proof fn sextet_in_range(bytes: Seq<u8>, k: int)
    ensures
        0 <= sextet(bytes, k) < 64,
{
    let g = 3 * (k / 4);
    assert(0 <= byte_at(bytes, g) < 256);
    assert(0 <= byte_at(bytes, g + 1) < 256);
    assert(0 <= byte_at(bytes, g + 2) < 256);
}

proof fn symbols_are_distinct(v: int, w: int)
    requires
        0 <= v < 64,
        0 <= w < 64,
        base64_symbol(v) == base64_symbol(w),
    ensures
        v == w,
{
}

/// The first bytes of two groups agree where their four runs of six bits do.
proof fn bytes_from_sextets(x: (int, int, int), y: (int, int, int))
    requires
        0 <= x.0 < 256,
        0 <= x.1 < 256,
        0 <= x.2 < 256,
        0 <= y.0 < 256,
        0 <= y.1 < 256,
        0 <= y.2 < 256,
        ({
            let v = x.0 * 65536 + x.1 * 256 + x.2;
            let w = y.0 * 65536 + y.1 * 256 + y.2;
            &&& v / 262144 == w / 262144
            &&& v / 4096 % 64 == w / 4096 % 64
            &&& v / 64 % 64 == w / 64 % 64
            &&& v % 64 == w % 64
        }),
    ensures
        x == y,
{
    let v = x.0 * 65536 + x.1 * 256 + x.2;
    let w = y.0 * 65536 + y.1 * 256 + y.2;
    assert(v / 64 == w / 64) by {
        assert(v / 4096 == v / 64 / 64 && w / 4096 == w / 64 / 64);
        assert(v / 262144 == v / 4096 / 64 && w / 262144 == w / 4096 / 64);
    }
    assert(v == w);
}

/// The bytes of a group are determined by its four symbols: the runs of six bits past
/// the padding are zero.
proof fn group_from_symbols(a: Seq<u8>, b: Seq<u8>, g: int)
    requires
        a.len() == b.len(),
        g >= 0,
        base64_text(a) == base64_text(b),
        3 * g < a.len(),
    ensures
        byte_at(a, 3 * g) == byte_at(b, 3 * g),
        byte_at(a, 3 * g + 1) == byte_at(b, 3 * g + 1),
        byte_at(a, 3 * g + 2) == byte_at(b, 3 * g + 2),
{
    assert forall|j: int| 0 <= j < 4 implies #[trigger] sextet(a, 4 * g + j) == sextet(
        b,
        4 * g + j,
    ) by {
        let k = 4 * g + j;
        assert(k / 4 == g && k % 4 == j);
        sextet_in_range(a, k);
        sextet_in_range(b, k);
        assert(k < base64_len(a.len()));
        if 6 * k >= 8 * a.len() {
            sextet_past_the_end(a, k);
            sextet_past_the_end(b, k);
        } else {
            assert(base64_text(a)[k] == base64_symbol(sextet(a, k)));
            assert(base64_text(b)[k] == base64_symbol(sextet(b, k)));
            symbols_are_distinct(sextet(a, k), sextet(b, k));
        }
    }
    assert(sextet(a, 4 * g + 0) == sextet(b, 4 * g + 0));
    assert(sextet(a, 4 * g + 1) == sextet(b, 4 * g + 1));
    assert(sextet(a, 4 * g + 2) == sextet(b, 4 * g + 2));
    assert(sextet(a, 4 * g + 3) == sextet(b, 4 * g + 3));
    bytes_from_sextets(
        (byte_at(a, 3 * g), byte_at(a, 3 * g + 1), byte_at(a, 3 * g + 2)),
        (byte_at(b, 3 * g), byte_at(b, 3 * g + 1), byte_at(b, 3 * g + 2)),
    );
}

pub(crate) proof fn sextet_past_the_end(bytes: Seq<u8>, k: int)
    requires
        k >= 0,
        3 * (k / 4) < bytes.len(),
        6 * k >= 8 * bytes.len(),
    ensures
        sextet(bytes, k) == 0,
{
    let g = 3 * (k / 4);
    let x = byte_at(bytes, g);
    assert(byte_at(bytes, g + 2) == 0);
    if g + 1 >= bytes.len() {
        assert(byte_at(bytes, g + 1) == 0);
        assert(k % 4 >= 2);
        assert((x * 65536) / 64 % 64 == 0);
        assert((x * 65536) % 64 == 0);
    } else {
        let y = byte_at(bytes, g + 1);
        assert(k % 4 == 3);
        assert((x * 65536 + y * 256) % 64 == 0);
    }
}

pub(crate) proof fn padding_marks_the_end(bytes: Seq<u8>, k: int)
    requires
        0 <= k < base64_len(bytes.len()),
    ensures
        base64_text(bytes)[k] == 61 <==> 6 * k >= 8 * bytes.len(),
{
    sextet_in_range(bytes, k);
}

/// A shorter buffer has another text: fewer characters, or more padding.
proof fn shorter_buffers_differ(a: Seq<u8>, b: Seq<u8>)
    requires
        a.len() < b.len(),
    ensures
        base64_text(a) != base64_text(b),
{
    if base64_text(a) == base64_text(b) {
        assert(base64_text(a).len() == base64_text(b).len());
        let k = if a.len() % 3 == 1 {
            4 * (a.len() as int / 3) + 2
        } else {
            4 * (a.len() as int / 3) + 3
        };
        padding_marks_the_end(a, k);
        padding_marks_the_end(b, k);
        padding_marks_the_end(a, 4 * (b.len() as int / 3) + 3);
        padding_marks_the_end(b, 4 * (b.len() as int / 3) + 3);
    }
}

/// Base64 is faithful: two pixel buffers with the same text are the same buffer, so the
/// terminal can only decode what was sent.
pub proof fn base64_is_faithful(a: Seq<u8>, b: Seq<u8>)
    requires
        base64_text(a) == base64_text(b),
    ensures
        a == b,
{
    if a.len() < b.len() {
        shorter_buffers_differ(a, b);
    } else if b.len() < a.len() {
        shorter_buffers_differ(b, a);
    }
    assert forall|i: int| 0 <= i < a.len() implies a[i] == b[i] by {
        group_from_symbols(a, b, i / 3);
        assert(byte_at(a, i) == byte_at(b, i)) by {
            assert(i == 3 * (i / 3) + i % 3);
        }
    }
    assert(a =~= b);
}

} // verus!
