//! What a terminal reads is what was sent: the bytes of a run of packets have one reading
//! only, so the bytes that a pass writes determine what the terminal shows.

use vstd::prelude::*;
use vstd::string::*;
use vstd::utf8::{
    encode_utf8, encode_utf8_decode_utf8, is_ascii_chars, is_ascii_chars_encode_utf8,
};

use crate::digits::{
    digits, digits_injective, digits_read_back, is_digit, lacks, signed_digits,
    signed_digits_injective, split_at_mark, split_at_separator,
};
use crate::ghosting::{faithful, Tableau};
use crate::items::{
    a_tick_is_faithful, a_tick_shows_what_it_drew, distinct_slots, seen_as_drawn, Item,
};
use crate::proto::{
    apc, base64_is_faithful, base64_stays_in_its_alphabet, base64_text, chunk, chunk_body,
    chunk_count, chunk_start, chunked, cursor_text, delete_control, framed, nonzero_key,
    packets_are_framed, place_control, place_scaled_control, transmit_control,
    APC_GRAPHICS_INTRODUCER, CHUNK,
};
use crate::screen::{encode, play, stream, stream_of_both, stream_of_one, Packet, Screen};
use crate::slots::{lists_unseen, retire_packets};

verus! {

/// The first byte of every escape sequence.
pub const ESC: u8 = 0x1b;

// ---- blocks -------------------------------------------------------------------------

/// Whether a text is printable ASCII without a semicolon, as every control block is.
spec fn clean(s: Seq<char>) -> bool {
    forall|i: int| 0 <= i < s.len() ==> ' ' <= #[trigger] s[i] <= '~' && s[i] != ';'
}

/// Printable text has one byte per character, none of which is an escape or a semicolon.
proof fn clean_bytes(s: Seq<char>)
    requires
        clean(s),
    ensures
        encode_utf8(s).len() == s.len(),
        lacks(encode_utf8(s), ESC),
        lacks(encode_utf8(s), 0x3bu8),
{
    assert(is_ascii_chars(s));
    is_ascii_chars_encode_utf8(s);
    assert forall|i: int| 0 <= i < encode_utf8(s).len() implies #[trigger] encode_utf8(s)[i] != ESC
        && encode_utf8(s)[i] != 0x3b by {
        assert(s[i] as u8 == encode_utf8(s)[i]);
    }
}

/// Two texts with the same bytes are the same text.
proof fn same_bytes_same_text(a: Seq<char>, b: Seq<char>)
    requires
        encode_utf8(a) == encode_utf8(b),
    ensures
        a == b,
{
    encode_utf8_decode_utf8(a);
    encode_utf8_decode_utf8(b);
}

/// A block ends at its own terminator: two blocks at the start of the same bytes are the
/// same block.
proof fn blocks_agree(a: Seq<u8>, x: Seq<u8>, b: Seq<u8>, y: Seq<u8>)
    requires
        framed(a) + x == framed(b) + y,
        lacks(a, ESC),
        lacks(b, ESC),
    ensures
        a == b,
        x == y,
{
    let bar = seq![0x5cu8];
    assert((framed(a) + x).skip(3) =~= a.push(ESC) + (bar + x));
    assert((framed(b) + y).skip(3) =~= b.push(ESC) + (bar + y));
    split_at_separator(a, bar + x, b, bar + y, ESC);
    assert((bar + x).skip(1) =~= x);
    assert((bar + y).skip(1) =~= y);
}

// ---- chunked packets ----------------------------------------------------------------

/// The blocks of a chunked packet from the `k`-th on.
spec fn blocks_from(control: Seq<u8>, payload: Seq<u8>, k: nat) -> Seq<u8>
    decreases chunk_count(payload.len()) - k,
{
    if k < chunk_count(payload.len()) {
        framed(chunk_body(control, payload, k)) + blocks_from(control, payload, k + 1)
    } else {
        Seq::empty()
    }
}

proof fn blocks_in_two_parts(control: Seq<u8>, payload: Seq<u8>, k: nat)
    requires
        k <= chunk_count(payload.len()),
    ensures
        chunked(control, payload, chunk_count(payload.len())) == chunked(control, payload, k)
            + blocks_from(control, payload, k),
    decreases chunk_count(payload.len()) - k,
{
    let n = chunk_count(payload.len());
    if k < n {
        blocks_in_two_parts(control, payload, k + 1);
        assert(chunked(control, payload, k + 1) == chunked(control, payload, k) + framed(
            chunk_body(control, payload, k),
        ));
        assert(chunked(control, payload, k) + framed(chunk_body(control, payload, k))
            + blocks_from(control, payload, k + 1) =~= chunked(control, payload, k) + blocks_from(
            control,
            payload,
            k,
        ));
    } else {
        assert(chunked(control, payload, n) + Seq::<u8>::empty() =~= chunked(control, payload, n));
    }
}

/// What a block says before the semicolon, which ends in its flag.
spec fn chunk_head(control: Seq<u8>, last: bool, k: nat) -> Seq<u8> {
    (if k == 0 {
        control.push(0x2c)
    } else {
        Seq::empty()
    }).push(0x6d).push(0x3d).push(
        if last {
            0x30
        } else {
            0x31
        },
    )
}

/// A block is what it says, a semicolon, and its chunk.
proof fn chunk_body_parts(control: Seq<u8>, payload: Seq<u8>, k: nat)
    requires
        lacks(control, ESC),
        lacks(control, 0x3bu8),
        lacks(payload, ESC),
        k < chunk_count(payload.len()),
    ensures
        ({
            let head = chunk_head(control, k + 1 == chunk_count(payload.len()), k);
            &&& chunk_body(control, payload, k) == head.push(0x3b) + chunk(payload, k)
            &&& lacks(head, 0x3bu8)
        }),
        lacks(chunk_body(control, payload, k), ESC),
{
    let head = chunk_head(control, k + 1 == chunk_count(payload.len()), k);
    assert(chunk_body(control, payload, k) =~= head.push(0x3b) + chunk(payload, k));
    let from = chunk_start(payload.len(), k) as int;
    assert forall|i: int| 0 <= i < chunk(payload, k).len() implies #[trigger] chunk(payload, k)[i]
        != ESC by {
        assert(chunk(payload, k)[i] == payload[from + i]);
    }
}

/// The same blocks have the same reading, from any one of them on.
proof fn chunks_agree(
    c1: Seq<u8>,
    p1: Seq<u8>,
    x: Seq<u8>,
    c2: Seq<u8>,
    p2: Seq<u8>,
    y: Seq<u8>,
    k: nat,
)
    requires
        lacks(c1, ESC),
        lacks(c1, 0x3bu8),
        lacks(p1, ESC),
        lacks(c2, ESC),
        lacks(c2, 0x3bu8),
        lacks(p2, ESC),
        k < chunk_count(p1.len()),
        k < chunk_count(p2.len()),
        blocks_from(c1, p1, k) + x == blocks_from(c2, p2, k) + y,
    ensures
        k == 0 ==> c1 == c2,
        p1.skip(k * CHUNK) == p2.skip(k * CHUNK),
        x == y,
    decreases chunk_count(p1.len()) - k,
{
    let (n1, n2) = (chunk_count(p1.len()), chunk_count(p2.len()));
    let (b1, b2) = (chunk_body(c1, p1, k), chunk_body(c2, p2, k));
    let (t1, t2) = (blocks_from(c1, p1, k + 1), blocks_from(c2, p2, k + 1));
    let (h1, h2) = (chunk_head(c1, k + 1 == n1, k), chunk_head(c2, k + 1 == n2, k));
    chunk_body_parts(c1, p1, k);
    chunk_body_parts(c2, p2, k);
    assert(blocks_from(c1, p1, k) + x =~= framed(b1) + (t1 + x));
    assert(blocks_from(c2, p2, k) + y =~= framed(b2) + (t2 + y));
    blocks_agree(b1, t1 + x, b2, t2 + y);
    split_at_separator(h1, chunk(p1, k), h2, chunk(p2, k), 0x3bu8);
    assert(h1.last() == h2.last());
    assert((k + 1 == n1) == (k + 1 == n2));
    if k == 0 {
        assert(h1.take(h1.len() - 4) =~= c1);
        assert(h2.take(h2.len() - 4) =~= c2);
    }
    let from = k * CHUNK;
    assert(chunk_start(p1.len(), k) == from && chunk_start(p2.len(), k) == from);
    if k + 1 == n1 {
        assert(t1 + x =~= x);
        assert(t2 + y =~= y);
        assert(chunk(p1, k) =~= p1.skip(from));
        assert(chunk(p2, k) =~= p2.skip(from));
    } else {
        chunks_agree(c1, p1, x, c2, p2, y, k + 1);
        let to = (k + 1) * CHUNK;
        assert(chunk_start(p1.len(), k + 1) == to && chunk_start(p2.len(), k + 1) == to);
        assert(p1.skip(from) =~= chunk(p1, k) + p1.skip(to));
        assert(p2.skip(from) =~= chunk(p2, k) + p2.skip(to));
    }
}

/// The same packets have the same reading: the same control block, the same payload, and
/// the same bytes behind them.
proof fn packets_agree(
    c1: Seq<char>,
    p1: Seq<u8>,
    x: Seq<u8>,
    c2: Seq<char>,
    p2: Seq<u8>,
    y: Seq<u8>,
)
    requires
        clean(c1),
        clean(c2),
        lacks(p1, ESC),
        lacks(p2, ESC),
        apc(encode_utf8(c1), p1) + x == apc(encode_utf8(c2), p2) + y,
    ensures
        c1 == c2,
        p1 == p2,
        x == y,
{
    let (e1, e2) = (encode_utf8(c1), encode_utf8(c2));
    clean_bytes(c1);
    clean_bytes(c2);
    if p1.len() == 0 && p2.len() == 0 {
        blocks_agree(e1, x, e2, y);
        assert(p1 =~= p2);
    } else if p1.len() == 0 {
        a_chunk_has_a_semicolon(e1, x, e2, p2, y);
    } else if p2.len() == 0 {
        a_chunk_has_a_semicolon(e2, y, e1, p1, x);
    } else {
        blocks_in_two_parts(e1, p1, 0);
        blocks_in_two_parts(e2, p2, 0);
        assert(chunked(e1, p1, 0) + blocks_from(e1, p1, 0) =~= blocks_from(e1, p1, 0));
        assert(chunked(e2, p2, 0) + blocks_from(e2, p2, 0) =~= blocks_from(e2, p2, 0));
        chunks_agree(e1, p1, x, e2, p2, y, 0);
        assert(p1.skip(0) =~= p1);
        assert(p2.skip(0) =~= p2);
    }
    same_bytes_same_text(c1, c2);
}

/// A packet without a payload is told from one with a payload by the semicolon.
proof fn a_chunk_has_a_semicolon(a: Seq<u8>, x: Seq<u8>, c: Seq<u8>, p: Seq<u8>, y: Seq<u8>)
    requires
        lacks(a, ESC),
        lacks(a, 0x3bu8),
        lacks(c, ESC),
        lacks(c, 0x3bu8),
        lacks(p, ESC),
        p.len() > 0,
    ensures
        framed(a) + x != apc(c, p) + y,
{
    let body = chunk_body(c, p, 0);
    let rest = blocks_from(c, p, 1);
    blocks_in_two_parts(c, p, 0);
    chunk_body_parts(c, p, 0);
    let head = chunk_head(c, 1 == chunk_count(p.len()), 0);
    assert(apc(c, p) + y =~= framed(body) + (rest + y)) by {
        assert(chunked(c, p, 0) + blocks_from(c, p, 0) =~= blocks_from(c, p, 0));
    }
    if framed(a) + x == apc(c, p) + y {
        blocks_agree(a, x, body, rest + y);
        assert(body[head.len() as int] == 0x3b);
    }
}

// ---- control blocks -----------------------------------------------------------------

/// Decimal numbers are clean, and hold no comma.
proof fn clean_digits(n: nat)
    ensures
        clean(digits(n)),
        lacks(digits(n), ','),
{
    digits_read_back(n);
    assert forall|i: int| 0 <= i < digits(n).len() implies ' ' <= #[trigger] digits(n)[i] <= '~'
        && digits(n)[i] != ';' && digits(n)[i] != ',' by {
        assert(is_digit(digits(n)[i]));
    }
}

/// Signed decimal numbers are clean, and hold no comma.
proof fn clean_signed_digits(n: int)
    ensures
        clean(signed_digits(n)),
        lacks(signed_digits(n), ','),
{
    clean_digits(if n < 0 { (-n) as nat } else { n as nat });
}

/// What follows the first number of a transmission's control block.
spec fn transmit_tail(height: u32, id: u32) -> (Seq<char>, Seq<char>, Seq<char>) {
    let t3 = "q=2"@;
    let t2 = "i="@ + digits(id as nat).push(',') + t3;
    let t1 = "v="@ + digits(height as nat).push(',') + t2;
    (t1, t2, t3)
}

proof fn transmit_control_parts(id: u32, w: u32, h: u32)
    ensures
        clean(transmit_control(false, id, w, h)),
        transmit_control(false, id, w, h).len() > 11,
        transmit_control(false, id, w, h)[2] == 't',
        transmit_control(false, id, w, h).skip(11) == digits(w as nat).push(',') + transmit_tail(
            h,
            id,
        ).0,
{
    reveal_strlit("a=t,f=32,s=");
    reveal_strlit(",v=");
    reveal_strlit(",i=");
    reveal_strlit(",q=2");
    reveal_strlit("v=");
    reveal_strlit("i=");
    reveal_strlit("q=2");
    clean_digits(w as nat);
    clean_digits(h as nat);
    clean_digits(id as nat);
    digits_read_back(w as nat);
    let c = transmit_control(false, id, w, h);
    assert(c.skip(11) =~= digits(w as nat).push(',') + transmit_tail(h, id).0);
    assert(c[2] == "a=t,f=32,s="@[2]);
}

/// Two transmissions with the same control block are of the same id and size.
proof fn transmit_controls_agree(a: (u32, u32, u32), b: (u32, u32, u32))
    requires
        transmit_control(false, a.0, a.1, a.2) == transmit_control(false, b.0, b.1, b.2),
    ensures
        a == b,
{
    reveal_strlit("v=");
    reveal_strlit("i=");
    let (ta, tb) = (transmit_tail(a.2, a.0), transmit_tail(b.2, b.0));
    transmit_control_parts(a.0, a.1, a.2);
    transmit_control_parts(b.0, b.1, b.2);
    clean_digits(a.0 as nat);
    clean_digits(a.1 as nat);
    clean_digits(a.2 as nat);
    clean_digits(b.0 as nat);
    clean_digits(b.1 as nat);
    clean_digits(b.2 as nat);
    split_at_separator(digits(a.1 as nat), ta.0, digits(b.1 as nat), tb.0, ',');
    assert(ta.0.skip(2) =~= digits(a.2 as nat).push(',') + ta.1);
    assert(tb.0.skip(2) =~= digits(b.2 as nat).push(',') + tb.1);
    split_at_separator(digits(a.2 as nat), ta.1, digits(b.2 as nat), tb.1, ',');
    assert(ta.1.skip(2) =~= digits(a.0 as nat).push(',') + ta.2);
    assert(tb.1.skip(2) =~= digits(b.0 as nat).push(',') + tb.2);
    split_at_separator(digits(a.0 as nat), ta.2, digits(b.0 as nat), tb.2, ',');
    digits_injective(a.0 as nat, b.0 as nat);
    digits_injective(a.1 as nat, b.1 as nat);
    digits_injective(a.2 as nat, b.2 as nat);
}

/// What follows the first number of a deletion's control block.
spec fn delete_tail(placement_id: u32) -> Seq<char> {
    "p="@ + digits(placement_id as nat).push(',') + "q=2"@
}

proof fn delete_control_parts(img_id: u32, placement_id: u32)
    ensures
        clean(delete_control(img_id, placement_id)),
        delete_control(img_id, placement_id).len() > 10,
        delete_control(img_id, placement_id)[2] == 'd',
        delete_control(img_id, placement_id).skip(10) == digits(img_id as nat).push(',')
            + delete_tail(placement_id),
{
    reveal_strlit("a=d,d=i,i=");
    reveal_strlit(",p=");
    reveal_strlit(",q=2");
    reveal_strlit("p=");
    reveal_strlit("q=2");
    clean_digits(img_id as nat);
    clean_digits(placement_id as nat);
    digits_read_back(img_id as nat);
    let c = delete_control(img_id, placement_id);
    assert(c.skip(10) =~= digits(img_id as nat).push(',') + delete_tail(placement_id));
    assert(c[2] == "a=d,d=i,i="@[2]);
}

/// Two deletions with the same control block are of the same placement.
proof fn delete_controls_agree(a: (u32, u32), b: (u32, u32))
    requires
        delete_control(a.0, a.1) == delete_control(b.0, b.1),
    ensures
        a == b,
{
    reveal_strlit("p=");
    delete_control_parts(a.0, a.1);
    delete_control_parts(b.0, b.1);
    clean_digits(a.0 as nat);
    clean_digits(a.1 as nat);
    clean_digits(b.0 as nat);
    clean_digits(b.1 as nat);
    let (ta, tb) = (delete_tail(a.1), delete_tail(b.1));
    split_at_separator(digits(a.0 as nat), ta, digits(b.0 as nat), tb, ',');
    assert(ta.skip(2) =~= digits(a.1 as nat).push(',') + "q=2"@);
    assert(tb.skip(2) =~= digits(b.1 as nat).push(',') + "q=2"@);
    split_at_separator(digits(a.1 as nat), "q=2"@, digits(b.1 as nat), "q=2"@, ',');
    digits_injective(a.0 as nat, b.0 as nat);
    digits_injective(a.1 as nat, b.1 as nat);
}

/// The optional keys of a placement, from the first on, the second on, and so forth.
spec fn option_texts(cols: u32, rows: u32, xoff: u32, yoff: u32) -> (
    Seq<char>,
    Seq<char>,
    Seq<char>,
    Seq<char>,
) {
    let o4 = nonzero_key(",Y="@, yoff);
    let o3 = nonzero_key(",X="@, xoff) + o4;
    let o2 = nonzero_key(",r="@, rows) + o3;
    let o1 = nonzero_key(",c="@, cols) + o2;
    (o1, o2, o3, o4)
}

/// Whether a text is empty, or starts with a comma and a key that is not the given one.
spec fn goes_on_without(s: Seq<char>, key: char) -> bool {
    s.len() > 0 ==> s.len() > 1 && s[0] == ',' && s[1] != key
}

/// An optional key reads back, if no later key is called like it.
proof fn an_option_reads_back(key: Seq<char>, m: u32, x: Seq<char>, n: u32, y: Seq<char>)
    requires
        key.len() == 3,
        key[0] == ',',
        nonzero_key(key, m) + x == nonzero_key(key, n) + y,
        goes_on_without(x, key[1]),
        goes_on_without(y, key[1]),
    ensures
        m == n,
        x == y,
{
    let s = nonzero_key(key, m) + x;
    digits_read_back(m as nat);
    digits_read_back(n as nat);
    clean_digits(m as nat);
    clean_digits(n as nat);
    if m > 0 && n > 0 {
        assert(s.skip(3) =~= digits(m as nat) + x);
        assert((nonzero_key(key, n) + y).skip(3) =~= digits(n as nat) + y);
        split_at_mark(digits(m as nat), x, digits(n as nat), y, ',');
        digits_injective(m as nat, n as nat);
    } else if m > 0 {
        assert(nonzero_key(key, n) + y =~= y);
        assert(s[1] == key[1]);
    } else if n > 0 {
        assert(s =~= x);
        assert((nonzero_key(key, n) + y)[1] == key[1]);
    } else {
        assert(s =~= x);
        assert(nonzero_key(key, n) + y =~= y);
    }
}

proof fn options_follow_their_order(cols: u32, rows: u32, xoff: u32, yoff: u32)
    ensures
        ({
            let o = option_texts(cols, rows, xoff, yoff);
            &&& goes_on_without(o.1, 'c')
            &&& goes_on_without(o.2, 'r')
            &&& goes_on_without(o.3, 'X')
        }),
        clean(option_texts(cols, rows, xoff, yoff).0),
{
    reveal_strlit(",c=");
    reveal_strlit(",r=");
    reveal_strlit(",X=");
    reveal_strlit(",Y=");
    clean_digits(cols as nat);
    clean_digits(rows as nat);
    clean_digits(xoff as nat);
    clean_digits(yoff as nat);
    let o = option_texts(cols, rows, xoff, yoff);
    let (kc, kr) = (nonzero_key(",c="@, cols), nonzero_key(",r="@, rows));
    let (kx, ky) = (nonzero_key(",X="@, xoff), nonzero_key(",Y="@, yoff));
    assert(clean(kc) && clean(kr) && clean(kx) && clean(ky));
    assert(o.3.len() > 0 ==> o.3[1] == 'Y');
    assert(o.2.len() > 0 ==> (o.2[0] == ',' && (o.2[1] == 'X' || o.2[1] == 'Y')));
    assert(o.1.len() > 0 ==> (o.1[0] == ',' && (o.1[1] == 'r' || o.1[1] == 'X' || o.1[1] == 'Y')));
}

/// The same optional keys have the same values.
proof fn options_agree(a: (u32, u32, u32, u32), b: (u32, u32, u32, u32))
    requires
        option_texts(a.0, a.1, a.2, a.3).0 == option_texts(b.0, b.1, b.2, b.3).0,
    ensures
        a == b,
{
    reveal_strlit(",c=");
    reveal_strlit(",r=");
    reveal_strlit(",X=");
    reveal_strlit(",Y=");
    options_follow_their_order(a.0, a.1, a.2, a.3);
    options_follow_their_order(b.0, b.1, b.2, b.3);
    let oa = option_texts(a.0, a.1, a.2, a.3);
    let ob = option_texts(b.0, b.1, b.2, b.3);
    an_option_reads_back(",c="@, a.0, oa.1, b.0, ob.1);
    an_option_reads_back(",r="@, a.1, oa.2, b.1, ob.2);
    an_option_reads_back(",X="@, a.2, oa.3, b.2, ob.3);
    let none = Seq::<char>::empty();
    assert(oa.3 + none =~= oa.3);
    assert(ob.3 + none =~= ob.3);
    an_option_reads_back(",Y="@, a.3, none, b.3, none);
}

/// What follows the first number of a placement's control block.
spec fn place_tail(placement_id: u32, z: i32, options: Seq<char>) -> (
    Seq<char>,
    Seq<char>,
    Seq<char>,
) {
    let t3 = "C=1,q=2"@ + options;
    let t2 = "z="@ + signed_digits(z as int).push(',') + t3;
    let t1 = "p="@ + digits(placement_id as nat).push(',') + t2;
    (t1, t2, t3)
}

/// The control block of a placement, by its numbers.
spec fn place_text(img_id: u32, placement_id: u32, z: i32, o: (u32, u32, u32, u32)) -> Seq<char> {
    place_scaled_control(img_id, placement_id, z, o.0, o.1, o.2, o.3)
}

#[verifier::rlimit(40)]
proof fn place_control_parts(img_id: u32, placement_id: u32, z: i32, o: (u32, u32, u32, u32))
    ensures
        clean(place_text(img_id, placement_id, z, o)),
        place_text(img_id, placement_id, z, o).len() > 6,
        place_text(img_id, placement_id, z, o)[2] == 'p',
        place_text(img_id, placement_id, z, o).skip(6) == digits(img_id as nat).push(',')
            + place_tail(placement_id, z, option_texts(o.0, o.1, o.2, o.3).0).0,
{
    reveal_strlit("a=p,i=");
    reveal_strlit(",p=");
    reveal_strlit(",z=");
    reveal_strlit(",C=1,q=2");
    reveal_strlit("p=");
    reveal_strlit("z=");
    reveal_strlit("C=1,q=2");
    clean_digits(img_id as nat);
    clean_digits(placement_id as nat);
    clean_signed_digits(z as int);
    digits_read_back(img_id as nat);
    options_follow_their_order(o.0, o.1, o.2, o.3);
    let options = option_texts(o.0, o.1, o.2, o.3).0;
    let c = place_text(img_id, placement_id, z, o);
    let base = place_control(img_id, placement_id, z);
    assert(c =~= base + options);
    assert(clean(base));
    assert(base[2] == "a=p,i="@[2]);
    assert(c.skip(6) =~= digits(img_id as nat).push(',') + place_tail(placement_id, z, options).0);
}

/// Two placements with the same control block are the same placement.
proof fn place_controls_agree(
    a: (u32, u32, i32),
    oa: (u32, u32, u32, u32),
    b: (u32, u32, i32),
    ob: (u32, u32, u32, u32),
)
    requires
        place_text(a.0, a.1, a.2, oa) == place_text(b.0, b.1, b.2, ob),
    ensures
        a == b,
        oa == ob,
{
    reveal_strlit("p=");
    reveal_strlit("z=");
    reveal_strlit("C=1,q=2");
    place_control_parts(a.0, a.1, a.2, oa);
    place_control_parts(b.0, b.1, b.2, ob);
    clean_digits(a.0 as nat);
    clean_digits(a.1 as nat);
    clean_signed_digits(a.2 as int);
    clean_digits(b.0 as nat);
    clean_digits(b.1 as nat);
    clean_signed_digits(b.2 as int);
    let (xa, xb) = (
        option_texts(oa.0, oa.1, oa.2, oa.3).0,
        option_texts(ob.0, ob.1, ob.2, ob.3).0,
    );
    let (ta, tb) = (place_tail(a.1, a.2, xa), place_tail(b.1, b.2, xb));
    split_at_separator(digits(a.0 as nat), ta.0, digits(b.0 as nat), tb.0, ',');
    assert(ta.0.skip(2) =~= digits(a.1 as nat).push(',') + ta.1);
    assert(tb.0.skip(2) =~= digits(b.1 as nat).push(',') + tb.1);
    split_at_separator(digits(a.1 as nat), ta.1, digits(b.1 as nat), tb.1, ',');
    assert(ta.1.skip(2) =~= signed_digits(a.2 as int).push(',') + ta.2);
    assert(tb.1.skip(2) =~= signed_digits(b.2 as int).push(',') + tb.2);
    split_at_separator(signed_digits(a.2 as int), ta.2, signed_digits(b.2 as int), tb.2, ',');
    assert(ta.2.skip(7) =~= xa);
    assert(tb.2.skip(7) =~= xb);
    digits_injective(a.0 as nat, b.0 as nat);
    digits_injective(a.1 as nat, b.1 as nat);
    signed_digits_injective(a.2 as int, b.2 as int);
    options_agree(oa, ob);
}

// ---- the cursor ---------------------------------------------------------------------

/// The bytes of a decimal number are those of its digits.
proof fn digit_bytes(n: nat)
    ensures
        lacks(encode_utf8(digits(n)), 0x3bu8),
        lacks(encode_utf8(digits(n)), 0x48u8),
{
    digits_read_back(n);
    let s = digits(n);
    assert(is_ascii_chars(s)) by {
        assert forall|i: int| 0 <= i < s.len() implies '\0' <= #[trigger] s[i] <= '\u{7f}' by {
            assert(is_digit(s[i]));
        }
    }
    is_ascii_chars_encode_utf8(s);
    assert forall|i: int| 0 <= i < encode_utf8(s).len() implies #[trigger] encode_utf8(s)[i] != 0x3b
        && encode_utf8(s)[i] != 0x48 by {
        assert(is_digit(s[i]));
        assert(s[i] as u8 == encode_utf8(s)[i]);
    }
}

proof fn cursor_bytes(row: u16, col: u16)
    ensures
        ({
            let r = encode_utf8(digits(row as nat));
            let c = encode_utf8(digits(col as nat));
            encode_utf8(cursor_text(row, col)) == seq![ESC, 0x5b] + r.push(0x3b) + c.push(0x48)
        }),
{
    reveal_strlit("\x1b[");
    reveal_strlit(";");
    reveal_strlit("H");
    let (r, c) = (digits(row as nat), digits(col as nat));
    let text = cursor_text(row, col);
    digits_read_back(row as nat);
    digits_read_back(col as nat);
    assert(is_ascii_chars(r)) by {
        assert forall|i: int| 0 <= i < r.len() implies '\0' <= #[trigger] r[i] <= '\u{7f}' by {
            assert(is_digit(r[i]));
        }
    }
    assert(is_ascii_chars(c)) by {
        assert forall|i: int| 0 <= i < c.len() implies '\0' <= #[trigger] c[i] <= '\u{7f}' by {
            assert(is_digit(c[i]));
        }
    }
    assert(text =~= seq!['\x1b', '['] + r.push(';') + c.push('H'));
    assert(is_ascii_chars(text)) by {
        let t = seq!['\x1b', '['] + r.push(';') + c.push('H');
        assert forall|i: int| 0 <= i < t.len() implies '\0' <= #[trigger] t[i] <= '\u{7f}' by {
            if 2 <= i < 2 + r.len() {
                assert(t[i] == r[i - 2]);
            } else if 3 + r.len() <= i < 3 + r.len() + c.len() {
                assert(t[i] == c[i - 3 - r.len()]);
            }
        }
    }
    is_ascii_chars_encode_utf8(text);
    is_ascii_chars_encode_utf8(r);
    is_ascii_chars_encode_utf8(c);
    let bytes = seq![ESC, 0x5b] + encode_utf8(r).push(0x3b) + encode_utf8(c).push(0x48);
    assert forall|i: int| 0 <= i < bytes.len() implies encode_utf8(text)[i] == #[trigger] bytes[i] by {
        assert(text[i] as u8 == encode_utf8(text)[i]);
        if 2 <= i < 2 + r.len() {
            assert(text[i] == r[i - 2]);
        } else if 3 + r.len() <= i < 3 + r.len() + c.len() {
            assert(text[i] == c[i - 3 - r.len()]);
        }
    }
    assert(encode_utf8(text) =~= bytes);
}

/// The same cursor movements are to the same cell.
proof fn cursors_agree(a: (u16, u16), x: Seq<u8>, b: (u16, u16), y: Seq<u8>)
    requires
        encode_utf8(cursor_text(a.0, a.1)) + x == encode_utf8(cursor_text(b.0, b.1)) + y,
    ensures
        a == b,
        x == y,
{
    cursor_bytes(a.0, a.1);
    cursor_bytes(b.0, b.1);
    let (ra, ca) = (encode_utf8(digits(a.0 as nat)), encode_utf8(digits(a.1 as nat)));
    let (rb, cb) = (encode_utf8(digits(b.0 as nat)), encode_utf8(digits(b.1 as nat)));
    digit_bytes(a.0 as nat);
    digit_bytes(a.1 as nat);
    digit_bytes(b.0 as nat);
    digit_bytes(b.1 as nat);
    let (ta, tb) = (ca.push(0x48) + x, cb.push(0x48) + y);
    assert((encode_utf8(cursor_text(a.0, a.1)) + x).skip(2) =~= ra.push(0x3b) + ta);
    assert((encode_utf8(cursor_text(b.0, b.1)) + y).skip(2) =~= rb.push(0x3b) + tb);
    split_at_separator(ra, ta, rb, tb, 0x3bu8);
    split_at_separator(ca, x, cb, y, 0x48u8);
    same_bytes_same_text(digits(a.0 as nat), digits(b.0 as nat));
    same_bytes_same_text(digits(a.1 as nat), digits(b.1 as nat));
    digits_injective(a.0 as nat, b.0 as nat);
    digits_injective(a.1 as nat, b.1 as nat);
}

// ---- packets and streams ------------------------------------------------------------

/// The control block and the payload of a packet that is not a cursor movement.
spec fn graphics_parts(p: Packet) -> (Seq<char>, Seq<u8>) {
    match p {
        Packet::Transmit { id, w, h, rgba } => (
            transmit_control(false, id, w, h),
            base64_text(rgba),
        ),
        Packet::Cursor { .. } => (Seq::empty(), Seq::empty()),
        Packet::Place { img_id, placement_id, z, cols, rows, xoff, yoff } => (
            place_scaled_control(img_id, placement_id, z, cols, rows, xoff, yoff),
            Seq::empty(),
        ),
        Packet::Delete { img_id, placement_id } => (
            delete_control(img_id, placement_id),
            Seq::empty(),
        ),
    }
}

/// Which letter names the action of a packet.
spec fn action(p: Packet) -> char {
    match p {
        Packet::Transmit { .. } => 't',
        Packet::Cursor { .. } => ' ',
        Packet::Place { .. } => 'p',
        Packet::Delete { .. } => 'd',
    }
}

proof fn graphics_packets(p: Packet)
    requires
        !(p is Cursor),
    ensures
        encode(p) == apc(encode_utf8(graphics_parts(p).0), graphics_parts(p).1),
        clean(graphics_parts(p).0),
        graphics_parts(p).0.len() > 2,
        graphics_parts(p).0[2] == action(p),
        lacks(graphics_parts(p).1, ESC),
{
    match p {
        Packet::Transmit { id, w, h, rgba } => {
            transmit_control_parts(id, w, h);
            base64_stays_in_its_alphabet(rgba);
        },
        Packet::Cursor { .. } => {},
        Packet::Place { img_id, placement_id, z, cols, rows, xoff, yoff } => {
            place_control_parts(img_id, placement_id, z, (cols, rows, xoff, yoff));
        },
        Packet::Delete { img_id, placement_id } => {
            delete_control_parts(img_id, placement_id);
        },
    }
}

/// The first two bytes of a packet: `ESC [` for the cursor, `ESC _` for the rest.
proof fn first_bytes(p: Packet)
    ensures
        encode(p).len() > 2,
        encode(p)[1] == (if p is Cursor {
            0x5bu8
        } else {
            0x5f
        }),
{
    if let Packet::Cursor { row, col } = p {
        cursor_bytes(row, col);
    } else {
        graphics_packets(p);
        let (c, payload) = (encode_utf8(graphics_parts(p).0), graphics_parts(p).1);
        packets_are_framed(c, payload);
        let bytes = apc(c, payload);
        assert(bytes.take(3) =~= APC_GRAPHICS_INTRODUCER@);
        assert(bytes[1] == bytes.take(3)[1]);
    }
}

/// A packet ends where it ends: two packets at the start of the same bytes are the same
/// packet.
pub proof fn packets_have_one_reading(p: Packet, x: Seq<u8>, q: Packet, y: Seq<u8>)
    requires
        encode(p) + x == encode(q) + y,
    ensures
        p == q,
        x == y,
{
    first_bytes(p);
    first_bytes(q);
    assert((encode(p) + x)[1] == encode(p)[1]);
    assert((encode(q) + y)[1] == encode(q)[1]);
    if let (Packet::Cursor { row: r1, col: c1 }, Packet::Cursor { row: r2, col: c2 }) = (p, q) {
        cursors_agree((r1, c1), x, (r2, c2), y);
    } else {
        graphics_packets(p);
        graphics_packets(q);
        let (pp, qq) = (graphics_parts(p), graphics_parts(q));
        packets_agree(pp.0, pp.1, x, qq.0, qq.1, y);
        assert(action(p) == action(q));
        match (p, q) {
            (
                Packet::Transmit { id: i1, w: w1, h: h1, rgba: a },
                Packet::Transmit { id: i2, w: w2, h: h2, rgba: b },
            ) => {
                transmit_controls_agree((i1, w1, h1), (i2, w2, h2));
                base64_is_faithful(a, b);
            },
            (
                Packet::Place { img_id: i1, placement_id: p1, z: z1, cols: c1, rows: r1, xoff: x1, yoff: y1 },
                Packet::Place { img_id: i2, placement_id: p2, z: z2, cols: c2, rows: r2, xoff: x2, yoff: y2 },
            ) => {
                place_controls_agree((i1, p1, z1), (c1, r1, x1, y1), (i2, p2, z2), (c2, r2, x2, y2));
            },
            (
                Packet::Delete { img_id: i1, placement_id: p1 },
                Packet::Delete { img_id: i2, placement_id: p2 },
            ) => {
                delete_controls_agree((i1, p1), (i2, p2));
            },
            _ => {},
        }
    }
}

/// Bytes have one reading: two runs of packets with the same bytes are the same run.
pub proof fn streams_have_one_reading(a: Seq<Packet>, b: Seq<Packet>)
    requires
        stream(a) == stream(b),
    ensures
        a == b,
    decreases a.len(),
{
    if a.len() > 0 {
        first_packet(a);
    }
    if b.len() > 0 {
        first_packet(b);
    }
    if a.len() > 0 && b.len() > 0 {
        packets_have_one_reading(a[0], stream(a.skip(1)), b[0], stream(b.skip(1)));
        streams_have_one_reading(a.skip(1), b.skip(1));
        assert(a =~= seq![a[0]] + a.skip(1));
        assert(b =~= seq![b[0]] + b.skip(1));
    } else {
        assert(a =~= b);
    }
}

proof fn first_packet(a: Seq<Packet>)
    requires
        a.len() > 0,
    ensures
        stream(a) == encode(a[0]) + stream(a.skip(1)),
        stream(a).len() > 0,
{
    stream_of_both(seq![a[0]], a.skip(1));
    stream_of_one(a[0]);
    assert(a =~= seq![a[0]] + a.skip(1));
    first_bytes(a[0]);
}

/// The packets that bytes are.
pub open spec fn packets_of(bytes: Seq<u8>) -> Seq<Packet> {
    choose|ps: Seq<Packet>| stream(ps) == bytes
}

/// The state of a terminal after it has read the bytes of some packets.
pub open spec fn read_by(s: Screen, bytes: Seq<u8>) -> Screen {
    play(s, packets_of(bytes))
}

/// The terminal understands what was meant: the bytes of a run of packets are read as
/// those packets, and so is what follows from them.
pub proof fn a_terminal_reads_what_was_sent(s: Screen, ps: Seq<Packet>)
    ensures
        packets_of(stream(ps)) == ps,
        read_by(s, stream(ps)) == play(s, ps),
{
    streams_have_one_reading(packets_of(stream(ps)), ps);
}

/// What is drawn is what is seen, down to the bytes. Once a terminal has read what a tick
/// wrote, it holds every image of the pass, shows every thing that has an image and a place
/// at that place, shows no other but those that keep what they showed before, and of the
/// images of the pass shows nothing else.
pub proof fn a_tick_is_seen_as_drawn(s: Screen, t: Tableau, its: Seq<Item>, gone: Seq<u128>)
    requires
        t.wf(),
        faithful(s, t),
        t.begun().fits_all(its),
        distinct_slots(its),
        lists_unseen(t.begun().drew_all(its).book, gone),
    ensures
        ({
            let drawn = t.begun().drew_all(its);
            let e = read_by(
                s,
                stream(t.begun().all_packets(its)) + stream(
                    retire_packets(drawn.book.slots, gone),
                ),
            );
            &&& faithful(e, drawn.retired())
            &&& seen_as_drawn(e, t.begun(), its)
        }),
{
    let drawn = t.begun().drew_all(its);
    let (all, last) = (t.begun().all_packets(its), retire_packets(drawn.book.slots, gone));
    stream_of_both(all, last);
    a_terminal_reads_what_was_sent(s, all + last);
    a_tick_is_faithful(s, t, its, gone);
    a_tick_shows_what_it_drew(s, t, its, gone);
}

} // verus!
