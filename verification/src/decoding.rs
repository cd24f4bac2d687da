//! What comes out of a transmission again: the pixels, decoded from its base64 text, and
//! the one letter by which storing an image differs from showing it at once.

use vstd::prelude::*;
use vstd::string::*;
use vstd::utf8::{encode_utf8, is_ascii_chars, is_ascii_chars_encode_utf8};

use crate::digits::{digits, digits_read_back, is_digit};
use crate::proto::{
    base64_len, base64_symbol, base64_text, byte_at, chunk_body, chunk_count, chunked,
    chunks_make_up_the_payload, framed, joined, padding_marks_the_end, sextet, sextet_in_range,
    sextet_past_the_end, transmission, transmit_control, APC_GRAPHICS_INTRODUCER,
};

verus! {

// ---- base64, read back --------------------------------------------------------------

/// The value of a character of the standard base64 alphabet. Padding is worth nothing.
pub open spec fn symbol_value(c: u8) -> int {
    if 65 <= c <= 90 {
        c - 65
    } else if 97 <= c <= 122 {
        c - 71
    } else if 48 <= c <= 57 {
        c + 4
    } else if c == 43 {
        62
    } else if c == 47 {
        63
    } else {
        0
    }
}

/// How many characters of padding a text ends in, of two at most.
pub open spec fn padding(text: Seq<u8>) -> nat {
    if text.len() >= 2 && text[text.len() - 2] == 61 {
        2
    } else if text.len() >= 1 && text[text.len() - 1] == 61 {
        1
    } else {
        0
    }
}

/// The 24 bits of a group of four characters.
pub open spec fn group_value(text: Seq<u8>, g: int) -> int {
    symbol_value(text[4 * g]) * 262144 + symbol_value(text[4 * g + 1]) * 4096 + symbol_value(
        text[4 * g + 2],
    ) * 64 + symbol_value(text[4 * g + 3])
}

/// The bytes of a padded base64 text: three for each group of four characters, less the
/// padding.
pub open spec fn base64_decoded(text: Seq<u8>) -> Seq<u8> {
    Seq::new(
        (text.len() / 4 * 3 - padding(text)) as nat,
        |i: int|
            {
                let v = group_value(text, i / 3);
                if i % 3 == 0 {
                    (v / 65536) as u8
                } else if i % 3 == 1 {
                    (v / 256 % 256) as u8
                } else {
                    (v % 256) as u8
                }
            },
    )
}

proof fn symbols_read_back(v: int)
    requires
        0 <= v < 64,
    ensures
        symbol_value(base64_symbol(v)) == v,
{
}

proof fn a_character_reads_back(bytes: Seq<u8>, k: int)
    requires
        0 <= k < base64_len(bytes.len()),
    ensures
        symbol_value(base64_text(bytes)[k]) == sextet(bytes, k),
{
    sextet_in_range(bytes, k);
    if 6 * k >= 8 * bytes.len() {
        sextet_past_the_end(bytes, k);
    } else {
        symbols_read_back(sextet(bytes, k));
    }
}

proof fn six_bits_at_a_time(v: int)
    requires
        0 <= v,
    ensures
        v / 262144 * 262144 + v / 4096 % 64 * 4096 + v / 64 % 64 * 64 + v % 64 == v,
{
    let (a, b, c) = (v / 64, v / 4096, v / 262144);
    assert(b == a / 64 && c == b / 64);
    assert(v == 64 * a + v % 64);
    assert(a == 64 * b + a % 64);
    assert(b == 64 * c + b % 64);
}

proof fn eight_bits_at_a_time(x: int, y: int, z: int)
    requires
        0 <= x < 256,
        0 <= y < 256,
        0 <= z < 256,
    ensures
        ({
            let v = x * 65536 + y * 256 + z;
            v / 65536 == x && v / 256 % 256 == y && v % 256 == z
        }),
{
    let v = x * 65536 + y * 256 + z;
    assert(v / 256 == x * 256 + y);
}

proof fn the_bits_of_a_group(bytes: Seq<u8>, g: int, v: int)
    requires
        0 <= g,
        v == byte_at(bytes, 3 * g) * 65536 + byte_at(bytes, 3 * g + 1) * 256 + byte_at(
            bytes,
            3 * g + 2,
        ),
    ensures
        sextet(bytes, 4 * g) == v / 262144,
        sextet(bytes, 4 * g + 1) == v / 4096 % 64,
        sextet(bytes, 4 * g + 2) == v / 64 % 64,
        sextet(bytes, 4 * g + 3) == v % 64,
{
    assert((4 * g) / 4 == g && (4 * g) % 4 == 0);
    assert((4 * g + 1) / 4 == g && (4 * g + 1) % 4 == 1);
    assert((4 * g + 2) / 4 == g && (4 * g + 2) % 4 == 2);
    assert((4 * g + 3) / 4 == g && (4 * g + 3) % 4 == 3);
}

proof fn a_group_reads_back(bytes: Seq<u8>, g: int)
    requires
        0 <= g,
        3 * g < bytes.len(),
    ensures
        group_value(base64_text(bytes), g) == byte_at(bytes, 3 * g) * 65536 + byte_at(
            bytes,
            3 * g + 1,
        ) * 256 + byte_at(bytes, 3 * g + 2),
{
    assert(4 * g + 3 < base64_len(bytes.len()));
    a_character_reads_back(bytes, 4 * g);
    a_character_reads_back(bytes, 4 * g + 1);
    a_character_reads_back(bytes, 4 * g + 2);
    a_character_reads_back(bytes, 4 * g + 3);
    let v = byte_at(bytes, 3 * g) * 65536 + byte_at(bytes, 3 * g + 1) * 256 + byte_at(
        bytes,
        3 * g + 2,
    );
    the_bits_of_a_group(bytes, g, v);
    six_bits_at_a_time(v);
}

proof fn a_byte_reads_back(bytes: Seq<u8>, i: int)
    requires
        0 <= i < bytes.len(),
    ensures
        ({
            let v = group_value(base64_text(bytes), i / 3);
            bytes[i] == (if i % 3 == 0 {
                v / 65536
            } else if i % 3 == 1 {
                v / 256 % 256
            } else {
                v % 256
            })
        }),
{
    let g = i / 3;
    a_group_reads_back(bytes, g);
    eight_bits_at_a_time(byte_at(bytes, 3 * g), byte_at(bytes, 3 * g + 1), byte_at(bytes, 3 * g + 2));
    assert(i == 3 * g + i % 3);
}

proof fn padding_tells_the_length(bytes: Seq<u8>)
    ensures
        base64_text(bytes).len() / 4 * 3 - padding(base64_text(bytes)) == bytes.len(),
{
    let text = base64_text(bytes);
    if bytes.len() > 0 {
        padding_marks_the_end(bytes, text.len() - 1);
        padding_marks_the_end(bytes, text.len() - 2);
    }
}

/// Decoding undoes encoding.
pub proof fn base64_reads_back(bytes: Seq<u8>)
    ensures
        base64_decoded(base64_text(bytes)) == bytes,
{
    let text = base64_text(bytes);
    let n = bytes.len() as int;
    padding_tells_the_length(bytes);
    assert forall|i: int| 0 <= i < n implies #[trigger] base64_decoded(text)[i] == bytes[i] by {
        a_byte_reads_back(bytes, i);
    }
    assert(base64_decoded(text) =~= bytes);
}

/// The terminal gets the pixels: a transmission is a run of blocks whose chunks, put
/// together and decoded, are the bytes that were sent, however many chunks there are. Only
/// a transmission of no bytes has no chunk.
pub proof fn the_pixels_come_out_again(
    display: bool,
    id: u32,
    width: u32,
    height: u32,
    rgba: Seq<u8>,
)
    ensures
        ({
            let control = encode_utf8(transmit_control(display, id, width, height));
            let payload = base64_text(rgba);
            let n = chunk_count(payload.len());
            &&& base64_decoded(joined(payload, n)) == rgba
            &&& n == 0 <==> rgba.len() == 0
            &&& n > 0 ==> transmission(display, id, width, height, rgba) == chunked(
                control,
                payload,
                n,
            )
        }),
{
    chunks_make_up_the_payload(base64_text(rgba));
    base64_reads_back(rgba);
}

// ---- storing and showing ------------------------------------------------------------

/// Whether two sequences have one length and differ at one index alone.
pub open spec fn differ_at(a: Seq<u8>, b: Seq<u8>, at: int) -> bool {
    &&& a.len() == b.len()
    &&& 0 <= at < a.len()
    &&& a[at] != b[at]
    &&& forall|i: int| 0 <= i < a.len() && i != at ==> #[trigger] a[i] == b[i]
}

proof fn blocks_differ(a: Seq<u8>, b: Seq<u8>, payload: Seq<u8>, n: nat)
    requires
        differ_at(a, b, 2),
        n > 0,
    ensures
        differ_at(chunked(a, payload, n), chunked(b, payload, n), 5),
        chunked(a, payload, n)[5] == a[2],
        chunked(b, payload, n)[5] == b[2],
    decreases n,
{
    let last = (n - 1) as nat;
    let (ba, bb) = (chunk_body(a, payload, last), chunk_body(b, payload, last));
    let (x, y) = (chunked(a, payload, n), chunked(b, payload, n));
    if n == 1 {
        assert(chunked(a, payload, 0) =~= Seq::<u8>::empty());
        assert(chunked(b, payload, 0) =~= Seq::<u8>::empty());
        assert(x =~= framed(ba));
        assert(y =~= framed(bb));
        assert(differ_at(ba, bb, 2));
        frames_differ(ba, bb);
    } else {
        blocks_differ(a, b, payload, last);
        assert(ba == bb);
        let (p, q) = (chunked(a, payload, last), chunked(b, payload, last));
        assert(x == p + framed(ba) && y == q + framed(ba));
        assert forall|i: int| 0 <= i < x.len() && i != 5 implies #[trigger] x[i] == y[i] by {
            if i < p.len() {
                assert(x[i] == p[i] && y[i] == q[i]);
            }
        }
    }
}

proof fn frames_differ(a: Seq<u8>, b: Seq<u8>)
    requires
        differ_at(a, b, 2),
    ensures
        differ_at(framed(a), framed(b), 5),
        framed(a)[5] == a[2],
        framed(b)[5] == b[2],
{
    let (x, y) = (framed(a), framed(b));
    assert(APC_GRAPHICS_INTRODUCER@.len() == 3);
    assert(x.len() == y.len());
    assert forall|i: int| 0 <= i < x.len() && i != 5 implies #[trigger] x[i] == y[i] by {
        if 3 <= i < 3 + a.len() {
            assert(x[i] == a[i - 3] && y[i] == b[i - 3]);
        }
    }
}

proof fn controls_are_ascii(display: bool, id: u32, width: u32, height: u32)
    ensures
        is_ascii_chars(transmit_control(display, id, width, height)),
{
    reveal_strlit("a=T,f=32,s=");
    reveal_strlit("a=t,f=32,s=");
    reveal_strlit(",v=");
    reveal_strlit(",i=");
    reveal_strlit(",q=2");
    digits_are_ascii(width as nat);
    digits_are_ascii(height as nat);
    digits_are_ascii(id as nat);
}

proof fn digits_are_ascii(n: nat)
    ensures
        is_ascii_chars(digits(n)),
{
    digits_read_back(n);
    assert forall|i: int| 0 <= i < digits(n).len() implies '\0' <= #[trigger] digits(n)[i]
        <= '\u{7f}' by {
        assert(is_digit(digits(n)[i]));
    }
}

/// Showing an image at once and storing it differ by one letter: the two transmissions of
/// the same arguments have one length, and they agree but for the sixth byte, which is `T`
/// in the one and `t` in the other.
pub proof fn transmissions_differ_by_one_letter(id: u32, width: u32, height: u32, rgba: Seq<u8>)
    ensures
        ({
            let shown = transmission(true, id, width, height, rgba);
            let stored = transmission(false, id, width, height, rgba);
            &&& differ_at(shown, stored, 5)
            &&& shown[5] == 0x54
            &&& stored[5] == 0x74
        }),
{
    let (c, d) = (transmit_control(true, id, width, height), transmit_control(false, id, width, height));
    controls_are_ascii(true, id, width, height);
    controls_are_ascii(false, id, width, height);
    is_ascii_chars_encode_utf8(c);
    is_ascii_chars_encode_utf8(d);
    let (a, b) = (encode_utf8(c), encode_utf8(d));
    assert(differ_at(a, b, 2) && a[2] == 0x54 && b[2] == 0x74) by {
        reveal_strlit("a=T,f=32,s=");
        reveal_strlit("a=t,f=32,s=");
        assert(c[2] == 'T' && d[2] == 't');
        assert(a[2] == c[2] as u8 && b[2] == d[2] as u8);
        assert forall|i: int| 0 <= i < a.len() && i != 2 implies #[trigger] a[i] == b[i] by {
            assert(c[i] == d[i]);
            assert(c[i] as u8 == a[i] && d[i] as u8 == b[i]);
        }
    }
    let payload = base64_text(rgba);
    if payload.len() == 0 {
        frames_differ(a, b);
    } else {
        blocks_differ(a, b, payload, chunk_count(payload.len()));
    }
}

} // verus!
