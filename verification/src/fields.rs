//! What a terminal finds in a control block under each of its keys. A block is a list of
//! fields with commas between them, and a field is a letter, an equals sign and a value.

use vstd::prelude::*;
use vstd::string::*;
use vstd::utf8::encode_utf8;

use crate::digits::{digits, digits_read_back, is_digit, lacks, signed_digits};
use crate::frame::frame_bytes;
use crate::parse::{a_split_can_be_undone, split_once, split_once_is, split_once_is_none};
use crate::proto::{
    apc, base64_text, chunk_body, chunk_count, chunked, delete_control, framed, nonzero_key, place_control,
    place_scaled_control, transmit_control, APC_GRAPHICS_INTRODUCER, APC_TERMINATOR,
};
use crate::screen::{encode, Packet};

verus! {

/// The value of a field, if it is one of a given key.
pub open spec fn value_under(field: Seq<char>, key: char) -> Option<Seq<char>> {
    if field.len() >= 2 && field[0] == key && field[1] == '=' {
        Some(field.skip(2))
    } else {
        None
    }
}

/// The value under a key of a control block: that of the first field with the key.
pub open spec fn lookup(block: Seq<char>, key: char) -> Option<Seq<char>>
    decreases block.len(),
{
    match split_once(block, ',') {
        None => value_under(block, key),
        Some((first, rest)) => {
            proof {
                a_split_can_be_undone(block, ',');
                assert(block.len() == first.len() + 1 + rest.len());
            }
            if value_under(first, key) is Some {
                value_under(first, key)
            } else {
                lookup(rest, key)
            }
        },
    }
}

/// The value under a key of what follows a field: nothing, or a comma and more fields.
spec fn further(t: Seq<char>, key: char) -> Option<Seq<char>> {
    if t.len() == 0 {
        None
    } else {
        lookup(t.skip(1), key)
    }
}

/// A block is a field and what follows it.
proof fn first_field(k: char, v: Seq<char>, t: Seq<char>, key: char)
    requires
        k != ',',
        lacks(v, ','),
        t.len() > 0 ==> t[0] == ',',
    ensures
        lookup(seq![k, '='] + v + t, key) == (if k == key {
            Some(v)
        } else {
            further(t, key)
        }),
{
    let f = seq![k, '='] + v;
    assert(lacks(f, ',')) by {
        assert forall|i: int| 0 <= i < f.len() implies #[trigger] f[i] != ',' by {
            if i >= 2 {
                assert(f[i] == v[i - 2]);
            }
        }
    }
    assert(f.skip(2) =~= v);
    if t.len() == 0 {
        assert(f + t =~= f);
        split_once_is_none(f, ',');
    } else {
        assert(f + t =~= f.push(',') + t.skip(1));
        split_once_is(f, ',', t.skip(1));
    }
}

/// What follows a field is a field, of a value, and what follows that.
proof fn next_field(k: char, v: Seq<char>, t: Seq<char>, key: char)
    requires
        k != ',',
        lacks(v, ','),
        t.len() > 0 ==> t[0] == ',',
    ensures
        further(seq![',', k, '='] + v + t, key) == (if k == key {
            Some(v)
        } else {
            further(t, key)
        }),
{
    first_field(k, v, t, key);
    assert((seq![',', k, '='] + v + t).skip(1) =~= seq![k, '='] + v + t);
}

/// A field that is left out for a zero.
proof fn next_nonzero_field(name: Seq<char>, k: char, n: u32, t: Seq<char>, key: char)
    requires
        name == seq![',', k, '='],
        k != ',',
        t.len() > 0 ==> t[0] == ',',
    ensures
        further(nonzero_key(name, n) + t, key) == (if k == key && n > 0 {
            Some(digits(n as nat))
        } else {
            further(t, key)
        }),
        (nonzero_key(name, n) + t).len() > 0 ==> (nonzero_key(name, n) + t)[0] == ',',
{
    numbers_have_no_comma(n as int);
    if n > 0 {
        next_field(k, digits(n as nat), t, key);
    } else {
        assert(nonzero_key(name, n) + t =~= t);
    }
}

proof fn numbers_have_no_comma(n: int)
    ensures
        n >= 0 ==> lacks(digits(n as nat), ','),
        lacks(signed_digits(n), ','),
{
    let m = if n < 0 {
        (-n) as nat
    } else {
        n as nat
    };
    digits_read_back(m);
    let d = digits(m);
    assert forall|i: int| 0 <= i < d.len() implies #[trigger] d[i] != ',' by {
        assert(is_digit(d[i]));
    }
    let s = signed_digits(n);
    assert forall|i: int| 0 <= i < s.len() implies #[trigger] s[i] != ',' by {
        if n < 0 && i > 0 {
            assert(s[i] == d[i - 1]);
        }
    }
}

/// The optional fields of a placement.
proof fn options_under(cols: u32, rows: u32, xoff: u32, yoff: u32, key: char)
    ensures
        ({
            let t = nonzero_key(",c="@, cols) + nonzero_key(",r="@, rows) + nonzero_key(",X="@, xoff)
                + nonzero_key(",Y="@, yoff);
            let none: Option<Seq<char>> = None;
            &&& t.len() > 0 ==> t[0] == ','
            &&& further(t, key) == (if key == 'c' && cols > 0 {
                Some(digits(cols as nat))
            } else if key == 'r' && rows > 0 {
                Some(digits(rows as nat))
            } else if key == 'X' && xoff > 0 {
                Some(digits(xoff as nat))
            } else if key == 'Y' && yoff > 0 {
                Some(digits(yoff as nat))
            } else {
                none
            })
        }),
{
    reveal_strlit(",c=");
    reveal_strlit(",r=");
    reveal_strlit(",X=");
    reveal_strlit(",Y=");
    assert(",c="@ =~= seq![',', 'c', '=']);
    assert(",r="@ =~= seq![',', 'r', '=']);
    assert(",X="@ =~= seq![',', 'X', '=']);
    assert(",Y="@ =~= seq![',', 'Y', '=']);
    let e = Seq::<char>::empty();
    let t4 = nonzero_key(",Y="@, yoff) + e;
    let t3 = nonzero_key(",X="@, xoff) + t4;
    let t2 = nonzero_key(",r="@, rows) + t3;
    let t1 = nonzero_key(",c="@, cols) + t2;
    next_nonzero_field(",Y="@, 'Y', yoff, e, key);
    next_nonzero_field(",X="@, 'X', xoff, t4, key);
    next_nonzero_field(",r="@, 'r', rows, t3, key);
    next_nonzero_field(",c="@, 'c', cols, t2, key);
    assert(t1 =~= nonzero_key(",c="@, cols) + nonzero_key(",r="@, rows) + nonzero_key(",X="@, xoff)
        + nonzero_key(",Y="@, yoff));
}

/// The fields of a placement before its optional ones.
proof fn placement_under(img_id: u32, placement_id: u32, z: i32, t: Seq<char>, key: char)
    requires
        t.len() > 0 ==> t[0] == ',',
    ensures
        lookup(place_control(img_id, placement_id, z) + t, key) == (if key == 'a' {
            Some(seq!['p'])
        } else if key == 'i' {
            Some(digits(img_id as nat))
        } else if key == 'p' {
            Some(digits(placement_id as nat))
        } else if key == 'z' {
            Some(signed_digits(z as int))
        } else if key == 'C' {
            Some(seq!['1'])
        } else if key == 'q' {
            Some(seq!['2'])
        } else {
            further(t, key)
        }),
{
    let (i, p, d) = (digits(img_id as nat), digits(placement_id as nat), signed_digits(z as int));
    numbers_have_no_comma(img_id as int);
    numbers_have_no_comma(placement_id as int);
    numbers_have_no_comma(z as int);
    let t5 = seq![',', 'q', '='] + seq!['2'] + t;
    let t4 = seq![',', 'C', '='] + seq!['1'] + t5;
    let t3 = seq![',', 'z', '='] + d + t4;
    let t2 = seq![',', 'p', '='] + p + t3;
    let t1 = seq![',', 'i', '='] + i + t2;
    placement_fields(img_id, placement_id, z, t);
    next_field('q', seq!['2'], t, key);
    next_field('C', seq!['1'], t5, key);
    next_field('z', d, t4, key);
    next_field('p', p, t3, key);
    next_field('i', i, t2, key);
    first_field('a', seq!['p'], t1, key);
}

/// A placement's control block, field by field.
proof fn placement_fields(img_id: u32, placement_id: u32, z: i32, t: Seq<char>)
    ensures
        place_control(img_id, placement_id, z) + t == seq!['a', '='] + seq!['p'] + (seq![
            ',',
            'i',
            '=',
        ] + digits(img_id as nat) + (seq![',', 'p', '='] + digits(placement_id as nat) + (seq![
            ',',
            'z',
            '=',
        ] + signed_digits(z as int) + (seq![',', 'C', '='] + seq!['1'] + (seq![',', 'q', '=']
            + seq!['2'] + t))))),
{
    reveal_strlit("a=p,i=");
    reveal_strlit(",p=");
    reveal_strlit(",z=");
    reveal_strlit(",C=1,q=2");
    let (i, p, d) = (digits(img_id as nat), digits(placement_id as nat), signed_digits(z as int));
    let t4 = seq![',', 'C', '='] + seq!['1'] + (seq![',', 'q', '='] + seq!['2'] + t);
    assert(",C=1,q=2"@ + t =~= t4);
    let t3 = seq![',', 'z', '='] + d + t4;
    assert(",z="@ + d + ",C=1,q=2"@ + t =~= t3);
    let t2 = seq![',', 'p', '='] + p + t3;
    assert(",p="@ + p + (",z="@ + d + ",C=1,q=2"@ + t) =~= t2);
    assert(place_control(img_id, placement_id, z) + t =~= "a=p,i="@ + i + (",p="@ + p + (",z="@ + d
        + ",C=1,q=2"@ + t)));
    assert("a=p,i="@ + i + t2 =~= seq!['a', '='] + seq!['p'] + (seq![',', 'i', '='] + i + t2));
}

/// A block without a payload, byte by byte.
proof fn a_bare_block(control: Seq<u8>)
    ensures
        apc(control, Seq::empty()) == seq![0x1bu8, 0x5f, 0x47] + control + seq![0x1bu8, 0x5c],
{
    assert(APC_GRAPHICS_INTRODUCER@ =~= seq![0x1bu8, 0x5f, 0x47]);
    assert(APC_TERMINATOR@ =~= seq![0x1bu8, 0x5c]);
    assert(apc(control, Seq::empty()) == framed(control));
}

// ---- laws ---------------------------------------------------------------------------

/// A placement is one graphics command. It says `p`, the image and the placement, the depth,
/// that the cursor stays and that no answer is wanted. The columns it spans are under `c`,
/// the rows under `r`, and the offset under `X` and `Y`; a zero is not said.
pub proof fn a_placement_names_its_numbers(
    img_id: u32,
    placement_id: u32,
    z: i32,
    cols: u32,
    rows: u32,
    xoff: u32,
    yoff: u32,
) -> (block: Seq<char>)
    ensures
        encode(Packet::Place { img_id, placement_id, z, cols, rows, xoff, yoff }) == seq![
            0x1bu8,
            0x5f,
            0x47,
        ] + encode_utf8(block) + seq![0x1bu8, 0x5c],
        lookup(block, 'a') == Some(seq!['p']),
        lookup(block, 'i') == Some(digits(img_id as nat)),
        lookup(block, 'p') == Some(digits(placement_id as nat)),
        lookup(block, 'z') == Some(signed_digits(z as int)),
        lookup(block, 'C') == Some(seq!['1']),
        lookup(block, 'q') == Some(seq!['2']),
        cols > 0 ==> lookup(block, 'c') == Some(digits(cols as nat)),
        rows > 0 ==> lookup(block, 'r') == Some(digits(rows as nat)),
        xoff > 0 ==> lookup(block, 'X') == Some(digits(xoff as nat)),
        yoff > 0 ==> lookup(block, 'Y') == Some(digits(yoff as nat)),
        cols == 0 ==> lookup(block, 'c') is None,
        rows == 0 ==> lookup(block, 'r') is None,
        xoff == 0 ==> lookup(block, 'X') is None,
        yoff == 0 ==> lookup(block, 'Y') is None,
{
    let block = place_scaled_control(img_id, placement_id, z, cols, rows, xoff, yoff);
    let t = nonzero_key(",c="@, cols) + nonzero_key(",r="@, rows) + nonzero_key(",X="@, xoff)
        + nonzero_key(",Y="@, yoff);
    assert(block =~= place_control(img_id, placement_id, z) + t);
    assert forall|key: char| #[trigger] lookup(block, key) == lookup(
        place_control(img_id, placement_id, z) + t,
        key,
    ) by {}
    options_under(cols, rows, xoff, yoff, 'c');
    options_under(cols, rows, xoff, yoff, 'r');
    options_under(cols, rows, xoff, yoff, 'X');
    options_under(cols, rows, xoff, yoff, 'Y');
    placement_under(img_id, placement_id, z, t, 'a');
    placement_under(img_id, placement_id, z, t, 'i');
    placement_under(img_id, placement_id, z, t, 'p');
    placement_under(img_id, placement_id, z, t, 'z');
    placement_under(img_id, placement_id, z, t, 'C');
    placement_under(img_id, placement_id, z, t, 'q');
    placement_under(img_id, placement_id, z, t, 'c');
    placement_under(img_id, placement_id, z, t, 'r');
    placement_under(img_id, placement_id, z, t, 'X');
    placement_under(img_id, placement_id, z, t, 'Y');
    a_bare_block(encode_utf8(block));
    block
}

/// A deletion is one graphics command. It says `d`, that one image is meant and its pixels
/// stay, which image and which placement, and that no answer is wanted.
pub proof fn a_deletion_names_its_numbers(img_id: u32, placement_id: u32) -> (block: Seq<char>)
    ensures
        encode(Packet::Delete { img_id, placement_id }) == seq![0x1bu8, 0x5f, 0x47] + encode_utf8(
            block,
        ) + seq![0x1bu8, 0x5c],
        lookup(block, 'a') == Some(seq!['d']),
        lookup(block, 'd') == Some(seq!['i']),
        lookup(block, 'i') == Some(digits(img_id as nat)),
        lookup(block, 'p') == Some(digits(placement_id as nat)),
        lookup(block, 'q') == Some(seq!['2']),
{
    let block = delete_control(img_id, placement_id);
    reveal_strlit("a=d,d=i,i=");
    reveal_strlit(",p=");
    reveal_strlit(",q=2");
    let (i, p) = (digits(img_id as nat), digits(placement_id as nat));
    numbers_have_no_comma(img_id as int);
    numbers_have_no_comma(placement_id as int);
    let e = Seq::<char>::empty();
    let t4 = seq![',', 'q', '='] + seq!['2'] + e;
    let t3 = seq![',', 'p', '='] + p + t4;
    let t2 = seq![',', 'i', '='] + i + t3;
    let t1 = seq![',', 'd', '='] + seq!['i'] + t2;
    assert(block =~= seq!['a', '='] + seq!['d'] + t1);
    assert forall|key: char|
        #[trigger] lookup(block, key) == (if key == 'a' {
            Some(seq!['d'])
        } else if key == 'd' {
            Some(seq!['i'])
        } else if key == 'i' {
            Some(i)
        } else if key == 'p' {
            Some(p)
        } else if key == 'q' {
            Some(seq!['2'])
        } else {
            None
        }) by {
        next_field('q', seq!['2'], e, key);
        next_field('p', p, t4, key);
        next_field('i', i, t3, key);
        next_field('d', seq!['i'], t2, key);
        first_field('a', seq!['d'], t1, key);
    }
    a_bare_block(encode_utf8(block));
    block
}

proof fn transmission_under(display: bool, id: u32, w: u32, h: u32, key: char)
    ensures
        lookup(transmit_control(display, id, w, h), key) == (if key == 'a' {
            Some(
                seq![
                    if display {
                        'T'
                    } else {
                        't'
                    },
                ],
            )
        } else if key == 'f' {
            Some(seq!['3', '2'])
        } else if key == 's' {
            Some(digits(w as nat))
        } else if key == 'v' {
            Some(digits(h as nat))
        } else if key == 'i' {
            Some(digits(id as nat))
        } else if key == 'q' {
            Some(seq!['2'])
        } else {
            None
        }),
{
    let block = transmit_control(display, id, w, h);
    let act = seq![
        if display {
            'T'
        } else {
            't'
        },
    ];
    reveal_strlit("a=T,f=32,s=");
    reveal_strlit("a=t,f=32,s=");
    reveal_strlit(",v=");
    reveal_strlit(",i=");
    reveal_strlit(",q=2");
    let (i, s, v) = (digits(id as nat), digits(w as nat), digits(h as nat));
    numbers_have_no_comma(id as int);
    numbers_have_no_comma(w as int);
    numbers_have_no_comma(h as int);
    let e = Seq::<char>::empty();
    let t5 = seq![',', 'q', '='] + seq!['2'] + e;
    let t4 = seq![',', 'i', '='] + i + t5;
    let t3 = seq![',', 'v', '='] + v + t4;
    let t2 = seq![',', 's', '='] + s + t3;
    let t1 = seq![',', 'f', '='] + seq!['3', '2'] + t2;
    assert(block =~= seq!['a', '='] + act + t1);
    next_field('q', seq!['2'], e, key);
    next_field('i', i, t5, key);
    next_field('v', v, t4, key);
    next_field('s', s, t3, key);
    next_field('f', seq!['3', '2'], t2, key);
    first_field('a', act, t1, key);
}

/// An upload starts with a graphics command. It says `t`, that the pixels are 32-bit ones,
/// the width under `s` and the height under `v`, the image, and that no answer is wanted.
pub proof fn an_upload_names_its_numbers(id: u32, w: u32, h: u32, rgba: Seq<u8>) -> (block: Seq<
    char,
>)
    ensures
        (seq![0x1bu8, 0x5f, 0x47] + encode_utf8(block)).is_prefix_of(
            encode(Packet::Transmit { id, w, h, rgba }),
        ),
        lookup(block, 'a') == Some(seq!['t']),
        lookup(block, 'f') == Some(seq!['3', '2']),
        lookup(block, 's') == Some(digits(w as nat)),
        lookup(block, 'v') == Some(digits(h as nat)),
        lookup(block, 'i') == Some(digits(id as nat)),
        lookup(block, 'q') == Some(seq!['2']),
{
    let block = transmit_control(false, id, w, h);
    transmission_under(false, id, w, h, 'a');
    transmission_under(false, id, w, h, 'f');
    transmission_under(false, id, w, h, 's');
    transmission_under(false, id, w, h, 'v');
    transmission_under(false, id, w, h, 'i');
    transmission_under(false, id, w, h, 'q');
    packets_start_with_their_block(encode_utf8(block), base64_text(rgba));
    block
}

/// A frame moves the cursor to the first cell and shows its pixels there, under one image id
/// for all frames: the graphics command says `T`, that the pixels are 32-bit ones, the width
/// and the height, image 1, and that no answer is wanted.
pub proof fn a_frame_names_its_numbers(w: u32, h: u32, rgba: Seq<u8>) -> (block: Seq<char>)
    ensures
        (encode_utf8(seq!['\x1b', '[', '1', ';', '1', 'H']) + (seq![0x1bu8, 0x5f, 0x47]
            + encode_utf8(block))).is_prefix_of(frame_bytes(w, h, rgba)),
        lookup(block, 'a') == Some(seq!['T']),
        lookup(block, 'f') == Some(seq!['3', '2']),
        lookup(block, 's') == Some(digits(w as nat)),
        lookup(block, 'v') == Some(digits(h as nat)),
        lookup(block, 'i') == Some(seq!['1']),
        lookup(block, 'q') == Some(seq!['2']),
{
    let block = transmit_control(true, 1, w, h);
    transmission_under(true, 1, w, h, 'a');
    transmission_under(true, 1, w, h, 'f');
    transmission_under(true, 1, w, h, 's');
    transmission_under(true, 1, w, h, 'v');
    transmission_under(true, 1, w, h, 'i');
    transmission_under(true, 1, w, h, 'q');
    assert(digits(1) =~= seq!['1']);
    packets_start_with_their_block(encode_utf8(block), base64_text(rgba));
    a_cursor_movement_names_its_cell(1, 1);
    assert(seq!['\x1b', '['] + digits(1) + seq![';'] + digits(1) + seq!['H'] =~= seq![
        '\x1b',
        '[',
        '1',
        ';',
        '1',
        'H',
    ]);
    let cur = encode_utf8(seq!['\x1b', '[', '1', ';', '1', 'H']);
    let head = seq![0x1bu8, 0x5f, 0x47] + encode_utf8(block);
    let all = frame_bytes(w, h, rgba);
    let tail = apc(encode_utf8(block), base64_text(rgba));
    assert(all =~= cur + tail);
    assert(tail.subrange(0, head.len() as int) == head);
    assert(all.subrange(0, (cur + head).len() as int) =~= cur + head) by {
        assert forall|j: int| 0 <= j < (cur + head).len() implies #[trigger] all[j] == (cur + head)[j] by {
            if j >= cur.len() {
                assert(tail.subrange(0, head.len() as int)[j - cur.len()] == tail[j - cur.len()]);
            }
        }
    }
    block
}

proof fn packets_start_with_their_block(control: Seq<u8>, payload: Seq<u8>)
    ensures
        (seq![0x1bu8, 0x5f, 0x47] + control).is_prefix_of(apc(control, payload)),
{
    let head = seq![0x1bu8, 0x5f, 0x47] + control;
    if payload.len() == 0 {
        assert(payload =~= Seq::<u8>::empty());
        a_bare_block(control);
        assert(head =~= apc(control, payload).take(head.len() as int));
    } else {
        chunks_start_with_their_block(control, payload, chunk_count(payload.len()));
    }
}

proof fn chunks_start_with_their_block(control: Seq<u8>, payload: Seq<u8>, n: nat)
    requires
        n > 0,
    ensures
        (seq![0x1bu8, 0x5f, 0x47] + control).is_prefix_of(chunked(control, payload, n)),
    decreases n,
{
    let head = seq![0x1bu8, 0x5f, 0x47] + control;
    let rest = chunked(control, payload, (n - 1) as nat);
    let block = framed(chunk_body(control, payload, (n - 1) as nat));
    assert(chunked(control, payload, n) == rest + block);
    if n == 1 {
        assert(APC_GRAPHICS_INTRODUCER@ =~= seq![0x1bu8, 0x5f, 0x47]);
        assert(rest + block =~= block);
        assert(head =~= block.take(head.len() as int));
    } else {
        chunks_start_with_their_block(control, payload, (n - 1) as nat);
        let front = rest.subrange(0, head.len() as int);
        assert(front == head);
        assert(head =~= (rest + block).subrange(0, head.len() as int));
    }
}

/// A cursor movement is `ESC [ row ; column H`, in decimal.
pub proof fn a_cursor_movement_names_its_cell(row: u16, col: u16)
    ensures
        encode(Packet::Cursor { row, col }) == encode_utf8(
            seq!['\x1b', '['] + digits(row as nat) + seq![';'] + digits(col as nat) + seq!['H'],
        ),
{
    reveal_strlit("\x1b[");
    reveal_strlit(";");
    reveal_strlit("H");
    assert("\x1b["@ =~= seq!['\x1b', '[']);
    assert(";"@ =~= seq![';']);
    assert("H"@ =~= seq!['H']);
}

} // verus!
