//! Colours as the renderers bake them into pixels: sixteen levels per channel, the text
//! that names them in a cache key, and the multiplication of pixels by a tint.
//!
//! Kitty has no per-placement tint or mirror, so both are baked into the uploaded
//! pixels, and both are part of the cache key. Fading effects sweep alpha continuously;
//! at full precision every tick would be a new key and a new upload. Sixteen levels per
//! channel are visually indistinguishable at terminal scale.

use vstd::prelude::*;
use vstd::string::*;

use crate::digits::{digit_char, digits, hex_char, lacks, push_digits, push_hex_digit};

verus! {

/// A colour quantised to the levels 0 to 15 in each channel.
#[derive(Clone, Copy, PartialEq, Eq, Debug, Structural)]
pub struct Levels {
    pub r: u8,
    pub g: u8,
    pub b: u8,
    pub a: u8,
}

impl Levels {
    /// Whether every channel is a level.
    pub open spec fn wf(self) -> bool {
        self.r <= 15 && self.g <= 15 && self.b <= 15 && self.a <= 15
    }

    /// Whether this tint is "no tint": opaque white. The untinted bitmap is shared then
    /// and the per-pixel multiply skipped.
    pub open spec fn white(self) -> bool {
        self.r == 15 && self.g == 15 && self.b == 15 && self.a == 15
    }

    /// The level of a channel: red, green, blue, alpha.
    pub open spec fn channel(self, c: int) -> u8 {
        if c == 0 {
            self.r
        } else if c == 1 {
            self.g
        } else if c == 2 {
            self.b
        } else {
            self.a
        }
    }

    /// Is this tint opaque white?
    pub fn is_white(&self) -> (b: bool)
        ensures
            b == self.white(),
    {
        self.r == 15 && self.g == 15 && self.b == 15 && self.a == 15
    }

    /// The pixel of this colour.
    pub fn pixel(&self) -> (px: [u8; 4])
        requires
            self.wf(),
        ensures
            px@ == levels_pixel(*self),
    {
        [17 * self.r, 17 * self.g, 17 * self.b, 17 * self.a]
    }
}

/// The one pixel of a quantised colour: a level `q` is the byte nearest to `q / 15` of 255.
pub open spec fn levels_pixel(l: Levels) -> Seq<u8> {
    seq![(17 * l.r) as u8, (17 * l.g) as u8, (17 * l.b) as u8, (17 * l.a) as u8]
}

// ---- key text -----------------------------------------------------------------------

/// The four levels as `@` and four hex digits.
pub open spec fn levels_text(l: Levels) -> Seq<char> {
    "@"@ + seq![
        hex_char(l.r as nat),
        hex_char(l.g as nat),
        hex_char(l.b as nat),
        hex_char(l.a as nat),
    ]
}

/// The suffix of a sprite's key for its tint: nothing for white, so that an untinted
/// sprite shares one cache entry.
pub open spec fn tint_text(l: Levels) -> Seq<char> {
    if l.white() {
        Seq::empty()
    } else {
        levels_text(l)
    }
}

/// The suffix of a key for a mirrored image.
pub open spec fn flip_text(fx: bool, fy: bool) -> Seq<char> {
    if fx && fy {
        "|fxy"@
    } else if fx {
        "|fx"@
    } else if fy {
        "|fy"@
    } else {
        Seq::empty()
    }
}

/// A level as a fraction of fifteen, in thousandths.
pub open spec fn thousandths(q: int) -> int {
    (2000 * q + 15) / 30
}

/// A level as a fraction of fifteen, with three decimals.
pub open spec fn fraction_text(q: u8) -> Seq<char> {
    let t = thousandths(q as int);
    digits((t / 1000) as nat) + "."@ + seq![
        digit_char((t / 100 % 10) as nat),
        digit_char((t / 10 % 10) as nat),
        digit_char((t % 10) as nat),
    ]
}

/// Appends the four levels as `@` and four hex digits.
pub fn push_levels(key: &mut String, l: &Levels)
    requires
        l.wf(),
    ensures
        final(key)@ == old(key)@ + levels_text(*l),
{
    key.append("@");
    push_hex_digit(key, l.r);
    push_hex_digit(key, l.g);
    push_hex_digit(key, l.b);
    push_hex_digit(key, l.a);
    assert(key@ =~= old(key)@ + levels_text(*l));
}

/// Appends the tint suffix of a sprite's key.
pub fn push_tint(key: &mut String, l: &Levels)
    requires
        l.wf(),
    ensures
        final(key)@ == old(key)@ + tint_text(*l),
{
    if !l.is_white() {
        push_levels(key, l);
    }
}

/// Appends the mirror suffix of a key.
pub fn push_flip(key: &mut String, fx: bool, fy: bool)
    ensures
        final(key)@ == old(key)@ + flip_text(fx, fy),
{
    if fx && fy {
        key.append("|fxy");
    } else if fx {
        key.append("|fx");
    } else if fy {
        key.append("|fy");
    }
}

/// Appends a level as a fraction of fifteen, with three decimals.
pub fn push_fraction(key: &mut String, q: u8)
    requires
        q <= 15,
    ensures
        final(key)@ == old(key)@ + fraction_text(q),
{
    let t: u64 = (2000 * (q as u64) + 15) / 30;
    push_digits(key, t / 1000);
    key.append(".");
    let hundreds: u8 = (t / 100 % 10) as u8;
    let tens: u8 = (t / 10 % 10) as u8;
    let ones: u8 = (t % 10) as u8;
    push_hex_digit(key, hundreds);
    push_hex_digit(key, tens);
    push_hex_digit(key, ones);
    assert(key@ =~= old(key)@ + fraction_text(q));
}

// ---- tints --------------------------------------------------------------------------

/// A channel value multiplied by `q / 15` and rounded to the nearest. There are no ties.
pub open spec fn tinted(v: int, q: int) -> int {
    (2 * v * q + 15) / 30
}

/// A tint: for each channel, what becomes of each of the 256 values.
pub struct Tint {
    r: Vec<u8>,
    g: Vec<u8>,
    b: Vec<u8>,
    a: Vec<u8>,
}

impl Tint {
    /// Whether every channel has an entry for every value.
    pub closed spec fn wf(self) -> bool {
        &&& self.r@.len() == 256
        &&& self.g@.len() == 256
        &&& self.b@.len() == 256
        &&& self.a@.len() == 256
    }

    /// What becomes of a value in a channel: red, green, blue, alpha.
    pub closed spec fn of(self, c: int, v: u8) -> u8 {
        if c == 0 {
            self.r@[v as int]
        } else if c == 1 {
            self.g@[v as int]
        } else if c == 2 {
            self.b@[v as int]
        } else {
            self.a@[v as int]
        }
    }

    /// A tint from one table per channel, or `None` if one has not 256 entries.
    pub fn new(r: Vec<u8>, g: Vec<u8>, b: Vec<u8>, a: Vec<u8>) -> (tint: Option<Tint>)
        ensures
            tint is Some <==> r@.len() == 256 && g@.len() == 256 && b@.len() == 256 && a@.len()
                == 256,
            tint matches Some(t) ==> t.wf() && forall|v: u8|
                #![trigger t.of(0, v)]
                #![trigger t.of(1, v)]
                #![trigger t.of(2, v)]
                #![trigger t.of(3, v)]
                {
                    &&& t.of(0, v) == r@[v as int]
                    &&& t.of(1, v) == g@[v as int]
                    &&& t.of(2, v) == b@[v as int]
                    &&& t.of(3, v) == a@[v as int]
                },
    {
        if r.len() == 256 && g.len() == 256 && b.len() == 256 && a.len() == 256 {
            Some(Tint { r, g, b, a })
        } else {
            None
        }
    }

    /// The tint that multiplies each channel by its level over fifteen.
    pub fn of_levels(l: &Levels) -> (tint: Tint)
        requires
            l.wf(),
        ensures
            tint.wf(),
            forall|c: int, v: u8|
                0 <= c < 4 ==> #[trigger] tint.of(c, v) == tinted(v as int, l.channel(c) as int),
    {
        Tint {
            r: level_table(l.r),
            g: level_table(l.g),
            b: level_table(l.b),
            a: level_table(l.a),
        }
    }

    /// What becomes of a pixel.
    pub fn pixel(&self, r: u8, g: u8, b: u8, a: u8) -> (px: [u8; 4])
        requires
            self.wf(),
        ensures
            px@ == seq![self.of(0, r), self.of(1, g), self.of(2, b), self.of(3, a)],
    {
        [self.r[r as usize], self.g[g as usize], self.b[b as usize], self.a[a as usize]]
    }
}

/// The 256 values of a channel multiplied by `q / 15`.
fn level_table(q: u8) -> (table: Vec<u8>)
    requires
        q <= 15,
    ensures
        table@.len() == 256,
        forall|v: int| 0 <= v < 256 ==> #[trigger] table@[v] == tinted(v, q as int),
{
    let mut table: Vec<u8> = Vec::new();
    let mut v: u32 = 0;
    while v < 256
        invariant
            v <= 256,
            q <= 15,
            table@.len() == v,
            forall|i: int| 0 <= i < v ==> #[trigger] table@[i] == tinted(i, q as int),
        decreases 256 - v,
    {
        assert(0 <= v * q <= 255 * 15) by (nonlinear_arith)
            requires
                v <= 255,
                q <= 15,
        ;
        assert(2 * v * q == 2 * (v * q)) by (nonlinear_arith);
        let t: u32 = (2 * (v * (q as u32)) + 15) / 30;
        table.push(t as u8);
        v += 1;
    }
    table
}

/// White leaves every value as it is, black sends every value to zero, and a tint never
/// makes a value brighter.
pub proof fn tints_only_darken(v: int, q: int)
    requires
        0 <= v <= 255,
        0 <= q <= 15,
    ensures
        tinted(v, 15) == v,
        tinted(v, 0) == 0,
        0 <= tinted(v, q) <= v,
{
    assert(2 * v * 15 == 30 * v) by (nonlinear_arith);
    assert(2 * v * 0 == 0) by (nonlinear_arith);
    assert(0 <= 2 * v * q <= 30 * v) by (nonlinear_arith)
        requires
            0 <= v <= 255,
            0 <= q <= 15,
    ;
}

/// The pixel of a colour is white tinted with that colour: a solid tile and a tinted
/// white image agree.
pub proof fn a_solid_is_tinted_white(q: int)
    requires
        0 <= q <= 15,
    ensures
        tinted(255, q) == 17 * q,
{
    assert(2 * 255 * q == 510 * q) by (nonlinear_arith);
}

// ---- laws of the key text -----------------------------------------------------------

proof fn hex_is_injective(a: nat, b: nat)
    requires
        a < 16,
        b < 16,
        hex_char(a) == hex_char(b),
    ensures
        a == b,
{
}

/// Levels start with their mark and hold no bar.
pub proof fn levels_text_facts(l: Levels)
    requires
        l.wf(),
    ensures
        lacks(levels_text(l), '|'),
        levels_text(l).len() > 0,
        levels_text(l)[0] == '@',
{
    reveal_strlit("@");
}

/// A tint starts with its mark, if it has any text, and holds no bar.
pub proof fn tint_text_facts(l: Levels)
    requires
        l.wf(),
    ensures
        lacks(tint_text(l), '|'),
        tint_text(l).len() > 0 ==> tint_text(l)[0] == '@',
{
    levels_text_facts(l);
}

/// A mirror starts with its mark, if it has any text.
pub proof fn flip_text_facts(fx: bool, fy: bool)
    ensures
        flip_text(fx, fy).len() > 0 ==> flip_text(fx, fy)[0] == '|',
{
    reveal_strlit("|fxy");
    reveal_strlit("|fx");
    reveal_strlit("|fy");
}

/// Different levels have different text.
pub proof fn levels_text_is_injective(a: Levels, b: Levels)
    requires
        a.wf(),
        b.wf(),
        levels_text(a) == levels_text(b),
    ensures
        a == b,
{
    reveal_strlit("@");
    let s = levels_text(a);
    let t = levels_text(b);
    assert(s[1] == t[1] && s[2] == t[2] && s[3] == t[3] && s[4] == t[4]);
    hex_is_injective(a.r as nat, b.r as nat);
    hex_is_injective(a.g as nat, b.g as nat);
    hex_is_injective(a.b as nat, b.b as nat);
    hex_is_injective(a.a as nat, b.a as nat);
}

/// Different tints have different suffixes: a cached bitmap never disagrees with the key
/// that names it.
pub proof fn tint_text_is_injective(a: Levels, b: Levels)
    requires
        a.wf(),
        b.wf(),
        tint_text(a) == tint_text(b),
    ensures
        a == b,
{
    reveal_strlit("@");
    if !a.white() && !b.white() {
        levels_text_is_injective(a, b);
    } else if !a.white() {
        assert(levels_text(a).len() == 5);
    } else if !b.white() {
        assert(levels_text(b).len() == 5);
    }
}

/// A key never names two colours: two tints have the same suffix, or the same pixel, only
/// if they are the same. White has no suffix, and every other tint has its mark and its four
/// levels, red first, as hex digits.
pub proof fn a_suffix_names_one_tint(a: Levels, b: Levels)
    requires
        a.wf(),
        b.wf(),
    ensures
        tint_text(a) == tint_text(b) <==> a == b,
        levels_pixel(a) == levels_pixel(b) <==> a == b,
        a.white() <==> tint_text(a).len() == 0,
        !a.white() ==> tint_text(a) == seq![
            '@',
            hex_char(a.r as nat),
            hex_char(a.g as nat),
            hex_char(a.b as nat),
            hex_char(a.a as nat),
        ],
{
    reveal_strlit("@");
    if tint_text(a) == tint_text(b) {
        tint_text_is_injective(a, b);
    }
    if levels_pixel(a) == levels_pixel(b) {
        let (p, q) = (levels_pixel(a), levels_pixel(b));
        assert(p[0] == q[0] && p[1] == q[1] && p[2] == q[2] && p[3] == q[3]);
    }
    assert(levels_text(a) =~= seq![
        '@',
        hex_char(a.r as nat),
        hex_char(a.g as nat),
        hex_char(a.b as nat),
        hex_char(a.a as nat),
    ]);
}

/// The four ways to mirror an image have four different suffixes.
pub proof fn flip_text_is_injective(fx: bool, fy: bool, gx: bool, gy: bool)
    requires
        flip_text(fx, fy) == flip_text(gx, gy),
    ensures
        fx == gx,
        fy == gy,
{
    reveal_strlit("|fxy");
    reveal_strlit("|fx");
    reveal_strlit("|fy");
    let s = flip_text(fx, fy);
    let t = flip_text(gx, gy);
    assert(s.len() == t.len());
    assert(s.len() == 3 ==> s[2] == t[2]);
    assert("|fxy"@.len() == 4);
    assert("|fx"@.len() == 3 && "|fx"@[2] == 'x');
    assert("|fy"@.len() == 3 && "|fy"@[2] == 'y');
}

/// Levels and a mirror can be read off the end of a key, whatever is in front of them.
pub proof fn levels_and_flip_close_a_key(
    x: (Seq<char>, Levels, bool, bool),
    y: (Seq<char>, Levels, bool, bool),
)
    requires
        x.1.wf(),
        y.1.wf(),
        x.0 + levels_text(x.1) + flip_text(x.2, x.3) == y.0 + levels_text(y.1) + flip_text(y.2, y.3),
    ensures
        x == y,
{
    reveal_strlit("@");
    reveal_strlit("|fxy");
    reveal_strlit("|fx");
    reveal_strlit("|fy");
    let (s, t) = (
        x.0 + levels_text(x.1) + flip_text(x.2, x.3),
        y.0 + levels_text(y.1) + flip_text(y.2, y.3),
    );
    let n = s.len() as int;
    assert(s[n - 1] == t[n - 1] && s[n - 2] == t[n - 2]);
    assert(hex_char(x.1.a as nat) != 'x' && hex_char(x.1.a as nat) != 'y');
    assert(hex_char(y.1.a as nat) != 'x' && hex_char(y.1.a as nat) != 'y');
    assert(flip_text(x.2, x.3) == flip_text(y.2, y.3));
    flip_text_is_injective(x.2, x.3, y.2, y.3);
    let k = x.0.len() as int;
    assert(k == y.0.len());
    assert(s.take(k) =~= x.0);
    assert(t.take(k) =~= y.0);
    assert(s.subrange(k, k + 5) =~= levels_text(x.1));
    assert(t.subrange(k, k + 5) =~= levels_text(y.1));
    levels_text_is_injective(x.1, y.1);
}

/// Different levels have different fractions.
pub proof fn fraction_text_is_injective(p: u8, q: u8)
    requires
        p <= 15,
        q <= 15,
        fraction_text(p) == fraction_text(q),
    ensures
        p == q,
{
    reveal_strlit(".");
    let a = thousandths(p as int);
    let b = thousandths(q as int);
    assert(digits((a / 1000) as nat).len() == 1);
    assert(digits((b / 1000) as nat).len() == 1);
    let s = fraction_text(p);
    let t = fraction_text(q);
    assert(s[0] == t[0] && s[2] == t[2] && s[3] == t[3] && s[4] == t[4]);
}

/// The pixel of a colour is red, green, blue and alpha in that order, and each byte is to
/// 255 what the level is to 15. It is what becomes of a white pixel under the same tint.
pub proof fn a_colour_is_red_green_blue_alpha(l: Levels, c: int)
    requires
        l.wf(),
        0 <= c < 4,
    ensures
        levels_pixel(l).len() == 4,
        15 * levels_pixel(l)[0] == 255 * l.r,
        15 * levels_pixel(l)[1] == 255 * l.g,
        15 * levels_pixel(l)[2] == 255 * l.b,
        15 * levels_pixel(l)[3] == 255 * l.a,
        levels_pixel(l)[c] == tinted(255, l.channel(c) as int),
        l.channel(c) == seq![l.r, l.g, l.b, l.a][c],
{
    a_solid_is_tinted_white(l.channel(c) as int);
}

/// No tint is a tint that leaves every value of every channel as it is, and there is one
/// such tint.
pub proof fn white_is_no_tint(l: Levels)
    requires
        l.wf(),
    ensures
        l.white() <==> forall|c: int| 0 <= c < 4 ==> #[trigger] tinted(255, l.channel(c) as int) == 255,
        l.white() <==> levels_pixel(l) == seq![255u8, 255, 255, 255],
{
    a_solid_is_tinted_white(l.r as int);
    a_solid_is_tinted_white(l.g as int);
    a_solid_is_tinted_white(l.b as int);
    a_solid_is_tinted_white(l.a as int);
    if forall|c: int| 0 <= c < 4 ==> #[trigger] tinted(255, l.channel(c) as int) == 255 {
        assert(tinted(255, l.channel(0) as int) == 255);
        assert(tinted(255, l.channel(1) as int) == 255);
        assert(tinted(255, l.channel(2) as int) == 255);
        assert(tinted(255, l.channel(3) as int) == 255);
    }
    if levels_pixel(l) == seq![255u8, 255, 255, 255] {
        assert(levels_pixel(l)[0] == 255 && levels_pixel(l)[1] == 255);
        assert(levels_pixel(l)[2] == 255 && levels_pixel(l)[3] == 255);
    }
    if l.white() {
        assert(levels_pixel(l) =~= seq![255u8, 255, 255, 255]);
    }
}

/// Levels are spelled red, green, blue, alpha, each by its place among the hex digits.
pub proof fn levels_are_spelled_in_order(l: Levels)
    requires
        l.wf(),
    ensures
        levels_text(l).len() == 5,
        levels_text(l)[0] == '@',
        levels_text(l)[1] == "0123456789abcdef"@[l.r as int],
        levels_text(l)[2] == "0123456789abcdef"@[l.g as int],
        levels_text(l)[3] == "0123456789abcdef"@[l.b as int],
        levels_text(l)[4] == "0123456789abcdef"@[l.a as int],
{
    reveal_strlit("@");
    hex_digits_are_in_order(l.r as int);
    hex_digits_are_in_order(l.g as int);
    hex_digits_are_in_order(l.b as int);
    hex_digits_are_in_order(l.a as int);
}

/// The hex digits are `0` to `9` and then `a` to `f`.
pub proof fn hex_digits_are_in_order(d: int)
    requires
        0 <= d < 16,
    ensures
        hex_char(d as nat) == "0123456789abcdef"@[d],
{
    reveal_strlit("0123456789abcdef");
}

/// A mirrored image's suffix holds an `x` if it is mirrored sideways and a `y` if it is
/// mirrored upside down, behind a bar; an image that is not mirrored has none.
pub proof fn mirrors_are_spelled_out(fx: bool, fy: bool)
    ensures
        flip_text(fx, fy).contains('x') <==> fx,
        flip_text(fx, fy).contains('y') <==> fy,
        fx || fy ==> flip_text(fx, fy).len() >= 3 && flip_text(fx, fy)[0] == '|' && flip_text(
            fx,
            fy,
        )[1] == 'f',
        fx && fy ==> flip_text(fx, fy).len() == 4 && flip_text(fx, fy)[2] == 'x',
        !fx && !fy <==> flip_text(fx, fy).len() == 0,
        fx != fy ==> flip_text(fx, fy).len() == 3,
{
    reveal_strlit("|fxy");
    reveal_strlit("|fx");
    reveal_strlit("|fy");
    let s = flip_text(fx, fy);
    if fx && fy {
        assert(s[2] == 'x' && s[3] == 'y');
    } else if fx {
        assert(s[2] == 'x');
    } else if fy {
        assert(s[2] == 'y');
    }
}

/// A level is spelled as a fraction of fifteen with three decimals: one digit, a point and
/// three digits, which together are nearest to that many thousandths.
pub proof fn fractions_are_nearest(q: u8)
    requires
        q <= 15,
    ensures
        ({
            let s = fraction_text(q);
            let t = 1000 * (s[0] as int - '0' as int) + 100 * (s[2] as int - '0' as int) + 10 * (
            s[3] as int - '0' as int) + (s[4] as int - '0' as int);
            &&& s.len() == 5
            &&& s[1] == '.'
            &&& forall|i: int| 0 <= i < 5 && i != 1 ==> '0' <= #[trigger] s[i] <= '9'
            &&& 2000 * q - 15 <= 30 * t <= 2000 * q + 15
        }),
{
    reveal_strlit(".");
    let t = thousandths(q as int);
    assert(digits((t / 1000) as nat).len() == 1);
    let s = fraction_text(q);
    assert(s[0] == digit_char((t / 1000) as nat));
    assert(s[2] == digit_char((t / 100 % 10) as nat));
    assert(s[3] == digit_char((t / 10 % 10) as nat));
    assert(s[4] == digit_char((t % 10) as nat));
    assert(t == 1000 * (t / 1000) + 100 * (t / 100 % 10) + 10 * (t / 10 % 10) + t % 10);
}

} // verus!
