//! Numbers as text: the decimal digits that every escape sequence and every cache
//! key is spelled with, the single hex digits of quantised colours, and how a run of
//! digits is read back.

use vstd::prelude::*;
use vstd::string::*;

verus! {

/// `String::push` appends one character at the end.
pub assume_specification[ String::push ](s: &mut String, c: char)
    ensures
        final(s)@ == old(s)@.push(c),
;

/// The character that stands for a digit below ten.
pub open spec fn digit_char(d: nat) -> char {
    (48 + d) as char
}

/// Whether a character is one of `0` to `9`.
pub open spec fn is_digit(c: char) -> bool {
    '0' <= c <= '9'
}

/// A natural number in decimal, with no leading zeros.
pub open spec fn digits(n: nat) -> Seq<char>
    decreases n,
{
    if n < 10 {
        seq![digit_char(n)]
    } else {
        digits(n / 10).push(digit_char(n % 10))
    }
}

/// An integer in decimal, with a leading minus below zero.
pub open spec fn signed_digits(n: int) -> Seq<char> {
    if n < 0 {
        seq!['-'] + digits((-n) as nat)
    } else {
        digits(n as nat)
    }
}

/// The number that a run of decimal digits spells; the empty run spells zero.
pub open spec fn value(s: Seq<char>) -> nat
    decreases s.len(),
{
    if s.len() == 0 {
        0
    } else {
        value(s.drop_last()) * 10 + (s.last() as int - 48) as nat
    }
}

/// Whether a text holds nothing but decimal digits.
pub open spec fn all_digits(s: Seq<char>) -> bool {
    forall|i: int| 0 <= i < s.len() ==> is_digit(#[trigger] s[i])
}

/// The lower-case hex digit of a number below sixteen.
pub open spec fn hex_char(d: nat) -> char {
    if d < 10 {
        digit_char(d)
    } else {
        (87 + d) as char
    }
}

/// Whether a character occurs nowhere in a text, or a byte nowhere in a run of bytes.
pub open spec fn lacks<T>(s: Seq<T>, c: T) -> bool {
    forall|i: int| 0 <= i < s.len() ==> #[trigger] s[i] != c
}

/// A decimal number is a non-empty run of digits, and reading it gives the number back.
pub proof fn digits_read_back(n: nat)
    ensures
        digits(n).len() >= 1,
        all_digits(digits(n)),
        value(digits(n)) == n,
    decreases n,
{
    if n >= 10 {
        digits_read_back(n / 10);
        assert(digits(n).drop_last() =~= digits(n / 10));
    } else {
        assert(digits(n).drop_last() =~= Seq::<char>::empty());
        assert(value(Seq::<char>::empty()) == 0);
        assert(digits(n).last() as int == 48 + n);
    }
}

/// Two numbers with the same decimal text are the same number.
pub proof fn digits_injective(a: nat, b: nat)
    requires
        digits(a) == digits(b),
    ensures
        a == b,
{
    digits_read_back(a);
    digits_read_back(b);
}

/// Two integers with the same decimal text are the same integer.
pub proof fn signed_digits_injective(a: int, b: int)
    requires
        signed_digits(a) == signed_digits(b),
    ensures
        a == b,
{
    digits_read_back(if a < 0 { (-a) as nat } else { a as nat });
    digits_read_back(if b < 0 { (-b) as nat } else { b as nat });
    assert(is_digit('-') == false);
    if a < 0 {
        assert(signed_digits(a)[0] == '-');
        if b < 0 {
            assert(signed_digits(a).skip(1) =~= digits((-a) as nat));
            assert(signed_digits(b).skip(1) =~= digits((-b) as nat));
        } else {
            assert(is_digit(digits(b as nat)[0]));
        }
    } else if b < 0 {
        assert(signed_digits(b)[0] == '-');
        assert(is_digit(digits(a as nat)[0]));
    }
}

/// Two texts that agree up to the first separator and from it on are equal piecewise.
pub proof fn split_at_separator<T>(a: Seq<T>, x: Seq<T>, b: Seq<T>, y: Seq<T>, c: T)
    requires
        a.push(c) + x == b.push(c) + y,
        lacks(a, c),
        lacks(b, c),
    ensures
        a == b,
        x == y,
{
    let s = a.push(c) + x;
    assert(s[a.len() as int] == c);
    assert(s[b.len() as int] == c);
    if a.len() < b.len() {
        assert(s[a.len() as int] == b[a.len() as int]);
    } else if b.len() < a.len() {
        assert(s[b.len() as int] == a[b.len() as int]);
    }
    assert(a =~= s.take(a.len() as int));
    assert(b =~= s.take(b.len() as int));
    assert(x =~= s.skip(a.len() as int + 1));
    assert(y =~= s.skip(b.len() as int + 1));
}

/// Two texts that each end in a part which is empty or starts with a mark, and which lack
/// the mark before that, are equal piecewise.
pub proof fn split_at_mark(a: Seq<char>, x: Seq<char>, b: Seq<char>, y: Seq<char>, c: char)
    requires
        a + x == b + y,
        lacks(a, c),
        lacks(b, c),
        x.len() > 0 ==> x[0] == c,
        y.len() > 0 ==> y[0] == c,
    ensures
        a == b,
        x == y,
{
    let s = a + x;
    if x.len() > 0 && y.len() > 0 {
        assert(a + x =~= a.push(c) + x.skip(1));
        assert(b + y =~= b.push(c) + y.skip(1));
        split_at_separator(a, x.skip(1), b, y.skip(1), c);
        assert(x =~= seq![c] + x.skip(1));
        assert(y =~= seq![c] + y.skip(1));
    } else if x.len() > 0 {
        assert(s =~= b);
        assert(s[a.len() as int] == c);
    } else if y.len() > 0 {
        assert((b + y)[b.len() as int] == c);
        assert(s =~= a);
    } else {
        assert(a + x =~= a);
        assert(b + y =~= b);
    }
}

/// Four fields with commas between them have one reading.
pub proof fn four_fields(
    a: (Seq<char>, Seq<char>, Seq<char>, Seq<char>),
    b: (Seq<char>, Seq<char>, Seq<char>, Seq<char>),
)
    requires
        a.0 + ","@ + a.1 + ","@ + a.2 + ","@ + a.3 == b.0 + ","@ + b.1 + ","@ + b.2 + ","@ + b.3,
        lacks(a.0, ','),
        lacks(a.1, ','),
        lacks(a.2, ','),
        lacks(b.0, ','),
        lacks(b.1, ','),
        lacks(b.2, ','),
    ensures
        a == b,
{
    reveal_strlit(",");
    let a3 = a.2.push(',') + a.3;
    let b3 = b.2.push(',') + b.3;
    let a2 = a.1.push(',') + a3;
    let b2 = b.1.push(',') + b3;
    assert(a.0 + ","@ + a.1 + ","@ + a.2 + ","@ + a.3 =~= a.0.push(',') + a2);
    assert(b.0 + ","@ + b.1 + ","@ + b.2 + ","@ + b.3 =~= b.0.push(',') + b2);
    split_at_separator(a.0, a2, b.0, b2, ',');
    split_at_separator(a.1, a3, b.1, b3, ',');
    split_at_separator(a.2, a.3, b.2, b.3, ',');
}

/// Two texts that start alike and go on with three parts each have the same three parts
/// in a row.
pub proof fn behind_a_label(
    label: Seq<char>,
    a: (Seq<char>, Seq<char>, Seq<char>),
    b: (Seq<char>, Seq<char>, Seq<char>),
)
    requires
        label + a.0 + a.1 + a.2 == label + b.0 + b.1 + b.2,
    ensures
        a.0 + a.1 + a.2 == b.0 + b.1 + b.2,
{
    let n = label.len() as int;
    assert((label + a.0 + a.1 + a.2).skip(n) =~= a.0 + a.1 + a.2);
    assert((label + b.0 + b.1 + b.2).skip(n) =~= b.0 + b.1 + b.2);
}

/// A suffix of three parts, each of which may be empty, has one reading.
pub proof fn suffix_parts(
    ca: Seq<char>,
    ta: Seq<char>,
    fa: Seq<char>,
    cb: Seq<char>,
    tb: Seq<char>,
    fb: Seq<char>,
)
    requires
        ca + ta + fa == cb + tb + fb,
        lacks(ca, '@'),
        lacks(ca, '|'),
        lacks(ta, '|'),
        lacks(cb, '@'),
        lacks(cb, '|'),
        lacks(tb, '|'),
        ta.len() > 0 ==> ta[0] == '@',
        tb.len() > 0 ==> tb[0] == '@',
        fa.len() > 0 ==> fa[0] == '|',
        fb.len() > 0 ==> fb[0] == '|',
    ensures
        ca == cb,
        ta == tb,
        fa == fb,
{
    assert(lacks(ca + ta, '|'));
    assert(lacks(cb + tb, '|'));
    split_at_mark(ca + ta, fa, cb + tb, fb, '|');
    split_at_mark(ca, ta, cb, tb, '@');
}

/// Appends a number in decimal.
pub fn push_digits(s: &mut String, n: u64)
    ensures
        final(s)@ == old(s)@ + digits(n as nat),
    decreases n,
{
    if n >= 10 {
        push_digits(s, n / 10);
    }
    let c: char = (48 + (n % 10) as u8) as char;
    s.push(c);
}

/// Appends a signed number in decimal.
pub fn push_signed_digits(s: &mut String, n: i32)
    ensures
        final(s)@ == old(s)@ + signed_digits(n as int),
{
    if n < 0 {
        s.push('-');
        let m: i64 = -(n as i64);
        push_digits(s, m as u64);
    } else {
        push_digits(s, n as u64);
    }
}

/// Appends one hex digit.
pub fn push_hex_digit(s: &mut String, d: u8)
    requires
        d < 16,
    ensures
        final(s)@ == old(s)@.push(hex_char(d as nat)),
{
    let c: char = if d < 10 {
        (48 + d) as char
    } else {
        (87 + d) as char
    };
    s.push(c);
}

/// The decimal digits stand in their order, and the hex digits go on with `a` to `f`.
pub proof fn digit_characters_are_in_order(d: nat)
    requires
        d < 16,
    ensures
        d < 10 ==> digit_char(d) == "0123456789"@[d as int],
        hex_char(d) == "0123456789abcdef"@[d as int],
{
    reveal_strlit("0123456789");
    reveal_strlit("0123456789abcdef");
}

/// A number is written without leading zeros, most significant digit first: one digit more
/// at the end is ten times the number and the digit. A minus stands before a number below
/// zero, and before no other.
pub proof fn numbers_are_written_plainly(n: nat, d: nat)
    requires
        d < 10,
    ensures
        digits(n)[0] == '0' <==> n == 0,
        n > 0 ==> digits(10 * n + d) == digits(n) + digits(d),
        digits(d).len() == 1,
        signed_digits(n as int) == digits(n),
        n > 0 ==> signed_digits(-(n as int)) == seq!['-'] + digits(n),
    decreases n,
{
    if n >= 10 {
        numbers_are_written_plainly(n / 10, d);
        digits_read_back(n / 10);
        assert(digits(n)[0] == digits(n / 10)[0]);
    } else {
        assert(digits(n)[0] as int == 48 + n);
    }
    if n > 0 {
        let m = 10 * n + d;
        assert(m / 10 == n && m % 10 == d);
        assert(digits(m) =~= digits(n) + digits(d));
    }
}

} // verus!
