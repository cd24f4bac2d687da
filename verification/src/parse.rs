//! Reading text: splitting at a character, trimming white space, and unsigned numbers.

use vstd::prelude::*;
use vstd::slice::slice_subrange;

use crate::digits::{all_digits, digits, digits_read_back, is_digit, lacks, value};

verus! {

/// Whether a character is Unicode white space.
pub open spec fn is_space(c: char) -> bool {
    ||| '\u{9}' <= c <= '\u{d}'
    ||| c == '\u{20}'
    ||| c == '\u{85}'
    ||| c == '\u{a0}'
    ||| c == '\u{1680}'
    ||| '\u{2000}' <= c <= '\u{200a}'
    ||| c == '\u{2028}'
    ||| c == '\u{2029}'
    ||| c == '\u{202f}'
    ||| c == '\u{205f}'
    ||| c == '\u{3000}'
}

/// Where a character first occurs, or the length of the text.
pub open spec fn position(s: Seq<char>, c: char) -> int
    decreases s.len(),
{
    if s.len() == 0 {
        0
    } else if s[0] == c {
        0
    } else {
        1 + position(s.skip(1), c)
    }
}

/// The text before and after the first occurrence of a character.
pub open spec fn split_once(s: Seq<char>, c: char) -> Option<(Seq<char>, Seq<char>)> {
    let i = position(s, c);
    if i < s.len() {
        Some((s.take(i), s.skip(i + 1)))
    } else {
        None
    }
}

/// A text without its leading characters that satisfy a test.
pub open spec fn drop_leading(s: Seq<char>, test: spec_fn(char) -> bool) -> Seq<char>
    decreases s.len(),
{
    if s.len() > 0 && test(s[0]) {
        drop_leading(s.skip(1), test)
    } else {
        s
    }
}

/// A text without its trailing characters that satisfy a test.
pub open spec fn drop_trailing(s: Seq<char>, test: spec_fn(char) -> bool) -> Seq<char>
    decreases s.len(),
{
    if s.len() > 0 && test(s.last()) {
        drop_trailing(s.drop_last(), test)
    } else {
        s
    }
}

/// A text without white space at either end.
pub open spec fn trimmed(s: Seq<char>) -> Seq<char> {
    drop_trailing(drop_leading(s, |c: char| is_space(c)), |c: char| is_space(c))
}

/// A 16-bit unsigned number in decimal, with an optional plus sign and any number of
/// leading zeros.
pub open spec fn number16(s: Seq<char>) -> Option<u16> {
    let d = if s.len() > 0 && s[0] == '+' {
        s.skip(1)
    } else {
        s
    };
    if d.len() > 0 && all_digits(d) && value(d) <= u16::MAX {
        Some(value(d) as u16)
    } else {
        None
    }
}

/// The characters of a text.
pub fn to_chars(s: &str) -> (chars: Vec<char>)
    ensures
        chars@ == s@,
{
    let mut chars: Vec<char> = Vec::new();
    for c in it: s.chars()
        invariant
            chars@ == it.seq().take(it.index() as int),
            it.seq() == s@,
    {
        chars.push(c);
        assert(chars@ =~= it.seq().take(it.index() + 1));
    }
    chars
}

/// A character stands first where it occurs and nowhere before.
pub proof fn position_is(s: Seq<char>, c: char, i: int)
    requires
        0 <= i <= s.len(),
        lacks(s.take(i), c),
        i < s.len() ==> s[i] == c,
    ensures
        position(s, c) == i,
    decreases i,
{
    if i > 0 {
        assert(s.take(i)[0] == s[0]);
        assert(s.skip(1).take(i - 1) =~= s.take(i).skip(1));
        position_is(s.skip(1), c, i - 1);
    }
}

/// A text made of two parts and a separator that the first part lacks splits into those
/// parts.
pub proof fn split_once_is(a: Seq<char>, c: char, b: Seq<char>)
    requires
        lacks(a, c),
    ensures
        split_once(a.push(c) + b, c) == Some((a, b)),
{
    let s = a.push(c) + b;
    let i = a.len() as int;
    assert(s.take(i) =~= a);
    position_is(s, c, i);
    assert(s.skip(i + 1) =~= b);
}

/// A text that lacks the separator does not split.
pub proof fn split_once_is_none(s: Seq<char>, c: char)
    requires
        lacks(s, c),
    ensures
        split_once(s, c) is None,
{
    assert(s.take(s.len() as int) =~= s);
    position_is(s, c, s.len() as int);
}

/// A number in decimal reads as itself.
pub proof fn number16_of_digits(n: nat)
    requires
        n <= u16::MAX,
    ensures
        trimmed(digits(n)) == digits(n),
        number16(digits(n)) == Some(n as u16),
{
    digits_read_back(n);
    let s = digits(n);
    let test = |c: char| is_space(c);
    assert(is_digit(s[0]));
    assert(is_digit(s[s.len() - 1]));
    drop_leading_is(s, test, 0);
    assert(s.skip(0) =~= s);
    drop_trailing_is(s, test, s.len() as int);
    assert(s.take(s.len() as int) =~= s);
}

/// What is left past the first `i` characters, where those satisfy a test and the next
/// does not.
pub proof fn drop_leading_is(s: Seq<char>, test: spec_fn(char) -> bool, i: int)
    requires
        0 <= i <= s.len(),
        forall|j: int| 0 <= j < i ==> test(#[trigger] s[j]),
        i < s.len() ==> !test(s[i]),
    ensures
        drop_leading(s, test) == s.skip(i),
    decreases i,
{
    if i > 0 {
        assert forall|j: int| 0 <= j < i - 1 implies test(#[trigger] s.skip(1)[j]) by {
            assert(s.skip(1)[j] == s[j + 1]);
        }
        drop_leading_is(s.skip(1), test, i - 1);
        assert(s.skip(1).skip(i - 1) =~= s.skip(i));
    } else {
        assert(s.skip(0) =~= s);
    }
}

/// What is left of the first `i` characters, where those behind them satisfy a test and
/// the last of them does not.
pub proof fn drop_trailing_is(s: Seq<char>, test: spec_fn(char) -> bool, i: int)
    requires
        0 <= i <= s.len(),
        forall|j: int| i <= j < s.len() ==> test(#[trigger] s[j]),
        i > 0 ==> !test(s[i - 1]),
    ensures
        drop_trailing(s, test) == s.take(i),
    decreases s.len() - i,
{
    if i < s.len() {
        assert(test(s[s.len() - 1]));
        drop_trailing_is(s.drop_last(), test, i);
        assert(s.drop_last().take(i) =~= s.take(i));
    } else {
        assert(s.take(i) =~= s);
    }
}

/// Where a character first occurs, or the length of the text.
pub fn find(s: &[char], c: char) -> (i: usize)
    ensures
        i == position(s@, c),
        i <= s@.len(),
{
    let mut i: usize = 0;
    while i < s.len() && s[i] != c
        invariant
            i <= s@.len(),
            lacks(s@.take(i as int), c),
        decreases s@.len() - i,
    {
        i += 1;
        assert(s@.take(i as int) =~= s@.take(i - 1).push(s@[i - 1]));
    }
    proof {
        position_is(s@, c, i as int);
    }
    i
}

/// Splits a text at the first occurrence of a character.
pub fn split<'a>(s: &'a [char], c: char) -> (parts: Option<(&'a [char], &'a [char])>)
    ensures
        parts is Some <==> split_once(s@, c) is Some,
        parts matches Some(p) ==> split_once(s@, c) == Some((p.0@, p.1@)),
{
    let i: usize = find(s, c);
    if i < s.len() {
        let before = slice_subrange(s, 0, i);
        let after = slice_subrange(s, i + 1, s.len());
        assert(before@ =~= s@.take(i as int));
        assert(after@ =~= s@.skip(i + 1));
        Some((before, after))
    } else {
        None
    }
}

/// Removes every leading occurrence of a character.
pub fn strip_leading<'a>(s: &'a [char], c: char) -> (rest: &'a [char])
    ensures
        rest@ == drop_leading(s@, |x: char| x == c),
{
    let mut i: usize = 0;
    while i < s.len() && s[i] == c
        invariant
            i <= s@.len(),
            forall|j: int| 0 <= j < i ==> #[trigger] s@[j] == c,
        decreases s@.len() - i,
    {
        i += 1;
    }
    proof {
        drop_leading_is(s@, |x: char| x == c, i as int);
        assert(s@.subrange(i as int, s@.len() as int) =~= s@.skip(i as int));
    }
    slice_subrange(s, i, s.len())
}

/// Removes every trailing occurrence of a character.
pub fn strip_trailing<'a>(s: &'a [char], c: char) -> (rest: &'a [char])
    ensures
        rest@ == drop_trailing(s@, |x: char| x == c),
{
    let mut i: usize = s.len();
    while i > 0 && s[i - 1] == c
        invariant
            i <= s@.len(),
            forall|j: int| i <= j < s@.len() ==> #[trigger] s@[j] == c,
        decreases i,
    {
        i -= 1;
    }
    proof {
        drop_trailing_is(s@, |x: char| x == c, i as int);
        assert(s@.subrange(0, i as int) =~= s@.take(i as int));
    }
    slice_subrange(s, 0, i)
}

/// Whether a character is Unicode white space.
pub fn is_white_space(c: char) -> (b: bool)
    ensures
        b == is_space(c),
{
    match c {
        '\u{9}'..='\u{d}' => true,
        '\u{20}' | '\u{85}' | '\u{a0}' | '\u{1680}' => true,
        '\u{2000}'..='\u{200a}' => true,
        '\u{2028}' | '\u{2029}' | '\u{202f}' | '\u{205f}' | '\u{3000}' => true,
        _ => false,
    }
}

/// Removes white space at either end.
pub fn trim<'a>(s: &'a [char]) -> (rest: &'a [char])
    ensures
        rest@ == trimmed(s@),
{
    let ghost test = |c: char| is_space(c);
    let mut i: usize = 0;
    while i < s.len() && is_white_space(s[i])
        invariant
            i <= s@.len(),
            forall|j: int| 0 <= j < i ==> is_space(#[trigger] s@[j]),
        decreases s@.len() - i,
    {
        i += 1;
    }
    let mid = slice_subrange(s, i, s.len());
    proof {
        drop_leading_is(s@, test, i as int);
        assert(mid@ =~= s@.skip(i as int));
    }
    let mut k: usize = mid.len();
    while k > 0 && is_white_space(mid[k - 1])
        invariant
            k <= mid@.len(),
            forall|j: int| k <= j < mid@.len() ==> is_space(#[trigger] mid@[j]),
        decreases k,
    {
        k -= 1;
    }
    proof {
        drop_trailing_is(mid@, test, k as int);
        assert(mid@.subrange(0, k as int) =~= mid@.take(k as int));
    }
    slice_subrange(mid, 0, k)
}

/// A longer run of digits never spells a smaller number.
proof fn value_grows(s: Seq<char>, i: int)
    requires
        0 <= i <= s.len(),
        all_digits(s),
    ensures
        value(s.take(i)) <= value(s),
    decreases s.len() - i,
{
    if i < s.len() {
        value_grows(s, i + 1);
        assert(s.take(i + 1).drop_last() =~= s.take(i));
        assert(is_digit(s[i]));
    } else {
        assert(s.take(i) =~= s);
    }
}

/// Reads a 16-bit unsigned number.
pub fn parse_u16(s: &[char]) -> (n: Option<u16>)
    ensures
        n == number16(s@),
{
    let d: &[char] = if s.len() > 0 && s[0] == '+' {
        slice_subrange(s, 1, s.len())
    } else {
        s
    };
    proof {
        if s@.len() > 0 && s@[0] == '+' {
            assert(d@ =~= s@.skip(1));
        }
    }
    if d.len() == 0 {
        return None;
    }
    let mut n: u32 = 0;
    let mut i: usize = 0;
    while i < d.len()
        invariant
            i <= d@.len(),
            d@.len() > 0,
            d@ == (if s@.len() > 0 && s@[0] == '+' {
                s@.skip(1)
            } else {
                s@
            }),
            all_digits(d@.take(i as int)),
            n == value(d@.take(i as int)),
            n <= u16::MAX,
        decreases d@.len() - i,
    {
        let c: char = d[i];
        let ghost upto = d@.take(i as int);
        assert(d@.take(i + 1) =~= upto.push(c));
        assert(upto.push(c).drop_last() =~= upto);
        if c < '0' || c > '9' {
            assert(!is_digit(d@[i as int]));
            return None;
        }
        assert(is_digit(c));
        n = n * 10 + (c as u32 - 48);
        i += 1;
        if n > 65535 {
            proof {
                if all_digits(d@) {
                    value_grows(d@, i as int);
                }
            }
            return None;
        }
    }
    assert(d@.take(d@.len() as int) =~= d@);
    Some(n as u16)
}

// ---- laws ---------------------------------------------------------------------------

/// Blanks, tabs and line ends are white space; digits, letters and signs are not.
pub proof fn ordinary_white_space(c: char)
    ensures
        c == ' ' || c == '\t' || c == '\n' || c == '\r' ==> is_space(c),
        '!' <= c <= '~' ==> !is_space(c),
{
}

/// White space around a text goes, and nothing else does.
pub proof fn white_space_around_goes(a: Seq<char>, s: Seq<char>, b: Seq<char>)
    requires
        forall|i: int| 0 <= i < a.len() ==> is_space(#[trigger] a[i]),
        forall|i: int| 0 <= i < b.len() ==> is_space(#[trigger] b[i]),
        s.len() > 0,
        !is_space(s[0]),
        !is_space(s[s.len() - 1]),
    ensures
        trimmed(a + s + b) == s,
{
    let t = a + s + b;
    let test = |c: char| is_space(c);
    let n = a.len() as int;
    assert(t[n] == s[0]);
    assert forall|j: int| 0 <= j < n implies test(#[trigger] t[j]) by {
        assert(t[j] == a[j]);
    }
    drop_leading_is(t, test, n);
    assert(t.skip(n) =~= s + b);
    let u = s + b;
    let m = s.len() as int;
    assert(u[m - 1] == s[m - 1]);
    assert forall|j: int| m <= j < u.len() implies test(#[trigger] u[j]) by {
        assert(u[j] == b[j - m]);
    }
    drop_trailing_is(u, test, m);
    assert(u.take(m) =~= s);
}

/// A split takes a text apart at the first separator, and loses nothing but that; a text
/// splits exactly if the separator is in it.
pub proof fn a_split_can_be_undone(s: Seq<char>, c: char)
    ensures
        split_once(s, c) matches Some((a, b)) ==> a.push(c) + b == s && lacks(a, c),
        split_once(s, c) is None <==> lacks(s, c),
{
    position_is_first(s, c);
    let i = position(s, c);
    if i < s.len() {
        assert(s.take(i).push(c) + s.skip(i + 1) =~= s);
        assert(s[i] == c);
    } else {
        assert(s.take(i) =~= s);
    }
}

proof fn position_is_first(s: Seq<char>, c: char)
    ensures
        0 <= position(s, c) <= s.len(),
        lacks(s.take(position(s, c)), c),
        position(s, c) < s.len() ==> s[position(s, c)] == c,
    decreases s.len(),
{
    if s.len() > 0 && s[0] != c {
        let r = s.skip(1);
        position_is_first(r, c);
        let i = position(r, c);
        assert forall|j: int| 0 <= j < i + 1 implies #[trigger] s.take(i + 1)[j] != c by {
            if j > 0 {
                assert(r.take(i)[j - 1] == s[j]);
            }
        }
    }
}

/// Which texts are 16-bit numbers: decimal digits, at least one, with or without a plus
/// before them and zeros ahead, that spell no more than 65535.
pub proof fn numbers_are_read_plainly(n: nat, s: Seq<char>)
    ensures
        n <= 65535 ==> number16(digits(n)) == Some(n as u16),
        n > 65535 ==> number16(digits(n)) is None,
        number16(seq!['+'] + digits(n)) == number16(digits(n)),
        number16(seq!['0'] + digits(n)) == number16(digits(n)),
        number16(Seq::empty()) is None,
        number16(seq!['+']) is None,
        number16(seq!['-'] + s) is None,
        number16(s) is Some ==> forall|i: int|
            1 <= i < s.len() ==> '0' <= #[trigger] s[i] <= '9',
        number16(s) is Some ==> '0' <= s[0] <= '9' || s[0] == '+',
{
    let d = digits(n);
    digits_read_back(n);
    assert(is_digit(d[0]));
    let plus = seq!['+'] + d;
    assert(plus.skip(1) =~= d);
    let zero = seq!['0'] + d;
    a_zero_ahead_is_nothing(d);
    assert forall|i: int| 0 <= i < zero.len() implies is_digit(#[trigger] zero[i]) by {
        if i > 0 {
            assert(zero[i] == d[i - 1]);
        }
    }
    assert(seq!['+'].skip(1).len() == 0);
    let minus = seq!['-'] + s;
    assert(minus[0] == '-' && !is_digit('-'));
    if number16(s) is Some {
        let t = if s[0] == '+' {
            s.skip(1)
        } else {
            s
        };
        assert(all_digits(t));
        assert forall|i: int| 1 <= i < s.len() implies '0' <= #[trigger] s[i] <= '9' by {
            if s[0] == '+' {
                assert(t[i - 1] == s[i]);
            } else {
                assert(is_digit(t[i]));
            }
        }
        assert(s[0] != '+' ==> is_digit(t[0]));
    }
}

proof fn a_zero_ahead_is_nothing(d: Seq<char>)
    requires
        all_digits(d),
    ensures
        value(seq!['0'] + d) == value(d),
    decreases d.len(),
{
    let z = seq!['0'] + d;
    if d.len() > 0 {
        assert(z.drop_last() =~= seq!['0'] + d.drop_last());
        a_zero_ahead_is_nothing(d.drop_last());
        assert(z.last() == d.last());
    } else {
        assert(z.drop_last() =~= Seq::<char>::empty());
        assert(z.last() == '0');
        assert(value(Seq::<char>::empty()) == 0);
    }
}

} // verus!
