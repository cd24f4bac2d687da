//! Readable names for image assets, for cache keys and logs.
//!
//! A key you cannot read is a key you cannot debug: `artie_sheet.png#1@db8f` tells you
//! which sheet, which animation frame and which tint at a glance.

use vstd::prelude::*;
use vstd::slice::slice_subrange;
use vstd::string::*;

use crate::digits::{digits, digits_read_back, is_digit, lacks};
use crate::parse::{
    a_split_can_be_undone, drop_leading_is, drop_trailing, find, is_space, position, position_is,
    split_once, strip_trailing, to_chars, trim, trimmed,
};

verus! {

/// Where an image asset comes from.
pub enum AssetName {
    /// A file: its name, if the path ends in one, and the whole path.
    Path { file_name: Option<String>, full: String },
    /// Generated at runtime: the debug form of its id.
    Generated { id: String },
}

/// Whether a text stands in another at a place.
pub open spec fn occurs_at(s: Seq<char>, m: Seq<char>, i: int) -> bool {
    0 <= i && i + m.len() <= s.len() && s.subrange(i, i + m.len()) == m
}

/// Whether a place is the first at which a text stands in another.
pub open spec fn occurs_first_at(s: Seq<char>, m: Seq<char>, i: int) -> bool {
    occurs_at(s, m, i) && forall|j: int| 0 <= j < i ==> !occurs_at(s, m, j)
}

/// Where a text first stands in another.
pub open spec fn first_occurrence(s: Seq<char>, m: Seq<char>) -> Option<int> {
    if exists|i: int| occurs_first_at(s, m, i) {
        Some(choose|i: int| occurs_first_at(s, m, i))
    } else {
        None
    }
}

/// What follows the first occurrence of a marker, up to the second one if there is one.
pub open spec fn after_marker(s: Seq<char>, m: Seq<char>) -> Option<Seq<char>> {
    match first_occurrence(s, m) {
        None => None,
        Some(i) => {
            let rest = s.skip(i + m.len());
            Some(
                match first_occurrence(rest, m) {
                    None => rest,
                    Some(j) => rest.take(j),
                },
            )
        },
    }
}

/// The first word of a text: trimmed, without closing braces at its end, up to the first
/// comma, space or closing brace.
pub open spec fn first_word(s: Seq<char>) -> Seq<char> {
    let t = drop_trailing(trimmed(s), |c: char| c == '}');
    until(until(until(t, ','), ' '), '}')
}

/// A text up to the first occurrence of a character.
pub open spec fn until(s: Seq<char>, c: char) -> Seq<char> {
    s.take(position(s, c))
}

/// The last `n` characters of a text, or all of it.
pub open spec fn last_chars(s: Seq<char>, n: int) -> Seq<char> {
    if s.len() <= n {
        s
    } else {
        s.skip(s.len() - n)
    }
}

/// The distinguishing part of an asset id's debug form.
pub open spec fn short_id(s: Seq<char>) -> Seq<char> {
    match after_marker(s, "index: "@) {
        Some(rest) => first_word(rest),
        None => match after_marker(s, "uuid: "@) {
            Some(rest) => until(first_word(rest), '-'),
            None => last_chars(s, 12),
        },
    }
}

/// The name of an image in keys and logs.
pub open spec fn label_text(name: AssetName) -> Seq<char> {
    match name {
        AssetName::Path { file_name: Some(f), .. } => f@,
        AssetName::Path { file_name: None, full } => full@,
        AssetName::Generated { id } => "gen:"@ + short_id(id@),
    }
}

/// There is one first occurrence at most.
proof fn first_occurrence_is(s: Seq<char>, m: Seq<char>, i: int)
    requires
        occurs_first_at(s, m, i),
    ensures
        first_occurrence(s, m) == Some(i),
{
    let k = choose|k: int| occurs_first_at(s, m, k);
    assert(occurs_first_at(s, m, k));
    if k < i {
        assert(!occurs_at(s, m, k));
    } else if i < k {
        assert(!occurs_at(s, m, i));
    }
}

/// Whether a text stands in another at a place.
fn matches_at(s: &[char], m: &[char], i: usize) -> (b: bool)
    requires
        i + m@.len() <= s@.len(),
    ensures
        b == occurs_at(s@, m@, i as int),
{
    let total: usize = s.len();
    let mut k: usize = 0;
    while k < m.len()
        invariant
            k <= m@.len(),
            i + m@.len() <= s@.len() == total,
            forall|j: int| 0 <= j < k ==> s@[i + j] == #[trigger] m@[j],
        decreases m@.len() - k,
    {
        if s[i + k] != m[k] {
            assert(s@.subrange(i as int, i + m@.len())[k as int] != m@[k as int]);
            return false;
        }
        k += 1;
    }
    assert(s@.subrange(i as int, i + m@.len()) =~= m@);
    true
}

/// Where a text first stands in another.
fn find_text(s: &[char], m: &[char]) -> (at: Option<usize>)
    ensures
        at is Some <==> first_occurrence(s@, m@) is Some,
        at matches Some(i) ==> first_occurrence(s@, m@) == Some(i as int) && occurs_at(
            s@,
            m@,
            i as int,
        ),
{
    if m.len() > s.len() {
        return None;
    }
    let last: usize = s.len() - m.len();
    let mut i: usize = 0;
    loop
        invariant
            last + m@.len() == s@.len(),
            i <= last,
            forall|j: int| 0 <= j < i ==> !occurs_at(s@, m@, j),
        decreases last - i,
    {
        if matches_at(s, m, i) {
            proof {
                first_occurrence_is(s@, m@, i as int);
            }
            return Some(i);
        }
        if i == last {
            return None;
        }
        i += 1;
    }
}

/// What follows the first occurrence of a marker, up to the second one if there is one.
fn rest_after<'a>(s: &'a [char], m: &[char]) -> (rest: Option<&'a [char]>)
    ensures
        rest is Some <==> after_marker(s@, m@) is Some,
        rest matches Some(r) ==> after_marker(s@, m@) == Some(r@),
{
    let total: usize = s.len();
    match find_text(s, m) {
        None => None,
        Some(i) => {
            assert(i + m@.len() <= total);
            let rest = slice_subrange(s, i + m.len(), s.len());
            assert(rest@ =~= s@.skip(i + m@.len()));
            match find_text(rest, m) {
                None => Some(rest),
                Some(j) => {
                    let part = slice_subrange(rest, 0, j);
                    assert(part@ =~= rest@.take(j as int));
                    Some(part)
                },
            }
        },
    }
}

/// A text up to the first occurrence of a character.
fn take_until<'a>(s: &'a [char], c: char) -> (part: &'a [char])
    ensures
        part@ == until(s@, c),
{
    let i: usize = find(s, c);
    assert(s@.subrange(0, i as int) =~= s@.take(i as int));
    slice_subrange(s, 0, i)
}

/// The first word of a text.
fn take_word<'a>(s: &'a [char]) -> (part: &'a [char])
    ensures
        part@ == first_word(s@),
{
    take_until(take_until(take_until(strip_trailing(trim(s), '}'), ','), ' '), '}')
}

/// Appends characters to a text.
fn push_chars(out: &mut String, s: &[char])
    ensures
        final(out)@ == old(out)@ + s@,
{
    let ghost start = out@;
    let mut i: usize = 0;
    while i < s.len()
        invariant
            i <= s@.len(),
            out@ == start + s@.take(i as int),
        decreases s@.len() - i,
    {
        out.push(s[i]);
        i += 1;
        assert(s@.take(i as int) =~= s@.take(i - 1).push(s@[i - 1]));
    }
    assert(s@.take(s@.len() as int) =~= s@);
}

/// Appends the distinguishing part of an asset id's debug form, short enough to read in
/// a log.
///
/// The debug form comes in two shapes, and both are handled:
///
/// ```text
/// AssetId<bevy_image::image::Image>{ index: 68, generation: 0}
/// AssetId<bevy_image::image::Image>{uuid: 97128bb1-2588-480b-bdc6-87b4adbec477}
/// ```
///
/// Of the first the index is kept, of the second the first group of the uuid. An
/// unrecognised shape is kept bounded, rather than pasting a type name into every key.
fn push_id_index(out: &mut String, id: &str)
    ensures
        final(out)@ == old(out)@ + short_id(id@),
{
    let chars = to_chars(id);
    let s = chars.as_slice();
    let index = to_chars("index: ");
    if let Some(rest) = rest_after(s, index.as_slice()) {
        push_chars(out, take_word(rest));
        return;
    }
    let uuid = to_chars("uuid: ");
    if let Some(rest) = rest_after(s, uuid.as_slice()) {
        push_chars(out, take_until(take_word(rest), '-'));
        return;
    }
    let part = if s.len() <= 12 {
        s
    } else {
        slice_subrange(s, s.len() - 12, s.len())
    };
    assert(part@ =~= last_chars(s@, 12));
    push_chars(out, part);
}

/// The distinguishing part of an asset id's debug form.
pub fn id_index(id: &str) -> (short: String)
    ensures
        short@ == short_id(id@),
{
    let mut short = String::new();
    push_id_index(&mut short, id);
    assert(short@ =~= short_id(id@));
    short
}

/// A readable name for an image asset: the file name of its path, or the path itself if
/// it ends in none, or the short form of its id for a generated image, which has no
/// path. Only the file name is used, not the directory, which is the same for every
/// sprite in a game.
pub fn image_label(name: &AssetName) -> (label: String)
    ensures
        label@ == label_text(*name),
{
    match name {
        AssetName::Path { file_name: Some(f), .. } => f.clone(),
        AssetName::Path { file_name: None, full } => full.clone(),
        AssetName::Generated { id } => {
            let mut label = String::from_str("gen:");
            push_id_index(&mut label, id.as_str());
            label
        },
    }
}

// ---- laws ---------------------------------------------------------------------------

/// Dropping from the end stops at the last character that does not satisfy the test.
proof fn drop_trailing_keeps(a: Seq<char>, b: Seq<char>, test: spec_fn(char) -> bool)
    requires
        a.len() > 0,
        !test(a.last()),
    ensures
        a.is_prefix_of(drop_trailing(a + b, test)),
        drop_trailing(a + b, test).len() <= a.len() + b.len(),
    decreases b.len(),
{
    let s = a + b;
    if b.len() == 0 {
        assert(s =~= a);
    } else if test(s.last()) {
        assert(s.drop_last() =~= a + b.drop_last());
        drop_trailing_keeps(a, b.drop_last(), test);
    } else {
        assert(a =~= s.take(a.len() as int));
    }
}

/// A text that a separator follows is what stands before the separator.
proof fn until_is(s: Seq<char>, d: Seq<char>, c: char)
    requires
        lacks(d, c),
        d.push(c).is_prefix_of(s),
    ensures
        until(s, c) == d,
{
    let i = d.len() as int;
    let head = s.subrange(0, i + 1);
    assert(head == d.push(c));
    assert(head[i] == c);
    assert(s.take(i) =~= head.take(i));
    assert(head.take(i) =~= d);
    position_is(s, c, i);
}

/// A text without the separator stays whole.
proof fn until_is_all(s: Seq<char>, c: char)
    requires
        lacks(s, c),
    ensures
        until(s, c) == s,
{
    assert(s.take(s.len() as int) =~= s);
    position_is(s, c, s.len() as int);
}

/// Of the shape `.. index: N, ..` the index is kept and nothing else, however long the
/// type name before it.
pub proof fn an_index_is_kept(before: Seq<char>, n: nat, rest: Seq<char>)
    requires
        ({
            let s = before + "index: "@ + digits(n).push(',') + rest;
            &&& occurs_first_at(s, "index: "@, before.len() as int)
            &&& first_occurrence(digits(n).push(',') + rest, "index: "@) is None
        }),
    ensures
        short_id(before + "index: "@ + digits(n).push(',') + rest) == digits(n),
{
    let m = "index: "@;
    let d = digits(n);
    let tail = d.push(',') + rest;
    let s = before + m + d.push(',') + rest;
    first_occurrence_is(s, m, before.len() as int);
    assert(s.skip(before.len() as int + m.len()) =~= tail);
    digits_read_back(n);
    let space = |c: char| is_space(c);
    let brace = |c: char| c == '}';
    assert(is_digit(tail[0]));
    drop_leading_is(tail, space, 0);
    assert(tail.skip(0) =~= tail);
    drop_trailing_keeps(d.push(','), rest, space);
    let t = trimmed(tail);
    assert(t =~= d.push(',') + t.skip(d.len() as int + 1));
    drop_trailing_keeps(d.push(','), t.skip(d.len() as int + 1), brace);
    until_is(drop_trailing(t, brace), d, ',');
    until_is_all(d, ' ');
    until_is_all(d, '}');
}

/// Of the shape `.. uuid: GROUP-..` the first group is kept and nothing else.
pub proof fn a_first_group_is_kept(before: Seq<char>, group: Seq<char>, rest: Seq<char>)
    requires
        group.len() > 0,
        !is_space(group[0]),
        lacks(group, '-'),
        lacks(group, ','),
        lacks(group, ' '),
        lacks(group, '}'),
        ({
            let s = before + "uuid: "@ + group.push('-') + rest;
            &&& first_occurrence(s, "index: "@) is None
            &&& occurs_first_at(s, "uuid: "@, before.len() as int)
            &&& first_occurrence(group.push('-') + rest, "uuid: "@) is None
        }),
    ensures
        short_id(before + "uuid: "@ + group.push('-') + rest) == group,
{
    let m = "uuid: "@;
    let g = group.push('-');
    let tail = g + rest;
    let s = before + m + g + rest;
    first_occurrence_is(s, m, before.len() as int);
    assert(s.skip(before.len() as int + m.len()) =~= tail);
    let space = |c: char| is_space(c);
    let brace = |c: char| c == '}';
    assert(tail[0] == group[0]);
    drop_leading_is(tail, space, 0);
    assert(tail.skip(0) =~= tail);
    drop_trailing_keeps(g, rest, space);
    let t = trimmed(tail);
    assert(t =~= g + t.skip(g.len() as int));
    drop_trailing_keeps(g, t.skip(g.len() as int), brace);
    let u = drop_trailing(t, brace);
    until_keeps(u, g, ',');
    let v = until(u, ',');
    until_keeps(v, g, ' ');
    let w = until(v, ' ');
    until_keeps(w, g, '}');
    until_is(until(w, '}'), group, '-');
}

/// Cutting a text at a separator keeps a beginning of it that lacks the separator.
proof fn until_keeps(s: Seq<char>, head: Seq<char>, c: char)
    requires
        head.is_prefix_of(s),
        lacks(head, c),
    ensures
        head.is_prefix_of(until(s, c)),
{
    a_split_can_be_undone(s, c);
    let n = head.len() as int;
    let front = s.subrange(0, n);
    assert(front == head);
    match split_once(s, c) {
        None => {
            until_is_all(s, c);
        },
        Some((a, b)) => {
            assert(until(s, c) == a);
            assert(a.push(c)[a.len() as int] == c);
            assert(s[a.len() as int] == c);
            if a.len() < n {
                assert(front[a.len() as int] == c);
                assert(head[a.len() as int] == c);
            }
            assert(a.subrange(0, n) =~= head) by {
                assert forall|j: int| 0 <= j < n implies #[trigger] a[j] == head[j] by {
                    assert(s[j] == (a.push(c) + b)[j]);
                    assert(front[j] == s[j]);
                }
            }
        },
    }
}

/// An id of another shape is kept as its last twelve characters, or whole if it is shorter.
pub proof fn another_shape_is_cut_short(front: Seq<char>, tail: Seq<char>)
    requires
        tail.len() == 12,
        first_occurrence(front + tail, "index: "@) is None,
        first_occurrence(front + tail, "uuid: "@) is None,
    ensures
        short_id(front + tail) == tail,
        forall|s: Seq<char>|
            s.len() <= 12 && first_occurrence(s, "index: "@) is None && first_occurrence(
                s,
                "uuid: "@,
            ) is None ==> #[trigger] short_id(s) == s,
{
    let s = front + tail;
    assert(s.skip(s.len() - 12) =~= tail);
}

/// A file is named by its file name, in whatever directory it is, and by its path only if
/// that ends in no name; a generated image never has the plain name of a file.
pub proof fn labels_are_file_names(name: AssetName)
    ensures
        match name {
            AssetName::Path { file_name, full } => {
                &&& file_name matches Some(f) ==> label_text(name) == f@
                &&& file_name is None ==> label_text(name) == full@
            },
            AssetName::Generated { id } => {
                &&& label_text(name).len() == 4 + short_id(id@).len()
                &&& label_text(name).take(4) == "gen:"@
                &&& label_text(name).skip(4) == short_id(id@)
            },
        },
{
    reveal_strlit("gen:");
    if let AssetName::Generated { id } = name {
        assert(label_text(name).take(4) =~= "gen:"@);
        assert(label_text(name).skip(4) =~= short_id(id@));
    }
}

} // verus!
