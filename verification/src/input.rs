//! Terminal input: what a raw key or mouse event of the terminal means.
//!
//! A terminal reports characters, not scan codes, so the physical key is a best effort.
//! The logical key and the text always carry the real character.

use vstd::prelude::*;

verus! {

/// A physical key.
#[derive(Clone, Copy, PartialEq, Eq, Debug, Structural)]
pub enum KeyCode {
    KeyA,
    KeyB,
    KeyC,
    KeyD,
    KeyE,
    KeyF,
    KeyG,
    KeyH,
    KeyI,
    KeyJ,
    KeyK,
    KeyL,
    KeyM,
    KeyN,
    KeyO,
    KeyP,
    KeyQ,
    KeyR,
    KeyS,
    KeyT,
    KeyU,
    KeyV,
    KeyW,
    KeyX,
    KeyY,
    KeyZ,
    Digit0,
    Digit1,
    Digit2,
    Digit3,
    Digit4,
    Digit5,
    Digit6,
    Digit7,
    Digit8,
    Digit9,
    Space,
    Minus,
    Equal,
    Comma,
    Period,
    Slash,
    Semicolon,
    Quote,
    BracketLeft,
    BracketRight,
    Backslash,
    Backquote,
    Enter,
    Backspace,
    Escape,
    ArrowLeft,
    ArrowRight,
    ArrowUp,
    ArrowDown,
    Tab,
    Delete,
    Home,
    End,
    PageUp,
    PageDown,
    F1,
    F2,
    F3,
    F4,
    F5,
    F6,
    F7,
    F8,
    F9,
    F10,
    F11,
    F12,
}

/// A logical key.
#[derive(Debug)]
pub enum Key {
    /// A typed character.
    Character(String),
    Enter,
    Backspace,
    Escape,
    ArrowLeft,
    ArrowRight,
    ArrowUp,
    ArrowDown,
    Tab,
    Delete,
    Home,
    End,
    PageUp,
    PageDown,
    F1,
    F2,
    F3,
    F4,
    F5,
    F6,
    F7,
    F8,
    F9,
    F10,
    F11,
    F12,
}

/// A key as the terminal names it.
#[derive(Clone, Copy, PartialEq, Eq, Debug, Structural)]
pub enum TermKey {
    /// A typed character.
    Char(char),
    Enter,
    Backspace,
    Esc,
    Left,
    Right,
    Up,
    Down,
    Tab,
    Delete,
    Home,
    End,
    PageUp,
    PageDown,
    /// A function key.
    F(u8),
    /// Any other key.
    Other,
}

/// A character with its ASCII upper case taken off.
pub open spec fn lower(c: char) -> char {
    if 'A' <= c <= 'Z' {
        (c as u32 + 32) as char
    } else {
        c
    }
}

/// The physical key of a lower-case character on a US layout, if it has one.
pub open spec fn us_key(c: char) -> Option<KeyCode> {
    match c {
        'a' => Some(KeyCode::KeyA),
        'b' => Some(KeyCode::KeyB),
        'c' => Some(KeyCode::KeyC),
        'd' => Some(KeyCode::KeyD),
        'e' => Some(KeyCode::KeyE),
        'f' => Some(KeyCode::KeyF),
        'g' => Some(KeyCode::KeyG),
        'h' => Some(KeyCode::KeyH),
        'i' => Some(KeyCode::KeyI),
        'j' => Some(KeyCode::KeyJ),
        'k' => Some(KeyCode::KeyK),
        'l' => Some(KeyCode::KeyL),
        'm' => Some(KeyCode::KeyM),
        'n' => Some(KeyCode::KeyN),
        'o' => Some(KeyCode::KeyO),
        'p' => Some(KeyCode::KeyP),
        'q' => Some(KeyCode::KeyQ),
        'r' => Some(KeyCode::KeyR),
        's' => Some(KeyCode::KeyS),
        't' => Some(KeyCode::KeyT),
        'u' => Some(KeyCode::KeyU),
        'v' => Some(KeyCode::KeyV),
        'w' => Some(KeyCode::KeyW),
        'x' => Some(KeyCode::KeyX),
        'y' => Some(KeyCode::KeyY),
        'z' => Some(KeyCode::KeyZ),
        ' ' => Some(KeyCode::Space),
        '0' => Some(KeyCode::Digit0),
        '1' => Some(KeyCode::Digit1),
        '2' => Some(KeyCode::Digit2),
        '3' => Some(KeyCode::Digit3),
        '4' => Some(KeyCode::Digit4),
        '5' => Some(KeyCode::Digit5),
        '6' => Some(KeyCode::Digit6),
        '7' => Some(KeyCode::Digit7),
        '8' => Some(KeyCode::Digit8),
        '9' => Some(KeyCode::Digit9),
        '-' => Some(KeyCode::Minus),
        '=' => Some(KeyCode::Equal),
        ',' => Some(KeyCode::Comma),
        '.' => Some(KeyCode::Period),
        '/' => Some(KeyCode::Slash),
        ';' => Some(KeyCode::Semicolon),
        '\'' => Some(KeyCode::Quote),
        '[' => Some(KeyCode::BracketLeft),
        ']' => Some(KeyCode::BracketRight),
        '\\' => Some(KeyCode::Backslash),
        '`' => Some(KeyCode::Backquote),
        _ => None,
    }
}

/// The physical key that is guessed for a typed character: case does not matter, and a
/// character without a key of its own falls back to the space bar.
pub open spec fn keycode_of(c: char) -> KeyCode {
    match us_key(lower(c)) {
        Some(k) => k,
        None => KeyCode::Space,
    }
}

/// Best-effort physical-key guess for a typed character.
///
/// Text-entry code should read the logical key or the text; this only needs to be right
/// for keys used as controls.
pub fn char_to_keycode(c: char) -> (code: KeyCode)
    ensures
        code == keycode_of(c),
{
    match c {
        'a' | 'A' => KeyCode::KeyA,
        'b' | 'B' => KeyCode::KeyB,
        'c' | 'C' => KeyCode::KeyC,
        'd' | 'D' => KeyCode::KeyD,
        'e' | 'E' => KeyCode::KeyE,
        'f' | 'F' => KeyCode::KeyF,
        'g' | 'G' => KeyCode::KeyG,
        'h' | 'H' => KeyCode::KeyH,
        'i' | 'I' => KeyCode::KeyI,
        'j' | 'J' => KeyCode::KeyJ,
        'k' | 'K' => KeyCode::KeyK,
        'l' | 'L' => KeyCode::KeyL,
        'm' | 'M' => KeyCode::KeyM,
        'n' | 'N' => KeyCode::KeyN,
        'o' | 'O' => KeyCode::KeyO,
        'p' | 'P' => KeyCode::KeyP,
        'q' | 'Q' => KeyCode::KeyQ,
        'r' | 'R' => KeyCode::KeyR,
        's' | 'S' => KeyCode::KeyS,
        't' | 'T' => KeyCode::KeyT,
        'u' | 'U' => KeyCode::KeyU,
        'v' | 'V' => KeyCode::KeyV,
        'w' | 'W' => KeyCode::KeyW,
        'x' | 'X' => KeyCode::KeyX,
        'y' | 'Y' => KeyCode::KeyY,
        'z' | 'Z' => KeyCode::KeyZ,
        ' ' => KeyCode::Space,
        '0' => KeyCode::Digit0,
        '1' => KeyCode::Digit1,
        '2' => KeyCode::Digit2,
        '3' => KeyCode::Digit3,
        '4' => KeyCode::Digit4,
        '5' => KeyCode::Digit5,
        '6' => KeyCode::Digit6,
        '7' => KeyCode::Digit7,
        '8' => KeyCode::Digit8,
        '9' => KeyCode::Digit9,
        '-' => KeyCode::Minus,
        '=' => KeyCode::Equal,
        ',' => KeyCode::Comma,
        '.' => KeyCode::Period,
        '/' => KeyCode::Slash,
        ';' => KeyCode::Semicolon,
        '\'' => KeyCode::Quote,
        '[' => KeyCode::BracketLeft,
        ']' => KeyCode::BracketRight,
        '\\' => KeyCode::Backslash,
        '`' => KeyCode::Backquote,
        _ => KeyCode::Space,
    }
}

/// The physical and the logical function key of a number.
pub open spec fn function_key(n: u8) -> Option<(KeyCode, Key)> {
    match n {
        1 => Some((KeyCode::F1, Key::F1)),
        2 => Some((KeyCode::F2, Key::F2)),
        3 => Some((KeyCode::F3, Key::F3)),
        4 => Some((KeyCode::F4, Key::F4)),
        5 => Some((KeyCode::F5, Key::F5)),
        6 => Some((KeyCode::F6, Key::F6)),
        7 => Some((KeyCode::F7, Key::F7)),
        8 => Some((KeyCode::F8, Key::F8)),
        9 => Some((KeyCode::F9, Key::F9)),
        10 => Some((KeyCode::F10, Key::F10)),
        11 => Some((KeyCode::F11, Key::F11)),
        12 => Some((KeyCode::F12, Key::F12)),
        _ => None,
    }
}

/// Physical and logical key for a function key number. Out of range is `None`.
pub fn f_key(n: u8) -> (key: Option<(KeyCode, Key)>)
    ensures
        key == function_key(n),
{
    match n {
        1 => Some((KeyCode::F1, Key::F1)),
        2 => Some((KeyCode::F2, Key::F2)),
        3 => Some((KeyCode::F3, Key::F3)),
        4 => Some((KeyCode::F4, Key::F4)),
        5 => Some((KeyCode::F5, Key::F5)),
        6 => Some((KeyCode::F6, Key::F6)),
        7 => Some((KeyCode::F7, Key::F7)),
        8 => Some((KeyCode::F8, Key::F8)),
        9 => Some((KeyCode::F9, Key::F9)),
        10 => Some((KeyCode::F10, Key::F10)),
        11 => Some((KeyCode::F11, Key::F11)),
        12 => Some((KeyCode::F12, Key::F12)),
        _ => None,
    }
}

/// A key that was understood.
#[derive(Debug)]
pub struct MappedKey {
    pub code: KeyCode,
    pub logical: Key,
    /// The text that the key types, if it types any.
    pub text: Option<String>,
}

/// The keys that mean something but type nothing.
pub open spec fn control_key(key: TermKey) -> Option<(KeyCode, Key)> {
    match key {
        TermKey::Enter => Some((KeyCode::Enter, Key::Enter)),
        TermKey::Backspace => Some((KeyCode::Backspace, Key::Backspace)),
        TermKey::Esc => Some((KeyCode::Escape, Key::Escape)),
        TermKey::Left => Some((KeyCode::ArrowLeft, Key::ArrowLeft)),
        TermKey::Right => Some((KeyCode::ArrowRight, Key::ArrowRight)),
        TermKey::Up => Some((KeyCode::ArrowUp, Key::ArrowUp)),
        TermKey::Down => Some((KeyCode::ArrowDown, Key::ArrowDown)),
        TermKey::Tab => Some((KeyCode::Tab, Key::Tab)),
        TermKey::Delete => Some((KeyCode::Delete, Key::Delete)),
        TermKey::Home => Some((KeyCode::Home, Key::Home)),
        TermKey::End => Some((KeyCode::End, Key::End)),
        TermKey::PageUp => Some((KeyCode::PageUp, Key::PageUp)),
        TermKey::PageDown => Some((KeyCode::PageDown, Key::PageDown)),
        TermKey::F(n) => function_key(n),
        _ => None,
    }
}

/// Whether a key was understood as it should be: a character carries itself as its
/// logical key and its text, a control key carries no text, and anything else is dropped
/// rather than guessed.
pub open spec fn maps(key: TermKey, mapped: Option<MappedKey>) -> bool {
    match key {
        TermKey::Char(c) => mapped matches Some(m) && m.code == keycode_of(c) && (
        m.logical matches Key::Character(s) && s@ == seq![c]) && (m.text matches Some(t) && t@
            == seq![c]),
        _ => match control_key(key) {
            Some((code, logical)) => mapped matches Some(m) && m.code == code && m.logical
                == logical && m.text is None,
            None => mapped is None,
        },
    }
}

/// The text of one character.
fn one_char(c: char) -> (s: String)
    ensures
        s@ == seq![c],
{
    let mut s = String::new();
    s.push(c);
    assert(s@ =~= seq![c]);
    s
}

/// Maps a terminal key to its physical key, its logical key and its text.
pub fn map_key(key: TermKey) -> (mapped: Option<MappedKey>)
    ensures
        maps(key, mapped),
{
    let (code, logical) = match key {
        TermKey::Char(c) => {
            return Some(
                MappedKey {
                    code: char_to_keycode(c),
                    logical: Key::Character(one_char(c)),
                    text: Some(one_char(c)),
                },
            );
        },
        TermKey::Enter => (KeyCode::Enter, Key::Enter),
        TermKey::Backspace => (KeyCode::Backspace, Key::Backspace),
        TermKey::Esc => (KeyCode::Escape, Key::Escape),
        TermKey::Left => (KeyCode::ArrowLeft, Key::ArrowLeft),
        TermKey::Right => (KeyCode::ArrowRight, Key::ArrowRight),
        TermKey::Up => (KeyCode::ArrowUp, Key::ArrowUp),
        TermKey::Down => (KeyCode::ArrowDown, Key::ArrowDown),
        TermKey::Tab => (KeyCode::Tab, Key::Tab),
        TermKey::Delete => (KeyCode::Delete, Key::Delete),
        TermKey::Home => (KeyCode::Home, Key::Home),
        TermKey::End => (KeyCode::End, Key::End),
        TermKey::PageUp => (KeyCode::PageUp, Key::PageUp),
        TermKey::PageDown => (KeyCode::PageDown, Key::PageDown),
        TermKey::F(n) => match f_key(n) {
            Some(k) => k,
            None => {
                return None;
            },
        },
        TermKey::Other => {
            return None;
        },
    };
    Some(MappedKey { code, logical, text: None })
}

// ---- events -------------------------------------------------------------------------

/// What happened to a key.
#[derive(Clone, Copy, PartialEq, Eq, Debug, Structural)]
pub enum KeyKind {
    Press,
    Repeat,
    Release,
}

/// An event as the terminal reports it. Cells are counted from zero.
#[derive(Clone, Copy, PartialEq, Eq, Debug, Structural)]
pub enum RawEvent {
    /// The left button went down.
    LeftDown { column: u16, row: u16 },
    /// A key event, with whether Control was held.
    Key { key: TermKey, control: bool, kind: KeyKind },
    /// Anything else.
    Other,
}

/// One decoded terminal input event.
#[derive(Debug)]
pub enum TermEvent {
    /// Left-click at a 1-based terminal cell.
    Click { col: u16, row: u16 },
    /// A key press or release.
    Key { key: MappedKey, pressed: bool },
}

/// What the reader does about an event.
#[derive(Debug)]
pub enum ReaderAction {
    /// Hand it on.
    Forward(TermEvent),
    /// Restore the terminal and quit: raw mode swallows the default interrupt, so Ctrl-C
    /// has to be watched for.
    Quit,
    /// Nothing.
    Ignore,
}

/// Whether an event is the request to quit.
pub open spec fn quits(ev: RawEvent) -> bool {
    ev matches RawEvent::Key { key, control, .. } && key == TermKey::Char('c') && control
}

/// Whether the reader did the right thing about an event.
pub open spec fn handled(ev: RawEvent, action: ReaderAction) -> bool {
    match ev {
        RawEvent::LeftDown { column, row } => {
            &&& action matches ReaderAction::Forward(TermEvent::Click { col: c, row: r })
            &&& c == column + 1
            &&& r == row + 1
        },
        RawEvent::Key { key, kind, .. } => if quits(ev) {
            action is Quit
        } else {
            match action {
                ReaderAction::Forward(TermEvent::Key { key: m, pressed }) => {
                    &&& maps(key, Some(m))
                    &&& pressed == (kind != KeyKind::Release)
                },
                ReaderAction::Ignore => maps(key, None),
                _ => false,
            }
        },
        RawEvent::Other => action is Ignore,
    }
}

/// Decides what to do about a terminal event.
///
/// The terminal counts cells from zero, the graphics protocol from one. Release and
/// repeat only arrive where the terminal supports them; a repeat counts as a press.
pub fn handle_event(ev: RawEvent) -> (action: ReaderAction)
    requires
        ev matches RawEvent::LeftDown { column, row } ==> column < u16::MAX && row < u16::MAX,
    ensures
        handled(ev, action),
{
    match ev {
        RawEvent::LeftDown { column, row } => ReaderAction::Forward(
            TermEvent::Click { col: column + 1, row: row + 1 },
        ),
        RawEvent::Key { key, control, kind } => {
            if key == TermKey::Char('c') && control {
                return ReaderAction::Quit;
            }
            match map_key(key) {
                Some(m) => ReaderAction::Forward(
                    TermEvent::Key { key: m, pressed: kind != KeyKind::Release },
                ),
                None => ReaderAction::Ignore,
            }
        },
        RawEvent::Other => ReaderAction::Ignore,
    }
}

// ---- laws ---------------------------------------------------------------------------

/// Case does not change the physical key.
pub proof fn case_does_not_move_a_key(c: char)
    ensures
        keycode_of(lower(c)) == keycode_of(c),
{
}

/// Only the space bar and characters without a key of their own are the space bar: no
/// letter, digit or punctuation mark acts as it.
pub proof fn only_unknown_characters_act_as_space(c: char)
    ensures
        keycode_of(c) == KeyCode::Space <==> c == ' ' || us_key(lower(c)) is None,
{
}

/// Two different lower-case characters that have a key have different keys.
pub proof fn keys_are_told_apart(a: char, b: char)
    requires
        us_key(a) is Some,
        us_key(a) == us_key(b),
    ensures
        a == b,
{
}

/// What a key types and what it is are consistent: text comes with a logical character
/// and only with one.
pub proof fn text_and_character_agree(key: TermKey, m: MappedKey)
    requires
        maps(key, Some(m)),
    ensures
        m.text is Some <==> m.logical is Character,
        m.text is Some <==> key is Char,
        m.text matches Some(t) ==> m.logical->Character_0@ == t@,
{
}

/// Letters and digits have the keys of their names: counted from `a` a letter is as far
/// along the alphabet as its key is along the letter keys, upper case or lower, and counted
/// from `0` a digit is as far along as its key is along the digit keys.
pub proof fn letters_and_digits_are_in_order(c: char)
    ensures
        'a' <= c <= 'z' ==> keycode_of(c) as int - KeyCode::KeyA as int == c as int - 'a' as int,
        'A' <= c <= 'Z' ==> keycode_of(c) as int - KeyCode::KeyA as int == c as int - 'A' as int,
        '0' <= c <= '9' ==> keycode_of(c) as int - KeyCode::Digit0 as int == c as int - '0' as int,
{
}

/// The keys themselves are listed in the order of their names: the letters by the alphabet,
/// the digits and the function keys by number.
pub proof fn keys_are_listed_in_order()
    ensures
        KeyCode::KeyA as int == 0,
        KeyCode::KeyB as int == 1,
        KeyCode::KeyC as int == 2,
        KeyCode::KeyD as int == 3,
        KeyCode::KeyE as int == 4,
        KeyCode::KeyF as int == 5,
        KeyCode::KeyG as int == 6,
        KeyCode::KeyH as int == 7,
        KeyCode::KeyI as int == 8,
        KeyCode::KeyJ as int == 9,
        KeyCode::KeyK as int == 10,
        KeyCode::KeyL as int == 11,
        KeyCode::KeyM as int == 12,
        KeyCode::KeyN as int == 13,
        KeyCode::KeyO as int == 14,
        KeyCode::KeyP as int == 15,
        KeyCode::KeyQ as int == 16,
        KeyCode::KeyR as int == 17,
        KeyCode::KeyS as int == 18,
        KeyCode::KeyT as int == 19,
        KeyCode::KeyU as int == 20,
        KeyCode::KeyV as int == 21,
        KeyCode::KeyW as int == 22,
        KeyCode::KeyX as int == 23,
        KeyCode::KeyY as int == 24,
        KeyCode::KeyZ as int == 25,
        KeyCode::Digit0 as int == 26,
        KeyCode::Digit1 as int == 27,
        KeyCode::Digit2 as int == 28,
        KeyCode::Digit3 as int == 29,
        KeyCode::Digit4 as int == 30,
        KeyCode::Digit5 as int == 31,
        KeyCode::Digit6 as int == 32,
        KeyCode::Digit7 as int == 33,
        KeyCode::Digit8 as int == 34,
        KeyCode::Digit9 as int == 35,
        KeyCode::F2 as int - KeyCode::F1 as int == 1,
        KeyCode::F3 as int - KeyCode::F1 as int == 2,
        KeyCode::F4 as int - KeyCode::F1 as int == 3,
        KeyCode::F5 as int - KeyCode::F1 as int == 4,
        KeyCode::F6 as int - KeyCode::F1 as int == 5,
        KeyCode::F7 as int - KeyCode::F1 as int == 6,
        KeyCode::F8 as int - KeyCode::F1 as int == 7,
        KeyCode::F9 as int - KeyCode::F1 as int == 8,
        KeyCode::F10 as int - KeyCode::F1 as int == 9,
        KeyCode::F11 as int - KeyCode::F1 as int == 10,
        KeyCode::F12 as int - KeyCode::F1 as int == 11,
{
}

/// Each punctuation mark has the key of its name, and no other character has that key.
pub proof fn marks_have_the_keys_of_their_names(c: char)
    ensures
        keycode_of(c) == KeyCode::Minus <==> c == '-',
        keycode_of(c) == KeyCode::Equal <==> c == '=',
        keycode_of(c) == KeyCode::Comma <==> c == ',',
        keycode_of(c) == KeyCode::Period <==> c == '.',
        keycode_of(c) == KeyCode::Slash <==> c == '/',
        keycode_of(c) == KeyCode::Semicolon <==> c == ';',
        keycode_of(c) == KeyCode::Quote <==> c == '\'',
        keycode_of(c) == KeyCode::BracketLeft <==> c == '[',
        keycode_of(c) == KeyCode::BracketRight <==> c == ']',
        keycode_of(c) == KeyCode::Backslash <==> c == '\\',
        keycode_of(c) == KeyCode::Backquote <==> c == '`',
{
}

/// A typed character has the key of a letter, a digit, a mark or the space bar, and never
/// that of a control key.
pub proof fn typing_never_controls(c: char)
    ensures
        KeyCode::KeyA as int <= keycode_of(c) as int <= KeyCode::Backquote as int,
        (KeyCode::Backquote as int) < KeyCode::Enter as int,
        !('a' <= c <= 'z') && !('A' <= c <= 'Z') && !('0' <= c <= '9') && c != '-' && c != '=' && c
            != ',' && c != '.' && c != '/' && c != ';' && c != '\'' && c != '[' && c != ']' && c
            != '\\' && c != '`' ==> keycode_of(c) == KeyCode::Space,
{
}

/// Every control key of the terminal is understood as the key of its name, physical and
/// logical, and no other key of the terminal is.
pub proof fn control_keys_have_their_names(key: TermKey, m: MappedKey)
    requires
        maps(key, Some(m)),
    ensures
        key == TermKey::Enter <==> m.code == KeyCode::Enter,
        key == TermKey::Enter <==> m.logical is Enter,
        key == TermKey::Backspace <==> m.code == KeyCode::Backspace,
        key == TermKey::Backspace <==> m.logical is Backspace,
        key == TermKey::Esc <==> m.code == KeyCode::Escape,
        key == TermKey::Esc <==> m.logical is Escape,
        key == TermKey::Left <==> m.code == KeyCode::ArrowLeft,
        key == TermKey::Left <==> m.logical is ArrowLeft,
        key == TermKey::Right <==> m.code == KeyCode::ArrowRight,
        key == TermKey::Right <==> m.logical is ArrowRight,
        key == TermKey::Up <==> m.code == KeyCode::ArrowUp,
        key == TermKey::Up <==> m.logical is ArrowUp,
        key == TermKey::Down <==> m.code == KeyCode::ArrowDown,
        key == TermKey::Down <==> m.logical is ArrowDown,
        key == TermKey::Tab <==> m.code == KeyCode::Tab,
        key == TermKey::Tab <==> m.logical is Tab,
        key == TermKey::Delete <==> m.code == KeyCode::Delete,
        key == TermKey::Delete <==> m.logical is Delete,
        key == TermKey::Home <==> m.code == KeyCode::Home,
        key == TermKey::Home <==> m.logical is Home,
        key == TermKey::End <==> m.code == KeyCode::End,
        key == TermKey::End <==> m.logical is End,
        key == TermKey::PageUp <==> m.code == KeyCode::PageUp,
        key == TermKey::PageUp <==> m.logical is PageUp,
        key == TermKey::PageDown <==> m.code == KeyCode::PageDown,
        key == TermKey::PageDown <==> m.logical is PageDown,
{
}

/// Function keys are in order: the `n`-th is the `n`-th from F1, physical and logical, and
/// there are twelve.
pub proof fn function_keys_are_in_order(n: u8, mapped: Option<MappedKey>)
    requires
        maps(TermKey::F(n), mapped),
    ensures
        mapped is Some <==> 1 <= n <= 12,
        mapped matches Some(m) ==> {
            &&& m.code as int - KeyCode::F1 as int == n - 1
            &&& m.logical is F1 <==> n == 1
            &&& m.logical is F2 <==> n == 2
            &&& m.logical is F3 <==> n == 3
            &&& m.logical is F4 <==> n == 4
            &&& m.logical is F5 <==> n == 5
            &&& m.logical is F6 <==> n == 6
            &&& m.logical is F7 <==> n == 7
            &&& m.logical is F8 <==> n == 8
            &&& m.logical is F9 <==> n == 9
            &&& m.logical is F10 <==> n == 10
            &&& m.logical is F11 <==> n == 11
            &&& m.logical is F12 <==> n == 12
            &&& m.text is None
        },
{
}

/// A key types the character that it is, in its own case, and every character is
/// understood; only keys that the terminal cannot name, and function keys past the twelfth,
/// are dropped.
pub proof fn keys_type_what_they_are(key: TermKey, mapped: Option<MappedKey>)
    requires
        maps(key, mapped),
    ensures
        mapped is None <==> key == TermKey::Other || (key matches TermKey::F(n) && (n == 0 || n > 12)),
        mapped matches Some(m) ==> match m.text {
            Some(t) => t@.len() == 1 && key == TermKey::Char(t@[0]) && (m.logical matches Key::Character(s)
                && s@ == t@),
            None => !(key is Char) && !(m.logical is Character),
        },
{
    if let TermKey::F(n) = key {
        function_keys_are_in_order(n, mapped);
    }
}

/// What the reader does about an event says what the event was. Control and `c` together
/// quit, and nothing else does. A click is passed on one cell further right and down,
/// because cells are counted from one. A key is passed on as pressed unless it was
/// released, and what cannot be understood is passed over.
pub proof fn events_are_passed_on(ev: RawEvent, action: ReaderAction)
    requires
        handled(ev, action),
    ensures
        action is Quit <==> (ev matches RawEvent::Key { key, control, kind } && control && key
            == TermKey::Char('c')),
        ev is LeftDown <==> (action matches ReaderAction::Forward(e) && e is Click),
        action matches ReaderAction::Forward(TermEvent::Click { col, row }) ==> col >= 1 && row >= 1
            && ev == (RawEvent::LeftDown { column: (col - 1) as u16, row: (row - 1) as u16 }),
        action matches ReaderAction::Forward(TermEvent::Key { key: m, pressed }) ==> {
            &&& ev matches RawEvent::Key { key, control, kind }
            &&& pressed <==> kind == KeyKind::Press || kind == KeyKind::Repeat
            &&& maps(key, Some(m))
        },
        action is Ignore <==> ev is Other || (ev matches RawEvent::Key { key, control, kind } && (key
            == TermKey::Other || (key matches TermKey::F(n) && (n == 0 || n > 12)))),
{
    if let RawEvent::Key { key, control, kind } = ev {
        if let ReaderAction::Forward(TermEvent::Key { key: m, pressed }) = action {
            keys_type_what_they_are(key, Some(m));
        } else if let ReaderAction::Ignore = action {
            keys_type_what_they_are(key, None);
        }
    }
}

} // verus!
