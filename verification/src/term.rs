//! Keys, as a terminal in raw mode sends them.

use vstd::prelude::*;

verus! {

#[derive(Debug, Clone, Copy, PartialEq, Eq, Structural)]
pub enum Key {
    Char(char),
    Enter,
    Backspace,
    Esc,
    Up,
    Down,
    Left,
    Right,
    Space,
    Tab,
    CtrlC,
}

/// What the first byte of a key means.
#[derive(Debug, Clone, Copy, PartialEq, Eq, Structural)]
pub enum FirstByte {
    /// It is a key by itself.
    Key(Key),
    /// Two bytes more tell which key it is.
    Escape,
    /// It is no key.
    Nothing,
}

/// The key, or the start of one, that a byte stands for.
pub open spec fn key_of_byte(b: u8) -> FirstByte {
    if b == 3 {
        FirstByte::Key(Key::CtrlC)
    } else if b == 13 || b == 10 {
        FirstByte::Key(Key::Enter)
    } else if b == 0x7f || b == 8 {
        FirstByte::Key(Key::Backspace)
    } else if b == 9 {
        FirstByte::Key(Key::Tab)
    } else if b == 32 {
        FirstByte::Key(Key::Space)
    } else if b == 0x1b {
        FirstByte::Escape
    } else if b < 0x80 {
        FirstByte::Key(Key::Char(b as char))
    } else {
        FirstByte::Nothing
    }
}

/// The key for the two bytes behind an escape, if they could be read: an
/// arrow, the escape key itself, or nothing.
pub open spec fn key_of_escape(rest: Option<(u8, u8)>) -> Option<Key> {
    match rest {
        None => Some(Key::Esc),
        Some((a, b)) => if a != 91 {
            Some(Key::Esc)
        } else if b == 65 {
            Some(Key::Up)
        } else if b == 66 {
            Some(Key::Down)
        } else if b == 67 {
            Some(Key::Right)
        } else if b == 68 {
            Some(Key::Left)
        } else {
            None
        },
    }
}

/// Looks at the first byte of a key.
pub fn first_byte(b: u8) -> (r: FirstByte)
    ensures
        r == key_of_byte(b),
{
    match b {
        3 => FirstByte::Key(Key::CtrlC),
        13 | 10 => FirstByte::Key(Key::Enter),
        0x7f | 8 => FirstByte::Key(Key::Backspace),
        9 => FirstByte::Key(Key::Tab),
        32 => FirstByte::Key(Key::Space),
        0x1b => FirstByte::Escape,
        _ => if b < 0x80 {
            FirstByte::Key(Key::Char(b as char))
        } else {
            FirstByte::Nothing
        },
    }
}

/// Looks at the two bytes behind an escape.
pub fn after_escape(rest: Option<(u8, u8)>) -> (key: Option<Key>)
    ensures
        key == key_of_escape(rest),
{
    match rest {
        None => Some(Key::Esc),
        Some((a, b)) => {
            if a != 91 {
                return Some(Key::Esc);
            }
            match b {
                65 => Some(Key::Up),
                66 => Some(Key::Down),
                67 => Some(Key::Right),
                68 => Some(Key::Left),
                _ => None,
            }
        },
    }
}

/// Every byte of ASCII is a key or starts one, and no other byte does.
pub proof fn law_ascii_bytes_are_keys(b: u8)
    ensures
        key_of_byte(b) is Nothing <==> b >= 0x80,
{
}

/// Which bytes stand for which key: each of the keys with a name of its own
/// for one or two control bytes, and every other byte of ASCII for its
/// character.
pub proof fn law_bytes_of_keys(b: u8)
    ensures
        key_of_byte(b) == FirstByte::Key(Key::CtrlC) <==> b as char == '\u{3}',
        key_of_byte(b) == FirstByte::Key(Key::Enter) <==> b as char == '\r' || b as char == '\n',
        key_of_byte(b) == FirstByte::Key(Key::Backspace) <==> b as char == '\u{7f}' || b as char == '\u{8}',
        key_of_byte(b) == FirstByte::Key(Key::Tab) <==> b as char == '\t',
        key_of_byte(b) == FirstByte::Key(Key::Space) <==> b as char == ' ',
        key_of_byte(b) is Escape <==> b as char == '\u{1b}',
        33 <= b <= 126 ==> key_of_byte(b) == FirstByte::Key(Key::Char(b as char)),
        key_of_byte(b) matches FirstByte::Key(Key::Char(c)) ==> c as int == b,
        key_of_byte(b) matches FirstByte::Key(k) ==> !(k is Up || k is Down || k is Left || k is Right || k is Esc),
{
}

/// Behind an escape, a bracket and one of four letters make an arrow, and a
/// bracket with anything else makes nothing. Without a bracket, or with
/// nothing behind it, the escape is a key itself.
pub proof fn law_escapes_are_arrows(a: u8, b: u8)
    ensures
        ({
            let key = key_of_escape(Some((a, b)));
            &&& key == Some(Key::Up) <==> a as char == '[' && b as char == 'A'
            &&& key == Some(Key::Down) <==> a as char == '[' && b as char == 'B'
            &&& key == Some(Key::Right) <==> a as char == '[' && b as char == 'C'
            &&& key == Some(Key::Left) <==> a as char == '[' && b as char == 'D'
            &&& key == Some(Key::Esc) <==> a as char != '['
            &&& key is None <==> a as char == '[' && !('A' <= b as char <= 'D')
        }),
        key_of_escape(None) == Some(Key::Esc),
{
}

} // verus!
