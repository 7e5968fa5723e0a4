//! Names the OSC payloads that are refused outright, so each refusal is stated rather than left
//! to nobody happening to read the payload: the three spellings of a desktop notification, two
//! members of ConEmu's OSC 9 multiplex, the font operations, and the terminal resume protocol.
use vstd::prelude::*;
use crate::bytes::{after, bytes_equal, has_prefix, starts_with};

verus! {

/// What a refused payload turned out to be.
#[derive(Debug, Clone, Copy, PartialEq, Eq)]
pub enum Refused {
    /// `OSC 9 ; <text>` — ConEmu's notification, adopted by Windows Terminal.
    ConEmu,
    /// `OSC 777 ; notify ; <title> ; <body>` — urxvt's.
    Urxvt,
    /// `OSC 99 ; <metadata> ; <body>` — kitty's.
    Kitty,
    /// `OSC 9 ; 1 ; <ms>` — sleep the terminal.
    Sleep,
    /// `OSC 9 ; 2 ; "<txt>"` — raise a GUI message box.
    MessageBox,
    /// `OSC 50 ; <font>` (but not `CursorShape=`) and `OSC 60`: the font, which is the user's.
    Font,
    /// `OSC 88` — the terminal resume protocol, a remote choosing what the local machine runs.
    Resume,
}

pub open spec fn osc9() -> Seq<u8> {
    seq![0x39u8, 0x3b]
}

pub open spec fn urxvt_notify() -> Seq<u8> {
    seq![0x37u8, 0x37, 0x37, 0x3b, 0x6e, 0x6f, 0x74, 0x69, 0x66, 0x79]
}

pub open spec fn cursor_shape() -> Seq<u8> {
    seq![0x43u8, 0x75, 0x72, 0x73, 0x6f, 0x72, 0x53, 0x68, 0x61, 0x70, 0x65, 0x3d]
}

/// `code` followed by `;`, or `code` alone.
pub open spec fn names_code(p: Seq<u8>, code: Seq<u8>) -> bool {
    has_prefix(p, code.push(0x3b)) || p == code
}

/// The refusal a payload is, or `None` when it is not one.
///
/// `OSC 9` carries five features: `9;3;`, `9;4;` and `9;9;` are read elsewhere and are never
/// refused here; `9;1` is a sleep, `9;2` a message box, and anything else after `9;` a
/// notification. Every other code is matched on its whole number, never on a prefix of it.
pub open spec fn refusal(p: Seq<u8>) -> Option<Refused> {
    if has_prefix(p, osc9()) {
        let rest = after(p, 2);
        if has_prefix(rest, seq![0x34u8, 0x3b]) || has_prefix(rest, seq![0x39u8, 0x3b])
            || has_prefix(rest, seq![0x33u8, 0x3b]) {
            None
        } else if names_code(rest, seq![0x31u8]) {
            Some(Refused::Sleep)
        } else if names_code(rest, seq![0x32u8]) {
            Some(Refused::MessageBox)
        } else {
            Some(Refused::ConEmu)
        }
    } else if names_code(p, urxvt_notify()) {
        Some(Refused::Urxvt)
    } else if names_code(p, seq![0x39u8, 0x39]) {
        Some(Refused::Kitty)
    } else if has_prefix(p, seq![0x35u8, 0x30, 0x3b]) && !has_prefix(after(p, 3), cursor_shape()) {
        Some(Refused::Font)
    } else if names_code(p, seq![0x36u8, 0x30]) {
        Some(Refused::Font)
    } else if names_code(p, seq![0x38u8, 0x38]) {
        Some(Refused::Resume)
    } else {
        None
    }
}

/// Whether `p` is `code` followed by `;`, or exactly `code`.
fn is_code(p: &[u8], code: &[u8]) -> (found: bool)
    ensures
        found == names_code(p@, code@),
{
    let head = starts_with(p, code);
    let found = head && ((p.len() > code.len() && p[code.len()] == 0x3b) || p.len() == code.len());
    proof {
        let with_sep = code@.push(0x3b);
        if has_prefix(p@, with_sep) {
            assert(p@.subrange(0, code@.len() as int) =~= with_sep.subrange(0, code@.len() as int));
            assert(with_sep.subrange(0, code@.len() as int) =~= code@);
            assert(p@[code@.len() as int] == p@.subrange(0, with_sep.len() as int)[code@.len() as int]);
        }
        if head && p@.len() > code@.len() && p@[code@.len() as int] == 0x3b {
            assert(p@.subrange(0, with_sep.len() as int) =~= p@.subrange(0, code@.len() as int).push(0x3b));
        }
        if head && p@.len() == code@.len() {
            assert(p@.subrange(0, code@.len() as int) =~= p@);
        }
        if p@ == code@ {
            assert(p@.subrange(0, code@.len() as int) =~= p@);
        }
    }
    found
}

/// Read one OSC payload as something refused outright, or `None` when it is not one.
pub fn refused(payload: &[u8]) -> (refusal_found: Option<Refused>)
    ensures
        refusal_found == refusal(payload@),
{
    if starts_with(payload, &[0x39, 0x3b]) {
        let rest = &payload[2..payload.len()];
        if starts_with(rest, &[0x34, 0x3b]) || starts_with(rest, &[0x39, 0x3b]) || starts_with(
            rest,
            &[0x33, 0x3b],
        ) {
            return None;
        }
        let one: [u8; 1] = [0x31];
        let two: [u8; 1] = [0x32];
        assert(one@ =~= seq![0x31u8]);
        assert(two@ =~= seq![0x32u8]);
        if is_code(rest, &one) {
            return Some(Refused::Sleep);
        }
        if is_code(rest, &two) {
            return Some(Refused::MessageBox);
        }
        return Some(Refused::ConEmu);
    }
    if is_code(payload, &[0x37, 0x37, 0x37, 0x3b, 0x6e, 0x6f, 0x74, 0x69, 0x66, 0x79]) {
        return Some(Refused::Urxvt);
    }
    if is_code(payload, &[0x39, 0x39]) {
        return Some(Refused::Kitty);
    }
    if starts_with(payload, &[0x35, 0x30, 0x3b]) {
        let rest = &payload[3..payload.len()];
        if !starts_with(rest, &[0x43, 0x75, 0x72, 0x73, 0x6f, 0x72, 0x53, 0x68, 0x61, 0x70, 0x65, 0x3d]) {
            return Some(Refused::Font);
        }
    }
    if is_code(payload, &[0x36, 0x30]) {
        return Some(Refused::Font);
    }
    if is_code(payload, &[0x38, 0x38]) {
        return Some(Refused::Resume);
    }
    None
}

} // verus!
