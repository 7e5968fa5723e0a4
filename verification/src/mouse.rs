//! Encodes pointer events as the reports a mouse-aware program asked for: the classic one-byte
//! form, its UTF-8 extension, SGR, and SGR with pixels, under the five reporting modes.
use vstd::prelude::*;
use vstd::utf8::{encode_scalar, has_width_1_encoding, has_width_2_encoding, has_width_3_encoding, has_width_4_encoding, is_scalar};
use crate::bytes::decimal;
use crate::csi::ESC;

verus! {

/// The largest coordinate the single-byte classic encoding can carry (255 - 32).
pub const CLASSIC_MAX: u16 = 223;

/// Which mouse events a program asked to hear about.
#[derive(Debug, Clone, Copy, PartialEq, Eq, Structural)]
pub enum MouseMode {
    /// No reporting: a click is the user's own.
    Off,
    /// X10 (`CSI ? 9 h`): presses only, with no modifier bits.
    X10,
    /// Presses and releases (`CSI ? 1000 h`).
    PressRelease,
    /// Presses, releases, and moves while a button is held (`CSI ? 1002 h`).
    ButtonMotion,
    /// Presses, releases, and every move (`CSI ? 1003 h`).
    AnyMotion,
}

/// How a report is spelled.
#[derive(Debug, Clone, Copy, PartialEq, Eq, Structural)]
pub enum MouseEncoding {
    /// `ESC [ M` and one byte per field, each offset by 32.
    Default,
    /// The classic fields written as UTF-8 code points.
    Utf8,
    /// `ESC [ < b ; col ; row M` (press) or `m` (release).
    Sgr,
    /// SGR with pixel coordinates in place of cells.
    SgrPixels,
}

/// The modifier keys held during an event.
#[derive(Debug, Clone, Copy, PartialEq, Eq, Default)]
pub struct Modifiers {
    pub shift: bool,
    pub alt: bool,
    pub control: bool,
}

/// Which button an event is about; the wheel is a button that is pressed and never released.
#[derive(Debug, Clone, Copy, PartialEq, Eq)]
pub enum Button {
    Left,
    Middle,
    Right,
    WheelUp,
    WheelDown,
}

pub open spec fn button_code(button: Button) -> u8 {
    match button {
        Button::Left => 0,
        Button::Middle => 1,
        Button::Right => 2,
        Button::WheelUp => 64,
        Button::WheelDown => 65,
    }
}

impl Button {
    /// The button's number in a report's button field.
    pub fn code(self) -> (code: u8)
        ensures
            code == button_code(self),
    {
        match self {
            Button::Left => 0,
            Button::Middle => 1,
            Button::Right => 2,
            Button::WheelUp => 64,
            Button::WheelDown => 65,
        }
    }
}

/// What the pointer did; a move carries the button held, if any.
#[derive(Debug, Clone, Copy, PartialEq, Eq)]
pub enum MouseEvent {
    Press(Button),
    Release(Button),
    Motion(Option<Button>),
}

/// Where the pointer was: the zero-based cell, and the pixel from the top-left of the text area.
#[derive(Debug, Clone, Copy, PartialEq, Eq)]
pub struct Position {
    pub row: u16,
    pub col: u16,
    pub x: u16,
    pub y: u16,
}

/// Whether `mode` asks to hear about `event`: a press under any reporting mode, a release under
/// all but X10, a move only under the two motion modes — and under `ButtonMotion` only while a
/// button is held.
pub open spec fn wanted(mode: MouseMode, event: MouseEvent) -> bool {
    match event {
        MouseEvent::Press(_) => mode != MouseMode::Off,
        MouseEvent::Release(_) => mode != MouseMode::Off && mode != MouseMode::X10,
        MouseEvent::Motion(held) => match mode {
            MouseMode::ButtonMotion => held is Some,
            MouseMode::AnyMotion => true,
            _ => false,
        },
    }
}

pub open spec fn is_sgr(encoding: MouseEncoding) -> bool {
    encoding == MouseEncoding::Sgr || encoding == MouseEncoding::SgrPixels
}

/// The button field: the button for a press (and for a release in either SGR form), 3 for a
/// classic release, and 32 more for a move, with 3 for "no button"; then 4, 8 and 16 for shift,
/// alt and control under every mode but X10.
pub open spec fn button_field(mode: MouseMode, encoding: MouseEncoding, event: MouseEvent, modifiers: Modifiers) -> int {
    let base: int = match event {
        MouseEvent::Press(b) => button_code(b) as int,
        MouseEvent::Release(b) => if is_sgr(encoding) {
            button_code(b) as int
        } else {
            3
        },
        MouseEvent::Motion(held) => match held {
            Some(b) => button_code(b) + 32,
            None => 35,
        },
    };
    if mode == MouseMode::X10 {
        base
    } else {
        base + (if modifiers.shift {
            4int
        } else {
            0
        }) + (if modifiers.alt {
            8int
        } else {
            0
        }) + (if modifiers.control {
            16int
        } else {
            0
        })
    }
}

/// A coordinate shifted to the protocol's one-based counting, saturating.
pub open spec fn one_based(value: u16) -> int {
    if value == u16::MAX {
        u16::MAX as int
    } else {
        value + 1
    }
}

/// The classic one-byte form of a field: offset by 32, with the coordinate clamped at the ceiling.
pub open spec fn classic_byte(value: int) -> u8 {
    (32 + (if value < CLASSIC_MAX {
        value
    } else {
        CLASSIC_MAX as int
    })) as u8
}

/// An SGR report: `ESC [ < field ; a ; b` and `m` for a release, `M` otherwise.
pub open spec fn sgr_report(field: int, a: int, b: int, released: bool) -> Seq<u8> {
    seq![ESC, 0x5bu8, 0x3cu8] + decimal(field as nat) + seq![0x3bu8] + decimal(a as nat) + seq![0x3bu8]
        + decimal(b as nat) + seq![
        if released {
            0x6du8
        } else {
            0x4du8
        },
    ]
}

/// The report for one pointer event, or `None` when the program has not asked for it — or, in
/// the UTF-8 form, when a field plus 32 is no Unicode scalar and so cannot be written at all.
pub open spec fn mouse_report(
    mode: MouseMode,
    encoding: MouseEncoding,
    event: MouseEvent,
    at: Position,
    modifiers: Modifiers,
) -> Option<Seq<u8>> {
    if !wanted(mode, event) {
        None
    } else {
        let field = button_field(mode, encoding, event, modifiers);
        let released = event is Release;
        let column = one_based(at.col);
        let line = one_based(at.row);
        match encoding {
            MouseEncoding::SgrPixels => Some(sgr_report(field, one_based(at.x), one_based(at.y), released)),
            MouseEncoding::Sgr => Some(sgr_report(field, column, line, released)),
            MouseEncoding::Utf8 => {
                let values = seq![(field + 32) as u32, (column + 32) as u32, (line + 32) as u32];
                if is_scalar(values[0]) && is_scalar(values[1]) && is_scalar(values[2]) {
                    Some(
                        seq![ESC, 0x5bu8, 0x4du8] + encode_scalar(values[0]) + encode_scalar(values[1])
                            + encode_scalar(values[2]),
                    )
                } else {
                    None
                }
            },
            MouseEncoding::Default => Some(
                seq![ESC, 0x5bu8, 0x4du8, classic_byte(field), classic_byte(column), classic_byte(line)],
            ),
        }
    }
}

/// Whether `mode` asks to hear about `event` at all.
pub fn wants(mode: MouseMode, event: MouseEvent) -> (wanted_it: bool)
    ensures
        wanted_it == wanted(mode, event),
{
    match event {
        MouseEvent::Press(_) => mode != MouseMode::Off,
        MouseEvent::Release(_) => mode != MouseMode::Off && mode != MouseMode::X10,
        MouseEvent::Motion(held) => match mode {
            MouseMode::ButtonMotion => held.is_some(),
            MouseMode::AnyMotion => true,
            _ => false,
        },
    }
}

fn saturating_one_based(value: u16) -> (shifted: u16)
    ensures
        shifted == one_based(value),
{
    if value == u16::MAX {
        u16::MAX
    } else {
        value + 1
    }
}

/// Append the UTF-8 encoding of a Unicode scalar.
fn push_scalar(out: &mut Vec<u8>, scalar: u32)
    requires
        is_scalar(scalar),
    ensures
        final(out)@ == old(out)@ + encode_scalar(scalar),
{
    let ghost start = out@;
    if scalar <= 0x7f {
        out.push((scalar & 0x7f) as u8);
    } else if scalar <= 0x7ff {
        out.push(0xc0 | ((scalar >> 6) & 0x1f) as u8);
        out.push(0x80 | (scalar & 0x3f) as u8);
    } else if scalar <= 0xffff {
        out.push(0xe0 | ((scalar >> 12) & 0x0f) as u8);
        out.push(0x80 | ((scalar >> 6) & 0x3f) as u8);
        out.push(0x80 | (scalar & 0x3f) as u8);
    } else {
        out.push(0xf0 | ((scalar >> 18) & 0x7) as u8);
        out.push(0x80 | ((scalar >> 12) & 0x3f) as u8);
        out.push(0x80 | ((scalar >> 6) & 0x3f) as u8);
        out.push(0x80 | (scalar & 0x3f) as u8);
    }
    assert(out@ =~= start + encode_scalar(scalar));
}

fn scalar(value: u32) -> (is: bool)
    ensures
        is == is_scalar(value),
{
    value <= 0x10ffff && !(0xd800 <= value && value <= 0xdfff)
}

fn push_sgr(out: &mut Vec<u8>, field: u64, a: u64, b: u64, released: bool)
    ensures
        final(out)@ == old(out)@ + sgr_report(field as int, a as int, b as int, released),
{
    let ghost start = out@;
    out.push(ESC);
    out.push(0x5b);
    out.push(0x3c);
    crate::bytes::push_decimal(out, field);
    out.push(0x3b);
    crate::bytes::push_decimal(out, a);
    out.push(0x3b);
    crate::bytes::push_decimal(out, b);
    out.push(if released {
        0x6d
    } else {
        0x4d
    });
    assert(out@ =~= start + sgr_report(field as int, a as int, b as int, released));
}

fn classic(value: u16) -> (byte: u8)
    ensures
        byte == classic_byte(value as int),
{
    32 + (if value < CLASSIC_MAX {
        value
    } else {
        CLASSIC_MAX
    }) as u8
}

/// The report for one pointer event, or `None` when the program has not asked for that kind of
/// event (or for the mouse at all).
pub fn encode(
    mode: MouseMode,
    encoding: MouseEncoding,
    event: MouseEvent,
    at: Position,
    modifiers: Modifiers,
) -> (report: Option<Vec<u8>>)
    ensures
        match report {
            Some(r) => mouse_report(mode, encoding, event, at, modifiers) == Some(r@),
            None => mouse_report(mode, encoding, event, at, modifiers) is None,
        },
{
    if !wants(mode, event) {
        return None;
    }
    let released = match event {
        MouseEvent::Release(_) => true,
        _ => false,
    };
    let sgr = encoding == MouseEncoding::Sgr || encoding == MouseEncoding::SgrPixels;
    let mut field: u8 = match event {
        MouseEvent::Press(button) => button.code(),
        MouseEvent::Release(button) => if sgr {
            button.code()
        } else {
            3
        },
        MouseEvent::Motion(held) => match held {
            Some(button) => button.code() + 32,
            None => 35,
        },
    };
    if mode != MouseMode::X10 {
        if modifiers.shift {
            field = field + 4;
        }
        if modifiers.alt {
            field = field + 8;
        }
        if modifiers.control {
            field = field + 16;
        }
    }
    assert(field == button_field(mode, encoding, event, modifiers));
    let column = saturating_one_based(at.col);
    let line = saturating_one_based(at.row);
    let mut out: Vec<u8> = Vec::new();
    match encoding {
        MouseEncoding::SgrPixels => {
            push_sgr(&mut out, field as u64, saturating_one_based(at.x) as u64, saturating_one_based(at.y) as u64, released);
            assert(out@ =~= sgr_report(field as int, one_based(at.x), one_based(at.y), released));
        },
        MouseEncoding::Sgr => {
            push_sgr(&mut out, field as u64, column as u64, line as u64, released);
            assert(out@ =~= sgr_report(field as int, column as int, line as int, released));
        },
        MouseEncoding::Utf8 => {
            let first = field as u32 + 32;
            let second = column as u32 + 32;
            let third = line as u32 + 32;
            if !scalar(first) || !scalar(second) || !scalar(third) {
                return None;
            }
            out.push(ESC);
            out.push(0x5b);
            out.push(0x4d);
            push_scalar(&mut out, first);
            push_scalar(&mut out, second);
            push_scalar(&mut out, third);
            assert(out@ =~= seq![ESC, 0x5bu8, 0x4du8] + encode_scalar(first) + encode_scalar(second)
                + encode_scalar(third));
        },
        MouseEncoding::Default => {
            out.push(ESC);
            out.push(0x5b);
            out.push(0x4d);
            out.push(classic(field as u16));
            out.push(classic(column));
            out.push(classic(line));
            assert(out@ =~= seq![ESC, 0x5bu8, 0x4du8, classic_byte(field as int), classic_byte(column as int), classic_byte(line as int)]);
        },
    }
    Some(out)
}

/// Until a program asks for the mouse, nothing is reported; under X10 only a press is, and with no
/// modifier bits; a release in either SGR form names its button.
pub proof fn law_reporting_follows_the_mode(
    encoding: MouseEncoding,
    event: MouseEvent,
    at: Position,
    modifiers: Modifiers,
)
    ensures
        mouse_report(MouseMode::Off, encoding, event, at, modifiers) is None,
        !(event is Press) ==> mouse_report(MouseMode::X10, encoding, event, at, modifiers) is None,
        button_field(MouseMode::X10, encoding, event, modifiers) == button_field(
            MouseMode::X10,
            encoding,
            event,
            Modifiers { shift: false, alt: false, control: false },
        ),
        is_sgr(encoding) ==> (event matches MouseEvent::Release(b) ==> button_field(
            MouseMode::PressRelease,
            encoding,
            event,
            Modifiers { shift: false, alt: false, control: false },
        ) == button_code(b)),
{
}


/// A move with a button held is that button's press plus 32, and a move with none is the classic
/// release's 3 plus 32: so two drags with different buttons never read alike, since no two
/// buttons share a number — the three buttons are 0, 1 and 2, the wheel 64 and 65. Outside X10,
/// shift, alt and control add 4, 8 and 16, each on its own.
pub proof fn law_a_move_reports_the_button_held(
    mode: MouseMode,
    encoding: MouseEncoding,
    b: Button,
    other: Button,
    modifiers: Modifiers,
)
    ensures
        button_field(mode, encoding, MouseEvent::Motion(Some(b)), modifiers) == button_field(
            mode,
            encoding,
            MouseEvent::Press(b),
            modifiers,
        ) + 32,
        button_field(mode, encoding, MouseEvent::Motion(None), modifiers) == button_field(
            mode,
            MouseEncoding::Default,
            MouseEvent::Release(b),
            modifiers,
        ) + 32,
        b != other ==> button_field(mode, encoding, MouseEvent::Press(b), modifiers) != button_field(
            mode,
            encoding,
            MouseEvent::Press(other),
            modifiers,
        ),
        b != other ==> button_field(mode, encoding, MouseEvent::Motion(Some(b)), modifiers)
            != button_field(mode, encoding, MouseEvent::Motion(Some(other)), modifiers),
        button_field(
            MouseMode::PressRelease,
            encoding,
            MouseEvent::Press(b),
            Modifiers { shift: false, alt: false, control: false },
        ) == match b {
            Button::Left => 0int,
            Button::Middle => 1,
            Button::Right => 2,
            Button::WheelUp => 64,
            Button::WheelDown => 65,
        },
        mode != MouseMode::X10 ==> button_field(
            mode,
            encoding,
            MouseEvent::Motion(Some(b)),
            Modifiers { shift: true, ..modifiers },
        ) == button_field(
            mode,
            encoding,
            MouseEvent::Motion(Some(b)),
            Modifiers { shift: false, ..modifiers },
        ) + 4,
        mode != MouseMode::X10 ==> button_field(
            mode,
            encoding,
            MouseEvent::Motion(Some(b)),
            Modifiers { alt: true, ..modifiers },
        ) == button_field(
            mode,
            encoding,
            MouseEvent::Motion(Some(b)),
            Modifiers { alt: false, ..modifiers },
        ) + 8,
        mode != MouseMode::X10 ==> button_field(
            mode,
            encoding,
            MouseEvent::Motion(Some(b)),
            Modifiers { control: true, ..modifiers },
        ) == button_field(
            mode,
            encoding,
            MouseEvent::Motion(Some(b)),
            Modifiers { control: false, ..modifiers },
        ) + 16,
{
}

/// In the SGR form, a report the mode asks for carries the event's button field in decimal,
/// then the column and row counted from one (the zero-based cell plus one, saturating), and ends in `m` for a release and `M` otherwise.
pub proof fn law_sgr_report_carries_the_field(
    mode: MouseMode,
    event: MouseEvent,
    at: Position,
    modifiers: Modifiers,
)
    ensures
        wanted(mode, event) ==> mouse_report(mode, MouseEncoding::Sgr, event, at, modifiers) == Some(
            sgr_report(
                button_field(mode, MouseEncoding::Sgr, event, modifiers),
                one_based(at.col),
                one_based(at.row),
                event is Release,
            ),
        ),
        !wanted(mode, event) ==> mouse_report(mode, MouseEncoding::Sgr, event, at, modifiers) is None,
        at.col < u16::MAX ==> one_based(at.col) == at.col + 1,
        at.row < u16::MAX ==> one_based(at.row) == at.row + 1,
{
}

} // verus!
