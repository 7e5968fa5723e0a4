use cmote::mouse::{encode, Button, Modifiers, MouseEncoding, MouseEvent, MouseMode, Position};
use cmote::csi::ESC;

fn none() -> Modifiers {
    Modifiers {
        shift: false,
        alt: false,
        control: false,
    }
}

const CELL: (u16, u16) = (8, 17);

fn at(row: u16, col: u16) -> Position {
    Position {
        row,
        col,
        x: col * CELL.0,
        y: row * CELL.1,
    }
}

#[test]
fn no_mouse_mode_reports_nothing() {
    assert_eq!(
        encode(
            MouseMode::Off,
            MouseEncoding::Sgr,
            MouseEvent::Press(Button::Left),
            at(0, 0),
            none()
        ),
        None
    );
}

#[test]
fn sgr_press_and_release_differ_only_in_the_final_byte() {
    let press = encode(
        MouseMode::PressRelease,
        MouseEncoding::Sgr,
        MouseEvent::Press(Button::Left),
        at(4, 9),
        none(),
    );
    let release = encode(
        MouseMode::PressRelease,
        MouseEncoding::Sgr,
        MouseEvent::Release(Button::Left),
        at(4, 9),
        none(),
    );
    assert_eq!(press.as_deref(), Some(&b"\x1b[<0;10;5M"[..]));
    assert_eq!(release.as_deref(), Some(&b"\x1b[<0;10;5m"[..]));
}

#[test]
fn the_classic_encoding_offsets_every_field_by_32() {
    let report = encode(
        MouseMode::PressRelease,
        MouseEncoding::Default,
        MouseEvent::Press(Button::Right),
        at(0, 0),
        none(),
    );
    assert_eq!(report.as_deref(), Some(&[ESC, b'[', b'M', 34, 33, 33][..]));
}

#[test]
fn the_classic_release_loses_the_button_but_sgr_keeps_it() {
    let classic = encode(
        MouseMode::PressRelease,
        MouseEncoding::Default,
        MouseEvent::Release(Button::Right),
        at(0, 0),
        none(),
    )
    .unwrap();
    assert_eq!(classic[3], 32 + 3);
    let sgr = encode(
        MouseMode::PressRelease,
        MouseEncoding::Sgr,
        MouseEvent::Release(Button::Right),
        at(0, 0),
        none(),
    )
    .unwrap();
    assert_eq!(sgr, b"\x1b[<2;1;1m".to_vec());
}

#[test]
fn a_coordinate_past_the_classic_ceiling_is_clamped() {
    let report = encode(
        MouseMode::PressRelease,
        MouseEncoding::Default,
        MouseEvent::Press(Button::Left),
        at(0, 400),
        none(),
    )
    .unwrap();
    assert_eq!(report[4], 255);
    let sgr = encode(
        MouseMode::PressRelease,
        MouseEncoding::Sgr,
        MouseEvent::Press(Button::Left),
        at(0, 400),
        none(),
    )
    .unwrap();
    assert_eq!(sgr, b"\x1b[<0;401;1M".to_vec());
}

#[test]
fn motion_is_reported_only_by_the_modes_that_asked_for_it() {
    let drag = MouseEvent::Motion(Some(Button::Left));
    assert!(
        encode(
            MouseMode::PressRelease,
            MouseEncoding::Sgr,
            drag,
            at(0, 0),
            none()
        )
        .is_none()
    );
    assert_eq!(
        encode(
            MouseMode::ButtonMotion,
            MouseEncoding::Sgr,
            drag,
            at(0, 0),
            none()
        )
        .as_deref(),
        Some(&b"\x1b[<32;1;1M"[..])
    );

    let hover = MouseEvent::Motion(None);
    assert!(
        encode(
            MouseMode::ButtonMotion,
            MouseEncoding::Sgr,
            hover,
            at(0, 0),
            none()
        )
        .is_none()
    );
    assert_eq!(
        encode(
            MouseMode::AnyMotion,
            MouseEncoding::Sgr,
            hover,
            at(0, 0),
            none()
        )
        .as_deref(),
        Some(&b"\x1b[<35;1;1M"[..])
    );
}

#[test]
fn the_wheel_is_a_press_of_its_own_button() {
    assert_eq!(
        encode(
            MouseMode::PressRelease,
            MouseEncoding::Sgr,
            MouseEvent::Press(Button::WheelUp),
            at(0, 0),
            none()
        )
        .as_deref(),
        Some(&b"\x1b[<64;1;1M"[..])
    );
    assert_eq!(
        encode(
            MouseMode::PressRelease,
            MouseEncoding::Sgr,
            MouseEvent::Press(Button::WheelDown),
            at(0, 0),
            none()
        )
        .as_deref(),
        Some(&b"\x1b[<65;1;1M"[..])
    );
}

#[test]
fn x10_reports_a_press_and_nothing_else() {
    let report = |event| {
        encode(
            MouseMode::X10,
            MouseEncoding::Default,
            event,
            at(4, 9),
            none(),
        )
    };
    assert_eq!(
        report(MouseEvent::Press(Button::Left)).as_deref(),
        Some(&[ESC, b'[', b'M', 32, 32 + 10, 32 + 5][..]),
        "CSI M Cb Cx Cy, each biased by 32"
    );
    assert!(report(MouseEvent::Release(Button::Left)).is_none());
    assert!(report(MouseEvent::Motion(Some(Button::Left))).is_none());
    assert!(report(MouseEvent::Motion(None)).is_none());
}

#[test]
fn x10_carries_no_modifier_bits() {
    let held = Modifiers {
        shift: true,
        alt: true,
        control: true,
    };
    let x10 = encode(
        MouseMode::X10,
        MouseEncoding::Default,
        MouseEvent::Press(Button::Left),
        at(0, 0),
        held,
    )
    .unwrap();
    assert_eq!(x10[3], 32, "button 0, and nothing added to it");
    let x11 = encode(
        MouseMode::PressRelease,
        MouseEncoding::Default,
        MouseEvent::Press(Button::Left),
        at(0, 0),
        held,
    )
    .unwrap();
    assert_eq!(x11[3], 32 + 4 + 8 + 16, "shift, meta and control");
}

#[test]
fn the_pixel_encoding_is_sgr_with_pixels_in_place_of_cells() {
    let position = Position {
        row: 4,
        col: 9,
        x: 73,
        y: 68,
    };
    let press = encode(
        MouseMode::PressRelease,
        MouseEncoding::SgrPixels,
        MouseEvent::Press(Button::Left),
        position,
        none(),
    );
    assert_eq!(press.as_deref(), Some(&b"\x1b[<0;74;69M"[..]), "one-based");
    let release = encode(
        MouseMode::PressRelease,
        MouseEncoding::SgrPixels,
        MouseEvent::Release(Button::Left),
        position,
        none(),
    );
    assert_eq!(
        release.as_deref(),
        Some(&b"\x1b[<0;74;69m"[..]),
        "the release keeps its button, as SGR's does"
    );
    let cells = encode(
        MouseMode::PressRelease,
        MouseEncoding::Sgr,
        MouseEvent::Press(Button::Left),
        position,
        none(),
    );
    assert_eq!(cells.as_deref(), Some(&b"\x1b[<0;10;5M"[..]));
}

#[test]
fn a_pixel_coordinate_far_past_the_classic_ceiling_is_reported_whole() {
    let report = encode(
        MouseMode::AnyMotion,
        MouseEncoding::SgrPixels,
        MouseEvent::Motion(None),
        Position {
            row: 40,
            col: 200,
            x: 1600,
            y: 680,
        },
        none(),
    );
    assert_eq!(report.as_deref(), Some(&b"\x1b[<35;1601;681M"[..]));
}

#[test]
fn modifiers_add_their_bits() {
    let report = encode(
        MouseMode::PressRelease,
        MouseEncoding::Sgr,
        MouseEvent::Press(Button::Left),
        at(0, 0),
        Modifiers {
            shift: false,
            alt: true,
            control: true,
        },
    );
    assert_eq!(report.as_deref(), Some(&b"\x1b[<24;1;1M"[..]));
}

#[test]
fn the_utf8_encoding_writes_each_field_as_a_code_point() {
    let report = encode(
        MouseMode::PressRelease,
        MouseEncoding::Utf8,
        MouseEvent::Press(Button::Left),
        at(0, 300),
        none(),
    )
    .unwrap();
    let mut expected = vec![ESC, b'[', b'M', 32];
    expected.extend_from_slice('\u{14d}'.to_string().as_bytes());
    expected.push(33);
    assert_eq!(report, expected);
}

