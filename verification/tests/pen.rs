use cmote::pen::{
    merged_pen, pen_restore, pen_sgr, sgr_color, sgr_underline_color, Pen, PenColor, PenFlags,
    SaveMask, NAMED_BACKGROUND, NAMED_FOREGROUND,
};

fn fresh() -> Pen {
    Pen {
        flags: PenFlags::default(),
        fg: PenColor::Named(NAMED_FOREGROUND),
        bg: PenColor::Named(NAMED_BACKGROUND),
        underline_color: None,
    }
}

fn everything() -> SaveMask {
    SaveMask {
        bold: true,
        faint: true,
        italic: true,
        underline: true,
        doubly_underlined: true,
        inverse: true,
        invisible: true,
        crossed_out: true,
        foreground: true,
        background: true,
    }
}

#[test]
fn the_restore_string_keeps_the_underline_substyle_and_its_colour() {
    let saved = Pen {
        flags: PenFlags {
            undercurl: true,
            ..PenFlags::default()
        },
        underline_color: Some(PenColor::Indexed(196)),
        ..fresh()
    };
    assert_eq!(
        merged_pen(&fresh(), &saved, everything()),
        b"\x1b[0;4:3;58;5;196m".to_vec()
    );
}

#[test]
fn a_fresh_pen_reports_a_bare_reset() {
    assert_eq!(pen_sgr(&fresh()), b"0".to_vec());
    assert_eq!(pen_restore(&fresh()), b"\x1b[0m".to_vec());
}

#[test]
fn bold_red_reports_its_two_codes_after_the_reset() {
    let pen = Pen {
        flags: PenFlags {
            bold: true,
            ..PenFlags::default()
        },
        fg: PenColor::Named(1),
        ..fresh()
    };
    assert_eq!(pen_sgr(&pen), b"0;1;31".to_vec());
}

#[test]
fn a_report_says_underlined_and_a_restore_says_which_underline() {
    let pen = Pen {
        flags: PenFlags {
            dotted_underline: true,
            italic: true,
            strikeout: true,
            ..PenFlags::default()
        },
        ..fresh()
    };
    assert_eq!(pen_sgr(&pen), b"0;3;4;9".to_vec());
    assert_eq!(pen_restore(&pen), b"\x1b[0;3;4:4;9m".to_vec());
    let double = Pen {
        flags: PenFlags {
            double_underline: true,
            underline: true,
            ..PenFlags::default()
        },
        ..fresh()
    };
    assert_eq!(pen_sgr(&double), b"0;21".to_vec());
    assert_eq!(pen_restore(&double), b"\x1b[0;21m".to_vec());
}

#[test]
fn each_kind_of_colour_has_its_own_spelling() {
    assert_eq!(sgr_color(PenColor::Named(3), false), Some(b"33".to_vec()));
    assert_eq!(sgr_color(PenColor::Named(3), true), Some(b"43".to_vec()));
    assert_eq!(sgr_color(PenColor::Named(12), false), Some(b"94".to_vec()));
    assert_eq!(sgr_color(PenColor::Named(12), true), Some(b"104".to_vec()));
    assert_eq!(sgr_color(PenColor::Indexed(200), true), Some(b"48;5;200".to_vec()));
    assert_eq!(
        sgr_color(PenColor::Spec(1, 20, 255), false),
        Some(b"38;2;1;20;255".to_vec())
    );
    assert_eq!(sgr_color(PenColor::Named(NAMED_FOREGROUND), false), None);
    assert_eq!(sgr_color(PenColor::Named(NAMED_BACKGROUND), true), None);
    assert_eq!(sgr_color(PenColor::Named(258), false), None, "the cursor role");
}

#[test]
fn an_underline_colour_goes_out_as_sgr_58() {
    assert_eq!(sgr_underline_color(PenColor::Named(9)), Some(b"58;5;9".to_vec()));
    assert_eq!(sgr_underline_color(PenColor::Indexed(17)), Some(b"58;5;17".to_vec()));
    assert_eq!(
        sgr_underline_color(PenColor::Spec(0, 0, 7)),
        Some(b"58;2;0;0;7".to_vec())
    );
    assert_eq!(sgr_underline_color(PenColor::Named(NAMED_FOREGROUND)), None);
}

#[test]
fn a_selective_pop_puts_back_only_what_it_names() {
    let current = Pen {
        flags: PenFlags {
            bold: true,
            ..PenFlags::default()
        },
        fg: PenColor::Named(2),
        ..fresh()
    };
    let saved = Pen {
        flags: PenFlags {
            underline: true,
            inverse: true,
            ..PenFlags::default()
        },
        fg: PenColor::Indexed(99),
        ..fresh()
    };
    let underline_only = SaveMask {
        underline: true,
        ..SaveMask::default()
    };
    assert_eq!(
        merged_pen(&current, &saved, underline_only),
        b"\x1b[0;1;4;32m".to_vec(),
        "the colours and the bold stay as the program left them"
    );
    assert_eq!(
        merged_pen(&current, &saved, SaveMask::default()),
        pen_restore(&current)
    );
    assert_eq!(merged_pen(&current, &saved, everything()), pen_restore(&saved));
}
