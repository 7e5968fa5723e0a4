use cmote::presentation::{
    cursor_report, tab_stop_report, CharsetState, CursorState, Modes, Presentation,
    PresentationRequest, Rendition,
};

fn fresh_charsets() -> CharsetState {
    CharsetState {
        single_shift: None,
        gl: 0,
        gr: 1,
        designations: b"BBBB".to_vec(),
    }
}

fn scan(bytes: &[u8]) -> Vec<(usize, PresentationRequest)> {
    Presentation::default().feed(bytes)
}

fn plain() -> CursorState {
    CursorState {
        row: 0,
        column: 0,
        rendition: Rendition {
            bold: false,
            underline: false,
            reverse: false,
        },
        protected: false,
        modes: Modes {
            origin: false,
            pending_wrap: false,
        },
    }
}

fn with_rendition(bold: bool, underline: bool, reverse: bool) -> CursorState {
    CursorState {
        rendition: Rendition {
            bold,
            underline,
            reverse,
        },
        ..plain()
    }
}

fn report(state: CursorState, charsets: &CharsetState) -> String {
    String::from_utf8(cursor_report(state, charsets)).expect("the report is ASCII")
}

fn field(report: &str, index: usize) -> String {
    report
        .trim_start_matches("\x1bP1$u")
        .trim_end_matches("\x1b\\")
        .split(';')
        .nth(index)
        .expect("the report has ten fields")
        .to_owned()
}

#[test]
fn a_request_is_found_just_past_its_final_byte() {
    assert_eq!(scan(b"\x1b[1$w"), vec![(5, PresentationRequest::Cursor)]);
    assert_eq!(
        scan(b"ab\x1b[2$w"),
        vec![(7, PresentationRequest::TabStops)]
    );
}

#[test]
fn only_the_two_reports_dec_defines_are_answered() {
    assert!(scan(b"\x1b[0$w").is_empty(), "DEC's own error value");
    assert!(scan(b"\x1b[$w").is_empty(), "omitted is 0");
    assert!(scan(b"\x1b[3$w").is_empty());
    assert!(scan(b"\x1b[12$w").is_empty(), "not a prefix match");
}

#[test]
fn the_displayed_extent_report_is_not_a_request() {
    assert!(scan(b"\x1b[1\"w").is_empty(), "DECRPDE's intermediate");
    assert!(scan(b"\x1b[1w").is_empty(), "no intermediate at all");
    assert!(scan(b"\x1b[1$ w").is_empty(), "a second intermediate");
}

#[test]
fn a_second_parameter_rules_it_out() {
    assert!(scan(b"\x1b[1;2$w").is_empty());
    assert!(scan(b"\x1b[1;$w").is_empty());
    assert!(
        scan(b"\x1b[1:2$w").is_empty(),
        "and a sub-parameter with it"
    );
}

#[test]
fn a_private_marker_rules_it_out() {
    for marker in *b"?<=>" {
        let request = [b"\x1b[".as_slice(), &[marker], b"1$w"].concat();
        assert!(scan(&request).is_empty());
    }
}

#[test]
fn a_sequence_split_across_chunks_is_still_found() {
    let mut scanner = Presentation::default();
    assert!(scanner.feed(b"\x1b[1").is_empty());
    assert!(scanner.feed(b"$").is_empty());
    assert_eq!(scanner.feed(b"w"), vec![(1, PresentationRequest::Cursor)]);
}

#[test]
fn a_fresh_terminal_reports_its_defaults() {
    let charsets = fresh_charsets();
    assert_eq!(
        report(plain(), &charsets),
        "\x1bP1$u1;1;1;@;@;@;0;1;@;BBBB\x1b\\"
    );
}

#[test]
fn the_cursor_is_reported_one_based() {
    let charsets = fresh_charsets();
    let state = CursorState {
        row: 4,
        column: 9,
        ..plain()
    };
    let report = report(state, &charsets);
    assert_eq!(field(&report, 0), "5");
    assert_eq!(field(&report, 1), "10");
    assert_eq!(field(&report, 2), "1", "cmote is a one-page terminal");
}

#[test]
fn each_rendition_flag_lands_on_its_own_bit() {
    let charsets = fresh_charsets();
    let bold = with_rendition(true, false, false);
    let underline = with_rendition(false, true, false);
    let reverse = with_rendition(false, false, true);
    assert_eq!(field(&report(bold, &charsets), 3), "A", "0x40 | 1");
    assert_eq!(field(&report(underline, &charsets), 3), "B", "0x40 | 2");
    assert_eq!(field(&report(reverse, &charsets), 3), "H", "0x40 | 8");
    let all = with_rendition(true, true, true);
    assert_eq!(field(&report(all, &charsets), 3), "K", "0x40 | 1 | 2 | 8");
}

#[test]
fn the_blink_bit_is_never_set() {
    let charsets = fresh_charsets();
    for state in [plain(), with_rendition(true, true, true)] {
        let rendition = field(&report(state, &charsets), 3).as_bytes()[0];
        assert_eq!(rendition & 0b100, 0, "bit 3 is blink");
    }
}

#[test]
fn selective_erase_is_the_only_attribute_bit() {
    let charsets = fresh_charsets();
    let protected = CursorState {
        protected: true,
        ..plain()
    };
    assert_eq!(field(&report(protected, &charsets), 4), "A");
    assert_eq!(field(&report(plain(), &charsets), 4), "@");
}

#[test]
fn each_flag_bit_lands_where_dec_puts_it() {
    let charsets = fresh_charsets();
    let origin = CursorState {
        modes: Modes {
            origin: true,
            pending_wrap: false,
        },
        ..plain()
    };
    let wrapping = CursorState {
        modes: Modes {
            origin: false,
            pending_wrap: true,
        },
        ..plain()
    };
    assert_eq!(field(&report(origin, &charsets), 5), "A", "0x40 | 1");
    assert_eq!(field(&report(wrapping, &charsets), 5), "H", "0x40 | 8");
    let shifted = CharsetState {
        single_shift: Some(2),
        ..fresh_charsets()
    };
    assert_eq!(field(&report(plain(), &shifted), 5), "B", "SS2 is bit 2");
    let shifted = CharsetState {
        single_shift: Some(3),
        ..fresh_charsets()
    };
    assert_eq!(field(&report(plain(), &shifted), 5), "D", "SS3 is bit 3");
}

#[test]
fn the_charset_fields_report_what_is_designated_and_invoked() {
    let charsets = CharsetState {
        single_shift: None,
        gl: 1,
        gr: 2,
        designations: b"B0BB".to_vec(),
    };
    let report = report(plain(), &charsets);
    assert_eq!(field(&report, 6), "1", "Pgl — G1 is in GL");
    assert_eq!(field(&report, 7), "2", "Pgr — G2 is in GR");
    assert_eq!(field(&report, 9), "B0BB", "Sdesig, G0 through G3");
}

#[test]
fn a_multi_byte_designation_survives_into_the_report() {
    let charsets = CharsetState {
        designations: b"%6BBB".to_vec(),
        ..fresh_charsets()
    };
    assert_eq!(field(&report(plain(), &charsets), 9), "%6BBB");
}

#[test]
fn every_designated_set_is_ninety_four_columns_wide() {
    let charsets = fresh_charsets();
    assert_eq!(field(&report(plain(), &charsets), 8), "@");
}

#[test]
fn the_tab_report_matches_the_manuals_example() {
    let stops: Vec<usize> = (0..80).step_by(8).collect();
    assert_eq!(
        tab_stop_report(&stops),
        b"\x1bP2$u1/9/17/25/33/41/49/57/65/73\x1b\\".to_vec()
    );
}

#[test]
fn a_page_with_no_stops_still_answers() {
    assert_eq!(
        tab_stop_report(&[]),
        b"\x1bP2$u\x1b\\".to_vec()
    );
}
