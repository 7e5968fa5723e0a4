use cmote::protect::{is_protected, mark, spans, unmark, Erase, Extent, Protect, Request, PROTECTED_BIT};

fn scan(bytes: &[u8]) -> Vec<(usize, Request)> {
    let mut protect = Protect::default();
    protect.feed(bytes)
}

fn scan_armed(bytes: &[u8]) -> Vec<(usize, Request)> {
    let mut protect = Protect::default();
    protect.feed(b"\x1b[1\"q");
    protect.feed(bytes)
}

#[test]
fn a_long_sgr_still_reasserts_because_the_engine_still_applies_it() {
    let long = b"\x1b[0;1;2;3;4;5;7;9;21;30;31;38;5;196m";
    assert_eq!(
        scan_armed(long),
        vec![(long.len(), Request::Reassert)],
        "the reassert is reported one past the SGR's final byte"
    );
}

#[test]
fn the_pen_starts_unprotected() {
    assert!(!Protect::default().armed());
}

#[test]
fn decsca_one_arms_the_pen() {
    assert_eq!(scan(b"\x1b[1\"q"), vec![(5, Request::Protect(true))]);
}

#[test]
fn decsca_zero_and_two_both_stop_protecting() {
    assert_eq!(scan(b"\x1b[0\"q"), vec![(5, Request::Protect(false))]);
    assert_eq!(scan(b"\x1b[2\"q"), vec![(5, Request::Protect(false))]);
}

#[test]
fn decsca_with_no_parameter_stops_protecting() {
    assert_eq!(scan(b"\x1b[\"q"), vec![(4, Request::Protect(false))]);
}

#[test]
fn a_full_reset_stops_protecting() {
    assert_eq!(scan(b"\x1bc"), vec![(2, Request::Protect(false))]);
}

#[test]
fn a_soft_reset_is_reported_whole_rather_than_as_a_pen_change() {
    assert_eq!(scan(b"\x1b[!p"), vec![(4, Request::SoftReset)]);
}

#[test]
fn a_soft_reset_is_not_confused_with_the_mode_requests_that_share_its_final_byte() {
    assert!(scan(b"\x1b[4$p\x1b[?7$p").is_empty());
}

#[test]
fn a_reset_disarms_the_scanner_as_well_as_reporting_it() {
    let mut protect = Protect::default();
    protect.feed(b"\x1b[1\"q");
    protect.feed(b"\x1bc");
    assert!(protect.feed(b"\x1b[31m").is_empty());
    protect.feed(b"\x1b[1\"q");
    protect.feed(b"\x1b[!p");
    assert!(protect.feed(b"\x1b[31m").is_empty());
}

#[test]
fn an_sgr_while_armed_asks_for_a_reassert() {
    assert_eq!(scan_armed(b"\x1b[0m"), vec![(4, Request::Reassert)]);
}

#[test]
fn every_sgr_while_armed_is_reported_not_just_the_resetting_ones() {
    assert_eq!(scan_armed(b"\x1b[38;5;0m"), vec![(9, Request::Reassert)]);
}

#[test]
fn an_sgr_while_unarmed_is_not_reported() {
    assert!(scan(b"\x1b[31mred\x1b[0m").is_empty());
}

#[test]
fn xtmodkeys_is_not_mistaken_for_an_sgr() {
    assert!(scan_armed(b"\x1b[>4;2m").is_empty());
}

#[test]
fn the_cursor_style_request_is_not_mistaken_for_a_decsca() {
    assert!(scan(b"\x1b[1 q").is_empty());
}

#[test]
fn selective_erase_in_the_display_reads_all_three_extents() {
    assert_eq!(
        scan(b"\x1b[?J"),
        vec![(4, Request::Erase(Erase::Display(Extent::ToEnd)))]
    );
    assert_eq!(
        scan(b"\x1b[?0J"),
        vec![(5, Request::Erase(Erase::Display(Extent::ToEnd)))]
    );
    assert_eq!(
        scan(b"\x1b[?1J"),
        vec![(5, Request::Erase(Erase::Display(Extent::ToStart)))]
    );
    assert_eq!(
        scan(b"\x1b[?2J"),
        vec![(5, Request::Erase(Erase::Display(Extent::All)))]
    );
}

#[test]
fn selective_erase_in_the_line_reads_all_three_extents() {
    assert_eq!(
        scan(b"\x1b[?K"),
        vec![(4, Request::Erase(Erase::Line(Extent::ToEnd)))]
    );
    assert_eq!(
        scan(b"\x1b[?1K"),
        vec![(5, Request::Erase(Erase::Line(Extent::ToStart)))]
    );
    assert_eq!(
        scan(b"\x1b[?2K"),
        vec![(5, Request::Erase(Erase::Line(Extent::All)))]
    );
}

#[test]
fn a_plain_erase_is_left_to_the_engine() {
    assert!(scan(b"\x1b[2J\x1b[0J\x1b[2K\x1b[1K").is_empty());
}

#[test]
fn there_is_no_selective_erase_of_the_scrollback() {
    assert!(scan(b"\x1b[?3J").is_empty());
}

#[test]
fn another_private_mode_sequence_is_ignored() {
    assert!(scan(b"\x1b[?25l\x1b[?2004h\x1b[?25h").is_empty());
}

#[test]
fn protect_a_sequence_split_across_chunks_is_still_read() {
    let mut protect = Protect::default();
    assert!(protect.feed(b"label\x1b").is_empty());
    assert!(protect.feed(b"[1").is_empty());
    assert_eq!(protect.feed(b"\"qmore"), vec![(2, Request::Protect(true))]);
}

#[test]
fn protect_several_requests_in_one_chunk_come_out_in_order() {
    assert_eq!(
        scan(b"\x1b[1\"qName:\x1b[0\"q\x1b[?2J"),
        vec![
            (5, Request::Protect(true)),
            (15, Request::Protect(false)),
            (20, Request::Erase(Erase::Display(Extent::All))),
        ]
    );
}

#[test]
fn a_runaway_digit_run_is_clamped_rather_than_abandoned() {
    let mut params = vec![b'\x1b', b'['];
    params.extend(std::iter::repeat_n(b'1', 500));
    params.extend_from_slice(b"\"q");
    let mut protect = Protect::default();
    assert_eq!(
        protect.feed(&params),
        vec![(params.len(), Request::Protect(false))]
    );
    assert!(!protect.armed());
    assert!(
        protect.held_digits() <= cmote::csi::MAX_PARAMS * cmote::csi::MAX_DIGITS,
        "five hundred digits cost us five"
    );
}

#[test]
fn a_runaway_separator_run_is_abandoned() {
    let mut params = vec![b'\x1b', b'['];
    params.extend(std::iter::repeat_n(
        b';',
        cmote::csi::MAX_PARAMS + 10,
    ));
    params.extend_from_slice(b"\"q");
    let mut protect = Protect::default();
    assert!(protect.feed(&params).is_empty());
    assert!(!protect.armed());
}

#[test]
fn a_control_byte_inside_a_csi_abandons_the_sequence() {
    assert!(scan(b"\x1b[1\n\"q").is_empty());
}

#[test]
fn marking_and_unmarking_leave_the_engine_bits_alone() {
    let engine = 0b0000_0000_0000_1110;
    assert!(!is_protected(engine));
    assert!(is_protected(mark(engine)));
    assert_eq!(unmark(mark(engine)), engine);
    assert_eq!(mark(engine) & !PROTECTED_BIT, engine);
}

#[test]
fn unmarking_an_unprotected_word_changes_nothing() {
    assert_eq!(unmark(0b0000_0000_0000_0011), 0b0000_0000_0000_0011);
}

#[test]
fn erase_in_line_to_end_starts_at_the_cursor() {
    assert_eq!(
        spans(Erase::Line(Extent::ToEnd), 2, 4, 5, 10),
        vec![(2, 4..10)]
    );
}

#[test]
fn erase_in_line_to_start_includes_the_cursor_cell() {
    assert_eq!(
        spans(Erase::Line(Extent::ToStart), 2, 4, 5, 10),
        vec![(2, 0..5)]
    );
}

#[test]
fn erase_in_line_all_covers_the_whole_row_and_only_that_row() {
    assert_eq!(
        spans(Erase::Line(Extent::All), 2, 4, 5, 10),
        vec![(2, 0..10)]
    );
}

#[test]
fn erase_in_display_to_end_runs_from_the_cursor_to_the_last_row() {
    assert_eq!(
        spans(Erase::Display(Extent::ToEnd), 2, 4, 5, 10),
        vec![(2, 4..10), (3, 0..10), (4, 0..10)]
    );
}

#[test]
fn erase_in_display_to_start_runs_from_the_first_row_to_the_cursor() {
    assert_eq!(
        spans(Erase::Display(Extent::ToStart), 2, 4, 5, 10),
        vec![(0, 0..10), (1, 0..10), (2, 0..5)]
    );
}

#[test]
fn erase_in_display_all_covers_every_row() {
    assert_eq!(
        spans(Erase::Display(Extent::All), 2, 4, 3, 4),
        vec![(0, 0..4), (1, 0..4), (2, 0..4)]
    );
}

#[test]
fn a_cursor_waiting_to_wrap_erases_from_the_last_real_column() {
    assert_eq!(
        spans(Erase::Line(Extent::ToEnd), 0, 10, 5, 10),
        vec![(0, 9..10)]
    );
    assert_eq!(
        spans(Erase::Line(Extent::ToStart), 0, 10, 5, 10),
        vec![(0, 0..10)]
    );
}

#[test]
fn a_cursor_below_the_last_row_clamps_onto_the_grid() {
    assert_eq!(
        spans(Erase::Line(Extent::All), 99, 0, 5, 10),
        vec![(4, 0..10)]
    );
}

#[test]
fn a_grid_with_no_cells_yields_no_spans() {
    assert!(spans(Erase::Display(Extent::All), 0, 0, 0, 0).is_empty());
    assert!(spans(Erase::Line(Extent::ToStart), 0, 0, 5, 0).is_empty());
}
