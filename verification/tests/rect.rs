use cmote::rect::{
    changes, checksum_reply, copy_extent, from_corners, reversals, AttributeChange, Checksum,
    Corners, Rect, RectDirection, RectExtent, RectRequest, Rectangles, Unscrolled, ALL_ATTRIBUTES,
    BLINK, BOLD, REVERSE, UNDERLINE,
};

fn scan(bytes: &[u8]) -> Vec<(usize, RectRequest)> {
    let mut rectangles = Rectangles::default();
    rectangles.feed(bytes)
}

fn box_of(top: u16, left: u16, bottom: u16, right: u16) -> Corners {
    Corners {
        top,
        left,
        bottom,
        right,
    }
}

fn boxed(corners: Corners, rows: usize, cols: usize) -> Option<Rect> {
    from_corners(corners, RectExtent::Rectangle, rows, cols)
}

fn streamed(corners: Corners, rows: usize, cols: usize) -> Option<Rect> {
    from_corners(corners, RectExtent::Stream, rows, cols)
}

#[test]
fn an_erase_reads_its_four_corners() {
    assert_eq!(
        scan(b"\x1b[2;3;5;7$z"),
        vec![(11, RectRequest::Erase(box_of(2, 3, 5, 7)))]
    );
}

#[test]
fn a_selective_erase_is_the_same_rectangle_by_another_verb() {
    assert_eq!(
        scan(b"\x1b[2;3;5;7${"),
        vec![(11, RectRequest::SelectiveErase(box_of(2, 3, 5, 7)))]
    );
}

#[test]
fn an_erase_with_no_parameters_is_the_whole_page() {
    assert_eq!(
        scan(b"\x1b[$z"),
        vec![(4, RectRequest::Erase(box_of(0, 0, 0, 0)))]
    );
}

#[test]
fn a_fill_reads_the_character_before_the_corners() {
    assert_eq!(
        scan(b"\x1b[45;2;1;2;80$x"),
        vec![(15, RectRequest::Fill('-', box_of(2, 1, 2, 80)))]
    );
}

#[test]
fn a_fill_takes_printable_latin_one_too() {
    assert_eq!(
        scan(b"\x1b[176;1;1;1;1$x"),
        vec![(15, RectRequest::Fill('°', box_of(1, 1, 1, 1)))]
    );
}

#[test]
fn a_fill_with_a_control_character_is_refused() {
    assert!(scan(b"\x1b[0;1;1;5;5$x").is_empty());
    assert!(scan(b"\x1b[7;1;1;5;5$x").is_empty());
    assert!(scan(b"\x1b[27;1;1;5;5$x").is_empty());
    assert!(scan(b"\x1b[127;1;1;5;5$x").is_empty());
    assert!(scan(b"\x1b[155;1;1;5;5$x").is_empty());
    assert!(scan(b"\x1b[300;1;1;5;5$x").is_empty());
}

#[test]
fn a_copy_reads_a_source_and_a_corner() {
    assert_eq!(
        scan(b"\x1b[2;1;10;40;1;1;1;1$v"),
        vec![(
            21,
            RectRequest::Copy {
                source: box_of(2, 1, 10, 40),
                top: 1,
                left: 1,
            }
        )]
    );
}

#[test]
fn a_copy_may_leave_its_tail_off() {
    assert_eq!(
        scan(b"\x1b[2;1;10;40$v"),
        vec![(
            13,
            RectRequest::Copy {
                source: box_of(2, 1, 10, 40),
                top: 0,
                left: 0,
            }
        )]
    );
}

#[test]
fn a_change_reads_its_corners_then_its_selectors() {
    assert_eq!(
        scan(b"\x1b[1;1;5;5;1;4$r"),
        vec![(
            15,
            RectRequest::Attributes {
                corners: box_of(1, 1, 5, 5),
                extent: RectExtent::Stream,
                change: AttributeChange {
                    on: BOLD | UNDERLINE,
                    off: 0,
                    flip: 0,
                },
            }
        )]
    );
}

#[test]
fn a_reversal_flips_instead_of_setting() {
    assert_eq!(
        scan(b"\x1b[1;1;5;5;7$t"),
        vec![(
            13,
            RectRequest::Attributes {
                corners: box_of(1, 1, 5, 5),
                extent: RectExtent::Stream,
                change: AttributeChange {
                    on: 0,
                    off: 0,
                    flip: REVERSE,
                },
            }
        )]
    );
}

#[test]
fn a_later_selector_wins() {
    assert_eq!(
        changes(&[1, 22]),
        AttributeChange {
            on: 0,
            off: BOLD,
            flip: 0
        }
    );
    assert_eq!(
        changes(&[22, 1]),
        AttributeChange {
            on: BOLD,
            off: 0,
            flip: 0
        }
    );
}

#[test]
fn selector_zero_names_all_four_attributes() {
    assert_eq!(
        changes(&[0]),
        AttributeChange {
            on: 0,
            off: ALL_ATTRIBUTES,
            flip: 0
        }
    );
    assert_eq!(
        reversals(&[0]),
        AttributeChange {
            on: 0,
            off: 0,
            flip: ALL_ATTRIBUTES
        }
    );
}

#[test]
fn an_unknown_selector_is_ignored_not_fatal() {
    assert_eq!(
        changes(&[3, 4, 38]),
        AttributeChange {
            on: UNDERLINE,
            off: 0,
            flip: 0
        }
    );
    assert!(changes(&[3]).is_empty());
}

#[test]
fn a_reversal_has_no_off_forms() {
    assert!(reversals(&[22, 24, 25, 27]).is_empty());
}

#[test]
fn repeated_reversals_cancel() {
    assert!(reversals(&[1, 1]).is_empty());
    assert_eq!(
        reversals(&[0, 1]),
        AttributeChange {
            on: 0,
            off: 0,
            flip: UNDERLINE | BLINK | REVERSE
        }
    );
}

#[test]
fn a_change_with_no_selectors_asks_for_nothing() {
    let requests = scan(b"\x1b[1;1;5;5$r");
    let [(_, RectRequest::Attributes { change, .. })] = requests[..] else {
        panic!("expected one attribute request");
    };
    assert!(change.is_empty());
}

#[test]
fn a_change_folds_to_the_new_attributes() {
    assert_eq!(
        changes(&[1, 4]).apply(REVERSE),
        BOLD | UNDERLINE | REVERSE
    );
    assert_eq!(changes(&[0]).apply(ALL_ATTRIBUTES), 0);
    assert_eq!(reversals(&[1]).apply(BOLD | REVERSE), REVERSE);
    assert_eq!(reversals(&[1]).apply(REVERSE), BOLD | REVERSE);
    assert_eq!(AttributeChange::default().apply(BOLD), BOLD);
}

#[test]
fn the_extent_selects_the_shape_the_pair_acts_on() {
    let mut rectangles = Rectangles::default();
    assert!(rectangles.feed(b"\x1b[2*x").is_empty());
    let requests = rectangles.feed(b"\x1b[1;1;5;5;1$r");
    let [(_, RectRequest::Attributes { extent, .. })] = requests[..] else {
        panic!("expected one attribute request");
    };
    assert_eq!(extent, RectExtent::Rectangle);
    assert!(rectangles.feed(b"\x1b[1*x").is_empty());
    let requests = rectangles.feed(b"\x1b[1;1;5;5;1$r");
    let [(_, RectRequest::Attributes { extent, .. })] = requests[..] else {
        panic!("expected one attribute request");
    };
    assert_eq!(extent, RectExtent::Stream);
}

#[test]
fn an_extent_nobody_defined_leaves_the_mode_alone() {
    let mut rectangles = Rectangles::default();
    assert!(rectangles.feed(b"\x1b[2*x\x1b[9*x").is_empty());
    let requests = rectangles.feed(b"\x1b[1;1;5;5;1$r");
    let [(_, RectRequest::Attributes { extent, .. })] = requests[..] else {
        panic!("expected one attribute request");
    };
    assert_eq!(extent, RectExtent::Rectangle);
}

#[test]
fn a_full_reset_puts_the_extent_back() {
    let mut rectangles = Rectangles::default();
    assert!(rectangles.feed(b"\x1b[2*x\x1b[!p").is_empty());
    let requests = rectangles.feed(b"\x1b[1;1;5;5;1$r");
    let [(_, RectRequest::Attributes { extent, .. })] = requests[..] else {
        panic!("expected one attribute request");
    };
    assert_eq!(extent, RectExtent::Rectangle);
    assert!(rectangles.feed(b"\x1bc").is_empty());
    let requests = rectangles.feed(b"\x1b[1;1;5;5;1$r");
    let [(_, RectRequest::Attributes { extent, .. })] = requests[..] else {
        panic!("expected one attribute request");
    };
    assert_eq!(extent, RectExtent::Stream);
}

#[test]
fn a_reset_inside_a_chunk_divides_the_sequences_around_it() {
    let requests = Rectangles::default().feed(b"\x1b[2*x\x1b[1;1;5;5;1$r\x1bc\x1b[1;1;5;5;1$r");
    let [
        (_, RectRequest::Attributes { extent: before, .. }),
        (_, RectRequest::Attributes { extent: after, .. }),
    ] = requests[..]
    else {
        panic!("expected two attribute requests, got {requests:?}");
    };
    assert_eq!(before, RectExtent::Rectangle, "the mode was still in force");
    assert_eq!(after, RectExtent::Stream, "and the reset put it back");
}

#[test]
fn an_offset_after_a_reset_still_counts_from_the_start_of_the_chunk() {
    assert_eq!(
        Rectangles::default().feed(b"\x1bc\x1b[2;3;5;7$z"),
        vec![(13, RectRequest::Erase(box_of(2, 3, 5, 7)))]
    );
}

#[test]
fn a_fill_and_an_extent_are_one_intermediate_apart() {
    assert_eq!(
        scan(b"\x1b[32;1;1;1;1$x"),
        vec![(14, RectRequest::Fill(' ', box_of(1, 1, 1, 1)))]
    );
    assert!(scan(b"\x1b[2*x").is_empty());
}

#[test]
fn a_window_operation_is_not_mistaken_for_a_reversal() {
    assert!(scan(b"\x1b[18t\x1b[8;24;80t").is_empty());
}

#[test]
fn a_request_mode_query_is_not_mistaken_for_one() {
    assert!(scan(b"\x1b[4$p\x1b[?69$p").is_empty());
}

#[test]
fn the_intermediate_is_what_makes_the_family() {
    assert!(scan(b"\x1b[45;2;1;2;80x\x1b[2;3;5;7z").is_empty());
}

#[test]
fn a_private_marker_rules_the_sequence_out() {
    assert!(scan(b"\x1b[?2;3;5;7$z").is_empty());
}

#[test]
fn a_sub_parameter_is_not_one_of_these_sequences() {
    assert!(scan(b"\x1b[2:3;5;7$z").is_empty());
    assert!(scan(b"\x1b[2;3;5;7:1$z").is_empty(), "anywhere in the run");
    assert!(scan(b"\x1b[1;1;5;5;1:4$r").is_empty(), "or among selectors");
    assert_eq!(
        scan(b"\x1b[2;3;5;7$z"),
        vec![(11, RectRequest::Erase(box_of(2, 3, 5, 7)))]
    );
}

#[test]
fn rect_a_sequence_split_across_chunks_is_still_read() {
    let mut rectangles = Rectangles::default();
    assert!(rectangles.feed(b"text\x1b").is_empty());
    assert!(rectangles.feed(b"[2;3;5").is_empty());
    assert_eq!(
        rectangles.feed(b";7$zmore"),
        vec![(4, RectRequest::Erase(box_of(2, 3, 5, 7)))]
    );
}

#[test]
fn rect_several_requests_in_one_chunk_come_out_in_order() {
    let requests = scan(b"\x1b[1;1;2;2$z\x1b[45;1;1;1;9$x");
    assert_eq!(
        requests,
        vec![
            (11, RectRequest::Erase(box_of(1, 1, 2, 2))),
            (25, RectRequest::Fill('-', box_of(1, 1, 1, 9))),
        ]
    );
}

#[test]
fn rect_the_two_parameter_bounds_answer_differently() {
    let list = |fields: usize| {
        let params = vec!["1"; fields].join(";");
        format!("\x1b[{params}$z").into_bytes()
    };
    let bound = cmote::csi::MAX_PARAMS;
    assert_eq!(
        scan(&list(bound)),
        vec![(bound * 2 + 3, RectRequest::Erase(box_of(1, 1, 1, 1)))],
        "thirty-two parameters still fit"
    );
    assert!(scan(&list(bound + 1)).is_empty(), "thirty-three do not");

    let mut digits = b"\x1b[".to_vec();
    digits.extend(std::iter::repeat_n(b'1', 500));
    digits.extend_from_slice(b";1;1;1$z");
    let requests = scan(&digits);
    let [(_, RectRequest::Erase(corners))] = requests[..] else {
        panic!("expected one erase");
    };
    assert_eq!(corners.top, 11111, "five significant digits, and no more");
    assert_eq!(from_corners(corners, RectExtent::Stream, 24, 80), None);
}

#[test]
fn a_control_byte_inside_a_csi_does_not_abandon_it() {
    assert!(!scan(b"\x1b[2;3\n;5;7$z").is_empty());
    assert!(scan(b"\x1b[2;3\x18;5;7$z").is_empty());
}

#[test]
fn ordinary_output_asks_for_nothing() {
    assert!(scan(b"\x1b[31mred\x1b[0m\x1b[2J\x1b[1;1Hhello").is_empty());
}

#[test]
fn corners_resolve_to_zero_based_cells() {
    assert_eq!(
        boxed(box_of(2, 3, 5, 7), 24, 80),
        Some(Rect {
            top: 1,
            left: 2,
            bottom: 4,
            right: 6
        })
    );
}

#[test]
fn omitted_corners_reach_the_edges_of_the_page() {
    assert_eq!(
        boxed(box_of(0, 0, 0, 0), 24, 80),
        Some(Rect {
            top: 0,
            left: 0,
            bottom: 23,
            right: 79
        })
    );
}

#[test]
fn corners_past_the_page_clamp_to_it() {
    assert_eq!(
        boxed(box_of(1, 1, 999, 999), 24, 80),
        Some(Rect {
            top: 0,
            left: 0,
            bottom: 23,
            right: 79
        })
    );
}

#[test]
fn a_rectangle_that_starts_off_the_page_holds_nothing() {
    assert_eq!(boxed(box_of(25, 1, 30, 5), 24, 80), None);
    assert_eq!(boxed(box_of(1, 81, 5, 90), 24, 80), None);
}

#[test]
fn a_stream_covers_whole_rows_between_its_ends() {
    let run = streamed(box_of(2, 3, 4, 7), 24, 80).expect("inside the page");
    assert_eq!(run.columns_on(1, RectExtent::Stream, 80), 2..=79);
    assert_eq!(run.columns_on(2, RectExtent::Stream, 80), 0..=79);
    assert_eq!(run.columns_on(3, RectExtent::Stream, 80), 0..=6);
    assert_eq!(run.columns_on(2, RectExtent::Rectangle, 80), 2..=6);
}

#[test]
fn a_one_row_stream_is_the_same_span_as_the_box() {
    let run = streamed(box_of(3, 10, 3, 20), 24, 80).expect("inside the page");
    assert_eq!(run.columns_on(2, RectExtent::Stream, 80), 9..=19);
    assert_eq!(run.columns_on(2, RectExtent::Rectangle, 80), 9..=19);
}

#[test]
fn a_stream_may_end_left_of_where_it_started() {
    assert!(streamed(box_of(1, 70, 5, 10), 24, 80).is_some());
    assert!(boxed(box_of(1, 70, 5, 10), 24, 80).is_none());
    assert!(streamed(box_of(3, 70, 3, 10), 24, 80).is_none());
}

#[test]
fn crossed_corners_hold_nothing() {
    assert_eq!(boxed(box_of(5, 1, 2, 9), 24, 80), None);
    assert_eq!(boxed(box_of(1, 9, 5, 2), 24, 80), None);
}

#[test]
fn a_single_cell_is_a_rectangle() {
    assert_eq!(
        boxed(box_of(3, 4, 3, 4), 24, 80),
        Some(Rect {
            top: 2,
            left: 3,
            bottom: 2,
            right: 3
        })
    );
}

#[test]
fn a_page_with_no_cells_holds_no_rectangle() {
    assert_eq!(boxed(box_of(1, 1, 1, 1), 0, 80), None);
    assert_eq!(boxed(box_of(1, 1, 1, 1), 24, 0), None);
}

#[test]
fn a_copy_that_fits_keeps_its_whole_source() {
    let source = boxed(box_of(2, 1, 10, 40), 24, 80).expect("inside the page");
    assert_eq!(copy_extent(source, 1, 1, 24, 80), Some((source, 0, 0)));
}

#[test]
fn a_copy_running_off_the_page_is_trimmed_not_refused() {
    let source = boxed(box_of(2, 1, 10, 40), 24, 80).expect("inside the page");
    let (trimmed, row, col) = copy_extent(source, 22, 79, 24, 80).expect("the corner is on it");
    assert_eq!(row, 21);
    assert_eq!(col, 78);
    assert_eq!(trimmed.height(), 3);
    assert_eq!(trimmed.width(), 2);
    assert_eq!(trimmed.top, source.top);
    assert_eq!(trimmed.left, source.left);
}

#[test]
fn a_copy_to_a_corner_off_the_page_does_nothing() {
    let source = boxed(box_of(1, 1, 2, 2), 24, 80).expect("inside the page");
    assert_eq!(copy_extent(source, 25, 1, 24, 80), None);
    assert_eq!(copy_extent(source, 1, 81, 24, 80), None);
}

#[test]
fn a_copy_corner_defaults_to_the_first_cell() {
    let source = boxed(box_of(3, 3, 4, 4), 24, 80).expect("inside the page");
    assert_eq!(copy_extent(source, 0, 0, 24, 80), Some((source, 0, 0)));
}

#[test]
fn a_checksum_request_reads_its_id_then_its_corners() {
    assert_eq!(
        scan(b"\x1b[42;1;2;3;4;5*y"),
        vec![(
            16,
            RectRequest::Checksum {
                id: 42,
                corners: box_of(2, 3, 4, 5),
            }
        )]
    );
}

#[test]
fn a_checksum_may_name_no_rectangle_at_all() {
    assert_eq!(
        scan(b"\x1b[1*y"),
        vec![(
            5,
            RectRequest::Checksum {
                id: 1,
                corners: box_of(0, 0, 0, 0),
            }
        )]
    );
}

#[test]
fn a_checksum_and_an_extent_are_one_final_byte_apart() {
    assert!(scan(b"\x1b[2*x").is_empty());
    assert_eq!(scan(b"\x1b[2*y").len(), 1);
}

#[test]
fn a_self_test_is_not_mistaken_for_a_checksum() {
    assert!(scan(b"\x1b[2;1y").is_empty());
    assert!(scan(b"\x1b[1;1;1;1;1;1$y").is_empty());
}

#[test]
fn a_shift_reads_its_direction_and_its_column_count() {
    assert_eq!(
        scan(b"\x1b[3 @"),
        vec![(
            5,
            RectRequest::Shift {
                direction: RectDirection::Left,
                columns: 3
            }
        )]
    );
    assert_eq!(
        scan(b"\x1b[3 A"),
        vec![(
            5,
            RectRequest::Shift {
                direction: RectDirection::Right,
                columns: 3
            }
        )]
    );
}

#[test]
fn a_shift_with_no_count_moves_one_column() {
    for sequence in [&b"\x1b[ @"[..], &b"\x1b[0 @"[..]] {
        assert_eq!(
            scan(sequence),
            vec![(
                sequence.len(),
                RectRequest::Shift {
                    direction: RectDirection::Left,
                    columns: 1
                }
            )],
            "{sequence:?}"
        );
    }
}

#[test]
fn a_column_insert_and_delete_read_their_counts_and_their_direction() {
    assert_eq!(
        scan(b"\x1b[3'}"),
        vec![(
            5,
            RectRequest::Columns {
                columns: 3,
                insert: true
            }
        )]
    );
    assert_eq!(
        scan(b"\x1b[2'~"),
        vec![(
            5,
            RectRequest::Columns {
                columns: 2,
                insert: false
            }
        )]
    );
    assert_eq!(
        scan(b"\x1b['}"),
        vec![(
            4,
            RectRequest::Columns {
                columns: 1,
                insert: true
            }
        )]
    );
    assert_eq!(
        scan(b"\x1b[0'~"),
        vec![(
            5,
            RectRequest::Columns {
                columns: 1,
                insert: false
            }
        )]
    );
    assert!(scan(b"\x1b[3}").is_empty(), "no intermediate, not ours");
    assert!(scan(b"\x1b[3 }").is_empty(), "a different intermediate");
    assert!(scan(b"\x1b[?3'}").is_empty(), "a marker rules it out");
}

#[test]
fn an_unscroll_reads_its_line_count_and_is_not_a_plain_scroll_down() {
    assert_eq!(
        scan(b"\x1b[3+T"),
        vec![(5, RectRequest::Unscroll { lines: 3 })]
    );
    assert_eq!(
        scan(b"\x1b[+T"),
        vec![(4, RectRequest::Unscroll { lines: 1 })]
    );
    assert_eq!(
        scan(b"\x1b[0+T"),
        vec![(5, RectRequest::Unscroll { lines: 1 })]
    );
    assert!(scan(b"\x1b[3T").is_empty(), "SD is the engine's");
    assert!(scan(b"\x1b[3 T").is_empty(), "a different intermediate");
    assert!(scan(b"\x1b[?3+T").is_empty(), "a marker rules it out");
}

#[test]
fn an_unscroll_the_scrollback_can_fill_moves_no_line_number() {
    let moved = Unscrolled::new(5, 4, 2, 2);
    assert_eq!(moved.shift, 0);
    for line in 0..7 {
        assert_eq!(moved.map(line), Some(line), "line {line} must not move");
    }
    assert_eq!(moved.map(7), None);
    assert_eq!(moved.map(8), None);
}

#[test]
fn an_unscroll_the_scrollback_cannot_fill_pushes_the_rest_down() {
    let moved = Unscrolled::new(1, 4, 3, 1);
    assert_eq!((moved.cut, moved.shift, moved.discard_from), (0, 2, 2));
    assert_eq!(moved.map(0), Some(2));
    assert_eq!(moved.map(1), Some(3));
    assert_eq!(moved.map(2), None);
    assert_eq!(moved.map(4), None);
}

#[test]
fn the_two_sequences_a_shift_sits_beside_are_left_to_the_engine() {
    assert!(scan(b"\x1b[3@").is_empty(), "ICH — insert blanks");
    assert!(scan(b"\x1b[3A").is_empty(), "CUU — move the cursor up");
    assert!(
        scan(b"\x1b[3$@").is_empty(),
        "another intermediate entirely"
    );
    assert!(scan(b"\x1b[?3 @").is_empty(), "a marker rules it out");
    assert!(
        scan(b"\x1b[3  @").is_empty(),
        "two intermediates is not one"
    );
}

#[test]
fn the_checksum_is_the_negated_sum() {
    let mut checksum = Checksum::default();
    checksum.cell(0x41);
    checksum.cell(0x42);
    assert_eq!(checksum.finish(), 0xff7d);
}

#[test]
fn a_plain_space_is_trimmed_and_the_first_cell_is_not() {
    let mut checksum = Checksum::default();
    checksum.cell(0x20);
    checksum.cell(0x20);
    checksum.cell(0x41);
    assert_eq!(checksum.finish(), 0xff9f);
    let mut row = Checksum::default();
    for _ in 0..80 {
        row.cell(0x20);
    }
    assert_eq!(row.finish(), 0xffe0);
}

#[test]
fn a_blank_that_can_be_seen_is_not_trimmed() {
    let mut checksum = Checksum::default();
    checksum.cell(0x41);
    checksum.cell(0x30);
    assert_eq!(checksum.finish(), 0xff8f);
}

#[test]
fn a_rectangle_with_no_cells_checksums_as_zero() {
    assert_eq!(Checksum::default().finish(), 0);
}

#[test]
fn the_total_wraps_at_sixteen_bits() {
    let mut checksum = Checksum::default();
    checksum.cell(0xff00);
    checksum.cell(0xff00);
    assert_eq!(checksum.finish(), 0x0200);
}

#[test]
fn the_report_echoes_the_id_and_four_hex_digits() {
    assert_eq!(checksum_reply(42, 0xff7d), b"\x1bP42!~FF7D\x1b\\".to_vec());
    assert_eq!(checksum_reply(0, 0), b"\x1bP0!~0000\x1b\\".to_vec());
    assert_eq!(checksum_reply(7, 0x000a), b"\x1bP7!~000A\x1b\\".to_vec());
}

#[test]
fn an_area_reports_its_own_size() {
    let source = boxed(box_of(2, 3, 5, 7), 24, 80).expect("inside the page");
    assert_eq!(source.height(), 4);
    assert_eq!(source.width(), 5);
    assert_eq!(source.rows().count(), 4);
    assert_eq!(source.columns().count(), 5);
}
