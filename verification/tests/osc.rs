use cmote::osc::{sanitize, Framer};

fn frame<const CAP: usize>(framer: &mut Framer<CAP>, bytes: &[u8]) -> Vec<(usize, String)> {
    framer
        .feed(bytes)
        .into_iter()
        .map(|found| (found.end, String::from_utf8_lossy(&found.payload).into_owned()))
        .collect()
}

#[test]
fn a_bel_terminated_string_reports_its_payload_and_end() {
    let mut framer = Framer::<64>::default();
    let seen = frame(&mut framer, b"ab\x1b]7;x\x07");
    assert_eq!(seen, vec![(8, "7;x".to_owned())]);
}

#[test]
fn osc_the_st_terminator_is_accepted_too() {
    let mut framer = Framer::<64>::default();
    let seen = frame(&mut framer, b"\x1b]133;A\x1b\\");
    assert_eq!(seen, vec![(9, "133;A".to_owned())]);
}

#[test]
fn a_string_split_across_chunks_completes_on_the_chunk_that_ends_it() {
    let mut framer = Framer::<64>::default();
    assert_eq!(frame(&mut framer, b"x\x1b"), vec![]);
    assert_eq!(frame(&mut framer, b"]7;fi"), vec![]);
    assert_eq!(
        frame(&mut framer, b"le\x07"),
        vec![(3, "7;file".to_owned())]
    );
}

#[test]
fn several_strings_in_one_chunk_are_all_reported_in_order() {
    let mut framer = Framer::<64>::default();
    let seen = frame(&mut framer, b"\x1b]133;A\x07\x1b]133;C\x07");
    assert_eq!(
        seen,
        vec![(8, "133;A".to_owned()), (16, "133;C".to_owned())]
    );
}

#[test]
fn an_esc_inside_a_payload_that_is_not_st_abandons_the_string() {
    let mut framer = Framer::<64>::default();
    assert_eq!(frame(&mut framer, b"\x1b]7;bad\x1bZ\x07"), vec![]);
    assert_eq!(
        frame(&mut framer, b"\x1b]7;ok\x07"),
        vec![(7, "7;ok".to_owned())]
    );
}

#[test]
fn an_esc_esc_keeps_waiting_for_the_real_first_byte() {
    let mut framer = Framer::<64>::default();
    let seen = frame(&mut framer, b"\x1b\x1b]7;x\x07");
    assert_eq!(seen, vec![(7, "7;x".to_owned())]);
}

#[test]
fn a_payload_past_the_cap_is_dropped_not_buffered() {
    let mut framer = Framer::<8>::default();
    assert_eq!(
        frame(&mut framer, b"\x1b]12345678\x07"),
        vec![(11, "12345678".to_owned())]
    );
    assert_eq!(frame(&mut framer, b"\x1b]123456789\x07"), vec![]);
    assert_eq!(
        frame(&mut framer, b"\x1b]7;x\x07"),
        vec![(6, "7;x".to_owned())]
    );
}

#[test]
fn a_non_osc_escape_sequence_is_ignored() {
    let mut framer = Framer::<64>::default();
    assert_eq!(frame(&mut framer, b"\x1bc\x1b[0mtext"), vec![]);
}

#[test]
fn sanitizing_drops_control_characters_and_keeps_the_text_around_them() {
    assert_eq!(sanitize("main\nfake prompt", 64), "mainfake prompt");
    assert_eq!(sanitize("a\x1b[31mb", 64), "a[31mb");
}

#[test]
fn sanitizing_cuts_at_a_character_boundary_not_a_byte_one() {
    assert_eq!(sanitize("éèêë", 3), "éèê");
    assert_eq!(sanitize("short", 64), "short");
}
