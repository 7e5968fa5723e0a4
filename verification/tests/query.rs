use cmote::query::{
    da3_reply, decrqss_reply, decrqss_unsupported_reply, gettcap_reply, graphics_reply,
    version_reply, with_sixel_attribute, Decrqss, Graphics, Queries, Query,
};

fn scan(bytes: &[u8]) -> Vec<Query> {
    Queries::default().feed(bytes)
}

#[test]
fn the_answers_come_back_in_the_order_the_questions_were_asked() {
    assert_eq!(
        scan(b"\x1b[>q\x1bP$qm\x1b\\"),
        vec![Query::Version, Query::Decrqss(Decrqss::Sgr)],
        "a CSI question before a DCS one"
    );
    assert_eq!(
        scan(b"\x1bP$qm\x1b\\\x1b[>q"),
        vec![Query::Decrqss(Decrqss::Sgr), Query::Version],
        "and the other way round"
    );
    assert_eq!(
        scan(b"\x1b[>q\x1bP$qm\x1b\\\x1b[=c"),
        vec![Query::Version, Query::Decrqss(Decrqss::Sgr), Query::UnitId]
    );
}

#[test]
fn a_padded_request_is_still_the_default_one() {
    let padded = |marker: u8, final_byte: u8, zeros: usize| {
        let mut bytes = vec![0x1b, b'[', marker];
        bytes.extend(std::iter::repeat_n(b'0', zeros));
        bytes.push(final_byte);
        bytes
    };
    assert_eq!(scan(&padded(b'>', b'q', 16)), vec![Query::Version]);
    assert_eq!(scan(&padded(b'>', b'q', 17)), vec![Query::Version]);
    assert_eq!(scan(&padded(b'>', b'q', 500)), vec![Query::Version]);
    assert_eq!(scan(&padded(b'=', b'c', 500)), vec![Query::UnitId]);
}

#[test]
fn a_second_parameter_is_not_the_default_form() {
    assert!(scan(b"\x1b[>0;0q").is_empty());
    assert!(scan(b"\x1b[>;q").is_empty());
    assert!(scan(b"\x1b[=0;0c").is_empty());
}

#[test]
fn a_sub_parameter_is_none_of_these_queries() {
    assert!(scan(b"\x1b[>0:0q").is_empty());
    assert!(scan(b"\x1b[?1:2S").is_empty());
    assert_eq!(
        scan(b"\x1b[?1;2S"),
        vec![Query::Graphics(Graphics { item: 1, action: 2 })]
    );
}

#[test]
fn an_intermediate_byte_rules_all_three_out() {
    assert!(scan(b"\x1b[> q").is_empty());
    assert!(scan(b"\x1b[= c").is_empty());
    assert!(scan(b"\x1b[?1;2 S").is_empty());
    assert!(scan(b"\x1b[?4$p").is_empty(), "DECRQM, the engine's");
}

#[test]
fn a_byte_the_engine_reads_through_does_not_abandon_the_query() {
    assert_eq!(scan(b"\x1b[>0\nq"), vec![Query::Version]);
    assert_eq!(scan(b"\x1b[=\x7fc"), vec![Query::UnitId]);
    assert!(scan(b"\x1b[>0\x18q").is_empty());
    assert!(scan(b"\x1b[=\x1ac").is_empty());
}

#[test]
fn a_version_request_is_recognised() {
    assert_eq!(scan(b"\x1b[>q"), vec![Query::Version]);
    assert_eq!(scan(b"\x1b[>0q"), vec![Query::Version]);
}

#[test]
fn other_private_csi_sequences_are_not_version_requests() {
    assert!(scan(b"\x1b[>4;2m").is_empty());
    assert!(scan(b"\x1b[>1u").is_empty());
    assert!(scan(b"\x1b[>c").is_empty());
    assert!(scan(b"\x1b[>1q").is_empty());
}

#[test]
fn a_tertiary_attributes_request_is_recognised() {
    assert_eq!(scan(b"\x1b[=c"), vec![Query::UnitId]);
    assert_eq!(scan(b"\x1b[=0c"), vec![Query::UnitId]);
}

#[test]
fn the_other_device_attributes_forms_are_left_to_the_engine() {
    assert!(scan(b"\x1b[c").is_empty());
    assert!(scan(b"\x1b[0c").is_empty());
    assert!(scan(b"\x1b[>c").is_empty());
    assert!(scan(b"\x1b[=1c").is_empty());
    assert!(scan(b"\x1b[=m").is_empty());
}

#[test]
fn a_decrqss_sgr_request_is_recognised() {
    assert_eq!(scan(b"\x1bP$qm\x1b\\"), vec![Query::Decrqss(Decrqss::Sgr)]);
}

#[test]
fn the_reportable_decrqss_selectors_are_told_apart() {
    assert_eq!(
        scan(b"\x1bP$q q\x1b\\"),
        vec![Query::Decrqss(Decrqss::CursorStyle)],
        "DECSCUSR is `CSI Ps SP q`"
    );
    assert_eq!(
        scan(b"\x1bP$q\"q\x1b\\"),
        vec![Query::Decrqss(Decrqss::Protection)],
        "DECSCA is `CSI Ps \" q`, with no space"
    );
    assert_eq!(
        scan(b"\x1bP$qr\x1b\\"),
        vec![Query::Decrqss(Decrqss::ScrollRegion)]
    );
    assert_eq!(
        scan(b"\x1bP$qs\x1b\\"),
        vec![Query::Decrqss(Decrqss::Margins)]
    );
}

#[test]
fn other_decrqss_requests_are_unsupported() {
    assert_eq!(
        scan(b"\x1bP$q\"p\x1b\\"),
        vec![Query::Decrqss(Decrqss::Unsupported)]
    );
    assert_eq!(
        scan(b"\x1bP$qZ\x1b\\"),
        vec![Query::Decrqss(Decrqss::Unsupported)]
    );
}

#[test]
fn an_xtgettcap_request_carries_its_hex_names() {
    assert_eq!(
        scan(b"\x1bP+q544E\x1b\\"),
        vec![Query::Capabilities(vec![b"544E".to_vec()])]
    );
    assert_eq!(
        scan(b"\x1bP+q436F;544E\x1b\\"),
        vec![Query::Capabilities(vec![
            b"436F".to_vec(),
            b"544E".to_vec()
        ])]
    );
}

#[test]
fn a_sixel_dcs_does_not_trip_the_scanner() {
    assert!(scan(b"\x1bPq\"1;1;10;10#0>q\x1b\\").is_empty());
}

#[test]
fn a_request_split_across_chunks_is_answered_on_completion() {
    let mut queries = Queries::default();
    assert!(queries.feed(b"text\x1b[>").is_empty());
    assert_eq!(queries.feed(b"qmore"), vec![Query::Version]);
    assert!(queries.feed(b"\x1bP+q54").is_empty());
    assert_eq!(
        queries.feed(b"4E\x1b\\"),
        vec![Query::Capabilities(vec![b"544E".to_vec()])]
    );
}

#[test]
fn a_bell_terminates_a_dcs_query() {
    assert_eq!(scan(b"\x1bP$qm\x07"), vec![Query::Decrqss(Decrqss::Sgr)]);
}

#[test]
fn the_version_reply_frames_the_identity() {
    assert_eq!(
        version_reply("cmote(3.1.0)"),
        b"\x1bP>|cmote(3.1.0)\x1b\\".to_vec()
    );
}

#[test]
fn the_unit_id_reply_frames_the_digits() {
    assert_eq!(da3_reply("00434D45"), b"\x1bP!|00434D45\x1b\\".to_vec());
}

#[test]
fn the_sgr_reply_frames_the_parameters() {
    assert_eq!(decrqss_reply("0", "m"), b"\x1bP1$r0m\x1b\\".to_vec());
    assert_eq!(
        decrqss_reply("0;1;31", "m"),
        b"\x1bP1$r0;1;31m\x1b\\".to_vec()
    );
}

#[test]
fn a_reply_echoes_the_selector_it_was_asked_about() {
    assert_eq!(decrqss_reply("2", " q"), b"\x1bP1$r2 q\x1b\\".to_vec());
    assert_eq!(decrqss_reply("1", "\"q"), b"\x1bP1$r1\"q\x1b\\".to_vec());
    assert_eq!(decrqss_reply("1;24", "r"), b"\x1bP1$r1;24r\x1b\\".to_vec());
    assert_eq!(decrqss_reply("1;80", "s"), b"\x1bP1$r1;80s\x1b\\".to_vec());
}

#[test]
fn the_unsupported_reply_is_a_zero_status() {
    assert_eq!(decrqss_unsupported_reply(), b"\x1bP0$r\x1b\\".to_vec());
}

#[test]
fn a_known_capability_is_answered_with_its_value() {
    let reply = gettcap_reply(&[b"544E".to_vec()]);
    assert_eq!(
        reply,
        b"\x1bP1+r544E=787465726D2D323536636F6C6F72\x1b\\".to_vec()
    );
}

#[test]
fn the_colour_count_is_answered() {
    assert_eq!(
        gettcap_reply(&[b"436F".to_vec()]),
        b"\x1bP1+r436F=323536\x1b\\".to_vec()
    );
}

#[test]
fn the_direct_colour_depth_is_answered() {
    assert_eq!(
        gettcap_reply(&[b"524742".to_vec()]),
        b"\x1bP1+r524742=38\x1b\\".to_vec()
    );
}

#[test]
fn the_tmux_truecolor_flag_is_not_answered() {
    assert_eq!(
        gettcap_reply(&[b"5463".to_vec()]),
        b"\x1bP0+r5463\x1b\\".to_vec()
    );
}

#[test]
fn an_unknown_capability_is_answered_with_a_zero_status() {
    assert_eq!(
        gettcap_reply(&[b"7A7A".to_vec()]),
        b"\x1bP0+r7A7A\x1b\\".to_vec()
    );
}

#[test]
fn a_graphics_request_carries_its_item_and_action() {
    assert_eq!(
        scan(b"\x1b[?1;1S"),
        vec![Query::Graphics(Graphics { item: 1, action: 1 })]
    );
    assert_eq!(
        scan(b"\x1b[?2;4S"),
        vec![Query::Graphics(Graphics { item: 2, action: 4 })]
    );
    assert_eq!(
        scan(b"\x1b[?1;3;16S"),
        vec![Query::Graphics(Graphics { item: 1, action: 3 })]
    );
}

#[test]
fn the_engines_own_private_modes_are_not_graphics_requests() {
    assert!(scan(b"\x1b[?1049h").is_empty());
    assert!(scan(b"\x1b[?25l").is_empty());
    assert!(scan(b"\x1b[?2026$p").is_empty());
    assert!(scan(b"\x1b[?u").is_empty());
    assert!(scan(b"\x1b[?1S").is_empty());
    assert!(scan(b"\x1b[?S").is_empty());
}

#[test]
fn the_graphics_reply_states_the_registers_and_the_geometry() {
    assert_eq!(
        graphics_reply(&Graphics { item: 1, action: 1 }, 256, (4096, 4096)),
        b"\x1b[?1;0;256S".to_vec()
    );
    assert_eq!(
        graphics_reply(&Graphics { item: 2, action: 4 }, 256, (4096, 2048)),
        b"\x1b[?2;0;4096;2048S".to_vec()
    );
}

#[test]
fn setting_a_graphics_limit_is_refused_with_the_real_value() {
    assert_eq!(
        graphics_reply(&Graphics { item: 1, action: 3 }, 256, (4096, 4096)),
        b"\x1b[?1;3;256S".to_vec()
    );
    assert_eq!(
        graphics_reply(&Graphics { item: 1, action: 2 }, 256, (4096, 4096)),
        b"\x1b[?1;0;256S".to_vec()
    );
}

#[test]
fn an_unknown_graphics_item_is_answered_unknown() {
    assert_eq!(
        graphics_reply(&Graphics { item: 3, action: 1 }, 256, (4096, 4096)),
        b"\x1b[?3;1S".to_vec()
    );
}

#[test]
fn the_engines_da1_reply_gains_the_sixel_attribute() {
    assert_eq!(
        with_sixel_attribute(b"\x1b[?6c".to_vec()),
        b"\x1b[?6;4c".to_vec()
    );
    assert_eq!(
        with_sixel_attribute(b"\x1b[0n\x1b[?6c\x1b[1;1R".to_vec()),
        b"\x1b[0n\x1b[?6;4c\x1b[1;1R".to_vec()
    );
}

#[test]
fn a_reply_that_is_not_a_da1_is_left_exactly_as_it_was() {
    assert_eq!(
        with_sixel_attribute(b"\x1b[?2026;2$y".to_vec()),
        b"\x1b[?2026;2$y".to_vec()
    );
    assert_eq!(
        with_sixel_attribute(b"\x1b[?1u".to_vec()),
        b"\x1b[?1u".to_vec()
    );
    assert!(with_sixel_attribute(Vec::new()).is_empty());
}

#[test]
fn a_da1_that_already_advertises_sixel_is_not_amended_twice() {
    assert_eq!(
        with_sixel_attribute(b"\x1b[?62;4;22c".to_vec()),
        b"\x1b[?62;4;22c".to_vec()
    );
    assert_eq!(
        with_sixel_attribute(b"\x1b[?62;14c".to_vec()),
        b"\x1b[?62;14;4c".to_vec()
    );
}

#[test]
fn a_lower_case_hex_name_still_decodes() {
    assert_eq!(
        gettcap_reply(&[b"544e".to_vec()]),
        b"\x1bP1+r544E=787465726D2D323536636F6C6F72\x1b\\".to_vec()
    );
}
