use cmote::csi::{Framer, MAX_PARAMS};
use cmote::dcs::DcsFramer;

/// Every control string a chunk completes, as (offset, final byte, data).
fn strings<const CAP: usize>(framer: &mut DcsFramer<CAP>, bytes: &[u8]) -> Vec<(usize, u8, Vec<u8>)> {
    framer
        .feed(bytes)
        .into_iter()
        .map(|found| (found.past, found.dcs.final_byte, found.dcs.data))
        .collect()
}

#[test]
fn a_control_string_reports_its_head_and_data() {
    let mut framer = DcsFramer::<16>::default();
    let found = framer.feed(b"ab\x1bP1;2$qm\x1b\\");
    assert_eq!(found.len(), 1);
    assert_eq!(found[0].past, 12);
    assert_eq!(found[0].dcs.intermediates, b"$".to_vec());
    assert_eq!(found[0].dcs.final_byte, b'q');
    assert_eq!(found[0].dcs.param_count(), 2);
    assert_eq!(found[0].dcs.param(0), Some(1));
    assert_eq!(found[0].dcs.param(1), Some(2));
    assert_eq!(found[0].dcs.data, b"m".to_vec());
}

#[test]
fn control_string_data_at_the_cap_is_kept_and_past_it_dropped() {
    let mut framer = DcsFramer::<4>::default();
    assert_eq!(
        strings(&mut framer, b"\x1bPq1234\x07"),
        vec![(8, b'q', b"1234".to_vec())]
    );
    assert!(strings(&mut framer, b"\x1bPq12345\x07").is_empty());
    // The framer is hunting again afterwards, so the next string still reads.
    assert_eq!(
        strings(&mut framer, b"\x1bPqx\x1b\\"),
        vec![(6, b'q', b"x".to_vec())]
    );
}

#[test]
fn a_cancel_abandons_a_control_string() {
    let mut framer = DcsFramer::<16>::default();
    assert!(strings(&mut framer, b"\x1bP$qm\x18\x1b\\").is_empty());
    assert!(strings(&mut framer, b"\x1bP$qm\x1a\x07").is_empty());
}

#[test]
fn an_escape_introducer_inside_the_data_opens_the_next_string() {
    let mut framer = DcsFramer::<16>::default();
    assert_eq!(
        strings(&mut framer, b"\x1bP$qab\x1bP+q54\x07"),
        vec![(13, b'q', b"54".to_vec())]
    );
}

#[test]
fn a_control_string_split_anywhere_completes_on_its_last_chunk() {
    let whole = b"x\x1bP+q544E\x1b\\y";
    for cut in 0..=whole.len() {
        let mut framer = DcsFramer::<16>::default();
        let mut found = strings(&mut framer, &whole[..cut]);
        let second = strings(&mut framer, &whole[cut..]);
        found.extend(second.into_iter().map(|(at, f, d)| (at + cut, f, d)));
        assert_eq!(found, vec![(11, b'q', b"544E".to_vec())], "cut at {cut}");
    }
}

#[test]
fn a_csi_split_anywhere_is_found_once_at_its_place() {
    let whole = b"ab\x1b[?1;2Scd\x1b[>q";
    for cut in 0..=whole.len() {
        let mut framer = Framer::default();
        let mut found: Vec<(usize, u8)> = framer
            .feed(&whole[..cut])
            .into_iter()
            .map(|f| (f.past, f.csi.final_byte))
            .collect();
        found.extend(
            framer
                .feed(&whole[cut..])
                .into_iter()
                .map(|f| (f.past + cut, f.csi.final_byte)),
        );
        assert_eq!(found, vec![(9, b'S'), (15, b'q')], "cut at {cut}");
    }
}

#[test]
fn the_csi_framer_keeps_the_marker_apart_from_the_parameters() {
    let mut framer = Framer::default();
    let found = framer.feed(b"\x1b[?25;1:2h");
    assert_eq!(found.len(), 1);
    let csi = &found[0].csi;
    assert_eq!(csi.marker, Some(b'?'));
    assert_eq!(csi.param_count(), 3);
    assert_eq!(csi.param(0), Some(25));
    assert!(csi.sub_parameters());
    assert_eq!(csi.param(5), None);
}

#[test]
fn a_parameter_past_the_u16_range_saturates() {
    let mut framer = Framer::default();
    let found = framer.feed(b"\x1b[99999;7m");
    assert_eq!(found[0].csi.param(0), Some(65535));
    assert_eq!(found[0].csi.param(1), Some(7));
}

#[test]
fn more_parameters_than_the_engine_holds_drop_the_sequence() {
    let fits = format!("\x1b[{}m", vec!["1"; MAX_PARAMS].join(";"));
    let over = format!("\x1b[{}m", vec!["1"; MAX_PARAMS + 1].join(";"));
    assert_eq!(Framer::default().feed(fits.as_bytes()).len(), 1);
    assert!(Framer::default().feed(over.as_bytes()).is_empty());
}
