use cmote::modkeys::ModKeys;
use cmote::presentation::Presentation;
use cmote::protect::Protect;
use cmote::query::{Queries, Query};
use cmote::rect::{RectExtent, RectRequest, Rectangles};

/// Feeding a stream cut at every possible place finds what feeding it whole finds.
#[test]
fn the_selective_erase_scanner_reads_a_stream_cut_anywhere_as_it_reads_it_whole() {
    let whole = b"x\x1b[1\"qName\x1b[0\"q\x1b[?2J\x1bc";
    let expected = Protect::default().feed(whole);
    assert_eq!(expected.len(), 4);
    for cut in 0..=whole.len() {
        let mut protect = Protect::default();
        let mut found = protect.feed(&whole[..cut]);
        found.extend(protect.feed(&whole[cut..]).into_iter().map(|(at, r)| (at + cut, r)));
        assert_eq!(found, expected, "cut at {cut}");
    }
}

#[test]
fn the_rectangle_scanner_reads_a_stream_cut_anywhere_as_it_reads_it_whole() {
    let whole = b"\x1b[2*x\x1b[1;1;5;5;1$r\x1bc\x1b[1;1;5;5;7$t\x1b[3$z";
    let expected = Rectangles::default().feed(whole);
    assert_eq!(expected.len(), 3);
    for cut in 0..=whole.len() {
        let mut rectangles = Rectangles::default();
        let mut found = rectangles.feed(&whole[..cut]);
        found.extend(rectangles.feed(&whole[cut..]).into_iter().map(|(at, r)| (at + cut, r)));
        assert_eq!(found, expected, "cut at {cut}");
    }
    let RectRequest::Attributes { extent, .. } = expected[0].1 else {
        panic!("the first request is an attribute change");
    };
    assert_eq!(extent, RectExtent::Rectangle);
    let RectRequest::Attributes { extent, .. } = expected[1].1 else {
        panic!("the second request is an attribute change");
    };
    assert_eq!(extent, RectExtent::Stream, "the reset in between put the extent back");
}

#[test]
fn the_query_sniffer_reads_a_stream_cut_anywhere_as_it_reads_it_whole() {
    let whole = b"\x1b[>q\x1bP$qm\x1b\\\x1b[=c\x1bP+q544E\x07";
    let expected = Queries::default().feed(whole);
    assert_eq!(expected.len(), 4);
    for cut in 0..=whole.len() {
        let mut queries = Queries::default();
        let mut found = queries.feed(&whole[..cut]);
        found.extend(queries.feed(&whole[cut..]));
        assert_eq!(found, expected, "cut at {cut}");
    }
    assert_eq!(expected[0], Query::Version);
    assert_eq!(expected[2], Query::UnitId);
}

#[test]
fn the_modify_other_keys_tracker_answers_a_stream_cut_anywhere_as_it_answers_it_whole() {
    let whole = b"\x1b[?4m\x1b[>4;2m\x1b[?4m";
    let mut once = ModKeys::default();
    let expected = once.feed(whole);
    assert_eq!(expected, b"\x1b[>4;0m\x1b[>4;2m".to_vec());
    for cut in 0..=whole.len() {
        let mut modkeys = ModKeys::default();
        let mut replies = modkeys.feed(&whole[..cut]);
        replies.extend(modkeys.feed(&whole[cut..]));
        assert_eq!(replies, expected, "cut at {cut}");
        assert_eq!(modkeys.level(), once.level());
    }
}

#[test]
fn the_presentation_scanner_reads_a_stream_cut_anywhere_as_it_reads_it_whole() {
    let whole = b"ab\x1b[1$wcd\x1b[2$w";
    let expected = Presentation::default().feed(whole);
    assert_eq!(expected.len(), 2);
    for cut in 0..=whole.len() {
        let mut scanner = Presentation::default();
        let mut found = scanner.feed(&whole[..cut]);
        found.extend(scanner.feed(&whole[cut..]).into_iter().map(|(at, r)| (at + cut, r)));
        assert_eq!(found, expected, "cut at {cut}");
    }
}
