use cmote::osc133::Mark;
use cmote::protect::{Erase, Extent, Request};
use cmote::rect::{Corners, RectRequest};
use cmote::scanned::{interruptions, Interruption, Scanned};

fn empty() -> Scanned {
    Scanned {
        marks: Vec::new(),
        bookmarks: Vec::new(),
        protections: Vec::new(),
        rectangles: Vec::new(),
        tab_resets: Vec::new(),
    }
}

#[test]
fn a_chunk_with_nothing_in_it_is_empty() {
    assert!(empty().is_empty());
    let scanned = Scanned {
        tab_resets: vec![3],
        ..empty()
    };
    assert!(!scanned.is_empty());
}

#[test]
fn events_of_every_kind_come_out_in_offset_order() {
    let corners = Corners {
        top: 1,
        left: 1,
        bottom: 2,
        right: 2,
    };
    let scanned = Scanned {
        marks: vec![(4, Mark::PromptStart), (20, Mark::OutputStart)],
        bookmarks: vec![9],
        protections: vec![(2, Request::Protect(true))],
        rectangles: vec![(15, RectRequest::Erase(corners))],
        tab_resets: vec![1],
    };
    assert_eq!(
        interruptions(scanned),
        vec![
            (1, Interruption::TabStops),
            (2, Interruption::Protect(Request::Protect(true))),
            (4, Interruption::Prompt(Mark::PromptStart)),
            (9, Interruption::UserMark),
            (15, Interruption::Rect(RectRequest::Erase(corners))),
            (20, Interruption::Prompt(Mark::OutputStart)),
        ]
    );
}

#[test]
fn events_at_one_offset_keep_the_order_they_were_scanned_in() {
    let erase = Request::Erase(Erase::Display(Extent::All));
    let scanned = Scanned {
        marks: vec![(7, Mark::PromptStart)],
        bookmarks: vec![7],
        protections: vec![(7, erase)],
        rectangles: Vec::new(),
        tab_resets: vec![7],
    };
    assert_eq!(
        interruptions(scanned),
        vec![
            (7, Interruption::Prompt(Mark::PromptStart)),
            (7, Interruption::UserMark),
            (7, Interruption::Protect(erase)),
            (7, Interruption::TabStops),
        ]
    );
}

#[test]
fn a_list_that_arrives_out_of_order_is_still_sorted() {
    let scanned = Scanned {
        bookmarks: vec![30, 10, 20],
        ..empty()
    };
    let offsets: Vec<usize> = interruptions(scanned).into_iter().map(|(at, _)| at).collect();
    assert_eq!(offsets, vec![10, 20, 30]);
}
