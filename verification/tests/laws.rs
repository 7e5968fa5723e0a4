use cmote::mouse::{encode, Button, Modifiers, MouseEncoding, MouseEvent, MouseMode, Position};
use cmote::modkeys::{ModKeys, ModifyOtherKeys};
use cmote::osc::Framer;
use cmote::osc133::{CommandState, Mark, Prompts};
use cmote::pointer::{Pointer, Shape};
use cmote::progress::{Progress, Reports};
use cmote::protect::{Protect, Request};
use cmote::query::{gettcap_reply, with_sixel_attribute};
use cmote::rect::{changes, reversals, AttributeChange, Checksum, Unscrolled, BOLD};
use cmote::text::sanitize_title;

#[test]
fn an_attribute_change_moves_only_the_four_attribute_bits() {
    // The high nibble stands for the engine's other flags; no selector list may reach it.
    let other = 0b1010_0000u8;
    assert_eq!(changes(&[0]).apply(other | 0b1111), other);
    assert_eq!(changes(&[1, 4, 5, 7]).apply(other), other | 0b1111);
    assert_eq!(reversals(&[0]).apply(other | BOLD), other | 0b1110);
    assert_eq!(AttributeChange::default().apply(0xff), 0xff);
}

#[test]
fn a_filled_unscroll_keeps_every_recorded_line() {
    let mut prompts = Prompts::default();
    // Lines 5 and 6 sit on the page's first two rows; unscrolling two lines the scrollback can
    // fill moves the page down over them without changing either number.
    prompts.apply(Mark::PromptStart, 5, 0);
    prompts.apply(Mark::PromptStart, 5, 1);
    let moved = Unscrolled::new(5, 4, 2, 2);
    prompts.renumber(|line| moved.map(line));
    assert_eq!(prompts.visible_rows(3, 0, 4), vec![2, 3]);
}

#[test]
fn a_redrawn_prompt_applied_twice_is_one_prompt() {
    let mut prompts = Prompts::default();
    prompts.apply(Mark::PromptStart, 0, 7);
    prompts.apply(Mark::PromptStart, 0, 7);
    prompts.apply(Mark::PromptStart, 0, 7);
    assert_eq!(prompts.visible_rows(0, 0, 24), vec![7]);
}

#[test]
fn a_blank_rectangle_checksums_as_one_space() {
    let mut checksum = Checksum::default();
    checksum.cell(0x20);
    checksum.cell(0x20);
    checksum.cell(0x20);
    assert_eq!(checksum.finish(), 0xffe0);
}

#[test]
fn a_refused_pointer_shape_leaves_the_one_set() {
    let mut pointer = Pointer::default();
    pointer.feed(b"\x1b]22;cell\x07");
    pointer.feed(b"\x1b]22;grab\x07\x1b]22;TEXT\x07\x1b]2;text\x07");
    assert_eq!(pointer.shape(), Shape::Cell);
}

#[test]
fn a_refused_notification_leaves_the_bar_alone() {
    let mut reports = Reports::default();
    reports.feed(b"\x1b]9;4;1;25\x07");
    reports.feed(b"\x1b]9;Build done\x07\x1b]777;notify;a;b\x07\x1b]9;4;9\x07");
    assert_eq!(reports.current(), Progress::Working(25));
}

#[test]
fn no_mouse_report_until_a_program_asks() {
    let at = Position {
        row: 1,
        col: 2,
        x: 16,
        y: 17,
    };
    let held = Modifiers {
        shift: true,
        alt: false,
        control: true,
    };
    for encoding in [
        MouseEncoding::Default,
        MouseEncoding::Utf8,
        MouseEncoding::Sgr,
        MouseEncoding::SgrPixels,
    ] {
        for event in [
            MouseEvent::Press(Button::Right),
            MouseEvent::Release(Button::Right),
            MouseEvent::Motion(None),
        ] {
            assert_eq!(encode(MouseMode::Off, encoding, event, at, held), None);
        }
    }
    assert_eq!(
        encode(
            MouseMode::AnyMotion,
            MouseEncoding::Sgr,
            MouseEvent::Motion(None),
            at,
            held
        ),
        Some(b"\x1b[<55;3;2M".to_vec()),
        "no button is 3, a move adds 32, shift 4 and control 16"
    );
}

#[test]
fn a_utf8_report_past_the_surrogates_cannot_be_written() {
    // A column whose code point would land in the surrogate block has no UTF-8 spelling.
    let at = Position {
        row: 0,
        col: 0xd800 - 32 - 1,
        x: 0,
        y: 0,
    };
    let none = Modifiers::default();
    assert_eq!(
        encode(
            MouseMode::PressRelease,
            MouseEncoding::Utf8,
            MouseEvent::Press(Button::Left),
            at,
            none
        ),
        None
    );
}

#[test]
fn a_capability_name_round_trips_through_its_hex() {
    // `colors` (636F6C6F7273) decodes, is known, and is spelled back in canonical hex.
    assert_eq!(
        gettcap_reply(&[b"636f6c6f7273".to_vec()]),
        b"\x1bP1+r636F6C6F7273=323536\x1b\\".to_vec()
    );
    // Odd-length and non-hex names are echoed as asked.
    assert_eq!(
        gettcap_reply(&[b"544".to_vec(), b"5G".to_vec()]),
        b"\x1bP0+r544\x1b\\\x1bP0+r5G\x1b\\".to_vec()
    );
}

#[test]
fn replies_with_no_da1_pass_through_unchanged() {
    let replies = b"\x1b[0n\x1b[12;40R\x1b[>0;10;1c".to_vec();
    assert_eq!(with_sixel_attribute(replies.clone()), replies);
}

#[test]
fn a_title_loses_its_control_characters_and_nothing_else() {
    assert_eq!(sanitize_title("build\n\x1b[31mfailed\t\u{85}"), "build[31mfailed");
    assert_eq!(sanitize_title("naïve — ok"), "naïve — ok");
}

#[test]
fn a_first_parameter_closed_by_a_colon_is_no_number() {
    let mut protect = Protect::default();
    assert_eq!(
        protect.feed(b"\x1b[1:2\"q"),
        vec![(7, Request::Protect(false))]
    );
    assert!(!protect.armed());
    assert!(protect.feed(b"\x1b[?2:1J").is_empty());
    // A sub-parameter after the first field leaves the first one a plain number.
    assert_eq!(
        protect.feed(b"\x1b[1;2:3\"q"),
        vec![(9, Request::Protect(true))]
    );
}

#[test]
fn amending_replies_twice_says_sixel_once() {
    for replies in [
        b"\x1b[?6c".to_vec(),
        b"\x1b[?\x1b[?62;1c\x1b[0n".to_vec(),
        b"\x1b[?1;2\x1b[?6cx".to_vec(),
        b"\x1b[?62;14c".to_vec(),
    ] {
        let once = with_sixel_attribute(replies);
        assert_eq!(with_sixel_attribute(once.clone()), once);
    }
    assert_eq!(
        with_sixel_attribute(b"\x1b[?1;2\x1b[?6cx".to_vec()),
        b"\x1b[?1;2\x1b[?6;4cx".to_vec()
    );
}

#[test]
fn osc_payloads_stay_under_the_cap_and_free_of_controls() {
    let mut framer: Framer<4> = Framer::new();
    // A dropped control inside the first payload, a second payload past the cap, a third ended
    // by ESC backslash.
    let found = framer.feed(b"\x1b]ab\x01c\x07\x1b]abcdefg\x07\x1b]xy\x1b\\");
    let got: Vec<(usize, Vec<u8>)> = found.iter().map(|s| (s.end, s.payload.clone())).collect();
    assert_eq!(got, vec![(7, b"abc".to_vec()), (23, b"xy".to_vec())]);
    for s in &found {
        assert!(s.payload.len() <= 4);
        assert!(s.payload.iter().all(|&b| b >= 0x20));
    }
    assert!(found.windows(2).all(|w| w[0].end < w[1].end));
}

#[test]
fn a_modify_other_keys_set_sequence_selects_the_level_and_answers_nothing() {
    let mut modkeys = ModKeys::default();
    let cases: [(&[u8], ModifyOtherKeys); 9] = [
        (b"\x1b[>4;1m", ModifyOtherKeys::Level1),
        (b"\x1b[>4;2m", ModifyOtherKeys::Level2),
        (b"\x1b[>5;1m", ModifyOtherKeys::Level2),
        (b"\x1b[>4;0m", ModifyOtherKeys::Off),
        (b"\x1b[>04;01m", ModifyOtherKeys::Level1),
        (b"\x1b[>4;m", ModifyOtherKeys::Off),
        (b"\x1b[>4;65535m", ModifyOtherKeys::Level2),
        (b"\x1b[>4m", ModifyOtherKeys::Off),
        (b"\x1b[>70000;1m", ModifyOtherKeys::Off),
    ];
    for (bytes, level) in cases {
        assert!(modkeys.feed(bytes).is_empty());
        assert_eq!(modkeys.level(), level);
    }
    // From the middle of another sequence, the ESC starts over.
    modkeys.feed(b"\x1b[12");
    assert!(modkeys.feed(b"\x1b[>4;2m").is_empty());
    assert_eq!(modkeys.level(), ModifyOtherKeys::Level2);
}

#[test]
fn each_mark_moves_the_command_cycle_and_only_the_end_sets_the_exit() {
    let mut prompts = Prompts::default();
    assert_eq!(prompts.state(), CommandState::Idle);
    prompts.apply(Mark::CommandEnd(Some(3)), 0, 0);
    assert_eq!((prompts.state(), prompts.last_exit()), (CommandState::Idle, Some(3)));
    prompts.apply(Mark::PromptStart, 0, 1);
    assert_eq!((prompts.state(), prompts.last_exit()), (CommandState::Prompt, Some(3)));
    prompts.apply(Mark::PromptEnd, 0, 1);
    assert_eq!((prompts.state(), prompts.last_exit()), (CommandState::Prompt, Some(3)));
    prompts.apply(Mark::OutputStart, 0, 2);
    assert_eq!((prompts.state(), prompts.last_exit()), (CommandState::Running, Some(3)));
    prompts.apply(Mark::PromptEnd, 0, 2);
    assert_eq!((prompts.state(), prompts.last_exit()), (CommandState::Running, Some(3)));
    prompts.apply(Mark::CommandEnd(None), 0, 5);
    assert_eq!((prompts.state(), prompts.last_exit()), (CommandState::Idle, None));
}

#[test]
fn an_unscroll_that_moves_nothing_only_restarts_the_walk() {
    let mut prompts = Prompts::default();
    for (first, second) in [(0u16, 1u16), (4, 5)] {
        prompts.apply(Mark::PromptStart, 10, first);
        prompts.apply(Mark::OutputStart, 10, second);
        prompts.apply(Mark::CommandEnd(Some(0)), 10, second + 2);
    }
    prompts.record_user_mark(10, 7);
    prompts.apply(Mark::PromptStart, 10, 8);
    let newest = prompts.walk_output();
    assert!(newest.is_some());
    let older = prompts.walk_output();
    assert_ne!(older, newest);
    let rows = prompts.visible_rows(10, 0, 24);
    let bookmarks = prompts.visible_user_rows(10, 0, 24);
    let state = (prompts.state(), prompts.last_exit());
    prompts.renumber(|line| Some(line));
    assert_eq!(prompts.visible_rows(10, 0, 24), rows);
    assert_eq!(prompts.visible_user_rows(10, 0, 24), bookmarks);
    assert_eq!((prompts.state(), prompts.last_exit()), state);
    assert_eq!(prompts.walk_output(), newest);
    assert_eq!(prompts.walk_output(), older);
}

#[test]
fn renumbering_carries_every_line_through_any_remap() {
    let mut prompts = Prompts::default();
    prompts.apply(Mark::PromptStart, 0, 2);
    prompts.apply(Mark::OutputStart, 0, 4);
    prompts.apply(Mark::CommandEnd(Some(1)), 0, 6);
    prompts.apply(Mark::PromptStart, 0, 3);
    prompts.apply(Mark::PromptStart, 0, 7);
    prompts.apply(Mark::OutputStart, 0, 9);
    prompts.apply(Mark::CommandEnd(None), 0, 12);
    prompts.record_user_mark(0, 8);
    prompts.record_user_mark(0, 5);
    prompts.apply(Mark::PromptStart, 0, 10);
    prompts.apply(Mark::OutputStart, 0, 11);
    // Even lines double, odd lines are gone: the second span and the command in flight each hold
    // an odd line, so both go whole.
    prompts.renumber(|line| if line % 2 == 0 { Some(line * 2) } else { None });
    assert_eq!(prompts.visible_rows(0, 0, 100), vec![4, 20]);
    assert_eq!(prompts.visible_user_rows(0, 0, 100), vec![16]);
    assert_eq!(prompts.walk_output(), Some((8, 12)));
    assert_eq!(prompts.walk_output(), None);
    assert_eq!((prompts.state(), prompts.last_exit()), (CommandState::Running, None));
}

#[test]
fn the_identity_remap_keeps_even_the_last_line() {
    let mut prompts = Prompts::default();
    prompts.apply(Mark::PromptStart, usize::MAX, 0);
    let before = prompts.visible_rows(usize::MAX, 0, 1);
    assert_eq!(before, vec![0]);
    prompts.renumber(|line| Some(line));
    assert_eq!(prompts.visible_rows(usize::MAX, 0, 1), before);
}
