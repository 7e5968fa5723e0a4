use cmote::notify::{refused, Refused};

#[test]
fn the_three_spellings_are_one_refusal() {
    assert_eq!(refused(b"9;Build finished"), Some(Refused::ConEmu));
    assert_eq!(
        refused(b"777;notify;Build;finished in 4s"),
        Some(Refused::Urxvt)
    );
    assert_eq!(
        refused(b"99;i=1:d=0:p=title;Build finished"),
        Some(Refused::Kitty)
    );
}

#[test]
fn the_two_osc_nine_sub_codes_cmote_reads_are_not_notifications() {
    assert_eq!(refused(b"9;4;1;30"), None);
    assert_eq!(refused(b"9;4;0"), None);
    assert_eq!(refused(b"9;9;C:\\Users\\CLEm"), None);
}

#[test]
fn the_sleep_and_the_message_box_are_refused_as_themselves() {
    assert_eq!(refused(b"9;1;500"), Some(Refused::Sleep));
    assert_eq!(refused(b"9;2;\"are you sure?\""), Some(Refused::MessageBox));
    assert_eq!(refused(b"9;1"), Some(Refused::Sleep));
    assert_eq!(refused(b"9;2"), Some(Refused::MessageBox));
}

#[test]
fn a_longer_sub_code_is_not_mistaken_for_a_shorter_one() {
    assert_eq!(refused(b"9;10;500"), Some(Refused::ConEmu));
    assert_eq!(refused(b"9;21;x"), Some(Refused::ConEmu));
    assert_eq!(
        refused(b"9;30;x"),
        Some(Refused::ConEmu),
        "not the tab text"
    );
}

#[test]
fn the_tab_text_is_not_a_notification() {
    assert_eq!(refused(b"9;3;\"build\""), None);
}

#[test]
fn the_font_is_refused_and_the_cursor_shape_on_the_same_number_is_not() {
    assert_eq!(refused(b"50;9x15bold"), Some(Refused::Font));
    assert_eq!(refused(b"50;#+1"), Some(Refused::Font), "a font-menu index");
    assert_eq!(
        refused(b"50;"),
        Some(Refused::Font),
        "an empty payload is still xterm's font namespace, and refusing it is the conservative \
         reading — the permissive one would let a payload cmote does not understand through"
    );
    assert_eq!(refused(b"50;CursorShape=1"), None);
    assert_eq!(refused(b"500;something"), None, "not a prefix match");
}

#[test]
fn the_other_font_sequence_is_the_same_refusal() {
    assert_eq!(refused(b"60;regular=IBM Plex Mono"), Some(Refused::Font));
    assert_eq!(refused(b"60"), Some(Refused::Font), "its bare query form");
    assert_eq!(refused(b"600;x"), None, "not a prefix match");
    assert_eq!(refused(b"6;x"), None, "nor read short");
}

#[test]
fn a_relaunch_specification_is_refused_in_every_operation() {
    assert_eq!(
        refused(b"88;arm;cmd=c3No;args=aG9zdA==").expect("an arm is refused"),
        Refused::Resume
    );
    assert_eq!(refused(b"88;clear"), Some(Refused::Resume));
    assert_eq!(
        refused(b"88;query"),
        Some(Refused::Resume),
        "answering 'supported' is what would bring the arm"
    );
    assert_eq!(refused(b"88"), Some(Refused::Resume));
    assert_eq!(refused(b"8;;https://example.invalid"), None);
    assert_eq!(refused(b"888;"), None);
}

#[test]
fn a_longer_osc_number_is_not_mistaken_for_a_shorter_one() {
    assert_eq!(refused(b"990;something"), None);
    assert_eq!(refused(b"999;something"), None);
    assert_eq!(refused(b"7770;notify;a"), None);
}

#[test]
fn the_other_osc_payloads_cmote_sees_every_day_are_left_alone() {
    assert_eq!(refused(b"0;a window title"), None);
    assert_eq!(refused(b"7;file:///C:/Users/CLEm"), None);
    assert_eq!(refused(b"133;A"), None);
    assert_eq!(refused(b"22;text"), None);
    assert_eq!(refused(b"1337;SetMark"), None);
    assert_eq!(refused(b"30;build"), None);
    assert_eq!(refused(b""), None);
}

#[test]
fn only_the_urxvt_notify_module_is_this_decision() {
    assert_eq!(refused(b"777;notify;title;body"), Some(Refused::Urxvt));
    assert_eq!(refused(b"777;precmd"), None);
    assert_eq!(refused(b"777;"), None);
}

#[test]
fn a_notification_with_no_text_is_still_a_notification() {
    assert_eq!(refused(b"9;"), Some(Refused::ConEmu));
    assert_eq!(refused(b"99;"), Some(Refused::Kitty));
    assert_eq!(refused(b"99"), Some(Refused::Kitty));
    assert_eq!(refused(b"777;notify"), Some(Refused::Urxvt));
}
