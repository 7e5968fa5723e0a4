use cmote::modkeys::{ModKeys, ModifyOtherKeys};

const OTHER_RESOURCES: [u16; 6] = [0, 1, 2, 3, 6, 7];

fn track(bytes: &[u8]) -> ModifyOtherKeys {
    let mut modkeys = ModKeys::default();
    modkeys.feed(bytes);
    modkeys.level()
}

#[test]
fn the_default_level_is_off() {
    assert_eq!(ModKeys::default().level(), ModifyOtherKeys::Off);
}

#[test]
fn level_two_is_recognised() {
    assert_eq!(track(b"\x1b[>4;2m"), ModifyOtherKeys::Level2);
}

#[test]
fn level_one_is_recognised() {
    assert_eq!(track(b"\x1b[>4;1m"), ModifyOtherKeys::Level1);
}

#[test]
fn the_mode_can_be_turned_back_off() {
    let mut modkeys = ModKeys::default();
    modkeys.feed(b"\x1b[>4;2m");
    modkeys.feed(b"\x1b[>4;0m");
    assert_eq!(modkeys.level(), ModifyOtherKeys::Off);
    modkeys.feed(b"\x1b[>4;2m");
    modkeys.feed(b"\x1b[>4m");
    assert_eq!(modkeys.level(), ModifyOtherKeys::Off);
}

#[test]
fn another_xtmodkeys_resource_is_ignored() {
    let mut modkeys = ModKeys::default();
    modkeys.feed(b"\x1b[>4;2m");
    modkeys.feed(b"\x1b[>1;2m");
    assert_eq!(modkeys.level(), ModifyOtherKeys::Level2);
}

#[test]
fn modkeys_a_sequence_split_across_chunks_is_still_read() {
    let mut modkeys = ModKeys::default();
    modkeys.feed(b"text\x1b[>4;");
    modkeys.feed(b"2mmore");
    assert_eq!(modkeys.level(), ModifyOtherKeys::Level2);
}

#[test]
fn surrounding_output_does_not_confuse_the_scanner() {
    assert_eq!(track(b"hi\x1b[>4;2mbye"), ModifyOtherKeys::Level2);
}

#[test]
fn an_ordinary_csi_does_not_trigger_the_mode() {
    assert_eq!(track(b"\x1b[31mred\x1b[0m"), ModifyOtherKeys::Off);
}

#[test]
fn a_value_above_two_clamps_to_level_two() {
    assert_eq!(track(b"\x1b[>4;9m"), ModifyOtherKeys::Level2);
}

fn ask(bytes: &[u8]) -> Vec<u8> {
    let mut modkeys = ModKeys::default();
    modkeys.feed(bytes)
}

#[test]
fn a_question_is_answered_in_the_set_form() {
    assert_eq!(ask(b"\x1b[?4m"), b"\x1b[>4;0m".to_vec());
    assert_eq!(ask(b"\x1b[>4;2m\x1b[?4m"), b"\x1b[>4;2m".to_vec());
    assert_eq!(ask(b"\x1b[>4;1m\x1b[?4m"), b"\x1b[>4;1m".to_vec());
}

#[test]
fn the_answer_is_the_level_where_the_question_sat() {
    assert_eq!(ask(b"\x1b[>4;2m\x1b[?4m"), b"\x1b[>4;2m".to_vec());
    assert_eq!(ask(b"\x1b[?4m\x1b[>4;2m"), b"\x1b[>4;0m".to_vec());
}

#[test]
fn a_question_about_another_resource_goes_unanswered() {
    for resource in OTHER_RESOURCES {
        let question = format!("\x1b[?{resource}m").into_bytes();
        assert!(
            ask(&question).is_empty(),
            "resource {resource} is not cmote's to report"
        );
    }
    assert!(ask(b"\x1b[?m").is_empty());
    assert_eq!(ask(b"\x1b[?4m"), b"\x1b[>4;0m".to_vec());
}

#[test]
fn setting_another_resource_never_moves_our_level() {
    for resource in OTHER_RESOURCES {
        for value in [1, 2] {
            let mut modkeys = ModKeys::default();
            modkeys.feed(format!("\x1b[>{resource};{value}m").as_bytes());
            assert_eq!(
                modkeys.level(),
                ModifyOtherKeys::Off,
                "resource {resource} set to {value} moved modifyOtherKeys"
            );
        }
    }
}

#[test]
fn a_second_parameter_makes_it_someone_elses_sequence() {
    assert!(ask(b"\x1b[?4;1m").is_empty());
}

#[test]
fn a_private_mode_is_not_mistaken_for_a_question() {
    assert!(ask(b"\x1b[?1049h\x1b[?2004h\x1b[?25l\x1b[?1000;1006h").is_empty());
    let mut modkeys = ModKeys::default();
    modkeys.feed(b"\x1b[>4;2m\x1b[?4m");
    assert_eq!(modkeys.level(), ModifyOtherKeys::Level2);
}

#[test]
fn a_question_split_across_chunks_is_still_answered() {
    let mut modkeys = ModKeys::default();
    assert!(modkeys.feed(b"\x1b[>4;2mtext\x1b[?").is_empty());
    assert_eq!(modkeys.feed(b"4mmore"), b"\x1b[>4;2m".to_vec());
}

#[test]
fn ordinary_output_owes_nothing() {
    assert!(ask(b"\x1b[31mred\x1b[0m\x1b[2J\x1b[1;1Hhello").is_empty());
}

#[test]
fn a_byte_the_engine_reads_through_does_not_abandon_the_sequence() {
    assert_eq!(track(b"\x1b[>4;\n2m"), ModifyOtherKeys::Level2);
    assert_eq!(ask(b"\x1b[?\x7f4m"), b"\x1b[>4;0m".to_vec());
    assert_eq!(track(b"\x1b[>4;\x182m"), ModifyOtherKeys::Off);
    assert!(ask(b"\x1b[?4\x1am").is_empty());
}

#[test]
fn an_intermediate_byte_rules_both_out() {
    assert_eq!(track(b"\x1b[>4;2 m"), ModifyOtherKeys::Off);
    assert!(ask(b"\x1b[?4 m").is_empty());
}

#[test]
fn modkeys_the_two_parameter_bounds_answer_differently() {
    let list = |fields: usize| {
        let params = std::iter::once("4")
            .chain(std::iter::repeat_n("2", fields - 1))
            .collect::<Vec<_>>()
            .join(";");
        format!("\x1b[>{params}m").into_bytes()
    };
    let bound = cmote::csi::MAX_PARAMS;
    assert_eq!(
        track(&list(bound)),
        ModifyOtherKeys::Level2,
        "thirty-two parameters still fit"
    );
    assert_eq!(
        track(&list(bound + 1)),
        ModifyOtherKeys::Off,
        "thirty-three do not"
    );

    let mut digits = b"\x1b[>".to_vec();
    digits.extend(std::iter::repeat_n(b'4', 500));
    digits.extend_from_slice(b";2m");
    assert_eq!(track(&digits), ModifyOtherKeys::Off);
}

#[test]
fn a_sub_parameter_is_not_this_sequence() {
    assert_eq!(track(b"\x1b[>4:2m"), ModifyOtherKeys::Off);
    assert!(ask(b"\x1b[?4:1m").is_empty());
    assert_eq!(track(b"\x1b[>4;2m"), ModifyOtherKeys::Level2);
}

#[test]
fn a_trailing_separator_is_a_second_parameter() {
    assert!(ask(b"\x1b[?4;m").is_empty());
    assert_eq!(ask(b"\x1b[?4m"), b"\x1b[>4;0m".to_vec(), "one is ours");
}

#[test]
fn leading_zeros_still_name_resource_four() {
    assert_eq!(track(b"\x1b[>0004;0002m"), ModifyOtherKeys::Level2);
    assert_eq!(ask(b"\x1b[?004m"), b"\x1b[>4;0m".to_vec());
}
