use cmote::lines::{history_line, page_line, scroll_delta};

#[test]
fn a_page_row_and_a_scrollback_row_number_in_opposite_directions() {
    assert_eq!(page_line(0), 0, "row 0 is the top of the page");
    assert_eq!(page_line(23), 23);
    assert_eq!(
        history_line(0),
        -1,
        "the newest scrolled-off row sits at -1, not 0"
    );
    assert_eq!(history_line(9_999), -10_000, "a full SCROLLBACK back");
    assert!(history_line(0) < page_line(0));
}

#[test]
fn a_scroll_distance_saturates_at_the_ends_of_an_i32() {
    assert_eq!(scroll_delta(0), 0);
    assert_eq!(scroll_delta(-42), -42);
    assert_eq!(scroll_delta(i64::MAX), i32::MAX);
    assert_eq!(scroll_delta(i64::MIN), i32::MIN);
    assert_eq!(scroll_delta(i64::from(i32::MAX) + 1), i32::MAX);
    assert_eq!(scroll_delta(i64::from(i32::MIN) - 1), i32::MIN);
}
