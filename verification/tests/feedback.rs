use wordle_solver::feedback::{parse_feedback, Feedback, Mark};
use wordle_solver::text::{space, trim_bounds};

#[test]
fn symbols_stand_for_marks() {
    assert_eq!(Mark::from_symbol(b'-'), Some(Mark::Absent));
    assert_eq!(Mark::from_symbol(b'+'), Some(Mark::PresentWrongPosition));
    assert_eq!(Mark::from_symbol(b'='), Some(Mark::ExactMatch));
    assert_eq!(Mark::from_symbol(b'*'), None);
    assert_eq!(Mark::from_symbol(b' '), None);
    assert_eq!(Mark::from_symbol(b'a'), None);
}

#[test]
fn five_mark_symbols_are_read_in_order() {
    assert_eq!(
        parse_feedback(b"-+=+-", false),
        Some(Feedback::Marks([
            Mark::Absent,
            Mark::PresentWrongPosition,
            Mark::ExactMatch,
            Mark::PresentWrongPosition,
            Mark::Absent,
        ]))
    );
    assert_eq!(parse_feedback(b"=====", true), Some(Feedback::Marks([Mark::ExactMatch; 5])));
    assert_eq!(parse_feedback(b"-----", true), Some(Feedback::Marks([Mark::Absent; 5])));
}

#[test]
fn whitespace_around_the_line_is_ignored() {
    let expected = Some(Feedback::Marks([Mark::PresentWrongPosition; 5]));
    assert_eq!(parse_feedback(b"+++++\n", false), expected);
    assert_eq!(parse_feedback(b"  +++++\r\n", false), expected);
    assert_eq!(parse_feedback(b"\t+++++ \x0b\x0c", false), expected);
    assert_eq!(parse_feedback(b" unknown \n", true), Some(Feedback::NotAWord));
}

#[test]
fn other_lines_are_refused() {
    assert_eq!(parse_feedback(b"", true), None);
    assert_eq!(parse_feedback(b"\n", true), None);
    assert_eq!(parse_feedback(b"====", true), None);
    assert_eq!(parse_feedback(b"======", true), None);
    assert_eq!(parse_feedback(b"==x==", true), None);
    assert_eq!(parse_feedback(b"== ==", true), None);
    assert_eq!(parse_feedback(b"= = = = =", true), None);
    assert_eq!(parse_feedback(b"Unknown", true), None);
    assert_eq!(parse_feedback(b"unknown!", true), None);
    assert_eq!(parse_feedback(b"unknow", true), None);
    assert_eq!(parse_feedback(b"un known", true), None);
}

#[test]
fn unknown_token_is_read_only_where_it_is_supported() {
    assert_eq!(parse_feedback(b"unknown", true), Some(Feedback::NotAWord));
    assert_eq!(parse_feedback(b"unknown", false), None);
}

#[test]
fn whitespace_is_space_and_tab_to_carriage_return() {
    for b in [b' ', b'\t', b'\n', 0x0b, 0x0c, b'\r'] {
        assert!(space(b));
    }
    for b in [0x00, 0x08, 0x0e, 0x1f, b'!', b'a', 0x7f, 0x85, 0xa0, 0xff] {
        assert!(!space(b));
    }
}

#[test]
fn trim_bounds_mark_what_is_left() {
    let s = b"  ab c \n";
    assert_eq!(trim_bounds(s, 0, s.len()), (2, 6));
    assert_eq!(trim_bounds(s, 3, s.len()), (3, 6));
    assert_eq!(trim_bounds(s, 0, 2), (2, 2));
    assert_eq!(trim_bounds(s, 4, 5), (5, 5));
    assert_eq!(trim_bounds(s, 2, 6), (2, 6));
    assert_eq!(trim_bounds(b"", 0, 0), (0, 0));
    assert_eq!(trim_bounds(b"   ", 0, 3), (3, 3));
}
