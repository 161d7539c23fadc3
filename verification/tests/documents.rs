use kalcite_lsp::arguments::{are_calls_closed, call_string_arguments, string_arguments};
use kalcite_lsp::bytes::{find, find_byte, joined, same_bytes, same_text, slice};
use kalcite_lsp::position::{
    byte_position, byte_range, first_range, is_range, position_offset, utf16_width, Position,
    Range,
};
use kalcite_lsp::words::{is_word_byte, word_at};

fn at(line: u32, character: u32) -> Position {
    Position { line, character }
}

fn range(start: Position, end: Position) -> Range {
    Range { start, end }
}

#[test]
fn finds_patterns_and_bytes() {
    assert_eq!(find("abcab".as_bytes(), "ab".as_bytes(), 0), Some(0));
    assert_eq!(find("abcab".as_bytes(), "ab".as_bytes(), 1), Some(3));
    assert_eq!(find("abcab".as_bytes(), "ab".as_bytes(), 4), None);
    assert_eq!(find("abc".as_bytes(), "".as_bytes(), 3), Some(3));
    assert_eq!(find("abc".as_bytes(), "".as_bytes(), 4), None);
    assert_eq!(find("ab".as_bytes(), "abc".as_bytes(), 0), None);
    assert_eq!(find_byte("a\"b\"".as_bytes(), 0x22, 2, 4), Some(3));
    assert_eq!(find_byte("a\"b\"".as_bytes(), 0x22, 2, 3), None);
}

#[test]
fn compares_and_slices_texts() {
    assert!(same_text("grün", "grün"));
    assert!(!same_text("grün", "grun"));
    assert!(same_bytes(&[1, 2], &[1, 2]));
    assert!(!same_bytes(&[1, 2], &[1]));
    assert_eq!(slice("grün", 2, 4), "ü");
    assert_eq!(slice("grün", 5, 5), "");
    assert_eq!(joined("fn ", "ready"), "fn ready");
}

#[test]
fn byte_positions_count_lines_and_code_units() {
    let text = "one\ntwö\nx";
    assert_eq!(byte_position(text, 0), at(0, 0));
    assert_eq!(byte_position(text, 3), at(0, 3));
    assert_eq!(byte_position(text, 4), at(1, 0));
    assert_eq!(byte_position(text, 8), at(1, 3));
    assert_eq!(byte_position(text, 9), at(2, 0));
    assert_eq!(byte_position(text, 10), at(2, 1));
    assert_eq!(byte_position(text, 1000), at(2, 1));
}

#[test]
fn position_offsets_stay_within_the_line() {
    let text = "one\ntwo\n\nfour";
    assert_eq!(position_offset(text, at(0, 2)), 2);
    assert_eq!(position_offset(text, at(0, 99)), 3);
    assert_eq!(position_offset(text, at(1, 1)), 5);
    assert_eq!(position_offset(text, at(2, 5)), 8);
    assert_eq!(position_offset(text, at(3, 4)), 13);
    assert_eq!(position_offset(text, at(4, 0)), 13);
    assert_eq!(position_offset(text, at(u32::MAX, 7)), 13);
    assert_eq!(position_offset("a\n", at(1, 0)), 2);
    assert_eq!(position_offset("", at(0, 3)), 0);
    assert_eq!(position_offset("wö", at(0, 2)), 3);
}

#[test]
fn positions_count_utf16_code_units() {
    assert_eq!(utf16_width('x'), 1);
    assert_eq!(utf16_width('\u{ffff}'), 1);
    assert_eq!(utf16_width('\u{10000}'), 2);
    assert_eq!(byte_position("\u{1F600}x", 4), at(0, 2));
    assert_eq!(byte_position("\u{1F600}x", 5), at(0, 3));
    assert_eq!(position_offset("\u{e9} x", at(0, 2)), 3);
    assert_eq!(position_offset("\u{1F600}x", at(0, 0)), 0);
    assert_eq!(position_offset("\u{1F600}x", at(0, 1)), 0);
    assert_eq!(position_offset("\u{1F600}x", at(0, 2)), 4);
    assert_eq!(position_offset("\u{1F600}x", at(0, 3)), 5);
    assert_eq!(position_offset("a\n\u{1F600}\u{20ac}\nb", at(1, 3)), 9);
    assert_eq!(position_offset("a\n\u{1F600}\u{20ac}\nb", at(1, 9)), 9);
}

#[test]
fn positions_give_back_their_offsets() {
    for text in ["class A {\n  var x: i16;\n}\n", "é\u{1F600}x\r\nö\u{20ac}\n\n\u{10000}"] {
        for offset in 0..text.len() + 1 {
            if text.is_char_boundary(offset) {
                assert_eq!(position_offset(text, byte_position(text, offset)), offset);
            }
        }
    }
}

#[test]
fn offsets_do_not_lie_behind_their_positions() {
    let text = "é\u{1F600}x\nö\n";
    for line in 0..4 {
        for character in 0..6 {
            let found = byte_position(text, position_offset(text, at(line, character)));
            assert!((found.line, found.character) <= (line, character));
        }
    }
}

#[test]
fn later_offsets_have_later_positions() {
    let text = "é\u{1F600}x\nö\n";
    let mut last = (0, 0);
    for offset in 0..text.len() + 3 {
        if text.is_char_boundary(offset.min(text.len())) {
            let found = byte_position(text, offset);
            assert!(last <= (found.line, found.character));
            last = (found.line, found.character);
        }
    }
    assert_eq!(last, (2, 0));
}

#[test]
fn ascii_positions_count_bytes() {
    let text = "ab\ncde";
    assert_eq!(byte_position(text, 2), at(0, 2));
    assert_eq!(byte_position(text, 3), at(1, 0));
    assert_eq!(byte_position(text, 6), at(1, 3));
}

#[test]
fn ranges_hold_at_least_one_byte() {
    let text = "ab\ncd";
    assert_eq!(byte_range(text, 0, 2), range(at(0, 0), at(0, 2)));
    assert_eq!(byte_range(text, 1, 1), range(at(0, 1), at(0, 2)));
    assert_eq!(byte_range(text, 2, 0), range(at(0, 2), at(1, 0)));
    assert_eq!(byte_range(text, 9, 9), range(at(1, 2), at(1, 2)));
    assert!(is_range(text, 1, 1));
    assert!(is_range(text, 9, 9));
    assert!(!is_range("ö", 0, 0));
    assert!(is_range("ö", 0, 2));
    assert!(!is_range("ö", usize::MAX, 0));
}

#[test]
fn the_first_range_is_the_first_line() {
    assert_eq!(first_range("one\ntwo"), range(at(0, 0), at(0, 3)));
    assert_eq!(first_range("one\r\ntwo"), range(at(0, 0), at(0, 3)));
    assert_eq!(first_range("one\r"), range(at(0, 0), at(0, 4)));
    assert_eq!(first_range("öne"), range(at(0, 0), at(0, 3)));
    assert_eq!(first_range("\nx"), range(at(0, 0), at(1, 0)));
    assert_eq!(first_range("\r\nx"), range(at(0, 0), at(0, 1)));
    assert_eq!(first_range(""), range(at(0, 0), at(0, 0)));
}

#[test]
fn words_hold_letters_digits_and_three_signs() {
    for byte in 0..=255u8 {
        let expected = byte.is_ascii_alphanumeric() || matches!(byte, b'_' | b'-' | b'.');
        assert_eq!(is_word_byte(byte), expected);
    }
}

#[test]
fn words_reach_to_both_sides_of_the_position() {
    let text = "a Draw.sprite(x_1-b) é";
    assert_eq!(word_at(text, at(0, 2)), "Draw.sprite");
    assert_eq!(word_at(text, at(0, 7)), "Draw.sprite");
    assert_eq!(word_at(text, at(0, 13)), "Draw.sprite");
    assert_eq!(word_at(text, at(0, 14)), "x_1-b");
    assert_eq!(word_at(text, at(0, 20)), "");
    assert_eq!(word_at("éab", at(0, 0)), "");
    assert_eq!(word_at("éab", at(0, 1)), "ab");
    assert_eq!(word_at("éab", at(0, 2)), "ab");
    assert_eq!(word_at("\u{1F600}ab", at(0, 1)), "");
    assert_eq!(word_at("\u{1F600}ab", at(0, 2)), "ab");
    assert_eq!(word_at("", at(3, 3)), "");
}

#[test]
fn string_arguments_stand_right_behind_the_prefix() {
    let text = "f(\"one\"); g(\"no\"); f(\"\"); f(\"ö\") f(\"open";
    assert_eq!(
        string_arguments(text, "f(\""),
        vec![("one", 3, 6), ("", 22, 22), ("ö", 29, 31)]
    );
    assert_eq!(string_arguments(text, "h(\""), vec![]);
    assert_eq!(string_arguments("a\"b\"c", ""), vec![("a", 0, 1), ("b", 2, 3)]);
}

#[test]
fn a_prefix_within_an_argument_is_passed_over() {
    assert_eq!(string_arguments("f(f(\"x\"", "f("), vec![("f(", 2, 4)]);
}

#[test]
fn call_arguments_are_limited_for_each_call() {
    let text = "g(\"a\", \"b\", \"c\"); g(1, \"ö\"); g(); g(\"open); g(\"d\")";
    assert!(are_calls_closed(text, "g("));
    assert_eq!(
        call_string_arguments(text, "g(", 2),
        vec![("a", 3, 4), ("b", 8, 9), ("ö", 24, 26), ("d", 48, 49)]
    );
    assert_eq!(
        call_string_arguments(text, "g(", 1),
        vec![("a", 3, 4), ("ö", 24, 26), ("d", 48, 49)]
    );
    assert_eq!(call_string_arguments(text, "g(", 0), vec![]);
}

#[test]
fn a_call_that_is_not_closed_is_noticed() {
    assert!(!are_calls_closed("g(\"a\"", "g("));
    assert!(!are_calls_closed("g() g(", "g("));
    assert!(are_calls_closed("g( g()", "g("));
    assert!(are_calls_closed("h(", "g("));
}

#[test]
fn positions_of_a_text_are_found_again() {
    let text = "ab\n\né\u{1F600}\n";
    for position in [at(0, 0), at(0, 2), at(1, 0), at(2, 1), at(2, 3), at(3, 0)] {
        assert_eq!(byte_position(text, position_offset(text, position)), position);
    }
    assert_eq!(byte_position(text, position_offset(text, at(2, 2))), at(2, 1));
    assert_eq!(byte_position(text, position_offset(text, at(0, 9))), at(0, 2));
    assert_eq!(byte_position(text, position_offset(text, at(9, 0))), at(3, 0));
}

#[test]
fn ranges_do_not_end_before_they_start() {
    let text = "a\nö\nb";
    for start in 0..text.len() + 2 {
        for end in 0..text.len() + 2 {
            if is_range(text, start, end) {
                let found = byte_range(text, start, end);
                let start = (found.start.line, found.start.character);
                assert!(start <= (found.end.line, found.end.character));
            }
        }
    }
}
