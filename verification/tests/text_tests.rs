use jrl::text::{split_pieces, strip_carriage_return, text_lines_of};

#[test]
fn split_keeps_every_piece() {
    assert_eq!(split_pieces("a\n\nb\n", '\n'), vec!["a", "", "b", ""]);
    assert_eq!(split_pieces("", '\n'), vec![""]);
    assert_eq!(split_pieces("one two", ' '), vec!["one", "two"]);
    assert_eq!(split_pieces(" x ", ' '), vec!["", "x", ""]);
}

#[test]
fn lines_match_std_lines() {
    for text in ["", "a", "a\n", "a\n\nb\n", "a\r\nb\r", "\n", "\n\n", "x\r\n\r\ny", "é\nü"] {
        let expected: Vec<String> = text.lines().map(|l| l.to_string()).collect();
        assert_eq!(text_lines_of(text), expected, "{:?}", text);
    }
}

#[test]
fn split_matches_std_split() {
    for text in ["", "a", "a\n", "a\n\nb\n", "\n", "é\nü\n"] {
        let expected: Vec<String> = text.split('\n').map(|l| l.to_string()).collect();
        assert_eq!(split_pieces(text, '\n'), expected, "{:?}", text);
    }
}

#[test]
fn strip_removes_one_carriage_return() {
    assert_eq!(strip_carriage_return(&"a\r\r".to_string()), "a\r");
    assert_eq!(strip_carriage_return(&"a".to_string()), "a");
    assert_eq!(strip_carriage_return(&String::new()), "");
}
