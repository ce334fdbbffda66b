use jrl::pager::{
    cuts_fall_on_boundaries, format_content, join_strings, parse_display_text, visible_lines,
    wrap_content,
};
use jrl::file_parsing::{answer_entry, question_entry};
use jrl::question_structs::{Question, QuestionError, RATING_QUESTION_STR};
use jrl::utility::{file_display_lines, visible_file_lines};

#[test]
fn digest_of_rating_and_other_question() {
    let content = "i: 10:00\nl: Rate your day:\na: 8\n\ni: 11:00\nl: What's nice?\na: sun".to_string();
    assert_eq!(
        format_content(&content).unwrap(),
        "rating: 10:00l: Rate your day:a: 8\n\nother questions: \n    What's nice?\n    11:00l: What's nice?a: sun\n"
    );
}

#[test]
fn digest_of_descriptions_and_notes() {
    let content = "i: 09:00\nl: Add a description about the day:\na: calm\n\ni: 09:30\nl: Add a note:\na: tea\n\ni: 10:00\nl: Add a note:\na: more\n".to_string();
    assert_eq!(
        format_content(&content).unwrap(),
        "\n\ndescription: \n    09:00l: Add a description about the day:a: calm\n\nnotes: \n    09:30l: Add a note:a: tea\n10:00l: Add a note:a: more"
    );
}

#[test]
fn digest_skips_short_questions() {
    let content = "i: 09:00\ns: Cups of tea?\na: 2\n".to_string();
    assert_eq!(format_content(&content).unwrap(), "");
    assert_eq!(format_content(&String::new()).unwrap(), "");
}

#[test]
fn digest_of_malformed_entry_is_an_error() {
    assert_eq!(format_content(&"a\n\nb".to_string()).unwrap_err(), QuestionError::ChunkFormat);
    assert_eq!(
        format_content(&"i: 1\nl: q\na: x\n\n\n".to_string()).unwrap_err(),
        QuestionError::ChunkFormat
    );
}

#[test]
fn join_puts_separator_between() {
    let v = vec!["a".to_string(), "b".to_string(), "c".to_string()];
    assert_eq!(join_strings(&v, "->"), "a->b->c");
    assert_eq!(join_strings(&vec![], "->"), "");
    assert_eq!(join_strings(&vec!["x".to_string()], "->"), "x");
}

#[test]
fn pager_wraps_words() {
    let lines = parse_display_text(&"hello world foo".to_string(), 11);
    assert_eq!(lines, vec!["hello ", "world foo ", ""]);
}

#[test]
fn pager_cuts_long_words() {
    assert_eq!(parse_display_text(&"abcdef".to_string(), 3), vec!["", "abc ", ""]);
    assert_eq!(parse_display_text(&"ab\ncd".to_string(), 80), vec!["ab ", "cd ", ""]);
    assert_eq!(parse_display_text(&String::new(), 80), vec![""]);
}

#[test]
fn file_viewer_wraps_at_the_width() {
    let lines = file_display_lines(&"hello world foo".to_string(), 11);
    assert_eq!(lines, vec!["hello world ", "foo "]);
    assert_eq!(wrap_content(&"a b".to_string(), 80, 0), vec!["a b "]);
}

#[test]
fn cuts_on_boundaries_detects_split_characters() {
    assert!(cuts_fall_on_boundaries(&"héllo".to_string(), 3));
    assert!(!cuts_fall_on_boundaries(&"héllo".to_string(), 2));
    assert!(cuts_fall_on_boundaries(&"hi".to_string(), 0));
    assert_eq!(parse_display_text(&"héllo".to_string(), 3), vec!["", "hé ", ""]);
}

#[test]
fn visible_windows() {
    let lines: Vec<String> = (0..6).map(|i| i.to_string()).collect();
    assert_eq!(visible_lines(&lines, 1, 4), vec!["1", "2"]);
    assert_eq!(visible_lines(&lines, 5, 10), vec!["5"]);
    assert!(visible_lines(&lines, 9, 10).is_empty());
    assert_eq!(visible_file_lines(&lines, 1, 4), vec!["2", "3"]);
    assert_eq!(visible_file_lines(&lines, 0, 2), Vec::<String>::new());
}

#[test]
fn wrapped_lines_fit_the_width() {
    let text = "the quick brown fox jumps over the lazy dog again and again".to_string();
    for width in 1..20u16 {
        for line in parse_display_text(&text, width) {
            assert!(line.len() <= width as usize + 1);
        }
    }
}

#[test]
fn recorded_entries_show_in_digest() {
    let rating = Question::from(format!("l: {}", RATING_QUESTION_STR));
    let text = question_entry(&rating, 20, 0) + &answer_entry(&"9".to_string());
    assert_eq!(format_content(&text).unwrap(), "rating: 20:00l: Rate your day:a: 9");
    let other = Question::from("l: Best moment?".to_string());
    let text = question_entry(&other, 8, 30) + &answer_entry(&"coffee".to_string());
    assert_eq!(
        format_content(&text).unwrap(),
        "\n\nother questions: \n    Best moment?\n    08:30l: Best moment?a: coffee\n"
    );
    let short = Question::from("s: Cups of tea?".to_string());
    let text = question_entry(&short, 8, 30) + &answer_entry(&"2".to_string());
    assert_eq!(format_content(&text).unwrap(), "");
}

#[test]
fn windows_past_the_end_need_no_height() {
    assert!(visible_lines(&Vec::new(), 0, 0).is_empty());
    let lines = vec!["a".to_string(), "b".to_string()];
    assert!(visible_lines(&lines, 2, 0).is_empty());
    assert!(visible_file_lines(&lines, 1, 0).is_empty());
    assert!(visible_file_lines(&lines, 5, 1).is_empty());
}

#[test]
fn closing_blank_line_keeps_the_digest() {
    for content in [
        "i: 10:00\nl: Rate your day:\na: 8",
        "i: 10:00\nl: What's nice?\na: sun\n\ni: 11:00\ns: Tea?\na: 2",
        "a\n\nb",
    ] {
        let closed = format!("{}\n\n", content);
        assert_eq!(format_content(&closed.to_string()), format_content(&content.to_string()));
    }
}

#[test]
fn lines_are_laid_out_each_on_their_own() {
    let a = "hello world foo".to_string();
    let b = "bar baz\nqux".to_string();
    let joined = format!("{}\n{}", a, b);
    for width in [3u16, 7, 11, 80] {
        let va = parse_display_text(&a, width);
        let vb = parse_display_text(&b, width);
        let expected = [&va[..va.len() - 1], &vb[..]].concat();
        assert_eq!(parse_display_text(&joined, width), expected);
    }
}
