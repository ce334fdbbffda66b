use jrl::question_structs::{
    ChunkParser, Informative, LongQuesitonType, Question, QuestionChunk, QuestionError,
    QuestionType, DESCRIPTION_QUESTION_STR, NOTE_QUESTION_STR, RATING_QUESTION_STR,
};

fn q(s: &str) -> Question {
    Question::from(s.to_string())
}

#[test]
fn long_question_reads_kind_and_text() {
    let question = q("l: What's a nice thing from today?");
    assert_eq!(question.get_type().unwrap(), QuestionType::Long);
    assert_eq!(question.get_type_as_str().unwrap(), "l");
    assert_eq!(question.get_text().unwrap(), "What's a nice thing from today?");
    assert!(question.is_question().unwrap());
}

#[test]
fn each_kind_letter_is_recognised() {
    assert_eq!(q("s: Hours of sleep?").get_type().unwrap(), QuestionType::Short);
    assert_eq!(q("a: 7").get_type().unwrap(), QuestionType::Answer);
    assert_eq!(q("i: 10:30").get_type().unwrap(), QuestionType::Info);
    assert_eq!(q("l: x").get_type().unwrap(), QuestionType::Long);
}

#[test]
fn lines_without_kind_are_empty() {
    for text in ["", "l", "l:", "l:x", "x: foo", "é: x", "ll: x", " l: x"] {
        let question = q(text);
        assert_eq!(question.get_type().unwrap(), QuestionType::Empty, "{:?}", text);
        assert_eq!(question.get_text().unwrap(), "", "{:?}", text);
        assert!(!question.is_question().unwrap());
    }
}

#[test]
fn kind_string_needs_only_the_marker() {
    assert_eq!(q("x: foo").get_type_as_str().unwrap(), "x");
    assert_eq!(q("no marker").get_type_as_str().unwrap(), "");
    assert_eq!(q("l: ").get_type_as_str().unwrap(), "l");
    assert_eq!(q("l: ").get_text().unwrap(), "");
}

#[test]
fn text_keeps_unicode_after_the_marker() {
    let question = q("s: Café ☕ count?");
    assert_eq!(question.get_text().unwrap(), "Café ☕ count?");
}

#[test]
fn long_kinds_follow_the_prompts() {
    assert_eq!(
        q(&format!("l: {}", DESCRIPTION_QUESTION_STR)).get_long_type().unwrap(),
        LongQuesitonType::Description
    );
    assert_eq!(
        q(&format!("l: {}", NOTE_QUESTION_STR)).get_long_type().unwrap(),
        LongQuesitonType::Note
    );
    assert_eq!(
        q(&format!("l: {}", RATING_QUESTION_STR)).get_long_type().unwrap(),
        LongQuesitonType::Rating
    );
    assert_eq!(q("l: Anything else?").get_long_type().unwrap(), LongQuesitonType::Regular);
}

#[test]
fn long_kind_of_a_short_question_is_an_error() {
    let err = q("s: Cups of tea?").get_long_type().unwrap_err();
    assert_eq!(err, QuestionError::NotLong);
    assert_eq!(err.message(), "cannot get long type on questions that are not of type long");
    assert_eq!(q("plain").get_long_type().unwrap_err(), QuestionError::NotLong);
}

#[test]
fn default_question_is_empty() {
    let question = Question::default();
    assert_eq!(question.question, "");
    assert!(!question.is_question().unwrap());
    assert!(question == Question::from(String::new()));
    assert!(question != q("l: x"));
    assert_eq!(q("l: x").to_string(), "l: x");
}

fn chunk(s: &str) -> QuestionChunk {
    QuestionChunk::from(s.to_string())
}

#[test]
fn chunk_lines_are_read() {
    let c = chunk("i: 10:30\nl: How was it?\na: Fine\n");
    assert_eq!(c.get_informative().unwrap().question, "i: 10:30");
    assert_eq!(c.get_question().unwrap().question, "l: How was it?");
    assert_eq!(c.get_answer().unwrap().question, "i: 10:30l: How was it?a: Fine");
}

#[test]
fn chunk_lines_drop_carriage_returns() {
    let c = chunk("i: 10:30\r\nl: Q\r\na: A\r");
    assert_eq!(c.get_informative().unwrap().question, "i: 10:30");
    assert_eq!(c.get_question().unwrap().question, "l: Q");
    assert_eq!(c.get_answer().unwrap().question, "i: 10:30l: Qa: A\r");
}

#[test]
fn short_chunk_is_a_format_error() {
    let c = chunk("i: 10:30\nl: Q\n");
    assert_eq!(c.get_informative().unwrap_err(), QuestionError::ChunkFormat);
    assert_eq!(c.get_question().unwrap_err(), QuestionError::ChunkFormat);
    assert_eq!(c.get_answer().unwrap_err(), QuestionError::ChunkFormat);
    assert_eq!(
        QuestionError::ChunkFormat.message(),
        "question chunk does not fit the format"
    );
    assert_eq!(chunk("").get_answer().unwrap_err(), QuestionError::ChunkFormat);
}

#[test]
fn question_line_round_trip() {
    for text in ["l: A long one", "s: short", "a: ", "i: 12:00"] {
        let question = q(text);
        let rebuilt = format!(
            "{}: {}",
            question.get_type_as_str().unwrap(),
            question.get_text().unwrap()
        );
        assert_eq!(rebuilt, text);
    }
}

#[test]
fn marker_after_a_wide_character_is_no_marker() {
    let question = q("é: foo");
    assert_eq!(question.get_type_as_str().unwrap(), "");
    assert_eq!(question.get_type().unwrap(), QuestionType::Empty);
    assert_eq!(question.get_text().unwrap(), "");
}
