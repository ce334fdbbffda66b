use jrl::file_parsing::{
    answer_entry, contains_question, get_question, get_question_vector,
    get_unasked_question_vector, is_today_entry, jumbled_questions, question_entry,
    question_entry_now, question_lines, questions_file_content, unasked_questions,
};
use jrl::question_structs::{ChunkParser, Informative, Question, QuestionChunk, QuestionType};

const QUESTIONS: &str = "s: Number of coffees?\ns: Hours of sleep?\n\nl: What's a nice thing from today?\nl: What's an upsetting thing from today?\n";

fn texts(v: &[Question]) -> Vec<String> {
    v.iter().map(|q| q.question.clone()).collect()
}

#[test]
fn questions_of_a_kind_in_order() {
    assert_eq!(
        texts(&get_question_vector(QUESTIONS, &QuestionType::Short)),
        vec!["s: Number of coffees?", "s: Hours of sleep?"]
    );
    assert_eq!(
        texts(&get_question_vector(QUESTIONS, &QuestionType::Long)),
        vec!["l: What's a nice thing from today?", "l: What's an upsetting thing from today?"]
    );
    assert!(get_question_vector(QUESTIONS, &QuestionType::Answer).is_empty());
    assert_eq!(get_question_vector(QUESTIONS, &QuestionType::Empty).len(), 2);
}

#[test]
fn unasked_questions_leave_out_asked_ones() {
    let asked = vec![Question::from("s: Hours of sleep?".to_string())];
    assert_eq!(
        texts(&get_unasked_question_vector(QUESTIONS, &QuestionType::Short, asked)),
        vec!["s: Number of coffees?"]
    );
    let today = "i: 08:00\ns: Number of coffees?\na: 2\n";
    assert_eq!(
        texts(&unasked_questions(QUESTIONS, today, &QuestionType::Short)),
        vec!["s: Hours of sleep?"]
    );
}

#[test]
fn contains_compares_text() {
    let v = vec![Question::from("a".to_string()), Question::from("b".to_string())];
    assert!(contains_question(&v, &Question::from("b".to_string())));
    assert!(!contains_question(&v, &Question::from("c".to_string())));
}

#[test]
fn question_lines_skip_lines_without_kind() {
    assert_eq!(question_lines(QUESTIONS).len(), 4);
    assert!(question_lines("hello\n\n").is_empty());
}

#[test]
fn jumbled_questions_are_a_permutation() {
    let mut got = texts(&jumbled_questions(QUESTIONS));
    let mut expected = texts(&question_lines(QUESTIONS));
    got.sort();
    expected.sort();
    assert_eq!(got, expected);
}

#[test]
fn questions_file_round_trip() {
    let questions = jumbled_questions(QUESTIONS);
    let content = questions_file_content(&questions);
    assert!(content.ends_with('\n'));
    assert_eq!(texts(&question_lines(&content)), texts(&questions));
    assert_eq!(
        questions_file_content(&vec![Question::from("l: a".to_string())]),
        "l: a\n"
    );
    assert_eq!(questions_file_content(&vec![]), "");
}

#[test]
fn get_question_without_kind_is_empty() {
    assert_eq!(get_question(QUESTIONS, "", None).question, "");
}

#[test]
fn get_question_picks_an_unasked_one() {
    let today = "i: 08:00\ns: Number of coffees?\na: 2\n";
    for _ in 0..20 {
        let question = get_question(QUESTIONS, today, Some(QuestionType::Short));
        assert_eq!(question.question, "s: Hours of sleep?");
    }
    for _ in 0..20 {
        let question = get_question(QUESTIONS, today, Some(QuestionType::Long));
        assert!(question.question.starts_with("l: What's"));
    }
}

#[test]
fn get_question_when_all_asked_is_empty() {
    let today = "s: Number of coffees?\ns: Hours of sleep?\n";
    assert_eq!(get_question(QUESTIONS, today, Some(QuestionType::Short)).question, "");
    assert_eq!(get_question(QUESTIONS, "", Some(QuestionType::Info)).question, "");
}

#[test]
fn today_entry_needs_name_and_extension() {
    assert!(is_today_entry("2024-03-07.txt", "2024-03-07.txt"));
    assert!(!is_today_entry("2024-03-08.txt", "2024-03-07.txt"));
    assert!(!is_today_entry(".txt", ".txt"));
    assert!(!is_today_entry("notes.md", "notes.md"));
    assert!(is_today_entry("a.txt", "a.txt"));
}

#[test]
fn question_entry_records_time_and_question() {
    let question = Question::from("l: How was it?".to_string());
    assert_eq!(question_entry(&question, 9, 5), "i: 09:05\nl: How was it?\n");
    assert_eq!(question_entry(&question, 23, 59), "i: 23:59\nl: How was it?\n");
    assert_eq!(answer_entry(&"Fine".to_string()), "a: Fine\n");
}

#[test]
fn question_entry_now_has_the_entry_shape() {
    let question = Question::from("s: Cups of tea?".to_string());
    let entry = question_entry_now(&question);
    assert_eq!(entry.len(), "i: 00:00\n".len() + "s: Cups of tea?\n".len());
    assert!(entry.starts_with("i: "));
    assert!(entry.ends_with("\ns: Cups of tea?\n"));
}

#[test]
fn recorded_entry_reads_back() {
    let question = Question::from("l: What's a nice thing from today?".to_string());
    let text = format!(
        "{}{}",
        question_entry(&question, 14, 7),
        answer_entry(&"The sun".to_string())
    );
    let chunk = QuestionChunk::from(text);
    assert_eq!(chunk.get_question().unwrap(), question);
    let info = chunk.get_informative().unwrap();
    assert_eq!(info.get_type().unwrap(), QuestionType::Info);
    assert_eq!(info.get_text().unwrap(), "14:07");
}

#[test]
fn entry_of_a_wide_first_character_writes_no_kind() {
    let question = Question::from("é: foo".to_string());
    assert_eq!(question_entry(&question, 9, 5), "i: 09:05\n: \n");
}

#[test]
fn recorded_entry_reads_back_with_any_answer() {
    let question = Question::from("s: Hours of sleep?".to_string());
    for answer in ["", "eight\nor nine", "seven\r", "\n\n"] {
        let text = format!(
            "{}{}",
            question_entry(&question, 6, 45),
            answer_entry(&answer.to_string())
        );
        let chunk = QuestionChunk::from(text);
        assert_eq!(chunk.get_question().unwrap(), question);
        assert_eq!(chunk.get_informative().unwrap().get_type().unwrap(), QuestionType::Info);
    }
}
