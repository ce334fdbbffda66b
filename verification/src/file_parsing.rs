//! Choosing the questions to ask and the text that records questions and answers.
use vstd::prelude::*;

use rand::seq::SliceRandom;
use rand::Rng;

use crate::question_structs::{
    Informative, Question, QuestionType, chunk_lines_ok, lemma_question_line_roundtrip,
    question_type_of, text_of, type_str_of,
};
use crate::text::{
    lemma_lines_concat, lemma_lines_empty, lemma_lines_nonempty, lemma_lines_single,
    lemma_split_concat, lemma_split_extend, lemma_split_newline_terminated, newline_terminated,
    push_char, split_on, split_on_newline, split_pieces, string_views, strip_cr, text_lines,
};
use crate::utility::{digit_char, local_hour_minute, push_two_digits, two_digits};

verus! {

/// The views of a sequence of questions.
pub open spec fn question_views(v: Seq<Question>) -> Seq<Seq<char>> {
    v.map_values(|q: Question| q@)
}

/// Pushing a question pushes its view.
pub proof fn lemma_question_views_push(v: Seq<Question>, q: Question)
    ensures
        question_views(v.push(q)) == question_views(v).push(q@),
{
    assert(question_views(v.push(q)) =~= question_views(v).push(q@));
}

/// The lines of `text` of kind `t`, in order.
pub open spec fn questions_of_type(text: Seq<char>, t: QuestionType) -> Seq<Seq<char>> {
    split_on_newline(text).filter(|l: Seq<char>| question_type_of(l) == t)
}

/// The lines of `text` of kind `t` that are not among `asked`, in order.
pub open spec fn unasked_questions_of_type(
    text: Seq<char>,
    t: QuestionType,
    asked: Seq<Seq<char>>,
) -> Seq<Seq<char>> {
    split_on_newline(text).filter(|l: Seq<char>| question_type_of(l) == t && !asked.contains(l))
}

/// The lines of `all_questions` of kind `get_type`, in order.
pub fn get_question_vector(all_questions: &str, get_type: &QuestionType) -> (q_vec: Vec<Question>)
    ensures
        question_views(q_vec@) == questions_of_type(all_questions@, *get_type),
{
    let lines = split_pieces(all_questions, '\n');
    let ghost pieces = string_views(lines@);
    let ghost pred = |l: Seq<char>| question_type_of(l) == *get_type;
    let mut q_vec: Vec<Question> = Vec::new();
    let mut i: usize = 0;
    while i < lines.len()
        invariant
            pieces == string_views(lines@),
            pieces == split_on_newline(all_questions@),
            pred == (|l: Seq<char>| question_type_of(l) == *get_type),
            i <= lines.len(),
            question_views(q_vec@) == pieces.take(i as int).filter(pred),
        decreases lines.len() - i,
    {
        let question = Question { question: lines[i].clone() };
        proof {
            assert(pieces.take(i + 1).drop_last() =~= pieces.take(i as int));
            assert(question@ == pieces[i as int]);
            assert(pieces.take(i + 1).last() == pieces[i as int]);
            reveal(Seq::filter);
            assert(pieces.take(i + 1).filter(pred) == if pred(pieces[i as int]) {
                pieces.take(i as int).filter(pred).push(pieces[i as int])
            } else {
                pieces.take(i as int).filter(pred)
            });
        }
        if let Ok(question_type) = question.get_type() {
            if question_type == *get_type {
                proof { lemma_question_views_push(q_vec@, question); }
                q_vec.push(question);
            }
        }
        i += 1;
    }
    proof { assert(pieces.take(i as int) =~= pieces); }
    q_vec
}

/// Whether some question in `v` reads as `q`.
pub fn contains_question(v: &Vec<Question>, q: &Question) -> (b: bool)
    ensures
        b == question_views(v@).contains(q@),
{
    let mut i: usize = 0;
    while i < v.len()
        invariant
            i <= v.len(),
            forall|j: int| 0 <= j < i ==> v@[j]@ != q@,
        decreases v.len() - i,
    {
        if v[i].question == q.question {
            proof { assert(question_views(v@)[i as int] == q@); }
            return true;
        }
        i += 1;
    }
    proof {
        if question_views(v@).contains(q@) {
            let k = choose|k: int| 0 <= k < question_views(v@).len() && question_views(v@)[k] == q@;
            assert(v@[k]@ == q@);
        }
    }
    false
}

/// The lines of `all_questions` of kind `get_type` that are not among
/// `asked_questions`, in order.
pub fn get_unasked_question_vector(
    all_questions: &str,
    get_type: &QuestionType,
    asked_questions: Vec<Question>,
) -> (q_vec: Vec<Question>)
    ensures
        question_views(q_vec@) == unasked_questions_of_type(
            all_questions@,
            *get_type,
            question_views(asked_questions@),
        ),
{
    let lines = split_pieces(all_questions, '\n');
    let ghost pieces = string_views(lines@);
    let ghost asked = question_views(asked_questions@);
    let ghost pred = |l: Seq<char>| question_type_of(l) == *get_type && !asked.contains(l);
    let mut q_vec: Vec<Question> = Vec::new();
    let mut i: usize = 0;
    while i < lines.len()
        invariant
            pieces == string_views(lines@),
            pieces == split_on_newline(all_questions@),
            asked == question_views(asked_questions@),
            pred == (|l: Seq<char>| question_type_of(l) == *get_type && !asked.contains(l)),
            i <= lines.len(),
            question_views(q_vec@) == pieces.take(i as int).filter(pred),
        decreases lines.len() - i,
    {
        let question = Question { question: lines[i].clone() };
        proof {
            assert(pieces.take(i + 1).drop_last() =~= pieces.take(i as int));
            assert(question@ == pieces[i as int]);
            assert(pieces.take(i + 1).last() == pieces[i as int]);
            reveal(Seq::filter);
            assert(pieces.take(i + 1).filter(pred) == if pred(pieces[i as int]) {
                pieces.take(i as int).filter(pred).push(pieces[i as int])
            } else {
                pieces.take(i as int).filter(pred)
            });
        }
        if let Ok(question_type) = question.get_type() {
            if question_type == *get_type && !contains_question(&asked_questions, &question) {
                proof { lemma_question_views_push(q_vec@, question); }
                q_vec.push(question);
            }
        }
        i += 1;
    }
    proof { assert(pieces.take(i as int) =~= pieces); }
    q_vec
}


/// Reordering a sequence keeps what any function makes of its elements, reordered.
pub proof fn lemma_permutation_map<A, B>(s1: Seq<A>, s2: Seq<A>, f: spec_fn(A) -> B)
    requires
        s1.to_multiset() == s2.to_multiset(),
    ensures
        s1.map_values(f).to_multiset() == s2.map_values(f).to_multiset(),
    decreases s1.len(),
{
    broadcast use vstd::seq_lib::group_to_multiset_ensures;

    if s1.len() == 0 {
        assert(s1.to_multiset().len() == 0);
        assert(s2.len() == s2.to_multiset().len());
        assert(s1.map_values(f) =~= s2.map_values(f));
    } else {
        let a = s1.last();
        let rest1 = s1.drop_last();
        assert(s1 =~= rest1.push(a));
        assert(s1.contains(a)) by {
            assert(s1[s1.len() - 1] == a);
        }
        assert(s2.to_multiset().count(a) > 0);
        assert(s2.contains(a));
        let k = choose|k: int| 0 <= k < s2.len() && s2[k] == a;
        let rest2 = s2.remove(k);
        assert(rest2.to_multiset() == s2.to_multiset().remove(a));
        assert(s1.to_multiset() == rest1.to_multiset().insert(a));
        assert(rest1.to_multiset() =~= rest2.to_multiset());
        lemma_permutation_map(rest1, rest2, f);
        assert(s1.map_values(f) =~= rest1.map_values(f).push(f(a)));
        assert(rest2.map_values(f) =~= s2.map_values(f).remove(k));
        assert(s2.map_values(f)[k] == f(a));
        assert(rest2.map_values(f).to_multiset() == s2.map_values(f).to_multiset().remove(f(a)));
        assert(s2.map_values(f).contains(f(a)));
        assert(s2.map_values(f).to_multiset().count(f(a)) > 0);
        assert(s2.map_values(f).to_multiset() =~= rest2.map_values(f).to_multiset().insert(f(a)));
    }
}

/// The lines of `text` that carry a kind, in order.
pub open spec fn all_questions_of(text: Seq<char>) -> Seq<Seq<char>> {
    split_on_newline(text).filter(|l: Seq<char>| question_type_of(l) != QuestionType::Empty)
}

/// The lines of `questions_text` that carry a kind, in order.
pub fn question_lines(questions_text: &str) -> (questions: Vec<Question>)
    ensures
        question_views(questions@) == all_questions_of(questions_text@),
{
    let lines = split_pieces(questions_text, '\n');
    let ghost pieces = string_views(lines@);
    let ghost pred = |l: Seq<char>| question_type_of(l) != QuestionType::Empty;
    let mut questions: Vec<Question> = Vec::new();
    let mut i: usize = 0;
    while i < lines.len()
        invariant
            pieces == string_views(lines@),
            pieces == split_on_newline(questions_text@),
            pred == (|l: Seq<char>| question_type_of(l) != QuestionType::Empty),
            i <= lines.len(),
            question_views(questions@) == pieces.take(i as int).filter(pred),
        decreases lines.len() - i,
    {
        let question = Question { question: lines[i].clone() };
        proof {
            assert(pieces.take(i + 1).drop_last() =~= pieces.take(i as int));
            assert(question@ == pieces[i as int]);
            assert(pieces.take(i + 1).last() == pieces[i as int]);
            reveal(Seq::filter);
            assert(pieces.take(i + 1).filter(pred) == if pred(pieces[i as int]) {
                pieces.take(i as int).filter(pred).push(pieces[i as int])
            } else {
                pieces.take(i as int).filter(pred)
            });
        }
        if let Ok(is_question) = question.is_question() {
            if is_question {
                proof { lemma_question_views_push(questions@, question); }
                questions.push(question);
            }
        }
        i += 1;
    }
    proof { assert(pieces.take(i as int) =~= pieces); }
    questions
}

/// Puts the questions in a random order (`SliceRandom::shuffle` with the thread's
/// generator). The source only swaps elements, so the same questions come out, each
/// as often as it went in; which order comes out is left open.
#[verifier::external_body]
fn shuffle_questions(questions: &mut Vec<Question>)
    ensures
        final(questions)@.to_multiset() == old(questions)@.to_multiset(),
{
    let mut rng = rand::rng();
    questions.shuffle(&mut rng);
}

/// The questions of `questions_text`, in a random order.
pub fn jumbled_questions(questions_text: &str) -> (questions: Vec<Question>)
    ensures
        question_views(questions@).to_multiset() == all_questions_of(questions_text@).to_multiset(),
{
    let mut questions = question_lines(questions_text);
    let ghost before = questions@;
    shuffle_questions(&mut questions);
    proof {
        lemma_permutation_map(questions@, before, |q: Question| q@);
    }
    questions
}

/// The text of a questions file: each question followed by a newline.
pub open spec fn questions_file_text(questions: Seq<Seq<char>>) -> Seq<char> {
    newline_terminated(questions)
}

/// The text of a questions file that holds `questions`.
pub fn questions_file_content(questions: &Vec<Question>) -> (text: String)
    ensures
        text@ == questions_file_text(question_views(questions@)),
{
    let ghost views = question_views(questions@);
    let mut text = String::new();
    let mut i: usize = 0;
    while i < questions.len()
        invariant
            views == question_views(questions@),
            i <= questions.len(),
            text@ == questions_file_text(views.take(i as int)),
        decreases questions.len() - i,
    {
        proof {
            let f = |q: Seq<char>| q.push('\n');
            assert(views.take(i + 1).map_values(f) =~= views.take(i as int).map_values(f).push(views[i as int].push('\n')));
            views.take(i as int).map_values(f).lemma_flatten_push(views[i as int].push('\n'));
        }
        text.append(questions[i].question.as_str());
        push_char(&mut text, '\n');
        i += 1;
    }
    proof { assert(views.take(i as int) =~= views); }
    text
}


/// The questions of kind `question_type` in `questions_text` that are not yet among
/// the lines of that kind in `today_text`, in order.
pub fn unasked_questions(
    questions_text: &str,
    today_text: &str,
    question_type: &QuestionType,
) -> (questions: Vec<Question>)
    ensures
        question_views(questions@) == unasked_questions_of_type(
            questions_text@,
            *question_type,
            questions_of_type(today_text@, *question_type),
        ),
{
    let asked_questions = get_question_vector(today_text, question_type);
    get_unasked_question_vector(questions_text, question_type, asked_questions)
}

/// A random index below `len` (`Rng::random_range(..len)` on the thread's generator).
/// The source asserts that the range is not empty and samples from `0..len`; which
/// index comes out is left open.
#[verifier::external_body]
fn random_index(len: usize) -> (i: usize)
    requires
        len > 0,
    ensures
        i < len,
{
    rand::rng().random_range(..len)
}

/// A question to ask: one of kind `question_type` from `questions_text` that
/// `today_text` does not hold yet, picked at random; the empty question when no kind
/// was drawn or when every such question was asked.
pub fn get_question(
    questions_text: &str,
    today_text: &str,
    question_type: Option<QuestionType>,
) -> (question: Question)
    ensures
        match question_type {
            None => question@ == Seq::<char>::empty(),
            Some(t) => {
                let unasked = unasked_questions_of_type(
                    questions_text@,
                    t,
                    questions_of_type(today_text@, t),
                );
                &&& unasked.len() == 0 ==> question@ == Seq::<char>::empty()
                &&& unasked.len() > 0 ==> unasked.contains(question@)
            },
        },
{
    let t = match question_type {
        None => {
            return Question::default();
        },
        Some(t) => t,
    };
    let unasked = unasked_questions(questions_text, today_text, &t);
    if unasked.len() == 0 {
        return Question::default();
    }
    let index = random_index(unasked.len());
    proof {
        assert(question_views(unasked@)[index as int] == unasked@[index as int]@);
    }
    Question { question: unasked[index].question.clone() }
}


/// Whether a file name has the extension `txt` (`Path::extension`): it ends in `.txt`
/// and something comes before that dot.
pub open spec fn has_txt_extension(name: Seq<char>) -> bool {
    name.len() > 4 && name.skip(name.len() - 4) == seq!['.', 't', 'x', 't']
}

/// Whether a directory entry named `entry_name` is the journal file `today_file`, both
/// plain file names in the same directory. For names without `'/'`, the joined paths
/// are equal exactly when a `.txt` entry name equals `today_file`: each such name is one
/// path component.
pub fn is_today_entry(entry_name: &str, today_file: &str) -> (b: bool)
    requires
        !entry_name@.contains('/'),
        !today_file@.contains('/'),
    ensures
        b == (has_txt_extension(entry_name@) && entry_name@ == today_file@),
{
    let n = entry_name.unicode_len();
    let txt = n > 4 && entry_name.get_char(n - 4) == '.' && entry_name.get_char(n - 3) == 't'
        && entry_name.get_char(n - 2) == 'x' && entry_name.get_char(n - 1) == 't';
    proof {
        if n > 4 {
            let tail = entry_name@.skip(n - 4);
            if txt {
                assert(tail =~= seq!['.', 't', 'x', 't']);
            } else {
                assert(tail[0] != '.' || tail[1] != 't' || tail[2] != 'x' || tail[3] != 't');
            }
        }
    }
    txt && String::from_str(entry_name) == String::from_str(today_file)
}

/// The info line of an entry: `i: HH:MM` and a newline.
pub open spec fn info_line_text(hour: nat, minute: nat) -> Seq<char> {
    seq!['i', ':', ' '] + two_digits(hour) + seq![':'] + two_digits(minute) + seq!['\n']
}

/// The lines that record a question asked at the given time: the info line, then the
/// question's kind letter, `": "`, its text and a newline.
pub open spec fn question_entry_text(hour: nat, minute: nat, question: Seq<char>) -> Seq<char> {
    info_line_text(hour, minute) + type_str_of(question) + seq![':', ' '] + text_of(question)
        + seq!['\n']
}

/// The line that records an answer: `a: `, the answer and a newline.
pub open spec fn answer_entry_text(answer: Seq<char>) -> Seq<char> {
    seq!['a', ':', ' '] + answer + seq!['\n']
}

/// The lines that record `question` asked at `hour`:`minute`.
pub fn question_entry(question: &Question, hour: u32, minute: u32) -> (entry: String)
    requires
        hour < 100,
        minute < 100,
    ensures
        entry@ == question_entry_text(hour as nat, minute as nat, question@),
{
    let mut entry = String::new();
    push_char(&mut entry, 'i');
    push_char(&mut entry, ':');
    push_char(&mut entry, ' ');
    push_two_digits(&mut entry, hour);
    push_char(&mut entry, ':');
    push_two_digits(&mut entry, minute);
    push_char(&mut entry, '\n');
    if let Ok(type_str) = question.get_type_as_str() {
        entry.append(type_str);
    }
    push_char(&mut entry, ':');
    push_char(&mut entry, ' ');
    if let Ok(text) = question.get_text() {
        entry.append(text.as_str());
    }
    push_char(&mut entry, '\n');
    proof {
        assert(entry@ =~= question_entry_text(hour as nat, minute as nat, question@));
    }
    entry
}

/// The lines that record `question` asked now (the local time of day).
pub fn question_entry_now(question: &Question) -> (entry: String)
    ensures
        exists|hour: nat, minute: nat|
            hour < 24 && minute < 60 && entry@ == question_entry_text(hour, minute, question@),
{
    let (hour, minute) = local_hour_minute();
    let entry = question_entry(question, hour, minute);
    proof {
        assert(entry@ == question_entry_text(hour as nat, minute as nat, question@));
    }
    entry
}

/// The line that records `answer`.
pub fn answer_entry(answer: &String) -> (entry: String)
    ensures
        entry@ == answer_entry_text(answer@),
{
    let mut entry = String::new();
    push_char(&mut entry, 'a');
    push_char(&mut entry, ':');
    push_char(&mut entry, ' ');
    entry.append(answer.as_str());
    push_char(&mut entry, '\n');
    proof {
        assert(entry@ =~= answer_entry_text(answer@));
    }
    entry
}


/// A filter that keeps every element keeps the whole sequence.
proof fn lemma_filter_keeps_all(s: Seq<Seq<char>>, pred: spec_fn(Seq<char>) -> bool)
    requires
        forall|i: int| 0 <= i < s.len() ==> pred(#[trigger] s[i]),
    ensures
        s.filter(pred) == s,
    decreases s.len(),
{
    reveal(Seq::filter);
    if s.len() > 0 {
        assert forall|i: int| 0 <= i < s.drop_last().len() implies pred(#[trigger] s.drop_last()[i]) by {
            assert(s.drop_last()[i] == s[i]);
        }
        lemma_filter_keeps_all(s.drop_last(), pred);
        assert(pred(s[s.len() - 1]));
        assert(s.drop_last().push(s.last()) =~= s);
    }
}

/// A questions file written from questions (lines with a kind and no newline) reads
/// back as the same questions, in the same order.
pub proof fn lemma_questions_file_roundtrip(questions: Seq<Seq<char>>)
    requires
        forall|i: int|
            0 <= i < questions.len() ==> question_type_of(#[trigger] questions[i])
                != QuestionType::Empty,
        forall|i: int| 0 <= i < questions.len() ==> !(#[trigger] questions[i]).contains('\n'),
    ensures
        all_questions_of(questions_file_text(questions)) == questions,
{
    lemma_split_newline_terminated(questions);
    let pred = |l: Seq<char>| question_type_of(l) != QuestionType::Empty;
    let pieces = questions.push(Seq::<char>::empty());
    assert(pieces.drop_last() =~= questions);
    reveal(Seq::filter);
    assert(pieces.filter(pred) == questions.filter(pred));
    lemma_filter_keeps_all(questions, pred);
}

/// A question offered as unasked is of the kind asked for, comes from the questions
/// text, and is none of the questions already asked.
pub proof fn lemma_unasked_are_new(
    text: Seq<char>,
    t: QuestionType,
    asked: Seq<Seq<char>>,
    q: Seq<char>,
)
    requires
        unasked_questions_of_type(text, t, asked).contains(q),
    ensures
        question_type_of(q) == t,
        !asked.contains(q),
        split_on_newline(text).contains(q),
{
    broadcast use vstd::seq_lib::group_filter_ensures;

    let pred = |l: Seq<char>| question_type_of(l) == t && !asked.contains(l);
    let u = split_on_newline(text).filter(pred);
    let k = choose|k: int| 0 <= k < u.len() && u[k] == q;
    assert(pred(u[k]));
    assert(split_on_newline(text).filter(pred).contains(q));
    split_on_newline(text).lemma_filter_contains_rev(pred, q);
}

/// The pieces of a text, a newline and a line without newlines are the pieces of the
/// text and then that line.
proof fn lemma_split_append_line(text: Seq<char>, l: Seq<char>)
    requires
        !l.contains('\n'),
    ensures
        split_on_newline(text + seq!['\n'] + l) == split_on_newline(text).push(l),
{
    let e = Seq::<char>::empty();
    lemma_split_concat(text, l, '\n');
    lemma_split_extend(e, l, '\n');
    assert(e + l =~= l);
    assert(split_on(e, '\n') =~= seq![e]);
    assert(split_on(l, '\n') =~= seq![l]);
    assert(split_on_newline(text) + seq![l] =~= split_on_newline(text).push(l));
}

/// Every line of the questions text of the kind asked for that was not asked yet is
/// offered, and nothing else is.
pub proof fn lemma_unasked_complete(
    text: Seq<char>,
    t: QuestionType,
    asked: Seq<Seq<char>>,
    q: Seq<char>,
)
    ensures
        unasked_questions_of_type(text, t, asked).contains(q) <==> (split_on_newline(text).contains(q)
            && question_type_of(q) == t && !asked.contains(q)),
{
    let pred = |l: Seq<char>| question_type_of(l) == t && !asked.contains(l);
    let pieces = split_on_newline(text);
    if unasked_questions_of_type(text, t, asked).contains(q) {
        lemma_unasked_are_new(text, t, asked, q);
    }
    if pieces.contains(q) && question_type_of(q) == t && !asked.contains(q) {
        let k = choose|k: int| 0 <= k < pieces.len() && pieces[k] == q;
        pieces.lemma_filter_contains(pred, k);
    }
}

/// Every line of the questions text of the kind asked for is listed, and nothing else is.
pub proof fn lemma_questions_of_type_complete(text: Seq<char>, t: QuestionType, q: Seq<char>)
    ensures
        questions_of_type(text, t).contains(q) <==> (split_on_newline(text).contains(q)
            && question_type_of(q) == t),
{
    let pred = |l: Seq<char>| question_type_of(l) == t;
    let pieces = split_on_newline(text);
    if questions_of_type(text, t).contains(q) {
        pieces.lemma_filter_contains_rev(pred, q);
        let u = pieces.filter(pred);
        let k = choose|k: int| 0 <= k < u.len() && u[k] == q;
        pieces.lemma_filter_pred(pred, k);
    }
    if pieces.contains(q) && question_type_of(q) == t {
        let k = choose|k: int| 0 <= k < pieces.len() && pieces[k] == q;
        pieces.lemma_filter_contains(pred, k);
    }
}

/// A line added at the end of the questions text comes last among the unasked questions
/// when it is of the kind asked for and was not asked, and changes nothing otherwise.
pub proof fn lemma_unasked_append(
    text: Seq<char>,
    t: QuestionType,
    asked: Seq<Seq<char>>,
    l: Seq<char>,
)
    requires
        !l.contains('\n'),
    ensures
        unasked_questions_of_type(text + seq!['\n'] + l, t, asked) == if question_type_of(l) == t
            && !asked.contains(l) {
            unasked_questions_of_type(text, t, asked).push(l)
        } else {
            unasked_questions_of_type(text, t, asked)
        },
{
    let pred = |x: Seq<char>| question_type_of(x) == t && !asked.contains(x);
    lemma_split_append_line(text, l);
    split_on_newline(text).lemma_filter_push(l, pred);
}

/// A line added at the end of the questions text comes last among the questions of its
/// kind, and changes nothing for the other kinds.
pub proof fn lemma_questions_of_type_append(text: Seq<char>, t: QuestionType, l: Seq<char>)
    requires
        !l.contains('\n'),
    ensures
        questions_of_type(text + seq!['\n'] + l, t) == if question_type_of(l) == t {
            questions_of_type(text, t).push(l)
        } else {
            questions_of_type(text, t)
        },
{
    let pred = |x: Seq<char>| question_type_of(x) == t;
    lemma_split_append_line(text, l);
    split_on_newline(text).lemma_filter_push(l, pred);
}

/// The text of a recorded entry read back as a chunk: for a question with a kind that
/// holds no newline and does not end in a carriage return, and for any answer, the
/// chunk is well formed, its question is the question asked, and its info line is an
/// info line holding the time. When the answer holds no newline and does not end in a
/// carriage return, the chunk has exactly three lines and the third is the answer line.
pub proof fn lemma_entry_read_back(question: Seq<char>, answer: Seq<char>, hour: nat, minute: nat)
    requires
        question_type_of(question) != QuestionType::Empty,
        !question.contains('\n'),
        strip_cr(question) == question,
        hour < 100,
        minute < 100,
    ensures
        chunk_lines_ok(question_entry_text(hour, minute, question) + answer_entry_text(answer)),
        text_lines(question_entry_text(hour, minute, question) + answer_entry_text(answer))[0]
            == seq!['i', ':', ' '] + two_digits(hour) + seq![':'] + two_digits(minute),
        text_lines(question_entry_text(hour, minute, question) + answer_entry_text(answer))[1]
            == question,
        question_type_of(
            text_lines(question_entry_text(hour, minute, question) + answer_entry_text(answer))[0],
        ) == QuestionType::Info,
        text_of(
            text_lines(question_entry_text(hour, minute, question) + answer_entry_text(answer))[0],
        ) == two_digits(hour) + seq![':'] + two_digits(minute),
        (!answer.contains('\n') && strip_cr(answer) == answer) ==> {
            &&& text_lines(question_entry_text(hour, minute, question) + answer_entry_text(answer)).len()
                == 3
            &&& text_lines(question_entry_text(hour, minute, question) + answer_entry_text(answer))[2]
                == seq!['a', ':', ' '] + answer
        },
{
    let info = seq!['i', ':', ' '] + two_digits(hour) + seq![':'] + two_digits(minute);
    let answer_line = seq!['a', ':', ' '] + answer;
    let rest = answer_line + seq!['\n'];
    let tail = question + seq!['\n'] + rest;
    let entry = question_entry_text(hour, minute, question) + answer_entry_text(answer);
    lemma_question_line_roundtrip(question);
    assert(entry =~= info + seq!['\n'] + tail);
    assert(info.len() == 8);
    assert(info[7] == digit_char(minute % 10));
    assert(info.last() != '\n' && info.last() != '\r');
    assert(!info.contains('\n')) by {
        if info.contains('\n') {
            let k = choose|k: int| 0 <= k < info.len() && info[k] == '\n';
            assert(info[k] == '\n');
        }
    }
    assert(question.last() != '\n') by {
        assert(question[question.len() - 1] == question.last());
    }
    assert(question.last() != '\r');
    lemma_lines_concat(info, tail);
    lemma_lines_single(info);
    lemma_lines_concat(question, rest);
    lemma_lines_single(question);
    lemma_lines_nonempty(rest);
    assert(text_lines(entry) == seq![info] + (seq![question] + text_lines(rest)));
    assert(text_lines(entry)[0] == info);
    assert(text_lines(entry)[1] == question);
    assert(text_of(info) =~= two_digits(hour) + seq![':'] + two_digits(minute));
    if !answer.contains('\n') && strip_cr(answer) == answer {
        assert(!answer_line.contains('\n')) by {
            if answer_line.contains('\n') {
                let k = choose|k: int| 0 <= k < answer_line.len() && answer_line[k] == '\n';
                assert(answer[k - 3] == '\n');
            }
        }
        assert(answer_line.last() != '\r') by {
            if answer.len() > 0 {
                assert(answer_line.last() == answer.last());
            }
        }
        assert(answer_line.last() != '\n') by {
            assert(answer_line[answer_line.len() - 1] == answer_line.last());
        }
        assert(rest =~= answer_line + seq!['\n'] + Seq::<char>::empty());
        lemma_lines_concat(answer_line, Seq::<char>::empty());
        lemma_lines_single(answer_line);
        lemma_lines_empty();
        assert(text_lines(rest) =~= seq![answer_line]);
        assert(text_lines(entry) =~= seq![info, question, answer_line]);
    }
}

} // verus!
