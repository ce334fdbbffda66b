//! Questions, answers and the chunks of a journal file that hold them.
//!
//! A journal line starts with a one-letter kind and `": "`: `l:` a long question,
//! `s:` a short question, `a:` an answer, `i:` an info line (the time of an entry).
use vstd::prelude::*;

use crate::text::{string_views, text_lines, text_lines_of};

verus! {

/// The message of a chunk that does not have the entry format.
pub const QUESTION_TYPE_ERROR: &'static str = "question chunk does not fit the format";

/// The message of a request for the long kind of a question that is not long.
pub const LONG_TYPE_ERROR: &'static str = "cannot get long type on questions that are not of type long";

/// The prompt under which a description of the day is stored.
pub const DESCRIPTION_QUESTION_STR: &'static str = "Add a description about the day:";

/// The prompt under which a note is stored.
pub const NOTE_QUESTION_STR: &'static str = "Add a note:";

/// The prompt under which the rating of the day is stored.
pub const RATING_QUESTION_STR: &'static str = "Rate your day:";

/// The kind of a journal line.
#[derive(PartialEq, Eq, Structural, Clone, Copy, Debug)]
pub enum QuestionType {
    Short,
    Long,
    Answer,
    Info,
    Empty,
}

/// What a long question stands for.
#[derive(PartialEq, Eq, Structural, Clone, Copy, Debug)]
pub enum LongQuesitonType {
    Regular,
    Description,
    Note,
    Rating,
}

/// Why a question or a chunk could not be read.
#[derive(PartialEq, Eq, Structural, Clone, Copy, Debug)]
pub enum QuestionError {
    /// The long kind was asked of a question that is not long.
    NotLong,
    /// A chunk has fewer than three lines.
    ChunkFormat,
}

impl QuestionError {
    /// The text that describes the error.
    pub fn message(&self) -> (m: &'static str)
        ensures
            m@ == (match *self {
                QuestionError::NotLong => LONG_TYPE_ERROR@,
                QuestionError::ChunkFormat => QUESTION_TYPE_ERROR@,
            }),
    {
        match self {
            QuestionError::NotLong => LONG_TYPE_ERROR,
            QuestionError::ChunkFormat => QUESTION_TYPE_ERROR,
        }
    }
}

/// One journal line, such as `"l: What's a nice thing from today?"`.
#[derive(Clone, Debug)]
pub struct Question {
    pub question: String,
}

/// A group of journal lines: an info line, a question and its answer.
pub struct QuestionChunk {
    pub question_chunk: String,
}

impl View for Question {
    type V = Seq<char>;

    open spec fn view(&self) -> Seq<char> {
        self.question@
    }
}

impl View for QuestionChunk {
    type V = Seq<char>;

    open spec fn view(&self) -> Seq<char> {
        self.question_chunk@
    }
}

impl PartialEq for Question {
    fn eq(&self, other: &Self) -> (r: bool) {
        self.question == other.question
    }
}

impl vstd::std_specs::cmp::PartialEqSpecImpl for Question {
    open spec fn obeys_eq_spec() -> bool {
        true
    }

    open spec fn eq_spec(&self, other: &Self) -> bool {
        self.question@ == other.question@
    }
}

impl Default for Question {
    fn default() -> (q: Self)
        ensures
            q@ == Seq::<char>::empty(),
    {
        Question { question: String::new() }
    }
}

impl From<String> for Question {
    fn from(s: String) -> (q: Self) {
        Question { question: s }
    }
}

impl vstd::std_specs::convert::FromSpecImpl<String> for Question {
    open spec fn obeys_from_spec() -> bool {
        true
    }

    open spec fn from_spec(s: String) -> Self {
        Question { question: s }
    }
}

impl From<String> for QuestionChunk {
    fn from(s: String) -> (c: Self) {
        QuestionChunk { question_chunk: s }
    }
}

impl vstd::std_specs::convert::FromSpecImpl<String> for QuestionChunk {
    open spec fn obeys_from_spec() -> bool {
        true
    }

    open spec fn from_spec(s: String) -> Self {
        QuestionChunk { question_chunk: s }
    }
}

impl Question {
    /// The line as text.
    pub fn to_string(&self) -> (s: String)
        ensures
            s@ == self@,
    {
        self.question.clone()
    }
}

/// Whether the line carries a kind marker: its bytes 1 and 2 are `": "`. This holds when
/// its first character takes one byte (is below `0x80`) and `':'` and `' '` follow it; a
/// first character of more bytes puts a continuation byte at byte 1.
pub open spec fn has_type_marker(q: Seq<char>) -> bool {
    q.len() >= 3 && (q[0] as u32) < 0x80 && q[1] == ':' && q[2] == ' '
}

/// The kind of a line.
pub open spec fn question_type_of(q: Seq<char>) -> QuestionType {
    if !has_type_marker(q) {
        QuestionType::Empty
    } else if q[0] == 'l' {
        QuestionType::Long
    } else if q[0] == 's' {
        QuestionType::Short
    } else if q[0] == 'a' {
        QuestionType::Answer
    } else if q[0] == 'i' {
        QuestionType::Info
    } else {
        QuestionType::Empty
    }
}

/// The kind letter of a line as text: its first byte, a whole character, when bytes 1
/// and 2 are `": "`.
pub open spec fn type_str_of(q: Seq<char>) -> Seq<char> {
    if has_type_marker(q) {
        q.take(1)
    } else {
        Seq::empty()
    }
}

/// The text of a line after its kind, or nothing when it has no kind.
pub open spec fn text_of(q: Seq<char>) -> Seq<char> {
    if question_type_of(q) == QuestionType::Empty {
        Seq::empty()
    } else {
        q.skip(3)
    }
}

/// What a long line stands for, or an error for a line that is not long.
pub open spec fn long_type_of(q: Seq<char>) -> Result<LongQuesitonType, QuestionError> {
    if question_type_of(q) != QuestionType::Long {
        Err(QuestionError::NotLong)
    } else if text_of(q) == DESCRIPTION_QUESTION_STR@ {
        Ok(LongQuesitonType::Description)
    } else if text_of(q) == NOTE_QUESTION_STR@ {
        Ok(LongQuesitonType::Note)
    } else if text_of(q) == RATING_QUESTION_STR@ {
        Ok(LongQuesitonType::Rating)
    } else {
        Ok(LongQuesitonType::Regular)
    }
}

/// Reading the kind and the text of a journal line.
pub trait Informative {
    /// Whether the line has a kind.
    fn is_question(&self) -> Result<bool, QuestionError>;

    /// The kind of the line.
    fn get_type(&self) -> Result<QuestionType, QuestionError>;

    /// The kind letter of the line, or nothing when bytes 1 and 2 are not `": "`.
    fn get_type_as_str(&self) -> Result<&str, QuestionError>;

    /// What a long line stands for.
    fn get_long_type(&self) -> Result<LongQuesitonType, QuestionError>;

    /// The text after the kind.
    fn get_text(&self) -> Result<String, QuestionError>;
}

/// Reading the lines of an entry.
pub trait ChunkParser {
    /// The first line: the info line.
    fn get_informative(&self) -> Result<Question, QuestionError>;

    /// The second line: the question.
    fn get_question(&self) -> Result<Question, QuestionError>;

    /// All the lines joined with nothing between them.
    fn get_answer(&self) -> Result<Question, QuestionError>;
}

/// Whether `s` has a kind marker.
fn type_marker(s: &str) -> (b: bool)
    ensures
        b == has_type_marker(s@),
{
    let n = s.unicode_len();
    n >= 3 && (s.get_char(0) as u32) < 0x80 && s.get_char(1) == ':' && s.get_char(2) == ' '
}

impl Informative for Question {
    fn is_question(&self) -> (r: Result<bool, QuestionError>)
        ensures
            r == Ok::<bool, QuestionError>(question_type_of(self@) != QuestionType::Empty),
    {
        let question_type = self.get_type()?;
        if question_type != QuestionType::Empty {
            return Ok(true);
        }
        Ok(false)
    }

    fn get_type(&self) -> (r: Result<QuestionType, QuestionError>)
        ensures
            r == Ok::<QuestionType, QuestionError>(question_type_of(self@)),
    {
        let s = self.question.as_str();
        if !type_marker(s) {
            return Ok(QuestionType::Empty);
        }
        let c = s.get_char(0);
        if c == 'l' {
            Ok(QuestionType::Long)
        } else if c == 's' {
            Ok(QuestionType::Short)
        } else if c == 'a' {
            Ok(QuestionType::Answer)
        } else if c == 'i' {
            Ok(QuestionType::Info)
        } else {
            Ok(QuestionType::Empty)
        }
    }

    fn get_type_as_str(&self) -> (r: Result<&str, QuestionError>)
        ensures
            r is Ok,
            r matches Ok(t) ==> t@ == type_str_of(self@),
    {
        let s = self.question.as_str();
        if !type_marker(s) {
            proof {
                reveal_strlit("");
            }
            return Ok("");
        }
        Ok(s.substring_char(0, 1))
    }

    fn get_long_type(&self) -> (r: Result<LongQuesitonType, QuestionError>)
        ensures
            r == long_type_of(self@),
    {
        if self.get_type()? != QuestionType::Long {
            return Err(QuestionError::NotLong);
        }
        let question_string = self.get_text()?;
        if question_string == String::from_str(DESCRIPTION_QUESTION_STR) {
            return Ok(LongQuesitonType::Description);
        }
        if question_string == String::from_str(NOTE_QUESTION_STR) {
            return Ok(LongQuesitonType::Note);
        }
        if question_string == String::from_str(RATING_QUESTION_STR) {
            return Ok(LongQuesitonType::Rating);
        }
        Ok(LongQuesitonType::Regular)
    }

    fn get_text(&self) -> (r: Result<String, QuestionError>)
        ensures
            r is Ok,
            r matches Ok(t) ==> t@ == text_of(self@),
    {
        if self.get_type()? == QuestionType::Empty {
            return Ok(String::new());
        }
        let s = self.question.as_str();
        let n = s.unicode_len();
        Ok(String::from_str(s.substring_char(3, n)))
    }
}


/// Whether a chunk has at least three lines: an info line, a question and an answer.
pub open spec fn chunk_lines_ok(c: Seq<char>) -> bool {
    text_lines(c).len() >= 3
}

impl ChunkParser for QuestionChunk {
    fn get_informative(&self) -> (r: Result<Question, QuestionError>)
        ensures
            chunk_lines_ok(self@) ==> (r matches Ok(q) && q@ == text_lines(self@)[0]),
            !chunk_lines_ok(self@) ==> r == Err::<Question, QuestionError>(QuestionError::ChunkFormat),
    {
        let question_lines = text_lines_of(self.question_chunk.as_str());
        if question_lines.len() >= 3 {
            proof { assert(question_lines@[0]@ == string_views(question_lines@)[0]); }
            return Ok(Question { question: question_lines[0].clone() });
        }
        Err(QuestionError::ChunkFormat)
    }

    fn get_question(&self) -> (r: Result<Question, QuestionError>)
        ensures
            chunk_lines_ok(self@) ==> (r matches Ok(q) && q@ == text_lines(self@)[1]),
            !chunk_lines_ok(self@) ==> r == Err::<Question, QuestionError>(QuestionError::ChunkFormat),
    {
        let question_lines = text_lines_of(self.question_chunk.as_str());
        if question_lines.len() >= 3 {
            proof { assert(question_lines@[1]@ == string_views(question_lines@)[1]); }
            return Ok(Question { question: question_lines[1].clone() });
        }
        Err(QuestionError::ChunkFormat)
    }

    /// All the lines of the chunk joined with nothing between them.
    fn get_answer(&self) -> (r: Result<Question, QuestionError>)
        ensures
            chunk_lines_ok(self@) ==> (r matches Ok(q) && q@ == text_lines(self@).flatten()),
            !chunk_lines_ok(self@) ==> r == Err::<Question, QuestionError>(QuestionError::ChunkFormat),
    {
        let question_lines = text_lines_of(self.question_chunk.as_str());
        let ghost views = string_views(question_lines@);
        let mut answer = String::new();
        if question_lines.len() >= 3 {
            let mut i: usize = 0;
            while i < question_lines.len()
                invariant
                    views == string_views(question_lines@),
                    i <= question_lines.len(),
                    answer@ == views.take(i as int).flatten(),
                decreases question_lines.len() - i,
            {
                proof {
                    assert(views.take(i + 1) =~= views.take(i as int).push(question_lines@[i as int]@));
                    views.take(i as int).lemma_flatten_push(question_lines@[i as int]@);
                }
                answer.append(question_lines[i].as_str());
                i += 1;
            }
            proof { assert(views.take(i as int) =~= views); }
            return Ok(Question { question: answer });
        }
        Err(QuestionError::ChunkFormat)
    }
}


/// A line with a kind is its kind letter, `": "` and its text, which is what an entry
/// writes for it.
pub proof fn lemma_question_line_roundtrip(q: Seq<char>)
    requires
        question_type_of(q) != QuestionType::Empty,
    ensures
        type_str_of(q) + seq![':', ' '] + text_of(q) == q,
{
    assert(type_str_of(q) + seq![':', ' '] + text_of(q) =~= q);
}

} // verus!
