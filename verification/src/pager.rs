//! The digest of a day's journal file and its layout on the terminal.
use vstd::prelude::*;

use crate::question_structs::{
    ChunkParser, Informative, LongQuesitonType, QuestionChunk, QuestionError, QuestionType,
    long_type_of, question_type_of, text_of,
};
use crate::file_parsing::{answer_entry_text, lemma_entry_read_back, question_entry_text};
use crate::question_structs::lemma_question_line_roundtrip;
use crate::utility::two_digits;
use crate::text::{lemma_lines_after_newline, lemma_lines_concat, push_char, split_on, split_pieces, string_views, text_lines, text_lines_of};

verus! {

/// The items of `list` with `sep` between each two of them (`[String]::join`).
pub open spec fn join(list: Seq<Seq<char>>, sep: Seq<char>) -> Seq<char>
    decreases list.len(),
{
    if list.len() == 0 {
        Seq::empty()
    } else if list.len() == 1 {
        list[0]
    } else {
        join(list.drop_last(), sep) + sep + list.last()
    }
}

/// The strings of `list` with `sep` between each two of them.
pub fn join_strings(list: &Vec<String>, sep: &str) -> (joined: String)
    ensures
        joined@ == join(string_views(list@), sep@),
{
    let ghost views = string_views(list@);
    let mut joined = String::new();
    let mut i: usize = 0;
    while i < list.len()
        invariant
            views == string_views(list@),
            i <= list.len(),
            joined@ == join(views.take(i as int), sep@),
        decreases list.len() - i,
    {
        proof {
            assert(views.take(i + 1).drop_last() =~= views.take(i as int));
            assert(views.take(i + 1).last() == list@[i as int]@);
        }
        if i > 0 {
            joined.append(sep);
        } else {
            proof { assert(joined@ =~= Seq::<char>::empty()); }
        }
        joined.append(list[i].as_str());
        i += 1;
    }
    proof { assert(views.take(i as int) =~= views); }
    joined
}

/// What the pager has gathered so far from a day's file: the lines of the entry being
/// read, and the texts found in the entries read before it.
#[verifier::ext_equal]
pub struct Digest {
    pub chunk: Seq<char>,
    pub ratings: Seq<Seq<char>>,
    pub descriptions: Seq<Seq<char>>,
    pub notes: Seq<Seq<char>>,
    pub long_questions: Seq<Seq<char>>,
}

/// Nothing gathered yet.
pub open spec fn empty_digest() -> Digest {
    Digest {
        chunk: Seq::empty(),
        ratings: Seq::empty(),
        descriptions: Seq::empty(),
        notes: Seq::empty(),
        long_questions: Seq::empty(),
    }
}

/// What the question of an entry asks for: the long kind of a long question, and
/// `Regular` for any other.
pub open spec fn prompt_type_of(question: Seq<char>) -> LongQuesitonType {
    match long_type_of(question) {
        Ok(t) => t,
        Err(_) => LongQuesitonType::Regular,
    }
}

/// The indentation of the other questions and their answers.
pub open spec fn indent() -> Seq<char> {
    seq![' ', ' ', ' ', ' ']
}

/// `d` after the entry `entry` is read: its answer, the text after the kind of all its
/// lines joined, goes to the ratings, descriptions or notes by what its question asks
/// for; a regular long question and that answer go to the other questions. An entry of
/// fewer than three lines is an error.
pub open spec fn digest_entry(d: Digest, entry: Seq<char>) -> Result<Digest, QuestionError> {
    let lines = text_lines(entry);
    if lines.len() < 3 {
        Err(QuestionError::ChunkFormat)
    } else {
        let question = lines[1];
        let answer = text_of(lines.flatten());
        let ratings = if prompt_type_of(question) == LongQuesitonType::Rating {
            d.ratings.push(answer)
        } else {
            d.ratings
        };
        let descriptions = if prompt_type_of(question) == LongQuesitonType::Description {
            d.descriptions.push(answer)
        } else {
            d.descriptions
        };
        let notes = if prompt_type_of(question) == LongQuesitonType::Note {
            d.notes.push(answer)
        } else {
            d.notes
        };
        let long_questions = if prompt_type_of(question) == LongQuesitonType::Regular
            && question_type_of(question) == QuestionType::Long {
            d.long_questions.push(indent() + text_of(question)).push(
                indent() + answer + seq!['\n'],
            )
        } else {
            d.long_questions
        };
        Ok(
            Digest {
                chunk: Seq::empty(),
                ratings,
                descriptions,
                notes,
                long_questions,
            },
        )
    }
}

/// What is gathered from the first `k` lines of a file of `lines`: a non-empty line joins
/// the current entry, and an empty line or the file's last line ends it.
pub open spec fn digest_lines(lines: Seq<Seq<char>>, k: nat) -> Result<Digest, QuestionError>
    decreases k,
{
    if k == 0 {
        Ok(empty_digest())
    } else {
        match digest_lines(lines, (k - 1) as nat) {
            Err(e) => Err(e),
            Ok(d) => {
                let line = lines[k - 1];
                let chunk = if line.len() > 0 {
                    d.chunk + line + seq!['\n']
                } else {
                    d.chunk
                };
                let d2 = Digest { chunk, ..d };
                if line.len() == 0 || k == lines.len() {
                    digest_entry(d2, chunk)
                } else {
                    Ok(d2)
                }
            },
        }
    }
}

/// A section of the digest: its heading and its items joined, or nothing when it has
/// no items.
pub open spec fn section(heading: Seq<char>, items: Seq<Seq<char>>, sep: Seq<char>) -> Seq<char> {
    if items.len() > 0 {
        heading + join(items, sep)
    } else {
        Seq::empty()
    }
}

/// The text of a digest: the ratings, the descriptions, the notes and the other
/// questions.
pub open spec fn render_digest(d: Digest) -> Seq<char> {
    section("rating: "@, d.ratings, "->"@) + section(
        "\n\ndescription: \n    "@,
        d.descriptions,
        "\n"@,
    ) + section("\n\nnotes: \n    "@, d.notes, "\n"@) + section(
        "\n\nother questions: \n"@,
        d.long_questions,
        "\n"@,
    )
}

/// What is gathered from a whole day's file.
pub open spec fn digest_of(content: Seq<char>) -> Result<Digest, QuestionError> {
    digest_lines(text_lines(content), text_lines(content).len())
}

/// The digest of a day's file, or the error of its first malformed entry.
pub open spec fn format_content_spec(content: Seq<char>) -> Result<Seq<char>, QuestionError> {
    match digest_of(content) {
        Ok(d) => Ok(render_digest(d)),
        Err(e) => Err(e),
    }
}

/// The digest gathered while reading a file.
struct DigestBuilder {
    chunk: String,
    ratings: Vec<String>,
    descriptions: Vec<String>,
    notes: Vec<String>,
    long_questions: Vec<String>,
}

impl View for DigestBuilder {
    type V = Digest;

    closed spec fn view(&self) -> Digest {
        Digest {
            chunk: self.chunk@,
            ratings: string_views(self.ratings@),
            descriptions: string_views(self.descriptions@),
            notes: string_views(self.notes@),
            long_questions: string_views(self.long_questions@),
        }
    }
}

/// Pushing a string pushes its view.
proof fn lemma_string_views_push(v: Seq<String>, s: String)
    ensures
        string_views(v.push(s)) == string_views(v).push(s@),
{
    assert(string_views(v.push(s)) =~= string_views(v).push(s@));
}

impl DigestBuilder {
    /// Reads the entry gathered in `chunk` and starts a new one.
    fn digest_entry(&mut self) -> (r: Result<(), QuestionError>)
        ensures
            match digest_entry(old(self)@, old(self).chunk@) {
                Ok(d) => r is Ok && final(self)@ == d,
                Err(e) => r == Err::<(), QuestionError>(e),
            },
    {
        let this_chunk = QuestionChunk { question_chunk: self.chunk.clone() };
        let answer = this_chunk.get_answer()?;
        let question = this_chunk.get_question()?;
        let prompt = match question.get_long_type() {
            Ok(t) => t,
            Err(_) => LongQuesitonType::Regular,
        };
        let answer_text = match answer.get_text() {
            Ok(t) => t,
            Err(_) => String::new(),
        };
        let ghost answer_view = answer_text@;
        if prompt == LongQuesitonType::Rating {
            proof { lemma_string_views_push(self.ratings@, answer_text); }
            self.ratings.push(answer_text);
        } else if prompt == LongQuesitonType::Description {
            proof { lemma_string_views_push(self.descriptions@, answer_text); }
            self.descriptions.push(answer_text);
        } else if prompt == LongQuesitonType::Note {
            proof { lemma_string_views_push(self.notes@, answer_text); }
            self.notes.push(answer_text);
        } else if let Ok(QuestionType::Long) = question.get_type() {
            let mut first = String::from_str("    ");
            let mut second = String::from_str("    ");
            proof { reveal_strlit("    "); }
            if let Ok(question_text) = question.get_text() {
                first.append(question_text.as_str());
            }
            second.append(answer_text.as_str());
            push_char(&mut second, '\n');
            proof {
                lemma_string_views_push(self.long_questions@, first);
                lemma_string_views_push(self.long_questions@.push(first), second);
                assert(first@ =~= indent() + text_of(question@));
                assert(second@ =~= indent() + answer_view + seq!['\n']);
            }
            self.long_questions.push(first);
            self.long_questions.push(second);
        }
        self.chunk = String::new();
        Ok(())
    }
}

/// Appends a section of the digest.
fn push_section(content: &mut String, heading: &str, items: &Vec<String>, sep: &str)
    ensures
        final(content)@ == old(content)@ + section(heading@, string_views(items@), sep@),
{
    if items.len() > 0 {
        content.append(heading);
        let joined = join_strings(items, sep);
        content.append(joined.as_str());
        proof {
            assert(final(content)@ =~= old(content)@ + section(heading@, string_views(items@), sep@));
        }
    } else {
        proof {
            assert(old(content)@ + section(heading@, string_views(items@), sep@) =~= old(content)@);
        }
    }
}

/// The digest of a day's journal file: its ratings, descriptions, notes and other long
/// questions with their answers.
pub fn format_content(content: &String) -> (r: Result<String, QuestionError>)
    ensures
        match format_content_spec(content@) {
            Ok(s) => r matches Ok(t) && t@ == s,
            Err(e) => r == Err::<String, QuestionError>(e),
        },
{
    let lines = text_lines_of(content.as_str());
    let ghost views = string_views(lines@);
    let mut digest = DigestBuilder {
        chunk: String::new(),
        ratings: Vec::new(),
        descriptions: Vec::new(),
        notes: Vec::new(),
        long_questions: Vec::new(),
    };
    proof {
        assert(digest@ =~= empty_digest());
    }
    let n = lines.len();
    let mut i: usize = 0;
    while i < n
        invariant
            views == string_views(lines@),
            views == text_lines(content@),
            n == lines.len(),
            i <= n,
            digest_lines(views, i as nat) == Ok::<Digest, QuestionError>(digest@),
        decreases n - i,
    {
        let line = &lines[i];
        let empty = line.as_str().unicode_len() == 0;
        let ghost d0 = digest@;
        proof {
            assert(line@ == views[i as int]);
        }
        if !empty {
            digest.chunk.append(line.as_str());
            push_char(&mut digest.chunk, '\n');
        }
        let ghost chunk = if line@.len() > 0 { d0.chunk + line@ + seq!['\n'] } else { d0.chunk };
        proof {
            assert(digest.chunk@ =~= chunk);
            assert(digest@ =~= Digest { chunk, ..d0 });
        }
        if empty || i + 1 == n {
            let r = digest.digest_entry();
            proof {
                assert(digest_lines(views, (i + 1) as nat) == digest_entry(Digest { chunk, ..d0 }, chunk));
            }
            if let Err(e) = r {
                proof {
                    lemma_digest_error_stays(views, (i + 1) as nat, n as nat);
                }
                return Err(e);
            }
        } else {
            proof {
                assert(digest_lines(views, (i + 1) as nat) == Ok::<Digest, QuestionError>(Digest { chunk, ..d0 }));
            }
        }
        i += 1;
    }
    let mut return_content = String::new();
    push_section(&mut return_content, "rating: ", &digest.ratings, "->");
    push_section(&mut return_content, "\n\ndescription: \n    ", &digest.descriptions, "\n");
    push_section(&mut return_content, "\n\nnotes: \n    ", &digest.notes, "\n");
    push_section(&mut return_content, "\n\nother questions: \n", &digest.long_questions, "\n");
    proof {
        assert(return_content@ =~= render_digest(digest@));
    }
    Ok(return_content)
}

/// Once reading fails, it stays failed with the same error.
proof fn lemma_digest_error_stays(lines: Seq<Seq<char>>, k: nat, m: nat)
    requires
        k <= m,
        digest_lines(lines, k) is Err,
    ensures
        digest_lines(lines, m) == digest_lines(lines, k),
    decreases m - k,
{
    if k < m {
        lemma_digest_error_stays(lines, k, (m - 1) as nat);
    }
}


/// The number of bytes of the UTF-8 encoding of `c`.
pub open spec fn utf8_width(c: char) -> nat {
    if (c as u32) < 0x80 {
        1
    } else if (c as u32) < 0x800 {
        2
    } else if (c as u32) < 0x10000 {
        3
    } else {
        4
    }
}

/// The number of bytes of the UTF-8 encoding of `s` (`str::len`).
pub open spec fn byte_len(s: Seq<char>) -> nat
    decreases s.len(),
{
    if s.len() == 0 {
        0
    } else {
        byte_len(s.drop_last()) + utf8_width(s.last())
    }
}

/// The bytes of two joined texts add up.
pub proof fn lemma_byte_len_concat(a: Seq<char>, b: Seq<char>)
    ensures
        byte_len(a + b) == byte_len(a) + byte_len(b),
    decreases b.len(),
{
    if b.len() > 0 {
        assert((a + b).drop_last() =~= a + b.drop_last());
        lemma_byte_len_concat(a, b.drop_last());
    } else {
        assert(a + b =~= a);
    }
}

/// Longer starts of a text take more bytes.
pub proof fn lemma_byte_len_prefix(s: Seq<char>, j: int, k: int)
    requires
        0 <= j < k <= s.len(),
    ensures
        byte_len(s.take(j)) < byte_len(s.take(k)),
    decreases k - j,
{
    assert(s.take(k).drop_last() =~= s.take(k - 1));
    if j < k - 1 {
        lemma_byte_len_prefix(s, j, k - 1);
    }
}

/// Whether some start of `w` takes exactly `n` bytes, so that `n` is a character
/// boundary of `w`.
pub open spec fn boundary_at(w: Seq<char>, n: int) -> bool {
    exists|k: int| 0 <= k <= w.len() && byte_len(#[trigger] w.take(k)) == n
}

/// The start of `w` that takes exactly `n` bytes (`&w[..n]`).
pub open spec fn cut_at_bytes(w: Seq<char>, n: int) -> Seq<char> {
    w.take(choose|k: int| 0 <= k <= w.len() && byte_len(#[trigger] w.take(k)) == n)
}

/// A word as it is shown on a terminal of `width` columns: cut to its first `width`
/// bytes when it is longer.
pub open spec fn shown_word(w: Seq<char>, width: int) -> Seq<char> {
    if byte_len(w) > width {
        cut_at_bytes(w, width)
    } else {
        w
    }
}

/// Whether a word can be shown: it fits, or its cut falls on a character boundary.
pub open spec fn word_fits(w: Seq<char>, width: int) -> bool {
    byte_len(w) <= width || boundary_at(w, width)
}

/// The words of a line: its pieces between spaces.
pub open spec fn words_of(line: Seq<char>) -> Seq<Seq<char>> {
    split_on(line, ' ')
}

/// Whether every word of `content` can be shown on a terminal of `width` columns.
pub open spec fn cuts_on_boundaries(content: Seq<char>, width: int) -> bool {
    forall|i: int, j: int|
        0 <= i < text_lines(content).len() && 0 <= j < words_of(text_lines(content)[i]).len()
            ==> word_fits(#[trigger] words_of(text_lines(content)[i])[j], width)
}

/// The terminal lines finished so far, and the one being filled, after a word is
/// placed: the word and a space go on the current line, or on a new one when the
/// current one would pass the width (counting `gap` more columns).
pub open spec fn place_word(
    done: Seq<Seq<char>>,
    current: Seq<char>,
    w: Seq<char>,
    width: int,
    gap: int,
) -> (Seq<Seq<char>>, Seq<char>) {
    let sw = shown_word(w, width);
    if byte_len(sw) + byte_len(current) + gap > width {
        (done.push(current), sw + seq![' '])
    } else {
        (done, current + sw + seq![' '])
    }
}

/// The terminal lines of a sequence of words.
pub open spec fn wrap_words(words: Seq<Seq<char>>, width: int, gap: int) -> (
    Seq<Seq<char>>,
    Seq<char>,
)
    decreases words.len(),
{
    if words.len() == 0 {
        (Seq::empty(), Seq::empty())
    } else {
        let (done, current) = wrap_words(words.drop_last(), width, gap);
        place_word(done, current, words.last(), width, gap)
    }
}

/// The terminal lines of one line of text.
pub open spec fn wrap_line(line: Seq<char>, width: int, gap: int) -> Seq<Seq<char>> {
    let (done, current) = wrap_words(words_of(line), width, gap);
    done.push(current)
}

/// The terminal lines of the lines of a text.
pub open spec fn wrap_text(lines: Seq<Seq<char>>, width: int, gap: int) -> Seq<Seq<char>>
    decreases lines.len(),
{
    if lines.len() == 0 {
        Seq::empty()
    } else {
        wrap_text(lines.drop_last(), width, gap) + wrap_line(lines.last(), width, gap)
    }
}

/// The number of bytes of the UTF-8 encoding of `c` (`char::len_utf8`).
pub fn char_width(c: char) -> (n: usize)
    ensures
        n == utf8_width(c),
{
    let v = c as u32;
    if v < 0x80 {
        1
    } else if v < 0x800 {
        2
    } else if v < 0x10000 {
        3
    } else {
        4
    }
}

/// The number of bytes of `w` when it is at most `limit`, and `None` when `w` takes
/// more.
pub fn byte_len_within(w: &str, limit: usize) -> (r: Option<usize>)
    ensures
        match r {
            Some(n) => n == byte_len(w@) && n <= limit,
            None => byte_len(w@) > limit,
        },
{
    let n = w.unicode_len();
    let mut total: usize = 0;
    let mut i: usize = 0;
    while i < n
        invariant
            n == w@.len(),
            i <= n,
            total == byte_len(w@.take(i as int)),
            total <= limit,
        decreases n - i,
    {
        let c = w.get_char(i);
        proof {
            assert(w@.take(i + 1).drop_last() =~= w@.take(i as int));
        }
        let width = char_width(c);
        if width > limit - total {
            proof {
                lemma_byte_len_concat(w@.take(i + 1), w@.skip(i + 1));
                assert(w@.take(i + 1) + w@.skip(i + 1) =~= w@);
            }
            return None;
        }
        total += width;
        i += 1;
    }
    proof {
        assert(w@.take(n as int) =~= w@);
    }
    Some(total)
}

/// The start of `w` of exactly `n` bytes.
fn cut_word(w: &str, n: usize) -> (cut: String)
    requires
        boundary_at(w@, n as int),
    ensures
        cut@ == cut_at_bytes(w@, n as int),
{
    let ghost k = choose|k: int| 0 <= k <= w@.len() && byte_len(#[trigger] w@.take(k)) == n;
    let len = w.unicode_len();
    let mut total: usize = 0;
    let mut i: usize = 0;
    while total < n
        invariant
            len == w@.len(),
            0 <= k <= len,
            byte_len(w@.take(k)) == n,
            i <= k,
            total == byte_len(w@.take(i as int)),
        decreases k - i,
    {
        proof {
            assert(i < k);
            assert(w@.take(i + 1).drop_last() =~= w@.take(i as int));
            if i + 1 < k {
                lemma_byte_len_prefix(w@, i + 1, k);
            }
        }
        total += char_width(w.get_char(i));
        i += 1;
    }
    proof {
        if i < k {
            lemma_byte_len_prefix(w@, i as int, k);
        }
    }
    String::from_str(w.substring_char(0, i))
}

/// A word as it is shown on a terminal of `width` columns, and its number of bytes.
fn show_word(w: &str, width: usize) -> (r: (String, usize))
    requires
        word_fits(w@, width as int),
    ensures
        r.0@ == shown_word(w@, width as int),
        r.1 == byte_len(r.0@),
        r.1 <= width,
{
    match byte_len_within(w, width) {
        Some(n) => (String::from_str(w), n),
        None => {
            let cut = cut_word(w, width);
            let ghost k = choose|k: int| 0 <= k <= w@.len() && byte_len(#[trigger] w@.take(k)) == width;
            proof {
                assert(cut@ == w@.take(k));
            }
            (cut, width)
        },
    }
}

/// Whether every word of `content` can be shown on a terminal of `width` columns: the
/// layout cuts a longer word at byte `width`, which must fall between characters.
pub fn cuts_fall_on_boundaries(content: &String, width: usize) -> (b: bool)
    ensures
        b == cuts_on_boundaries(content@, width as int),
{
    let lines = text_lines_of(content.as_str());
    let ghost views = string_views(lines@);
    let mut i: usize = 0;
    while i < lines.len()
        invariant
            views == string_views(lines@),
            views == text_lines(content@),
            i <= lines.len(),
            forall|a: int, j: int|
                0 <= a < i && 0 <= j < words_of(views[a]).len() ==> word_fits(
                    #[trigger] words_of(views[a])[j],
                    width as int,
                ),
        decreases lines.len() - i,
    {
        let words = split_pieces(lines[i].as_str(), ' ');
        proof {
            assert(lines@[i as int]@ == views[i as int]);
        }
        let mut j: usize = 0;
        while j < words.len()
            invariant
                views == string_views(lines@),
                views == text_lines(content@),
                string_views(words@) == words_of(views[i as int]),
                i < lines.len(),
                j <= words.len(),
                forall|a: int, b: int|
                    0 <= a < i && 0 <= b < words_of(views[a]).len() ==> word_fits(
                        #[trigger] words_of(views[a])[b],
                        width as int,
                    ),
                forall|b: int| 0 <= b < j ==> word_fits(#[trigger] words_of(views[i as int])[b], width as int),
            decreases words.len() - j,
        {
            let w = words[j].as_str();
            proof {
                assert(w@ == words_of(views[i as int])[j as int]);
            }
            if byte_len_within(w, width).is_none() {
                if !boundary_within(w, width) {
                    proof {
                        assert(!word_fits(words_of(text_lines(content@)[i as int])[j as int], width as int));
                    }
                    return false;
                }
            }
            j += 1;
        }
        i += 1;
    }
    true
}

/// Whether some start of `w` takes exactly `n` bytes, given that `w` takes more.
fn boundary_within(w: &str, n: usize) -> (b: bool)
    requires
        byte_len(w@) > n,
    ensures
        b == boundary_at(w@, n as int),
{
    let len = w.unicode_len();
    let mut total: usize = 0;
    let mut i: usize = 0;
    while total < n
        invariant
            len == w@.len(),
            total == byte_len(w@.take(i as int)),
            total <= n,
            i <= len,
            byte_len(w@) > n,
            forall|j: int| 0 <= j < i ==> byte_len(#[trigger] w@.take(j)) < n,
        decreases len - i,
    {
        proof {
            if i == len {
                assert(w@.take(len as int) =~= w@);
            }
            assert(i < len);
            assert(w@.take(i + 1).drop_last() =~= w@.take(i as int));
        }
        let c = char_width(w.get_char(i));
        if c > n - total {
            proof {
                assert forall|k: int| 0 <= k <= w@.len() implies byte_len(#[trigger] w@.take(k)) != n by {
                    if k > i {
                        if k > i + 1 {
                            lemma_byte_len_prefix(w@, i + 1, k);
                        }
                    }
                }
            }
            return false;
        }
        total += c;
        i += 1;
    }
    proof {
        assert(byte_len(w@.take(i as int)) == n);
    }
    true
}


/// The terminal lines of `content` on a terminal of `width` columns: each line of the
/// text is filled with words, each word followed by a space, and a new terminal line is
/// started when the next word would pass the width (counting `gap` more columns).
pub fn wrap_content(content: &String, width: usize, gap: usize) -> (lines: Vec<String>)
    requires
        gap <= 1,
        width < 0x1_0000,
        cuts_on_boundaries(content@, width as int),
    ensures
        string_views(lines@) == wrap_text(text_lines(content@), width as int, gap as int),
{
    let text = text_lines_of(content.as_str());
    let ghost views = string_views(text@);
    let ghost w = width as int;
    let ghost g = gap as int;
    let mut terminal_lines: Vec<String> = Vec::new();
    let mut li: usize = 0;
    while li < text.len()
        invariant
            views == string_views(text@),
            views == text_lines(content@),
            w == width as int,
            g == gap as int,
            gap <= 1,
            width < 0x1_0000,
            cuts_on_boundaries(content@, w),
            li <= text.len(),
            string_views(terminal_lines@) == wrap_text(views.take(li as int), w, g),
        decreases text.len() - li,
    {
        let words = split_pieces(text[li].as_str(), ' ');
        let ghost line = views[li as int];
        let ghost ws = words_of(line);
        let ghost base = string_views(terminal_lines@);
        proof {
            assert(text@[li as int]@ == line);
        }
        let mut terminal_line = String::new();
        let mut line_x: usize = 0;
        let mut wi: usize = 0;
        while wi < words.len()
            invariant
                views == text_lines(content@),
                li < views.len(),
                line == views[li as int],
                ws == words_of(line),
                string_views(words@) == ws,
                w == width as int,
                g == gap as int,
                gap <= 1,
                width < 0x1_0000,
                cuts_on_boundaries(content@, w),
                wi <= words.len(),
                string_views(terminal_lines@) == base + wrap_words(ws.take(wi as int), w, g).0,
                terminal_line@ == wrap_words(ws.take(wi as int), w, g).1,
                line_x == byte_len(terminal_line@),
                line_x <= width + 1,
            decreases words.len() - wi,
        {
            proof {
                assert(words@[wi as int]@ == ws[wi as int]);
                assert(word_fits(words_of(text_lines(content@)[li as int])[wi as int], w));
                assert(ws.take(wi + 1).drop_last() =~= ws.take(wi as int));
                assert(ws.take(wi + 1).last() == ws[wi as int]);
            }
            let (shown, wl) = show_word(words[wi].as_str(), width);
            let ghost before_lines = terminal_lines@;
            let ghost before_line = terminal_line@;
            if wl + line_x + gap > width {
                terminal_lines.push(terminal_line);
                terminal_line = String::new();
                line_x = 0;
                proof {
                    lemma_string_views_push(before_lines, terminal_lines@.last());
                    assert(terminal_lines@ == before_lines.push(terminal_lines@.last()));
                    assert(string_views(terminal_lines@) =~= base + wrap_words(ws.take(wi as int), w, g).0.push(before_line));
                }
            }
            let ghost mid = terminal_line@;
            terminal_line.append(shown.as_str());
            push_char(&mut terminal_line, ' ');
            proof {
                assert(terminal_line@ =~= (mid + shown@) + seq![' ']);
                lemma_byte_len_concat(mid, shown@);
                lemma_space_byte_len(mid + shown@);
                if mid.len() == 0 {
                    assert(mid + shown@ =~= shown@);
                }
            }
            line_x += wl + 1;
            wi += 1;
        }
        proof {
            assert(ws.take(wi as int) =~= ws);
        }
        let ghost before_lines = terminal_lines@;
        let ghost last_line = terminal_line@;
        terminal_lines.push(terminal_line);
        proof {
            lemma_string_views_push(before_lines, terminal_lines@.last());
            assert(terminal_lines@ == before_lines.push(terminal_lines@.last()));
            assert(views.take(li + 1).drop_last() =~= views.take(li as int));
            assert(views.take(li + 1).last() == line);
            assert(string_views(terminal_lines@) =~= wrap_text(views.take(li + 1), w, g));
        }
        li += 1;
    }
    proof {
        assert(views.take(li as int) =~= views);
    }
    terminal_lines
}

/// The pager's terminal lines of a text: the lines of each of its lines, then an empty
/// line.
pub open spec fn display_lines(content: Seq<char>, width: int) -> Seq<Seq<char>> {
    wrap_text(text_lines(content), width, 1).push(Seq::empty())
}

/// The terminal lines of `content` on a terminal `term_width` columns wide, with an
/// empty line after them.
pub fn parse_display_text(content: &String, term_width: u16) -> (lines: Vec<String>)
    requires
        cuts_on_boundaries(content@, term_width as int),
    ensures
        string_views(lines@) == display_lines(content@, term_width as int),
{
    let mut lines = wrap_content(content, term_width as usize, 1);
    let ghost before = lines@;
    lines.push(String::new());
    proof {
        lemma_string_views_push(before, lines@.last());
        assert(lines@ == before.push(lines@.last()));
    }
    lines
}


/// The lines of `lines` whose index `i` has `lo <= i < hi`.
pub open spec fn window(lines: Seq<Seq<char>>, lo: int, hi: int) -> Seq<Seq<char>> {
    let start = if lo < lines.len() {
        lo
    } else {
        lines.len() as int
    };
    let end = if hi < start {
        start
    } else if hi < lines.len() {
        hi
    } else {
        lines.len() as int
    };
    lines.subrange(start, end)
}

/// Copies of the lines of `lines` whose index `i` has `lo <= i < hi`.
pub fn window_lines(lines: &Vec<String>, lo: usize, hi: usize) -> (shown: Vec<String>)
    ensures
        string_views(shown@) == window(string_views(lines@), lo as int, hi as int),
{
    let ghost views = string_views(lines@);
    let start = if lo < lines.len() { lo } else { lines.len() };
    let end = if hi < start { start } else if hi < lines.len() { hi } else { lines.len() };
    let mut shown: Vec<String> = Vec::new();
    let mut i: usize = start;
    while i < end
        invariant
            views == string_views(lines@),
            start <= i <= end,
            end <= lines.len(),
            start == (if lo < lines.len() { lo } else { lines.len() }),
            end == (if hi < start { start } else if hi < lines.len() { hi } else { lines.len() }),
            string_views(shown@) == views.subrange(start as int, i as int),
        decreases end - i,
    {
        let ghost before = shown@;
        shown.push(lines[i].clone());
        proof {
            lemma_string_views_push(before, shown@.last());
            assert(shown@ == before.push(shown@.last()));
            assert(views.subrange(start as int, i + 1) =~= views.subrange(start as int, i as int).push(views[i as int]));
        }
        i += 1;
    }
    shown
}

/// The terminal lines that fit below the two header rows of a terminal
/// `term_height` rows high, scrolled down by `height_index` lines. The bound on the
/// window is only computed when some line lies at or after `height_index`.
pub fn visible_lines(terminal_lines: &Vec<String>, height_index: usize, term_height: u16) -> (shown: Vec<String>)
    requires
        terminal_lines.len() <= height_index || (height_index + term_height >= 2
            && height_index + term_height <= usize::MAX),
    ensures
        string_views(shown@) == window(
            string_views(terminal_lines@),
            height_index as int,
            height_index + term_height - 2,
        ),
{
    if terminal_lines.len() <= height_index {
        let shown: Vec<String> = Vec::new();
        proof {
            assert(string_views(shown@) =~= window(
                string_views(terminal_lines@),
                height_index as int,
                height_index + term_height - 2,
            ));
        }
        return shown;
    }
    window_lines(terminal_lines, height_index, height_index + term_height as usize - 2)
}


/// The window holds exactly the lines whose index lies in `[lo, hi)`, in order: as many
/// as there are such indices below the number of lines, the first of them at `lo`.
pub proof fn lemma_window_lines(lines: Seq<Seq<char>>, lo: int, hi: int)
    requires
        0 <= lo,
    ensures
        window(lines, lo, hi).len() == (if lo < hi && lo < lines.len() {
            (if hi < lines.len() { hi } else { lines.len() as int }) - lo
        } else {
            0
        }),
        forall|i: int| 0 <= i < window(lines, lo, hi).len() ==> #[trigger] window(lines, lo, hi)[i]
            == lines[lo + i],
        lo <= hi && lo <= lines.len() ==> window(lines, lo, hi) == lines.subrange(
            lo,
            if hi < lines.len() { hi } else { lines.len() as int },
        ),
{
}

/// The byte count used for the layout is the length of the UTF-8 encoding, which is
/// what `str::len` returns.
pub proof fn lemma_byte_len_is_utf8_len(s: Seq<char>)
    ensures
        byte_len(s) == vstd::utf8::encode_utf8(s).len(),
    decreases s.len(),
{
    if s.len() > 0 {
        let rest = s.drop_first();
        lemma_byte_len_is_utf8_len(rest);
        assert(s =~= seq![s[0]] + rest);
        lemma_byte_len_concat(seq![s[0]], rest);
        assert(seq![s[0]].drop_last() =~= Seq::<char>::empty());
        assert(byte_len(seq![s[0]].drop_last()) == 0);
        assert(seq![s[0]].last() == s[0]);
        vstd::utf8::char_is_scalar(s[0]);
        assert(byte_len(seq![s[0]]) == utf8_width(s[0]));
        assert(vstd::utf8::encode_scalar(s[0] as u32).len() == utf8_width(s[0]));
    }
}

/// A word as shown takes at most `width` bytes.
proof fn lemma_shown_word_fits(w: Seq<char>, width: int)
    requires
        word_fits(w, width),
    ensures
        byte_len(shown_word(w, width)) <= width,
{
    if byte_len(w) > width {
        let k = choose|k: int| 0 <= k <= w.len() && byte_len(#[trigger] w.take(k)) == width;
        assert(shown_word(w, width) == w.take(k));
    }
}

/// A space takes one byte.
proof fn lemma_space_byte_len(s: Seq<char>)
    ensures
        byte_len(s + seq![' ']) == byte_len(s) + 1,
{
    lemma_byte_len_concat(s, seq![' ']);
    assert(seq![' '].drop_last() =~= Seq::<char>::empty());
    assert(byte_len(seq![' '].drop_last()) == 0);
    assert(seq![' '].last() == ' ');
    assert((' ' as u32) == 32);
    assert(utf8_width(' ') == 1);
}

/// Filling words into terminal lines keeps every line, finished or not, within
/// `width + 1` bytes: the width and the space after the last word.
pub proof fn lemma_wrap_words_width(words: Seq<Seq<char>>, width: int, gap: int)
    requires
        0 <= gap <= 1,
        0 <= width,
        forall|j: int| 0 <= j < words.len() ==> word_fits(#[trigger] words[j], width),
    ensures
        byte_len(wrap_words(words, width, gap).1) <= width + 1,
        forall|i: int|
            0 <= i < wrap_words(words, width, gap).0.len() ==> byte_len(
                #[trigger] wrap_words(words, width, gap).0[i],
            ) <= width + 1,
    decreases words.len(),
{
    if words.len() > 0 {
        let init = words.drop_last();
        assert forall|j: int| 0 <= j < init.len() implies word_fits(#[trigger] init[j], width) by {
            assert(init[j] == words[j]);
        }
        lemma_wrap_words_width(init, width, gap);
        let (done, current) = wrap_words(init, width, gap);
        let w = words.last();
        assert(word_fits(words[words.len() - 1], width));
        lemma_shown_word_fits(w, width);
        let sw = shown_word(w, width);
        lemma_space_byte_len(sw);
        lemma_space_byte_len(current + sw);
        lemma_byte_len_concat(current, sw);
        assert(current + sw + seq![' '] == (current + sw) + seq![' ']);
    }
}

/// Every terminal line of a text whose words can be shown takes at most `width + 1`
/// bytes.
pub proof fn lemma_wrap_text_width(lines: Seq<Seq<char>>, width: int, gap: int)
    requires
        0 <= gap <= 1,
        0 <= width,
        forall|i: int, j: int|
            0 <= i < lines.len() && 0 <= j < words_of(lines[i]).len() ==> word_fits(
                #[trigger] words_of(lines[i])[j],
                width,
            ),
    ensures
        forall|i: int|
            0 <= i < wrap_text(lines, width, gap).len() ==> byte_len(
                #[trigger] wrap_text(lines, width, gap)[i],
            ) <= width + 1,
    decreases lines.len(),
{
    if lines.len() > 0 {
        let init = lines.drop_last();
        assert forall|i: int, j: int|
            0 <= i < init.len() && 0 <= j < words_of(init[i]).len() implies word_fits(
            #[trigger] words_of(init[i])[j],
            width,
        ) by {
            assert(init[i] == lines[i]);
        }
        lemma_wrap_text_width(init, width, gap);
        let last = lines.last();
        assert forall|j: int| 0 <= j < words_of(last).len() implies word_fits(
            #[trigger] words_of(last)[j],
            width,
        ) by {
            assert(last == lines[lines.len() - 1]);
        }
        lemma_wrap_words_width(words_of(last), width, gap);
        let a = wrap_text(init, width, gap);
        let b = wrap_line(last, width, gap);
        assert forall|i: int| 0 <= i < (a + b).len() implies byte_len(#[trigger] (a + b)[i]) <= width + 1 by {
            if i >= a.len() {
                assert((a + b)[i] == b[i - a.len()]);
            }
        }
    }
}

/// Every line that the pager lays out for a terminal `term_width` columns wide takes at
/// most `term_width + 1` bytes.
pub proof fn lemma_display_lines_fit(content: Seq<char>, term_width: u16)
    requires
        cuts_on_boundaries(content, term_width as int),
    ensures
        forall|i: int|
            0 <= i < display_lines(content, term_width as int).len() ==> byte_len(
                #[trigger] display_lines(content, term_width as int)[i],
            ) <= term_width + 1,
{
    lemma_wrap_text_width(text_lines(content), term_width as int, 1);
    let ls = wrap_text(text_lines(content), term_width as int, 1);
    assert forall|i: int| 0 <= i < ls.push(Seq::empty()).len() implies byte_len(
        #[trigger] ls.push(Seq::<char>::empty())[i],
    ) <= term_width + 1 by {
        if i == ls.len() {
            assert(ls.push(Seq::<char>::empty())[i] == Seq::<char>::empty());
        } else {
            assert(ls.push(Seq::<char>::empty())[i] == ls[i]);
        }
    }
}


/// A word as placed on a terminal line: as shown, then a space.
pub open spec fn placed_word(w: Seq<char>, width: int) -> Seq<char> {
    shown_word(w, width) + seq![' ']
}

/// Filling words into terminal lines loses and adds nothing: the finished lines and
/// the current one, joined, are the words as placed, in order.
proof fn lemma_wrap_words_keep_text(words: Seq<Seq<char>>, width: int, gap: int)
    ensures
        wrap_words(words, width, gap).0.flatten() + wrap_words(words, width, gap).1
            == words.map_values(|w: Seq<char>| placed_word(w, width)).flatten(),
    decreases words.len(),
{
    let f = |w: Seq<char>| placed_word(w, width);
    if words.len() == 0 {
        assert(words.map_values(f) =~= Seq::<Seq<char>>::empty());
        assert(Seq::<Seq<char>>::empty().flatten() =~= Seq::<char>::empty());
        assert(wrap_words(words, width, gap).0.flatten() + wrap_words(words, width, gap).1
            =~= Seq::<char>::empty());
    } else {
        let init = words.drop_last();
        let w = words.last();
        lemma_wrap_words_keep_text(init, width, gap);
        let (done, current) = wrap_words(init, width, gap);
        let sw = shown_word(w, width);
        assert(words.map_values(f) =~= init.map_values(f).push(f(w)));
        init.map_values(f).lemma_flatten_push(f(w));
        done.lemma_flatten_push(current);
        let (done2, current2) = wrap_words(words, width, gap);
        assert(done2.flatten() + current2 =~= done.flatten() + current + (sw + seq![' ']));
    }
}

/// No text is lost in the layout: the terminal lines of a line, joined, are its words
/// in order, each as shown (cut to the width when longer) and followed by a space; when
/// every word fits the width, they are the words themselves.
pub proof fn lemma_wrap_line_keeps_words(line: Seq<char>, width: int, gap: int)
    ensures
        wrap_line(line, width, gap).flatten() == placed_words(line, width),
        (forall|j: int| 0 <= j < words_of(line).len() ==> byte_len(#[trigger] words_of(line)[j]) <= width)
            ==> wrap_line(line, width, gap).flatten() == words_of(line).map_values(
            |w: Seq<char>| w + seq![' '],
        ).flatten(),
{
    let ws = words_of(line);
    lemma_wrap_words_keep_text(ws, width, gap);
    let (done, current) = wrap_words(ws, width, gap);
    done.lemma_flatten_push(current);
    if forall|j: int| 0 <= j < ws.len() ==> byte_len(#[trigger] ws[j]) <= width {
        assert(ws.map_values(|w: Seq<char>| placed_word(w, width)) =~= ws.map_values(
            |w: Seq<char>| w + seq![' '],
        ));
    }
}

/// The words of a line as placed on terminal lines, joined.
pub open spec fn placed_words(line: Seq<char>, width: int) -> Seq<char> {
    words_of(line).map_values(|w: Seq<char>| placed_word(w, width)).flatten()
}

/// The terminal lines of a text, joined, are its lines' words as placed, line after line.
proof fn lemma_wrap_text_keeps_words(lines: Seq<Seq<char>>, width: int, gap: int)
    ensures
        wrap_text(lines, width, gap).flatten() == lines.map_values(
            |l: Seq<char>| placed_words(l, width),
        ).flatten(),
    decreases lines.len(),
{
    let f = |l: Seq<char>| placed_words(l, width);
    if lines.len() == 0 {
        assert(lines.map_values(f) =~= Seq::<Seq<char>>::empty());
        assert(wrap_text(lines, width, gap) =~= Seq::<Seq<char>>::empty());
    } else {
        let init = lines.drop_last();
        lemma_wrap_text_keeps_words(init, width, gap);
        lemma_wrap_line_keeps_words(lines.last(), width, gap);
        vstd::seq_lib::lemma_flatten_concat(wrap_text(init, width, gap), wrap_line(lines.last(), width, gap));
        assert(lines.map_values(f) =~= init.map_values(f).push(f(lines.last())));
        init.map_values(f).lemma_flatten_push(f(lines.last()));
    }
}

/// No text is lost on the terminal: the pager's lines of a text, joined, are the words of
/// each of its lines in order, each as shown and followed by a space.
pub proof fn lemma_display_lines_keep_words(content: Seq<char>, width: int)
    ensures
        display_lines(content, width).flatten() == text_lines(content).map_values(
            |l: Seq<char>| placed_words(l, width),
        ).flatten(),
{
    let ls = wrap_text(text_lines(content), width, 1);
    lemma_wrap_text_keeps_words(text_lines(content), width, 1);
    ls.lemma_flatten_push(Seq::<char>::empty());
    assert(ls.flatten() + Seq::<char>::empty() =~= ls.flatten());
}

/// What the digest shows of a file that holds one recorded entry: its answer under the
/// rating, the description or the notes when its question is one of those prompts, the
/// question and the answer under the other questions when it is another long question,
/// and nothing for a question of another kind.
pub proof fn lemma_single_entry_digest(
    question: Seq<char>,
    answer: Seq<char>,
    hour: nat,
    minute: nat,
)
    requires
        question_type_of(question) != QuestionType::Empty,
        !question.contains('\n'),
        crate::text::strip_cr(question) == question,
        !answer.contains('\n'),
        crate::text::strip_cr(answer) == answer,
        hour < 100,
        minute < 100,
    ensures
        ({
            let entry = question_entry_text(hour, minute, question) + answer_entry_text(answer);
            let shown = text_of(text_lines(entry).flatten());
            format_content_spec(entry) == Ok::<Seq<char>, QuestionError>(
                if prompt_type_of(question) == LongQuesitonType::Rating {
                    "rating: "@ + shown
                } else if prompt_type_of(question) == LongQuesitonType::Description {
                    "\n\ndescription: \n    "@ + shown
                } else if prompt_type_of(question) == LongQuesitonType::Note {
                    "\n\nnotes: \n    "@ + shown
                } else if question_type_of(question) == QuestionType::Long {
                    "\n\nother questions: \n"@ + indent() + text_of(question) + "\n"@ + indent()
                        + shown + seq!['\n']
                } else {
                    Seq::empty()
                },
            )
        }),
{
    let entry = question_entry_text(hour, minute, question) + answer_entry_text(answer);
    lemma_entry_read_back(question, answer, hour, minute);
    lemma_question_line_roundtrip(question);
    let lines = text_lines(entry);
    let info = lines[0];
    let answer_line = lines[2];
    assert(info.len() > 0);
    assert(question.len() > 0);
    assert(answer_line.len() > 0);
    let d0 = empty_digest();
    let c1 = info + seq!['\n'];
    let d1 = Digest { chunk: c1, ..d0 };
    assert(d0.chunk + info + seq!['\n'] =~= c1);
    assert(lines.len() == 3);
    assert(digest_lines(lines, 0) == Ok::<Digest, QuestionError>(d0));
    assert(digest_lines(lines, 1) == Ok::<Digest, QuestionError>(d1));
    let c2 = c1 + question + seq!['\n'];
    let d2 = Digest { chunk: c2, ..d0 };
    assert(digest_lines(lines, 2) == Ok::<Digest, QuestionError>(d2));
    let c3 = c2 + answer_line + seq!['\n'];
    assert(c3 =~= entry);
    let d3 = Digest { chunk: c3, ..d0 };
    assert(digest_lines(lines, 3) == digest_entry(d3, c3));
    assert(text_lines(c3) == lines);
    assert(lines[1] == question);
    let shown = text_of(lines.flatten());
    let pt = prompt_type_of(question);
    assert(format_content_spec(entry) == match digest_entry(d3, c3) {
        Ok(d) => Ok::<Seq<char>, QuestionError>(render_digest(d)),
        Err(e) => Err(e),
    });
    assert(digest_entry(d3, c3) is Ok);
    let d = digest_entry(d3, c3)->Ok_0;
    if pt == LongQuesitonType::Rating {
        assert(d =~= Digest { ratings: seq![shown], ..d0 });
        assert(seq![shown].drop_last() =~= Seq::<Seq<char>>::empty());
        assert(join(seq![shown], "->"@) == shown);
        assert(render_digest(Digest { ratings: seq![shown], ..d0 }) =~= "rating: "@ + shown);
    } else if pt == LongQuesitonType::Description {
        assert(d =~= Digest { descriptions: seq![shown], ..d0 });
        assert(join(seq![shown], "\n"@) == shown);
        assert(render_digest(Digest { descriptions: seq![shown], ..d0 }) =~= "\n\ndescription: \n    "@ + shown);
    } else if pt == LongQuesitonType::Note {
        assert(d =~= Digest { notes: seq![shown], ..d0 });
        assert(join(seq![shown], "\n"@) == shown);
        assert(render_digest(Digest { notes: seq![shown], ..d0 }) =~= "\n\nnotes: \n    "@ + shown);
    } else if question_type_of(question) == QuestionType::Long {
        let first = indent() + text_of(question);
        let second = indent() + shown + seq!['\n'];
        let items = Seq::<Seq<char>>::empty().push(first).push(second);
        assert(items.drop_last() =~= seq![first]);
        assert(d =~= Digest { long_questions: items, ..d0 });
        assert(join(seq![first], "\n"@) == first);
        assert(join(items, "\n"@) == first + "\n"@ + second);
        assert(render_digest(Digest { long_questions: items, ..d0 }) =~= "\n\nother questions: \n"@
            + first + "\n"@ + second);
        assert("\n\nother questions: \n"@ + first + "\n"@ + second =~= "\n\nother questions: \n"@
            + indent() + text_of(question) + "\n"@ + indent() + shown + seq!['\n']);
    } else {
        assert(d =~= d0);
        assert(render_digest(d0) =~= Seq::<char>::empty());
    }
}


/// The lines of texts laid out one after the other are laid out each on their own.
pub proof fn lemma_wrap_text_concat(l1: Seq<Seq<char>>, l2: Seq<Seq<char>>, width: int, gap: int)
    ensures
        wrap_text(l1 + l2, width, gap) == wrap_text(l1, width, gap) + wrap_text(l2, width, gap),
    decreases l2.len(),
{
    if l2.len() == 0 {
        assert(l1 + l2 =~= l1);
        assert(wrap_text(l1, width, gap) + wrap_text(l2, width, gap) =~= wrap_text(l1, width, gap));
    } else {
        lemma_wrap_text_concat(l1, l2.drop_last(), width, gap);
        assert((l1 + l2).drop_last() =~= l1 + l2.drop_last());
        assert((l1 + l2).last() == l2.last());
        assert(wrap_text(l1 + l2, width, gap) =~= wrap_text(l1, width, gap) + wrap_text(l2, width, gap));
    }
}

/// Each line of a text is laid out on its own: the pager's lines of two texts joined by
/// a newline are the lines of the first without its closing empty line, then the lines
/// of the second, when the first does not end in a newline or a carriage return.
pub proof fn lemma_display_lines_concat(a: Seq<char>, b: Seq<char>, width: int)
    requires
        a.len() > 0,
        a.last() != '\n',
        a.last() != '\r',
    ensures
        display_lines(a + seq!['\n'] + b, width) == display_lines(a, width).drop_last()
            + display_lines(b, width),
{
    lemma_lines_concat(a, b);
    lemma_wrap_text_concat(text_lines(a), text_lines(b), width, 1);
    assert(display_lines(a, width).drop_last() =~= wrap_text(text_lines(a), width, 1));
    assert(display_lines(a + seq!['\n'] + b, width) =~= display_lines(a, width).drop_last()
        + display_lines(b, width));
}

/// Reading a longer file agrees with reading a shorter one on every line before the
/// shorter one's last.
proof fn lemma_digest_prefix(lines: Seq<Seq<char>>, more: Seq<Seq<char>>, k: nat)
    requires
        k < lines.len(),
    ensures
        digest_lines(lines + more, k) == digest_lines(lines, k),
    decreases k,
{
    if k > 0 {
        lemma_digest_prefix(lines, more, (k - 1) as nat);
        assert((lines + more)[k - 1] == lines[k - 1]);
    }
}

/// An empty line after a file's last line, which is not empty, ends its last entry just
/// as the end of the file does.
proof fn lemma_blank_line_closes(lines: Seq<Seq<char>>, more: Seq<Seq<char>>)
    requires
        lines.len() > 0,
        lines.last().len() > 0,
        more.len() > 0,
        more[0].len() == 0,
    ensures
        digest_lines(lines + more, lines.len() + 1) == digest_lines(lines, lines.len()),
{
    let n = lines.len();
    let longer = lines + more;
    lemma_digest_prefix(lines, more, (n - 1) as nat);
    assert(longer[n - 1] == lines[n - 1]);
    assert(longer[n as int] == more[0]);
    match digest_lines(lines, (n - 1) as nat) {
        Err(e) => {
            assert(digest_lines(longer, n) == Err::<Digest, QuestionError>(e));
        },
        Ok(d) => {
            let chunk = d.chunk + lines[n - 1] + seq!['\n'];
            let d2 = Digest { chunk, ..d };
            assert(digest_lines(longer, n) == Ok::<Digest, QuestionError>(d2));
            assert(Digest { chunk: d2.chunk, ..d2 } == d2);
            assert(digest_lines(longer, n + 1) == digest_entry(d2, chunk));
            assert(digest_lines(lines, n) == digest_entry(d2, chunk));
        },
    }
}

/// A whole file read without error leaves no entry half read.
proof fn lemma_read_leaves_no_chunk(lines: Seq<Seq<char>>)
    ensures
        digest_lines(lines, lines.len()) matches Ok(d) ==> d.chunk == Seq::<char>::empty(),
{
    if lines.len() > 0 {
        let k = lines.len();
        if let Ok(d0) = digest_lines(lines, (k - 1) as nat) {
            let line = lines[k - 1];
            let chunk = if line.len() > 0 { d0.chunk + line + seq!['\n'] } else { d0.chunk };
            assert(digest_lines(lines, k) == digest_entry(Digest { chunk, ..d0 }, chunk));
        }
    }
}

/// The three lines of a recorded entry, joined, without the kind of the first.
pub open spec fn entry_answer(question: Seq<char>, answer: Seq<char>, hour: nat, minute: nat) -> Seq<char> {
    two_digits(hour) + seq![':'] + two_digits(minute) + question + seq!['a', ':', ' '] + answer
}

/// Reading a file, then an empty line and a recorded entry, reads the entry as the last
/// one of the file.
#[verifier::spinoff_prover]
#[verifier::rlimit(50)]
proof fn lemma_entry_after_blank_line(
    content: Seq<char>,
    question: Seq<char>,
    answer: Seq<char>,
    hour: nat,
    minute: nat,
)
    requires
        content.len() > 0,
        content.last() != '\n',
        content.last() != '\r',
        question_type_of(question) != QuestionType::Empty,
        !question.contains('\n'),
        crate::text::strip_cr(question) == question,
        !answer.contains('\n'),
        crate::text::strip_cr(answer) == answer,
        hour < 100,
        minute < 100,
    ensures
        ({
            let entry = question_entry_text(hour, minute, question) + answer_entry_text(answer);
            let all = text_lines(content + seq!['\n', '\n'] + entry);
            let lines = text_lines(content);
            &&& text_lines(entry).len() == 3
            &&& text_lines(entry)[1] == question
            &&& text_of(text_lines(entry).flatten()) == entry_answer(question, answer, hour, minute)
            &&& digest_lines(all, all.len()) == match digest_lines(lines, lines.len()) {
                Err(e) => Err(e),
                Ok(d) => digest_entry(Digest { chunk: entry, ..d }, entry),
            }
        }),
{
    let entry = question_entry_text(hour, minute, question) + answer_entry_text(answer);
    lemma_entry_read_back(question, answer, hour, minute);
    lemma_question_line_roundtrip(question);
    let e3 = text_lines(entry);
    let info = e3[0];
    let answer_line = e3[2];
    assert(info.len() > 0);
    assert(question.len() > 0);
    assert(answer_line.len() > 0);
    lemma_lines_concat(content, seq!['\n'] + entry);
    assert(content + seq!['\n', '\n'] + entry =~= content + seq!['\n'] + (seq!['\n'] + entry));
    lemma_lines_after_newline(entry);
    let lines = text_lines(content);
    let more = seq![Seq::<char>::empty()] + e3;
    let all = text_lines(content + seq!['\n', '\n'] + entry);
    assert(all =~= lines + more);
    crate::text::lemma_split_nonempty(content, '\n');
    crate::text::lemma_split_last_piece(content, '\n');
    let n = lines.len();
    assert(n >= 1);
    assert(lines[n - 1].len() > 0);
    lemma_blank_line_closes(lines, more);
    assert(all.len() == n + 4);
    assert(all[n + 1int] == info);
    assert(all[n + 2int] == question);
    assert(all[n + 3int] == answer_line);
    lemma_read_leaves_no_chunk(lines);
    match digest_lines(lines, n) {
        Err(e) => {
            lemma_digest_error_stays(all, n + 1, n + 4);
        },
        Ok(d) => {
            let c1 = d.chunk + info + seq!['\n'];
            assert(digest_lines(all, n + 2) == Ok::<Digest, QuestionError>(Digest { chunk: c1, ..d }));
            let c2 = c1 + question + seq!['\n'];
            assert(digest_lines(all, n + 3) == Ok::<Digest, QuestionError>(Digest { chunk: c2, ..d }));
            let c3 = c2 + answer_line + seq!['\n'];
            assert(c3 =~= entry);
            assert(Digest { chunk: c3, ..Digest { chunk: c2, ..d } } == Digest { chunk: entry, ..d });
            assert(digest_lines(all, n + 4) == digest_entry(Digest { chunk: entry, ..d }, entry));
        },
    }
    let flat = e3.flatten();
    assert(e3 =~= seq![info, question, answer_line]);
    assert(e3.drop_first() =~= seq![question, answer_line]);
    assert(e3.drop_first().drop_first() =~= seq![answer_line]);
    assert(e3.drop_first().drop_first().drop_first() =~= Seq::<Seq<char>>::empty());
    seq![answer_line].lemma_flatten_one_element();
    let rest = e3.drop_first();
    assert(rest.flatten() == rest.first() + rest.drop_first().flatten());
    assert(rest.drop_first() =~= seq![answer_line]);
    assert(rest.flatten() =~= question + answer_line);
    assert(flat == e3.first() + rest.flatten());
    assert(flat =~= info + question + answer_line);
    assert(flat.skip(3) =~= info.skip(3) + question + answer_line);
    assert(text_of(flat) =~= entry_answer(question, answer, hour, minute));
}

/// Appending a recorded entry to a day's file, after an empty line, adds its answer at
/// the end of the ratings, the descriptions or the notes when its question is one of
/// those prompts, adds the question and the answer at the end of the other questions
/// when it is another long question, and keeps everything else; a file that cannot be
/// read stays unreadable with the same error.
pub proof fn lemma_entry_appended(
    content: Seq<char>,
    question: Seq<char>,
    answer: Seq<char>,
    hour: nat,
    minute: nat,
)
    requires
        content.len() > 0,
        content.last() != '\n',
        content.last() != '\r',
        question_type_of(question) != QuestionType::Empty,
        !question.contains('\n'),
        crate::text::strip_cr(question) == question,
        !answer.contains('\n'),
        crate::text::strip_cr(answer) == answer,
        hour < 100,
        minute < 100,
    ensures
        ({
            let entry = question_entry_text(hour, minute, question) + answer_entry_text(answer);
            let longer = content + seq!['\n', '\n'] + entry;
            let shown = entry_answer(question, answer, hour, minute);
            let pt = prompt_type_of(question);
            match digest_of(content) {
                Err(e) => digest_of(longer) == Err::<Digest, QuestionError>(e),
                Ok(d) => digest_of(longer) == Ok::<Digest, QuestionError>(
                    Digest {
                        chunk: Seq::empty(),
                        ratings: if pt == LongQuesitonType::Rating {
                            d.ratings.push(shown)
                        } else {
                            d.ratings
                        },
                        descriptions: if pt == LongQuesitonType::Description {
                            d.descriptions.push(shown)
                        } else {
                            d.descriptions
                        },
                        notes: if pt == LongQuesitonType::Note {
                            d.notes.push(shown)
                        } else {
                            d.notes
                        },
                        long_questions: if pt == LongQuesitonType::Regular && question_type_of(question)
                            == QuestionType::Long {
                            d.long_questions.push(indent() + text_of(question)).push(
                                indent() + shown + seq!['\n'],
                            )
                        } else {
                            d.long_questions
                        },
                    },
                ),
            }
        }),
{
    lemma_entry_after_blank_line(content, question, answer, hour, minute);
}

/// A digest with nothing but ratings shows only its rating section.
proof fn lemma_ratings_only_render(d: Digest)
    requires
        d.descriptions.len() == 0,
        d.notes.len() == 0,
        d.long_questions.len() == 0,
    ensures
        render_digest(d) == section("rating: "@, d.ratings, "->"@),
{
    assert(render_digest(d) =~= section("rating: "@, d.ratings, "->"@));
}

/// A digest without a line break holds nothing but ratings: each other section starts
/// with a line break.
proof fn lemma_digest_without_break(d: Digest)
    requires
        !render_digest(d).contains('\n'),
    ensures
        d.descriptions.len() == 0,
        d.notes.len() == 0,
        d.long_questions.len() == 0,
        render_digest(d) == section("rating: "@, d.ratings, "->"@),
{
    let a = section("rating: "@, d.ratings, "->"@);
    let b = section("\n\ndescription: \n    "@, d.descriptions, "\n"@);
    let c = section("\n\nnotes: \n    "@, d.notes, "\n"@);
    let e = section("\n\nother questions: \n"@, d.long_questions, "\n"@);
    let r = render_digest(d);
    assert(r == a + b + c + e);
    reveal_strlit("\n\ndescription: \n    ");
    reveal_strlit("\n\nnotes: \n    ");
    reveal_strlit("\n\nother questions: \n");
    if d.descriptions.len() > 0 {
        assert(r[a.len() as int] == '\n');
    }
    if d.notes.len() > 0 {
        assert(r[(a.len() + b.len()) as int] == '\n');
    }
    if d.long_questions.len() > 0 {
        assert(r[(a.len() + b.len() + c.len()) as int] == '\n');
    }
    lemma_ratings_only_render(d);
}

/// Every rating of a day is kept, in the order of the file: appending a rating entry to
/// a day's file, after an empty line, puts its answer at the end of the rating section,
/// after `->` when the file already has ratings. This is stated of files whose digest
/// has nothing but ratings, so that the rating section is the whole digest; a file
/// that cannot be read stays unreadable.
pub proof fn lemma_rating_appended(
    content: Seq<char>,
    question: Seq<char>,
    answer: Seq<char>,
    hour: nat,
    minute: nat,
)
    requires
        content.len() > 0,
        content.last() != '\n',
        content.last() != '\r',
        prompt_type_of(question) == LongQuesitonType::Rating,
        !question.contains('\n'),
        crate::text::strip_cr(question) == question,
        !answer.contains('\n'),
        crate::text::strip_cr(answer) == answer,
        hour < 100,
        minute < 100,
    ensures
        ({
            let entry = question_entry_text(hour, minute, question) + answer_entry_text(answer);
            let longer = content + seq!['\n', '\n'] + entry;
            let shown = entry_answer(question, answer, hour, minute);
            match format_content_spec(content) {
                Err(e) => format_content_spec(longer) == Err::<Seq<char>, QuestionError>(e),
                Ok(s) => !s.contains('\n') ==> format_content_spec(longer)
                    == Ok::<Seq<char>, QuestionError>(
                    if s.len() == 0 {
                        "rating: "@ + shown
                    } else {
                        s + "->"@ + shown
                    },
                ),
            }
        }),
{
    let entry = question_entry_text(hour, minute, question) + answer_entry_text(answer);
    let shown = entry_answer(question, answer, hour, minute);
    lemma_entry_after_blank_line(content, question, answer, hour, minute);
    let lines = text_lines(content);
    lemma_read_leaves_no_chunk(lines);
    if let Ok(d) = digest_lines(lines, lines.len()) {
        let s = render_digest(d);
        if !s.contains('\n') {
            lemma_digest_without_break(d);
            let d2 = Digest { ratings: d.ratings.push(shown), ..d };
            assert(digest_entry(Digest { chunk: entry, ..d }, entry) == Ok::<Digest, QuestionError>(d2));
            lemma_ratings_only_render(d2);
            reveal_strlit("rating: ");
            if d.ratings.len() == 0 {
                assert(d.ratings.push(shown) =~= seq![shown]);
                assert(join(seq![shown], "->"@) == shown);
                assert(s =~= Seq::<char>::empty());
            } else {
                assert(d.ratings.push(shown).drop_last() =~= d.ratings);
                assert(join(d.ratings.push(shown), "->"@) == join(d.ratings, "->"@) + "->"@ + shown);
                assert(render_digest(d2) =~= s + "->"@ + shown);
            }
        }
    }
}

/// Every description and every note of a day is kept, in the order of the file:
/// appending a description (or a note) entry to a day's file, after an empty line, puts
/// its answer on a line of its own at the end of the description (or notes) section.
/// This is stated of files whose digest has nothing but descriptions (or nothing but
/// notes), so that this section is the whole digest.
pub proof fn lemma_text_entry_appended(
    content: Seq<char>,
    question: Seq<char>,
    answer: Seq<char>,
    hour: nat,
    minute: nat,
)
    requires
        content.len() > 0,
        content.last() != '\n',
        content.last() != '\r',
        prompt_type_of(question) == LongQuesitonType::Description || prompt_type_of(question)
            == LongQuesitonType::Note,
        !question.contains('\n'),
        crate::text::strip_cr(question) == question,
        !answer.contains('\n'),
        crate::text::strip_cr(answer) == answer,
        hour < 100,
        minute < 100,
    ensures
        ({
            let entry = question_entry_text(hour, minute, question) + answer_entry_text(answer);
            let longer = content + seq!['\n', '\n'] + entry;
            let shown = entry_answer(question, answer, hour, minute);
            let heading = if prompt_type_of(question) == LongQuesitonType::Description {
                "\n\ndescription: \n    "@
            } else {
                "\n\nnotes: \n    "@
            };
            match digest_of(content) {
                Err(e) => format_content_spec(longer) == Err::<Seq<char>, QuestionError>(e),
                Ok(d) => {
                    let items = if prompt_type_of(question) == LongQuesitonType::Description {
                        d.descriptions
                    } else {
                        d.notes
                    };
                    let others = if prompt_type_of(question) == LongQuesitonType::Description {
                        d.notes
                    } else {
                        d.descriptions
                    };
                    d.ratings.len() == 0 && others.len() == 0 && d.long_questions.len() == 0
                        ==> format_content_spec(longer) == Ok::<Seq<char>, QuestionError>(
                        if items.len() == 0 {
                            heading + shown
                        } else {
                            render_digest(d) + "\n"@ + shown
                        },
                    )
                },
            }
        }),
{
    let shown = entry_answer(question, answer, hour, minute);
    lemma_entry_appended(content, question, answer, hour, minute);
    if let Ok(d) = digest_of(content) {
        if prompt_type_of(question) == LongQuesitonType::Description {
            let d2 = Digest { chunk: Seq::empty(), descriptions: d.descriptions.push(shown), ..d };
            if d.ratings.len() == 0 && d.notes.len() == 0 && d.long_questions.len() == 0 {
                assert(render_digest(d) =~= section("\n\ndescription: \n    "@, d.descriptions, "\n"@));
                assert(render_digest(d2) =~= section("\n\ndescription: \n    "@, d.descriptions.push(shown), "\n"@));
                if d.descriptions.len() == 0 {
                    assert(d.descriptions.push(shown) =~= seq![shown]);
                    assert(join(seq![shown], "\n"@) == shown);
                } else {
                    assert(d.descriptions.push(shown).drop_last() =~= d.descriptions);
                    assert(render_digest(d2) =~= render_digest(d) + "\n"@ + shown);
                }
            }
        } else {
            let d2 = Digest { chunk: Seq::empty(), notes: d.notes.push(shown), ..d };
            if d.ratings.len() == 0 && d.descriptions.len() == 0 && d.long_questions.len() == 0 {
                assert(render_digest(d) =~= section("\n\nnotes: \n    "@, d.notes, "\n"@));
                assert(render_digest(d2) =~= section("\n\nnotes: \n    "@, d.notes.push(shown), "\n"@));
                if d.notes.len() == 0 {
                    assert(d.notes.push(shown) =~= seq![shown]);
                    assert(join(seq![shown], "\n"@) == shown);
                } else {
                    assert(d.notes.push(shown).drop_last() =~= d.notes);
                    assert(render_digest(d2) =~= render_digest(d) + "\n"@ + shown);
                }
            }
        }
    }
}

/// A closing blank line leaves the digest unchanged: the last entry of a file is read at
/// the end of the file just as when an empty line closes it.
pub proof fn lemma_closing_blank_line(content: Seq<char>)
    requires
        content.len() > 0,
        content.last() != '\n',
        content.last() != '\r',
    ensures
        format_content_spec(content + seq!['\n', '\n']) == format_content_spec(content),
{
    let nl = seq!['\n'];
    assert(content + seq!['\n', '\n'] =~= content + seq!['\n'] + nl);
    lemma_lines_concat(content, nl);
    assert(nl.drop_last() =~= Seq::<char>::empty());
    crate::text::lemma_split_nonempty(Seq::<char>::empty(), '\n');
    assert(crate::text::split_on(nl, '\n') =~= seq![Seq::<char>::empty(), Seq::<char>::empty()]);
    assert(text_lines(nl) =~= seq![Seq::<char>::empty()]);
    let lines = text_lines(content);
    let longer = text_lines(content + seq!['\n', '\n']);
    assert(longer =~= lines + seq![Seq::<char>::empty()]);
    crate::text::lemma_split_nonempty(content, '\n');
    crate::text::lemma_split_last_piece(content, '\n');
    assert(lines[lines.len() - 1].len() > 0);
    lemma_blank_line_closes(lines, seq![Seq::<char>::empty()]);
}

} // verus!
