//! Day file names and the decimal digits they are written with.
use vstd::prelude::*;

use chrono::Datelike;
use chrono::Timelike;

use crate::pager::{cuts_on_boundaries, window, window_lines, wrap_content, wrap_text};
use crate::text::{push_char, string_views, text_lines};

verus! {

/// The character of decimal digit `d`.
pub open spec fn digit_char(d: nat) -> char {
    (d + 48) as char
}

/// The decimal digits of `n`, without leading zeros.
pub open spec fn decimal(n: nat) -> Seq<char>
    decreases n,
{
    if n < 10 {
        seq![digit_char(n)]
    } else {
        decimal(n / 10).push(digit_char(n % 10))
    }
}

/// `s` with zeros in front up to `width` characters.
pub open spec fn zero_padded(s: Seq<char>, width: nat) -> Seq<char> {
    if s.len() < width {
        Seq::new((width - s.len()) as nat, |i: int| '0') + s
    } else {
        s
    }
}

/// Two decimal digits of `n < 100`, with a leading zero below ten (`%H`, `%M`, `%m`, `%d`).
pub open spec fn two_digits(n: nat) -> Seq<char> {
    seq![digit_char(n / 10), digit_char(n % 10)]
}

/// A year as `%Y` writes it: four digits with leading zeros from 0 to 9999, and
/// otherwise a sign before at least four digits.
pub open spec fn year_text(year: int) -> Seq<char> {
    if 0 <= year <= 9999 {
        zero_padded(decimal(year as nat), 4)
    } else if year < 0 {
        seq!['-'] + zero_padded(decimal((-year) as nat), 4)
    } else {
        seq!['+'] + zero_padded(decimal(year as nat), 4)
    }
}

/// The name of the journal file of a day: `%Y-%m-%d.txt`.
pub open spec fn day_file_name_text(year: int, month: nat, day: nat) -> Seq<char> {
    year_text(year) + seq!['-'] + two_digits(month) + seq!['-'] + two_digits(day) + seq![
        '.',
        't',
        'x',
        't',
    ]
}

/// The character of decimal digit `d`.
pub fn digit(d: u32) -> (c: char)
    requires
        d < 10,
    ensures
        c == digit_char(d as nat),
{
    (48u8 + d as u8) as char
}

/// Appends the decimal digits of `n`.
pub fn push_decimal(s: &mut String, n: u32)
    ensures
        final(s)@ == old(s)@ + decimal(n as nat),
    decreases n,
{
    if n >= 10 {
        push_decimal(s, n / 10);
    }
    push_char(s, digit(n % 10));
    proof {
        assert(final(s)@ =~= old(s)@ + decimal(n as nat));
    }
}

/// The number of decimal digits of `n`.
pub fn decimal_len(n: u32) -> (len: usize)
    ensures
        len == decimal(n as nat).len(),
        1 <= len <= n as int + 1,
    decreases n,
{
    if n < 10 {
        1
    } else {
        1 + decimal_len(n / 10)
    }
}

/// Appends the decimal digits of `n` with zeros in front up to `width` characters.
pub fn push_zero_padded(s: &mut String, n: u32, width: usize)
    ensures
        final(s)@ == old(s)@ + zero_padded(decimal(n as nat), width as nat),
{
    let len = decimal_len(n);
    let mut k: usize = len;
    while k < width
        invariant
            len == decimal(n as nat).len(),
            len <= k <= if width < len { len } else { width },
            s@ == old(s)@ + Seq::new((k - len) as nat, |i: int| '0'),
        decreases width - k,
    {
        push_char(s, '0');
        k += 1;
        proof {
            assert(s@ =~= old(s)@ + Seq::new((k - len) as nat, |i: int| '0'));
        }
    }
    let ghost before = s@;
    push_decimal(s, n);
    proof {
        if len < width {
            assert(s@ =~= old(s)@ + zero_padded(decimal(n as nat), width as nat));
        } else {
            assert(before =~= old(s)@);
        }
    }
}

/// Appends two digits of `n < 100`.
pub fn push_two_digits(s: &mut String, n: u32)
    requires
        n < 100,
    ensures
        final(s)@ == old(s)@ + two_digits(n as nat),
{
    push_char(s, digit(n / 10));
    push_char(s, digit(n % 10));
    proof {
        assert(final(s)@ =~= old(s)@ + two_digits(n as nat));
    }
}

/// Appends a year as `%Y` writes it.
pub fn push_year(s: &mut String, year: i32)
    ensures
        final(s)@ == old(s)@ + year_text(year as int),
{
    if 0 <= year && year <= 9999 {
        push_zero_padded(s, year as u32, 4);
    } else if year < 0 {
        push_char(s, '-');
        let magnitude: u32 = (-(year as i64)) as u32;
        push_zero_padded(s, magnitude, 4);
    } else {
        push_char(s, '+');
        push_zero_padded(s, year as u32, 4);
    }
    proof {
        assert(final(s)@ =~= old(s)@ + year_text(year as int));
    }
}

/// The name of the journal file of the given day.
pub fn day_file_name(year: i32, month: u32, day: u32) -> (name: String)
    requires
        month < 100,
        day < 100,
    ensures
        name@ == day_file_name_text(year as int, month as nat, day as nat),
{
    let mut name = String::new();
    push_year(&mut name, year);
    push_char(&mut name, '-');
    push_two_digits(&mut name, month);
    push_char(&mut name, '-');
    push_two_digits(&mut name, day);
    push_char(&mut name, '.');
    push_char(&mut name, 't');
    push_char(&mut name, 'x');
    push_char(&mut name, 't');
    proof {
        assert(name@ =~= day_file_name_text(year as int, month as nat, day as nat));
    }
    name
}

/// The local date `days_before` days before now (`chrono::offset::Local::now()` minus
/// `chrono::Duration::days`), as year, month and day. The date depends on the clock, so
/// only the ranges of `Datelike::year`, `month` and `day` are stated. The bound on
/// `days_before` keeps the subtraction inside chrono's years for any clock between the
/// years 1970 and 4000; a clock outside those years is not considered.
#[verifier::external_body]
fn local_date_days_before(days_before: i64) -> (date: (i32, u32, u32))
    requires
        -90_000_000 <= days_before <= 90_000_000,
    ensures
        -262143 <= date.0 <= 262142,
        1 <= date.1 <= 12,
        1 <= date.2 <= 31,
{
    let date = chrono::offset::Local::now() - chrono::Duration::days(days_before);
    (date.year(), date.month(), date.day())
}

/// The name of the journal file of the day `days_before` days before today.
pub fn get_day_file_name(days_before: i64) -> (name: String)
    requires
        -90_000_000 <= days_before <= 90_000_000,
    ensures
        exists|year: int, month: nat, day: nat|
            -262143 <= year <= 262142 && 1 <= month <= 12 && 1 <= day <= 31 && name@
                == day_file_name_text(year, month, day),
{
    let (year, month, day) = local_date_days_before(days_before);
    let name = day_file_name(year, month, day);
    proof {
        assert(name@ == day_file_name_text(year as int, month as nat, day as nat));
    }
    name
}

/// The local time of day (`chrono::offset::Local::now()`), as hour and minute. It
/// depends on the clock, so only the ranges of `Timelike::hour` and `minute` are stated.
#[verifier::external_body]
pub(crate) fn local_hour_minute() -> (time: (u32, u32))
    ensures
        time.0 < 24,
        time.1 < 60,
{
    let now = chrono::offset::Local::now();
    (now.hour(), now.minute())
}


/// The terminal lines of a journal file on a terminal `term_width` columns wide, in the
/// file viewer's layout: a new terminal line starts only when the next word would pass
/// the width itself.
pub fn file_display_lines(content: &String, term_width: u16) -> (lines: Vec<String>)
    requires
        cuts_on_boundaries(content@, term_width as int),
    ensures
        string_views(lines@) == wrap_text(text_lines(content@), term_width as int, 0),
{
    wrap_content(content, term_width as usize, 0)
}

/// The terminal lines the file viewer shows on a terminal `term_height` rows high,
/// scrolled by `height_index`: those after line `height_index` that fit below the two
/// header rows. The bound on the window is only computed when some line lies after
/// `height_index`.
pub fn visible_file_lines(
    terminal_lines: &Vec<String>,
    height_index: usize,
    term_height: u16,
) -> (shown: Vec<String>)
    requires
        terminal_lines.len() <= height_index + 1 || (height_index + term_height >= 2
            && height_index + term_height <= usize::MAX),
    ensures
        string_views(shown@) == window(
            string_views(terminal_lines@),
            height_index + 1,
            height_index + term_height - 1,
        ),
{
    if terminal_lines.len() == 0 || terminal_lines.len() - 1 <= height_index {
        let shown: Vec<String> = Vec::new();
        proof {
            assert(string_views(shown@) =~= window(
                string_views(terminal_lines@),
                height_index + 1,
                height_index + term_height - 1,
            ));
        }
        return shown;
    }
    let lo = height_index + 1;
    window_lines(terminal_lines, lo, height_index + term_height as usize - 2 + 1)
}


/// The name of a day's file is a `.txt` file name, so the search for today's file
/// recognises it.
pub proof fn lemma_day_file_is_txt(year: int, month: nat, day: nat)
    ensures
        crate::file_parsing::has_txt_extension(day_file_name_text(year, month, day)),
{
    let name = day_file_name_text(year, month, day);
    assert(year_text(year).len() >= 1);
    assert(name.skip(name.len() - 4) =~= seq!['.', 't', 'x', 't']);
}


/// Whether `a` comes before `b` in string order: at the first place where they differ,
/// `a` has the smaller character, or `a` is a proper start of `b`.
pub open spec fn lex_less(a: Seq<char>, b: Seq<char>) -> bool
    decreases a.len(),
{
    if a.len() == 0 {
        b.len() > 0
    } else if b.len() == 0 {
        false
    } else if a[0] != b[0] {
        (a[0] as u32) < (b[0] as u32)
    } else {
        lex_less(a.drop_first(), b.drop_first())
    }
}

/// A common start does not change the order.
proof fn lemma_lex_common_prefix(p: Seq<char>, x: Seq<char>, y: Seq<char>)
    ensures
        lex_less(p + x, p + y) == lex_less(x, y),
    decreases p.len(),
{
    if p.len() > 0 {
        assert((p + x).drop_first() =~= p.drop_first() + x);
        assert((p + y).drop_first() =~= p.drop_first() + y);
        lemma_lex_common_prefix(p.drop_first(), x, y);
    } else {
        assert(p + x =~= x);
        assert(p + y =~= y);
    }
}

/// Between different starts of equal length, the starts decide the order.
proof fn lemma_lex_block(s: Seq<char>, t: Seq<char>, x: Seq<char>, y: Seq<char>)
    requires
        s.len() == t.len(),
        s != t,
    ensures
        lex_less(s + x, t + y) == lex_less(s, t),
    decreases s.len(),
{
    if s.len() == 0 {
        assert(s =~= t);
    } else {
        assert((s + x)[0] == s[0]);
        assert((t + y)[0] == t[0]);
        if s[0] == t[0] {
            assert(s.drop_first() != t.drop_first()) by {
                if s.drop_first() == t.drop_first() {
                    assert forall|i: int| 0 <= i < s.len() implies s[i] == t[i] by {
                        if i > 0 {
                            assert(s[i] == s.drop_first()[i - 1]);
                            assert(t[i] == t.drop_first()[i - 1]);
                        }
                    }
                    assert(s =~= t);
                }
            }
            assert((s + x).drop_first() =~= s.drop_first() + x);
            assert((t + y).drop_first() =~= t.drop_first() + y);
            lemma_lex_block(s.drop_first(), t.drop_first(), x, y);
        }
    }
}

proof fn lemma_digit_char(n: nat)
    requires
        n < 10,
    ensures
        digit_char(n) as u32 == n + 48,
{
}

/// The four digits of a year from 0 to 9999.
pub open spec fn four_digits(y: nat) -> Seq<char> {
    seq![
        digit_char(y / 1000),
        digit_char((y / 100) % 10),
        digit_char((y / 10) % 10),
        digit_char(y % 10),
    ]
}

proof fn lemma_year_digits(y: nat)
    requires
        y <= 9999,
    ensures
        year_text(y as int) == four_digits(y),
{
    reveal_with_fuel(decimal, 5);
    assert(digit_char(0) == '0');
    if y < 10 {
        assert(year_text(y as int) =~= four_digits(y));
    } else if y < 100 {
        assert(decimal(y) =~= seq![digit_char(y / 10), digit_char(y % 10)]);
        assert(year_text(y as int) =~= four_digits(y));
    } else if y < 1000 {
        assert(decimal(y / 10) =~= seq![digit_char(y / 100), digit_char((y / 10) % 10)]);
        assert(year_text(y as int) =~= four_digits(y));
    } else {
        assert(decimal(y / 100) =~= seq![digit_char(y / 1000), digit_char((y / 100) % 10)]);
        assert(decimal(y / 10) =~= seq![digit_char(y / 1000), digit_char((y / 100) % 10), digit_char((y / 10) % 10)]);
        assert(year_text(y as int) =~= four_digits(y));
    }
}

proof fn lemma_two_digits_order(u: nat, v: nat)
    requires
        u < v < 100,
    ensures
        two_digits(u) != two_digits(v),
        lex_less(two_digits(u), two_digits(v)),
{
    lemma_digit_char(u / 10);
    lemma_digit_char(v / 10);
    lemma_digit_char(u % 10);
    lemma_digit_char(v % 10);
    let a = two_digits(u);
    let b = two_digits(v);
    assert(u / 10 <= v / 10);
    if u / 10 == v / 10 {
        assert(u % 10 < v % 10);
        assert(a.drop_first() =~= seq![digit_char(u % 10)]);
        assert(b.drop_first() =~= seq![digit_char(v % 10)]);
        assert(a[1] != b[1]);
        assert(lex_less(a, b) == lex_less(a.drop_first(), b.drop_first()));
    } else {
        assert(a[0] != b[0]);
    }
}

/// A number below 10000 is its four digits.
proof fn lemma_four_digit_split(u: nat)
    requires
        u <= 9999,
    ensures
        u == 1000 * (u / 1000) + 100 * ((u / 100) % 10) + 10 * ((u / 10) % 10) + u % 10,
        u / 1000 < 10,
        u / 100 == 10 * (u / 1000) + (u / 100) % 10,
        u / 10 == 100 * (u / 1000) + 10 * ((u / 100) % 10) + (u / 10) % 10,
{
    assert(u / 10 == 10 * (u / 100) + (u / 10) % 10) by (nonlinear_arith);
    assert(u / 100 == 10 * (u / 1000) + (u / 100) % 10) by (nonlinear_arith);
    assert(u == 10 * (u / 10) + u % 10) by (nonlinear_arith);
}

/// How the digits of two numbers below 10000 decide which is smaller.
proof fn lemma_four_digit_compare(u: nat, v: nat)
    requires
        u < v <= 9999,
    ensures
        u / 1000 <= v / 1000,
        u / 1000 == v / 1000 ==> (u / 100) % 10 <= (v / 100) % 10,
        u / 1000 == v / 1000 && (u / 100) % 10 == (v / 100) % 10 ==> (u / 10) % 10 <= (v / 10)
            % 10,
        u / 1000 == v / 1000 && (u / 100) % 10 == (v / 100) % 10 && (u / 10) % 10 == (v / 10) % 10
            ==> u % 10 < v % 10,
{
    lemma_four_digit_split(u);
    lemma_four_digit_split(v);
}

proof fn lemma_four_digits_order(u: nat, v: nat)
    requires
        u < v <= 9999,
    ensures
        four_digits(u) != four_digits(v),
        lex_less(four_digits(u), four_digits(v)),
{
    let a = four_digits(u);
    let b = four_digits(v);
    lemma_digit_char(u / 1000);
    lemma_digit_char(v / 1000);
    lemma_digit_char((u / 100) % 10);
    lemma_digit_char((v / 100) % 10);
    lemma_digit_char((u / 10) % 10);
    lemma_digit_char((v / 10) % 10);
    lemma_digit_char(u % 10);
    lemma_digit_char(v % 10);
    let a1 = a.drop_first();
    let b1 = b.drop_first();
    let a2 = a1.drop_first();
    let b2 = b1.drop_first();
    let a3 = a2.drop_first();
    let b3 = b2.drop_first();
    assert(a1 =~= seq![a[1], a[2], a[3]]);
    assert(b1 =~= seq![b[1], b[2], b[3]]);
    assert(a2 =~= seq![a[2], a[3]]);
    assert(b2 =~= seq![b[2], b[3]]);
    assert(a3 =~= seq![a[3]]);
    assert(b3 =~= seq![b[3]]);
    lemma_four_digit_compare(u, v);
    if u / 1000 != v / 1000 {
        assert(a[0] != b[0]);
    } else {
        assert(lex_less(a, b) == lex_less(a1, b1));
        if (u / 100) % 10 != (v / 100) % 10 {
            assert(a1[0] != b1[0]);
        } else {
            assert(lex_less(a1, b1) == lex_less(a2, b2));
            if (u / 10) % 10 != (v / 10) % 10 {
                assert(a2[0] != b2[0]);
            } else {
                assert(lex_less(a2, b2) == lex_less(a3, b3));
                assert(a3[0] != b3[0]);
            }
        }
    }
}

/// Day file names order like their dates: the name of an earlier date (year, then month,
/// then day) comes first in string order, for years from 0 to 9999.
pub proof fn lemma_day_file_names_ordered(
    y1: nat,
    m1: nat,
    d1: nat,
    y2: nat,
    m2: nat,
    d2: nat,
)
    requires
        y1 <= 9999,
        y2 <= 9999,
        m1 < 100,
        m2 < 100,
        d1 < 100,
        d2 < 100,
        y1 < y2 || (y1 == y2 && m1 < m2) || (y1 == y2 && m1 == m2 && d1 < d2),
    ensures
        lex_less(
            day_file_name_text(y1 as int, m1, d1),
            day_file_name_text(y2 as int, m2, d2),
        ),
{
    lemma_year_digits(y1);
    lemma_year_digits(y2);
    let dash = seq!['-'];
    let txt = seq!['.', 't', 'x', 't'];
    let n1 = day_file_name_text(y1 as int, m1, d1);
    let n2 = day_file_name_text(y2 as int, m2, d2);
    if y1 < y2 {
        lemma_four_digits_order(y1, y2);
        let r1 = dash + two_digits(m1) + dash + two_digits(d1) + txt;
        let r2 = dash + two_digits(m2) + dash + two_digits(d2) + txt;
        assert(n1 =~= four_digits(y1) + r1);
        assert(n2 =~= four_digits(y2) + r2);
        lemma_lex_block(four_digits(y1), four_digits(y2), r1, r2);
    } else if m1 < m2 {
        lemma_two_digits_order(m1, m2);
        let p = four_digits(y1) + dash;
        let r1 = dash + two_digits(d1) + txt;
        let r2 = dash + two_digits(d2) + txt;
        assert(n1 =~= p + (two_digits(m1) + r1));
        assert(n2 =~= p + (two_digits(m2) + r2));
        lemma_lex_common_prefix(p, two_digits(m1) + r1, two_digits(m2) + r2);
        lemma_lex_block(two_digits(m1), two_digits(m2), r1, r2);
    } else {
        lemma_two_digits_order(d1, d2);
        let p = four_digits(y1) + dash + two_digits(m1) + dash;
        assert(n1 =~= p + (two_digits(d1) + txt));
        assert(n2 =~= p + (two_digits(d2) + txt));
        lemma_lex_common_prefix(p, two_digits(d1) + txt, two_digits(d2) + txt);
        lemma_lex_block(two_digits(d1), two_digits(d2), txt, txt);
    }
}

} // verus!
