//! Splitting text into newline-separated pieces and lines.
use vstd::prelude::*;

verus! {

/// The views of a sequence of strings.
pub open spec fn string_views(v: Seq<String>) -> Seq<Seq<char>> {
    v.map_values(|s: String| s@)
}

/// The pieces of `s` between `sep` separators, as `str::split(sep)` yields them:
/// there is always one more piece than there are separators.
pub open spec fn split_on(s: Seq<char>, sep: char) -> Seq<Seq<char>>
    decreases s.len(),
{
    if s.len() == 0 {
        seq![Seq::<char>::empty()]
    } else {
        let pieces = split_on(s.drop_last(), sep);
        if s.last() == sep {
            pieces.push(Seq::<char>::empty())
        } else {
            pieces.update(pieces.len() - 1, pieces.last().push(s.last()))
        }
    }
}

/// The pieces of `s` between newlines (`str::split('\n')`).
pub open spec fn split_on_newline(s: Seq<char>) -> Seq<Seq<char>> {
    split_on(s, '\n')
}

/// Splitting always yields at least one piece.
pub proof fn lemma_split_nonempty(s: Seq<char>, sep: char)
    ensures
        split_on(s, sep).len() >= 1,
    decreases s.len(),
{
    if s.len() > 0 {
        lemma_split_nonempty(s.drop_last(), sep);
    }
}

/// Appends one character (`String::push`): the string afterwards is the string before
/// with `c` at its end, as std documents.
#[verifier::external_body]
pub(crate) fn push_char(s: &mut String, c: char)
    ensures
        final(s)@ == old(s)@.push(c),
{
    s.push(c);
}

/// Splits `s` at every `sep`.
pub fn split_pieces(s: &str, sep: char) -> (pieces: Vec<String>)
    ensures
        string_views(pieces@) == split_on(s@, sep),
{
    let mut pieces: Vec<String> = Vec::new();
    let mut cur = String::new();
    for c in it: s.chars()
        invariant
            it.seq() == s@,
            string_views(pieces@).push(cur@) == split_on(s@.take(it.index() as int), sep),
    {
        proof {
            let i = it.index() as int;
            assert(s@.take(i + 1).drop_last() == s@.take(i));
            lemma_split_nonempty(s@.take(i), sep);
        }
        if c == sep {
            pieces.push(cur);
            cur = String::new();
        } else {
            push_char(&mut cur, c);
        }
    }
    proof { assert(s@.take(s@.len() as int) == s@); }
    pieces.push(cur);
    pieces
}


/// `l` without one trailing carriage return, if it has one.
pub open spec fn strip_cr(l: Seq<char>) -> Seq<char> {
    if l.len() > 0 && l.last() == '\r' {
        l.drop_last()
    } else {
        l
    }
}

/// The lines of `s`, as `str::lines` yields them: every piece that a `'\n'` ends loses
/// one trailing `'\r'`, and a final empty piece is no line.
pub open spec fn text_lines(s: Seq<char>) -> Seq<Seq<char>> {
    let pieces = split_on_newline(s);
    let ended = pieces.drop_last().map_values(|l: Seq<char>| strip_cr(l));
    if pieces.last().len() == 0 {
        ended
    } else {
        ended.push(pieces.last())
    }
}

/// A copy of `s` without one trailing carriage return, if it has one.
pub fn strip_carriage_return(s: &String) -> (r: String)
    ensures
        r@ == strip_cr(s@),
{
    let t = s.as_str();
    let n = t.unicode_len();
    if n > 0 && t.get_char(n - 1) == '\r' {
        String::from_str(t.substring_char(0, n - 1))
    } else {
        s.clone()
    }
}

/// The lines of `s` (`str::lines`).
pub fn text_lines_of(s: &str) -> (lines: Vec<String>)
    ensures
        string_views(lines@) == text_lines(s@),
{
    let pieces = split_pieces(s, '\n');
    proof { lemma_split_nonempty(s@, '\n'); }
    let ghost spec_pieces = split_on_newline(s@);
    let last = pieces.len() - 1;
    let mut lines: Vec<String> = Vec::new();
    let mut i: usize = 0;
    while i < last
        invariant
            string_views(pieces@) == spec_pieces,
            last == pieces.len() - 1,
            i <= last,
            string_views(lines@) == spec_pieces.drop_last().map_values(|l: Seq<char>| strip_cr(l)).take(i as int),
        decreases last - i,
    {
        let line = strip_carriage_return(&pieces[i]);
        proof {
            assert(pieces@[i as int]@ == spec_pieces[i as int]);
        }
        let ghost before = lines@;
        let ghost line_view = line@;
        lines.push(line);
        i += 1;
        proof {
            let target = spec_pieces.drop_last().map_values(|l: Seq<char>| strip_cr(l));
            assert(string_views(before) == target.take(i - 1));
            assert(lines@ == before.push(lines@[i - 1]));
            assert(string_views(lines@).len() == i);
            assert forall|j: int| 0 <= j < i implies #[trigger] string_views(lines@)[j] == target.take(i as int)[j] by {
                if j < i - 1 {
                    assert(string_views(lines@)[j] == string_views(before)[j]);
                } else {
                    assert(string_views(lines@)[j] == line_view);
                }
            }
            assert(string_views(lines@) =~= target.take(i as int));
        }
    }
    proof {
        assert(spec_pieces.drop_last().map_values(|l: Seq<char>| strip_cr(l)).take(last as int)
            =~= spec_pieces.drop_last().map_values(|l: Seq<char>| strip_cr(l)));
        assert(pieces@[last as int]@ == spec_pieces.last());
    }
    if pieces[last].as_str().unicode_len() != 0 {
        lines.push(pieces[last].clone());
        proof {
            assert(string_views(lines@) =~= text_lines(s@));
        }
    }
    lines
}


/// Text appended without a separator extends the last piece.
pub proof fn lemma_split_extend(s: Seq<char>, l: Seq<char>, sep: char)
    requires
        !l.contains(sep),
    ensures
        split_on(s + l, sep) == split_on(s, sep).update(
            split_on(s, sep).len() - 1,
            split_on(s, sep).last() + l,
        ),
    decreases l.len(),
{
    lemma_split_nonempty(s, sep);
    let p = split_on(s, sep);
    if l.len() == 0 {
        assert(s + l =~= s);
        assert(p.last() + l =~= p.last());
        assert(p.update(p.len() - 1, p.last() + l) =~= p);
    } else {
        let init = l.drop_last();
        assert(!init.contains(sep)) by {
            if init.contains(sep) {
                let k = choose|k: int| 0 <= k < init.len() && init[k] == sep;
                assert(l[k] == sep);
            }
        }
        lemma_split_extend(s, init, sep);
        assert((s + l).drop_last() =~= s + init);
        assert((s + l).last() == l.last());
        assert(l.last() != sep) by {
            assert(l[l.len() - 1] == l.last());
        }
        assert((p.last() + init).push(l.last()) =~= p.last() + l);
        assert(split_on(s + l, sep) =~= p.update(p.len() - 1, p.last() + l));
    }
}

/// The text of `lines`, each followed by a newline.
pub open spec fn newline_terminated(lines: Seq<Seq<char>>) -> Seq<char> {
    lines.map_values(|l: Seq<char>| l.push('\n')).flatten()
}

proof fn lemma_newline_terminated_push(lines: Seq<Seq<char>>, l: Seq<char>)
    ensures
        newline_terminated(lines.push(l)) == newline_terminated(lines) + l + seq!['\n'],
{
    let f = |x: Seq<char>| x.push('\n');
    assert(lines.push(l).map_values(f) =~= lines.map_values(f).push(l.push('\n')));
    lines.map_values(f).lemma_flatten_push(l.push('\n'));
    assert(newline_terminated(lines) + l.push('\n') =~= newline_terminated(lines) + l + seq!['\n']);
}

/// Lines without newlines, each followed by a newline, split back into the same lines
/// and one empty piece after the last newline.
pub proof fn lemma_split_newline_terminated(lines: Seq<Seq<char>>)
    requires
        forall|i: int| 0 <= i < lines.len() ==> !(#[trigger] lines[i]).contains('\n'),
    ensures
        split_on_newline(newline_terminated(lines)) == lines.push(Seq::<char>::empty()),
    decreases lines.len(),
{
    if lines.len() == 0 {
        assert(newline_terminated(lines) =~= Seq::<char>::empty());
        assert(split_on_newline(Seq::<char>::empty()) =~= lines.push(Seq::<char>::empty()));
    } else {
        let init = lines.drop_last();
        let l = lines.last();
        assert(lines =~= init.push(l));
        assert forall|i: int| 0 <= i < init.len() implies !(#[trigger] init[i]).contains('\n') by {
            assert(init[i] == lines[i]);
        }
        lemma_split_newline_terminated(init);
        lemma_newline_terminated_push(init, l);
        let t = newline_terminated(init);
        assert(!l.contains('\n')) by {
            assert(lines[lines.len() - 1] == l);
        }
        lemma_split_extend(t, l, '\n');
        assert((t + l + seq!['\n']).drop_last() =~= t + l);
        assert(Seq::<char>::empty() + l =~= l);
        assert(split_on(t + l + seq!['\n'], '\n') =~= lines.push(Seq::<char>::empty()));
    }
}

/// Splitting two texts joined by a separator splits each of them.
pub proof fn lemma_split_concat(a: Seq<char>, b: Seq<char>, sep: char)
    ensures
        split_on(a + seq![sep] + b, sep) == split_on(a, sep) + split_on(b, sep),
    decreases b.len(),
{
    lemma_split_nonempty(a, sep);
    let pa = split_on(a, sep);
    if b.len() == 0 {
        assert(a + seq![sep] + b =~= a + seq![sep]);
        assert((a + seq![sep]).drop_last() =~= a);
        assert(split_on(b, sep) =~= seq![Seq::<char>::empty()]);
        assert(pa.push(Seq::<char>::empty()) =~= pa + split_on(b, sep));
    } else {
        let bi = b.drop_last();
        lemma_split_concat(a, bi, sep);
        lemma_split_nonempty(bi, sep);
        let s = a + seq![sep] + b;
        assert(s.drop_last() =~= a + seq![sep] + bi);
        assert(s.last() == b.last());
        let pb = split_on(bi, sep);
        let c = b.last();
        if c == sep {
            assert((pa + pb).push(Seq::<char>::empty()) =~= pa + pb.push(Seq::<char>::empty()));
        } else {
            assert((pa + pb).update((pa + pb).len() - 1, (pa + pb).last().push(c)) =~= pa
                + pb.update(pb.len() - 1, pb.last().push(c)));
        }
    }
}

/// A text that does not end in the separator ends in a non-empty piece, which ends
/// with the text's last character.
pub proof fn lemma_split_last_piece(s: Seq<char>, sep: char)
    requires
        s.len() > 0,
        s.last() != sep,
    ensures
        split_on(s, sep).last().len() > 0,
        split_on(s, sep).last().last() == s.last(),
{
    lemma_split_nonempty(s.drop_last(), sep);
}

/// The lines of two texts joined by a newline are the lines of each, when the first
/// does not end in a newline or a carriage return.
pub proof fn lemma_lines_concat(a: Seq<char>, b: Seq<char>)
    requires
        a.len() > 0,
        a.last() != '\n',
        a.last() != '\r',
    ensures
        text_lines(a + seq!['\n'] + b) == text_lines(a) + text_lines(b),
{
    lemma_split_concat(a, b, '\n');
    lemma_split_nonempty(a, '\n');
    lemma_split_last_piece(a, '\n');
    lemma_split_nonempty(b, '\n');
    let pa = split_on(a, '\n');
    let pb = split_on(b, '\n');
    let f = |l: Seq<char>| strip_cr(l);
    assert((pa + pb).drop_last() =~= pa + pb.drop_last());
    assert((pa + pb).last() == pb.last());
    assert(strip_cr(pa.last()) == pa.last());
    assert(f(pa.last()) == pa.last());
    assert(pa.map_values(f).last() == pa.last());
    assert(pa.map_values(f) =~= pa.drop_last().map_values(f).push(pa.last()));
    assert((pa + pb.drop_last()).map_values(f) =~= pa.map_values(f) + pb.drop_last().map_values(f));
    assert(text_lines(a + seq!['\n'] + b) =~= text_lines(a) + text_lines(b));
}

/// A text that starts with a newline has an empty first line, then the lines of the rest.
pub proof fn lemma_lines_after_newline(b: Seq<char>)
    ensures
        text_lines(seq!['\n'] + b) == seq![Seq::<char>::empty()] + text_lines(b),
{
    let e = Seq::<char>::empty();
    lemma_split_concat(e, b, '\n');
    assert(e + seq!['\n'] + b =~= seq!['\n'] + b);
    assert(split_on(e, '\n') =~= seq![e]);
    lemma_split_nonempty(b, '\n');
    let pb = split_on(b, '\n');
    let f = |l: Seq<char>| strip_cr(l);
    assert((seq![e] + pb).drop_last() =~= seq![e] + pb.drop_last());
    assert((seq![e] + pb).last() == pb.last());
    assert(f(e) == e);
    assert((seq![e] + pb.drop_last()).map_values(f) =~= seq![e] + pb.drop_last().map_values(f));
    assert(text_lines(seq!['\n'] + b) =~= seq![e] + text_lines(b));
}

/// A non-empty text without newlines and without a final carriage return is one line.
pub proof fn lemma_lines_single(l: Seq<char>)
    requires
        l.len() > 0,
        !l.contains('\n'),
        l.last() != '\r',
    ensures
        text_lines(l) == seq![l],
{
    lemma_split_extend(Seq::<char>::empty(), l, '\n');
    assert(Seq::<char>::empty() + l =~= l);
    assert(split_on(l, '\n') =~= seq![l]);
    assert(text_lines(l) =~= seq![l]);
}

/// The empty text has no lines.
pub proof fn lemma_lines_empty()
    ensures
        text_lines(Seq::<char>::empty()) == Seq::<Seq<char>>::empty(),
{
    assert(text_lines(Seq::<char>::empty()) =~= Seq::<Seq<char>>::empty());
}

/// A text that ends in a newline has at least one line.
pub proof fn lemma_lines_nonempty(s: Seq<char>)
    requires
        s.len() > 0,
        s.last() == '\n',
    ensures
        text_lines(s).len() >= 1,
{
    lemma_split_nonempty(s.drop_last(), '\n');
}

} // verus!
