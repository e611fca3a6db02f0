//! Text as sequences of characters: conversion, trimming and splitting.

use vstd::prelude::*;

verus! {

/// Appends one character with `String::push`: afterwards the string holds what
/// it held before, followed by `c`.
#[verifier::external_body]
pub(crate) fn push_char(text: &mut String, c: char)
    ensures
        final(text)@ == old(text)@.push(c),
{
    text.push(c);
}

/// The characters of `text`, in order.
pub fn chars_of(text: &str) -> (chars: Vec<char>)
    ensures
        chars@ == text@,
{
    let mut chars: Vec<char> = Vec::new();
    for c in it: text.chars()
        invariant
            it.seq() == text@,
            chars@ == text@.take(it.index() as int),
    {
        chars.push(c);
        assert(text@.take(it.index() + 1) == text@.take(it.index() as int).push(c));
    }
    assert(text@.take(text@.len() as int) == text@);
    chars
}

/// The string made of `chars`, in order.
pub fn string_of(chars: &Vec<char>) -> (text: String)
    ensures
        text@ == chars@,
{
    let mut text = String::new();
    let mut i: usize = 0;
    while i < chars.len()
        invariant
            i <= chars.len(),
            text@ == chars@.take(i as int),
        decreases chars.len() - i,
    {
        push_char(&mut text, chars[i]);
        assert(chars@.take(i + 1) == chars@.take(i as int).push(chars@[i as int]));
        i += 1;
    }
    assert(chars@.take(chars@.len() as int) == chars@);
    text
}

/// The characters that count as white space: those that Unicode lists as
/// `White_Space`.
pub open spec fn is_space(c: char) -> bool {
    ||| '\u{9}' <= c <= '\u{d}'
    ||| c == ' '
    ||| c == '\u{85}'
    ||| c == '\u{a0}'
    ||| c == '\u{1680}'
    ||| '\u{2000}' <= c <= '\u{200a}'
    ||| c == '\u{2028}'
    ||| c == '\u{2029}'
    ||| c == '\u{202f}'
    ||| c == '\u{205f}'
    ||| c == '\u{3000}'
}

/// `s` without the white space at its start.
pub open spec fn trimmed_start(s: Seq<char>) -> Seq<char>
    decreases s.len(),
{
    if s.len() > 0 && is_space(s[0]) {
        trimmed_start(s.skip(1))
    } else {
        s
    }
}

/// `s` without the white space at its end.
pub open spec fn trimmed_end(s: Seq<char>) -> Seq<char>
    decreases s.len(),
{
    if s.len() > 0 && is_space(s.last()) {
        trimmed_end(s.drop_last())
    } else {
        s
    }
}

/// `s` without the white space at either end.
pub open spec fn trimmed(s: Seq<char>) -> Seq<char> {
    trimmed_end(trimmed_start(s))
}

/// The pieces of `s` between the occurrences of `sep`. Reading from the left,
/// each `sep` closes a piece and opens an empty one; any other character joins
/// the piece that is open. There is always one piece more than there are
/// occurrences of `sep`.
pub open spec fn pieces(s: Seq<char>, sep: char) -> Seq<Seq<char>>
    decreases s.len(),
{
    if s.len() == 0 {
        seq![Seq::<char>::empty()]
    } else {
        let before = pieces(s.drop_last(), sep);
        if s.last() == sep {
            before.push(Seq::<char>::empty())
        } else {
            before.drop_last().push(before.last().push(s.last()))
        }
    }
}

/// `line` without one carriage return at its end, if it has one.
pub open spec fn without_return(line: Seq<char>) -> Seq<char> {
    if line.len() > 0 && line.last() == '\r' {
        line.drop_last()
    } else {
        line
    }
}

/// The line that the `i`-th piece of a text stands for, where the text has
/// `count` pieces between its line feeds: every piece but the last was closed
/// by a line feed, and loses a carriage return in front of it.
pub open spec fn line_of_piece(piece: Seq<char>, i: int, count: int) -> Seq<char> {
    if i + 1 < count {
        without_return(piece)
    } else {
        piece
    }
}

/// The lines of `s`. A line ends at a line feed or at the end of the text; a
/// carriage return directly before the line feed is not part of the line; and
/// nothing after the last line feed is no line.
pub open spec fn lines(s: Seq<char>) -> Seq<Seq<char>> {
    let parts = pieces(s, '\n');
    let kept = if parts.last().len() == 0 {
        parts.len() - 1
    } else {
        parts.len() as int
    };
    Seq::new(kept as nat, |i: int| line_of_piece(parts[i], i, parts.len() as int))
}

/// `rows` holds exactly the sequences `expected`, in order.
pub open spec fn holds_rows(rows: Seq<Vec<char>>, expected: Seq<Seq<char>>) -> bool {
    &&& rows.len() == expected.len()
    &&& forall|i: int| 0 <= i < rows.len() ==> (#[trigger] rows[i])@ == expected[i]
}

/// There is at least one piece, whatever the text.
pub proof fn pieces_are_never_none(s: Seq<char>, sep: char)
    ensures
        pieces(s, sep).len() >= 1,
    decreases s.len(),
{
    if s.len() > 0 {
        pieces_are_never_none(s.drop_last(), sep);
    }
}

/// Decides whether `c` is white space.
pub fn is_whitespace(c: char) -> (space: bool)
    ensures
        space == is_space(c),
{
    ('\u{9}' <= c && c <= '\u{d}') || c == ' ' || c == '\u{85}' || c == '\u{a0}' || c
        == '\u{1680}' || ('\u{2000}' <= c && c <= '\u{200a}') || c == '\u{2028}' || c
        == '\u{2029}' || c == '\u{202f}' || c == '\u{205f}' || c == '\u{3000}'
}

/// A copy of the characters of `chars` from position `from` up to, not
/// including, position `to`.
pub(crate) fn copy_range(chars: &Vec<char>, from: usize, to: usize) -> (part: Vec<char>)
    requires
        from <= to <= chars.len(),
    ensures
        part@ == chars@.subrange(from as int, to as int),
{
    let mut part: Vec<char> = Vec::new();
    let mut i: usize = from;
    while i < to
        invariant
            from <= i <= to <= chars.len(),
            part@ == chars@.subrange(from as int, i as int),
        decreases to - i,
    {
        part.push(chars[i]);
        assert(chars@.subrange(from as int, i + 1) == chars@.subrange(from as int, i as int).push(
            chars@[i as int],
        ));
        i += 1;
    }
    part
}

/// `chars` without the white space at either end.
pub fn trim(chars: &Vec<char>) -> (kept: Vec<char>)
    ensures
        kept@ == trimmed(chars@),
{
    let mut from: usize = 0;
    assert(chars@.skip(0) == chars@);
    while from < chars.len() && is_whitespace(chars[from])
        invariant
            from <= chars.len(),
            trimmed_start(chars@) == trimmed_start(chars@.skip(from as int)),
        decreases chars.len() - from,
    {
        assert(chars@.skip(from as int).skip(1) == chars@.skip(from + 1));
        from += 1;
    }
    assert(trimmed_start(chars@) == chars@.skip(from as int));
    let mut to: usize = chars.len();
    assert(chars@.subrange(from as int, to as int) == chars@.skip(from as int));
    while to > from && is_whitespace(chars[to - 1])
        invariant
            from <= to <= chars.len(),
            trimmed(chars@) == trimmed_end(chars@.subrange(from as int, to as int)),
        decreases to - from,
    {
        assert(chars@.subrange(from as int, to as int).drop_last() == chars@.subrange(
            from as int,
            to - 1,
        ));
        to -= 1;
    }
    copy_range(chars, from, to)
}

/// The pieces of `chars` between the occurrences of `sep`.
pub fn split_on(chars: &Vec<char>, sep: char) -> (parts: Vec<Vec<char>>)
    ensures
        holds_rows(parts@, pieces(chars@, sep)),
{
    let mut parts: Vec<Vec<char>> = Vec::new();
    let mut open: Vec<char> = Vec::new();
    let mut i: usize = 0;
    assert(chars@.take(0) == Seq::<char>::empty());
    while i < chars.len()
        invariant
            i <= chars.len(),
            pieces(chars@.take(i as int), sep).len() == parts.len() + 1,
            holds_rows(parts@, pieces(chars@.take(i as int), sep).drop_last()),
            open@ == pieces(chars@.take(i as int), sep).last(),
        decreases chars.len() - i,
    {
        let c = chars[i];
        proof {
            assert(chars@.take(i + 1).drop_last() == chars@.take(i as int));
            assert(chars@.take(i + 1).last() == c);
        }
        let ghost before = pieces(chars@.take(i as int), sep);
        let ghost after = pieces(chars@.take(i + 1), sep);
        if c == sep {
            assert(after == before.push(Seq::<char>::empty()));
            assert(after.drop_last() == before);
            let ghost rows = parts@;
            parts.push(open);
            assert forall|j: int| 0 <= j < parts@.len() implies (#[trigger] parts@[j])@
                == after.drop_last()[j] by {
                if j < rows.len() {
                    assert(parts@[j] == rows[j]);
                }
            }
            open = Vec::new();
        } else {
            assert(after == before.drop_last().push(before.last().push(c)));
            assert(after.drop_last() == before.drop_last());
            open.push(c);
        }
        i += 1;
    }
    assert(chars@.take(chars@.len() as int) == chars@);
    let ghost rows = parts@;
    let ghost all = pieces(chars@, sep);
    parts.push(open);
    assert forall|j: int| 0 <= j < parts@.len() implies (#[trigger] parts@[j])@ == all[j] by {
        if j < rows.len() {
            assert(parts@[j] == rows[j]);
            assert(all.drop_last()[j] == all[j]);
        }
    }
    parts
}

/// The lines of `chars`.
pub fn lines_of(chars: &Vec<char>) -> (rows: Vec<Vec<char>>)
    ensures
        holds_rows(rows@, lines(chars@)),
{
    let parts = split_on(chars, '\n');
    let count = parts.len();
    let ghost all = pieces(chars@, '\n');
    let kept: usize = if parts[count - 1].len() == 0 {
        count - 1
    } else {
        count
    };
    let mut rows: Vec<Vec<char>> = Vec::new();
    let mut i: usize = 0;
    while i < kept
        invariant
            i <= kept <= count,
            count == parts.len(),
            holds_rows(parts@, all),
            all == pieces(chars@, '\n'),
            lines(chars@).len() == kept,
            rows.len() == i,
            forall|j: int| 0 <= j < i ==> (#[trigger] rows@[j])@ == lines(chars@)[j],
        decreases kept - i,
    {
        let piece = &parts[i];
        let n = piece.len();
        let line = if i + 1 < count && n > 0 && piece[n - 1] == '\r' {
            assert(piece@.drop_last() == piece@.subrange(0, n - 1));
            copy_range(piece, 0, n - 1)
        } else {
            assert(piece@ == piece@.subrange(0, n as int));
            copy_range(piece, 0, n)
        };
        assert(line@ == line_of_piece(all[i as int], i as int, count as int));
        let ghost old_rows = rows@;
        rows.push(line);
        assert forall|j: int| 0 <= j < i + 1 implies (#[trigger] rows@[j])@ == lines(chars@)[j] by {
            if j < i {
                assert(rows@[j] == old_rows[j]);
            }
        }
        i += 1;
    }
    rows
}


/// `parts` written one after another with `sep` between each two.
pub open spec fn joined(parts: Seq<Seq<char>>, sep: char) -> Seq<char>
    decreases parts.len(),
{
    if parts.len() == 0 {
        Seq::empty()
    } else if parts.len() == 1 {
        parts[0]
    } else {
        joined(parts.drop_last(), sep).push(sep) + parts.last()
    }
}

/// No piece holds the separator.
pub proof fn pieces_hold_no_separator(s: Seq<char>, sep: char)
    ensures
        forall|i: int, j: int|
            0 <= i < pieces(s, sep).len() && 0 <= j < pieces(s, sep)[i].len() ==> pieces(
                s,
                sep,
            )[i][j] != sep,
    decreases s.len(),
{
    if s.len() > 0 {
        pieces_hold_no_separator(s.drop_last(), sep);
        pieces_are_never_none(s.drop_last(), sep);
    }
}

/// The pieces, joined by the separator, give back the text.
pub proof fn pieces_rejoin(s: Seq<char>, sep: char)
    ensures
        joined(pieces(s, sep), sep) == s,
    decreases s.len(),
{
    if s.len() > 0 {
        let front = s.drop_last();
        let before = pieces(front, sep);
        let after = pieces(s, sep);
        pieces_rejoin(front, sep);
        pieces_are_never_none(front, sep);
        if s.last() == sep {
            assert(after.drop_last() == before);
            assert(joined(after, sep) == joined(before, sep).push(sep) + Seq::<char>::empty());
            assert(joined(after, sep) == front.push(sep));
        } else if before.len() == 1 {
            assert(after[0] == before[0].push(s.last()));
        } else {
            assert(after.drop_last() == before.drop_last());
            assert(joined(after, sep) == joined(before.drop_last(), sep).push(sep) + before.last().push(
                s.last(),
            ));
            assert(joined(before.drop_last(), sep).push(sep) + before.last().push(s.last()) == (
            joined(before.drop_last(), sep).push(sep) + before.last()).push(s.last()));
        }
        assert(front.push(s.last()) == s);
    }
}

/// Trimming takes characters away at the two ends only, all of them white
/// space, and leaves none at either end.
pub proof fn trimmed_is_the_core(s: Seq<char>)
    ensures
        exists|from: int, to: int|
            {
                &&& 0 <= from <= to <= s.len()
                &&& #[trigger] s.subrange(from, to) == trimmed(s)
                &&& forall|i: int| 0 <= i < from || to <= i < s.len() ==> is_space(s[i])
            },
        trimmed(s).len() > 0 ==> !is_space(trimmed(s).first()) && !is_space(trimmed(s).last()),
{
    let from = lemma_trimmed_start(s);
    let rest = s.skip(from);
    let to = lemma_trimmed_end(rest);
    assert(rest.take(to) == s.subrange(from, from + to));
    assert forall|i: int| 0 <= i < from || from + to <= i < s.len() implies is_space(s[i]) by {
        if i >= from + to {
            assert(rest[i - from] == s[i]);
        }
    }
    if trimmed(s).len() > 0 {
        assert(trimmed(s).first() == rest[0]);
    }
}

proof fn lemma_trimmed_start(s: Seq<char>) -> (from: int)
    ensures
        0 <= from <= s.len(),
        trimmed_start(s) == s.skip(from),
        forall|i: int| 0 <= i < from ==> is_space(s[i]),
        from < s.len() ==> !is_space(s[from]),
    decreases s.len(),
{
    if s.len() > 0 && is_space(s[0]) {
        let inner = lemma_trimmed_start(s.skip(1));
        assert(s.skip(1).skip(inner) == s.skip(inner + 1));
        assert forall|i: int| 0 <= i < inner + 1 implies is_space(s[i]) by {
            if i > 0 {
                assert(s.skip(1)[i - 1] == s[i]);
            }
        }
        if inner + 1 < s.len() {
            assert(s.skip(1)[inner] == s[inner + 1]);
        }
        inner + 1
    } else {
        assert(s.skip(0) == s);
        0
    }
}

proof fn lemma_trimmed_end(s: Seq<char>) -> (to: int)
    ensures
        0 <= to <= s.len(),
        trimmed_end(s) == s.take(to),
        forall|i: int| to <= i < s.len() ==> is_space(s[i]),
        to > 0 ==> !is_space(s[to - 1]),
    decreases s.len(),
{
    if s.len() > 0 && is_space(s.last()) {
        let inner = lemma_trimmed_end(s.drop_last());
        assert(s.drop_last().take(inner) == s.take(inner));
        assert forall|i: int| inner <= i < s.len() implies is_space(s[i]) by {
            if i < s.len() - 1 {
                assert(s.drop_last()[i] == s[i]);
            }
        }
        if inner > 0 {
            assert(s.drop_last()[inner - 1] == s[inner - 1]);
        }
        inner
    } else {
        assert(s.take(s.len() as int) == s);
        s.len() as int
    }
}

} // verus!
