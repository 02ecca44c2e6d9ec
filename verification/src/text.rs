//! Text as sequences of characters: conversion, white space, trimming and
//! splitting.

use vstd::prelude::*;

verus! {

/// `String::push` appends one character.
pub assume_specification[ String::push ](s: &mut String, c: char)
    ensures
        final(s)@ == old(s)@.push(c),
;

/// The characters of a string slice, in order.
pub fn chars_of(s: &str) -> (chars: Vec<char>)
    ensures
        chars@ == s@,
{
    let mut chars: Vec<char> = Vec::new();
    for c in it: s.chars()
        invariant
            chars@ == it.seq().take(it.index() as int),
    {
        chars.push(c);
    }
    chars
}

/// The string made of `chars[from..to]`.
pub fn string_of(chars: &Vec<char>, from: usize, to: usize) -> (s: String)
    requires
        from <= to <= chars.len(),
    ensures
        s@ == chars@.subrange(from as int, to as int),
{
    let mut s: String = String::new();
    let mut i: usize = from;
    while i < to
        invariant
            from <= i <= to <= chars.len(),
            s@ == chars@.subrange(from as int, i as int),
        decreases to - i,
    {
        s.push(chars[i]);
        i += 1;
    }
    s
}

/// Whether a character is white space in the sense of Unicode's property
/// `White_Space`.
pub open spec fn is_white_space(c: char) -> bool {
    let code = c as u32;
    ||| 0x09 <= code <= 0x0d
    ||| code == 0x20
    ||| code == 0x85
    ||| code == 0xa0
    ||| code == 0x1680
    ||| 0x2000 <= code <= 0x200a
    ||| code == 0x2028
    ||| code == 0x2029
    ||| code == 0x202f
    ||| code == 0x205f
    ||| code == 0x3000
}

/// Whether a character is white space.
pub fn is_whitespace(c: char) -> (b: bool)
    ensures
        b == is_white_space(c),
{
    let code: u32 = c as u32;
    (0x09 <= code && code <= 0x0d) || code == 0x20 || code == 0x85 || code == 0xa0 || code
        == 0x1680 || (0x2000 <= code && code <= 0x200a) || code == 0x2028 || code == 0x2029
        || code == 0x202f || code == 0x205f || code == 0x3000
}

/// A text without the white space at its start.
pub open spec fn trim_start(s: Seq<char>) -> Seq<char>
    decreases s.len(),
{
    if s.len() > 0 && is_white_space(s[0]) {
        trim_start(s.skip(1))
    } else {
        s
    }
}

/// A text without the white space at its end.
pub open spec fn trim_end(s: Seq<char>) -> Seq<char>
    decreases s.len(),
{
    if s.len() > 0 && is_white_space(s.last()) {
        trim_end(s.drop_last())
    } else {
        s
    }
}

/// A text without the white space around it.
pub open spec fn trimmed(s: Seq<char>) -> Seq<char> {
    trim_end(trim_start(s))
}

/// What `trim_start` leaves is the end of the text, all that it takes away
/// is white space, and what it leaves does not start with white space.
pub proof fn lemma_trim_start(s: Seq<char>)
    ensures
        trim_start(s).len() <= s.len(),
        trim_start(s) == s.skip(s.len() - trim_start(s).len()),
        forall|i: int| 0 <= i < s.len() - trim_start(s).len() ==> is_white_space(s[i]),
        trim_start(s).len() > 0 ==> !is_white_space(trim_start(s)[0]),
    decreases s.len(),
{
    if s.len() > 0 && is_white_space(s[0]) {
        let rest = s.skip(1);
        lemma_trim_start(rest);
        let cut = rest.len() - trim_start(rest).len();
        assert(rest.skip(cut) =~= s.skip(cut + 1));
        assert forall|i: int| 0 <= i < s.len() - trim_start(s).len() implies is_white_space(
            s[i],
        ) by {
            if i > 0 {
                assert(s[i] == rest[i - 1]);
            }
        }
    } else {
        assert(s.skip(0) =~= s);
    }
}

/// What `trim_end` leaves is the start of the text, all that it takes away
/// is white space, and what it leaves does not end with white space.
pub proof fn lemma_trim_end(s: Seq<char>)
    ensures
        trim_end(s).len() <= s.len(),
        trim_end(s) == s.take(trim_end(s).len() as int),
        forall|i: int| trim_end(s).len() <= i < s.len() ==> is_white_space(s[i]),
        trim_end(s).len() > 0 ==> !is_white_space(trim_end(s).last()),
    decreases s.len(),
{
    if s.len() > 0 && is_white_space(s.last()) {
        let rest = s.drop_last();
        lemma_trim_end(rest);
        let kept = trim_end(rest).len() as int;
        assert(rest.take(kept) =~= s.take(kept));
        assert forall|i: int| trim_end(s).len() <= i < s.len() implies is_white_space(s[i]) by {
            if i < rest.len() {
                assert(s[i] == rest[i]);
            }
        }
    } else {
        assert(s.take(s.len() as int) =~= s);
    }
}

/// A trimmed text is the part of the text between the white space at its
/// start and the white space at its end: what is left out on either side is
/// white space only, and what is left neither starts nor ends with white
/// space.
pub proof fn law_trimmed_is_the_middle(s: Seq<char>)
    ensures
        exists|from: int, to: int|
            {
                &&& 0 <= from <= to <= s.len()
                &&& #[trigger] s.subrange(from, to) == trimmed(s)
                &&& forall|i: int| 0 <= i < from ==> is_white_space(s[i])
                &&& forall|i: int| to <= i < s.len() ==> is_white_space(s[i])
            },
        trimmed(s).len() > 0 ==> !is_white_space(trimmed(s)[0]) && !is_white_space(
            trimmed(s).last(),
        ),
{
    let tail = trim_start(s);
    lemma_trim_start(s);
    lemma_trim_end(tail);
    let from = s.len() - tail.len();
    let to = from + trimmed(s).len();
    assert(s.subrange(from, to) =~= trimmed(s));
    assert forall|i: int| to <= i < s.len() implies is_white_space(s[i]) by {
        assert(s[i] == tail[i - from]);
    }
    if trimmed(s).len() > 0 {
        assert(trimmed(s)[0] == tail[0]);
    }
}

/// The bounds of what is left of `chars[from..to]` when the white space
/// around it is taken away.
pub fn trim_bounds(chars: &Vec<char>, from: usize, to: usize) -> (bounds: (usize, usize))
    requires
        from <= to <= chars.len(),
    ensures
        from <= bounds.0 <= bounds.1 <= to,
        chars@.subrange(bounds.0 as int, bounds.1 as int) == trimmed(
            chars@.subrange(from as int, to as int),
        ),
{
    let mut a: usize = from;
    while a < to && is_whitespace(chars[a])
        invariant
            from <= a <= to <= chars.len(),
            trim_start(chars@.subrange(from as int, to as int)) == trim_start(
                chars@.subrange(a as int, to as int),
            ),
        decreases to - a,
    {
        assert(chars@.subrange(a as int, to as int).skip(1) =~= chars@.subrange(
            a as int + 1,
            to as int,
        ));
        a += 1;
    }
    let mut b: usize = to;
    while a < b && is_whitespace(chars[b - 1])
        invariant
            a <= b <= to <= chars.len(),
            trim_end(chars@.subrange(a as int, to as int)) == trim_end(
                chars@.subrange(a as int, b as int),
            ),
        decreases b - a,
    {
        assert(chars@.subrange(a as int, b as int).drop_last() =~= chars@.subrange(
            a as int,
            b as int - 1,
        ));
        b -= 1;
    }
    (a, b)
}

/// The pieces of a text between the occurrences of a separator. There is
/// one piece more than there are separators, so a text without any is its
/// own single piece, and pieces may be empty.
pub open spec fn split_on(s: Seq<char>, sep: char) -> Seq<Seq<char>>
    decreases s.len(),
{
    if s.len() == 0 {
        seq![Seq::<char>::empty()]
    } else {
        let before = split_on(s.drop_last(), sep);
        if s.last() == sep {
            before.push(Seq::<char>::empty())
        } else {
            before.drop_last().push(before.last().push(s.last()))
        }
    }
}

/// A split has at least one piece.
pub proof fn lemma_split_has_piece(s: Seq<char>, sep: char)
    ensures
        split_on(s, sep).len() >= 1,
    decreases s.len(),
{
    if s.len() > 0 {
        lemma_split_has_piece(s.drop_last(), sep);
    }
}

/// Pieces put together, with the separator between each two of them.
pub open spec fn join(pieces: Seq<Seq<char>>, sep: char) -> Seq<char>
    decreases pieces.len(),
{
    if pieces.len() == 0 {
        Seq::empty()
    } else if pieces.len() == 1 {
        pieces[0]
    } else {
        join(pieces.drop_last(), sep).push(sep) + pieces.last()
    }
}

/// A split text is its pieces put together again, and no piece holds the
/// separator.
pub proof fn law_split_joins_back(s: Seq<char>, sep: char)
    ensures
        join(split_on(s, sep), sep) == s,
        forall|k: int|
            0 <= k < split_on(s, sep).len() ==> !(#[trigger] split_on(s, sep)[k]).contains(sep),
    decreases s.len(),
{
    let pieces = split_on(s, sep);
    if s.len() == 0 {
        assert(join(pieces, sep) =~= s);
        assert(!pieces[0].contains(sep));
    } else {
        let shorter = s.drop_last();
        let before = split_on(shorter, sep);
        law_split_joins_back(shorter, sep);
        lemma_split_has_piece(shorter, sep);
        let c = s.last();
        if c == sep {
            assert(pieces.drop_last() =~= before);
            assert(join(pieces, sep) =~= s);
            assert(!pieces.last().contains(sep));
            assert forall|k: int| 0 <= k < pieces.len() implies !(#[trigger] pieces[k]).contains(
                sep,
            ) by {
                if k < before.len() {
                    assert(pieces[k] == before[k]);
                }
            }
        } else {
            let grown = before.last().push(c);
            if before.len() == 1 {
                assert(join(pieces, sep) =~= s);
            } else {
                assert(pieces.drop_last() =~= before.drop_last());
                assert(join(pieces, sep) =~= (join(before.drop_last(), sep).push(sep)
                    + before.last()).push(c));
                assert(join(pieces, sep) =~= s);
            }
            assert forall|k: int| 0 <= k < pieces.len() implies !(#[trigger] pieces[k]).contains(
                sep,
            ) by {
                if k < before.len() - 1 {
                    assert(pieces[k] == before[k]);
                } else {
                    assert(!before.last().contains(sep));
                    if grown.contains(sep) {
                        let i = choose|i: int| 0 <= i < grown.len() && grown[i] == sep;
                        assert(before.last()[i] == sep);
                    }
                }
            }
        }
    }
}

/// The parts of a text that a list of index pairs cuts out.
pub open spec fn cut(chars: Seq<char>, ranges: Seq<(usize, usize)>) -> Seq<Seq<char>> {
    Seq::new(ranges.len(), |k: int| chars.subrange(ranges[k].0 as int, ranges[k].1 as int))
}

/// Whether each pair of the list is a range inside `from..to`.
pub open spec fn ranges_within(ranges: Seq<(usize, usize)>, from: int, to: int) -> bool {
    forall|k: int| 0 <= k < ranges.len() ==> from <= (#[trigger] ranges[k]).0 <= ranges[k].1 <= to
}

/// The ranges of the pieces of `chars[from..to]` between the occurrences of
/// `sep`.
pub fn split_ranges(chars: &Vec<char>, from: usize, to: usize, sep: char) -> (ranges: Vec<
    (usize, usize),
>)
    requires
        from <= to <= chars.len(),
    ensures
        ranges_within(ranges@, from as int, to as int),
        cut(chars@, ranges@) == split_on(chars@.subrange(from as int, to as int), sep),
{
    let mut ranges: Vec<(usize, usize)> = Vec::new();
    let mut start: usize = from;
    let mut i: usize = from;
    assert(cut(chars@, ranges@).push(chars@.subrange(start as int, i as int)) =~~= split_on(
        chars@.subrange(from as int, i as int),
        sep,
    ));
    while i < to
        invariant
            from <= start <= i <= to <= chars.len(),
            ranges_within(ranges@, from as int, i as int),
            cut(chars@, ranges@).push(chars@.subrange(start as int, i as int)) == split_on(
                chars@.subrange(from as int, i as int),
                sep,
            ),
        decreases to - i,
    {
        let ghost before = split_on(chars@.subrange(from as int, i as int), sep);
        let ghost pieces = cut(chars@, ranges@);
        let ghost next = chars@.subrange(from as int, i as int + 1);
        assert(next.drop_last() =~= chars@.subrange(from as int, i as int));
        assert(before.drop_last() =~= pieces);
        assert(before.last() == chars@.subrange(start as int, i as int));
        if chars[i] == sep {
            ranges.push((start, i));
            start = i + 1;
            assert(cut(chars@, ranges@) =~= before);
            assert(chars@.subrange(start as int, i as int + 1) =~= Seq::<char>::empty());
        } else {
            assert(chars@.subrange(start as int, i as int + 1) =~= before.last().push(
                chars@[i as int],
            ));
        }
        i += 1;
    }
    ranges.push((start, to));
    assert(cut(chars@, ranges@) =~= split_on(chars@.subrange(from as int, to as int), sep));
    ranges
}

/// A line without the carriage return at its end, if it has one.
pub open spec fn strip_cr(line: Seq<char>) -> Seq<char> {
    if line.len() > 0 && line.last() == '\r' {
        line.drop_last()
    } else {
        line
    }
}

/// The lines of a text. A line ends with a line feed, or with a carriage
/// return and a line feed; neither belongs to the line. What follows the
/// last line feed is a line too unless it is empty, and a carriage return at
/// its end stays.
pub open spec fn lines_of(s: Seq<char>) -> Seq<Seq<char>> {
    let pieces = split_on(s, '\n');
    let ended = Seq::new((pieces.len() - 1) as nat, |k: int| strip_cr(pieces[k]));
    if pieces.last().len() == 0 {
        ended
    } else {
        ended.push(pieces.last())
    }
}

/// The ranges of the lines of a text.
pub fn line_ranges(chars: &Vec<char>) -> (lines: Vec<(usize, usize)>)
    ensures
        ranges_within(lines@, 0, chars.len() as int),
        cut(chars@, lines@) == lines_of(chars@),
{
    let pieces: Vec<(usize, usize)> = split_ranges(chars, 0, chars.len(), '\n');
    proof {
        lemma_split_has_piece(chars@, '\n');
        assert(chars@.subrange(0, chars.len() as int) =~= chars@);
    }
    let ghost split = split_on(chars@, '\n');
    let n: usize = pieces.len();
    let mut lines: Vec<(usize, usize)> = Vec::new();
    let mut k: usize = 0;
    while k + 1 < n
        invariant
            n == pieces.len(),
            n >= 1,
            k + 1 <= n,
            split == split_on(chars@, '\n'),
            cut(chars@, pieces@) == split,
            ranges_within(pieces@, 0, chars.len() as int),
            ranges_within(lines@, 0, chars.len() as int),
            lines.len() == k,
            cut(chars@, lines@) == Seq::new(k as nat, |j: int| strip_cr(split[j])),
        decreases n - k,
    {
        let (a, b) = pieces[k];
        assert(split[k as int] == chars@.subrange(a as int, b as int));
        let end: usize = if a < b && chars[b - 1] == '\r' {
            b - 1
        } else {
            b
        };
        assert(chars@.subrange(a as int, end as int) =~= strip_cr(split[k as int]));
        let ghost prior = cut(chars@, lines@);
        lines.push((a, end));
        k += 1;
        assert forall|j: int| 0 <= j < k implies cut(chars@, lines@)[j] == strip_cr(split[j]) by {
            if j < k - 1 {
                assert(cut(chars@, lines@)[j] == prior[j]);
            }
        }
        assert(cut(chars@, lines@) =~= Seq::new(k as nat, |j: int| strip_cr(split[j])));
    }
    let (a, b) = pieces[n - 1];
    assert(split.last() == chars@.subrange(a as int, b as int));
    if a < b {
        lines.push((a, b));
    }
    assert(cut(chars@, lines@) =~= lines_of(chars@));
    lines
}

} // verus!
