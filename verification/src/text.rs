//! Lines and fields of a text.

use vstd::prelude::*;

verus! {

/// The pieces of `s` between the occurrences of `sep`. There is always at
/// least one piece, and a piece may be empty.
pub open spec fn split(s: Seq<char>, sep: char) -> Seq<Seq<char>>
    decreases s.len(),
{
    if s.len() == 0 {
        seq![Seq::empty()]
    } else {
        let before = split(s.drop_last(), sep);
        if s.last() == sep {
            before.push(Seq::empty())
        } else {
            before.drop_last().push(before.last().push(s.last()))
        }
    }
}

/// `l` without one carriage return at its end.
pub open spec fn strip_cr(l: Seq<char>) -> Seq<char> {
    if l.len() > 0 && l.last() == '\r' {
        l.drop_last()
    } else {
        l
    }
}

/// The pieces of `s` that line feeds end, without the empty piece that
/// follows a line feed at the very end of `s`.
pub open spec fn raw_lines(s: Seq<char>) -> Seq<Seq<char>> {
    let pieces = split(s, '\n');
    if pieces.last().len() == 0 {
        pieces.drop_last()
    } else {
        pieces
    }
}

/// The lines of `s`. A line ends with a line feed, or with a carriage return
/// and a line feed; the last line need not end with either. The line endings
/// are not part of the lines.
pub open spec fn lines_of(s: Seq<char>) -> Seq<Seq<char>> {
    Seq::new(raw_lines(s).len(), |i: int| strip_cr(raw_lines(s)[i]))
}

/// White space: the characters with the Unicode property `White_Space`.
pub open spec fn is_space(c: char) -> bool {
    let n = c as u32;
    ||| 0x09 <= n <= 0x0d
    ||| n == 0x20
    ||| n == 0x85
    ||| n == 0xa0
    ||| n == 0x1680
    ||| 0x2000 <= n <= 0x200a
    ||| n == 0x2028
    ||| n == 0x2029
    ||| n == 0x202f
    ||| n == 0x205f
    ||| n == 0x3000
}

/// `l` holds nothing but white space.
pub open spec fn is_blank(l: Seq<char>) -> bool {
    forall|i: int| 0 <= i < l.len() ==> is_space(#[trigger] l[i])
}

/// The pieces of `s` that the ranges in `ranges` cut out.
pub open spec fn pieces_of(s: Seq<char>, ranges: Seq<(usize, usize)>) -> Seq<Seq<char>> {
    Seq::new(ranges.len(), |k: int| s.subrange(ranges[k].0 as int, ranges[k].1 as int))
}

/// Every range in `ranges` lies within a text of length `len`.
pub open spec fn ranges_within(ranges: Seq<(usize, usize)>, len: nat) -> bool {
    forall|k: int| 0 <= k < ranges.len() ==> (#[trigger] ranges[k]).0 <= ranges[k].1 <= len
}

/// The characters of `s`.
pub fn chars_of(s: &str) -> (chars: Vec<char>)
    ensures
        chars@ == s@,
{
    let mut chars: Vec<char> = Vec::new();
    for c in it: s.chars()
        invariant
            it.seq() == s@,
            chars@ == it.seq().take(it.index() as int),
    {
        chars.push(c);
    }
    chars
}

/// Whether `c` is white space.
pub fn space(c: char) -> (yes: bool)
    ensures
        yes == is_space(c),
{
    let n: u32 = c as u32;
    (0x09 <= n && n <= 0x0d) || n == 0x20 || n == 0x85 || n == 0xa0 || n == 0x1680 || (0x2000 <= n
        && n <= 0x200a) || n == 0x2028 || n == 0x2029 || n == 0x202f || n == 0x205f || n == 0x3000
}

/// Whether `text` holds nothing but white space.
pub fn blank(text: &[char]) -> (yes: bool)
    ensures
        yes == is_blank(text@),
{
    let n = text.len();
    let mut i: usize = 0;
    while i < n
        invariant
            n == text@.len(),
            0 <= i <= n,
            forall|k: int| 0 <= k < i ==> is_space(#[trigger] text@[k]),
        decreases n - i,
    {
        if !space(text[i]) {
            return false;
        }
        i = i + 1;
    }
    true
}

/// The ranges of the pieces of `text` between the occurrences of `sep`.
pub fn split_ranges(text: &[char], sep: char) -> (ranges: Vec<(usize, usize)>)
    ensures
        ranges_within(ranges@, text@.len()),
        pieces_of(text@, ranges@) == split(text@, sep),
        ranges@.len() > 0,
{
    let n = text.len();
    let mut ranges: Vec<(usize, usize)> = Vec::new();
    let mut start: usize = 0;
    let mut i: usize = 0;
    assert(text@.take(0) =~= Seq::<char>::empty());
    assert(pieces_of(text@, ranges@).push(text@.subrange(0, 0)) =~= seq![Seq::<char>::empty()]);
    while i < n
        invariant
            n == text@.len(),
            0 <= start <= i <= n,
            ranges_within(ranges@, text@.len()),
            split(text@.take(i as int), sep) == pieces_of(text@, ranges@).push(
                text@.subrange(start as int, i as int),
            ),
        decreases n - i,
    {
        let ghost done = pieces_of(text@, ranges@);
        let ghost open = text@.subrange(start as int, i as int);
        let ghost next = text@.take(i + 1);
        assert(next.drop_last() =~= text@.take(i as int));
        assert(next.last() == text@[i as int]);
        assert(done.push(open).drop_last() =~= done);
        if text[i] == sep {
            ranges.push((start, i));
            start = i + 1;
            assert(pieces_of(text@, ranges@) =~= done.push(open));
            assert(text@.subrange(start as int, i + 1) =~= Seq::<char>::empty());
        } else {
            assert(open.push(text@[i as int]) =~= text@.subrange(start as int, i + 1));
        }
        i = i + 1;
    }
    let ghost done = pieces_of(text@, ranges@);
    ranges.push((start, n));
    assert(text@.take(n as int) =~= text@);
    assert(pieces_of(text@, ranges@) =~= done.push(text@.subrange(start as int, n as int)));
    ranges
}

/// The ranges of the lines of `text`.
pub fn line_ranges(text: &[char]) -> (ranges: Vec<(usize, usize)>)
    ensures
        ranges_within(ranges@, text@.len()),
        pieces_of(text@, ranges@) == lines_of(text@),
{
    let mut ranges = split_ranges(text, '\n');
    let ghost pieces = split(text@, '\n');
    let last = ranges[ranges.len() - 1];
    assert(pieces.last() == text@.subrange(last.0 as int, last.1 as int));
    if last.0 == last.1 {
        ranges.pop();
        assert(pieces_of(text@, ranges@) =~= pieces.drop_last());
    }
    assert(pieces_of(text@, ranges@) == raw_lines(text@));
    let n = ranges.len();
    let ghost raw = ranges@;
    let mut k: usize = 0;
    while k < n
        invariant
            n == ranges@.len(),
            n == raw.len(),
            0 <= k <= n,
            ranges_within(raw, text@.len()),
            ranges_within(ranges@, text@.len()),
            pieces_of(text@, raw) == raw_lines(text@),
            forall|t: int| k <= t < n ==> ranges@[t] == raw[t],
            forall|t: int|
                0 <= t < k ==> text@.subrange(
                    (#[trigger] ranges@[t]).0 as int,
                    ranges@[t].1 as int,
                ) == strip_cr(raw_lines(text@)[t]),
        decreases n - k,
    {
        let (a, b) = ranges[k];
        let ghost line = text@.subrange(a as int, b as int);
        assert(line == pieces_of(text@, raw)[k as int]);
        if a < b && text[b - 1] == '\r' {
            ranges[k] = (a, b - 1);
            assert(text@.subrange(a as int, b - 1) =~= line.drop_last());
        }
        k = k + 1;
    }
    assert(pieces_of(text@, ranges@) =~= lines_of(text@));
    ranges
}

} // verus!
