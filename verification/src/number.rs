//! The numbers of a mapping file, as text.
//!
//! Identifiers are unsigned decimal integers. Positions, lengths and scores
//! are real numbers in the usual literal syntax; the crate checks their
//! spelling and carries them as written, so that nothing is lost or rounded
//! between the file and the consumer of a match.

use vstd::prelude::*;
use vstd::slice::slice_to_vec;

verus! {

pub open spec fn is_digit(c: char) -> bool {
    '0' <= c && c <= '9'
}

pub open spec fn is_sign(c: char) -> bool {
    c == '+' || c == '-'
}

pub open spec fn is_exp_mark(c: char) -> bool {
    c == 'e' || c == 'E'
}

/// The position where the run of digits that starts at `from` ends.
pub open spec fn digits_end(s: Seq<char>, from: int) -> int
    decreases s.len() - from,
{
    if 0 <= from < s.len() && is_digit(s[from]) {
        digits_end(s, from + 1)
    } else {
        from
    }
}

/// `s` from `from` on is an optional sign and then one digit or more.
pub open spec fn is_exponent(s: Seq<char>, from: int) -> bool {
    let d = if from < s.len() && is_sign(s[from]) {
        from + 1
    } else {
        from
    };
    d < s.len() && digits_end(s, d) == s.len()
}

/// `s` from `from` on is digits with at most one point among them, at least
/// one digit in all, and then, optionally, `e` or `E` and an exponent.
pub open spec fn is_number(s: Seq<char>, from: int) -> bool {
    let a = digits_end(s, from);
    let b = if a < s.len() && s[a] == '.' {
        digits_end(s, a + 1)
    } else {
        a
    };
    let digits = if b > a {
        b - from - 1
    } else {
        a - from
    };
    digits > 0 && (b == s.len() || (is_exp_mark(s[b]) && is_exponent(s, b + 1)))
}

/// The lower-case form of an ASCII capital letter; any other character is
/// left as it is.
pub open spec fn lower(c: char) -> char {
    if 'A' <= c && c <= 'Z' {
        ((c as u8) + 32) as char
    } else {
        c
    }
}

/// `s` from `from` on spells `word`, letter case aside.
pub open spec fn spells(s: Seq<char>, from: int, word: Seq<char>) -> bool {
    &&& s.len() - from == word.len()
    &&& forall|i: int| 0 <= i < word.len() ==> lower(#[trigger] s[from + i]) == word[i]
}

pub open spec fn is_special(s: Seq<char>, from: int) -> bool {
    ||| spells(s, from, seq!['i', 'n', 'f'])
    ||| spells(s, from, seq!['n', 'a', 'n'])
    ||| spells(s, from, seq!['i', 'n', 'f', 'i', 'n', 'i', 't', 'y'])
}

/// The spelling of a real number: an optional sign, then either a number in
/// decimal or scientific notation, or one of the words `inf`, `infinity` and
/// `nan` in any letter case. No blank may stand anywhere in it.
pub open spec fn is_decimal_text(s: Seq<char>) -> bool {
    let from: int = if s.len() > 0 && is_sign(s[0]) {
        1
    } else {
        0
    };
    from < s.len() && (is_number(s, from) || is_special(s, from))
}

/// The value of a string of digits, read in base ten.
pub open spec fn digits_value(s: Seq<char>) -> nat
    decreases s.len(),
{
    if s.len() == 0 {
        0
    } else {
        digits_value(s.drop_last()) * 10 + (s.last() as nat - '0' as nat) as nat
    }
}

/// `s` without the `+` that may stand in front of an unsigned integer.
pub open spec fn unsigned_digits(s: Seq<char>) -> Seq<char> {
    if s.len() > 0 && s[0] == '+' {
        s.skip(1)
    } else {
        s
    }
}

/// The unsigned integer that `s` spells, if it spells one that is at most
/// `max`: an optional `+`, then one digit or more.
pub open spec fn unsigned_value(s: Seq<char>, max: nat) -> Option<nat> {
    let d = unsigned_digits(s);
    if d.len() > 0 && digits_end(d, 0) == d.len() && digits_value(d) <= max {
        Some(digits_value(d))
    } else {
        None
    }
}

fn digit(c: char) -> (yes: bool)
    ensures
        yes == is_digit(c),
{
    c >= '0' && c <= '9'
}

fn scan_digits(text: &[char], from: usize) -> (end: usize)
    requires
        from <= text@.len(),
    ensures
        end == digits_end(text@, from as int),
        from <= end <= text@.len(),
{
    let mut i: usize = from;
    while i < text.len() && digit(text[i])
        invariant
            from <= i <= text@.len(),
            digits_end(text@, from as int) == digits_end(text@, i as int),
        decreases text@.len() - i,
    {
        i = i + 1;
    }
    i
}

fn exponent_at(text: &[char], from: usize) -> (yes: bool)
    requires
        from <= text@.len(),
    ensures
        yes == is_exponent(text@, from as int),
{
    let d: usize = if from < text.len() && (text[from] == '+' || text[from] == '-') {
        from + 1
    } else {
        from
    };
    d < text.len() && scan_digits(text, d) == text.len()
}

fn number_at(text: &[char], from: usize) -> (yes: bool)
    requires
        from <= text@.len(),
    ensures
        yes == is_number(text@, from as int),
{
    let a: usize = scan_digits(text, from);
    let b: usize = if a < text.len() && text[a] == '.' {
        scan_digits(text, a + 1)
    } else {
        a
    };
    let some_digit = if b > a {
        b - from > 1
    } else {
        a > from
    };
    some_digit && (b == text.len() || ((text[b] == 'e' || text[b] == 'E') && exponent_at(
        text,
        b + 1,
    )))
}

fn to_lower(c: char) -> (l: char)
    ensures
        l == lower(c),
{
    if c >= 'A' && c <= 'Z' {
        ((c as u8) + 32) as char
    } else {
        c
    }
}

fn spells_at<const N: usize>(text: &[char], from: usize, word: &[char; N]) -> (yes: bool)
    requires
        from <= text@.len(),
    ensures
        yes == spells(text@, from as int, word@),
{
    let len: usize = text.len();
    if len - from != N {
        return false;
    }
    let mut i: usize = 0;
    while i < N
        invariant
            len == text@.len(),
            from + N == len,
            0 <= i <= N,
            word@.len() == N,
            forall|k: int| 0 <= k < i ==> lower(#[trigger] text@[from + k]) == word@[k],
        decreases N - i,
    {
        if to_lower(text[from + i]) != word[i] {
            return false;
        }
        i = i + 1;
    }
    true
}

fn special_at(text: &[char], from: usize) -> (yes: bool)
    requires
        from <= text@.len(),
    ensures
        yes == is_special(text@, from as int),
{
    let inf: [char; 3] = ['i', 'n', 'f'];
    let nan: [char; 3] = ['n', 'a', 'n'];
    let infinity: [char; 8] = ['i', 'n', 'f', 'i', 'n', 'i', 't', 'y'];
    assert(inf@ =~= seq!['i', 'n', 'f']);
    assert(nan@ =~= seq!['n', 'a', 'n']);
    assert(infinity@ =~= seq!['i', 'n', 'f', 'i', 'n', 'i', 't', 'y']);
    spells_at(text, from, &inf) || spells_at(text, from, &nan) || spells_at(text, from, &infinity)
}

/// Whether `text` spells a real number.
pub fn decimal_text(text: &[char]) -> (yes: bool)
    ensures
        yes == is_decimal_text(text@),
{
    let from: usize = if text.len() > 0 && (text[0] == '+' || text[0] == '-') {
        1
    } else {
        0
    };
    from < text.len() && (number_at(text, from) || special_at(text, from))
}

/// A run of digits reaches the end of `s` exactly when nothing but digits
/// stands from `from` on.
pub proof fn lemma_digits_end(s: Seq<char>, from: int)
    requires
        0 <= from <= s.len(),
    ensures
        from <= digits_end(s, from) <= s.len(),
        forall|k: int| from <= k < digits_end(s, from) ==> is_digit(#[trigger] s[k]),
        digits_end(s, from) < s.len() ==> !is_digit(s[digits_end(s, from)]),
    decreases s.len() - from,
{
    if from < s.len() && is_digit(s[from]) {
        lemma_digits_end(s, from + 1);
    }
}

/// The value of the first `k` digits is at most the value of them all.
pub proof fn lemma_prefix_value(s: Seq<char>, k: int)
    requires
        0 <= k <= s.len(),
        forall|i: int| 0 <= i < s.len() ==> is_digit(#[trigger] s[i]),
    ensures
        digits_value(s.take(k)) <= digits_value(s),
    decreases s.len(),
{
    if k == s.len() {
        assert(s.take(k) =~= s);
    } else {
        assert(s.drop_last().take(k) =~= s.take(k));
        lemma_prefix_value(s.drop_last(), k);
    }
}

/// The unsigned integer that `text` spells, if it spells one that is at most
/// `max`.
pub fn parse_unsigned(text: &[char], max: u64) -> (v: Option<u64>)
    ensures
        v is Some <==> unsigned_value(text@, max as nat) is Some,
        v matches Some(x) ==> unsigned_value(text@, max as nat) == Some(x as nat),
{
    let n: usize = text.len();
    let start: usize = if n > 0 && text[0] == '+' {
        1
    } else {
        0
    };
    let ghost d = unsigned_digits(text@);
    assert(d =~= text@.skip(start as int));
    if start == n {
        return None;
    }
    let mut acc: u64 = 0;
    let mut i: usize = start;
    assert(d.take(0) =~= Seq::<char>::empty());
    while i < n
        invariant
            n == text@.len(),
            start <= i <= n,
            d == unsigned_digits(text@),
            d == text@.skip(start as int),
            acc <= max,
            acc == digits_value(d.take(i - start)),
            forall|k: int| 0 <= k < i - start ==> is_digit(#[trigger] d[k]),
        decreases n - i,
    {
        let c = text[i];
        proof {
            lemma_digits_end(d, 0);
        }
        if !digit(c) {
            assert(!is_digit(d[i - start]));
            return None;
        }
        let unit: u64 = ((c as u8) - ('0' as u8)) as u64;
        let ghost next = d.take(i - start + 1);
        assert(next.drop_last() =~= d.take(i - start));
        assert(next.last() == c);
        assert(digits_value(next) == acc * 10 + unit);
        if unit > max || acc > (max - unit) / 10 {
            proof {
                if digits_end(d, 0) == d.len() {
                    lemma_prefix_value(d, i - start + 1);
                }
            }
            return None;
        }
        acc = acc * 10 + unit;
        i = i + 1;
    }
    proof {
        assert(d.take(i - start) =~= d);
        lemma_digits_end(d, 0);
    }
    Some(acc)
}

/// A real number, held as the text that spells it.
#[derive(Debug)]
pub struct Decimal {
    text: Vec<char>,
}

impl View for Decimal {
    type V = Seq<char>;

    closed spec fn view(&self) -> Seq<char> {
        self.text@
    }
}

impl Decimal {
    #[verifier::type_invariant]
    spec fn spelled_right(self) -> bool {
        is_decimal_text(self.text@)
    }

    /// The number that `text` spells, if it spells one.
    pub fn parse(text: &[char]) -> (d: Option<Decimal>)
        ensures
            d is Some <==> is_decimal_text(text@),
            d matches Some(x) ==> x@ == text@,
    {
        if decimal_text(text) {
            Some(Decimal { text: slice_to_vec(text) })
        } else {
            None
        }
    }

    /// The text of the number. It always spells a real number.
    pub fn text(&self) -> (t: &Vec<char>)
        ensures
            t@ == self@,
            is_decimal_text(t@),
    {
        proof {
            use_type_invariant(self);
        }
        &self.text
    }
}

impl Clone for Decimal {
    fn clone(&self) -> (c: Self)
        ensures
            c@ == self@,
    {
        proof {
            use_type_invariant(self);
        }
        Decimal { text: slice_to_vec(self.text.as_slice()) }
    }
}

} // verus!
