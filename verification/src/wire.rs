//! The binary encoding of a match.
//!
//! A match is written field by field. Whole numbers are written with their
//! lowest byte first, in four bytes or in eight. A sequence is written as the
//! number of its items, in four bytes, and then the items. A real number is
//! written as the sequence of the characters that spell it, one byte each. A
//! character is written as its code point, in four bytes.
//!
//! A match is its query contig (four bytes), the sequence of its file
//! positions (eight bytes each) and the sequence of its records. A record is
//! its file position (eight bytes), its reference contig (one byte), its
//! orientation (a character) and six real numbers: the start and the end on
//! the query, the start and the end on the reference, the confidence, and the
//! length of the reference contig.

use crate::frame::{from_le32, get_u32, le32, lemma_le32, put_u32};
use crate::number::{
    digits_end, is_decimal_text, is_digit, is_exp_mark, is_sign, lemma_digits_end, Decimal,
};
use crate::record::{matched_views, MatchView, MatchedRecord, MatchedView, XmapMatch};
use vstd::prelude::*;

verus! {

/// The eight bytes of `n`, lowest first.
pub open spec fn le64(n: u64) -> Seq<u8> {
    le32((n & 0xffff_ffff) as u32) + le32((n >> 32) as u32)
}

/// The bytes of the characters of `t`, one byte for each.
pub open spec fn char_bytes(t: Seq<char>) -> Seq<u8> {
    Seq::new(t.len(), |i: int| t[i] as u8)
}

/// The characters that the bytes `b` stand for, one for each byte.
pub open spec fn byte_chars(b: Seq<u8>) -> Seq<char> {
    Seq::new(b.len(), |i: int| b[i] as char)
}

/// The encoding of the text of a real number.
pub open spec fn text_bytes(t: Seq<char>) -> Seq<u8> {
    le32(t.len() as u32) + char_bytes(t)
}

/// The encoding of one contribution to a match.
#[verifier::opaque]
pub open spec fn record_bytes(r: MatchedView) -> Seq<u8> {
    le64(r.file_index as u64) + seq![r.ref_contig_id] + le32(r.orientation as u32) + text_bytes(
        r.qry_start_pos,
    ) + text_bytes(r.qry_end_pos) + text_bytes(r.ref_start_pos) + text_bytes(r.ref_end_pos)
        + text_bytes(r.confidence) + text_bytes(r.ref_len)
}

/// The encodings of the contributions, one after the other.
pub open spec fn records_bytes(rs: Seq<MatchedView>) -> Seq<u8>
    decreases rs.len(),
{
    if rs.len() == 0 {
        Seq::empty()
    } else {
        record_bytes(rs.first()) + records_bytes(rs.drop_first())
    }
}

/// The encodings of the file positions, one after the other.
pub open spec fn indices_bytes(ix: Seq<usize>) -> Seq<u8>
    decreases ix.len(),
{
    if ix.len() == 0 {
        Seq::empty()
    } else {
        le64(ix.first() as u64) + indices_bytes(ix.drop_first())
    }
}

/// The encoding of a match.
pub open spec fn match_bytes(m: MatchView) -> Seq<u8> {
    le32(m.qry_contig_id) + le32(m.file_indices.len() as u32) + indices_bytes(m.file_indices)
        + le32(m.records.len() as u32) + records_bytes(m.records)
}

/// The text can be encoded: it spells a real number, in at most `u32::MAX`
/// characters.
pub open spec fn wire_text(t: Seq<char>) -> bool {
    is_decimal_text(t) && t.len() <= u32::MAX
}

/// The contribution can be encoded.
pub open spec fn wire_record(r: MatchedView) -> bool {
    &&& wire_text(r.qry_start_pos)
    &&& wire_text(r.qry_end_pos)
    &&& wire_text(r.ref_start_pos)
    &&& wire_text(r.ref_end_pos)
    &&& wire_text(r.confidence)
    &&& wire_text(r.ref_len)
}

/// The match can be encoded: it has at most `u32::MAX` file positions and
/// contributions, and every contribution can be encoded.
pub open spec fn wire_match(m: MatchView) -> bool {
    &&& m.file_indices.len() <= u32::MAX
    &&& m.records.len() <= u32::MAX
    &&& forall|i: int| 0 <= i < m.records.len() ==> wire_record(#[trigger] m.records[i])
}

/// A number of four bytes at the start of `b`, and what follows it.
pub open spec fn take_u32(b: Seq<u8>) -> Option<(u32, Seq<u8>)> {
    if b.len() >= 4 {
        Some((from_le32(b), b.skip(4)))
    } else {
        None
    }
}

/// A number of eight bytes at the start of `b`, and what follows it.
pub open spec fn take_u64(b: Seq<u8>) -> Option<(u64, Seq<u8>)> {
    if b.len() >= 8 {
        Some(((from_le32(b) as u64) | ((from_le32(b.skip(4)) as u64) << 32), b.skip(8)))
    } else {
        None
    }
}

/// A file position at the start of `b`, and what follows it.
pub open spec fn take_index(b: Seq<u8>) -> Option<(usize, Seq<u8>)> {
    match take_u64(b) {
        Some((n, rest)) => if n <= usize::MAX {
            Some((n as usize, rest))
        } else {
            None
        },
        None => None,
    }
}

/// `n` is the code point of a character.
pub open spec fn is_scalar(n: u32) -> bool {
    n <= 0xd7ff || (0xe000 <= n && n <= 0x10_ffff)
}

/// A character at the start of `b`, and what follows it.
pub open spec fn take_char(b: Seq<u8>) -> Option<(char, Seq<u8>)> {
    match take_u32(b) {
        Some((n, rest)) => if is_scalar(n) {
            Some((n as char, rest))
        } else {
            None
        },
        None => None,
    }
}

/// The text of a real number at the start of `b`, and what follows it.
pub open spec fn take_text(b: Seq<u8>) -> Option<(Seq<char>, Seq<u8>)> {
    match take_u32(b) {
        Some((n, rest)) => {
            let t = byte_chars(rest.take(n as int));
            if rest.len() >= n && is_decimal_text(t) {
                Some((t, rest.skip(n as int)))
            } else {
                None
            }
        },
        None => None,
    }
}

/// A contribution to a match at the start of `b`, and what follows it.
#[verifier::opaque]
pub open spec fn take_record(b: Seq<u8>) -> Option<(MatchedView, Seq<u8>)> {
    match take_index(b) {
        None => None,
        Some((file_index, b1)) => if b1.len() < 1 {
            None
        } else {
            match take_char(b1.skip(1)) {
                None => None,
                Some((orientation, b2)) => match take_text(b2) {
                    None => None,
                    Some((qry_start_pos, b3)) => match take_text(b3) {
                        None => None,
                        Some((qry_end_pos, b4)) => match take_text(b4) {
                            None => None,
                            Some((ref_start_pos, b5)) => match take_text(b5) {
                                None => None,
                                Some((ref_end_pos, b6)) => match take_text(b6) {
                                    None => None,
                                    Some((confidence, b7)) => match take_text(b7) {
                                        None => None,
                                        Some((ref_len, b8)) => Some(
                                            (
                                                MatchedView {
                                                    file_index,
                                                    ref_contig_id: b1[0],
                                                    qry_start_pos,
                                                    qry_end_pos,
                                                    ref_start_pos,
                                                    ref_end_pos,
                                                    orientation,
                                                    confidence,
                                                    ref_len,
                                                },
                                                b8,
                                            ),
                                        ),
                                    },
                                },
                            },
                        },
                    },
                },
            }
        },
    }
}

/// `count` contributions at the start of `b`, and what follows them.
pub open spec fn take_records(b: Seq<u8>, count: nat) -> Option<(Seq<MatchedView>, Seq<u8>)>
    decreases count,
{
    if count == 0 {
        Some((Seq::empty(), b))
    } else {
        match take_record(b) {
            None => None,
            Some((r, rest)) => match take_records(rest, (count - 1) as nat) {
                None => None,
                Some((rs, end)) => Some((seq![r] + rs, end)),
            },
        }
    }
}

/// `count` file positions at the start of `b`, and what follows them.
pub open spec fn take_indices(b: Seq<u8>, count: nat) -> Option<(Seq<usize>, Seq<u8>)>
    decreases count,
{
    if count == 0 {
        Some((Seq::empty(), b))
    } else {
        match take_index(b) {
            None => None,
            Some((i, rest)) => match take_indices(rest, (count - 1) as nat) {
                None => None,
                Some((ix, end)) => Some((seq![i] + ix, end)),
            },
        }
    }
}

/// The match that `b` encodes, if `b` is the encoding of a match and nothing
/// more.
pub open spec fn match_in(b: Seq<u8>) -> Option<MatchView> {
    match take_u32(b) {
        None => None,
        Some((qry_contig_id, b1)) => match take_u32(b1) {
            None => None,
            Some((n_files, b2)) => match take_indices(b2, n_files as nat) {
                None => None,
                Some((file_indices, b3)) => match take_u32(b3) {
                    None => None,
                    Some((n_records, b4)) => match take_records(b4, n_records as nat) {
                        None => None,
                        Some((records, b5)) => if b5.len() == 0 {
                            Some(MatchView { qry_contig_id, file_indices, records })
                        } else {
                            None
                        },
                    },
                },
            },
        },
    }
}

/// A number of four bytes is read back as it was written.
pub proof fn lemma_take_u32(n: u32, rest: Seq<u8>)
    ensures
        take_u32(le32(n) + rest) == Some((n, rest)),
{
    lemma_le32(n, rest);
    assert((le32(n) + rest).skip(4) =~= rest);
}

/// A file position is read back as it was written.
pub proof fn lemma_take_index(i: usize, rest: Seq<u8>)
    ensures
        take_index(le64(i as u64) + rest) == Some((i, rest)),
{
    let n = i as u64;
    let lo = (n & 0xffff_ffff) as u32;
    let hi = (n >> 32) as u32;
    let b = le64(n) + rest;
    lemma_le32(lo, le32(hi) + rest);
    lemma_le32(hi, rest);
    assert(b =~= le32(lo) + (le32(hi) + rest));
    assert(b.skip(4) =~= le32(hi) + rest);
    assert(b.skip(8) =~= rest);
    assert((lo as u64) | ((hi as u64) << 32) == n) by (bit_vector)
        requires
            lo == (n & 0xffff_ffff) as u32,
            hi == (n >> 32) as u32,
    ;
}

/// A character is read back as it was written.
pub proof fn lemma_take_char(c: char, rest: Seq<u8>)
    ensures
        take_char(le32(c as u32) + rest) == Some((c, rest)),
{
    lemma_take_u32(c as u32, rest);
}

/// The text of a real number holds ASCII characters only.
pub proof fn lemma_decimal_is_ascii(t: Seq<char>)
    requires
        is_decimal_text(t),
    ensures
        forall|i: int| 0 <= i < t.len() ==> 0 <= (#[trigger] t[i]) as int <= 0x7f,
{
    let from: int = if t.len() > 0 && is_sign(t[0]) {
        1
    } else {
        0
    };
    assert forall|i: int| 0 <= i < t.len() implies 0 <= (#[trigger] t[i]) as int <= 0x7f by {
        if i < from {
        } else if crate::number::is_number(t, from) {
            let a = digits_end(t, from);
            lemma_digits_end(t, from);
            let b = if a < t.len() && t[a] == '.' {
                digits_end(t, a + 1)
            } else {
                a
            };
            if a < t.len() && t[a] == '.' {
                lemma_digits_end(t, a + 1);
            }
            if i < a {
                assert(is_digit(t[i]));
            } else if i < b {
                if i > a {
                    assert(is_digit(t[i]));
                }
            } else if i == b {
                assert(is_exp_mark(t[b]));
            } else {
                let d = if b + 1 < t.len() && is_sign(t[b + 1]) {
                    b + 2
                } else {
                    b + 1
                };
                lemma_digits_end(t, d);
                if i >= d {
                    assert(is_digit(t[i]));
                }
            }
        } else {
            let k = i - from;
            assert(t[from + k] == t[i]);
            if crate::number::spells(t, from, seq!['i', 'n', 'f']) {
                assert(crate::number::lower(t[from + k]) == seq!['i', 'n', 'f'][k]);
            } else if crate::number::spells(t, from, seq!['n', 'a', 'n']) {
                assert(crate::number::lower(t[from + k]) == seq!['n', 'a', 'n'][k]);
            } else {
                assert(crate::number::lower(t[from + k]) == seq![
                    'i',
                    'n',
                    'f',
                    'i',
                    'n',
                    'i',
                    't',
                    'y',
                ][k]);
            }
        }
    }
}

/// The text of a real number is read back as it was written.
pub proof fn lemma_take_text(t: Seq<char>, rest: Seq<u8>)
    requires
        wire_text(t),
    ensures
        take_text(text_bytes(t) + rest) == Some((t, rest)),
{
    let n = t.len() as u32;
    let b = text_bytes(t) + rest;
    lemma_take_u32(n, char_bytes(t) + rest);
    assert(b =~= le32(n) + (char_bytes(t) + rest));
    let after = char_bytes(t) + rest;
    assert(after.take(n as int) =~= char_bytes(t));
    assert(after.skip(n as int) =~= rest);
    lemma_decimal_is_ascii(t);
    assert forall|i: int| 0 <= i < t.len() implies byte_chars(char_bytes(t))[i] == t[i] by {
        let c = t[i];
        let b = c as u8;
        assert(b as int == c as int);
        let d = b as char;
        assert(d as int == b as int);
        assert(char_bytes(t)[i] == b);
    }
    assert(byte_chars(char_bytes(t)) =~= t);
}

/// A contribution to a match is read back as it was written.
pub proof fn lemma_take_record(r: MatchedView, rest: Seq<u8>)
    requires
        wire_record(r),
    ensures
        take_record(record_bytes(r) + rest) == Some((r, rest)),
{
    let t6 = text_bytes(r.ref_len) + rest;
    let t5 = text_bytes(r.confidence) + t6;
    let t4 = text_bytes(r.ref_end_pos) + t5;
    let t3 = text_bytes(r.ref_start_pos) + t4;
    let t2 = text_bytes(r.qry_end_pos) + t3;
    let t1 = text_bytes(r.qry_start_pos) + t2;
    let c = le32(r.orientation as u32) + t1;
    let b1 = seq![r.ref_contig_id] + c;
    let b = le64(r.file_index as u64) + b1;
    reveal(record_bytes);
    reveal(take_record);
    assert(record_bytes(r) + rest =~= b);
    lemma_take_index(r.file_index, b1);
    assert(b1.skip(1) =~= c);
    assert(b1[0] == r.ref_contig_id);
    lemma_take_char(r.orientation, t1);
    lemma_take_text(r.qry_start_pos, t2);
    lemma_take_text(r.qry_end_pos, t3);
    lemma_take_text(r.ref_start_pos, t4);
    lemma_take_text(r.ref_end_pos, t5);
    lemma_take_text(r.confidence, t6);
    lemma_take_text(r.ref_len, rest);
}

/// Contributions are read back as they were written.
pub proof fn lemma_take_records(rs: Seq<MatchedView>, rest: Seq<u8>)
    requires
        forall|i: int| 0 <= i < rs.len() ==> wire_record(#[trigger] rs[i]),
    ensures
        take_records(records_bytes(rs) + rest, rs.len()) == Some((rs, rest)),
    decreases rs.len(),
{
    if rs.len() == 0 {
        assert(records_bytes(rs) + rest =~= rest);
        assert(rs =~= Seq::<MatchedView>::empty());
    } else {
        let tail = rs.drop_first();
        assert(wire_record(rs[0]));
        assert forall|i: int| 0 <= i < tail.len() implies wire_record(#[trigger] tail[i]) by {
            assert(tail[i] == rs[i + 1]);
        }
        lemma_take_record(rs.first(), records_bytes(tail) + rest);
        lemma_take_records(tail, rest);
        assert(records_bytes(rs) + rest =~= record_bytes(rs.first()) + (records_bytes(tail) + rest));
        assert(seq![rs.first()] + tail =~= rs);
    }
}

/// File positions are read back as they were written.
pub proof fn lemma_take_indices(ix: Seq<usize>, rest: Seq<u8>)
    ensures
        take_indices(indices_bytes(ix) + rest, ix.len()) == Some((ix, rest)),
    decreases ix.len(),
{
    if ix.len() == 0 {
        assert(indices_bytes(ix) + rest =~= rest);
        assert(ix =~= Seq::<usize>::empty());
    } else {
        let tail = ix.drop_first();
        lemma_take_index(ix.first(), indices_bytes(tail) + rest);
        lemma_take_indices(tail, rest);
        assert(indices_bytes(ix) + rest =~= le64(ix.first() as u64) + (indices_bytes(tail) + rest));
        assert(seq![ix.first()] + tail =~= ix);
    }
}

/// Encoding round trip. A match that can be encoded is read back from its
/// encoding as it was, field for field.
pub proof fn lemma_match_round_trip(m: MatchView)
    requires
        wire_match(m),
    ensures
        match_in(match_bytes(m)) == Some(m),
{
    let none = Seq::<u8>::empty();
    let b4 = records_bytes(m.records);
    let b3 = le32(m.records.len() as u32) + b4;
    let b2 = indices_bytes(m.file_indices) + b3;
    let b1 = le32(m.file_indices.len() as u32) + b2;
    let b = le32(m.qry_contig_id) + b1;
    assert(match_bytes(m) =~= b);
    lemma_take_u32(m.qry_contig_id, b1);
    lemma_take_u32(m.file_indices.len() as u32, b2);
    lemma_take_indices(m.file_indices, b3);
    lemma_take_u32(m.records.len() as u32, b4);
    lemma_take_records(m.records, none);
    assert(b4 + none =~= b4);
}

/// `char::from_u32`: the character with the code point `n`, or `None` where
/// `n` is a surrogate or lies above `0x10ffff`.
#[verifier::external_body]
fn scalar(n: u32) -> (c: Option<char>)
    ensures
        c == (if is_scalar(n) {
            Some(n as char)
        } else {
            None
        }),
{
    char::from_u32(n)
}

fn put_u64(n: u64, out: &mut Vec<u8>)
    ensures
        final(out)@ == old(out)@ + le64(n),
{
    let ghost before = out@;
    put_u32((n & 0xffff_ffff) as u32, out);
    put_u32((n >> 32) as u32, out);
    assert(out@ =~= before + le64(n));
}

fn put_text(d: &Decimal, out: &mut Vec<u8>) -> (done: bool)
    ensures
        done == (d@.len() <= u32::MAX),
        done ==> final(out)@ == old(out)@ + text_bytes(d@) && wire_text(d@),
{
    let ghost before = out@;
    let text = d.text();
    let n = text.len();
    if n > 0xffff_ffff {
        return false;
    }
    put_u32(n as u32, out);
    let ghost begun = out@;
    let mut i: usize = 0;
    proof {
        lemma_decimal_is_ascii(text@);
        assert(out@ =~= begun + char_bytes(text@).take(0));
    }
    while i < n
        invariant
            n == text@.len(),
            0 <= i <= n,
            forall|k: int| 0 <= k < text@.len() ==> 0 <= (#[trigger] text@[k]) as int <= 0x7f,
            out@ == begun + char_bytes(text@).take(i as int),
        decreases n - i,
    {
        let c = text[i];
        out.push(c as u8);
        assert(out@ =~= begun + char_bytes(text@).take(i + 1));
        i = i + 1;
    }
    assert(char_bytes(text@).take(n as int) =~= char_bytes(text@));
    assert(out@ =~= before + text_bytes(d@));
    true
}

fn put_record(r: &MatchedRecord, out: &mut Vec<u8>) -> (done: bool)
    ensures
        done ==> final(out)@ == old(out)@ + record_bytes(r@) && wire_record(r@),
        !done ==> !wire_record(r@),
{
    let ghost before = out@;
    put_u64(r.file_index as u64, out);
    out.push(r.ref_contig_id);
    put_u32(r.orientation as u32, out);
    let ghost head = out@;
    proof {
        reveal(record_bytes);
    }
    assert(head =~= before + le64(r.file_index as u64) + seq![r.ref_contig_id] + le32(
        r.orientation as u32,
    ));
    if !put_text(&r.qry_start_pos, out) {
        return false;
    }
    if !put_text(&r.qry_end_pos, out) {
        return false;
    }
    if !put_text(&r.ref_start_pos, out) {
        return false;
    }
    if !put_text(&r.ref_end_pos, out) {
        return false;
    }
    if !put_text(&r.confidence, out) {
        return false;
    }
    if !put_text(&r.ref_len, out) {
        return false;
    }
    assert(out@ =~= before + record_bytes(r@));
    true
}

fn read_u32(bytes: &[u8], at: &mut usize) -> (n: Option<u32>)
    requires
        *old(at) <= bytes@.len(),
    ensures
        *final(at) <= bytes@.len(),
        match take_u32(bytes@.skip(*old(at) as int)) {
            Some((v, rest)) => n == Some(v) && rest == bytes@.skip(*final(at) as int),
            None => n is None,
        },
{
    if bytes.len() - *at < 4 {
        return None;
    }
    let v = get_u32(bytes, *at);
    proof {
        assert(bytes@.skip(*at as int).skip(4) =~= bytes@.skip(*at + 4));
    }
    *at = *at + 4;
    Some(v)
}

fn read_index(bytes: &[u8], at: &mut usize) -> (n: Option<usize>)
    requires
        *old(at) <= bytes@.len(),
    ensures
        *final(at) <= bytes@.len(),
        match take_index(bytes@.skip(*old(at) as int)) {
            Some((v, rest)) => n == Some(v) && rest == bytes@.skip(*final(at) as int),
            None => n is None,
        },
{
    if bytes.len() - *at < 8 {
        return None;
    }
    let lo = get_u32(bytes, *at);
    let hi = get_u32(bytes, *at + 4);
    proof {
        assert(bytes@.skip(*at as int).skip(4) =~= bytes@.skip(*at + 4));
        assert(bytes@.skip(*at as int).skip(8) =~= bytes@.skip(*at + 8));
    }
    let v: u64 = (lo as u64) | ((hi as u64) << 32);
    *at = *at + 8;
    if v > usize::MAX as u64 {
        return None;
    }
    Some(v as usize)
}

fn read_char(bytes: &[u8], at: &mut usize) -> (c: Option<char>)
    requires
        *old(at) <= bytes@.len(),
    ensures
        *final(at) <= bytes@.len(),
        match take_char(bytes@.skip(*old(at) as int)) {
            Some((v, rest)) => c == Some(v) && rest == bytes@.skip(*final(at) as int),
            None => c is None,
        },
{
    match read_u32(bytes, at) {
        Some(n) => scalar(n),
        None => None,
    }
}

fn read_text(bytes: &[u8], at: &mut usize) -> (d: Option<Decimal>)
    requires
        *old(at) <= bytes@.len(),
    ensures
        *final(at) <= bytes@.len(),
        match take_text(bytes@.skip(*old(at) as int)) {
            Some((t, rest)) => d is Some && d->0@ == t && rest == bytes@.skip(*final(at) as int),
            None => d is None,
        },
{
    let ghost start = bytes@.skip(*at as int);
    let n = match read_u32(bytes, at) {
        Some(n) => n as usize,
        None => {
            return None;
        },
    };
    let ghost rest = bytes@.skip(*at as int);
    let len = bytes.len();
    if len - *at < n {
        return None;
    }
    let mut chars: Vec<char> = Vec::new();
    let mut i: usize = 0;
    let ghost want = byte_chars(rest.take(n as int));
    assert(chars@ =~= want.take(0));
    while i < n
        invariant
            len == bytes@.len(),
            *at + n <= len,
            rest == bytes@.skip(*at as int),
            want == byte_chars(rest.take(n as int)),
            0 <= i <= n,
            chars@ == want.take(i as int),
        decreases n - i,
    {
        chars.push(bytes[*at + i] as char);
        assert(chars@ =~= want.take(i + 1));
        i = i + 1;
    }
    proof {
        assert(want.take(n as int) =~= want);
        assert(rest.skip(n as int) =~= bytes@.skip(*at + n));
    }
    *at = *at + n;
    Decimal::parse(chars.as_slice())
}

#[verifier::rlimit(80)]
fn read_record(bytes: &[u8], at: &mut usize) -> (r: Option<MatchedRecord>)
    requires
        *old(at) <= bytes@.len(),
    ensures
        *final(at) <= bytes@.len(),
        match take_record(bytes@.skip(*old(at) as int)) {
            Some((v, rest)) => r is Some && r->0@ == v && rest == bytes@.skip(*final(at) as int),
            None => r is None,
        },
{
    proof {
        reveal(take_record);
    }
    let file_index = match read_index(bytes, at) {
        Some(v) => v,
        None => {
            return None;
        },
    };
    if bytes.len() - *at < 1 {
        return None;
    }
    let ref_contig_id = bytes[*at];
    proof {
        assert(bytes@.skip(*at as int).skip(1) =~= bytes@.skip(*at + 1));
    }
    *at = *at + 1;
    let orientation = match read_char(bytes, at) {
        Some(v) => v,
        None => {
            return None;
        },
    };
    let qry_start_pos = match read_text(bytes, at) {
        Some(v) => v,
        None => {
            return None;
        },
    };
    let qry_end_pos = match read_text(bytes, at) {
        Some(v) => v,
        None => {
            return None;
        },
    };
    let ref_start_pos = match read_text(bytes, at) {
        Some(v) => v,
        None => {
            return None;
        },
    };
    let ref_end_pos = match read_text(bytes, at) {
        Some(v) => v,
        None => {
            return None;
        },
    };
    let confidence = match read_text(bytes, at) {
        Some(v) => v,
        None => {
            return None;
        },
    };
    let ref_len = match read_text(bytes, at) {
        Some(v) => v,
        None => {
            return None;
        },
    };
    Some(
        MatchedRecord {
            file_index,
            ref_contig_id,
            qry_start_pos,
            qry_end_pos,
            ref_start_pos,
            ref_end_pos,
            orientation,
            confidence,
            ref_len,
        },
    )
}

/// The match that `bytes` encodes, if `bytes` is the encoding of a match and
/// nothing more.
pub fn decode_match(bytes: &[u8]) -> (m: Option<XmapMatch>)
    ensures
        m is Some <==> match_in(bytes@) is Some,
        m matches Some(x) ==> match_in(bytes@) == Some(x@),
{
    let mut at: usize = 0;
    assert(bytes@.skip(0) =~= bytes@);
    let qry_contig_id = match read_u32(bytes, &mut at) {
        Some(v) => v,
        None => {
            return None;
        },
    };
    let ghost b1 = bytes@.skip(at as int);
    let n_files = match read_u32(bytes, &mut at) {
        Some(v) => v,
        None => {
            return None;
        },
    };
    let ghost b2 = bytes@.skip(at as int);
    let mut file_indices: Vec<usize> = Vec::new();
    let mut i: u32 = 0;
    assert(Seq::<usize>::empty() + Seq::<usize>::empty() =~= Seq::<usize>::empty());
    while i < n_files
        invariant
            at <= bytes@.len(),
            0 <= i <= n_files,
            take_u32(bytes@) == Some((qry_contig_id, b1)),
            take_u32(b1) == Some((n_files, b2)),
            take_indices(b2, n_files as nat) == match take_indices(
                bytes@.skip(at as int),
                (n_files - i) as nat,
            ) {
                Some((ix, rest)) => Some((file_indices@ + ix, rest)),
                None => None,
            },
        decreases n_files - i,
    {
        let ghost before = file_indices@;
        let ghost here = bytes@.skip(at as int);
        let v = match read_index(bytes, &mut at) {
            Some(v) => v,
            None => {
                return None;
            },
        };
        file_indices.push(v);
        proof {
            match take_indices(bytes@.skip(at as int), (n_files - i - 1) as nat) {
                Some((ix, rest)) => {
                    assert(before + (seq![v] + ix) =~= before.push(v) + ix);
                },
                None => {},
            }
        }
        i = i + 1;
    }
    assert(file_indices@ + Seq::<usize>::empty() =~= file_indices@);
    let ghost b3 = bytes@.skip(at as int);
    let n_records = match read_u32(bytes, &mut at) {
        Some(v) => v,
        None => {
            return None;
        },
    };
    let ghost b4 = bytes@.skip(at as int);
    let mut records: Vec<MatchedRecord> = Vec::new();
    let mut k: u32 = 0;
    assert(matched_views(records@) + Seq::<MatchedView>::empty() =~= Seq::<MatchedView>::empty());
    while k < n_records
        invariant
            at <= bytes@.len(),
            0 <= k <= n_records,
            take_u32(bytes@) == Some((qry_contig_id, b1)),
            take_u32(b1) == Some((n_files, b2)),
            take_indices(b2, n_files as nat) == Some((file_indices@, b3)),
            take_u32(b3) == Some((n_records, b4)),
            take_records(b4, n_records as nat) == match take_records(
                bytes@.skip(at as int),
                (n_records - k) as nat,
            ) {
                Some((rs, rest)) => Some((matched_views(records@) + rs, rest)),
                None => None,
            },
        decreases n_records - k,
    {
        let ghost before = matched_views(records@);
        let r = match read_record(bytes, &mut at) {
            Some(r) => r,
            None => {
                return None;
            },
        };
        proof {
            assert(matched_views(records@.push(r)) =~= before.push(r@));
            match take_records(bytes@.skip(at as int), (n_records - k - 1) as nat) {
                Some((rs, rest)) => {
                    assert(before + (seq![r@] + rs) =~= before.push(r@) + rs);
                },
                None => {},
            }
        }
        records.push(r);
        k = k + 1;
    }
    assert(matched_views(records@) + Seq::<MatchedView>::empty() =~= matched_views(records@));
    if at != bytes.len() {
        return None;
    }
    Some(XmapMatch { qry_contig_id, file_indices, records })
}

/// The records of a match and one more are written as the former followed
/// by the latter.
proof fn lemma_records_push(rs: Seq<MatchedView>, r: MatchedView)
    ensures
        records_bytes(rs.push(r)) == records_bytes(rs) + record_bytes(r),
    decreases rs.len(),
{
    let all = rs.push(r);
    if rs.len() == 0 {
        assert(all.drop_first() =~= Seq::<MatchedView>::empty());
        assert(records_bytes(all.drop_first()) =~= Seq::<u8>::empty());
        assert(all.first() == r);
        assert(records_bytes(all) =~= record_bytes(r));
        assert(records_bytes(rs) + record_bytes(r) =~= record_bytes(r));
    } else {
        assert(all.drop_first() =~= rs.drop_first().push(r));
        lemma_records_push(rs.drop_first(), r);
        assert(record_bytes(rs.first()) + (records_bytes(rs.drop_first()) + record_bytes(r))
            =~= (record_bytes(rs.first()) + records_bytes(rs.drop_first())) + record_bytes(r));
    }
}

proof fn lemma_indices_push(ix: Seq<usize>, i: usize)
    ensures
        indices_bytes(ix.push(i)) == indices_bytes(ix) + le64(i as u64),
    decreases ix.len(),
{
    let all = ix.push(i);
    if ix.len() == 0 {
        assert(all.drop_first() =~= Seq::<usize>::empty());
        assert(indices_bytes(all.drop_first()) =~= Seq::<u8>::empty());
        assert(all.first() == i);
        assert(indices_bytes(all) =~= le64(i as u64));
        assert(indices_bytes(ix) + le64(i as u64) =~= le64(i as u64));
    } else {
        assert(all.drop_first() =~= ix.drop_first().push(i));
        lemma_indices_push(ix.drop_first(), i);
        assert(le64(ix.first() as u64) + (indices_bytes(ix.drop_first()) + le64(i as u64)) =~= (
        le64(ix.first() as u64) + indices_bytes(ix.drop_first())) + le64(i as u64));
    }
}

/// The encoding of a match, if the match can be encoded.
pub fn encode_match(m: &XmapMatch) -> (bytes: Option<Vec<u8>>)
    ensures
        bytes is Some <==> wire_match(m@),
        bytes matches Some(b) ==> b@ == match_bytes(m@),
{
    let mut out: Vec<u8> = Vec::new();
    let n_files = m.file_indices.len();
    let n_records = m.records.len();
    if n_files > 0xffff_ffff || n_records > 0xffff_ffff {
        return None;
    }
    put_u32(m.qry_contig_id, &mut out);
    put_u32(n_files as u32, &mut out);
    let ghost head = out@;
    let ghost ix = m.file_indices@;
    let mut i: usize = 0;
    proof {
        assert(ix.take(0) =~= Seq::<usize>::empty());
        assert(out@ =~= head + indices_bytes(ix.take(0)));
    }
    while i < n_files
        invariant
            n_files == ix.len(),
            ix == m.file_indices@,
            0 <= i <= n_files,
            out@ == head + indices_bytes(ix.take(i as int)),
        decreases n_files - i,
    {
        put_u64(m.file_indices[i] as u64, &mut out);
        proof {
            lemma_indices_push(ix.take(i as int), ix[i as int]);
            assert(ix.take(i as int).push(ix[i as int]) =~= ix.take(i + 1));
            assert(out@ =~= head + indices_bytes(ix.take(i + 1)));
        }
        i = i + 1;
    }
    assert(ix.take(n_files as int) =~= ix);
    put_u32(n_records as u32, &mut out);
    let ghost mid = out@;
    let ghost rs = m@.records;
    let mut k: usize = 0;
    proof {
        assert(rs.take(0) =~= Seq::<MatchedView>::empty());
        assert(out@ =~= mid + records_bytes(rs.take(0)));
    }
    while k < n_records
        invariant
            n_records == rs.len(),
            rs == m@.records,
            rs == matched_views(m.records@),
            0 <= k <= n_records,
            out@ == mid + records_bytes(rs.take(k as int)),
            forall|t: int| 0 <= t < k ==> wire_record(#[trigger] rs[t]),
        decreases n_records - k,
    {
        if !put_record(&m.records[k], &mut out) {
            assert(!wire_record(rs[k as int]));
            return None;
        }
        proof {
            lemma_records_push(rs.take(k as int), rs[k as int]);
            assert(rs.take(k as int).push(rs[k as int]) =~= rs.take(k + 1));
            assert(out@ =~= mid + records_bytes(rs.take(k + 1)));
        }
        k = k + 1;
    }
    proof {
        assert(rs.take(n_records as int) =~= rs);
        assert(out@ =~= match_bytes(m@));
    }
    Some(out)
}

} // verus!
