//! The record parser.
//!
//! A mapping file is text. A line that starts with `#` is a comment; comments
//! and blank lines are passed over, and so is a line with fewer than twelve
//! tab-separated fields. Every other line is a record, and a record whose
//! numbers are misspelled fails the whole file.

use crate::file::{
    distinct_ids, entry_index, has_entry, ChromosomeLengthTable, ParsedFile, RecordTable,
};
use crate::number::{is_decimal_text, parse_unsigned, unsigned_value, Decimal};
use crate::record::{ChromosomeInfo, RecordView, XmapRecord};
use crate::text::{
    blank, chars_of, is_blank, line_ranges, lines_of, pieces_of, ranges_within, split,
    split_ranges,
};
use std::sync::Arc;
use vstd::prelude::*;
use vstd::slice::slice_subrange;

verus! {

/// The number of fields that a record line has at least.
pub const REQUIRED_FIELDS: usize = 12;

/// The numeric fields of a record line.
#[derive(Clone, Copy, Debug, PartialEq, Eq, Structural)]
pub enum XmapField {
    XmapEntryId,
    QryContigId,
    RefContigId,
    QryStartPos,
    QryEndPos,
    RefStartPos,
    RefEndPos,
    Confidence,
    RefLen,
}

/// Why a file could not be parsed: the first line with a misspelled number,
/// counted from zero, and the field that holds it.
#[derive(Clone, Copy, Debug, PartialEq, Eq, Structural)]
pub struct ParseError {
    pub line: usize,
    pub field: XmapField,
}

/// What one line of a file amounts to.
#[derive(Debug)]
pub enum LineOutcome {
    /// A comment, a blank line or a line with too few fields.
    Skipped,
    /// A record.
    Record(XmapRecord),
    /// A record line with a misspelled number in the given field.
    Failed(XmapField),
}

/// The mathematical value of a [`LineOutcome`].
pub enum OutcomeView {
    Skipped,
    Record(RecordView),
    Failed(XmapField),
}

impl View for LineOutcome {
    type V = OutcomeView;

    open spec fn view(&self) -> OutcomeView {
        match self {
            LineOutcome::Skipped => OutcomeView::Skipped,
            LineOutcome::Record(r) => OutcomeView::Record(r@),
            LineOutcome::Failed(f) => OutcomeView::Failed(*f),
        }
    }
}

pub open spec fn is_comment(l: Seq<char>) -> bool {
    l.len() > 0 && l[0] == '#'
}

/// `l` is neither a comment nor blank.
pub open spec fn is_data_line(l: Seq<char>) -> bool {
    !is_comment(l) && !is_blank(l)
}

/// `l` is a data line with too few fields to be a record.
pub open spec fn is_short_line(l: Seq<char>) -> bool {
    is_data_line(l) && split(l, '\t').len() < REQUIRED_FIELDS
}

/// The orientation that a field spells: its first character, and `+` where
/// the field is empty.
pub open spec fn orientation_of(field: Seq<char>) -> char {
    if field.len() > 0 {
        field[0]
    } else {
        '+'
    }
}

/// The first field of a record line, in the order in which the fields are
/// read, that does not spell its number.
pub open spec fn failing_field(f: Seq<Seq<char>>) -> Option<XmapField> {
    if unsigned_value(f[2], 0xff) is None {
        Some(XmapField::RefContigId)
    } else if !is_decimal_text(f[11]) {
        Some(XmapField::RefLen)
    } else if unsigned_value(f[0], 0xffff_ffff) is None {
        Some(XmapField::XmapEntryId)
    } else if unsigned_value(f[1], 0xffff_ffff) is None {
        Some(XmapField::QryContigId)
    } else if !is_decimal_text(f[3]) {
        Some(XmapField::QryStartPos)
    } else if !is_decimal_text(f[4]) {
        Some(XmapField::QryEndPos)
    } else if !is_decimal_text(f[5]) {
        Some(XmapField::RefStartPos)
    } else if !is_decimal_text(f[6]) {
        Some(XmapField::RefEndPos)
    } else if !is_decimal_text(f[8]) {
        Some(XmapField::Confidence)
    } else {
        None
    }
}

/// The record that the fields of a well-spelled record line make.
pub open spec fn record_of(f: Seq<Seq<char>>) -> RecordView {
    RecordView {
        xmap_entry_id: unsigned_value(f[0], 0xffff_ffff)->0 as u32,
        qry_contig_id: unsigned_value(f[1], 0xffff_ffff)->0 as u32,
        ref_contig_id: unsigned_value(f[2], 0xff)->0 as u8,
        qry_start_pos: f[3],
        qry_end_pos: f[4],
        ref_start_pos: f[5],
        ref_end_pos: f[6],
        orientation: orientation_of(f[7]),
        confidence: f[8],
        ref_len: f[11],
    }
}

/// What the line `l` amounts to.
pub open spec fn line_outcome(l: Seq<char>) -> OutcomeView {
    let f = split(l, '\t');
    if !is_data_line(l) || f.len() < REQUIRED_FIELDS {
        OutcomeView::Skipped
    } else {
        match failing_field(f) {
            Some(field) => OutcomeView::Failed(field),
            None => OutcomeView::Record(record_of(f)),
        }
    }
}

/// The first line that fails, with its failing field.
pub open spec fn first_failure(lines: Seq<Seq<char>>) -> Option<ParseError>
    decreases lines.len(),
{
    if lines.len() == 0 {
        None
    } else {
        match first_failure(lines.drop_last()) {
            Some(e) => Some(e),
            None => match line_outcome(lines.last()) {
                OutcomeView::Failed(field) => Some(
                    ParseError { line: (lines.len() - 1) as usize, field },
                ),
                _ => None,
            },
        }
    }
}

/// The records of the lines, in the order of the lines.
pub open spec fn records_of(lines: Seq<Seq<char>>) -> Seq<RecordView>
    decreases lines.len(),
{
    if lines.len() == 0 {
        Seq::empty()
    } else {
        let before = records_of(lines.drop_last());
        match line_outcome(lines.last()) {
            OutcomeView::Record(r) => before.push(r),
            _ => before,
        }
    }
}

/// The entries of a table into which the records `rs` went one after the
/// other: a record takes the place of an earlier one with its entry
/// identifier, or goes to the end.
pub open spec fn entries_of(rs: Seq<RecordView>) -> Seq<RecordView>
    decreases rs.len(),
{
    if rs.len() == 0 {
        Seq::empty()
    } else {
        let e = entries_of(rs.drop_last());
        let r = rs.last();
        if has_entry(e, r.xmap_entry_id) {
            e.update(entry_index(e, r.xmap_entry_id), r)
        } else {
            e.push(r)
        }
    }
}

/// The records `rs`, each under its entry identifier; where several have one
/// identifier, the last of them.
pub open spec fn record_map(rs: Seq<RecordView>) -> Map<u32, RecordView>
    decreases rs.len(),
{
    if rs.len() == 0 {
        Map::empty()
    } else {
        record_map(rs.drop_last()).insert(rs.last().xmap_entry_id, rs.last())
    }
}

/// The length of each reference contig that the records `rs` name; where
/// several name one contig, the length that the last of them gives.
pub open spec fn length_map(rs: Seq<RecordView>) -> Map<u8, Seq<char>>
    decreases rs.len(),
{
    if rs.len() == 0 {
        Map::empty()
    } else {
        length_map(rs.drop_last()).insert(rs.last().ref_contig_id, rs.last().ref_len)
    }
}

/// `file` is the parse of `content`: its record table holds the records of the
/// lines of `content`, and its length table the lengths that they give.
pub open spec fn parse_of(content: Seq<char>, file: ParsedFile) -> bool {
    let rs = records_of(lines_of(content));
    &&& file.0.entries() == entries_of(rs)
    &&& file.0@ == record_map(rs)
    &&& file.1@ == length_map(rs)
}

/// A failure among the first lines is the failure of the whole.
pub proof fn lemma_first_failure_stays(lines: Seq<Seq<char>>, k: int)
    requires
        0 <= k <= lines.len(),
        first_failure(lines.take(k)) is Some,
    ensures
        first_failure(lines) == first_failure(lines.take(k)),
    decreases lines.len() - k,
{
    if k == lines.len() {
        assert(lines.take(k) =~= lines);
    } else {
        assert(lines.take(k + 1).drop_last() =~= lines.take(k));
        lemma_first_failure_stays(lines, k + 1);
    }
}

fn field<'a>(line: &'a [char], ranges: &Vec<(usize, usize)>, k: usize) -> (f: &'a [char])
    requires
        ranges_within(ranges@, line@.len()),
        k < ranges@.len(),
    ensures
        f@ == pieces_of(line@, ranges@)[k as int],
{
    let (a, b) = ranges[k];
    slice_subrange(line, a, b)
}

/// Reads one line of a mapping file.
pub fn parse_line(line: &[char]) -> (out: LineOutcome)
    ensures
        out@ == line_outcome(line@),
{
    if line.len() > 0 && line[0] == '#' {
        return LineOutcome::Skipped;
    }
    if blank(line) {
        return LineOutcome::Skipped;
    }
    let ranges = split_ranges(line, '\t');
    if ranges.len() < REQUIRED_FIELDS {
        return LineOutcome::Skipped;
    }
    let ghost f = split(line@, '\t');
    let ref_contig_id: u8 = match parse_unsigned(field(line, &ranges, 2), 0xff) {
        Some(v) => v as u8,
        None => {
            return LineOutcome::Failed(XmapField::RefContigId);
        },
    };
    let ref_len = match Decimal::parse(field(line, &ranges, 11)) {
        Some(d) => d,
        None => {
            return LineOutcome::Failed(XmapField::RefLen);
        },
    };
    let xmap_entry_id: u32 = match parse_unsigned(field(line, &ranges, 0), 0xffff_ffff) {
        Some(v) => v as u32,
        None => {
            return LineOutcome::Failed(XmapField::XmapEntryId);
        },
    };
    let qry_contig_id: u32 = match parse_unsigned(field(line, &ranges, 1), 0xffff_ffff) {
        Some(v) => v as u32,
        None => {
            return LineOutcome::Failed(XmapField::QryContigId);
        },
    };
    let qry_start_pos = match Decimal::parse(field(line, &ranges, 3)) {
        Some(d) => d,
        None => {
            return LineOutcome::Failed(XmapField::QryStartPos);
        },
    };
    let qry_end_pos = match Decimal::parse(field(line, &ranges, 4)) {
        Some(d) => d,
        None => {
            return LineOutcome::Failed(XmapField::QryEndPos);
        },
    };
    let ref_start_pos = match Decimal::parse(field(line, &ranges, 5)) {
        Some(d) => d,
        None => {
            return LineOutcome::Failed(XmapField::RefStartPos);
        },
    };
    let ref_end_pos = match Decimal::parse(field(line, &ranges, 6)) {
        Some(d) => d,
        None => {
            return LineOutcome::Failed(XmapField::RefEndPos);
        },
    };
    let seventh = field(line, &ranges, 7);
    let orientation = if seventh.len() > 0 {
        seventh[0]
    } else {
        '+'
    };
    let confidence = match Decimal::parse(field(line, &ranges, 8)) {
        Some(d) => d,
        None => {
            return LineOutcome::Failed(XmapField::Confidence);
        },
    };
    LineOutcome::Record(
        XmapRecord {
            xmap_entry_id,
            qry_contig_id,
            ref_contig_id,
            qry_start_pos,
            qry_end_pos,
            ref_start_pos,
            ref_end_pos,
            orientation,
            confidence,
            ref_len,
        },
    )
}

/// Parses the content of a mapping file.
///
/// The lines are read in order. The parse fails at the first record line with
/// a misspelled number, and names that line and the field. Otherwise every
/// record goes into the record table under its entry identifier, and the
/// length of its reference contig into the length table; a later record
/// replaces an earlier one with the same key.
pub fn parse_xmap_file(content: &str) -> (parsed: Result<ParsedFile, ParseError>)
    ensures
        match parsed {
            Ok(file) => {
                &&& first_failure(lines_of(content@)) is None
                &&& file.0.wf()
                &&& file.1.wf()
                &&& parse_of(content@, file)
            },
            Err(e) => first_failure(lines_of(content@)) == Some(e),
        },
{
    let chars = chars_of(content);
    let text = chars.as_slice();
    let ranges = line_ranges(text);
    let ghost lines = lines_of(content@);
    let mut records = RecordTable::new();
    let mut lengths = ChromosomeLengthTable::new();
    let n = ranges.len();
    let mut k: usize = 0;
    assert(lines.take(0) =~= Seq::<Seq<char>>::empty());
    while k < n
        invariant
            text@ == content@,
            lines == lines_of(content@),
            ranges_within(ranges@, text@.len()),
            pieces_of(text@, ranges@) == lines,
            n == ranges@.len(),
            0 <= k <= n,
            records.wf(),
            lengths.wf(),
            first_failure(lines.take(k as int)) is None,
            records.entries() == entries_of(records_of(lines.take(k as int))),
            records@ == record_map(records_of(lines.take(k as int))),
            lengths@ == length_map(records_of(lines.take(k as int))),
        decreases n - k,
    {
        let (a, b) = ranges[k];
        let line = slice_subrange(text, a, b);
        proof {
            assert(line@ == pieces_of(text@, ranges@)[k as int]);
            assert(lines.take(k + 1).drop_last() =~= lines.take(k as int));
            assert(lines.take(k + 1).last() == lines[k as int]);
        }
        match parse_line(line) {
            LineOutcome::Skipped => {},
            LineOutcome::Failed(field) => {
                proof {
                    lemma_first_failure_stays(lines, k + 1);
                }
                return Err(ParseError { line: k, field });
            },
            LineOutcome::Record(record) => {
                lengths.insert(
                    ChromosomeInfo {
                        ref_contig_id: record.ref_contig_id,
                        ref_len: record.ref_len.clone(),
                    },
                );
                records.insert(Arc::new(record));
                proof {
                    let before = records_of(lines.take(k as int));
                    let after = records_of(lines.take(k + 1));
                    assert(after == before.push(record@));
                    assert(after.drop_last() =~= before);
                }
            },
        }
        k = k + 1;
    }
    assert(lines.take(n as int) =~= lines);
    Ok((Arc::new(records), Arc::new(lengths)))
}

/// The test "is a data line".
pub open spec fn data_line() -> spec_fn(Seq<char>) -> bool {
    |l: Seq<char>| is_data_line(l)
}

/// The test "is a data line with too few fields".
pub open spec fn short_line() -> spec_fn(Seq<char>) -> bool {
    |l: Seq<char>| is_short_line(l)
}

/// Where no line fails, every data line with enough fields gives one record.
pub proof fn lemma_record_count(lines: Seq<Seq<char>>)
    requires
        first_failure(lines) is None,
    ensures
        records_of(lines).len() == lines.filter(data_line()).len() - lines.filter(
            short_line(),
        ).len(),
    decreases lines.len(),
{
    reveal(Seq::filter);
    if lines.len() > 0 {
        lemma_record_count(lines.drop_last());
    }
}

/// Records with distinct entry identifiers all stay in the table, in their
/// order.
pub proof fn lemma_entries_of_distinct(rs: Seq<RecordView>)
    requires
        distinct_ids(rs),
    ensures
        entries_of(rs) == rs,
    decreases rs.len(),
{
    if rs.len() > 0 {
        let rest = rs.drop_last();
        assert(distinct_ids(rest)) by {
            assert forall|i: int, j: int|
                0 <= i < rest.len() && 0 <= j < rest.len() && i != j implies (#[trigger] rest[i]).xmap_entry_id
                != (#[trigger] rest[j]).xmap_entry_id by {
                assert(rest[i] == rs[i] && rest[j] == rs[j]);
            }
        }
        lemma_entries_of_distinct(rest);
        if has_entry(rest, rs.last().xmap_entry_id) {
            let i = entry_index(rest, rs.last().xmap_entry_id);
            assert(rs[i].xmap_entry_id == rs[rs.len() - 1].xmap_entry_id);
        }
        assert(rest.push(rs.last()) =~= rs);
    }
}

/// Records with distinct entry identifiers make a map of as many entries.
pub proof fn lemma_record_map_size(rs: Seq<RecordView>)
    requires
        distinct_ids(rs),
    ensures
        record_map(rs).dom().finite(),
        record_map(rs).dom().len() == rs.len(),
    decreases rs.len(),
{
    if rs.len() > 0 {
        let rest = rs.drop_last();
        let id = rs.last().xmap_entry_id;
        assert(distinct_ids(rest)) by {
            assert forall|i: int, j: int|
                0 <= i < rest.len() && 0 <= j < rest.len() && i != j implies (#[trigger] rest[i]).xmap_entry_id
                != (#[trigger] rest[j]).xmap_entry_id by {
                assert(rest[i] == rs[i] && rest[j] == rs[j]);
            }
        }
        lemma_record_map_size(rest);
        lemma_record_map(rest);
        if has_entry(rest, id) {
            let i = entry_index(rest, id);
            assert(rs[i].xmap_entry_id == rs[rs.len() - 1].xmap_entry_id);
        }
        assert(!record_map(rest).contains_key(id));
        assert(record_map(rs).dom() =~= record_map(rest).dom().insert(id));
    }
}

/// The record count of a well-formed file. Where no line fails and no entry
/// identifier stands twice, the file gives as many records as it has data
/// lines, less those with too few fields: so many entries has the table, and
/// so many identifiers the record map.
pub proof fn lemma_well_formed_count(lines: Seq<Seq<char>>)
    requires
        first_failure(lines) is None,
        distinct_ids(records_of(lines)),
    ensures
        entries_of(records_of(lines)).len() == lines.filter(data_line()).len() - lines.filter(
            short_line(),
        ).len(),
        record_map(records_of(lines)).dom().finite(),
        record_map(records_of(lines)).dom().len() == lines.filter(data_line()).len()
            - lines.filter(short_line()).len(),
{
    lemma_record_count(lines);
    lemma_entries_of_distinct(records_of(lines));
    lemma_record_map_size(records_of(lines));
}

/// The records of the lines are the records that some line spells.
pub proof fn lemma_records_of_contains(lines: Seq<Seq<char>>, r: RecordView)
    ensures
        records_of(lines).contains(r) <==> lines_spell(lines, r),
    decreases lines.len(),
{
    if lines.len() > 0 {
        let rest = lines.drop_last();
        let before = records_of(rest);
        let all = records_of(lines);
        lemma_records_of_contains(rest, r);
        if all.contains(r) {
            let i = all.index_of(r);
            assert(all[i] == r);
            if i < before.len() {
                assert(before[i] == r);
                assert(before.contains(r));
                let k = choose|k: int|
                    0 <= k < rest.len() && line_outcome(#[trigger] rest[k]) == OutcomeView::Record(
                        r,
                    );
                assert(lines[k] == rest[k]);
            } else {
                assert(line_outcome(lines[lines.len() - 1]) == OutcomeView::Record(r));
            }
        }
        if lines_spell(lines, r) {
            let k = choose|k: int|
                0 <= k < lines.len() && line_outcome(#[trigger] lines[k]) == OutcomeView::Record(r);
            if k < rest.len() {
                assert(rest[k] == lines[k]);
                assert(lines_spell(rest, r));
                let i = before.index_of(r);
                assert(before[i] == r);
                assert(all[i] == r);
            } else {
                assert(all[all.len() - 1] == r);
            }
        }
    }
}

/// Some line of `lines` spells the record `r`.
pub open spec fn lines_spell(lines: Seq<Seq<char>>, r: RecordView) -> bool {
    exists|k: int|
        0 <= k < lines.len() && line_outcome(#[trigger] lines[k]) == OutcomeView::Record(r)
}

/// Some line of `lines` fails.
pub open spec fn some_line_fails(lines: Seq<Seq<char>>) -> bool {
    exists|k: int| 0 <= k < lines.len() && line_outcome(#[trigger] lines[k]) is Failed
}

/// A parse fails exactly when some line fails.
pub proof fn lemma_failure(lines: Seq<Seq<char>>)
    ensures
        first_failure(lines) is Some <==> some_line_fails(lines),
    decreases lines.len(),
{
    if lines.len() > 0 {
        let rest = lines.drop_last();
        lemma_failure(rest);
        if some_line_fails(lines) {
            let k = choose|k: int| 0 <= k < lines.len() && line_outcome(#[trigger] lines[k]) is Failed;
            if k < rest.len() {
                assert(rest[k] == lines[k]);
                assert(some_line_fails(rest));
            }
        }
        if first_failure(lines) is Some {
            if first_failure(rest) is Some {
                let k = choose|k: int| 0 <= k < rest.len() && line_outcome(#[trigger] rest[k]) is Failed;
                assert(lines[k] == rest[k]);
            } else {
                assert(line_outcome(lines[lines.len() - 1]) is Failed);
            }
        }
    }
}

/// Records with one entry identifier are one record.
pub open spec fn ids_agree(rs: Seq<RecordView>) -> bool {
    forall|i: int, j: int|
        0 <= i < rs.len() && 0 <= j < rs.len() && (#[trigger] rs[i]).xmap_entry_id == (
        #[trigger] rs[j]).xmap_entry_id ==> rs[i] == rs[j]
}

/// Records that name one reference contig give it one length.
pub open spec fn lengths_agree(rs: Seq<RecordView>) -> bool {
    forall|i: int, j: int|
        0 <= i < rs.len() && 0 <= j < rs.len() && (#[trigger] rs[i]).ref_contig_id == (
        #[trigger] rs[j]).ref_contig_id ==> rs[i].ref_len == rs[j].ref_len
}

/// The record map holds the identifiers that occur; where identifiers agree,
/// each record stands under its own.
pub proof fn lemma_record_map(rs: Seq<RecordView>)
    ensures
        forall|id: u32|
            #![trigger record_map(rs).contains_key(id)]
            #![trigger has_entry(rs, id)]
            record_map(rs).contains_key(id) <==> has_entry(rs, id),
        ids_agree(rs) ==> forall|i: int|
            0 <= i < rs.len() ==> record_map(rs)[(#[trigger] rs[i]).xmap_entry_id] == rs[i],
    decreases rs.len(),
{
    if rs.len() > 0 {
        let rest = rs.drop_last();
        lemma_record_map(rest);
        assert forall|id: u32|
            #![trigger record_map(rs).contains_key(id)]
            #![trigger has_entry(rs, id)]
            record_map(rs).contains_key(id) <==> has_entry(rs, id) by {
            if has_entry(rs, id) {
                let i = choose|i: int| 0 <= i < rs.len() && (#[trigger] rs[i]).xmap_entry_id == id;
                if i < rest.len() {
                    assert(rest[i].xmap_entry_id == id);
                    assert(has_entry(rest, id));
                }
            }
            if record_map(rs).contains_key(id) {
                if id != rs.last().xmap_entry_id {
                    assert(record_map(rest).contains_key(id));
                    assert(has_entry(rest, id));
                    let i = choose|i: int|
                        0 <= i < rest.len() && (#[trigger] rest[i]).xmap_entry_id == id;
                    assert(rs[i].xmap_entry_id == id);
                } else {
                    assert(rs[rs.len() - 1].xmap_entry_id == id);
                }
            }
        }
        if ids_agree(rs) {
            assert(ids_agree(rest)) by {
                assert forall|i: int, j: int|
                    0 <= i < rest.len() && 0 <= j < rest.len() && (#[trigger] rest[i]).xmap_entry_id
                        == (#[trigger] rest[j]).xmap_entry_id implies rest[i] == rest[j] by {
                    assert(rest[i] == rs[i] && rest[j] == rs[j]);
                }
            }
            assert forall|i: int| 0 <= i < rs.len() implies record_map(rs)[(
            #[trigger] rs[i]).xmap_entry_id] == rs[i] by {
                if i < rest.len() {
                    assert(rest[i] == rs[i]);
                    if rs[i].xmap_entry_id == rs.last().xmap_entry_id {
                        assert(rs[i] == rs[rs.len() - 1]);
                    }
                }
            }
        }
    }
}

/// Some record of `rs` names the reference contig `id`.
pub open spec fn names_contig(rs: Seq<RecordView>, id: u8) -> bool {
    exists|i: int| 0 <= i < rs.len() && (#[trigger] rs[i]).ref_contig_id == id
}

/// The length map holds the reference contigs that occur; where lengths
/// agree, each contig has the length that any of its records gives.
pub proof fn lemma_length_map(rs: Seq<RecordView>)
    ensures
        forall|id: u8|
            #![trigger length_map(rs).contains_key(id)]
            #![trigger names_contig(rs, id)]
            length_map(rs).contains_key(id) <==> names_contig(rs, id),
        lengths_agree(rs) ==> forall|i: int|
            0 <= i < rs.len() ==> length_map(rs)[(#[trigger] rs[i]).ref_contig_id] == rs[i].ref_len,
    decreases rs.len(),
{
    if rs.len() > 0 {
        let rest = rs.drop_last();
        lemma_length_map(rest);
        assert forall|id: u8|
            #![trigger length_map(rs).contains_key(id)]
            #![trigger names_contig(rs, id)]
            length_map(rs).contains_key(id) <==> names_contig(rs, id) by {
            if names_contig(rs, id) {
                let i = choose|i: int| 0 <= i < rs.len() && (#[trigger] rs[i]).ref_contig_id == id;
                if i < rest.len() {
                    assert(rest[i].ref_contig_id == id);
                    assert(names_contig(rest, id));
                }
            }
            if length_map(rs).contains_key(id) {
                if id != rs.last().ref_contig_id {
                    assert(length_map(rest).contains_key(id));
                    assert(names_contig(rest, id));
                    let i = choose|i: int|
                        0 <= i < rest.len() && (#[trigger] rest[i]).ref_contig_id == id;
                    assert(rs[i].ref_contig_id == id);
                } else {
                    assert(rs[rs.len() - 1].ref_contig_id == id);
                }
            }
        }
        if lengths_agree(rs) {
            assert(lengths_agree(rest)) by {
                assert forall|i: int, j: int|
                    0 <= i < rest.len() && 0 <= j < rest.len() && (#[trigger] rest[i]).ref_contig_id
                        == (#[trigger] rest[j]).ref_contig_id implies rest[i].ref_len
                    == rest[j].ref_len by {
                    assert(rest[i] == rs[i] && rest[j] == rs[j]);
                }
            }
            assert forall|i: int| 0 <= i < rs.len() implies length_map(rs)[(
            #[trigger] rs[i]).ref_contig_id] == rs[i].ref_len by {
                if i < rest.len() {
                    assert(rest[i] == rs[i]);
                    if rs[i].ref_contig_id == rs.last().ref_contig_id {
                        assert(rs[i].ref_len == rs[rs.len() - 1].ref_len);
                    }
                }
            }
        }
    }
}

/// Parsing does not depend on the order of the lines. Let two files hold the
/// same lines, each as often as in the other, in any order, and let no two
/// different records of the first share an entry identifier. Then both parse
/// or both fail, and their record maps are equal. Where moreover the records
/// that name one reference contig agree on its length, the length maps are
/// equal too.
pub proof fn lemma_line_order(l1: Seq<Seq<char>>, l2: Seq<Seq<char>>)
    requires
        l1.to_multiset() == l2.to_multiset(),
        ids_agree(records_of(l1)),
    ensures
        first_failure(l1) is None <==> first_failure(l2) is None,
        record_map(records_of(l1)) == record_map(records_of(l2)),
        lengths_agree(records_of(l1)) ==> length_map(records_of(l1)) == length_map(records_of(l2)),
{
    let r1 = records_of(l1);
    let r2 = records_of(l2);
    assert forall|l: Seq<char>| l1.contains(l) <==> l2.contains(l) by {
        vstd::seq_lib::to_multiset_contains(l1, l);
        vstd::seq_lib::to_multiset_contains(l2, l);
    }
    lemma_same_lines(l1, l2);
    lemma_same_lines(l2, l1);
    assert forall|i: int, j: int|
        0 <= i < r2.len() && 0 <= j < r2.len() && (#[trigger] r2[i]).xmap_entry_id == (
        #[trigger] r2[j]).xmap_entry_id implies r2[i] == r2[j] by {
        assert(r2.contains(r2[i]) && r2.contains(r2[j]));
        let a = r1.index_of(r2[i]);
        let b = r1.index_of(r2[j]);
        assert(r1[a] == r2[i] && r1[b] == r2[j]);
    }
    lemma_record_map(r1);
    lemma_record_map(r2);
    let m1 = record_map(r1);
    let m2 = record_map(r2);
    assert forall|id: u32| m1.contains_key(id) == m2.contains_key(id) by {
        assert(m1.contains_key(id) <==> has_entry(r1, id));
        assert(m2.contains_key(id) <==> has_entry(r2, id));
        if has_entry(r1, id) {
            let i = choose|i: int| 0 <= i < r1.len() && (#[trigger] r1[i]).xmap_entry_id == id;
            assert(r1.contains(r1[i]));
            let k = r2.index_of(r1[i]);
            assert(r2[k].xmap_entry_id == id);
        }
        if has_entry(r2, id) {
            let i = choose|i: int| 0 <= i < r2.len() && (#[trigger] r2[i]).xmap_entry_id == id;
            assert(r2.contains(r2[i]));
            let k = r1.index_of(r2[i]);
            assert(r1[k].xmap_entry_id == id);
        }
    }
    assert forall|id: u32| m1.contains_key(id) implies #[trigger] m1[id] == m2[id] by {
        assert(has_entry(r1, id));
        let i = choose|i: int| 0 <= i < r1.len() && (#[trigger] r1[i]).xmap_entry_id == id;
        assert(r1.contains(r1[i]));
        let k = r2.index_of(r1[i]);
        assert(r2[k] == r1[i]);
    }
    assert(m1 =~= m2);
    if lengths_agree(r1) {
        assert forall|i: int, j: int|
            0 <= i < r2.len() && 0 <= j < r2.len() && (#[trigger] r2[i]).ref_contig_id == (
            #[trigger] r2[j]).ref_contig_id implies r2[i].ref_len == r2[j].ref_len by {
            assert(r2.contains(r2[i]) && r2.contains(r2[j]));
            let a = r1.index_of(r2[i]);
            let b = r1.index_of(r2[j]);
            assert(r1[a] == r2[i] && r1[b] == r2[j]);
        }
        lemma_length_map(r1);
        lemma_length_map(r2);
        let n1 = length_map(r1);
        let n2 = length_map(r2);
        assert forall|id: u8| n1.contains_key(id) == n2.contains_key(id) by {
            if n1.contains_key(id) {
                assert(names_contig(r1, id));
                let i = choose|i: int| 0 <= i < r1.len() && (#[trigger] r1[i]).ref_contig_id == id;
                assert(r1.contains(r1[i]));
                let k = r2.index_of(r1[i]);
                assert(r2[k].ref_contig_id == id);
                assert(names_contig(r2, id));
            }
            if n2.contains_key(id) {
                assert(names_contig(r2, id));
                let i = choose|i: int| 0 <= i < r2.len() && (#[trigger] r2[i]).ref_contig_id == id;
                assert(r2.contains(r2[i]));
                let k = r1.index_of(r2[i]);
                assert(r1[k].ref_contig_id == id);
                assert(names_contig(r1, id));
            }
        }
        assert forall|id: u8| n1.contains_key(id) implies #[trigger] n1[id] == n2[id] by {
            assert(names_contig(r1, id));
            let i = choose|i: int| 0 <= i < r1.len() && (#[trigger] r1[i]).ref_contig_id == id;
            assert(r1.contains(r1[i]));
            let k = r2.index_of(r1[i]);
            assert(r2[k] == r1[i]);
        }
        assert(n1 =~= n2);
    }
}

/// Where every line of `l1` is a line of `l2`, every record of `l1` is a
/// record of `l2`, and a failure of `l1` is a failure of `l2`.
proof fn lemma_same_lines(l1: Seq<Seq<char>>, l2: Seq<Seq<char>>)
    requires
        forall|l: Seq<char>| l1.contains(l) ==> l2.contains(l),
    ensures
        forall|r: RecordView| records_of(l1).contains(r) ==> records_of(l2).contains(r),
        first_failure(l1) is Some ==> first_failure(l2) is Some,
{
    assert forall|r: RecordView| records_of(l1).contains(r) implies records_of(l2).contains(r) by {
        lemma_records_of_contains(l1, r);
        lemma_records_of_contains(l2, r);
        let k = choose|k: int|
            0 <= k < l1.len() && line_outcome(#[trigger] l1[k]) == OutcomeView::Record(r);
        assert(l1.contains(l1[k]));
        let t = l2.index_of(l1[k]);
        assert(l2[t] == l1[k]);
    }
    lemma_failure(l1);
    lemma_failure(l2);
    if first_failure(l1) is Some {
        let k = choose|k: int| 0 <= k < l1.len() && line_outcome(#[trigger] l1[k]) is Failed;
        assert(l1.contains(l1[k]));
        let t = l2.index_of(l1[k]);
        assert(l2[t] == l1[k]);
    }
}

} // verus!
