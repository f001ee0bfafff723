//! Alignment records and the matches made of them.

use crate::number::Decimal;
use std::sync::Arc;
use vstd::prelude::*;

verus! {

/// One alignment of a query contig onto a reference contig: one data line of
/// a mapping file.
#[derive(Debug)]
pub struct XmapRecord {
    pub xmap_entry_id: u32,
    pub qry_contig_id: u32,
    pub ref_contig_id: u8,
    pub qry_start_pos: Decimal,
    pub qry_end_pos: Decimal,
    pub ref_start_pos: Decimal,
    pub ref_end_pos: Decimal,
    pub orientation: char,
    pub confidence: Decimal,
    pub ref_len: Decimal,
}

/// The mathematical value of an [`XmapRecord`].
pub struct RecordView {
    pub xmap_entry_id: u32,
    pub qry_contig_id: u32,
    pub ref_contig_id: u8,
    pub qry_start_pos: Seq<char>,
    pub qry_end_pos: Seq<char>,
    pub ref_start_pos: Seq<char>,
    pub ref_end_pos: Seq<char>,
    pub orientation: char,
    pub confidence: Seq<char>,
    pub ref_len: Seq<char>,
}

impl View for XmapRecord {
    type V = RecordView;

    open spec fn view(&self) -> RecordView {
        RecordView {
            xmap_entry_id: self.xmap_entry_id,
            qry_contig_id: self.qry_contig_id,
            ref_contig_id: self.ref_contig_id,
            qry_start_pos: self.qry_start_pos@,
            qry_end_pos: self.qry_end_pos@,
            ref_start_pos: self.ref_start_pos@,
            ref_end_pos: self.ref_end_pos@,
            orientation: self.orientation,
            confidence: self.confidence@,
            ref_len: self.ref_len@,
        }
    }
}

/// A reference contig and its length in bases.
#[derive(Debug)]
pub struct ChromosomeInfo {
    pub ref_contig_id: u8,
    pub ref_len: Decimal,
}

/// The mathematical value of a [`ChromosomeInfo`].
pub struct ChromosomeView {
    pub ref_contig_id: u8,
    pub ref_len: Seq<char>,
}

impl View for ChromosomeInfo {
    type V = ChromosomeView;

    open spec fn view(&self) -> ChromosomeView {
        ChromosomeView { ref_contig_id: self.ref_contig_id, ref_len: self.ref_len@ }
    }
}

/// What one record of one file contributes to a match.
#[derive(Debug)]
pub struct MatchedRecord {
    pub file_index: usize,
    pub ref_contig_id: u8,
    pub qry_start_pos: Decimal,
    pub qry_end_pos: Decimal,
    pub ref_start_pos: Decimal,
    pub ref_end_pos: Decimal,
    pub orientation: char,
    pub confidence: Decimal,
    pub ref_len: Decimal,
}

/// The mathematical value of a [`MatchedRecord`].
pub struct MatchedView {
    pub file_index: usize,
    pub ref_contig_id: u8,
    pub qry_start_pos: Seq<char>,
    pub qry_end_pos: Seq<char>,
    pub ref_start_pos: Seq<char>,
    pub ref_end_pos: Seq<char>,
    pub orientation: char,
    pub confidence: Seq<char>,
    pub ref_len: Seq<char>,
}

impl View for MatchedRecord {
    type V = MatchedView;

    open spec fn view(&self) -> MatchedView {
        MatchedView {
            file_index: self.file_index,
            ref_contig_id: self.ref_contig_id,
            qry_start_pos: self.qry_start_pos@,
            qry_end_pos: self.qry_end_pos@,
            ref_start_pos: self.ref_start_pos@,
            ref_end_pos: self.ref_end_pos@,
            orientation: self.orientation,
            confidence: self.confidence@,
            ref_len: self.ref_len@,
        }
    }
}

/// What the record `r` contributes to a match when it belongs to the file at
/// position `file_index`.
pub open spec fn matched_from(r: RecordView, file_index: usize) -> MatchedView {
    MatchedView {
        file_index,
        ref_contig_id: r.ref_contig_id,
        qry_start_pos: r.qry_start_pos,
        qry_end_pos: r.qry_end_pos,
        ref_start_pos: r.ref_start_pos,
        ref_end_pos: r.ref_end_pos,
        orientation: r.orientation,
        confidence: r.confidence,
        ref_len: r.ref_len,
    }
}

impl MatchedRecord {
    /// The contribution of `record`, tagged with the position of its file.
    pub fn from_record(record: &XmapRecord, file_index: usize) -> (m: MatchedRecord)
        ensures
            m@ == matched_from(record@, file_index),
    {
        MatchedRecord {
            file_index,
            ref_contig_id: record.ref_contig_id,
            qry_start_pos: record.qry_start_pos.clone(),
            qry_end_pos: record.qry_end_pos.clone(),
            ref_start_pos: record.ref_start_pos.clone(),
            ref_end_pos: record.ref_end_pos.clone(),
            orientation: record.orientation,
            confidence: record.confidence.clone(),
            ref_len: record.ref_len.clone(),
        }
    }
}

impl Clone for MatchedRecord {
    fn clone(&self) -> (c: Self)
        ensures
            c@ == self@,
    {
        MatchedRecord {
            file_index: self.file_index,
            ref_contig_id: self.ref_contig_id,
            qry_start_pos: self.qry_start_pos.clone(),
            qry_end_pos: self.qry_end_pos.clone(),
            ref_start_pos: self.ref_start_pos.clone(),
            ref_end_pos: self.ref_end_pos.clone(),
            orientation: self.orientation,
            confidence: self.confidence.clone(),
            ref_len: self.ref_len.clone(),
        }
    }
}

/// One match: a query contig that two files share, with the records of both.
#[derive(Debug)]
pub struct XmapMatch {
    pub qry_contig_id: u32,
    /// The positions of the files that contributed, in ascending order.
    pub file_indices: Vec<usize>,
    /// One entry for each contributing record, file by file.
    pub records: Vec<MatchedRecord>,
}

/// The mathematical value of an [`XmapMatch`].
pub struct MatchView {
    pub qry_contig_id: u32,
    pub file_indices: Seq<usize>,
    pub records: Seq<MatchedView>,
}

/// The values of a sequence of contributions.
pub open spec fn matched_views(records: Seq<MatchedRecord>) -> Seq<MatchedView> {
    Seq::new(records.len(), |i: int| records[i]@)
}

impl View for XmapMatch {
    type V = MatchView;

    open spec fn view(&self) -> MatchView {
        MatchView {
            qry_contig_id: self.qry_contig_id,
            file_indices: self.file_indices@,
            records: matched_views(self.records@),
        }
    }
}

/// The values of a sequence of matches.
pub open spec fn match_views(matches: Seq<XmapMatch>) -> Seq<MatchView> {
    Seq::new(matches.len(), |i: int| matches[i]@)
}

/// The values of a sequence of shared records.
pub open spec fn record_views(records: Seq<Arc<XmapRecord>>) -> Seq<RecordView> {
    Seq::new(records.len(), |i: int| records[i]@)
}

/// Another handle on the record that `record` points to.
///
/// Trusted: `Arc::clone` returns a pointer to the same allocation, so the
/// value behind the new handle is the value behind the old one.
#[verifier::external_body]
pub(crate) fn share<T>(handle: &Arc<T>) -> (other: Arc<T>)
    ensures
        other == *handle,
{
    Arc::clone(handle)
}

} // verus!
