use std::sync::Arc;
use xmap::file::RecordTable;
use xmap::matching::{
    contig_batches, file_pairs, match_batch, match_contig, match_pair, stream_matches_multi,
    XmapFileSet, BATCH_SIZE,
};
use xmap::parse::parse_xmap_file;
use xmap::record::XmapMatch;

const HEADER: &str = "#h XmapEntryID\tQryContigID\tRefContigID\tQryStartPos\tQryEndPos\tRefStartPos\tRefEndPos\tOrientation\tConfidence\tHitEnum\tQryLen\tRefLen\n";

fn records(lines: &[&str]) -> Arc<RecordTable> {
    let content = format!("{}{}", HEADER, lines.join("\n"));
    parse_xmap_file(&content).unwrap().0
}

/// A file with one record for each of the given pairs of entry identifier and
/// query contig.
fn file_of(entries: &[(u32, u32)]) -> Arc<RecordTable> {
    let lines: Vec<String> = entries
        .iter()
        .map(|(id, q)| format!("{}\t{}\t1\t{}.5\t2000.0\t5000.0\t6000.0\t+\t15.0\t1M\t2000.0\t250000.0", id, q, id))
        .collect();
    let refs: Vec<&str> = lines.iter().map(|l| l.as_str()).collect();
    records(&refs)
}

fn set_of(files: Vec<Arc<RecordTable>>) -> Arc<XmapFileSet> {
    Arc::new(XmapFileSet::new(files))
}

fn spelled(text: &Vec<char>) -> String {
    text.iter().collect()
}

fn contigs(matches: &Vec<XmapMatch>) -> Vec<u32> {
    let mut all: Vec<u32> = matches.iter().map(|m| m.qry_contig_id).collect();
    all.sort();
    all
}

#[test]
fn test_stream_matches_multi_two_files() {
    let file1_records = records(&[
        "1\t100\t1\t1000.0\t2000.0\t5000.0\t6000.0\t+\t15.0\t1M\t2000.0\t250000.0",
        "2\t200\t2\t3000.0\t4000.0\t7000.0\t8000.0\t-\t14.5\t1M\t4000.0\t250000.0",
    ]);
    let file2_records = records(&[
        "10\t100\t3\t1500.0\t2500.0\t9000.0\t10000.0\t+\t16.0\t1M\t2500.0\t250000.0",
        "11\t200\t4\t3500.0\t4500.0\t11000.0\t12000.0\t-\t15.5\t1M\t4500.0\t250000.0",
    ]);

    let fileset = Arc::new(XmapFileSet::new(vec![file1_records, file2_records]));

    let rx = stream_matches_multi(fileset);

    let mut match_count = 0;
    for match_data in rx {
        match_count += 1;
        assert!(match_data.qry_contig_id == 100 || match_data.qry_contig_id == 200);
        assert_eq!(match_data.file_indices.len(), 2);
    }

    assert_eq!(match_count, 2);
}

#[test]
fn test_stream_matches_multi_three_files() {
    let file1_records =
        records(&["1\t100\t1\t1000.0\t2000.0\t5000.0\t6000.0\t+\t15.0\t1M\t2000.0\t250000.0"]);
    let file2_records =
        records(&["10\t100\t2\t1500.0\t2500.0\t7000.0\t8000.0\t+\t16.0\t1M\t2500.0\t250000.0"]);
    let file3_records =
        records(&["20\t100\t3\t2000.0\t3000.0\t9000.0\t10000.0\t-\t17.0\t1M\t3000.0\t250000.0"]);

    let fileset =
        Arc::new(XmapFileSet::new(vec![file1_records, file2_records, file3_records]));

    let rx = stream_matches_multi(fileset);

    let mut match_count = 0;
    for match_data in rx {
        match_count += 1;
        assert_eq!(match_data.qry_contig_id, 100);
        assert_eq!(match_data.file_indices.len(), 2);
        assert_eq!(match_data.records.len(), 2);
    }

    assert_eq!(match_count, 3);
}

#[test]
fn one_shared_contig_gives_one_match() {
    let a = file_of(&[(1, 100), (2, 200)]);
    let b = file_of(&[(10, 100), (11, 300)]);
    let matches = stream_matches_multi(set_of(vec![a, b]));
    assert_eq!(matches.len(), 1);
    let m = &matches[0];
    assert_eq!(m.qry_contig_id, 100);
    assert_eq!(m.file_indices, vec![0, 1]);
    assert_eq!(m.records.len(), 2);
    assert_eq!(m.records[0].file_index, 0);
    assert_eq!(spelled(m.records[0].qry_start_pos.text()), "1.5");
    assert_eq!(m.records[1].file_index, 1);
    assert_eq!(spelled(m.records[1].qry_start_pos.text()), "10.5");
}

#[test]
fn a_contig_of_three_files_gives_three_matches_of_two() {
    let a = file_of(&[(1, 100)]);
    let b = file_of(&[(10, 100)]);
    let c = file_of(&[(20, 100)]);
    let matches = stream_matches_multi(set_of(vec![a, b, c]));
    let pairs: Vec<Vec<usize>> = matches.iter().map(|m| m.file_indices.clone()).collect();
    assert_eq!(pairs, vec![vec![0, 1], vec![0, 2], vec![1, 2]]);
    for m in &matches {
        assert_eq!(m.qry_contig_id, 100);
        assert_eq!(m.records.len(), 2);
        assert_eq!(m.records[0].file_index, m.file_indices[0]);
        assert_eq!(m.records[1].file_index, m.file_indices[1]);
    }
}

#[test]
fn a_match_holds_every_record_of_the_contig() {
    let a = records(&[
        "1\t100\t1\t1.0\t2.0\t3.0\t4.0\t+\t5.0\t1M\t6.0\t7.0",
        "2\t200\t2\t11.0\t12.0\t13.0\t14.0\t-\t15.0\t1M\t16.0\t17.0",
        "3\t100\t3\t21.0\t22.0\t23.0\t24.0\t-\t25.0\t1M\t26.0\t27.0",
    ]);
    let b = records(&[
        "7\t100\t9\t31.0\t32.0\t33.0\t34.0\tx\t35.0\t1M\t36.0\t37.0",
        "8\t100\t8\t41.0\t42.0\t43.0\t44.0\t+\t45.0\t1M\t46.0\t47.0",
        "9\t100\t7\t51.0\t52.0\t53.0\t54.0\t+\t55.0\t1M\t56.0\t57.0",
    ]);
    let matches = stream_matches_multi(set_of(vec![a, b]));
    assert_eq!(matches.len(), 1);
    let m = &matches[0];
    assert_eq!(m.file_indices, vec![0, 1]);
    let tags: Vec<usize> = m.records.iter().map(|r| r.file_index).collect();
    assert_eq!(tags, vec![0, 0, 1, 1, 1]);
    let refs: Vec<u8> = m.records.iter().map(|r| r.ref_contig_id).collect();
    assert_eq!(refs, vec![1, 3, 9, 8, 7]);
    let r = &m.records[2];
    assert_eq!(spelled(r.qry_start_pos.text()), "31.0");
    assert_eq!(spelled(r.qry_end_pos.text()), "32.0");
    assert_eq!(spelled(r.ref_start_pos.text()), "33.0");
    assert_eq!(spelled(r.ref_end_pos.text()), "34.0");
    assert_eq!(r.orientation, 'x');
    assert_eq!(spelled(r.confidence.text()), "35.0");
    assert_eq!(spelled(r.ref_len.text()), "37.0");
}

#[test]
fn fewer_than_two_files_give_no_match() {
    assert_eq!(stream_matches_multi(set_of(vec![])).len(), 0);
    assert_eq!(stream_matches_multi(set_of(vec![file_of(&[(1, 100)])])).len(), 0);
}

#[test]
fn files_with_nothing_in_common_give_no_match() {
    let a = file_of(&[(1, 100), (2, 200)]);
    let b = file_of(&[(1, 300), (2, 400)]);
    let empty = file_of(&[]);
    assert_eq!(stream_matches_multi(set_of(vec![a.clone(), b])).len(), 0);
    assert_eq!(stream_matches_multi(set_of(vec![a.clone(), empty.clone()])).len(), 0);
    assert_eq!(stream_matches_multi(set_of(vec![empty, a])).len(), 0);
}

#[test]
fn matching_is_symmetric_in_the_contigs() {
    let a = file_of(&[(1, 5), (2, 6), (3, 7), (4, 5), (5, 9)]);
    let b = file_of(&[(1, 9), (2, 7), (3, 8), (4, 7), (5, 5)]);
    let ab = stream_matches_multi(set_of(vec![a.clone(), b.clone()]));
    let ba = stream_matches_multi(set_of(vec![b, a]));
    assert_eq!(contigs(&ab), vec![5, 7, 9]);
    assert_eq!(contigs(&ba), vec![5, 7, 9]);
}

#[test]
fn matches_come_in_the_order_of_the_first_file() {
    let a = file_of(&[(1, 30), (2, 10), (3, 20), (4, 10)]);
    let b = file_of(&[(1, 10), (2, 20), (3, 30)]);
    let matches = stream_matches_multi(set_of(vec![a, b]));
    let order: Vec<u32> = matches.iter().map(|m| m.qry_contig_id).collect();
    assert_eq!(order, vec![30, 10, 20]);
}

#[test]
fn many_contigs_go_through_several_batches() {
    let n = 2 * BATCH_SIZE as u32 + 37;
    let a: Vec<(u32, u32)> = (0..n).map(|i| (i, i)).collect();
    let b: Vec<(u32, u32)> = (0..n).filter(|i| i % 3 == 0).map(|i| (i, i)).collect();
    let set = set_of(vec![file_of(&a), file_of(&b)]);
    let matches = stream_matches_multi(set.clone());
    let expected: Vec<u32> = (0..n).filter(|i| i % 3 == 0).collect();
    let order: Vec<u32> = matches.iter().map(|m| m.qry_contig_id).collect();
    assert_eq!(order, expected);

    let mut by_pair = Vec::new();
    match_pair(&set, 0, 1, &mut by_pair);
    assert_eq!(by_pair.len(), expected.len());

    let mut by_batch = Vec::new();
    for (start, end) in contig_batches(n as usize, BATCH_SIZE) {
        match_batch(&set, 0, 1, start, end, &mut by_batch);
    }
    let order: Vec<u32> = by_batch.iter().map(|m| m.qry_contig_id).collect();
    assert_eq!(order, expected);

    assert_eq!(match_contig(&set, 0, 1, 3).unwrap().qry_contig_id, 3);
    assert!(match_contig(&set, 0, 1, 4).is_none());
}

#[test]
fn file_pairs_lists_every_pair_once() {
    assert_eq!(file_pairs(0), vec![]);
    assert_eq!(file_pairs(1), vec![]);
    assert_eq!(file_pairs(2), vec![(0, 1)]);
    assert_eq!(file_pairs(3), vec![(0, 1), (0, 2), (1, 2)]);
    assert_eq!(file_pairs(4), vec![(0, 1), (0, 2), (0, 3), (1, 2), (1, 3), (2, 3)]);
}

#[test]
fn contig_batches_cover_the_contigs() {
    assert_eq!(BATCH_SIZE, 100);
    assert_eq!(contig_batches(0, 100), vec![]);
    assert_eq!(contig_batches(1, 100), vec![(0, 1)]);
    assert_eq!(contig_batches(100, 100), vec![(0, 100)]);
    assert_eq!(contig_batches(101, 100), vec![(0, 100), (100, 101)]);
    assert_eq!(contig_batches(250, 100), vec![(0, 100), (100, 200), (200, 250)]);
    assert_eq!(contig_batches(5, 2), vec![(0, 2), (2, 4), (4, 5)]);
    assert_eq!(contig_batches(usize::MAX, usize::MAX), vec![(0, usize::MAX)]);
}

#[test]
fn a_file_set_keeps_its_files_in_order() {
    let a = file_of(&[(1, 100)]);
    let b = file_of(&[(1, 200), (2, 300)]);
    let set = XmapFileSet::new(vec![a.clone(), b.clone()]);
    assert_eq!(set.len(), 2);
    assert!(Arc::ptr_eq(&set.files[0], &a));
    assert!(Arc::ptr_eq(&set.files[1], &b));
    assert_eq!(set.indices[0].len(), 1);
    assert_eq!(set.indices[1].len(), 2);
    assert_eq!(XmapFileSet::new(vec![]).len(), 0);
}
