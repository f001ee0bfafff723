use std::sync::Arc;
use xmap::cache::{hash_content, match_id, XmapCache};
use xmap::matching::stream_matches_multi;
use xmap::parse::{ParseError, XmapField};
use xmap::request::{index_uploads, parse_uploads, prepare, RequestError, MAX_FILES};
use xmap::stream::{decode_matches, frame_match};

const A: &str = "1\t100\t1\t1000.0\t2000.0\t5000.0\t6000.0\t+\t15.0\t1M\t2000.0\t250000.0\n2\t200\t2\t3000.0\t4000.0\t7000.0\t8000.0\t-\t14.5\t1M\t4000.0\t250000.0\n";

const B: &str = "10\t100\t3\t1500.0\t2500.0\t9000.0\t10000.0\t+\t16.0\t1M\t2500.0\t250000.0\n11\t300\t4\t3500.0\t4500.0\t11000.0\t12000.0\t-\t15.5\t1M\t4500.0\t250000.0\n";

const C: &str = "20\t100\t3\t2000.0\t3000.0\t9000.0\t10000.0\t-\t17.0\t1M\t3000.0\t250000.0\n";

const BROKEN: &str = "1\t100\t1\t1000.0\t2000.0\t5000.0\tfar\t+\t15.0\t1M\t2000.0\t250000.0\n";

fn uploads(texts: &[&str]) -> Vec<Vec<u8>> {
    texts.iter().map(|t| t.as_bytes().to_vec()).collect()
}

#[test]
fn a_request_compares_two_or_three_files() {
    assert_eq!(MAX_FILES, 3);
    let mut cache = XmapCache::new();
    assert_eq!(prepare(&mut cache, &uploads(&[])).err(), Some(RequestError::FileCount { given: 0 }));
    assert_eq!(
        prepare(&mut cache, &uploads(&[A, B, C, A])).err(),
        Some(RequestError::FileCount { given: 4 })
    );
    assert!(prepare(&mut cache, &uploads(&[A, B])).unwrap().is_some());
    assert!(prepare(&mut cache, &uploads(&[A, B, C])).unwrap().is_some());
}

#[test]
fn a_single_upload_is_not_looked_at() {
    let mut cache = XmapCache::new();
    assert!(prepare(&mut cache, &uploads(&[A])).unwrap().is_none());
    assert!(prepare(&mut cache, &uploads(&[BROKEN])).unwrap().is_none());
    assert!(prepare(&mut cache, &vec![vec![0xff, 0xfe]]).unwrap().is_none());
    assert_eq!(
        cache.get_or_parse(hash_content(BROKEN), BROKEN).err(),
        Some(ParseError { line: 0, field: XmapField::RefEndPos })
    );
}

#[test]
fn an_upload_must_be_text() {
    let mut cache = XmapCache::new();
    let files = vec![A.as_bytes().to_vec(), vec![b'1', 0xc3, 0x28]];
    assert_eq!(prepare(&mut cache, &files).err(), Some(RequestError::NotText { file: 1 }));
    let files = vec![vec![0x80], BROKEN.as_bytes().to_vec()];
    assert_eq!(prepare(&mut cache, &files).err(), Some(RequestError::NotText { file: 0 }));
    let files = vec![vec![0xed, 0xa0, 0x80], A.as_bytes().to_vec()];
    assert_eq!(prepare(&mut cache, &files).err(), Some(RequestError::NotText { file: 0 }));
}

#[test]
fn an_upload_must_parse() {
    let mut cache = XmapCache::new();
    let error = ParseError { line: 0, field: XmapField::RefEndPos };
    assert_eq!(
        prepare(&mut cache, &uploads(&[A, B, BROKEN])).err(),
        Some(RequestError::Parse { file: 2, error })
    );
    assert_eq!(
        prepare(&mut cache, &uploads(&[BROKEN, A])).err(),
        Some(RequestError::Parse { file: 0, error })
    );
}

#[test]
fn every_upload_is_tested_for_text_before_any_is_parsed() {
    let mut cache = XmapCache::new();
    let files = vec![BROKEN.as_bytes().to_vec(), vec![0xff]];
    assert_eq!(prepare(&mut cache, &files).err(), Some(RequestError::NotText { file: 1 }));
    let files = vec![A.as_bytes().to_vec(), vec![0xff, 0xfe], vec![0x80]];
    assert_eq!(prepare(&mut cache, &files).err(), Some(RequestError::NotText { file: 1 }));
    assert_eq!(
        parse_uploads(&mut cache, &files).err(),
        Some(RequestError::NotText { file: 1 })
    );
}

#[test]
fn an_upload_that_is_not_text_leaves_nothing_in_the_cache() {
    let mut cache = XmapCache::new();
    let files = vec![A.as_bytes().to_vec(), vec![0xff, 0xfe]];
    assert_eq!(prepare(&mut cache, &files).err(), Some(RequestError::NotText { file: 1 }));
    assert!(cache.get_or_parse(hash_content(A), BROKEN).is_err());
    let (empty, _) = cache.get_or_parse(0, "").unwrap();
    assert_eq!(cache.get_or_build_index(hash_content(A), empty).len(), 0);
}

#[test]
fn uploads_before_a_wrong_one_stay_cached() {
    let mut cache = XmapCache::new();
    assert!(prepare(&mut cache, &uploads(&[A, BROKEN])).is_err());
    let (records, _) = cache.get_or_parse(hash_content(A), BROKEN).unwrap();
    assert_eq!(records.len(), 2);
    assert!(cache.get_or_parse(hash_content(BROKEN), BROKEN).is_err());
}

#[test]
fn a_request_gives_the_cached_files_in_order() {
    let mut cache = XmapCache::new();
    let comparison = prepare(&mut cache, &uploads(&[A, B, A])).unwrap().unwrap();
    assert_eq!(comparison.hashes, vec![hash_content(A), hash_content(B), hash_content(A)]);
    assert_eq!(comparison.fileset.len(), 3);
    let (a, _) = cache.get_or_parse(hash_content(A), "").unwrap();
    let (b, _) = cache.get_or_parse(hash_content(B), "").unwrap();
    assert!(Arc::ptr_eq(&comparison.fileset.files[0], &a));
    assert!(Arc::ptr_eq(&comparison.fileset.files[1], &b));
    assert!(Arc::ptr_eq(&comparison.fileset.files[2], &a));
    assert_eq!(a.get(2).unwrap().qry_contig_id, 200);
    assert_eq!(b.get(11).unwrap().qry_contig_id, 300);

    let again = prepare(&mut cache, &uploads(&[B, A])).unwrap().unwrap();
    assert!(Arc::ptr_eq(&again.fileset.files[0], &b));
    assert!(Arc::ptr_eq(&again.fileset.files[1], &a));
}

#[test]
fn a_request_indexes_every_upload_but_the_first() {
    let mut cache = XmapCache::new();
    prepare(&mut cache, &uploads(&[A, B, C])).unwrap().unwrap();
    let (empty, _) = cache.get_or_parse(0, "").unwrap();
    assert_eq!(cache.get_or_build_index(hash_content(B), empty.clone()).len(), 2);
    assert_eq!(cache.get_or_build_index(hash_content(C), empty.clone()).len(), 1);
    assert_eq!(cache.get_or_build_index(hash_content(A), empty).len(), 0);
}

#[test]
fn uploads_are_parsed_and_indexed_step_by_step() {
    let mut cache = XmapCache::new();
    let (files, hashes) = parse_uploads(&mut cache, &uploads(&[C, B])).unwrap();
    assert_eq!(hashes, vec![hash_content(C), hash_content(B)]);
    assert_eq!(files[0].len(), 1);
    assert_eq!(files[1].len(), 2);
    index_uploads(&mut cache, &files, &hashes);
    let (empty, _) = cache.get_or_parse(0, "").unwrap();
    assert_eq!(cache.get_or_build_index(hash_content(B), empty.clone()).len(), 2);
    assert_eq!(cache.get_or_build_index(hash_content(C), empty).len(), 0);
    assert_eq!(
        parse_uploads(&mut cache, &vec![vec![0xc0, 0x80]]).err(),
        Some(RequestError::NotText { file: 0 })
    );
    let (one, _) = parse_uploads(&mut cache, &uploads(&["\u{e9}\tnot a record\n"])).unwrap();
    assert_eq!(one[0].len(), 0);
}

#[test]
fn two_files_with_one_shared_contig_stream_one_match() {
    let mut cache = XmapCache::new();
    let comparison = prepare(&mut cache, &uploads(&[A, B])).unwrap().unwrap();
    let matches = stream_matches_multi(comparison.fileset.clone());
    assert_eq!(matches.len(), 1);
    let mut stream = Vec::new();
    for m in matches {
        let found = Arc::new(m);
        cache.cache_match(comparison.hashes.clone(), found.clone(), 1000);
        stream.extend(frame_match(&found).unwrap());
        let cached = cache.get_match(&comparison.hashes, match_id(found.qry_contig_id, 1000));
        assert!(Arc::ptr_eq(&cached.unwrap(), &found));
    }
    let back = decode_matches(&stream).unwrap();
    assert_eq!(back.len(), 1);
    assert_eq!(back[0].qry_contig_id, 100);
    assert_eq!(back[0].file_indices, vec![0, 1]);
    assert_eq!(back[0].records.len(), 2);
    assert_eq!(back[0].records[0].ref_contig_id, 1);
    assert_eq!(back[0].records[1].ref_contig_id, 3);
    assert_eq!(back[0].records[1].qry_start_pos.text().iter().collect::<String>(), "1500.0");
}

#[test]
fn three_files_stream_one_match_for_each_pair() {
    let mut cache = XmapCache::new();
    let comparison = prepare(&mut cache, &uploads(&[A, B, C])).unwrap().unwrap();
    let matches = stream_matches_multi(comparison.fileset.clone());
    let mut stream = Vec::new();
    for m in matches {
        stream.extend(frame_match(&m).unwrap());
        cache.cache_match(comparison.hashes.clone(), Arc::new(m), 0);
    }
    let back = decode_matches(&stream).unwrap();
    let pairs: Vec<Vec<usize>> = back.iter().map(|m| m.file_indices.clone()).collect();
    assert_eq!(pairs, vec![vec![0, 1], vec![0, 2], vec![1, 2]]);
    for m in &back {
        assert_eq!(m.qry_contig_id, 100);
        assert_eq!(m.records.len(), 2);
    }
    let mut sorted = comparison.hashes.clone();
    sorted.sort();
    assert!(cache.get_match(&sorted, match_id(100, 0)).is_some());
}
