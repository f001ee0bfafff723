use std::sync::Arc;
use xmap::file::{ChromosomeLengthTable, RecordTable};
use xmap::index::{build_index, ContigIndex};
use xmap::number::Decimal;
use xmap::parse::parse_xmap_file;
use xmap::record::{ChromosomeInfo, MatchedRecord, XmapRecord};
use xmap::slot_map::SlotMap;
use xmap::table::Table;

fn decimal(text: &str) -> Decimal {
    let chars: Vec<char> = text.chars().collect();
    Decimal::parse(&chars).unwrap()
}

fn record(id: u32, contig: u32) -> Arc<XmapRecord> {
    Arc::new(XmapRecord {
        xmap_entry_id: id,
        qry_contig_id: contig,
        ref_contig_id: 1,
        qry_start_pos: decimal("1000.0"),
        qry_end_pos: decimal("2000.0"),
        ref_start_pos: decimal("5000.0"),
        ref_end_pos: decimal("6000.0"),
        orientation: '+',
        confidence: decimal("15.0"),
        ref_len: decimal("250000.0"),
    })
}

fn table_of(entries: &[(u32, u32)]) -> RecordTable {
    let mut table = RecordTable::new();
    for (id, contig) in entries {
        table.insert(record(*id, *contig));
    }
    table
}

#[test]
fn slot_map_binds_keys_to_slots() {
    let mut map = SlotMap::new();
    assert_eq!(map.get(7), None);
    assert_eq!(map.insert(7, 0), None);
    assert_eq!(map.insert(u64::MAX, 1), None);
    assert_eq!(map.get(7), Some(0));
    assert_eq!(map.get(u64::MAX), Some(1));
    assert_eq!(map.get(0), None);
    assert_eq!(map.insert(7, 5), Some(0));
    assert_eq!(map.get(7), Some(5));
    assert_eq!(map.get(u64::MAX), Some(1));
}

#[test]
fn table_keeps_values_in_the_order_of_their_keys() {
    let mut table: Table<&str> = Table::new();
    assert_eq!(table.len(), 0);
    table.insert(30, "a");
    table.insert(10, "b");
    table.insert(20, "c");
    table.insert(10, "d");
    assert_eq!(table.len(), 3);
    assert_eq!(table.key_at(0), 30);
    assert_eq!(table.key_at(1), 10);
    assert_eq!(table.key_at(2), 20);
    assert_eq!(*table.value_at(1), "d");
    assert_eq!(table.slot(20), Some(2));
    assert_eq!(table.slot(40), None);
    assert_eq!(table.get(30), Some(&"a"));
    assert_eq!(table.get(31), None);
    *table.value_at_mut(2) = "e";
    assert_eq!(table.get(20), Some(&"e"));
}

#[test]
fn record_table_replaces_in_place() {
    let mut table = table_of(&[(5, 50), (6, 60), (7, 70)]);
    assert_eq!(table.len(), 3);
    table.insert(record(6, 61));
    assert_eq!(table.len(), 3);
    assert_eq!(table.record_at(0).xmap_entry_id, 5);
    assert_eq!(table.record_at(1).xmap_entry_id, 6);
    assert_eq!(table.record_at(1).qry_contig_id, 61);
    assert_eq!(table.record_at(2).xmap_entry_id, 7);
    assert_eq!(table.get(6).unwrap().qry_contig_id, 61);
    assert!(table.get(8).is_none());
    assert!(Arc::ptr_eq(&table.get(7).unwrap(), table.record_at(2)));
}

#[test]
fn length_table_keeps_the_last_length() {
    let mut table = ChromosomeLengthTable::new();
    table.insert(ChromosomeInfo { ref_contig_id: 1, ref_len: decimal("10.0") });
    table.insert(ChromosomeInfo { ref_contig_id: 2, ref_len: decimal("20.0") });
    table.insert(ChromosomeInfo { ref_contig_id: 1, ref_len: decimal("30.0") });
    assert_eq!(table.len(), 2);
    assert_eq!(table.get(1).unwrap().text().iter().collect::<String>(), "30.0");
    assert_eq!(table.get(2).unwrap().text().iter().collect::<String>(), "20.0");
    assert!(table.get(0).is_none());
}

#[test]
fn index_is_a_partition_of_the_table() {
    let entries = [(1, 10), (2, 20), (3, 10), (4, 30), (5, 20), (6, 10)];
    let table = Arc::new(table_of(&entries));
    let index = build_index(table.clone());
    assert_eq!(index.len(), 3);
    assert_eq!(index.contig_at(0), 10);
    assert_eq!(index.contig_at(1), 20);
    assert_eq!(index.contig_at(2), 30);
    assert_eq!(index.position(20), Some(1));
    assert_eq!(index.position(40), None);
    assert!(index.get(40).is_none());
    let mut seen = Vec::new();
    for slot in 0..index.len() {
        let contig = index.contig_at(slot);
        let bucket = index.records_at(slot);
        assert!(!bucket.is_empty());
        for r in bucket {
            assert_eq!(r.qry_contig_id, contig);
            assert!(Arc::ptr_eq(r, &table.get(r.xmap_entry_id).unwrap()));
            seen.push(r.xmap_entry_id);
        }
    }
    assert_eq!(seen, vec![1, 3, 6, 2, 5, 4]);
    let ids: Vec<u32> = index.get(10).unwrap().iter().map(|r| r.xmap_entry_id).collect();
    assert_eq!(ids, vec![1, 3, 6]);
}

#[test]
fn index_of_an_empty_table_is_empty() {
    let index = build_index(Arc::new(RecordTable::new()));
    assert_eq!(index.len(), 0);
    assert_eq!(ContigIndex::new().len(), 0);
}

#[test]
fn index_of_a_parsed_file_follows_replaced_records() {
    let content = "1\t10\t1\t1.0\t2.0\t3.0\t4.0\t+\t5.0\t1M\t6.0\t7.0\n2\t10\t1\t1.0\t2.0\t3.0\t4.0\t+\t5.0\t1M\t6.0\t7.0\n1\t20\t1\t1.0\t2.0\t3.0\t4.0\t+\t5.0\t1M\t6.0\t7.0\n";
    let (records, _) = parse_xmap_file(content).unwrap();
    let index = build_index(records);
    assert_eq!(index.len(), 2);
    assert_eq!(index.contig_at(0), 20);
    assert_eq!(index.contig_at(1), 10);
    assert_eq!(index.get(10).unwrap().len(), 1);
    assert_eq!(index.get(10).unwrap()[0].xmap_entry_id, 2);
    assert_eq!(index.get(20).unwrap()[0].xmap_entry_id, 1);
}

#[test]
fn matched_record_copies_the_record() {
    let r = record(1, 10);
    let m = MatchedRecord::from_record(&r, 4);
    assert_eq!(m.file_index, 4);
    assert_eq!(m.ref_contig_id, 1);
    assert_eq!(m.orientation, '+');
    assert_eq!(m.qry_start_pos.text(), r.qry_start_pos.text());
    assert_eq!(m.qry_end_pos.text(), r.qry_end_pos.text());
    assert_eq!(m.ref_start_pos.text(), r.ref_start_pos.text());
    assert_eq!(m.ref_end_pos.text(), r.ref_end_pos.text());
    assert_eq!(m.confidence.text(), r.confidence.text());
    assert_eq!(m.ref_len.text(), r.ref_len.text());
    let c = m.clone();
    assert_eq!(c.file_index, 4);
    assert_eq!(c.ref_len.text(), r.ref_len.text());
}
