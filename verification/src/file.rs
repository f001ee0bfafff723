//! The tables that parsing one mapping file fills.

use crate::number::Decimal;
use crate::record::{record_views, share, ChromosomeInfo, RecordView, XmapRecord};
use crate::table::{lemma_index_of_unique, Table};
use std::sync::Arc;
use vstd::prelude::*;

verus! {

/// Some record of `e` has the entry identifier `id`.
pub open spec fn has_entry(e: Seq<RecordView>, id: u32) -> bool {
    exists|i: int| 0 <= i < e.len() && (#[trigger] e[i]).xmap_entry_id == id
}

/// A position in `e` of a record with the entry identifier `id`.
pub open spec fn entry_index(e: Seq<RecordView>, id: u32) -> int {
    choose|i: int| 0 <= i < e.len() && (#[trigger] e[i]).xmap_entry_id == id
}

/// No two records of `e` have the same entry identifier.
pub open spec fn distinct_ids(e: Seq<RecordView>) -> bool {
    forall|i: int, j: int|
        0 <= i < e.len() && 0 <= j < e.len() && i != j ==> (#[trigger] e[i]).xmap_entry_id != (
        #[trigger] e[j]).xmap_entry_id
}

/// The records of `e`, each under its entry identifier.
pub open spec fn by_entry_id(e: Seq<RecordView>) -> Map<u32, RecordView> {
    Map::new(|id: u32| has_entry(e, id), |id: u32| e[entry_index(e, id)])
}

/// Where identifiers are distinct, each record is found under its own.
pub proof fn lemma_by_entry_id(e: Seq<RecordView>)
    requires
        distinct_ids(e),
    ensures
        forall|i: int|
            0 <= i < e.len() ==> by_entry_id(e).contains_key((#[trigger] e[i]).xmap_entry_id)
                && by_entry_id(e)[e[i].xmap_entry_id] == e[i] && entry_index(
                e,
                e[i].xmap_entry_id,
            ) == i,
        forall|id: u32| #[trigger]
            by_entry_id(e).contains_key(id) ==> 0 <= entry_index(e, id) < e.len() && e[entry_index(
                e,
                id,
            )].xmap_entry_id == id,
{
    assert forall|i: int| 0 <= i < e.len() implies by_entry_id(e).contains_key(
        (#[trigger] e[i]).xmap_entry_id,
    ) && by_entry_id(e)[e[i].xmap_entry_id] == e[i] && entry_index(e, e[i].xmap_entry_id) == i by {
        let id = e[i].xmap_entry_id;
        assert(has_entry(e, id));
        let j = entry_index(e, id);
        assert(0 <= j < e.len() && e[j].xmap_entry_id == id);
    }
}

/// Records with distinct identifiers stand under as many identifiers.
pub proof fn lemma_by_entry_id_size(e: Seq<RecordView>)
    requires
        distinct_ids(e),
    ensures
        by_entry_id(e).dom().finite(),
        by_entry_id(e).dom().len() == e.len(),
{
    let ids = Seq::new(e.len(), |i: int| e[i].xmap_entry_id);
    assert forall|i: int, j: int|
        0 <= i < ids.len() && 0 <= j < ids.len() && i != j implies ids[i] != ids[j] by {
        assert(e[i].xmap_entry_id != e[j].xmap_entry_id);
    }
    assert forall|id: u32| ids.to_set().contains(id) == by_entry_id(e).dom().contains(id) by {
        if ids.to_set().contains(id) {
            let i = choose|i: int| 0 <= i < ids.len() && ids[i] == id;
            assert(e[i].xmap_entry_id == id);
        }
        if has_entry(e, id) {
            let i = entry_index(e, id);
            assert(ids[i] == id);
            assert(ids.contains(id));
        }
    }
    assert(ids.to_set() =~= by_entry_id(e).dom());
    ids.unique_seq_to_set();
    vstd::seq_lib::seq_to_set_is_finite(ids);
}

/// The records of one file, each under its entry identifier.
pub struct RecordTable {
    rows: Table<Arc<XmapRecord>>,
}

impl View for RecordTable {
    type V = Map<u32, RecordView>;

    open spec fn view(&self) -> Map<u32, RecordView> {
        by_entry_id(self.entries())
    }
}

impl RecordTable {
    /// The records, in the order in which their identifiers first came.
    pub closed spec fn entries(&self) -> Seq<RecordView> {
        record_views(self.rows.values())
    }

    /// The table is consistent: each record stands under its own identifier.
    pub closed spec fn wf(&self) -> bool {
        &&& self.rows.wf()
        &&& self.rows.keys().len() == self.rows.values().len()
        &&& forall|i: int|
            0 <= i < self.rows.keys().len() ==> #[trigger] self.rows.keys()[i]
                == self.rows.values()[i].xmap_entry_id as u64
    }

    /// In a consistent table no identifier stands twice.
    pub proof fn lemma_wf(&self)
        requires
            self.wf(),
        ensures
            distinct_ids(self.entries()),
    {
        self.rows.lemma_wf();
        let e = self.entries();
        assert forall|i: int, j: int| 0 <= i < e.len() && 0 <= j < e.len() && i != j implies (
        #[trigger] e[i]).xmap_entry_id != (#[trigger] e[j]).xmap_entry_id by {
            assert(self.rows.keys()[i] != self.rows.keys()[j]);
        }
    }

    /// An empty table.
    pub fn new() -> (t: RecordTable)
        ensures
            t.wf(),
            t.entries() == Seq::<RecordView>::empty(),
            t@ == Map::<u32, RecordView>::empty(),
    {
        let t = RecordTable { rows: Table::new() };
        assert(t.entries() =~= Seq::<RecordView>::empty());
        assert(t@ =~= Map::<u32, RecordView>::empty());
        t
    }

    /// The number of records.
    pub fn len(&self) -> (n: usize)
        requires
            self.wf(),
        ensures
            n == self.entries().len(),
            self@.dom().finite(),
            n == self@.dom().len(),
    {
        proof {
            self.lemma_wf();
            lemma_by_entry_id_size(self.entries());
        }
        self.rows.len()
    }

    /// The record at position `i`.
    pub fn record_at(&self, i: usize) -> (r: &Arc<XmapRecord>)
        requires
            self.wf(),
            i < self.entries().len(),
        ensures
            r@ == self.entries()[i as int],
    {
        self.rows.value_at(i)
    }

    /// The record with the entry identifier `id`, if the table holds one.
    pub fn get(&self, id: u32) -> (r: Option<Arc<XmapRecord>>)
        requires
            self.wf(),
        ensures
            r is Some <==> self@.contains_key(id),
            r matches Some(x) ==> x@ == self@[id],
    {
        proof {
            self.lemma_wf();
            self.rows.lemma_wf();
            lemma_by_entry_id(self.entries());
        }
        match self.rows.slot(id as u64) {
            Some(i) => {
                let r = share(self.rows.value_at(i));
                assert(self.entries()[i as int].xmap_entry_id == id);
                Some(r)
            },
            None => {
                assert forall|i: int| 0 <= i < self.entries().len() implies (
                #[trigger] self.entries()[i]).xmap_entry_id != id by {
                    assert(self.rows.keys().contains(self.rows.keys()[i]));
                }
                None
            },
        }
    }

    /// Puts `record` under its entry identifier. A record that stood there
    /// before is replaced, in its place; a new identifier goes to the end.
    pub fn insert(&mut self, record: Arc<XmapRecord>)
        requires
            old(self).wf(),
        ensures
            final(self).wf(),
            final(self)@ == old(self)@.insert(record.xmap_entry_id, record@),
            has_entry(old(self).entries(), record.xmap_entry_id) ==> final(self).entries() == old(self).entries().update(entry_index(old(self).entries(), record.xmap_entry_id), record@),
            !has_entry(old(self).entries(), record.xmap_entry_id) ==> final(self).entries() == old(self).entries().push(record@),
    {
        let ghost before = *self;
        let ghost id = record.xmap_entry_id;
        let ghost value = record@;
        proof {
            before.lemma_wf();
            before.rows.lemma_wf();
            lemma_by_entry_id(before.entries());
            if before.rows.keys().contains(id as u64) {
                let i = before.rows.keys().index_of(id as u64);
                assert(before.entries()[i].xmap_entry_id == id);
            }
            if has_entry(before.entries(), id) {
                let i = entry_index(before.entries(), id);
                assert(before.rows.keys()[i] == id as u64);
                lemma_index_of_unique(before.rows.keys(), i);
            }
        }
        self.rows.insert(record.xmap_entry_id as u64, record);
        proof {
            let e0 = before.entries();
            let e1 = self.entries();
            if has_entry(e0, id) {
                assert(e1 =~= e0.update(entry_index(e0, id), value));
            } else {
                assert(e1 =~= e0.push(value));
            }
            assert(self.wf());
            self.lemma_wf();
            lemma_by_entry_id(e1);
            assert forall|k: u32| has_entry(e1, k) == (k == id || has_entry(e0, k)) by {
                if has_entry(e1, k) {
                    let i = entry_index(e1, k);
                    if k != id {
                        assert(e0[i].xmap_entry_id == k);
                    }
                }
                if has_entry(e0, k) {
                    let i = entry_index(e0, k);
                    assert(e1[i].xmap_entry_id == k);
                }
                if k == id {
                    if has_entry(e0, id) {
                        assert(e1[entry_index(e0, id)].xmap_entry_id == id);
                    } else {
                        assert(e1[e0.len() as int].xmap_entry_id == id);
                    }
                }
            }
            assert forall|k: u32| has_entry(e1, k) implies #[trigger] by_entry_id(e1)[k]
                == by_entry_id(e0).insert(id, value)[k] by {
                let i = entry_index(e1, k);
                if k != id {
                    assert(e0[i].xmap_entry_id == k);
                    assert(e0[i] == e1[i]);
                }
            }
            assert(by_entry_id(e1) =~= by_entry_id(e0).insert(id, value));
        }
    }
}

/// The length of each reference contig that a file names.
pub struct ChromosomeLengthTable {
    rows: Table<ChromosomeInfo>,
}

impl View for ChromosomeLengthTable {
    type V = Map<u8, Seq<char>>;

    /// Each reference contig with the text of its length.
    closed spec fn view(&self) -> Map<u8, Seq<char>> {
        Map::new(
            |id: u8| self.rows.bindings().contains_key(id as u64),
            |id: u8| self.rows.bindings()[id as u64].ref_len@,
        )
    }
}

impl ChromosomeLengthTable {
    /// The table is consistent.
    pub closed spec fn wf(&self) -> bool {
        &&& self.rows.wf()
        &&& self.rows.keys().len() == self.rows.values().len()
        &&& forall|i: int|
            0 <= i < self.rows.keys().len() ==> #[trigger] self.rows.keys()[i]
                == self.rows.values()[i].ref_contig_id as u64
    }

    /// A consistent table holds finitely many reference contigs.
    pub proof fn lemma_wf(&self)
        requires
            self.wf(),
        ensures
            self@.dom().finite(),
    {
        self.lemma_size();
    }

    proof fn lemma_size(&self)
        requires
            self.wf(),
        ensures
            self@.dom().finite(),
            self@.dom().len() == self.rows.keys().len(),
    {
        self.rows.lemma_wf();
        let keys = self.rows.keys();
        let ids = Seq::new(keys.len(), |i: int| keys[i] as u8);
        assert forall|i: int, j: int|
            0 <= i < ids.len() && 0 <= j < ids.len() && i != j implies ids[i] != ids[j] by {
            assert(keys[i] != keys[j]);
            assert(keys[i] == self.rows.values()[i].ref_contig_id as u64);
            assert(keys[j] == self.rows.values()[j].ref_contig_id as u64);
        }
        assert forall|id: u8| ids.to_set().contains(id) == self@.dom().contains(id) by {
            if ids.to_set().contains(id) {
                let i = choose|i: int| 0 <= i < ids.len() && ids[i] == id;
                assert(keys[i] == self.rows.values()[i].ref_contig_id as u64);
                assert(keys[i] == id as u64);
                assert(keys.contains(id as u64));
            }
            if self@.dom().contains(id) {
                let i = keys.index_of(id as u64);
                assert(keys[i] == id as u64);
                assert(ids[i] == id);
                assert(ids.contains(id));
            }
        }
        assert(ids.to_set() =~= self@.dom());
        ids.unique_seq_to_set();
        vstd::seq_lib::seq_to_set_is_finite(ids);
    }

    /// An empty table.
    pub fn new() -> (t: ChromosomeLengthTable)
        ensures
            t.wf(),
            t@ == Map::<u8, Seq<char>>::empty(),
    {
        let t = ChromosomeLengthTable { rows: Table::new() };
        assert(t@ =~= Map::<u8, Seq<char>>::empty());
        t
    }

    /// The number of reference contigs in the table.
    pub fn len(&self) -> (n: usize)
        requires
            self.wf(),
        ensures
            self@.dom().finite(),
            n == self@.dom().len(),
    {
        proof {
            self.lemma_size();
        }
        self.rows.len()
    }

    /// The length of the reference contig `id`, if the table holds it.
    pub fn get(&self, id: u8) -> (len: Option<Decimal>)
        requires
            self.wf(),
        ensures
            len is Some <==> self@.contains_key(id),
            len matches Some(x) ==> x@ == self@[id],
    {
        match self.rows.get(id as u64) {
            Some(info) => Some(info.ref_len.clone()),
            None => None,
        }
    }

    /// Records the length of a reference contig. A length recorded before
    /// for the same contig is replaced.
    pub fn insert(&mut self, info: ChromosomeInfo)
        requires
            old(self).wf(),
        ensures
            final(self).wf(),
            final(self)@ == old(self)@.insert(info.ref_contig_id, info.ref_len@),
    {
        let ghost before = *self;
        let ghost id = info.ref_contig_id;
        let ghost len = info.ref_len@;
        proof {
            before.rows.lemma_wf();
            if before.rows.keys().contains(id as u64) {
                let i = before.rows.keys().index_of(id as u64);
                assert(before.rows.keys()[i] == id as u64);
            }
        }
        self.rows.insert(info.ref_contig_id as u64, info);
        proof {
            assert forall|k: u8| self@.contains_key(k) implies #[trigger] self@[k] == before@.insert(
                id,
                len,
            )[k] by {
                if k != id {
                    assert(k as u64 != id as u64);
                }
            }
            assert(self@ =~= before@.insert(id, len));
        }
    }
}

/// A parsed file: its records and the lengths of its reference contigs.
pub type ParsedFile = (Arc<RecordTable>, Arc<ChromosomeLengthTable>);

} // verus!
