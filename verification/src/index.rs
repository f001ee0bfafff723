//! The index of a file's records by query contig.

use crate::file::{distinct_ids, lemma_by_entry_id, RecordTable};
use crate::record::{record_views, share, RecordView, XmapRecord};
use crate::table::{lemma_index_of_unique, Table};
use std::sync::Arc;
use vstd::prelude::*;

verus! {

/// The test "aligns the query contig `q`".
pub open spec fn in_contig(q: u32) -> spec_fn(RecordView) -> bool {
    |r: RecordView| r.qry_contig_id == q
}

/// The records of `e` that align the query contig `q`, in the order of `e`.
pub open spec fn bucket_of(e: Seq<RecordView>, q: u32) -> Seq<RecordView> {
    e.filter(in_contig(q))
}

/// Some record of `e` aligns the query contig `q`.
pub open spec fn has_contig(e: Seq<RecordView>, q: u32) -> bool {
    exists|i: int| 0 <= i < e.len() && (#[trigger] e[i]).qry_contig_id == q
}

/// The query contigs that the records of `e` align, each once, in the order
/// in which they first come.
pub open spec fn contigs_of(e: Seq<RecordView>) -> Seq<u32>
    decreases e.len(),
{
    if e.len() == 0 {
        Seq::empty()
    } else {
        let before = contigs_of(e.drop_last());
        if before.contains(e.last().qry_contig_id) {
            before
        } else {
            before.push(e.last().qry_contig_id)
        }
    }
}

/// `contigs_of` lists exactly the query contigs that occur, none of them twice.
pub proof fn lemma_contigs_of(e: Seq<RecordView>)
    ensures
        contigs_of(e).no_duplicates(),
        forall|q: u32|
            #![trigger contigs_of(e).contains(q)]
            #![trigger has_contig(e, q)]
            contigs_of(e).contains(q) <==> has_contig(e, q),
    decreases e.len(),
{
    if e.len() > 0 {
        let rest = e.drop_last();
        let last = e.last().qry_contig_id;
        lemma_contigs_of(rest);
        let before = contigs_of(rest);
        assert forall|q: u32|
            #![trigger contigs_of(e).contains(q)]
            #![trigger has_contig(e, q)]
            contigs_of(e).contains(q) <==> has_contig(e, q) by {
            if has_contig(e, q) {
                let i = choose|i: int| 0 <= i < e.len() && (#[trigger] e[i]).qry_contig_id == q;
                if i < rest.len() {
                    assert(rest[i].qry_contig_id == q);
                    assert(has_contig(rest, q));
                    assert(before.contains(q));
                    let k = before.index_of(q);
                    assert(contigs_of(e)[k] == q);
                } else if !before.contains(last) {
                    assert(contigs_of(e)[before.len() as int] == q);
                }
            }
            if contigs_of(e).contains(q) {
                let k = contigs_of(e).index_of(q);
                assert(contigs_of(e)[k] == q);
                if k < before.len() {
                    assert(before[k] == q);
                    assert(before.contains(q));
                    assert(has_contig(rest, q));
                    let i = choose|i: int|
                        0 <= i < rest.len() && (#[trigger] rest[i]).qry_contig_id == q;
                    assert(e[i].qry_contig_id == q);
                } else {
                    assert(e[e.len() - 1].qry_contig_id == q);
                }
            }
        }
    }
}

/// What a bucket holds: the records of the contig, in the order of `e`, and
/// nothing else.
pub proof fn lemma_bucket_of(e: Seq<RecordView>, q: u32)
    ensures
        forall|k: int|
            0 <= k < bucket_of(e, q).len() ==> (#[trigger] bucket_of(e, q)[k]).qry_contig_id == q
                && e.contains(bucket_of(e, q)[k]),
        forall|i: int|
            0 <= i < e.len() && (#[trigger] e[i]).qry_contig_id == q ==> bucket_of(e, q).contains(
                e[i],
            ),
        bucket_of(e, q).len() <= e.len(),
        has_contig(e, q) <==> bucket_of(e, q).len() > 0,
{
    let p = in_contig(q);
    let b = e.filter(p);
    e.lemma_filter_len(p);
    assert forall|k: int| 0 <= k < b.len() implies (#[trigger] b[k]).qry_contig_id == q
        && e.contains(b[k]) by {
        e.lemma_filter_pred(p, k);
        assert(b.contains(b[k]));
        e.lemma_filter_contains_rev(p, b[k]);
    }
    assert forall|i: int| 0 <= i < e.len() && (#[trigger] e[i]).qry_contig_id == q implies b.contains(
        e[i],
    ) by {
        assert(p(e[i]));
        e.lemma_filter_contains(p, i);
    }
    if has_contig(e, q) {
        let i = choose|i: int| 0 <= i < e.len() && (#[trigger] e[i]).qry_contig_id == q;
        assert(b.contains(e[i]));
    }
    if b.len() > 0 {
        assert(e.contains(b[0]));
        let i = e.index_of(b[0]);
        assert(e[i].qry_contig_id == q);
    }
}

/// A bucket of records with distinct entry identifiers holds no identifier
/// twice.
pub proof fn lemma_bucket_distinct(e: Seq<RecordView>, q: u32)
    requires
        distinct_ids(e),
    ensures
        distinct_ids(bucket_of(e, q)),
    decreases e.len(),
{
    reveal(Seq::filter);
    if e.len() > 0 {
        let rest = e.drop_last();
        lemma_bucket_distinct(rest, q);
        lemma_bucket_of(rest, q);
        let b0 = bucket_of(rest, q);
        let b = bucket_of(e, q);
        if e.last().qry_contig_id == q {
            assert(b == b0.push(e.last()));
            assert forall|i: int, j: int|
                0 <= i < b.len() && 0 <= j < b.len() && i != j implies (#[trigger] b[i]).xmap_entry_id
                != (#[trigger] b[j]).xmap_entry_id by {
                if i < b0.len() && j < b0.len() {
                } else if i < b0.len() {
                    assert(rest.contains(b0[i]));
                    let k = rest.index_of(b0[i]);
                    assert(e[k] == b0[i]);
                } else {
                    assert(rest.contains(b0[j]));
                    let k = rest.index_of(b0[j]);
                    assert(e[k] == b0[j]);
                }
            }
        } else {
            assert(b == b0);
        }
    }
}

/// The records of one file, grouped by query contig.
pub struct ContigIndex {
    buckets: Table<Vec<Arc<XmapRecord>>>,
}

impl View for ContigIndex {
    type V = Map<u32, Seq<RecordView>>;

    /// Each indexed query contig with its bucket.
    open spec fn view(&self) -> Map<u32, Seq<RecordView>> {
        Map::new(
            |q: u32| self.contigs().contains(q),
            |q: u32| self.bucket_at(self.contigs().index_of(q)),
        )
    }
}

impl ContigIndex {
    /// The indexed query contigs, in the order in which they were first seen.
    pub closed spec fn contigs(&self) -> Seq<u32> {
        Seq::new(self.buckets.keys().len(), |i: int| self.buckets.keys()[i] as u32)
    }

    /// The bucket of the contig at position `i`.
    pub closed spec fn bucket_at(&self, i: int) -> Seq<RecordView> {
        record_views(self.buckets.values()[i]@)
    }

    /// The index is consistent.
    pub closed spec fn wf(&self) -> bool {
        &&& self.buckets.wf()
        &&& self.buckets.keys().len() == self.buckets.values().len()
        &&& forall|i: int|
            0 <= i < self.buckets.keys().len() ==> #[trigger] self.buckets.keys()[i] <= u32::MAX
    }

    /// The index is the index of the records `e`: it lists the contigs of `e`
    /// and holds for each of them the records of `e` that align it.
    pub open spec fn indexes(&self, e: Seq<RecordView>) -> bool {
        &&& self.contigs() == contigs_of(e)
        &&& forall|i: int|
            0 <= i < self.contigs().len() ==> #[trigger] self.bucket_at(i) == bucket_of(
                e,
                self.contigs()[i],
            )
    }

    /// In a consistent index no contig stands twice.
    pub proof fn lemma_wf(&self)
        requires
            self.wf(),
        ensures
            self.contigs().no_duplicates(),
    {
        self.buckets.lemma_wf();
        let c = self.contigs();
        assert forall|i: int, j: int| 0 <= i < c.len() && 0 <= j < c.len() && i != j implies c[i]
            != c[j] by {
            assert(self.buckets.keys()[i] != self.buckets.keys()[j]);
        }
    }

    /// An empty index.
    pub fn new() -> (index: ContigIndex)
        ensures
            index.wf(),
            index.contigs() == Seq::<u32>::empty(),
    {
        let index = ContigIndex { buckets: Table::new() };
        assert(index.contigs() =~= Seq::<u32>::empty());
        index
    }

    /// The number of indexed query contigs.
    pub fn len(&self) -> (n: usize)
        requires
            self.wf(),
        ensures
            n == self.contigs().len(),
    {
        self.buckets.len()
    }

    /// The query contig at position `i`.
    pub fn contig_at(&self, i: usize) -> (q: u32)
        requires
            self.wf(),
            i < self.contigs().len(),
        ensures
            q == self.contigs()[i as int],
    {
        self.buckets.key_at(i) as u32
    }

    /// The bucket of the query contig at position `i`.
    pub fn records_at(&self, i: usize) -> (bucket: &Vec<Arc<XmapRecord>>)
        requires
            self.wf(),
            i < self.contigs().len(),
        ensures
            record_views(bucket@) == self.bucket_at(i as int),
    {
        self.buckets.value_at(i)
    }

    /// The position of the query contig `q`, if it is indexed.
    pub fn position(&self, q: u32) -> (found: Option<usize>)
        requires
            self.wf(),
        ensures
            found is Some <==> self.contigs().contains(q),
            found matches Some(i) ==> i < self.contigs().len() && self.contigs()[i as int] == q
                && self.contigs().index_of(q) == i,
    {
        let found = self.buckets.slot(q as u64);
        proof {
            self.lemma_wf();
            self.buckets.lemma_wf();
            match found {
                Some(i) => {
                    assert(self.contigs()[i as int] == q);
                    lemma_index_of_unique(self.contigs(), i as int);
                },
                None => {
                    if self.contigs().contains(q) {
                        let i = self.contigs().index_of(q);
                        assert(self.contigs()[i] == q);
                        assert(self.buckets.keys()[i] == q as u64);
                        assert(self.buckets.keys().contains(q as u64));
                    }
                },
            }
        }
        found
    }

    /// The bucket of the query contig `q`, if it is indexed.
    pub fn get(&self, q: u32) -> (bucket: Option<&Vec<Arc<XmapRecord>>>)
        requires
            self.wf(),
        ensures
            bucket is Some <==> self@.contains_key(q),
            bucket matches Some(b) ==> record_views(b@) == self@[q],
    {
        match self.position(q) {
            Some(i) => Some(self.buckets.value_at(i)),
            None => None,
        }
    }

    /// Adds `record` to the bucket of its query contig, opening the bucket
    /// if the contig is new.
    fn add(&mut self, record: Arc<XmapRecord>, Ghost(e): Ghost<Seq<RecordView>>)
        requires
            old(self).wf(),
            old(self).indexes(e),
        ensures
            final(self).wf(),
            final(self).indexes(e.push(record@)),
    {
        let ghost before = *self;
        let ghost e1 = e.push(record@);
        let q = record.qry_contig_id;
        proof {
            before.lemma_wf();
            before.buckets.lemma_wf();
            assert(e1.drop_last() =~= e);
            assert(e1.last() == record@);
            assert forall|c: u32| bucket_of(e1, c) == (if c == q {
                bucket_of(e, c).push(record@)
            } else {
                bucket_of(e, c)
            }) by {
                reveal(Seq::filter);
            }
        }
        match self.position(q) {
            Some(i) => {
                let bucket = self.buckets.value_at_mut(i);
                bucket.push(record);
                proof {
                    assert(self.contigs() =~= before.contigs());
                    assert forall|k: int| 0 <= k < self.contigs().len() implies #[trigger] self.bucket_at(
                        k,
                    ) == bucket_of(e1, self.contigs()[k]) by {
                        assert(before.bucket_at(k) == bucket_of(e, before.contigs()[k]));
                        if k == i {
                            assert(self.bucket_at(k) =~= before.bucket_at(k).push(record@));
                        } else {
                            assert(before.contigs()[k] != before.contigs()[i as int]);
                        }
                    }
                }
            },
            None => {
                let mut bucket: Vec<Arc<XmapRecord>> = Vec::new();
                bucket.push(record);
                self.buckets.insert(q as u64, bucket);
                proof {
                    assert(!before.buckets.keys().contains(q as u64)) by {
                        if before.buckets.keys().contains(q as u64) {
                            let i = before.buckets.keys().index_of(q as u64);
                            assert(before.contigs()[i] == q);
                        }
                    }
                    assert(self.contigs() =~= before.contigs().push(q));
                    lemma_contigs_of(e);
                    lemma_bucket_of(e, q);
                    assert forall|k: int| 0 <= k < self.contigs().len() implies #[trigger] self.bucket_at(
                        k,
                    ) == bucket_of(e1, self.contigs()[k]) by {
                        if k < before.contigs().len() {
                            assert(before.bucket_at(k) == bucket_of(e, before.contigs()[k]));
                            assert(before.contigs().contains(before.contigs()[k]));
                        } else {
                            assert(bucket_of(e, q) =~= Seq::<RecordView>::empty());
                            assert(self.bucket_at(k) =~= Seq::<RecordView>::empty().push(record@));
                        }
                    }
                }
            },
        }
    }
}

/// Indexing is a partition. Every bucket of the index of a table holds
/// records of the table, all of the bucket's own query contig and no record
/// twice; no bucket is empty; and every record of the table stands in the
/// bucket of its query contig, so in that bucket and in no other.
pub proof fn lemma_index_is_partition(index: ContigIndex, table: RecordTable)
    requires
        index.wf(),
        table.wf(),
        index.indexes(table.entries()),
    ensures
        forall|q: u32| #[trigger]
            index@.contains_key(q) ==> index@[q] == bucket_of(table.entries(), q) && index@[q].len()
                > 0 && distinct_ids(index@[q]),
        forall|q: u32, k: int|
            index@.contains_key(q) && 0 <= k < index@[q].len() ==> {
                let r = #[trigger] index@[q][k];
                r.qry_contig_id == q && table@.contains_key(r.xmap_entry_id)
                    && table@[r.xmap_entry_id] == r
            },
        forall|id: u32| #[trigger]
            table@.contains_key(id) ==> index@.contains_key(table@[id].qry_contig_id)
                && index@[table@[id].qry_contig_id].contains(table@[id]),
{
    let e = table.entries();
    index.lemma_wf();
    table.lemma_wf();
    lemma_contigs_of(e);
    lemma_by_entry_id(e);
    assert forall|q: u32| #[trigger] index@.contains_key(q) implies index@[q] == bucket_of(e, q)
        && index@[q].len() > 0 && distinct_ids(index@[q]) by {
        let i = index.contigs().index_of(q);
        assert(index.contigs()[i] == q);
        assert(index.bucket_at(i) == bucket_of(e, q));
        assert(contigs_of(e).contains(q));
        lemma_bucket_of(e, q);
        lemma_bucket_distinct(e, q);
    }
    assert forall|q: u32, k: int| index@.contains_key(q) && 0 <= k < index@[q].len() implies {
        let r = #[trigger] index@[q][k];
        r.qry_contig_id == q && table@.contains_key(r.xmap_entry_id) && table@[r.xmap_entry_id]
            == r
    } by {
        lemma_bucket_of(e, q);
        let r = index@[q][k];
        assert(bucket_of(e, q)[k] == r);
        assert(e.contains(r));
        let i = e.index_of(r);
        assert(e[i] == r);
    }
    assert forall|id: u32| #[trigger] table@.contains_key(id) implies index@.contains_key(
        table@[id].qry_contig_id,
    ) && index@[table@[id].qry_contig_id].contains(table@[id]) by {
        let r = table@[id];
        let i = crate::file::entry_index(e, id);
        assert(e[i] == r);
        assert(has_contig(e, r.qry_contig_id));
        assert(contigs_of(e).contains(r.qry_contig_id));
        lemma_bucket_of(e, r.qry_contig_id);
    }
}

/// Groups the records of a file by query contig.
///
/// The index lists the query contigs in the order in which the table first
/// meets them, and holds for each contig its records in the order of the
/// table.
pub fn build_index(records: Arc<RecordTable>) -> (index: Arc<ContigIndex>)
    requires
        records.wf(),
    ensures
        index.wf(),
        index.indexes(records.entries()),
{
    let mut index = ContigIndex::new();
    let n = records.len();
    let mut i: usize = 0;
    assert(records.entries().take(0) =~= Seq::<RecordView>::empty());
    while i < n
        invariant
            records.wf(),
            n == records.entries().len(),
            0 <= i <= n,
            index.wf(),
            index.indexes(records.entries().take(i as int)),
        decreases n - i,
    {
        let record = share(records.record_at(i));
        index.add(record, Ghost(records.entries().take(i as int)));
        assert(records.entries().take(i as int).push(records.entries()[i as int])
            =~= records.entries().take(i + 1));
        i = i + 1;
    }
    assert(records.entries().take(n as int) =~= records.entries());
    Arc::new(index)
}

} // verus!
