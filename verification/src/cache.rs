//! The result cache.
//!
//! Parsed files and indices are kept under the hash of the content they came
//! from, matches under the sorted hashes of the files that were compared.
//! All three are found through slot maps: a parsed file and an index by its
//! hash, a group of matches by a hash of its key.
//! Nothing is ever evicted. The cache is changed through `&mut` access, so
//! that of two requests for one hash the second always finds what the first
//! stored: a hash is parsed at most once.

use crate::file::{ParsedFile, RecordTable};
use crate::index::{build_index, ContigIndex};
use crate::parse::{first_failure, parse_of, parse_xmap_file, ParseError};
use crate::record::{share, MatchView, XmapMatch};
use crate::table::Table;
use crate::text::lines_of;
use std::collections::hash_map::DefaultHasher;
use std::hash::Hasher;
use std::sync::Arc;
use vstd::prelude::*;
use vstd::std_specs::hash::DefaultHasherAdditionalSpecFns;

verus! {

/// The hash of a file's content: what the default hasher makes of the bytes
/// of the text followed by one byte `0xff`.
pub open spec fn content_hash(content: Seq<char>) -> u64 {
    DefaultHasher::spec_finish(seq![vstd::utf8::encode_utf8(content), seq![0xffu8]])
}

/// The hash under which the content of a file is cached.
pub fn hash_content(content: &str) -> (hash: u64)
    ensures
        hash == content_hash(content@),
{
    let mut hasher = DefaultHasher::new();
    hasher.write(content.as_bytes());
    let end: [u8; 1] = [0xff];
    hasher.write(end.as_slice());
    proof {
        assert(end@ =~= seq![0xffu8]);
        assert(hasher@ =~= seq![vstd::utf8::encode_utf8(content@), seq![0xffu8]]);
    }
    hasher.finish()
}

/// The identifier of a match within its group: the query contig in the upper
/// half, and the low 32 bits of a position in the lower half. Two matches on
/// one query contig whose positions agree in their low 32 bits have one
/// identifier; matches on different query contigs never do.
pub open spec fn match_id_of(qry_contig_id: u32, position: u64) -> u64 {
    ((qry_contig_id as u64) << 32) | (position & 0xffff_ffff)
}

/// The identifier under which a match on `qry_contig_id` is cached, given the
/// start position of its first record, truncated to a whole number.
pub fn match_id(qry_contig_id: u32, position: u64) -> (id: u64)
    ensures
        id == match_id_of(qry_contig_id, position),
{
    ((qry_contig_id as u64) << 32) | (position & 0xffff_ffff)
}

/// An identifier holds its query contig and the low 32 bits of its position,
/// each in its own half.
pub proof fn lemma_match_id(qry_contig_id: u32, position: u64)
    ensures
        match_id_of(qry_contig_id, position) >> 32 == qry_contig_id,
        match_id_of(qry_contig_id, position) & 0xffff_ffff == position & 0xffff_ffff,
        position <= 0xffff_ffff ==> match_id_of(qry_contig_id, position) == qry_contig_id
            * 0x1_0000_0000 + position,
{
    let q = qry_contig_id as u64;
    assert(((q << 32) | (position & 0xffff_ffff)) >> 32 == q) by (bit_vector)
        requires
            q <= 0xffff_ffff,
    ;
    assert(((q << 32) | (position & 0xffff_ffff)) & 0xffff_ffff == position & 0xffff_ffff)
        by (bit_vector)
        requires
            q <= 0xffff_ffff,
    ;
    if position <= 0xffff_ffff {
        assert(((q << 32) | (position & 0xffff_ffff)) == q * 0x1_0000_0000 + position)
            by (bit_vector)
            requires
                q <= 0xffff_ffff,
                position <= 0xffff_ffff,
        ;
    }
}

/// `s` is in ascending order.
pub open spec fn ascending(s: Seq<u64>) -> bool {
    forall|i: int, j: int| 0 <= i <= j < s.len() ==> s[i] <= s[j]
}

/// The order of 64-bit numbers, as a relation.
pub open spec fn at_most() -> spec_fn(u64, u64) -> bool {
    |a: u64, b: u64| a <= b
}

/// The key of a set of files: their content hashes in ascending order.
pub open spec fn key_of(hashes: Seq<u64>) -> Seq<u64> {
    hashes.sort_by(at_most())
}

/// The key of a set of files is its hashes, each as often as it was given,
/// in ascending order; and nothing else is.
pub proof fn lemma_key_of(hashes: Seq<u64>, key: Seq<u64>)
    ensures
        ascending(key_of(hashes)),
        key_of(hashes).to_multiset() == hashes.to_multiset(),
        ascending(key) && key.to_multiset() == hashes.to_multiset() ==> key == key_of(hashes),
{
    let leq = at_most();
    assert(vstd::relations::total_ordering(leq));
    hashes.lemma_sort_by_ensures(leq);
    let sorted = key_of(hashes);
    assert(ascending(sorted)) by {
        assert(vstd::relations::sorted_by(sorted, leq));
        assert forall|i: int, j: int| 0 <= i <= j < sorted.len() implies sorted[i] <= sorted[j] by {
            if i < j {
                assert(leq(sorted[i], sorted[j]));
            }
        }
    }
    if ascending(key) && key.to_multiset() == hashes.to_multiset() {
        assert(vstd::relations::sorted_by(key, leq));
        vstd::seq_lib::lemma_sorted_unique(key, sorted, leq);
    }
}

/// The content hashes of a set of files, in ascending order.
pub fn sorted_key(hashes: &Vec<u64>) -> (key: Vec<u64>)
    ensures
        key@ == key_of(hashes@),
{
    let mut key: Vec<u64> = Vec::new();
    let n = hashes.len();
    let mut k: usize = 0;
    assert(hashes@.take(0) =~= Seq::<u64>::empty());
    while k < n
        invariant
            n == hashes@.len(),
            0 <= k <= n,
            ascending(key@),
            key@.to_multiset() == hashes@.take(k as int).to_multiset(),
            key@.len() == k,
        decreases n - k,
    {
        let x = hashes[k];
        let mut p: usize = 0;
        while p < key.len() && key[p] <= x
            invariant
                0 <= p <= key@.len(),
                forall|i: int| 0 <= i < p ==> key@[i] <= x,
            decreases key@.len() - p,
        {
            p = p + 1;
        }
        let ghost before = key@;
        key.insert(p, x);
        proof {
            vstd::seq_lib::to_multiset_insert(before, p as int, x);
            vstd::seq_lib::to_multiset_build(hashes@.take(k as int), x);
            assert(hashes@.take(k as int).push(x) =~= hashes@.take(k + 1));
            assert forall|i: int, j: int| 0 <= i <= j < key@.len() implies key@[i] <= key@[j] by {
                if i < p && j > p {
                    assert(before[j - 1] >= before[p as int]);
                } else if i > p {
                    assert(before[i - 1] <= before[j - 1]);
                } else if i < p && j < p {
                    assert(before[i] <= before[j]);
                }
            }
        }
        k = k + 1;
    }
    proof {
        assert(hashes@.take(n as int) =~= hashes@);
        lemma_key_of(hashes@, key@);
    }
    key
}

/// Whether two keys are the same.
fn same_key(a: &Vec<u64>, b: &Vec<u64>) -> (same: bool)
    ensures
        same == (a@ == b@),
{
    if a.len() != b.len() {
        return false;
    }
    let n = a.len();
    let mut i: usize = 0;
    while i < n
        invariant
            n == a@.len(),
            n == b@.len(),
            0 <= i <= n,
            forall|k: int| 0 <= k < i ==> a@[k] == b@[k],
        decreases n - i,
    {
        if a[i] != b[i] {
            return false;
        }
        i = i + 1;
    }
    assert(a@ =~= b@);
    true
}

/// The matches of one set of files.
pub struct MatchGroup {
    key: Vec<u64>,
    matches: Table<Arc<XmapMatch>>,
}

impl MatchGroup {
    /// The matches of the group, each under its identifier.
    pub closed spec fn view_matches(&self) -> Map<u64, MatchView> {
        Map::new(
            |id: u64| self.matches.bindings().contains_key(id),
            |id: u64| self.matches.bindings()[id]@,
        )
    }
}

/// Some group of `groups` has the key `key`.
pub closed spec fn has_group(groups: Seq<MatchGroup>, key: Seq<u64>) -> bool {
    exists|i: int| 0 <= i < groups.len() && (#[trigger] groups[i]).key@ == key
}

/// The position of the group with the key `key`.
pub closed spec fn group_index(groups: Seq<MatchGroup>, key: Seq<u64>) -> int {
    choose|i: int| 0 <= i < groups.len() && (#[trigger] groups[i]).key@ == key
}

/// The numbers of `key`, combined by bitwise exclusive or: the hash under
/// which the group of `key` is found.
pub open spec fn fold_key(key: Seq<u64>) -> u64
    decreases key.len(),
{
    if key.len() == 0 {
        0
    } else {
        fold_key(key.drop_last()) ^ key.last()
    }
}

/// The hash under which the group of `key` is found.
fn key_hash(key: &Vec<u64>) -> (h: u64)
    ensures
        h == fold_key(key@),
{
    let mut h: u64 = 0;
    let n = key.len();
    let mut i: usize = 0;
    assert(key@.take(0) =~= Seq::<u64>::empty());
    while i < n
        invariant
            n == key@.len(),
            0 <= i <= n,
            h == fold_key(key@.take(i as int)),
        decreases n - i,
    {
        assert(key@.take(i + 1).drop_last() =~= key@.take(i as int));
        h = h ^ key[i];
        i = i + 1;
    }
    assert(key@.take(n as int) =~= key@);
    h
}

/// The position `i` stands in `bucket`.
pub open spec fn holds(bucket: Seq<usize>, i: int) -> bool {
    exists|t: int| 0 <= t < bucket.len() && #[trigger] bucket[t] == i
}

/// The groups of matches, each found by its key.
///
/// The groups stand in the order in which they were opened. A table finds,
/// under the hash of a key, the positions of the groups whose keys have that
/// hash; among them the keys tell the groups apart.
pub struct MatchStore {
    groups: Vec<MatchGroup>,
    found_by: Table<Vec<usize>>,
}

impl View for MatchStore {
    type V = Seq<MatchGroup>;

    /// The groups, in the order in which they were opened.
    closed spec fn view(&self) -> Seq<MatchGroup> {
        self.groups@
    }
}

impl MatchStore {
    /// The group at position `i` is listed under the hash of its key.
    closed spec fn listed(&self, i: int) -> bool {
        let h = fold_key(self.groups@[i].key@);
        self.found_by.keys().contains(h) && holds(
            self.found_by.values()[self.found_by.keys().index_of(h)]@,
            i,
        )
    }

    /// The store is consistent: no two groups have one key, and each group is
    /// found under the hash of its key.
    pub closed spec fn wf(&self) -> bool {
        &&& self.found_by.wf()
        &&& self.found_by.keys().len() == self.found_by.values().len()
        &&& forall|i: int| 0 <= i < self.groups@.len() ==> (#[trigger] self.groups@[i]).matches.wf()
        &&& forall|i: int, j: int|
            0 <= i < j < self.groups@.len() ==> (#[trigger] self.groups@[i]).key@ != (
            #[trigger] self.groups@[j]).key@
        &&& forall|b: int, t: int|
            0 <= b < self.found_by.values().len() && 0 <= t < self.found_by.values()[b]@.len() ==> {
                let p = #[trigger] self.found_by.values()[b]@[t];
                p < self.groups@.len() && fold_key(self.groups@[p as int].key@)
                    == self.found_by.keys()[b]
            }
        &&& forall|i: int| 0 <= i < self.groups@.len() ==> #[trigger] self.listed(i)
    }

    /// In a consistent store the groups are consistent and their keys differ.
    proof fn lemma_wf(&self)
        requires
            self.wf(),
        ensures
            forall|i: int| 0 <= i < self@.len() ==> (#[trigger] self@[i]).matches.wf(),
            forall|i: int, j: int|
                0 <= i < j < self@.len() ==> (#[trigger] self@[i]).key@ != (#[trigger] self@[j]).key@,
    {
    }

    /// A store without groups.
    fn new() -> (store: MatchStore)
        ensures
            store.wf(),
            store@ == Seq::<MatchGroup>::empty(),
    {
        MatchStore { groups: Vec::new(), found_by: Table::new() }
    }

    /// The group at position `i`.
    fn group_at(&self, i: usize) -> (group: &MatchGroup)
        requires
            self.wf(),
            i < self@.len(),
        ensures
            *group == self@[i as int],
            group.matches.wf(),
    {
        &self.groups[i]
    }

    /// The position of the group with the key `key`, if there is one.
    fn find(&self, key: &Vec<u64>) -> (found: Option<usize>)
        requires
            self.wf(),
        ensures
            found is Some <==> has_group(self@, key@),
            found matches Some(i) ==> i < self@.len() && self@[i as int].key@ == key@
                && group_index(self@, key@) == i,
    {
        let h = key_hash(key);
        proof {
            self.found_by.lemma_wf();
        }
        let b = match self.found_by.slot(h) {
            Some(b) => b,
            None => {
                proof {
                    if has_group(self@, key@) {
                        let i = group_index(self@, key@);
                        assert(self.listed(i));
                    }
                }
                return None;
            },
        };
        let bucket = self.found_by.value_at(b);
        let n = bucket.len();
        let mut t: usize = 0;
        while t < n
            invariant
                self.wf(),
                h == fold_key(key@),
                b < self.found_by.values().len(),
                self.found_by.keys().index_of(h) == b,
                *bucket == self.found_by.values()[b as int],
                n == bucket@.len(),
                0 <= t <= n,
                forall|k: int|
                    0 <= k < t ==> self.groups@[(#[trigger] bucket@[k]) as int].key@ != key@,
            decreases n - t,
        {
            let p = bucket[t];
            assert(p == self.found_by.values()[b as int]@[t as int]);
            if same_key(&self.groups[p].key, key) {
                proof {
                    let j = group_index(self@, key@);
                    assert(self@[p as int].key@ == key@);
                    assert(0 <= j < self@.len() && self@[j].key@ == key@);
                }
                return Some(p);
            }
            t = t + 1;
        }
        proof {
            if has_group(self@, key@) {
                let i = group_index(self@, key@);
                assert(0 <= i < self.groups@.len() && self.groups@[i].key@ == key@);
                assert(self.listed(i));
                assert(holds(bucket@, i));
                let k = choose|t: int| 0 <= t < bucket@.len() && #[trigger] bucket@[t] == i;
                assert(self.groups@[bucket@[k] as int].key@ == key@);
            }
        }
        None
    }

    /// Opens a group with the key `key`, which no group has yet, and returns
    /// its position. The group holds no match.
    fn open(&mut self, key: Vec<u64>) -> (slot: usize)
        requires
            old(self).wf(),
            !has_group(old(self)@, key@),
        ensures
            final(self).wf(),
            slot == old(self)@.len(),
            final(self)@.len() == old(self)@.len() + 1,
            forall|i: int| 0 <= i < old(self)@.len() ==> #[trigger] final(self)@[i] == old(self)@[i],
            final(self)@[slot as int].key@ == key@,
            final(self)@[slot as int].view_matches() == Map::<u64, MatchView>::empty(),
    {
        let ghost before = *self;
        let ghost k = key@;
        let h = key_hash(&key);
        let slot = self.groups.len();
        let group = MatchGroup { key, matches: Table::new() };
        proof {
            before.found_by.lemma_wf();
            assert(group.view_matches() =~= Map::<u64, MatchView>::empty());
        }
        self.groups.push(group);
        match self.found_by.slot(h) {
            Some(b) => {
                let bucket = self.found_by.value_at_mut(b);
                bucket.push(slot);
                proof {
                    let keys = self.found_by.keys();
                    let v0 = before.found_by.values();
                    let v1 = self.found_by.values();
                    assert(v1 == v0.update(b as int, v1[b as int]));
                    assert(v1[b as int]@ == v0[b as int]@.push(slot));
                    assert forall|c: int, t: int|
                        0 <= c < v1.len() && 0 <= t < v1[c]@.len() implies {
                        let p = #[trigger] v1[c]@[t];
                        p < self.groups@.len() && fold_key(self.groups@[p as int].key@) == keys[c]
                    } by {
                        if c == b && t == v0[b as int]@.len() {
                        } else {
                            let p = v0[c]@[t];
                            assert(p < before.groups@.len());
                            assert(self.groups@[p as int] == before.groups@[p as int]);
                        }
                    }
                    assert forall|i: int| 0 <= i < self.groups@.len() implies #[trigger] self.listed(
                        i,
                    ) by {
                        if i < slot {
                            assert(before.listed(i));
                            assert(self.groups@[i] == before.groups@[i]);
                            let hi = fold_key(before.groups@[i].key@);
                            let c = keys.index_of(hi);
                            assert(holds(v0[c]@, i));
                            let t = choose|t: int| 0 <= t < v0[c]@.len() && #[trigger] v0[c]@[t] == i;
                            assert(v1[c]@[t] == i);
                            assert(holds(v1[c]@, i));
                        } else {
                            assert(v1[b as int]@[v0[b as int]@.len() as int] == slot);
                            assert(holds(v1[b as int]@, i));
                        }
                    }
                    assert forall|i: int, j: int| 0 <= i < j < self.groups@.len() implies (
                    #[trigger] self.groups@[i]).key@ != (#[trigger] self.groups@[j]).key@ by {
                        if j < slot {
                            assert(before.groups@[i].key@ != before.groups@[j].key@);
                        } else {
                            assert(before@[i].key@ != k);
                        }
                    }
                }
            },
            None => {
                let mut bucket: Vec<usize> = Vec::new();
                bucket.push(slot);
                self.found_by.insert(h, bucket);
                proof {
                    self.found_by.lemma_wf();
                    let keys = self.found_by.keys();
                    let k0 = before.found_by.keys();
                    let v0 = before.found_by.values();
                    let v1 = self.found_by.values();
                    let last = k0.len() as int;
                    assert(keys == k0.push(h));
                    assert(v1[last]@ =~= seq![slot]);
                    assert forall|c: int, t: int|
                        0 <= c < v1.len() && 0 <= t < v1[c]@.len() implies {
                        let p = #[trigger] v1[c]@[t];
                        p < self.groups@.len() && fold_key(self.groups@[p as int].key@) == keys[c]
                    } by {
                        if c < last {
                            let p = v0[c]@[t];
                            assert(p < before.groups@.len());
                            assert(self.groups@[p as int] == before.groups@[p as int]);
                        }
                    }
                    assert forall|i: int| 0 <= i < self.groups@.len() implies #[trigger] self.listed(
                        i,
                    ) by {
                        if i < slot {
                            assert(before.listed(i));
                            assert(self.groups@[i] == before.groups@[i]);
                            let hi = fold_key(before.groups@[i].key@);
                            let c = k0.index_of(hi);
                            assert(k0[c] == hi);
                            assert(keys[c] == hi);
                            crate::table::lemma_index_of_unique(keys, c);
                            assert(holds(v0[c]@, i));
                            assert(v1[c] == v0[c]);
                        } else {
                            assert(keys[last] == h);
                            crate::table::lemma_index_of_unique(keys, last);
                            assert(v1[last]@[0] == slot);
                            assert(holds(v1[last]@, i));
                        }
                    }
                    assert forall|i: int, j: int| 0 <= i < j < self.groups@.len() implies (
                    #[trigger] self.groups@[i]).key@ != (#[trigger] self.groups@[j]).key@ by {
                        if j < slot {
                            assert(before.groups@[i].key@ != before.groups@[j].key@);
                        } else {
                            assert(before@[i].key@ != k);
                        }
                    }
                }
            },
        }
        slot
    }

    /// Puts a match into the group at position `slot`, under the identifier
    /// `id`. The keys and the other groups stay as they are.
    fn insert_at(&mut self, slot: usize, id: u64, found: Arc<XmapMatch>)
        requires
            old(self).wf(),
            slot < old(self)@.len(),
        ensures
            final(self).wf(),
            final(self)@.len() == old(self)@.len(),
            forall|i: int|
                0 <= i < final(self)@.len() && i != slot ==> #[trigger] final(self)@[i] == old(
                    self,
                )@[i],
            final(self)@[slot as int].key@ == old(self)@[slot as int].key@,
            final(self)@[slot as int].view_matches() == old(self)@[slot as int].view_matches().insert(
                id,
                found@,
            ),
    {
        let ghost before = *self;
        let ghost value = found@;
        self.groups[slot].matches.insert(id, found);
        proof {
            assert(self.groups@[slot as int].key@ == before.groups@[slot as int].key@);
            assert(self.groups@[slot as int].view_matches() =~= before.groups@[slot as int].view_matches().insert(
                id,
                value,
            ));
            assert forall|i: int| 0 <= i < self.groups@.len() implies #[trigger] self.listed(i) by {
                assert(before.listed(i));
                assert(self.groups@[i].key@ == before.groups@[i].key@);
            }
            assert forall|b: int, t: int|
                0 <= b < self.found_by.values().len() && 0 <= t < self.found_by.values()[b]@.len() implies {
                let p = #[trigger] self.found_by.values()[b]@[t];
                p < self.groups@.len() && fold_key(self.groups@[p as int].key@)
                    == self.found_by.keys()[b]
            } by {
                let p = before.found_by.values()[b]@[t];
                assert(self.groups@[p as int].key@ == before.groups@[p as int].key@);
            }
            assert forall|i: int, j: int| 0 <= i < j < self.groups@.len() implies (
            #[trigger] self.groups@[i]).key@ != (#[trigger] self.groups@[j]).key@ by {
                assert(before.groups@[i].key@ != before.groups@[j].key@);
            }
        }
    }
}

/// What was computed so far, for every request to share.
pub struct XmapCache {
    parsed_files: Table<ParsedFile>,
    indices: Table<Arc<ContigIndex>>,
    match_cache: MatchStore,
}

impl XmapCache {
    /// The parsed files, each under the hash of its content.
    pub closed spec fn parsed(&self) -> Map<u64, ParsedFile> {
        self.parsed_files.bindings()
    }

    /// The indices, each under the hash of the content it was built from.
    pub closed spec fn indexed(&self) -> Map<u64, Arc<ContigIndex>> {
        self.indices.bindings()
    }

    /// The matches: under the key of each set of files, its matches, each
    /// under its identifier.
    pub closed spec fn matches(&self) -> Map<Seq<u64>, Map<u64, MatchView>> {
        Map::new(
            |key: Seq<u64>| has_group(self.match_cache@, key),
            |key: Seq<u64>| self.match_cache@[group_index(self.match_cache@, key)].view_matches(),
        )
    }

    /// The cache is consistent, and so is everything in it.
    pub closed spec fn wf(&self) -> bool {
        &&& self.parsed_files.wf()
        &&& self.indices.wf()
        &&& forall|i: int|
            0 <= i < self.parsed_files.values().len() ==> (#[trigger] self.parsed_files.values()[i]).0.wf()
                && self.parsed_files.values()[i].1.wf()
        &&& forall|i: int|
            0 <= i < self.indices.values().len() ==> (#[trigger] self.indices.values()[i]).wf()
        &&& self.match_cache.wf()
    }

    /// Whatever a consistent cache holds is consistent.
    pub proof fn lemma_wf(&self)
        requires
            self.wf(),
        ensures
            forall|hash: u64| #[trigger]
                self.parsed().contains_key(hash) ==> self.parsed()[hash].0.wf()
                    && self.parsed()[hash].1.wf(),
            forall|hash: u64| #[trigger]
                self.indexed().contains_key(hash) ==> self.indexed()[hash].wf(),
    {
        self.parsed_files.lemma_wf();
        self.indices.lemma_wf();
        assert forall|hash: u64| #[trigger] self.parsed().contains_key(hash) implies self.parsed()[hash].0.wf()
            && self.parsed()[hash].1.wf() by {
            let i = self.parsed_files.keys().index_of(hash);
            assert(self.parsed_files.keys()[i] == hash);
            assert(self.parsed_files.values()[i].0.wf());
        }
        assert forall|hash: u64| #[trigger]
            self.indexed().contains_key(hash) implies self.indexed()[hash].wf() by {
            let i = self.indices.keys().index_of(hash);
            assert(self.indices.keys()[i] == hash);
            assert(self.indices.values()[i].wf());
        }
    }

    /// An empty cache.
    pub fn new() -> (cache: XmapCache)
        ensures
            cache.wf(),
            cache.parsed() == Map::<u64, ParsedFile>::empty(),
            cache.indexed() == Map::<u64, Arc<ContigIndex>>::empty(),
            cache.matches() == Map::<Seq<u64>, Map<u64, MatchView>>::empty(),
    {
        let cache = XmapCache {
            parsed_files: Table::new(),
            indices: Table::new(),
            match_cache: MatchStore::new(),
        };
        assert(cache.parsed() =~= Map::<u64, ParsedFile>::empty());
        assert(cache.indexed() =~= Map::<u64, Arc<ContigIndex>>::empty());
        assert(cache.matches() =~= Map::<Seq<u64>, Map<u64, MatchView>>::empty());
        cache
    }

    /// The parsed file cached under `hash`, or else the parse of `content`,
    /// which is then cached under `hash`.
    ///
    /// Where `hash` is cached, `content` is not looked at. A parse that fails
    /// leaves the cache as it was.
    pub fn get_or_parse(&mut self, hash: u64, content: &str) -> (parsed: Result<
        ParsedFile,
        ParseError,
    >)
        requires
            old(self).wf(),
        ensures
            final(self).wf(),
            fetch_or_parse(*old(self), hash, content@, *final(self), parsed),
            parsed matches Ok(file) ==> file.0.wf() && file.1.wf(),
    {
        proof {
            self.lemma_wf();
        }
        match self.parsed_files.get(hash) {
            Some(file) => {
                assert(self.parsed().contains_key(hash));
                return Ok((share(&file.0), share(&file.1)));
            },
            None => {},
        }
        let (records, lengths) = match parse_xmap_file(content) {
            Ok(file) => file,
            Err(e) => {
                return Err(e);
            },
        };
        let ghost before = *self;
        let file = (share(&records), share(&lengths));
        self.parsed_files.insert(hash, file);
        proof {
            before.parsed_files.lemma_wf();
            assert forall|i: int| 0 <= i < self.parsed_files.values().len() implies (
            #[trigger] self.parsed_files.values()[i]).0.wf() && self.parsed_files.values()[i].1.wf() by {
                if i < before.parsed_files.values().len() {
                    assert(before.parsed_files.values()[i].0.wf());
                }
            }
            assert(self.match_cache@ == before.match_cache@);
        }
        Ok((records, lengths))
    }

    /// The index cached under `hash`, or else the index of `records`, which
    /// is then cached under `hash`.
    ///
    /// Where `hash` is cached, `records` is not looked at.
    pub fn get_or_build_index(&mut self, hash: u64, records: Arc<RecordTable>) -> (index: Arc<
        ContigIndex,
    >)
        requires
            old(self).wf(),
            records.wf(),
        ensures
            final(self).wf(),
            index.wf(),
            fetch_or_index(*old(self), hash, records.entries(), *final(self), index),
    {
        proof {
            self.lemma_wf();
        }
        match self.indices.get(hash) {
            Some(index) => {
                assert(self.indexed().contains_key(hash));
                return share(index);
            },
            None => {},
        }
        let index = build_index(records);
        let ghost before = *self;
        self.indices.insert(hash, share(&index));
        proof {
            before.indices.lemma_wf();
            assert forall|i: int| 0 <= i < self.indices.values().len() implies (
            #[trigger] self.indices.values()[i]).wf() by {
                if i < before.indices.values().len() {
                    assert(before.indices.values()[i].wf());
                }
            }
            assert(self.match_cache@ == before.match_cache@);
        }
        index
    }

    /// Caches a match of the set of files with the content hashes `hashes`.
    ///
    /// The match goes into the group under the sorted hashes, under the
    /// identifier that [`match_id`] makes of its query contig and the low 32
    /// bits of `position`, and replaces a match that stood there before.
    pub fn cache_match(&mut self, hashes: Vec<u64>, match_data: Arc<XmapMatch>, position: u64)
        requires
            old(self).wf(),
        ensures
            final(self).wf(),
            final(self).parsed() == old(self).parsed(),
            final(self).indexed() == old(self).indexed(),
            final(self).matches() == old(self).matches().insert(
                key_of(hashes@),
                cached_group(old(self).matches(), key_of(hashes@)).insert(
                    match_id_of(match_data.qry_contig_id, position),
                    match_data@,
                ),
            ),
    {
        let key = sorted_key(&hashes);
        let id = match_id(match_data.qry_contig_id, position);
        let ghost before = *self;
        let ghost value = match_data@;
        let slot = match self.match_cache.find(&key) {
            Some(i) => i,
            None => self.match_cache.open(sorted_key(&hashes)),
        };
        let ghost mid = *self;
        proof {
            mid.match_cache.lemma_wf();
            assert(mid.match_cache@[slot as int].key@ == key@);
            assert(mid.match_cache@[slot as int].view_matches() == cached_group(
                before.matches(),
                key@,
            ));
            assert(forall|i: int|
                0 <= i < mid.match_cache@.len() && i != slot ==> (#[trigger] mid.match_cache@[i]).key@
                    != key@);
        }
        self.match_cache.insert_at(slot, id, match_data);
        proof {
            let g0 = before.match_cache@;
            let g1 = mid.match_cache@;
            let g2 = self.match_cache@;
            assert(g2.len() == g1.len());
            assert(forall|i: int| 0 <= i < g2.len() ==> (#[trigger] g2[i]).key@ == g1[i].key@);
            assert(forall|i: int| 0 <= i < g2.len() && i != slot ==> #[trigger] g2[i] == g1[i]);
            assert(g2[slot as int].view_matches() =~= g1[slot as int].view_matches().insert(
                id,
                value,
            ));
            assert(self.wf());
            let m0 = before.matches();
            let m2 = self.matches();
            let want = m0.insert(key@, cached_group(m0, key@).insert(id, value));
            assert forall|k: Seq<u64>| m2.contains_key(k) == want.contains_key(k) by {
                if has_group(g2, k) {
                    let i = group_index(g2, k);
                    if k != key@ {
                        assert(g1[i].key@ == k);
                        assert(g0[i].key@ == k);
                    }
                }
                if has_group(g0, k) {
                    let i = group_index(g0, k);
                    assert(g2[i].key@ == k);
                }
                if k == key@ {
                    assert(g2[slot as int].key@ == k);
                }
            }
            assert forall|k: Seq<u64>| m2.contains_key(k) implies #[trigger] m2[k] == want[k] by {
                let i = group_index(g2, k);
                assert(g2[i].key@ == k);
                if k == key@ {
                    assert(i == slot);
                } else {
                    assert(g1[i].key@ == k);
                    assert(i != slot);
                    assert(g0[i].key@ == k);
                    let j = group_index(g0, k);
                    assert(g0[j].key@ == k);
                    assert(i == j);
                }
            }
            assert(m2 =~= want);
        }
    }

    /// The cached match of the set of files with the content hashes `hashes`
    /// that stands under the identifier `id`, if there is one.
    pub fn get_match(&self, hashes: &Vec<u64>, id: u64) -> (found: Option<Arc<XmapMatch>>)
        requires
            self.wf(),
        ensures
            found is Some <==> self.matches().contains_key(key_of(hashes@)) && self.matches()[key_of(
                hashes@,
            )].contains_key(id),
            found matches Some(m) ==> m@ == self.matches()[key_of(hashes@)][id],
    {
        let key = sorted_key(hashes);
        match self.match_cache.find(&key) {
            Some(i) => match self.match_cache.group_at(i).matches.get(id) {
                Some(m) => Some(share(m)),
                None => None,
            },
            None => None,
        }
    }
}

/// What a request for the parsed file under `hash` does to the cache and
/// returns. Where `hash` is cached, the cache stays as it is and the request
/// returns what is cached, whatever `content` holds. Otherwise `content` is
/// parsed: a failure is returned and changes nothing, and a parsed file is
/// cached under `hash` and returned.
pub open spec fn fetch_or_parse(
    before: XmapCache,
    hash: u64,
    content: Seq<char>,
    after: XmapCache,
    out: Result<ParsedFile, ParseError>,
) -> bool {
    &&& after.indexed() == before.indexed()
    &&& after.matches() == before.matches()
    &&& if before.parsed().contains_key(hash) {
        &&& out == Ok::<ParsedFile, ParseError>(before.parsed()[hash])
        &&& after == before
    } else {
        match out {
            Ok(file) => {
                &&& first_failure(lines_of(content)) is None
                &&& parse_of(content, file)
                &&& after.parsed() == before.parsed().insert(hash, file)
            },
            Err(e) => first_failure(lines_of(content)) == Some(e) && after.parsed()
                == before.parsed(),
        }
    }
}

/// What a request for the index under `hash` does to the cache and returns.
/// Where `hash` is cached, the cache stays as it is and the request returns
/// what is cached, whatever the records are. Otherwise the index of the
/// records is built, cached under `hash` and returned.
pub open spec fn fetch_or_index(
    before: XmapCache,
    hash: u64,
    entries: Seq<crate::record::RecordView>,
    after: XmapCache,
    out: Arc<ContigIndex>,
) -> bool {
    &&& after.parsed() == before.parsed()
    &&& after.matches() == before.matches()
    &&& if before.indexed().contains_key(hash) {
        &&& out == before.indexed()[hash]
        &&& after == before
    } else {
        &&& out.indexes(entries)
        &&& after.indexed() == before.indexed().insert(hash, out)
    }
}

/// A hash is parsed once. Of two requests for one hash, one after the other,
/// the second returns what the first returned and leaves the cache as the
/// first left it; the content that comes with the second is not parsed.
pub proof fn lemma_parse_is_cached(
    c0: XmapCache,
    c1: XmapCache,
    c2: XmapCache,
    hash: u64,
    content1: Seq<char>,
    content2: Seq<char>,
    first: Result<ParsedFile, ParseError>,
    second: Result<ParsedFile, ParseError>,
)
    requires
        fetch_or_parse(c0, hash, content1, c1, first),
        first is Ok,
        fetch_or_parse(c1, hash, content2, c2, second),
    ensures
        second == first,
        c2 == c1,
{
}

/// An index is built once. Of two requests for one hash, one after the
/// other, the second returns what the first returned and leaves the cache as
/// the first left it.
pub proof fn lemma_index_is_cached(
    c0: XmapCache,
    c1: XmapCache,
    c2: XmapCache,
    hash: u64,
    entries1: Seq<crate::record::RecordView>,
    entries2: Seq<crate::record::RecordView>,
    first: Arc<ContigIndex>,
    second: Arc<ContigIndex>,
)
    requires
        fetch_or_index(c0, hash, entries1, c1, first),
        fetch_or_index(c1, hash, entries2, c2, second),
    ensures
        second == first,
        c2 == c1,
{
}

/// The matches cached under `key`: none where the key is new.
pub open spec fn cached_group(
    matches: Map<Seq<u64>, Map<u64, MatchView>>,
    key: Seq<u64>,
) -> Map<u64, MatchView> {
    if matches.contains_key(key) {
        matches[key]
    } else {
        Map::empty()
    }
}

} // verus!
