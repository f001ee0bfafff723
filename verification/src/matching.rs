//! The pairwise match engine.
//!
//! For every pair of files of a set, the engine joins the two files on the
//! query contig: each query contig that both files align gives one match, made
//! of the records of the first file and then the records of the second.
//! Matches of different pairs are never merged.

use crate::file::RecordTable;
use crate::index::{
    bucket_of, build_index, contigs_of, has_contig, lemma_bucket_of, lemma_contigs_of, ContigIndex,
};
use crate::record::{
    match_views, matched_from, matched_views, record_views, share, MatchView, MatchedRecord,
    MatchedView, RecordView, XmapMatch, XmapRecord,
};
use std::sync::Arc;
use vstd::prelude::*;

verus! {

/// The number of query contigs that one unit of work covers.
pub const BATCH_SIZE: usize = 100;

/// The files of one request, each with its index. A file is known by its
/// position in the set.
pub struct XmapFileSet {
    pub files: Vec<Arc<RecordTable>>,
    pub indices: Vec<Arc<ContigIndex>>,
}

impl View for XmapFileSet {
    type V = Seq<Seq<RecordView>>;

    /// The records of each file, file by file. The indices are no part of
    /// the view: in a consistent set each is the index of its file, as `wf`
    /// says, so the files decide them.
    open spec fn view(&self) -> Seq<Seq<RecordView>> {
        Seq::new(self.files@.len(), |i: int| self.files@[i].entries())
    }
}

impl XmapFileSet {
    /// The set is consistent: every file has its index.
    pub open spec fn wf(&self) -> bool {
        &&& self.files@.len() == self.indices@.len()
        &&& forall|i: int|
            0 <= i < self.files@.len() ==> (#[trigger] self.files@[i]).wf() && self.indices@[i].wf()
                && self.indices@[i].indexes(self.files@[i].entries())
    }

    /// The set of the given files, in the given order, each with a new index.
    pub fn new(files: Vec<Arc<RecordTable>>) -> (set: XmapFileSet)
        requires
            forall|i: int| 0 <= i < files@.len() ==> (#[trigger] files@[i]).wf(),
        ensures
            set.wf(),
            set.files@ == files@,
    {
        let mut indices: Vec<Arc<ContigIndex>> = Vec::new();
        let n = files.len();
        let mut i: usize = 0;
        while i < n
            invariant
                n == files@.len(),
                0 <= i <= n,
                indices@.len() == i,
                forall|k: int| 0 <= k < files@.len() ==> (#[trigger] files@[k]).wf(),
                forall|k: int|
                    0 <= k < i ==> (#[trigger] indices@[k]).wf() && indices@[k].indexes(
                        files@[k].entries(),
                    ),
            decreases n - i,
        {
            let index = build_index(share(&files[i]));
            indices.push(index);
            i = i + 1;
        }
        XmapFileSet { files, indices }
    }

    /// The number of files in the set.
    pub fn len(&self) -> (n: usize)
        ensures
            n == self@.len(),
    {
        self.files.len()
    }
}

/// The contributions of `records`, all tagged with `file_index`.
pub open spec fn tagged(records: Seq<RecordView>, file_index: usize) -> Seq<MatchedView> {
    Seq::new(records.len(), |k: int| matched_from(records[k], file_index))
}

/// The match on the query contig `q` between the file `a`, at position `i`,
/// and the file `b`, at position `j`.
pub open spec fn match_of(
    q: u32,
    a: Seq<RecordView>,
    b: Seq<RecordView>,
    i: usize,
    j: usize,
) -> MatchView {
    MatchView {
        qry_contig_id: q,
        file_indices: seq![i, j],
        records: tagged(bucket_of(a, q), i) + tagged(bucket_of(b, q), j),
    }
}

/// The matches on the query contigs listed in `contigs`, in their order: one
/// for each of them that `b` aligns too.
pub open spec fn matches_among(
    contigs: Seq<u32>,
    a: Seq<RecordView>,
    b: Seq<RecordView>,
    i: usize,
    j: usize,
) -> Seq<MatchView>
    decreases contigs.len(),
{
    if contigs.len() == 0 {
        Seq::empty()
    } else {
        let before = matches_among(contigs.drop_last(), a, b, i, j);
        if has_contig(b, contigs.last()) {
            before.push(match_of(contigs.last(), a, b, i, j))
        } else {
            before
        }
    }
}

/// The matches between the file `a`, at position `i`, and the file `b`, at
/// position `j`.
pub open spec fn pair_matches(a: Seq<RecordView>, b: Seq<RecordView>, i: usize, j: usize) -> Seq<
    MatchView,
> {
    matches_among(contigs_of(a), a, b, i, j)
}

/// The pairs `(i, i + 1)`, ..., `(i, n - 1)`.
pub open spec fn pairs_from(i: usize, n: usize) -> Seq<(usize, usize)> {
    Seq::new((n - i - 1) as nat, |k: int| (i, (i + 1 + k) as usize))
}

/// The pairs `(i, j)` with `i < j < n` and `i < rows`, in lexicographic order.
pub open spec fn pairs_below(rows: nat, n: usize) -> Seq<(usize, usize)>
    decreases rows,
{
    if rows == 0 {
        Seq::empty()
    } else {
        pairs_below((rows - 1) as nat, n) + pairs_from((rows - 1) as usize, n)
    }
}

/// The unordered pairs of positions in a set of `n` files: every `(i, j)`
/// with `i < j < n`, in lexicographic order.
pub open spec fn file_pairs_of(n: usize) -> Seq<(usize, usize)> {
    pairs_below(n as nat, n)
}

/// The matches of the listed pairs of files, pair by pair.
pub open spec fn matches_of_pairs(files: Seq<Seq<RecordView>>, pairs: Seq<(usize, usize)>) -> Seq<
    MatchView,
>
    decreases pairs.len(),
{
    if pairs.len() == 0 {
        Seq::empty()
    } else {
        let (i, j) = pairs.last();
        matches_of_pairs(files, pairs.drop_last()) + pair_matches(
            files[i as int],
            files[j as int],
            i,
            j,
        )
    }
}

/// The matches of a set of files: those of every pair of its files.
pub open spec fn all_matches(files: Seq<Seq<RecordView>>) -> Seq<MatchView> {
    matches_of_pairs(files, file_pairs_of(files.len() as usize))
}

/// The matches on a list of contigs are those on its first part followed by
/// those on the rest.
pub proof fn lemma_matches_among_add(
    c1: Seq<u32>,
    c2: Seq<u32>,
    a: Seq<RecordView>,
    b: Seq<RecordView>,
    i: usize,
    j: usize,
)
    ensures
        matches_among(c1 + c2, a, b, i, j) == matches_among(c1, a, b, i, j) + matches_among(
            c2,
            a,
            b,
            i,
            j,
        ),
    decreases c2.len(),
{
    if c2.len() == 0 {
        assert(c1 + c2 =~= c1);
        assert(matches_among(c1, a, b, i, j) + matches_among(c2, a, b, i, j) =~= matches_among(
            c1,
            a,
            b,
            i,
            j,
        ));
    } else {
        assert((c1 + c2).drop_last() =~= c1 + c2.drop_last());
        lemma_matches_among_add(c1, c2.drop_last(), a, b, i, j);
        let m1 = matches_among(c1, a, b, i, j);
        let m2 = matches_among(c2.drop_last(), a, b, i, j);
        if has_contig(b, c2.last()) {
            assert((m1 + m2).push(match_of(c2.last(), a, b, i, j)) =~= m1 + m2.push(
                match_of(c2.last(), a, b, i, j),
            ));
        }
    }
}

/// Every unordered pair of positions in a set of `n` files.
pub fn file_pairs(n: usize) -> (pairs: Vec<(usize, usize)>)
    ensures
        pairs@ == file_pairs_of(n),
{
    let mut pairs: Vec<(usize, usize)> = Vec::new();
    let mut i: usize = 0;
    while i < n
        invariant
            0 <= i <= n,
            pairs@ == pairs_below(i as nat, n),
        decreases n - i,
    {
        let ghost row_start = pairs@;
        let mut j: usize = i + 1;
        while j < n
            invariant
                i < n,
                i + 1 <= j <= n,
                pairs@ == row_start + pairs_from(i, n).take(j - i - 1),
            decreases n - j,
        {
            pairs.push((i, j));
            assert(pairs_from(i, n).take(j - i - 1).push((i, j)) =~= pairs_from(i, n).take(
                j + 1 - i - 1,
            ));
            j = j + 1;
        }
        assert(pairs_from(i, n).take(n - i - 1) =~= pairs_from(i, n));
        i = i + 1;
    }
    pairs
}

/// Appends to `out` the contributions of the records of `bucket`, tagged with
/// `file_index`.
fn tag_all(bucket: &Vec<Arc<XmapRecord>>, file_index: usize, out: &mut Vec<MatchedRecord>)
    ensures
        matched_views(final(out)@) == matched_views(old(out)@) + tagged(
            record_views(bucket@),
            file_index,
        ),
{
    let n = bucket.len();
    let mut k: usize = 0;
    let ghost start = matched_views(out@);
    let ghost all = tagged(record_views(bucket@), file_index);
    assert(matched_views(out@) =~= start + all.take(0));
    while k < n
        invariant
            n == bucket@.len(),
            0 <= k <= n,
            all == tagged(record_views(bucket@), file_index),
            matched_views(out@) == start + all.take(k as int),
        decreases n - k,
    {
        let ghost before = out@;
        let m = MatchedRecord::from_record(&bucket[k], file_index);
        out.push(m);
        assert(matched_views(out@) =~= matched_views(before).push(m@));
        assert(m@ == all[k as int]);
        assert((start + all.take(k as int)).push(all[k as int]) =~= start + all.take(k + 1));
        k = k + 1;
    }
    assert(all.take(n as int) =~= all);
}

/// The match on the query contig at position `k` of the index of file `i`,
/// between file `i` and file `j`: `None` where file `j` does not align that
/// contig.
pub fn match_contig(set: &XmapFileSet, i: usize, j: usize, k: usize) -> (found: Option<XmapMatch>)
    requires
        set.wf(),
        i < set@.len(),
        j < set@.len(),
        k < contigs_of(set@[i as int]).len(),
    ensures
        found is Some <==> has_contig(set@[j as int], contigs_of(set@[i as int])[k as int]),
        found matches Some(m) ==> m@ == match_of(
            contigs_of(set@[i as int])[k as int],
            set@[i as int],
            set@[j as int],
            i,
            j,
        ),
{
    let ghost a = set@[i as int];
    let ghost b = set@[j as int];
    assert(set.files@[i as int].wf());
    assert(set.files@[j as int].wf());
    let q = set.indices[i].contig_at(k);
    proof {
        lemma_contigs_of(b);
    }
    match set.indices[j].position(q) {
        None => None,
        Some(p) => {
            let mut records: Vec<MatchedRecord> = Vec::new();
            assert(matched_views(records@) =~= Seq::<MatchedView>::empty());
            tag_all(set.indices[i].records_at(k), i, &mut records);
            tag_all(set.indices[j].records_at(p), j, &mut records);
            let mut file_indices: Vec<usize> = Vec::new();
            file_indices.push(i);
            file_indices.push(j);
            let m = XmapMatch { qry_contig_id: q, file_indices, records };
            proof {
                assert(set.indices@[i as int].bucket_at(k as int) == bucket_of(a, q));
                assert(set.indices@[j as int].bucket_at(p as int) == bucket_of(b, q));
                assert(m@.file_indices =~= seq![i, j]);
                assert(m@.records =~= tagged(bucket_of(a, q), i) + tagged(bucket_of(b, q), j));
            }
            Some(m)
        },
    }
}

/// Appends to `out` the matches between file `i` and file `j` on the query
/// contigs at the positions `start..end` of the index of file `i`.
pub fn match_batch(
    set: &XmapFileSet,
    i: usize,
    j: usize,
    start: usize,
    end: usize,
    out: &mut Vec<XmapMatch>,
)
    requires
        set.wf(),
        i < set@.len(),
        j < set@.len(),
        start <= end <= contigs_of(set@[i as int]).len(),
    ensures
        match_views(final(out)@) == match_views(old(out)@) + matches_among(
            contigs_of(set@[i as int]).subrange(start as int, end as int),
            set@[i as int],
            set@[j as int],
            i,
            j,
        ),
{
    let ghost a = set@[i as int];
    let ghost b = set@[j as int];
    let ghost contigs = contigs_of(a);
    let ghost begun = match_views(out@);
    let mut k: usize = start;
    assert(contigs.subrange(start as int, start as int) =~= Seq::<u32>::empty());
    assert(match_views(out@) =~= begun + Seq::<MatchView>::empty());
    while k < end
        invariant
            set.wf(),
            i < set@.len(),
            j < set@.len(),
            a == set@[i as int],
            b == set@[j as int],
            contigs == contigs_of(a),
            start <= k <= end <= contigs.len(),
            match_views(out@) == begun + matches_among(
                contigs.subrange(start as int, k as int),
                a,
                b,
                i,
                j,
            ),
        decreases end - k,
    {
        let ghost before = out@;
        let ghost done = contigs.subrange(start as int, k as int);
        let ghost next = contigs.subrange(start as int, k + 1);
        assert(next.drop_last() =~= done);
        assert(next.last() == contigs[k as int]);
        match match_contig(set, i, j, k) {
            Some(m) => {
                out.push(m);
                assert(match_views(out@) =~= match_views(before).push(m@));
                assert((begun + matches_among(done, a, b, i, j)).push(m@) =~= begun
                    + matches_among(done, a, b, i, j).push(m@));
            },
            None => {},
        }
        k = k + 1;
    }
}

/// The units of work that cover `n` query contigs: the ranges `start..end` of
/// positions, in order. Every range but the last holds `size` positions, the
/// last at least one and at most `size`.
pub fn contig_batches(n: usize, size: usize) -> (batches: Vec<(usize, usize)>)
    requires
        size > 0,
    ensures
        batches@.len() == 0 <==> n == 0,
        n > 0 ==> batches@[0].0 == 0 && batches@[batches@.len() - 1].1 == n,
        forall|k: int|
            0 <= k < batches@.len() ==> (#[trigger] batches@[k]).0 < batches@[k].1 <= n
                && batches@[k].1 - batches@[k].0 <= size,
        forall|k: int|
            0 <= k < batches@.len() - 1 ==> (#[trigger] batches@[k]).1 - batches@[k].0 == size
                && batches@[k].1 == batches@[k + 1].0,
{
    let mut batches: Vec<(usize, usize)> = Vec::new();
    let mut start: usize = 0;
    while start < n
        invariant
            size > 0,
            0 <= start <= n,
            batches@.len() == 0 <==> start == 0,
            start > 0 ==> batches@[0].0 == 0 && batches@[batches@.len() - 1].1 == start,
            forall|k: int|
                0 <= k < batches@.len() ==> (#[trigger] batches@[k]).0 < batches@[k].1 <= n
                    && batches@[k].1 - batches@[k].0 <= size,
            forall|k: int|
                0 <= k < batches@.len() - 1 ==> (#[trigger] batches@[k]).1 - batches@[k].0 == size
                    && batches@[k].1 == batches@[k + 1].0,
            forall|k: int|
                0 <= k < batches@.len() && start < n ==> (#[trigger] batches@[k]).1 - batches@[k].0
                    == size,
        decreases n - start,
    {
        let end: usize = if n - start > size {
            start + size
        } else {
            n
        };
        batches.push((start, end));
        start = end;
    }
    batches
}

/// The matches between file `i` and file `j` of the set.
///
/// The query contigs of file `i` are taken in batches of [`BATCH_SIZE`], in
/// the order of its index.
pub fn match_pair(set: &XmapFileSet, i: usize, j: usize, out: &mut Vec<XmapMatch>)
    requires
        set.wf(),
        i < set@.len(),
        j < set@.len(),
    ensures
        match_views(final(out)@) == match_views(old(out)@) + pair_matches(
            set@[i as int],
            set@[j as int],
            i,
            j,
        ),
{
    let ghost a = set@[i as int];
    let ghost b = set@[j as int];
    let ghost contigs = contigs_of(a);
    let ghost begun = match_views(out@);
    assert(set.files@[i as int].wf());
    let n = set.indices[i].len();
    let batches = contig_batches(n, BATCH_SIZE);
    let mut t: usize = 0;
    assert(contigs.take(0) =~= Seq::<u32>::empty());
    assert(match_views(out@) =~= begun + Seq::<MatchView>::empty());
    while t < batches.len()
        invariant
            set.wf(),
            i < set@.len(),
            j < set@.len(),
            a == set@[i as int],
            b == set@[j as int],
            contigs == contigs_of(a),
            n == contigs.len(),
            0 <= t <= batches@.len(),
            batches@.len() == 0 <==> n == 0,
            n > 0 ==> batches@[0].0 == 0 && batches@[batches@.len() - 1].1 == n,
            forall|k: int|
                0 <= k < batches@.len() ==> (#[trigger] batches@[k]).0 < batches@[k].1 <= n,
            forall|k: int|
                0 <= k < batches@.len() - 1 ==> (#[trigger] batches@[k]).1 == batches@[k + 1].0,
            t < batches@.len() ==> match_views(out@) == begun + matches_among(
                contigs.take(batches@[t as int].0 as int),
                a,
                b,
                i,
                j,
            ),
            t == batches@.len() ==> match_views(out@) == begun + matches_among(contigs, a, b, i, j),
        decreases batches@.len() - t,
    {
        let (start, end) = batches[t];
        let ghost before = match_views(out@);
        match_batch(set, i, j, start, end, out);
        proof {
            let c1 = contigs.take(start as int);
            let c2 = contigs.subrange(start as int, end as int);
            lemma_matches_among_add(c1, c2, a, b, i, j);
            assert(c1 + c2 =~= contigs.take(end as int));
            assert((begun + matches_among(c1, a, b, i, j)) + matches_among(c2, a, b, i, j) =~= begun
                + (matches_among(c1, a, b, i, j) + matches_among(c2, a, b, i, j)));
            if t + 1 == batches@.len() {
                assert(contigs.take(end as int) =~= contigs);
            } else {
                assert(batches@[t as int].1 == batches@[t + 1].0);
            }
        }
        t = t + 1;
    }
}

/// The matches of a set of files: for every pair of its files, in
/// lexicographic order of the pair, one match for each query contig that both
/// files align. A set of fewer than two files has no match.
pub fn stream_matches_multi(fileset: Arc<XmapFileSet>) -> (matches: Vec<XmapMatch>)
    requires
        fileset.wf(),
    ensures
        match_views(matches@) == all_matches(fileset@),
        fileset@.len() < 2 ==> matches@.len() == 0,
{
    let mut out: Vec<XmapMatch> = Vec::new();
    let n = fileset.len();
    let pairs = file_pairs(n);
    let mut t: usize = 0;
    assert(match_views(out@) =~= Seq::<MatchView>::empty());
    assert(pairs@.take(0) =~= Seq::<(usize, usize)>::empty());
    proof {
        lemma_file_pairs(n);
    }
    while t < pairs.len()
        invariant
            fileset.wf(),
            n == fileset@.len(),
            pairs@ == file_pairs_of(n),
            forall|k: int|
                0 <= k < pairs@.len() ==> (#[trigger] pairs@[k]).0 < pairs@[k].1 < n,
            0 <= t <= pairs@.len(),
            match_views(out@) == matches_of_pairs(fileset@, pairs@.take(t as int)),
        decreases pairs@.len() - t,
    {
        let (i, j) = pairs[t];
        match_pair(&fileset, i, j, &mut out);
        proof {
            let done = pairs@.take(t + 1);
            assert(done.drop_last() =~= pairs@.take(t as int));
            assert(done.last() == (i, j));
        }
        t = t + 1;
    }
    proof {
        assert(pairs@.take(t as int) =~= pairs@);
        if n < 2 {
            assert(pairs@.len() == 0);
        }
    }
    out
}

/// The pairs of a set of `n` files are the pairs `(i, j)` with `i < j < n`,
/// each once, in strictly ascending lexicographic order.
pub proof fn lemma_file_pairs(n: usize)
    ensures
        forall|k: int|
            0 <= k < file_pairs_of(n).len() ==> (#[trigger] file_pairs_of(n)[k]).0 < file_pairs_of(
                n,
            )[k].1 < n,
        forall|i: usize, j: usize| i < j < n ==> file_pairs_of(n).contains((i, j)),
        forall|k: int, l: int|
            0 <= k < l < file_pairs_of(n).len() ==> {
                let p = #[trigger] file_pairs_of(n)[k];
                let r = #[trigger] file_pairs_of(n)[l];
                p.0 < r.0 || (p.0 == r.0 && p.1 < r.1)
            },
        n < 2 ==> file_pairs_of(n).len() == 0,
{
    lemma_pairs_below(n as nat, n);
}

proof fn lemma_pairs_below(rows: nat, n: usize)
    requires
        rows <= n,
    ensures
        forall|k: int|
            0 <= k < pairs_below(rows, n).len() ==> (#[trigger] pairs_below(rows, n)[k]).0
                < pairs_below(rows, n)[k].1 < n && pairs_below(rows, n)[k].0 < rows,
        forall|i: usize, j: usize| i < j < n && i < rows ==> pairs_below(rows, n).contains((i, j)),
        forall|k: int, l: int|
            0 <= k < l < pairs_below(rows, n).len() ==> {
                let p = #[trigger] pairs_below(rows, n)[k];
                let r = #[trigger] pairs_below(rows, n)[l];
                p.0 < r.0 || (p.0 == r.0 && p.1 < r.1)
            },
        n < 2 ==> pairs_below(rows, n).len() == 0,
    decreases rows,
{
    if rows > 0 {
        let prev = pairs_below((rows - 1) as nat, n);
        let i0 = (rows - 1) as usize;
        let row = pairs_from(i0, n);
        let all = pairs_below(rows, n);
        lemma_pairs_below((rows - 1) as nat, n);
        assert(all == prev + row);
        assert forall|i: usize, j: usize| i < j < n && i < rows implies all.contains((i, j)) by {
            if i < rows - 1 {
                assert(prev.contains((i, j)));
                let k = prev.index_of((i, j));
                assert(all[k] == (i, j));
            } else {
                assert(row[j - i - 1] == (i, j));
                assert(all[prev.len() + (j - i - 1)] == (i, j));
            }
        }
        assert forall|k: int, l: int| 0 <= k < l < all.len() implies {
            let p = #[trigger] all[k];
            let r = #[trigger] all[l];
            p.0 < r.0 || (p.0 == r.0 && p.1 < r.1)
        } by {
            if l < prev.len() {
                assert(all[k] == prev[k] && all[l] == prev[l]);
            } else if k < prev.len() {
                assert(all[k] == prev[k]);
                assert(all[l] == row[l - prev.len()]);
            } else {
                assert(all[k] == row[k - prev.len()]);
                assert(all[l] == row[l - prev.len()]);
            }
        }
    }
}

/// The shape of a match. A match on a query contig that both files align
/// names the two files, the first before the second, and holds at least one
/// record of each: first those of the first file, all tagged with its
/// position, then those of the second, all tagged with its position.
pub proof fn lemma_match_shape(q: u32, a: Seq<RecordView>, b: Seq<RecordView>, i: usize, j: usize)
    requires
        has_contig(a, q),
        has_contig(b, q),
    ensures
        match_of(q, a, b, i, j).file_indices == seq![i, j],
        match_of(q, a, b, i, j).records.len() == bucket_of(a, q).len() + bucket_of(b, q).len(),
        bucket_of(a, q).len() >= 1,
        bucket_of(b, q).len() >= 1,
        forall|k: int|
            0 <= k < bucket_of(a, q).len() ==> #[trigger] match_of(q, a, b, i, j).records[k]
                == matched_from(bucket_of(a, q)[k], i),
        forall|k: int|
            0 <= k < bucket_of(b, q).len() ==> #[trigger] match_of(q, a, b, i, j).records[bucket_of(
                a,
                q,
            ).len() + k] == matched_from(bucket_of(b, q)[k], j),
{
    lemma_bucket_of(a, q);
    lemma_bucket_of(b, q);
}

/// The query contigs that both `a` and `b` align.
pub open spec fn shared_contigs(a: Seq<RecordView>, b: Seq<RecordView>) -> Set<u32> {
    Set::new(|q: u32| has_contig(a, q) && has_contig(b, q))
}

/// The query contigs on which `matches` holds a match.
pub open spec fn matched_contigs(matches: Seq<MatchView>) -> Set<u32> {
    Set::new(|q: u32| exists|k: int| 0 <= k < matches.len() && (#[trigger] matches[k]).qry_contig_id == q)
}

/// What `matches_among` holds for a list of contigs without duplicates: one
/// match for each listed contig that `b` aligns, the match that `match_of`
/// describes, and nothing else.
pub proof fn lemma_matches_among(
    contigs: Seq<u32>,
    a: Seq<RecordView>,
    b: Seq<RecordView>,
    i: usize,
    j: usize,
)
    requires
        contigs.no_duplicates(),
    ensures
        forall|k: int|
            0 <= k < matches_among(contigs, a, b, i, j).len() ==> {
                let m = #[trigger] matches_among(contigs, a, b, i, j)[k];
                contigs.contains(m.qry_contig_id) && has_contig(b, m.qry_contig_id) && m
                    == match_of(m.qry_contig_id, a, b, i, j)
            },
        forall|q: u32|
            contigs.contains(q) && has_contig(b, q) ==> matches_among(contigs, a, b, i, j).contains(
                #[trigger] match_of(q, a, b, i, j),
            ),
        forall|k: int, l: int|
            0 <= k < l < matches_among(contigs, a, b, i, j).len() ==> (#[trigger] matches_among(
                contigs,
                a,
                b,
                i,
                j,
            )[k]).qry_contig_id != (#[trigger] matches_among(contigs, a, b, i, j)[l]).qry_contig_id,
    decreases contigs.len(),
{
    let ms = matches_among(contigs, a, b, i, j);
    if contigs.len() > 0 {
        let rest = contigs.drop_last();
        let last = contigs.last();
        let before = matches_among(rest, a, b, i, j);
        assert(rest.no_duplicates());
        lemma_matches_among(rest, a, b, i, j);
        assert forall|k: int| 0 <= k < ms.len() implies {
            let m = #[trigger] ms[k];
            contigs.contains(m.qry_contig_id) && has_contig(b, m.qry_contig_id) && m == match_of(
                m.qry_contig_id,
                a,
                b,
                i,
                j,
            )
        } by {
            if k < before.len() {
                let m = before[k];
                assert(rest.contains(m.qry_contig_id));
                let t = rest.index_of(m.qry_contig_id);
                assert(contigs[t] == m.qry_contig_id);
            } else {
                assert(contigs[contigs.len() - 1] == last);
            }
        }
        assert forall|q: u32| contigs.contains(q) && has_contig(b, q) implies ms.contains(
            #[trigger] match_of(q, a, b, i, j),
        ) by {
            if q == last {
                assert(ms[ms.len() - 1] == match_of(q, a, b, i, j));
            } else {
                let t = contigs.index_of(q);
                assert(rest[t] == q);
                assert(rest.contains(q));
                assert(before.contains(match_of(q, a, b, i, j)));
                let k = before.index_of(match_of(q, a, b, i, j));
                assert(ms[k] == match_of(q, a, b, i, j));
            }
        }
        assert forall|k: int, l: int| 0 <= k < l < ms.len() implies (#[trigger] ms[k]).qry_contig_id
            != (#[trigger] ms[l]).qry_contig_id by {
            if l < before.len() {
                assert(ms[k] == before[k] && ms[l] == before[l]);
            } else {
                let m = before[k];
                assert(ms[k] == m);
                assert(rest.contains(m.qry_contig_id));
                let t = rest.index_of(m.qry_contig_id);
                assert(contigs[t] == m.qry_contig_id);
                assert(contigs[contigs.len() - 1] == last);
            }
        }
    }
}

/// Matching is an intersection. The matches between two files are on exactly
/// the query contigs that both files align: one match for each such contig,
/// made of all the records of that contig in the first file and then all
/// those in the second. A query contig that only one of the two files aligns
/// gives no match.
pub proof fn lemma_pair_matches_are_shared(
    a: Seq<RecordView>,
    b: Seq<RecordView>,
    i: usize,
    j: usize,
)
    ensures
        matched_contigs(pair_matches(a, b, i, j)) == shared_contigs(a, b),
        forall|k: int|
            0 <= k < pair_matches(a, b, i, j).len() ==> {
                let m = #[trigger] pair_matches(a, b, i, j)[k];
                has_contig(a, m.qry_contig_id) && has_contig(b, m.qry_contig_id) && m == match_of(
                    m.qry_contig_id,
                    a,
                    b,
                    i,
                    j,
                )
            },
        forall|q: u32|
            has_contig(a, q) && has_contig(b, q) ==> pair_matches(a, b, i, j).contains(
                #[trigger] match_of(q, a, b, i, j),
            ),
        forall|q: u32|
            !(has_contig(a, q) && has_contig(b, q)) ==> !(#[trigger] matched_contigs(
                pair_matches(a, b, i, j),
            ).contains(q)),
        forall|k: int, l: int|
            0 <= k < l < pair_matches(a, b, i, j).len() ==> (#[trigger] pair_matches(
                a,
                b,
                i,
                j,
            )[k]).qry_contig_id != (#[trigger] pair_matches(a, b, i, j)[l]).qry_contig_id,
{
    let ms = pair_matches(a, b, i, j);
    lemma_contigs_of(a);
    lemma_matches_among(contigs_of(a), a, b, i, j);
    assert forall|q: u32| matched_contigs(ms).contains(q) == shared_contigs(a, b).contains(q) by {
        if matched_contigs(ms).contains(q) {
            let k = choose|k: int| 0 <= k < ms.len() && (#[trigger] ms[k]).qry_contig_id == q;
            assert(contigs_of(a).contains(ms[k].qry_contig_id));
        }
        if has_contig(a, q) && has_contig(b, q) {
            assert(contigs_of(a).contains(q));
            assert(ms.contains(match_of(q, a, b, i, j)));
            let k = ms.index_of(match_of(q, a, b, i, j));
            assert(ms[k].qry_contig_id == q);
        }
    }
    assert(matched_contigs(ms) =~= shared_contigs(a, b));
    assert forall|k: int| 0 <= k < ms.len() implies {
        let m = #[trigger] ms[k];
        has_contig(a, m.qry_contig_id) && has_contig(b, m.qry_contig_id) && m == match_of(
            m.qry_contig_id,
            a,
            b,
            i,
            j,
        )
    } by {
        assert(contigs_of(a).contains(ms[k].qry_contig_id));
    }
}

/// Matching is symmetric in content. Whichever of two files comes first, and
/// at whatever positions the two stand, the matches between them are on the
/// same query contigs.
pub proof fn lemma_pair_matches_symmetric(
    a: Seq<RecordView>,
    b: Seq<RecordView>,
    i: usize,
    j: usize,
    k: usize,
    l: usize,
)
    ensures
        matched_contigs(pair_matches(a, b, i, j)) == matched_contigs(pair_matches(b, a, k, l)),
{
    lemma_pair_matches_are_shared(a, b, i, j);
    lemma_pair_matches_are_shared(b, a, k, l);
    assert(shared_contigs(a, b) =~= shared_contigs(b, a));
}

/// Two files, either way round. The set of one file and another is matched on
/// the same query contigs as the set of the other and the one.
pub proof fn lemma_two_files_symmetric(a: Seq<RecordView>, b: Seq<RecordView>)
    ensures
        all_matches(seq![a, b]) == pair_matches(a, b, 0, 1),
        all_matches(seq![b, a]) == pair_matches(b, a, 0, 1),
        matched_contigs(all_matches(seq![a, b])) == matched_contigs(all_matches(seq![b, a])),
        matched_contigs(all_matches(seq![a, b])) == shared_contigs(a, b),
{
    lemma_two_files(a, b);
    lemma_two_files(b, a);
    lemma_pair_matches_symmetric(a, b, 0, 1, 0, 1);
    lemma_pair_matches_are_shared(a, b, 0, 1);
}

proof fn lemma_two_files(a: Seq<RecordView>, b: Seq<RecordView>)
    ensures
        all_matches(seq![a, b]) == pair_matches(a, b, 0, 1),
{
    let files = seq![a, b];
    reveal_with_fuel(pairs_below, 3);
    let pairs = file_pairs_of(2);
    assert(pairs_from(0, 2) =~= seq![(0usize, 1usize)]);
    assert(pairs_from(1, 2) =~= Seq::<(usize, usize)>::empty());
    assert(pairs =~= seq![(0usize, 1usize)]);
    assert(pairs.drop_last() =~= Seq::<(usize, usize)>::empty());
    assert(matches_of_pairs(files, pairs.drop_last()) =~= Seq::<MatchView>::empty());
    assert(pairs.last() == (0usize, 1usize));
    assert(matches_of_pairs(files, pairs) =~= pair_matches(a, b, 0, 1));
}

/// `m` is the match between the files at the positions `i` and `j` of
/// `files` on a query contig that both align.
pub open spec fn is_pair_match(m: MatchView, files: Seq<Seq<RecordView>>, i: usize, j: usize) -> bool {
    &&& i < j < files.len()
    &&& has_contig(files[i as int], m.qry_contig_id)
    &&& has_contig(files[j as int], m.qry_contig_id)
    &&& m == match_of(m.qry_contig_id, files[i as int], files[j as int], i, j)
}

/// `m` is the match between two files of `files` on a query contig that both
/// align.
pub open spec fn is_set_match(m: MatchView, files: Seq<Seq<RecordView>>) -> bool {
    exists|i: usize, j: usize| #[trigger] is_pair_match(m, files, i, j)
}

/// `m` is the match of one of the listed pairs.
pub open spec fn is_listed_match(
    m: MatchView,
    files: Seq<Seq<RecordView>>,
    pairs: Seq<(usize, usize)>,
) -> bool {
    exists|k: int| 0 <= k < pairs.len() && is_pair_match(m, files, (#[trigger] pairs[k]).0, pairs[k].1)
}

proof fn lemma_pairs_origin(files: Seq<Seq<RecordView>>, pairs: Seq<(usize, usize)>)
    requires
        forall|k: int| 0 <= k < pairs.len() ==> (#[trigger] pairs[k]).0 < pairs[k].1 < files.len(),
    ensures
        forall|t: int|
            0 <= t < matches_of_pairs(files, pairs).len() ==> is_listed_match(
                #[trigger] matches_of_pairs(files, pairs)[t],
                files,
                pairs,
            ),
    decreases pairs.len(),
{
    let ms = matches_of_pairs(files, pairs);
    if pairs.len() > 0 {
        let rest = pairs.drop_last();
        let (i, j) = pairs.last();
        let a = files[i as int];
        let b = files[j as int];
        let before = matches_of_pairs(files, rest);
        let new = pair_matches(a, b, i, j);
        let last = pairs.len() - 1;
        assert(pairs[last] == (i, j));
        assert(ms == before + new);
        lemma_pairs_origin(files, rest);
        assert forall|t: int| 0 <= t < ms.len() implies is_listed_match(
            #[trigger] ms[t],
            files,
            pairs,
        ) by {
            if t < before.len() {
                assert(ms[t] == before[t]);
                assert(is_listed_match(before[t], files, rest));
                let k = choose|k: int|
                    0 <= k < rest.len() && is_pair_match(
                        before[t],
                        files,
                        (#[trigger] rest[k]).0,
                        rest[k].1,
                    );
                assert(pairs[k] == rest[k]);
                assert(is_pair_match(ms[t], files, pairs[k].0, pairs[k].1));
            } else {
                assert(ms[t] == new[t - before.len()]);
                assert(is_pair_match(ms[t], files, pairs[last].0, pairs[last].1)) by {
                    lemma_pair_matches_are_shared(a, b, i, j);
                }
            }
        }
    }
}

proof fn lemma_pairs_complete(files: Seq<Seq<RecordView>>, pairs: Seq<(usize, usize)>, k: int, q: u32)
    requires
        0 <= k < pairs.len(),
        has_contig(files[pairs[k].0 as int], q),
        has_contig(files[pairs[k].1 as int], q),
    ensures
        matches_of_pairs(files, pairs).contains(
            match_of(q, files[pairs[k].0 as int], files[pairs[k].1 as int], pairs[k].0, pairs[k].1),
        ),
    decreases pairs.len(),
{
    let ms = matches_of_pairs(files, pairs);
    let rest = pairs.drop_last();
    let (i, j) = pairs.last();
    let a = files[i as int];
    let b = files[j as int];
    let before = matches_of_pairs(files, rest);
    let new = pair_matches(a, b, i, j);
    assert(ms == before + new);
    let m = match_of(q, files[pairs[k].0 as int], files[pairs[k].1 as int], pairs[k].0, pairs[k].1);
    if k < rest.len() {
        assert(pairs[k] == rest[k]);
        lemma_pairs_complete(files, rest, k, q);
        let t = before.index_of(m);
        assert(before[t] == m);
        assert(ms[t] == m);
    } else {
        assert(pairs[k] == (i, j));
        assert(new.contains(m)) by {
            lemma_pair_matches_are_shared(a, b, i, j);
        }
        let t = new.index_of(m);
        assert(new[t] == m);
        assert(ms[before.len() + t] == m);
    }
}

proof fn lemma_pairs_distinct(files: Seq<Seq<RecordView>>, pairs: Seq<(usize, usize)>)
    requires
        forall|k: int| 0 <= k < pairs.len() ==> (#[trigger] pairs[k]).0 < pairs[k].1 < files.len(),
        forall|k: int, l: int| 0 <= k < l < pairs.len() ==> #[trigger] pairs[k] != #[trigger] pairs[l],
    ensures
        forall|t: int, u: int|
            0 <= t < u < matches_of_pairs(files, pairs).len() ==> {
                let m = #[trigger] matches_of_pairs(files, pairs)[t];
                let o = #[trigger] matches_of_pairs(files, pairs)[u];
                m.qry_contig_id != o.qry_contig_id || m.file_indices != o.file_indices
            },
    decreases pairs.len(),
{
    let ms = matches_of_pairs(files, pairs);
    if pairs.len() > 0 {
        let rest = pairs.drop_last();
        let (i, j) = pairs.last();
        let a = files[i as int];
        let b = files[j as int];
        let before = matches_of_pairs(files, rest);
        let new = pair_matches(a, b, i, j);
        let last = pairs.len() - 1;
        assert(pairs[last] == (i, j));
        assert(ms == before + new);
        lemma_pairs_distinct(files, rest);
        lemma_pairs_origin(files, rest);
        assert forall|t: int, u: int| 0 <= t < u < ms.len() implies {
            let m = #[trigger] ms[t];
            let o = #[trigger] ms[u];
            m.qry_contig_id != o.qry_contig_id || m.file_indices != o.file_indices
        } by {
            if u < before.len() {
                assert(ms[t] == before[t] && ms[u] == before[u]);
            } else if t < before.len() {
                assert(ms[t] == before[t]);
                assert(is_listed_match(before[t], files, rest));
                let k = choose|k: int|
                    0 <= k < rest.len() && is_pair_match(
                        before[t],
                        files,
                        (#[trigger] rest[k]).0,
                        rest[k].1,
                    );
                assert(pairs[k] == rest[k]);
                assert(pairs[k] != pairs[last]);
                let o = new[u - before.len()];
                assert(ms[u] == o);
                assert(o.file_indices == seq![i, j]) by {
                    lemma_pair_matches_are_shared(a, b, i, j);
                }
                assert(ms[t].file_indices == seq![rest[k].0, rest[k].1]);
                assert(seq![rest[k].0, rest[k].1][0] == rest[k].0);
                assert(seq![rest[k].0, rest[k].1][1] == rest[k].1);
                assert(seq![i, j][0] == i);
                assert(seq![i, j][1] == j);
            } else {
                assert(ms[t] == new[t - before.len()]);
                assert(ms[u] == new[u - before.len()]);
                assert(new[t - before.len()].qry_contig_id != new[u - before.len()].qry_contig_id) by {
                    lemma_pair_matches_are_shared(a, b, i, j);
                }
            }
        }
    }
}

/// What the engine produces for a set of files. Every match is the match
/// between two files of the set, the one at the lower position first, on a
/// query contig that both align; every such pair and contig has its match; and
/// no pair has two matches on one contig. So a query contig that three files
/// align gives three matches of two files each, never one of three.
pub proof fn lemma_all_matches(files: Seq<Seq<RecordView>>)
    requires
        files.len() <= usize::MAX,
    ensures
        forall|t: int|
            0 <= t < all_matches(files).len() ==> is_set_match(
                #[trigger] all_matches(files)[t],
                files,
            ),
        forall|i: usize, j: usize, q: u32|
            i < j < files.len() && has_contig(files[i as int], q) && has_contig(files[j as int], q)
                ==> all_matches(files).contains(
                #[trigger] match_of(q, files[i as int], files[j as int], i, j),
            ),
        forall|t: int, u: int|
            0 <= t < u < all_matches(files).len() ==> {
                let m = #[trigger] all_matches(files)[t];
                let o = #[trigger] all_matches(files)[u];
                m.qry_contig_id != o.qry_contig_id || m.file_indices != o.file_indices
            },
        files.len() < 2 ==> all_matches(files).len() == 0,
{
    let n = files.len() as usize;
    let pairs = file_pairs_of(n);
    let ms = all_matches(files);
    lemma_file_pairs(n);
    lemma_pairs_origin(files, pairs);
    lemma_pairs_distinct(files, pairs);
    assert forall|t: int| 0 <= t < ms.len() implies is_set_match(#[trigger] ms[t], files) by {
        assert(is_listed_match(ms[t], files, pairs));
        let k = choose|k: int|
            0 <= k < pairs.len() && is_pair_match(ms[t], files, (#[trigger] pairs[k]).0, pairs[k].1);
        assert(is_pair_match(ms[t], files, pairs[k].0, pairs[k].1));
    }
    assert forall|i: usize, j: usize, q: u32|
        i < j < files.len() && has_contig(files[i as int], q) && has_contig(
            files[j as int],
            q,
        ) implies ms.contains(#[trigger] match_of(q, files[i as int], files[j as int], i, j)) by {
        assert(pairs.contains((i, j)));
        let k = pairs.index_of((i, j));
        assert(pairs[k] == (i, j));
        lemma_pairs_complete(files, pairs, k, q);
    }
}

} // verus!
