//! A request: the files that a client uploads for comparison.
//!
//! The uploads are taken up one after the other. Each must be text; it is
//! parsed unless the cache knows its hash. When all are parsed, the index of
//! every upload but the first is put into the cache, and the uploads become
//! a file set for the match engine.

use crate::cache::{content_hash, hash_content, XmapCache};
use crate::file::{ParsedFile, RecordTable};
use crate::index::ContigIndex;
use crate::matching::XmapFileSet;
use crate::parse::{first_failure, parse_of, ParseError};
use crate::record::{share, RecordView};
use crate::text::lines_of;
use std::sync::Arc;
use vstd::prelude::*;
use vstd::string::StringSliceAdditionalSpecFns;
use vstd::utf8::{decode_utf8, valid_utf8};

verus! {

/// The largest number of files that one request may compare.
pub const MAX_FILES: usize = 3;

/// Why a request is refused.
#[derive(Clone, Copy, Debug, PartialEq, Eq, Structural)]
pub enum RequestError {
    /// No file was uploaded, or more than [`MAX_FILES`].
    FileCount { given: usize },
    /// The upload at this position is not text.
    NotText { file: usize },
    /// The upload at this position could not be parsed.
    Parse { file: usize, error: ParseError },
}

/// What a request compares: the file set, and the content hash of each of
/// its files.
pub struct Comparison {
    pub fileset: Arc<XmapFileSet>,
    pub hashes: Vec<u64>,
}

/// The text that the bytes of an upload encode.
pub open spec fn upload_text(bytes: Seq<u8>) -> Seq<char> {
    decode_utf8(bytes)
}

/// The content hash of an upload.
pub open spec fn upload_hash(bytes: Seq<u8>) -> u64 {
    content_hash(upload_text(bytes))
}

/// Some upload before position `i` has the hash `hash`.
pub open spec fn seen(uploads: Seq<Seq<u8>>, i: int, hash: u64) -> bool {
    exists|j: int| 0 <= j < i && j < uploads.len() && upload_hash(#[trigger] uploads[j]) == hash
}

/// The hash of the upload at position `i` is known when its turn comes: the
/// cache held it before the request, or an earlier upload has it.
pub open spec fn known(before: Map<u64, ParsedFile>, uploads: Seq<Seq<u8>>, i: int) -> bool {
    before.contains_key(upload_hash(uploads[i])) || seen(uploads, i, upload_hash(uploads[i]))
}

/// Every upload before position `i` is text.
pub open spec fn all_text(uploads: Seq<Seq<u8>>, i: int) -> bool {
    forall|j: int| 0 <= j < i ==> valid_utf8(#[trigger] uploads[j])
}

/// Why the upload at position `i`, a text, cannot be taken up, if it cannot:
/// its hash is not known and it does not parse.
pub open spec fn parse_failure(
    before: Map<u64, ParsedFile>,
    uploads: Seq<Seq<u8>>,
    i: int,
) -> Option<ParseError> {
    if known(before, uploads, i) {
        None
    } else {
        first_failure(lines_of(upload_text(uploads[i])))
    }
}

/// The uploads before position `i` can all be taken up.
pub open spec fn in_order(before: Map<u64, ParsedFile>, uploads: Seq<Seq<u8>>, i: int) -> bool {
    forall|j: int| 0 <= j < i ==> (#[trigger] parse_failure(before, uploads, j)) is None
}

/// The parsed files of the cache after the first `done` uploads were taken
/// up. What the cache held before, it holds unchanged. Besides, it holds a
/// parsed file under the hash of each of these uploads: where the hash was
/// not known at the upload's turn, the parse of that upload.
pub open spec fn taken_up(
    before: Map<u64, ParsedFile>,
    uploads: Seq<Seq<u8>>,
    done: int,
    after: Map<u64, ParsedFile>,
) -> bool {
    &&& forall|h: u64| #[trigger]
        after.contains_key(h) <==> before.contains_key(h) || seen(uploads, done, h)
    &&& forall|h: u64| before.contains_key(h) ==> #[trigger] after[h] == before[h]
    &&& forall|j: int|
        0 <= j < done && !known(before, uploads, j) ==> parse_of(
            upload_text(#[trigger] uploads[j]),
            after[upload_hash(uploads[j])],
        )
}

/// `core::str::from_utf8`: the bytes as text, where they are UTF-8, and
/// `None` where they are not. The text has the given bytes.
#[verifier::external_body]
fn as_text(bytes: &[u8]) -> (text: Option<&str>)
    ensures
        text is Some <==> valid_utf8(bytes@),
        text matches Some(s) ==> s.spec_bytes() == bytes@,
{
    match std::str::from_utf8(bytes) {
        Ok(s) => Some(s),
        Err(_) => None,
    }
}

/// The byte sequences that the uploads hold.
pub open spec fn upload_views(uploads: Seq<Vec<u8>>) -> Seq<Seq<u8>> {
    Seq::new(uploads.len(), |i: int| uploads[i]@)
}

/// What refusing the uploads with the error `e` says of them and does to the
/// cache.
///
/// Where some upload is not text, the error names the first such upload, and
/// the cache is as it was: nothing of the request is kept. Where all are
/// text, the error is the parse error of the first upload that cannot be
/// taken up; the uploads before that one stay parsed in the cache, and the
/// indices and matches of the cache are as they were.
pub open spec fn refused(
    before: XmapCache,
    uploads: Seq<Seq<u8>>,
    after: XmapCache,
    e: RequestError,
) -> bool {
    let n = uploads.len() as int;
    if all_text(uploads, n) {
        &&& after.indexed() == before.indexed()
        &&& after.matches() == before.matches()
        &&& exists|i: int|
            0 <= i < n && in_order(before.parsed(), uploads, i) && (#[trigger] parse_failure(
                before.parsed(),
                uploads,
                i,
            )) is Some && e == (RequestError::Parse {
                file: i as usize,
                error: parse_failure(before.parsed(), uploads, i)->0,
            }) && taken_up(before.parsed(), uploads, i, after.parsed())
    } else {
        &&& after == before
        &&& exists|i: int|
            0 <= i < n && all_text(uploads, i) && !valid_utf8(#[trigger] uploads[i]) && e == (
            RequestError::NotText { file: i as usize })
    }
}

/// Takes up the uploads. First every upload is tested for being text, before
/// any is parsed: an upload that is not text refuses the request and leaves
/// the cache as it was. Then the uploads are taken up in order: each is
/// parsed, or fetched from the cache, until one does not parse.
///
/// Returns the records of each upload with its content hash, or why the
/// request is refused.
pub fn parse_uploads(cache: &mut XmapCache, uploads: &Vec<Vec<u8>>) -> (parsed: Result<
    (Vec<Arc<RecordTable>>, Vec<u64>),
    RequestError,
>)
    requires
        old(cache).wf(),
    ensures
        final(cache).wf(),
        final(cache).indexed() == old(cache).indexed(),
        final(cache).matches() == old(cache).matches(),
        match parsed {
            Ok((files, hashes)) => {
                let all = upload_views(uploads@);
                &&& all_text(all, all.len() as int)
                &&& in_order(old(cache).parsed(), all, all.len() as int)
                &&& taken_up(old(cache).parsed(), all, all.len() as int, final(cache).parsed())
                &&& files@.len() == all.len()
                &&& hashes@.len() == all.len()
                &&& forall|i: int|
                    0 <= i < all.len() ==> (#[trigger] hashes@[i]) == upload_hash(all[i])
                &&& forall|i: int|
                    0 <= i < all.len() ==> (#[trigger] files@[i]) == final(cache).parsed()[upload_hash(
                        all[i],
                    )].0 && files@[i].wf()
            },
            Err(e) => refused(*old(cache), upload_views(uploads@), *final(cache), e),
        },
{
    let ghost before = cache.parsed();
    let ghost all = upload_views(uploads@);
    let n = uploads.len();
    let mut texts: Vec<&str> = Vec::new();
    let mut t: usize = 0;
    while t < n
        invariant
            n == uploads@.len(),
            all == upload_views(uploads@),
            all.len() == n,
            0 <= t <= n,
            cache.wf(),
            *cache == *old(cache),
            all_text(all, t as int),
            texts@.len() == t,
            forall|k: int| 0 <= k < t ==> (#[trigger] texts@[k])@ == upload_text(all[k]),
        decreases n - t,
    {
        let ghost bytes = all[t as int];
        assert(uploads@[t as int]@ == bytes);
        match as_text(uploads[t].as_slice()) {
            Some(text) => {
                proof {
                    vstd::utf8::encode_utf8_decode_utf8(text@);
                    assert(text@ == upload_text(bytes));
                }
                texts.push(text);
            },
            None => {
                proof {
                    assert(!valid_utf8(all[t as int]));
                    assert(!all_text(all, n as int));
                }
                return Err(RequestError::NotText { file: t });
            },
        }
        t = t + 1;
    }
    let mut files: Vec<Arc<RecordTable>> = Vec::new();
    let mut hashes: Vec<u64> = Vec::new();
    let mut i: usize = 0;
    while i < n
        invariant
            n == uploads@.len(),
            all == upload_views(uploads@),
            all.len() == n,
            0 <= i <= n,
            all_text(all, n as int),
            texts@.len() == n,
            forall|k: int| 0 <= k < n ==> (#[trigger] texts@[k])@ == upload_text(all[k]),
            cache.wf(),
            before == old(cache).parsed(),
            cache.indexed() == old(cache).indexed(),
            cache.matches() == old(cache).matches(),
            in_order(before, all, i as int),
            taken_up(before, all, i as int, cache.parsed()),
            files@.len() == i,
            hashes@.len() == i,
            forall|k: int| 0 <= k < i ==> (#[trigger] hashes@[k]) == upload_hash(all[k]),
            forall|k: int|
                0 <= k < i ==> (#[trigger] files@[k]) == cache.parsed()[upload_hash(all[k])].0
                    && files@[k].wf(),
        decreases n - i,
    {
        let ghost bytes = all[i as int];
        let ghost now = cache.parsed();
        let text = texts[i];
        assert(text@ == upload_text(bytes));
        let hash = hash_content(text);
        proof {
            assert(now.contains_key(hash) <==> known(before, all, i as int));
        }
        let (records, _lengths) = match cache.get_or_parse(hash, text) {
            Ok(file) => file,
            Err(error) => {
                proof {
                    assert(cache.parsed() == now);
                    assert(parse_failure(before, all, i as int) == Some(error));
                }
                return Err(RequestError::Parse { file: i, error });
            },
        };
        proof {
            let next = cache.parsed();
            let file = next[hash];
            assert(next.contains_key(hash) && file.0 == records);
            assert forall|h: u64| #[trigger]
                next.contains_key(h) <==> before.contains_key(h) || seen(all, i + 1, h) by {
                if seen(all, i + 1, h) {
                    let j = choose|j: int|
                        0 <= j < i + 1 && j < all.len() && upload_hash(#[trigger] all[j]) == h;
                    if j < i {
                        assert(seen(all, i as int, h));
                    }
                }
                if seen(all, i as int, h) {
                    let j = choose|j: int|
                        0 <= j < i && j < all.len() && upload_hash(#[trigger] all[j]) == h;
                    assert(upload_hash(all[j]) == h);
                    assert(seen(all, i + 1, h));
                }
                if h == hash {
                    assert(upload_hash(all[i as int]) == h);
                    assert(seen(all, i + 1, h));
                }
                assert(now.contains_key(h) <==> before.contains_key(h) || seen(all, i as int, h));
            }
            assert forall|h: u64| before.contains_key(h) implies #[trigger] next[h] == before[h] by {
                assert(now.contains_key(h));
                assert(now[h] == before[h]);
            }
            assert forall|j: int| 0 <= j < i + 1 && !known(before, all, j) implies parse_of(
                upload_text(#[trigger] all[j]),
                next[upload_hash(all[j])],
            ) by {
                if j < i {
                    assert(seen(all, i as int, upload_hash(all[j])));
                    assert(now.contains_key(upload_hash(all[j])));
                    assert(next[upload_hash(all[j])] == now[upload_hash(all[j])]);
                }
            }
            assert forall|k: int| 0 <= k < i implies cache.parsed()[upload_hash(all[k])]
                == now[upload_hash(all[k])] by {
                assert(seen(all, i as int, upload_hash(all[k])));
                assert(now.contains_key(upload_hash(all[k])));
            }
            assert forall|j: int| 0 <= j < i + 1 implies (#[trigger] parse_failure(
                before,
                all,
                j,
            )) is None by {
                if j < i {
                    assert(parse_failure(before, all, j) is None);
                }
            }
        }
        files.push(records);
        hashes.push(hash);
        i = i + 1;
    }
    Ok((files, hashes))
}

/// Some upload from the second on, and before position `i`, has the hash
/// `hash`.
pub open spec fn seen_later(hashes: Seq<u64>, i: int, hash: u64) -> bool {
    exists|j: int| 1 <= j < i && j < hashes.len() && #[trigger] hashes[j] == hash
}

/// The indices of the cache after the uploads were indexed. What the cache
/// held before, it holds unchanged. Besides, it holds an index under the hash
/// of every upload but the first: where the hash was not known at the
/// upload's turn, the index of that upload's records.
pub open spec fn indexed_up(
    before: Map<u64, Arc<ContigIndex>>,
    hashes: Seq<u64>,
    files: Seq<Seq<RecordView>>,
    after: Map<u64, Arc<ContigIndex>>,
) -> bool {
    &&& forall|h: u64| #[trigger]
        after.contains_key(h) <==> before.contains_key(h) || seen_later(hashes, hashes.len() as int, h)
    &&& forall|h: u64| before.contains_key(h) ==> #[trigger] after[h] == before[h]
    &&& forall|j: int|
        1 <= j < hashes.len() && !before.contains_key(#[trigger] hashes[j]) && !seen_later(
            hashes,
            j,
            hashes[j],
        ) ==> after[hashes[j]].indexes(files[j])
}

/// The records of each of the files.
pub open spec fn entries_of_files(files: Seq<Arc<RecordTable>>) -> Seq<Seq<RecordView>> {
    Seq::new(files.len(), |i: int| files[i].entries())
}

/// Puts the index of every upload but the first into the cache, unless the
/// cache holds an index under the upload's hash.
pub fn index_uploads(cache: &mut XmapCache, files: &Vec<Arc<RecordTable>>, hashes: &Vec<u64>)
    requires
        old(cache).wf(),
        files@.len() == hashes@.len(),
        forall|i: int| 0 <= i < files@.len() ==> (#[trigger] files@[i]).wf(),
    ensures
        final(cache).wf(),
        final(cache).parsed() == old(cache).parsed(),
        final(cache).matches() == old(cache).matches(),
        indexed_up(
            old(cache).indexed(),
            hashes@,
            entries_of_files(files@),
            final(cache).indexed(),
        ),
{
    let ghost before = cache.indexed();
    let ghost entries = entries_of_files(files@);
    let n = files.len();
    if n < 2 {
        assert(indexed_up(before, hashes@, entries, cache.indexed()));
        return ;
    }
    let mut i: usize = 1;
    while i < n
        invariant
            n == files@.len(),
            n == hashes@.len(),
            entries == entries_of_files(files@),
            forall|k: int| 0 <= k < files@.len() ==> (#[trigger] files@[k]).wf(),
            1 <= i <= n,
            cache.wf(),
            before == old(cache).indexed(),
            cache.parsed() == old(cache).parsed(),
            cache.matches() == old(cache).matches(),
            forall|h: u64| #[trigger]
                cache.indexed().contains_key(h) <==> before.contains_key(h) || seen_later(
                    hashes@,
                    i as int,
                    h,
                ),
            forall|h: u64| before.contains_key(h) ==> #[trigger] cache.indexed()[h] == before[h],
            forall|j: int|
                1 <= j < i && !before.contains_key(#[trigger] hashes@[j]) && !seen_later(
                    hashes@,
                    j,
                    hashes@[j],
                ) ==> cache.indexed()[hashes@[j]].indexes(entries[j]),
        decreases n - i,
    {
        let ghost now = cache.indexed();
        let hash = hashes[i];
        let _index = cache.get_or_build_index(hash, share(&files[i]));
        proof {
            let next = cache.indexed();
            assert(files@[i as int].entries() == entries[i as int]);
            assert forall|h: u64| #[trigger]
                next.contains_key(h) <==> before.contains_key(h) || seen_later(hashes@, i + 1, h) by {
                if seen_later(hashes@, i + 1, h) {
                    let j = choose|j: int|
                        1 <= j < i + 1 && j < hashes@.len() && #[trigger] hashes@[j] == h;
                    if j < i {
                        assert(seen_later(hashes@, i as int, h));
                    }
                }
                if seen_later(hashes@, i as int, h) {
                    let j = choose|j: int|
                        1 <= j < i && j < hashes@.len() && #[trigger] hashes@[j] == h;
                    assert(hashes@[j] == h);
                    assert(seen_later(hashes@, i + 1, h));
                }
                if h == hash {
                    assert(hashes@[i as int] == h);
                    assert(seen_later(hashes@, i + 1, h));
                }
                assert(now.contains_key(h) <==> before.contains_key(h) || seen_later(
                    hashes@,
                    i as int,
                    h,
                ));
            }
            assert forall|h: u64| before.contains_key(h) implies #[trigger] next[h] == before[h] by {
                assert(now.contains_key(h));
                assert(now[h] == before[h]);
            }
            assert forall|j: int|
                1 <= j < i + 1 && !before.contains_key(#[trigger] hashes@[j]) && !seen_later(
                    hashes@,
                    j,
                    hashes@[j],
                ) implies next[hashes@[j]].indexes(entries[j]) by {
                if j < i {
                    assert(seen_later(hashes@, i as int, hashes@[j]));
                    assert(now.contains_key(hashes@[j]));
                    assert(next[hashes@[j]] == now[hashes@[j]]);
                } else {
                    assert(now.contains_key(hash) <==> before.contains_key(hash) || seen_later(
                        hashes@,
                        i as int,
                        hash,
                    ));
                }
            }
        }
        i = i + 1;
    }
}

/// What taking up a request does to the cache and returns.
///
/// A request with no upload, or with more than [`MAX_FILES`], is refused and
/// changes nothing. A request with one upload has nothing to compare: it
/// returns `None` and changes nothing, and the upload is not looked at.
/// Otherwise the uploads are taken up. Where one is not text, or one cannot
/// be parsed, the request is refused as [`refused`] says: an upload that is
/// not text leaves nothing of the request in the cache. Where all are in
/// order, the request returns their file set and hashes; the file at each position
/// is the parsed file that the cache holds under the hash of the upload at
/// that position, and the cache holds the index of every upload but the
/// first. The cached matches stay as they are.
pub open spec fn taken(
    before: XmapCache,
    uploads: Seq<Seq<u8>>,
    after: XmapCache,
    out: Result<Option<Comparison>, RequestError>,
) -> bool {
    let n = uploads.len() as int;
    if n == 0 || n > MAX_FILES {
        out == Err::<Option<Comparison>, RequestError>(RequestError::FileCount { given: n as usize })
            && after == before
    } else if n == 1 {
        out == Ok::<Option<Comparison>, RequestError>(None) && after == before
    } else {
        match out {
            Ok(Some(c)) => {
                &&& after.matches() == before.matches()
                &&& all_text(uploads, n)
                &&& in_order(before.parsed(), uploads, n)
                &&& taken_up(before.parsed(), uploads, n, after.parsed())
                &&& c.fileset.wf()
                &&& c.fileset.files@.len() == n
                &&& c.hashes@.len() == n
                &&& forall|i: int| 0 <= i < n ==> (#[trigger] c.hashes@[i]) == upload_hash(uploads[i])
                &&& forall|i: int|
                    0 <= i < n ==> (#[trigger] c.fileset.files@[i]) == after.parsed()[upload_hash(
                        uploads[i],
                    )].0
                &&& indexed_up(before.indexed(), c.hashes@, c.fileset@, after.indexed())
            },
            Ok(None) => false,
            Err(e) => refused(before, uploads, after, e),
        }
    }
}

/// Takes up a request: the uploads of a client, in the order in which they
/// came.
pub fn prepare(cache: &mut XmapCache, uploads: &Vec<Vec<u8>>) -> (out: Result<
    Option<Comparison>,
    RequestError,
>)
    requires
        old(cache).wf(),
    ensures
        final(cache).wf(),
        taken(*old(cache), upload_views(uploads@), *final(cache), out),
{
    let n = uploads.len();
    if n == 0 || n > MAX_FILES {
        return Err(RequestError::FileCount { given: n });
    }
    if n == 1 {
        return Ok(None);
    }
    let (files, hashes) = match parse_uploads(cache, uploads) {
        Ok(parsed) => parsed,
        Err(e) => {
            return Err(e);
        },
    };
    index_uploads(cache, &files, &hashes);
    let ghost listed = files@;
    let fileset = XmapFileSet::new(files);
    proof {
        assert(fileset@ =~= entries_of_files(listed));
    }
    Ok(Some(Comparison { fileset: Arc::new(fileset), hashes }))
}

} // verus!
