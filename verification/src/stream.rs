//! The stream of matches: each match encoded and framed.

use crate::frame::{
    decode_stream, fits_frame, frame_of, frames_in, lemma_frames_round_trip, lemma_stream_push,
    payload_views, stream_of, write_frame,
};
use crate::record::{match_views, MatchView, XmapMatch};
use crate::wire::{decode_match, encode_match, lemma_match_round_trip, match_bytes, match_in, wire_match};
use vstd::prelude::*;

verus! {

/// The capacity, in bytes, of the pipe between the framer and the reader of
/// the stream.
pub const PIPE_CAPACITY: usize = 131072;

/// The match can go into a stream: it can be encoded, and its encoding fits a
/// frame.
pub open spec fn streamable(m: MatchView) -> bool {
    wire_match(m) && fits_frame(match_bytes(m))
}

/// The encodings of the matches.
pub open spec fn match_payloads(ms: Seq<MatchView>) -> Seq<Seq<u8>> {
    Seq::new(ms.len(), |i: int| match_bytes(ms[i]))
}

/// The stream of the matches.
pub open spec fn match_stream(ms: Seq<MatchView>) -> Seq<u8> {
    stream_of(match_payloads(ms))
}

/// The matches that the payloads encode, if each payload encodes a match.
pub open spec fn matches_of(payloads: Seq<Seq<u8>>) -> Option<Seq<MatchView>> {
    if forall|i: int| 0 <= i < payloads.len() ==> match_in(#[trigger] payloads[i]) is Some {
        Some(Seq::new(payloads.len(), |i: int| match_in(payloads[i])->0))
    } else {
        None
    }
}

/// The matches in a stream; `None` where the stream breaks off within a
/// frame or a frame does not hold the encoding of a match.
pub open spec fn matches_in(stream: Seq<u8>) -> Option<Seq<MatchView>> {
    match frames_in(stream) {
        Some(payloads) => matches_of(payloads),
        None => None,
    }
}

/// Stream round trip. Matches that are encoded and framed into a stream and
/// read back from it come out as they went in: as many, in the same order,
/// each field for field. No match at all makes the empty stream, which reads
/// back as no match.
pub proof fn lemma_stream_round_trip(ms: Seq<MatchView>)
    requires
        forall|i: int| 0 <= i < ms.len() ==> streamable(#[trigger] ms[i]),
    ensures
        matches_in(match_stream(ms)) == Some(ms),
        ms.len() == 0 ==> match_stream(ms).len() == 0,
{
    let payloads = match_payloads(ms);
    assert forall|i: int| 0 <= i < payloads.len() implies fits_frame(#[trigger] payloads[i]) by {
        assert(streamable(ms[i]));
    }
    lemma_frames_round_trip(payloads);
    assert forall|i: int| 0 <= i < payloads.len() implies match_in(#[trigger] payloads[i]) == Some(
        ms[i],
    ) by {
        assert(streamable(ms[i]));
        lemma_match_round_trip(ms[i]);
    }
    assert(matches_of(payloads)->0 =~= ms);
}

/// The frame of the encoding of a match, if the match can go into a stream.
pub fn frame_match(m: &XmapMatch) -> (frame: Option<Vec<u8>>)
    ensures
        frame is Some <==> streamable(m@),
        frame matches Some(f) ==> f@ == frame_of(match_bytes(m@)),
{
    let payload = match encode_match(m) {
        Some(p) => p,
        None => {
            return None;
        },
    };
    let mut out: Vec<u8> = Vec::new();
    if write_frame(payload.as_slice(), &mut out) {
        assert(out@ =~= frame_of(match_bytes(m@)));
        Some(out)
    } else {
        None
    }
}

/// The stream of the matches, if each of them can go into a stream.
pub fn encode_matches(matches: &Vec<XmapMatch>) -> (stream: Option<Vec<u8>>)
    ensures
        stream is Some <==> forall|i: int|
            0 <= i < matches@.len() ==> streamable((#[trigger] matches@[i])@),
        stream matches Some(s) ==> s@ == match_stream(match_views(matches@)),
{
    let mut out: Vec<u8> = Vec::new();
    let n = matches.len();
    let mut k: usize = 0;
    let ghost all = match_payloads(match_views(matches@));
    assert(all.take(0) =~= Seq::<Seq<u8>>::empty());
    while k < n
        invariant
            n == matches@.len(),
            0 <= k <= n,
            all == match_payloads(match_views(matches@)),
            out@ == stream_of(all.take(k as int)),
            forall|i: int| 0 <= i < k ==> streamable((#[trigger] matches@[i])@),
        decreases n - k,
    {
        let payload = match encode_match(&matches[k]) {
            Some(p) => p,
            None => {
                return None;
            },
        };
        if !write_frame(payload.as_slice(), &mut out) {
            return None;
        }
        proof {
            assert(all[k as int] == payload@);
            lemma_stream_push(all.take(k as int), all[k as int]);
            assert(all.take(k as int).push(all[k as int]) =~= all.take(k + 1));
        }
        k = k + 1;
    }
    assert(all.take(n as int) =~= all);
    Some(out)
}

/// The matches in a stream; `None` where the stream breaks off within a
/// frame or a frame does not hold the encoding of a match.
pub fn decode_matches(stream: &[u8]) -> (matches: Option<Vec<XmapMatch>>)
    ensures
        matches is Some <==> matches_in(stream@) is Some,
        matches matches Some(ms) ==> matches_in(stream@) == Some(match_views(ms@)),
{
    let payloads = match decode_stream(stream) {
        Some(p) => p,
        None => {
            return None;
        },
    };
    let ghost ps = payload_views(payloads@);
    let mut out: Vec<XmapMatch> = Vec::new();
    let n = payloads.len();
    let mut k: usize = 0;
    while k < n
        invariant
            n == payloads@.len(),
            ps == payload_views(payloads@),
            frames_in(stream@) == Some(ps),
            0 <= k <= n,
            out@.len() == k,
            forall|i: int| 0 <= i < k ==> match_in(#[trigger] ps[i]) == Some(out@[i]@),
        decreases n - k,
    {
        let m = match decode_match(payloads[k].as_slice()) {
            Some(m) => m,
            None => {
                assert(match_in(ps[k as int]) is None);
                return None;
            },
        };
        out.push(m);
        k = k + 1;
    }
    proof {
        assert forall|i: int| 0 <= i < ps.len() implies match_in(#[trigger] ps[i]) is Some by {
            assert(match_in(ps[i]) == Some(out@[i]@));
        }
        assert(matches_of(ps)->0 =~= match_views(out@));
    }
    Some(out)
}

} // verus!
