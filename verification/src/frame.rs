//! The framing of the output stream.
//!
//! A stream is a run of frames. A frame is the length of its payload, as four
//! bytes with the lowest first, and then the payload. Nothing ends a stream
//! but its end.

use vstd::prelude::*;

verus! {

/// The four bytes of `n`, lowest first.
#[verifier::opaque]
pub open spec fn le32(n: u32) -> Seq<u8> {
    seq![
        (n & 0xff) as u8,
        ((n >> 8) & 0xff) as u8,
        ((n >> 16) & 0xff) as u8,
        ((n >> 24) & 0xff) as u8,
    ]
}

/// The number whose four bytes, lowest first, stand at the start of `b`.
#[verifier::opaque]
pub open spec fn from_le32(b: Seq<u8>) -> u32 {
    (b[0] as u32) | ((b[1] as u32) << 8) | ((b[2] as u32) << 16) | ((b[3] as u32) << 24)
}

/// Reading the four bytes of a number gives the number back, whatever
/// follows them.
pub proof fn lemma_le32(n: u32, rest: Seq<u8>)
    ensures
        le32(n).len() == 4,
        from_le32(le32(n) + rest) == n,
{
    reveal(le32);
    reveal(from_le32);
    let all = le32(n) + rest;
    assert(all[0] == le32(n)[0] && all[1] == le32(n)[1] && all[2] == le32(n)[2] && all[3] == le32(
        n,
    )[3]);
    let b0 = (n & 0xff) as u8;
    let b1 = ((n >> 8) & 0xff) as u8;
    let b2 = ((n >> 16) & 0xff) as u8;
    let b3 = ((n >> 24) & 0xff) as u8;
    assert((b0 as u32) | ((b1 as u32) << 8) | ((b2 as u32) << 16) | ((b3 as u32) << 24) == n)
        by (bit_vector)
        requires
            b0 == (n & 0xff) as u8,
            b1 == ((n >> 8) & 0xff) as u8,
            b2 == ((n >> 16) & 0xff) as u8,
            b3 == ((n >> 24) & 0xff) as u8,
    ;
}

/// The payload is short enough for its length to stand in four bytes.
pub open spec fn fits_frame(payload: Seq<u8>) -> bool {
    payload.len() <= u32::MAX
}

/// The frame of a payload.
pub open spec fn frame_of(payload: Seq<u8>) -> Seq<u8> {
    le32(payload.len() as u32) + payload
}

/// The stream of the payloads: their frames, one after the other.
pub open spec fn stream_of(payloads: Seq<Seq<u8>>) -> Seq<u8>
    decreases payloads.len(),
{
    if payloads.len() == 0 {
        Seq::empty()
    } else {
        frame_of(payloads.first()) + stream_of(payloads.drop_first())
    }
}

/// The payloads of the frames of a stream; `None` where the stream breaks off
/// within a frame.
pub open spec fn frames_in(stream: Seq<u8>) -> Option<Seq<Seq<u8>>>
    decreases stream.len(),
{
    if stream.len() == 0 {
        Some(Seq::empty())
    } else if stream.len() < 4 {
        None
    } else {
        let n = from_le32(stream) as int;
        if stream.len() < 4 + n {
            None
        } else {
            match frames_in(stream.skip(4 + n)) {
                Some(rest) => Some(seq![stream.subrange(4, 4 + n)] + rest),
                None => None,
            }
        }
    }
}

/// The stream of some payloads and one more is the stream of the former
/// followed by the frame of the latter.
pub proof fn lemma_stream_push(payloads: Seq<Seq<u8>>, payload: Seq<u8>)
    ensures
        stream_of(payloads.push(payload)) == stream_of(payloads) + frame_of(payload),
    decreases payloads.len(),
{
    let all = payloads.push(payload);
    if payloads.len() == 0 {
        assert(all.drop_first() =~= Seq::<Seq<u8>>::empty());
        assert(stream_of(all.drop_first()) =~= Seq::<u8>::empty());
        assert(all.first() == payload);
        assert(stream_of(all) =~= frame_of(payload));
        assert(stream_of(payloads) + frame_of(payload) =~= frame_of(payload));
    } else {
        assert(all.drop_first() =~= payloads.drop_first().push(payload));
        lemma_stream_push(payloads.drop_first(), payload);
        assert(frame_of(payloads.first()) + (stream_of(payloads.drop_first()) + frame_of(payload))
            =~= (frame_of(payloads.first()) + stream_of(payloads.drop_first())) + frame_of(
            payload,
        ));
    }
}

/// Framing round trip. Payloads that are framed into a stream and read back
/// from it come out as they went in: as many, in the same order, byte for
/// byte. No payload at all makes the empty stream, which reads back as no
/// payload.
pub proof fn lemma_frames_round_trip(payloads: Seq<Seq<u8>>)
    requires
        forall|i: int| 0 <= i < payloads.len() ==> fits_frame(#[trigger] payloads[i]),
    ensures
        frames_in(stream_of(payloads)) == Some(payloads),
        payloads.len() == 0 ==> stream_of(payloads).len() == 0,
    decreases payloads.len(),
{
    if payloads.len() > 0 {
        let first = payloads.first();
        let rest = payloads.drop_first();
        let stream = stream_of(payloads);
        let n = first.len() as u32;
        assert(fits_frame(payloads[0]));
        lemma_le32(n, first + stream_of(rest));
        assert(stream =~= le32(n) + (first + stream_of(rest)));
        assert(stream.subrange(4, 4 + n) =~= first);
        assert(stream.skip(4 + n) =~= stream_of(rest));
        assert forall|i: int| 0 <= i < rest.len() implies fits_frame(#[trigger] rest[i]) by {
            assert(rest[i] == payloads[i + 1]);
        }
        lemma_frames_round_trip(rest);
        assert(seq![first] + rest =~= payloads);
    }
}

/// The four bytes of `n`, lowest first, appended to `out`.
pub fn put_u32(n: u32, out: &mut Vec<u8>)
    ensures
        final(out)@ == old(out)@ + le32(n),
{
    let ghost before = out@;
    out.push((n & 0xff) as u8);
    out.push(((n >> 8) & 0xff) as u8);
    out.push(((n >> 16) & 0xff) as u8);
    out.push(((n >> 24) & 0xff) as u8);
    proof {
        reveal(le32);
        assert(out@ =~= before + le32(n));
    }
}

/// The number whose four bytes, lowest first, stand at `at` in `bytes`.
pub fn get_u32(bytes: &[u8], at: usize) -> (n: u32)
    requires
        at + 4 <= bytes@.len(),
    ensures
        n == from_le32(bytes@.skip(at as int)),
{
    let b0 = bytes[at] as u32;
    let b1 = bytes[at + 1] as u32;
    let b2 = bytes[at + 2] as u32;
    let b3 = bytes[at + 3] as u32;
    proof {
        reveal(from_le32);
    }
    b0 | (b1 << 8) | (b2 << 16) | (b3 << 24)
}

/// Appends all of `bytes` to `out`.
pub fn put_bytes(bytes: &[u8], out: &mut Vec<u8>)
    ensures
        final(out)@ == old(out)@ + bytes@,
{
    let ghost before = out@;
    let n = bytes.len();
    let mut i: usize = 0;
    assert(out@ =~= before + bytes@.take(0));
    while i < n
        invariant
            n == bytes@.len(),
            0 <= i <= n,
            out@ == before + bytes@.take(i as int),
        decreases n - i,
    {
        out.push(bytes[i]);
        assert(out@ =~= before + bytes@.take(i + 1));
        i = i + 1;
    }
    assert(bytes@.take(n as int) =~= bytes@);
}

/// Appends the frame of `payload` to `out`, if the payload fits a frame;
/// otherwise leaves `out` as it is and returns `false`.
pub fn write_frame(payload: &[u8], out: &mut Vec<u8>) -> (written: bool)
    ensures
        written == fits_frame(payload@),
        written ==> final(out)@ == old(out)@ + frame_of(payload@),
        !written ==> final(out)@ == old(out)@,
{
    let ghost before = out@;
    let n = payload.len();
    if n > 0xffff_ffff {
        return false;
    }
    put_u32(n as u32, out);
    put_bytes(payload, out);
    assert(out@ =~= before + frame_of(payload@)) by {
        lemma_le32(n as u32, payload@);
    }
    true
}

/// The frame of `payload`, if the payload fits a frame.
pub fn encode_frame(payload: &[u8]) -> (frame: Option<Vec<u8>>)
    ensures
        frame is Some <==> fits_frame(payload@),
        frame matches Some(f) ==> f@ == frame_of(payload@),
{
    let mut out: Vec<u8> = Vec::new();
    if write_frame(payload, &mut out) {
        assert(out@ =~= frame_of(payload@));
        Some(out)
    } else {
        None
    }
}

/// The stream of the payloads, if each of them fits a frame.
pub fn encode_stream(payloads: &Vec<Vec<u8>>) -> (stream: Option<Vec<u8>>)
    ensures
        stream is Some <==> forall|i: int|
            0 <= i < payloads@.len() ==> fits_frame((#[trigger] payloads@[i])@),
        stream matches Some(s) ==> s@ == stream_of(payload_views(payloads@)),
{
    let mut out: Vec<u8> = Vec::new();
    let n = payloads.len();
    let mut k: usize = 0;
    let ghost all = payload_views(payloads@);
    assert(all.take(0) =~= Seq::<Seq<u8>>::empty());
    while k < n
        invariant
            n == payloads@.len(),
            0 <= k <= n,
            all == payload_views(payloads@),
            out@ == stream_of(all.take(k as int)),
            forall|i: int| 0 <= i < k ==> fits_frame((#[trigger] payloads@[i])@),
        decreases n - k,
    {
        if !write_frame(payloads[k].as_slice(), &mut out) {
            return None;
        }
        proof {
            lemma_stream_push(all.take(k as int), all[k as int]);
            assert(all.take(k as int).push(all[k as int]) =~= all.take(k + 1));
        }
        k = k + 1;
    }
    assert(all.take(n as int) =~= all);
    Some(out)
}

/// The byte sequences that the vectors hold.
pub open spec fn payload_views(payloads: Seq<Vec<u8>>) -> Seq<Seq<u8>> {
    Seq::new(payloads.len(), |i: int| payloads[i]@)
}

/// The payloads of the frames of `stream`; `None` where the stream breaks off
/// within a frame.
pub fn decode_stream(stream: &[u8]) -> (payloads: Option<Vec<Vec<u8>>>)
    ensures
        payloads is Some <==> frames_in(stream@) is Some,
        payloads matches Some(p) ==> frames_in(stream@) == Some(payload_views(p@)),
{
    let mut out: Vec<Vec<u8>> = Vec::new();
    let len = stream.len();
    let mut at: usize = 0;
    assert(stream@.skip(0) =~= stream@);
    assert(payload_views(out@) =~= Seq::<Seq<u8>>::empty());
    while at < len
        invariant
            len == stream@.len(),
            0 <= at <= len,
            frames_in(stream@) == match frames_in(stream@.skip(at as int)) {
                Some(rest) => Some(payload_views(out@) + rest),
                None => None,
            },
        decreases len - at,
    {
        let ghost tail = stream@.skip(at as int);
        if len - at < 4 {
            return None;
        }
        let n = get_u32(stream, at) as usize;
        if len - at - 4 < n {
            return None;
        }
        let mut payload: Vec<u8> = Vec::new();
        put_bytes(vstd::slice::slice_subrange(stream, at + 4, at + 4 + n), &mut payload);
        proof {
            assert(payload@ =~= tail.subrange(4, 4 + n));
            assert(tail.skip(4 + n) =~= stream@.skip(at + 4 + n));
            let before = payload_views(out@);
            match frames_in(tail.skip(4 + n)) {
                Some(rest) => {
                    assert(before + (seq![payload@] + rest) =~= before.push(payload@) + rest);
                },
                None => {},
            }
            assert(payload_views(out@.push(payload)) =~= before.push(payload@));
        }
        out.push(payload);
        at = at + 4 + n;
    }
    proof {
        assert(stream@.skip(at as int) =~= Seq::<u8>::empty());
        assert(payload_views(out@) + Seq::<Seq<u8>>::empty() =~= payload_views(out@));
    }
    Some(out)
}

} // verus!
