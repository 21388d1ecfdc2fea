use vstd::prelude::*;

use crate::bytes_util::{
    append_subrange, contains_pat, find_first_match, lemma_first_match_from_correct,
    lemma_u16_be_round_trip, lemma_u64_be_round_trip, match_at, spec_u16_from_be_bytes,
    spec_u16_to_be_bytes, spec_u64_from_be_bytes, spec_u64_to_be_bytes, u16_from_be_bytes,
    u16_to_be_bytes, u64_to_be_bytes,
};
use crate::errors::BlobError;
use crate::steganography::{stego_marker, stego_marker_bytes, StegoCarrier};

verus! {

/// The end-of-image marker, `FF D9`.
pub open spec fn jpeg_eoi() -> Seq<u8> {
    seq![0xFFu8, 0xD9u8]
}

fn jpeg_eoi_bytes() -> (r: Vec<u8>)
    ensures
        r@ == jpeg_eoi(),
        r@.len() == 2,
{
    let mut r: Vec<u8> = Vec::new();
    r.push(0xFF);
    r.push(0xD9);
    proof {
        assert(r@ =~= jpeg_eoi());
    }
    r
}

/// True when the bytes look like a JPEG: the start-of-image marker at the
/// front and an end-of-image marker somewhere.
pub open spec fn jpeg_valid(data: Seq<u8>) -> bool {
    &&& data.len() >= 4
    &&& data[0] == 0xFF
    &&& data[1] == 0xD8
    &&& contains_pat(data, jpeg_eoi())
}

/// The whole size of the segment at the front of `s`: the two marker bytes
/// plus the declared length (which counts itself).
pub open spec fn seg_total(s: Seq<u8>) -> int
    recommends
        s.len() >= 4,
{
    2 + spec_u16_from_be_bytes(s.subrange(2, 4)) as int
}

/// True when the walk stops at the front of `s`: too short, a byte that is
/// not a marker, start of scan, or a segment running past the end.
pub open spec fn jpeg_walk_stops(s: Seq<u8>) -> bool {
    ||| s.len() < 5
    ||| s[0] != 0xFF
    ||| s[1] == 0xDA
    ||| seg_total(s) < 4
    ||| seg_total(s) > s.len()
}

/// True when a whole stego comment segment sits at the front of `s`:
/// a COM segment whose body is the marker, a big-endian chunk length, and
/// exactly that many chunk bytes.
pub open spec fn is_stego_seg(s: Seq<u8>) -> bool {
    &&& s.len() >= 5
    &&& s[0] == 0xFF
    &&& s[1] == 0xFE
    &&& seg_total(s) <= s.len()
    &&& seg_total(s) >= 23
    &&& s.subrange(4, 15) == stego_marker()
    &&& 23 + spec_u64_from_be_bytes(s.subrange(15, 23)) as int == seg_total(s)
}

/// The payload the walk collects: the chunk bytes of every stego comment
/// segment, up to start-of-scan or the first anomaly.
pub open spec fn jpeg_walk_payload(s: Seq<u8>) -> Seq<u8>
    decreases s.len(),
{
    if jpeg_walk_stops(s) {
        Seq::empty()
    } else if is_stego_seg(s) {
        s.subrange(23, seg_total(s)) + jpeg_walk_payload(s.skip(seg_total(s)))
    } else {
        jpeg_walk_payload(s.skip(seg_total(s)))
    }
}

/// True when the walk meets at least one stego segment.
pub open spec fn jpeg_walk_found(s: Seq<u8>) -> bool
    decreases s.len(),
{
    if jpeg_walk_stops(s) {
        false
    } else if is_stego_seg(s) {
        true
    } else {
        jpeg_walk_found(s.skip(seg_total(s)))
    }
}

/// The payload that extraction recovers; an empty collection reports no
/// payload.
pub open spec fn jpeg_extract(data: Seq<u8>) -> Option<Seq<u8>> {
    if jpeg_valid(data) && jpeg_walk_found(data.skip(2)) && jpeg_walk_payload(data.skip(2)).len()
        > 0 {
        Some(jpeg_walk_payload(data.skip(2)))
    } else {
        None
    }
}

/// One stego comment segment around a chunk of at most 65514 bytes.
pub open spec fn jpeg_frame(d: Seq<u8>) -> Seq<u8> {
    seq![0xFFu8, 0xFEu8] + spec_u16_to_be_bytes((21 + d.len()) as u16) + stego_marker()
        + spec_u64_to_be_bytes(d.len() as u64) + d
}

/// The payload split into stego comment segments.
pub open spec fn jpeg_frames(p: Seq<u8>) -> Seq<u8>
    recommends
        p.len() > 0,
    decreases p.len(),
{
    if p.len() <= 65514 {
        jpeg_frame(p)
    } else {
        jpeg_frame(p.take(65514)) + jpeg_frames(p.skip(65514))
    }
}

/// The walk that embeds: copies segments (dropping stego ones) up to
/// start-of-scan or the first anomaly, and inserts the framed payload
/// there, ahead of everything not yet walked.
pub open spec fn jpeg_embed_walk(s: Seq<u8>, stego: Seq<u8>) -> Seq<u8>
    decreases s.len(),
{
    if jpeg_walk_stops(s) {
        stego + s
    } else if is_stego_seg(s) {
        jpeg_embed_walk(s.skip(seg_total(s)), stego)
    } else {
        s.take(seg_total(s)) + jpeg_embed_walk(s.skip(seg_total(s)), stego)
    }
}

/// When embedding succeeds: a valid carrier, a payload within capacity, and
/// an output that still validates (embedding checks this itself; stripping
/// could drop an end-of-image marker hidden inside an old stego segment).
pub open spec fn jpeg_embed_ok(data: Seq<u8>, payload: Seq<u8>) -> bool {
    if payload.len() == 0 {
        true
    } else {
        &&& jpeg_valid(data)
        &&& payload.len() <= 6551400
        &&& jpeg_valid(jpeg_embed(data, payload))
    }
}

/// The embedded output.
pub open spec fn jpeg_embed(data: Seq<u8>, payload: Seq<u8>) -> Seq<u8> {
    if payload.len() == 0 {
        data
    } else {
        data.take(2) + jpeg_embed_walk(data.skip(2), jpeg_frames(payload))
    }
}

/// Hides data in JPEG comment (COM) segments inserted before the
/// start-of-scan marker; viewers ignore comment segments.
pub struct JpegCommentCarrier {}

impl JpegCommentCarrier {
    /// A JPEG comment carrier.
    pub fn new() -> (r: JpegCommentCarrier) {
        JpegCommentCarrier {}
    }

    /// Checks that the bytes look like a JPEG file.
    pub fn validate_jpeg(&self, data: &[u8]) -> (r: Result<(), BlobError>)
        ensures
            r is Ok <==> jpeg_valid(data@),
            r matches Err(e) ==> e == BlobError::InvalidFormat,
    {
        if data.len() < 4 {
            return Err(BlobError::InvalidFormat);
        }
        if data[0] != 0xFF || data[1] != 0xD8 {
            return Err(BlobError::InvalidFormat);
        }
        let eoi = jpeg_eoi_bytes();
        match find_first_match(data, eoi.as_slice(), 0) {
            Some(_) => {
                proof {
                    lemma_first_match_from_correct(data@, eoi@, 0);
                }
                Ok(())
            },
            None => {
                proof {
                    lemma_first_match_from_correct(data@, eoi@, 0);
                    if contains_pat(data@, jpeg_eoi()) {
                        let j = choose|j: int| match_at(data@, jpeg_eoi(), j);
                        assert(match_at(data@, jpeg_eoi(), j));
                    }
                }
                Err(BlobError::InvalidFormat)
            },
        }
    }

    /// Frames one chunk of the payload as a stego comment segment and
    /// appends it to `out`.
    fn write_segment(&self, out: &mut Vec<u8>, d: &[u8], d_start: usize, d_end: usize)
        requires
            d_start <= d_end <= d@.len(),
            d_end - d_start <= 65514,
        ensures
            final(out)@ == old(out)@ + jpeg_frame(d@.subrange(d_start as int, d_end as int)),
    {
        let ghost data = d@.subrange(d_start as int, d_end as int);
        let n = d_end - d_start;
        out.push(0xFF);
        out.push(0xFE);
        let len_be = u16_to_be_bytes((21 + n) as u16);
        append_subrange(out, len_be.as_slice(), 0, 2);
        let marker = stego_marker_bytes();
        append_subrange(out, marker.as_slice(), 0, 11);
        let clen_be = u64_to_be_bytes(n as u64);
        append_subrange(out, clen_be.as_slice(), 0, 8);
        append_subrange(out, d, d_start, d_end);
        proof {
            assert(len_be@.subrange(0, 2) =~= len_be@);
            assert(marker@.subrange(0, 11) =~= stego_marker());
            assert(clen_be@.subrange(0, 8) =~= clen_be@);
            assert(final(out)@ =~= old(out)@ + jpeg_frame(data));
        }
    }
}

impl StegoCarrier for JpegCommentCarrier {
    open spec fn valid_spec(&self, data: Seq<u8>) -> bool {
        jpeg_valid(data)
    }

    open spec fn capacity_spec(&self, data: Seq<u8>) -> int {
        if jpeg_valid(data) {
            6551400
        } else {
            0
        }
    }

    open spec fn extract_spec(&self, data: Seq<u8>) -> Option<Seq<u8>> {
        jpeg_extract(data)
    }

    open spec fn embed_ok(&self, data: Seq<u8>, payload: Seq<u8>) -> bool {
        jpeg_embed_ok(data, payload)
    }

    open spec fn embed_spec(&self, data: Seq<u8>, payload: Seq<u8>) -> Seq<u8> {
        jpeg_embed(data, payload)
    }

    open spec fn roundtrip_ok(&self, data: Seq<u8>, payload: Seq<u8>) -> bool {
        true
    }

    open spec fn embed_overhead(&self, payload: Seq<u8>) -> int {
        jpeg_frames(payload).len() as int
    }

    fn capacity(&self, carrier_bytes: &[u8]) -> (r: usize)
        ensures
            r as int == self.capacity_spec(carrier_bytes@),
    {
        match self.validate_jpeg(carrier_bytes) {
            Ok(_) => 6551400,
            Err(_) => 0,
        }
    }

    #[verifier::rlimit(100)]
    fn embed(&self, carrier_bytes: &[u8], payload: &[u8]) -> (r: Result<Vec<u8>, BlobError>) {
        if payload.len() == 0 {
            return Ok(crate::index::copy_bytes_slice(carrier_bytes));
        }
        match self.validate_jpeg(carrier_bytes) {
            Ok(_) => {},
            Err(e) => {
                return Err(e);
            },
        }
        if payload.len() > 6551400 {
            return Err(BlobError::CarrierTooSmall);
        }
        // frame the payload as stego comment segments
        let mut stego: Vec<u8> = Vec::new();
        let mut pos: usize = 0;
        let plen = payload.len();
        proof {
            assert(payload@.skip(0) =~= payload@);
            assert(Seq::<u8>::empty() + jpeg_frames(payload@) =~= jpeg_frames(payload@));
        }
        while plen - pos > 65514
            invariant
                pos < plen,
                plen == payload@.len(),
                jpeg_frames(payload@) == stego@ + jpeg_frames(payload@.skip(pos as int)),
            decreases plen - pos,
        {
            let ghost sfx = payload@.skip(pos as int);
            let ghost stego0 = stego@;
            self.write_segment(&mut stego, payload, pos, pos + 65514);
            proof {
                assert(sfx.take(65514) =~= payload@.subrange(pos as int, pos + 65514));
                assert(sfx.skip(65514) =~= payload@.skip(pos + 65514));
                assert(jpeg_frames(sfx) == jpeg_frame(sfx.take(65514)) + jpeg_frames(
                    sfx.skip(65514),
                ));
                assert(stego0 + (jpeg_frame(sfx.take(65514)) + jpeg_frames(
                    payload@.skip(pos + 65514),
                )) =~= stego@ + jpeg_frames(payload@.skip(pos + 65514)));
            }
            pos = pos + 65514;
        }
        let ghost sfx = payload@.skip(pos as int);
        self.write_segment(&mut stego, payload, pos, plen);
        proof {
            assert(sfx =~= payload@.subrange(pos as int, plen as int));
            assert(jpeg_frames(sfx) == jpeg_frame(sfx));
            assert(jpeg_frames(payload@) =~= stego@);
        }
        // walk the segments, dropping old stego segments, inserting before
        // start-of-scan or the first anomaly
        let blen = carrier_bytes.len();
        let mut out: Vec<u8> = Vec::new();
        append_subrange(&mut out, carrier_bytes, 0, 2);
        let mut cpos: usize = 2;
        let marker = stego_marker_bytes();
        proof {
            assert(out@ =~= carrier_bytes@.take(2));
            assert(out@.subrange(0, 2) =~= carrier_bytes@.take(2));
            assert(out@.skip(2) =~= Seq::<u8>::empty());
            assert(Seq::<u8>::empty() + jpeg_embed_walk(carrier_bytes@.skip(2), stego@)
                =~= jpeg_embed_walk(carrier_bytes@.skip(2), stego@));
        }
        loop
            invariant_except_break
                2 <= cpos <= blen,
                blen == carrier_bytes@.len(),
                plen == payload@.len(),
                0 < plen <= 6551400,
                jpeg_valid(carrier_bytes@),
                stego@ == jpeg_frames(payload@),
                marker@ == stego_marker(),
                marker@.len() == 11,
                out@.len() >= 2,
                out@.subrange(0, 2) == carrier_bytes@.take(2),
                jpeg_embed_walk(carrier_bytes@.skip(2), stego@) == out@.skip(2)
                    + jpeg_embed_walk(carrier_bytes@.skip(cpos as int), stego@),
            ensures
                2 <= cpos <= blen,
                blen == carrier_bytes@.len(),
                plen == payload@.len(),
                0 < plen <= 6551400,
                jpeg_valid(carrier_bytes@),
                stego@ == jpeg_frames(payload@),
                out@.len() >= 2,
                out@.subrange(0, 2) == carrier_bytes@.take(2),
                jpeg_embed_walk(carrier_bytes@.skip(2), stego@) == out@.skip(2) + (stego@
                    + carrier_bytes@.skip(cpos as int)),
            decreases blen - cpos,
        {
            let ghost sfx = carrier_bytes@.skip(cpos as int);
            let rem = blen - cpos;
            if rem < 5 || carrier_bytes[cpos] != 0xFF || carrier_bytes[cpos + 1] == 0xDA {
                proof {
                    assert(jpeg_walk_stops(sfx));
                }
                break ;
            }
            let l = u16_from_be_bytes(carrier_bytes[cpos + 2], carrier_bytes[cpos + 3]);
            proof {
                assert(sfx.subrange(2, 4) =~= seq![
                    carrier_bytes@[cpos + 2],
                    carrier_bytes@[cpos + 3],
                ]);
                assert(seg_total(sfx) == 2 + l as int);
            }
            if l < 2 {
                proof {
                    assert(jpeg_walk_stops(sfx));
                }
                break ;
            }
            let seg = 2 + l as usize;
            if seg > rem {
                proof {
                    assert(jpeg_walk_stops(sfx));
                }
                break ;
            }
            proof {
                assert(!jpeg_walk_stops(sfx));
                assert(sfx.skip(seg as int) =~= carrier_bytes@.skip(cpos + seg));
                assert(sfx.take(seg as int) =~= carrier_bytes@.subrange(
                    cpos as int,
                    cpos + seg,
                ));
            }
            // is this one of our stego segments?
            let mut stego_seg = false;
            if carrier_bytes[cpos + 1] == 0xFE && seg >= 23 {
                if crate::bytes_util::range_eq(carrier_bytes, cpos + 4, marker.as_slice(), 0, 11)
                {
                    let clen = crate::bytes_util::u64_from_be_slice(carrier_bytes, cpos + 15);
                    proof {
                        assert(sfx.subrange(4, 15) =~= carrier_bytes@.subrange(
                            cpos + 4,
                            cpos + 15,
                        ));
                        assert(marker@.subrange(0, 11) =~= stego_marker());
                        assert(sfx.subrange(15, 23) =~= carrier_bytes@.subrange(
                            cpos + 15,
                            cpos + 23,
                        ));
                    }
                    if clen == (seg - 23) as u64 {
                        stego_seg = true;
                        proof {
                            assert(is_stego_seg(sfx));
                            assert(stego_seg == is_stego_seg(sfx));
                        }
                    } else {
                        proof {
                            assert(!is_stego_seg(sfx));
                            assert(stego_seg == is_stego_seg(sfx));
                        }
                    }
                } else {
                    proof {
                        assert(sfx.subrange(4, 15) =~= carrier_bytes@.subrange(
                            cpos + 4,
                            cpos + 15,
                        ));
                        assert(marker@.subrange(0, 11) =~= stego_marker());
                        assert(!is_stego_seg(sfx));
                        assert(stego_seg == is_stego_seg(sfx));
                    }
                }
            } else {
                proof {
                    assert(!is_stego_seg(sfx));
                    assert(stego_seg == is_stego_seg(sfx));
                }
            }
            if stego_seg {
                cpos = cpos + seg;
            } else {
                let ghost out_before = out@;
                append_subrange(&mut out, carrier_bytes, cpos, cpos + seg);
                proof {
                    assert(out@.subrange(0, 2) =~= carrier_bytes@.take(2));
                    assert(out@.skip(2) =~= out_before.skip(2) + sfx.take(seg as int));
                    assert(out_before.skip(2) + (sfx.take(seg as int) + jpeg_embed_walk(
                        carrier_bytes@.skip(cpos + seg),
                        stego@,
                    )) =~= out@.skip(2) + jpeg_embed_walk(
                        carrier_bytes@.skip(cpos + seg),
                        stego@,
                    ));
                }
                cpos = cpos + seg;
            }
        }
        // insert the frames, then the unwalked remainder
        let ghost out_mid = out@;
        append_subrange(&mut out, stego.as_slice(), 0, stego.len());
        append_subrange(&mut out, carrier_bytes, cpos, blen);
        proof {
            assert(stego@.subrange(0, stego@.len() as int) =~= stego@);
            assert(carrier_bytes@.subrange(cpos as int, blen as int) =~= carrier_bytes@.skip(
                cpos as int,
            ));
            assert(out@.skip(2) =~= out_mid.skip(2) + (stego@ + carrier_bytes@.skip(
                cpos as int,
            )));
            assert(out@.subrange(0, 2) =~= carrier_bytes@.take(2));
            assert(out@ =~= carrier_bytes@.take(2) + jpeg_embed_walk(
                carrier_bytes@.skip(2),
                stego@,
            ));
            assert(out@ == jpeg_embed(carrier_bytes@, payload@));
        }
        // the stripped carrier could have lost its end-of-image marker:
        // check the output before handing it out
        match self.validate_jpeg(out.as_slice()) {
            Ok(_) => Ok(out),
            Err(e) => Err(e),
        }
    }

    fn extract(&self, carrier_bytes: &[u8]) -> (r: Option<Vec<u8>>) {
        match self.validate_jpeg(carrier_bytes) {
            Ok(_) => {},
            Err(_) => {
                return None;
            },
        }
        let blen = carrier_bytes.len();
        let mut pos: usize = 2;
        let mut found = false;
        let mut acc: Vec<u8> = Vec::new();
        let marker = stego_marker_bytes();
        proof {
            assert(acc@ + jpeg_walk_payload(carrier_bytes@.skip(2)) =~= jpeg_walk_payload(
                carrier_bytes@.skip(2),
            ));
        }
        loop
            invariant_except_break
                2 <= pos <= blen,
                blen == carrier_bytes@.len(),
                marker@ == stego_marker(),
                marker@.len() == 11,
                jpeg_walk_found(carrier_bytes@.skip(2)) == (found || jpeg_walk_found(
                    carrier_bytes@.skip(pos as int),
                )),
                jpeg_walk_payload(carrier_bytes@.skip(2)) == acc@ + jpeg_walk_payload(
                    carrier_bytes@.skip(pos as int),
                ),
            ensures
                jpeg_walk_found(carrier_bytes@.skip(2)) == found,
                jpeg_walk_payload(carrier_bytes@.skip(2)) == acc@,
            decreases blen - pos,
        {
            let ghost sfx = carrier_bytes@.skip(pos as int);
            let rem = blen - pos;
            if rem < 5 || carrier_bytes[pos] != 0xFF || carrier_bytes[pos + 1] == 0xDA {
                proof {
                    assert(jpeg_walk_stops(sfx));
                    assert(acc@ + jpeg_walk_payload(sfx) =~= acc@);
                }
                break ;
            }
            let l = u16_from_be_bytes(carrier_bytes[pos + 2], carrier_bytes[pos + 3]);
            proof {
                assert(sfx.subrange(2, 4) =~= seq![
                    carrier_bytes@[pos + 2],
                    carrier_bytes@[pos + 3],
                ]);
                assert(seg_total(sfx) == 2 + l as int);
            }
            if l < 2 {
                proof {
                    assert(jpeg_walk_stops(sfx));
                    assert(acc@ + jpeg_walk_payload(sfx) =~= acc@);
                }
                break ;
            }
            let seg = 2 + l as usize;
            if seg > rem {
                proof {
                    assert(jpeg_walk_stops(sfx));
                    assert(acc@ + jpeg_walk_payload(sfx) =~= acc@);
                }
                break ;
            }
            proof {
                assert(!jpeg_walk_stops(sfx));
                assert(sfx.skip(seg as int) =~= carrier_bytes@.skip(pos + seg));
            }
            let mut stego_seg = false;
            if carrier_bytes[pos + 1] == 0xFE && seg >= 23 {
                if crate::bytes_util::range_eq(carrier_bytes, pos + 4, marker.as_slice(), 0, 11)
                {
                    let clen = crate::bytes_util::u64_from_be_slice(carrier_bytes, pos + 15);
                    proof {
                        assert(sfx.subrange(4, 15) =~= carrier_bytes@.subrange(
                            pos + 4,
                            pos + 15,
                        ));
                        assert(marker@.subrange(0, 11) =~= stego_marker());
                        assert(sfx.subrange(15, 23) =~= carrier_bytes@.subrange(
                            pos + 15,
                            pos + 23,
                        ));
                    }
                    if clen == (seg - 23) as u64 {
                        stego_seg = true;
                        proof {
                            assert(is_stego_seg(sfx));
                            assert(stego_seg == is_stego_seg(sfx));
                        }
                    } else {
                        proof {
                            assert(!is_stego_seg(sfx));
                            assert(stego_seg == is_stego_seg(sfx));
                        }
                    }
                } else {
                    proof {
                        assert(sfx.subrange(4, 15) =~= carrier_bytes@.subrange(
                            pos + 4,
                            pos + 15,
                        ));
                        assert(marker@.subrange(0, 11) =~= stego_marker());
                        assert(!is_stego_seg(sfx));
                        assert(stego_seg == is_stego_seg(sfx));
                    }
                }
            } else {
                proof {
                    assert(!is_stego_seg(sfx));
                    assert(stego_seg == is_stego_seg(sfx));
                }
            }
            if stego_seg {
                found = true;
                let ghost acc0 = acc@;
                append_subrange(&mut acc, carrier_bytes, pos + 23, pos + seg);
                proof {
                    assert(sfx.subrange(23, seg as int) =~= carrier_bytes@.subrange(
                        pos + 23,
                        pos + seg,
                    ));
                    assert(acc0 + (sfx.subrange(23, seg as int) + jpeg_walk_payload(
                        carrier_bytes@.skip(pos + seg),
                    )) =~= acc@ + jpeg_walk_payload(carrier_bytes@.skip(pos + seg)));
                }
            }
            pos = pos + seg;
        }
        if found && acc.len() > 0 {
            Some(acc)
        } else {
            proof {
                if jpeg_extract(carrier_bytes@) is Some {
                    assert(jpeg_walk_found(carrier_bytes@.skip(2)));
                    assert(jpeg_walk_payload(carrier_bytes@.skip(2)).len() > 0);
                }
            }
            None
        }
    }

    proof fn lemma_embed_valid(&self, data: Seq<u8>, payload: Seq<u8>) {
    }

    proof fn lemma_extract_embed(&self, data: Seq<u8>, payload: Seq<u8>) {
        lemma_jpeg_extract_embed(data, payload);
    }

    proof fn lemma_embed_size(&self, data: Seq<u8>, payload: Seq<u8>) {
        lemma_jpeg_embed_size(data, payload);
    }
}

/// A whole segment prepended to anything parses as itself.
proof fn lemma_jpeg_seg_prepend(c: Seq<u8>, t: Seq<u8>)
    requires
        c.len() >= 4,
        seg_total(c) == c.len(),
        c[0] == 0xFF,
        c[1] != 0xDA,
        t.len() >= 1,
    ensures
        !jpeg_walk_stops(c + t),
        seg_total(c + t) == c.len() as int,
        (c + t).skip(seg_total(c + t)) == t,
        is_stego_seg(c + t) == is_stego_seg(c),
        is_stego_seg(c) ==> (c + t).subrange(23, seg_total(c + t)) == c.subrange(
            23,
            c.len() as int,
        ),
{
    let u = c + t;
    assert(u.subrange(2, 4) =~= c.subrange(2, 4));
    assert(u.skip(c.len() as int) =~= t);
    assert(u[0] == c[0] && u[1] == c[1]);
    assert(u.len() >= 5);
    if c.len() >= 23 {
        assert(u.subrange(4, 15) =~= c.subrange(4, 15));
        assert(u.subrange(15, 23) =~= c.subrange(15, 23));
    }
    if is_stego_seg(c) {
        assert(u.subrange(23, c.len() as int) =~= c.subrange(23, c.len() as int));
    }
    if is_stego_seg(u) {
        assert(c.len() >= 23);
    }
}

/// A framed chunk is a whole stego segment holding exactly its chunk.
proof fn lemma_jpeg_frame_shape(d: Seq<u8>)
    requires
        d.len() <= 65514,
    ensures
        jpeg_frame(d).len() == 23 + d.len(),
        seg_total(jpeg_frame(d)) == 23 + d.len(),
        is_stego_seg(jpeg_frame(d)),
        jpeg_frame(d).subrange(23, jpeg_frame(d).len() as int) == d,
        jpeg_frame(d)[0] == 0xFF,
        jpeg_frame(d)[1] == 0xFE,
{
    lemma_u16_be_round_trip((21 + d.len()) as u16);
    lemma_u64_be_round_trip(d.len() as u64);
    let c = jpeg_frame(d);
    assert(c.subrange(2, 4) =~= spec_u16_to_be_bytes((21 + d.len()) as u16));
    assert(c.subrange(4, 15) =~= stego_marker());
    assert(c.subrange(15, 23) =~= spec_u64_to_be_bytes(d.len() as u64));
    assert(c.subrange(23, c.len() as int) =~= d);
}

/// Walking the framed payload followed by walk-silent bytes collects
/// exactly the payload.
#[verifier::rlimit(100)]
#[verifier::spinoff_prover]
proof fn lemma_jpeg_walk_frames(p: Seq<u8>, t: Seq<u8>)
    requires
        0 < p.len() <= 6551400,
        jpeg_walk_found(t) == false,
        jpeg_walk_payload(t) == Seq::<u8>::empty(),
    ensures
        jpeg_walk_found(jpeg_frames(p) + t),
        jpeg_walk_payload(jpeg_frames(p) + t) == p,
    decreases p.len(),
{
    if p.len() <= 65514 {
        let c = jpeg_frame(p);
        lemma_jpeg_frame_shape(p);
        if t.len() == 0 {
            assert(c + t =~= c);
            assert(!jpeg_walk_stops(c));
            assert(c.skip(seg_total(c)) =~= t);
            assert(jpeg_walk_payload(c) == c.subrange(23, seg_total(c)) + jpeg_walk_payload(
                t,
            ));
            assert(c.subrange(23, seg_total(c)) + jpeg_walk_payload(t) =~= p);
        } else {
            lemma_jpeg_seg_prepend(c, t);
            assert(jpeg_frames(p) + t =~= c + t);
            assert(!jpeg_walk_stops(c + t));
            assert(is_stego_seg(c + t));
            assert(jpeg_walk_payload(c + t) == p + jpeg_walk_payload(t));
            assert(p + jpeg_walk_payload(t) =~= p);
        }
    } else {
        let head = p.take(65514);
        let rest = p.skip(65514);
        lemma_jpeg_walk_frames(rest, t);
        let c = jpeg_frame(head);
        lemma_jpeg_frame_shape(head);
        let tail = jpeg_frames(rest) + t;
        assert(tail.len() >= 23);
        lemma_jpeg_seg_prepend(c, tail);
        assert(jpeg_frames(p) + t =~= c + tail);
        assert(!jpeg_walk_stops(c + tail));
        assert(is_stego_seg(c + tail));
        assert(jpeg_walk_payload(c + tail) == head + jpeg_walk_payload(tail));
        assert(head + rest =~= p);
    }
}

/// The walk of the embedded output collects exactly the payload.
proof fn lemma_jpeg_walk_embed(s: Seq<u8>, p: Seq<u8>)
    requires
        0 < p.len() <= 6551400,
    ensures
        jpeg_walk_found(jpeg_embed_walk(s, jpeg_frames(p))),
        jpeg_walk_payload(jpeg_embed_walk(s, jpeg_frames(p))) == p,
    decreases s.len(),
{
    let stego = jpeg_frames(p);
    if jpeg_walk_stops(s) {
        lemma_jpeg_walk_frames(p, s);
    } else if is_stego_seg(s) {
        lemma_jpeg_walk_embed(s.skip(seg_total(s)), p);
    } else {
        lemma_jpeg_walk_embed(s.skip(seg_total(s)), p);
        let t = jpeg_embed_walk(s.skip(seg_total(s)), stego);
        lemma_jpeg_embed_walk_min_len(s.skip(seg_total(s)), stego, p);
        let c = s.take(seg_total(s));
        assert(c.len() == seg_total(s) >= 4);
        assert(seg_total(c) == seg_total(s)) by {
            assert(c.subrange(2, 4) =~= s.subrange(2, 4));
        }
        assert(c[0] == s[0] && c[1] == s[1]);
        lemma_jpeg_seg_prepend(c, t);
        assert(is_stego_seg(c + t) == is_stego_seg(c));
        assert(is_stego_seg(c) == is_stego_seg(s)) by {
            if c.len() >= 23 {
                assert(c.subrange(4, 15) =~= s.subrange(4, 15));
                assert(c.subrange(15, 23) =~= s.subrange(15, 23));
            }
            if is_stego_seg(s) {
                assert(s.len() >= seg_total(s) >= 23);
                assert(c.len() >= 23);
            }
        }
        assert(jpeg_walk_payload(c + t) == jpeg_walk_payload(t));
        assert(jpeg_walk_found(c + t) == jpeg_walk_found(t));
    }
}

/// The embed walk output always holds the inserted frames, so it is never
/// empty.
proof fn lemma_jpeg_embed_walk_min_len(s: Seq<u8>, stego: Seq<u8>, p: Seq<u8>)
    requires
        stego == jpeg_frames(p),
        0 < p.len() <= 6551400,
    ensures
        jpeg_embed_walk(s, stego).len() >= 23,
    decreases s.len(),
{
    lemma_jpeg_frames_min_len(p);
    if jpeg_walk_stops(s) {
    } else if is_stego_seg(s) {
        lemma_jpeg_embed_walk_min_len(s.skip(seg_total(s)), stego, p);
    } else {
        lemma_jpeg_embed_walk_min_len(s.skip(seg_total(s)), stego, p);
    }
}

/// The framed payload is never shorter than one frame.
proof fn lemma_jpeg_frames_min_len(p: Seq<u8>)
    requires
        0 < p.len() <= 6551400,
    ensures
        jpeg_frames(p).len() >= 23,
    decreases p.len(),
{
    if p.len() <= 65514 {
        lemma_jpeg_frame_shape(p);
    } else {
        lemma_jpeg_frame_shape(p.take(65514));
    }
}

/// Extraction recovers the embedded payload: the strict walk passes over
/// the same segments the embedding walked, meets the inserted frames, and
/// stops where the embedding stopped.
pub proof fn lemma_jpeg_extract_embed(data: Seq<u8>, payload: Seq<u8>)
    requires
        jpeg_embed_ok(data, payload),
        payload.len() > 0,
    ensures
        jpeg_extract(jpeg_embed(data, payload)) == Some(payload),
{
    let r = jpeg_embed(data, payload);
    lemma_jpeg_walk_embed(data.skip(2), payload);
    assert(r.skip(2) =~= jpeg_embed_walk(data.skip(2), jpeg_frames(payload)));
}

/// The embedded output never exceeds the carrier plus the framed payload.
pub proof fn lemma_jpeg_embed_size(data: Seq<u8>, payload: Seq<u8>)
    requires
        jpeg_embed_ok(data, payload),
        payload.len() > 0,
    ensures
        jpeg_embed(data, payload).len() <= data.len() + jpeg_frames(payload).len(),
{
    lemma_jpeg_embed_walk_size(data.skip(2), jpeg_frames(payload));
}

/// The embed walk output is bounded by its input plus the inserted bytes.
proof fn lemma_jpeg_embed_walk_size(s: Seq<u8>, stego: Seq<u8>)
    ensures
        jpeg_embed_walk(s, stego).len() <= s.len() + stego.len(),
    decreases s.len(),
{
    if jpeg_walk_stops(s) {
    } else {
        lemma_jpeg_embed_walk_size(s.skip(seg_total(s)), stego);
    }
}


/// The embed walk steps over the framed payload segments at the front
/// without copying them: they are stego segments.
proof fn lemma_jpeg_walk_skips_frames(p: Seq<u8>, t: Seq<u8>, stego: Seq<u8>)
    requires
        0 < p.len() <= 6551400,
    ensures
        jpeg_embed_walk(jpeg_frames(p) + t, stego) == jpeg_embed_walk(t, stego),
    decreases p.len(),
{
    if p.len() <= 65514 {
        let c = jpeg_frame(p);
        lemma_jpeg_frame_shape(p);
        if t.len() == 0 {
            assert(c + t =~= c);
            assert(!jpeg_walk_stops(c));
            assert(c.skip(seg_total(c)) =~= t);
            assert(jpeg_embed_walk(c, stego) == jpeg_embed_walk(t, stego));
            assert(jpeg_frames(p) + t =~= c);
        } else {
            lemma_jpeg_seg_prepend(c, t);
            assert(jpeg_frames(p) + t =~= c + t);
            assert(jpeg_embed_walk(c + t, stego) == jpeg_embed_walk(t, stego));
        }
    } else {
        let head = p.take(65514);
        let rest = p.skip(65514);
        lemma_jpeg_walk_skips_frames(rest, t, stego);
        let c = jpeg_frame(head);
        lemma_jpeg_frame_shape(head);
        let tail2 = jpeg_frames(rest) + t;
        assert(tail2.len() >= 23) by {
            lemma_jpeg_frames_min_len(rest);
        }
        lemma_jpeg_seg_prepend(c, tail2);
        assert(jpeg_frames(p) + t =~= c + tail2);
        assert(jpeg_embed_walk(c + tail2, stego) == jpeg_embed_walk(tail2, stego));
    }
}

/// A second embed walk over an embedded output drops the first framed
/// payload again, so its result is bounded by the original bytes plus the
/// new frames alone.
proof fn lemma_jpeg_embed_twice_size(s: Seq<u8>, p1: Seq<u8>, stego2: Seq<u8>)
    requires
        0 < p1.len() <= 6551400,
    ensures
        jpeg_embed_walk(jpeg_embed_walk(s, jpeg_frames(p1)), stego2).len() <= s.len()
            + stego2.len(),
    decreases s.len(),
{
    let st1 = jpeg_frames(p1);
    let r1 = jpeg_embed_walk(s, st1);
    if jpeg_walk_stops(s) {
        // the frames sit right before the stopped suffix; the second walk
        // skips them and stops at the same place
        assert(r1 == st1 + s);
        lemma_jpeg_walk_skips_frames(p1, s, stego2);
        assert(jpeg_embed_walk(r1, stego2) == jpeg_embed_walk(s, stego2));
        assert(jpeg_embed_walk(s, stego2) == stego2 + s);
    } else if is_stego_seg(s) {
        lemma_jpeg_embed_twice_size(s.skip(seg_total(s)), p1, stego2);
    } else {
        let c = s.take(seg_total(s));
        let r1p = jpeg_embed_walk(s.skip(seg_total(s)), st1);
        assert(r1 == c + r1p);
        lemma_jpeg_embed_twice_size(s.skip(seg_total(s)), p1, stego2);
        lemma_jpeg_embed_walk_min_len(s.skip(seg_total(s)), st1, p1);
        assert(c.len() == seg_total(s) >= 4);
        assert(seg_total(c) == seg_total(s)) by {
            assert(c.subrange(2, 4) =~= s.subrange(2, 4));
        }
        assert(c[0] == s[0] && c[1] == s[1]);
        lemma_jpeg_seg_prepend(c, r1p);
        assert(is_stego_seg(c + r1p) == is_stego_seg(c));
        assert(is_stego_seg(c) == is_stego_seg(s)) by {
            if c.len() >= 23 {
                assert(c.subrange(4, 15) =~= s.subrange(4, 15));
                assert(c.subrange(15, 23) =~= s.subrange(15, 23));
            }
            if is_stego_seg(s) {
                assert(s.len() >= seg_total(s) >= 23);
                assert(c.len() >= 23);
            }
        }
        assert(jpeg_embed_walk(c + r1p, stego2) == c + jpeg_embed_walk(r1p, stego2));
    }
}

/// Embedding a second payload into an embedded carrier is bounded by the
/// carrier plus the second payload's frames alone: the first payload's
/// segments are stripped before the second is inserted.
pub proof fn lemma_jpeg_reembed_bounded(data: Seq<u8>, p1: Seq<u8>, p2: Seq<u8>)
    requires
        jpeg_embed_ok(data, p1),
        p1.len() > 0,
        jpeg_embed_ok(jpeg_embed(data, p1), p2),
        p2.len() > 0,
    ensures
        jpeg_embed(jpeg_embed(data, p1), p2).len() <= data.len() + jpeg_frames(p2).len(),
{
    let r1 = jpeg_embed(data, p1);
    assert(r1.skip(2) =~= jpeg_embed_walk(data.skip(2), jpeg_frames(p1)));
    lemma_jpeg_embed_twice_size(data.skip(2), p1, jpeg_frames(p2));
    assert(jpeg_embed(r1, p2).len() == 2 + jpeg_embed_walk(
        r1.skip(2),
        jpeg_frames(p2),
    ).len());
}

} // verus!
