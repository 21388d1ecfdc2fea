use vstd::prelude::*;

use crate::bytes_util::{
    append_subrange, contains_pat, find_first_match, first_match_from,
    lemma_first_match_from_correct, lemma_u32_be_round_trip, lemma_u64_be_round_trip, match_at,
    spec_u32_from_be_bytes, spec_u32_to_be_bytes, spec_u64_from_be_bytes, spec_u64_to_be_bytes,
    subrange_to_vec, u32_from_be_slice, u32_to_be_bytes, u64_from_be_slice, u64_to_be_bytes,
};
use crate::errors::BlobError;
use crate::steganography::{lemma_marker_no_self_overlap, stego_marker, stego_marker_bytes,
    StegoCarrier};
use vstd::slice::slice_subrange;

verus! {

/// The `ftyp` box type in ASCII.
pub open spec fn ftyp_tag() -> Seq<u8> {
    seq![0x66u8, 0x74u8, 0x79u8, 0x70u8]
}

/// The `free` box type in ASCII.
pub open spec fn free_tag() -> Seq<u8> {
    seq![0x66u8, 0x72u8, 0x65u8, 0x65u8]
}

fn ftyp_bytes() -> (r: Vec<u8>)
    ensures
        r@ == ftyp_tag(),
        r@.len() == 4,
{
    let mut r: Vec<u8> = Vec::new();
    r.push(0x66);
    r.push(0x74);
    r.push(0x79);
    r.push(0x70);
    proof {
        assert(r@ =~= ftyp_tag());
    }
    r
}

fn free_bytes() -> (r: Vec<u8>)
    ensures
        r@ == free_tag(),
        r@.len() == 4,
{
    let mut r: Vec<u8> = Vec::new();
    r.push(0x66);
    r.push(0x72);
    r.push(0x65);
    r.push(0x65);
    proof {
        assert(r@ =~= free_tag());
    }
    r
}

/// How far the `ftyp` search looks: the first KiB.
pub open spec fn mp4_search_limit(data: Seq<u8>) -> int {
    if data.len() < 1024 {
        data.len() as int
    } else {
        1024int
    }
}

/// True when the bytes look like an ISOBMFF file: long enough, with an
/// `ftyp` box type within the first KiB.
pub open spec fn mp4_valid(data: Seq<u8>) -> bool {
    &&& data.len() >= 12
    &&& contains_pat(data.take(mp4_search_limit(data)), ftyp_tag())
}

/// The first marker occurrence, if any.
pub open spec fn mp4_marker_pos(data: Seq<u8>) -> Option<int> {
    first_match_from(data, stego_marker(), 0)
}

/// The bytes with an embedded `free` box spliced out: the box header sits
/// eight bytes before the first marker occurrence, and its size field says
/// how much to drop. Malformed candidates are left alone.
pub open spec fn mp4_strip(data: Seq<u8>) -> Seq<u8> {
    match mp4_marker_pos(data) {
        None => data,
        Some(m) => {
            if m < 8 {
                data
            } else {
                let bs = m - 8;
                let size = spec_u32_from_be_bytes(data.subrange(bs, bs + 4)) as int;
                if bs + size > data.len() {
                    data
                } else {
                    data.subrange(0, bs) + data.skip(bs + size)
                }
            }
        },
    }
}

/// The appended `free` box: size, type, marker, payload length, payload.
pub open spec fn mp4_free_box(payload: Seq<u8>) -> Seq<u8> {
    spec_u32_to_be_bytes((payload.len() + 27) as u32) + free_tag() + stego_marker()
        + spec_u64_to_be_bytes(payload.len() as u64) + payload
}

/// When embedding succeeds: a valid carrier, a payload whose box size still
/// fits the 32-bit box header, and an output that still validates
/// (embedding checks this itself: splicing out an old box could cut an
/// `ftyp` that overlapped it). An empty payload always succeeds.
pub open spec fn mp4_embed_ok(data: Seq<u8>, payload: Seq<u8>) -> bool {
    if payload.len() == 0 {
        true
    } else {
        &&& mp4_valid(data)
        &&& payload.len() <= 4294967268
        &&& mp4_valid(mp4_embed(data, payload))
    }
}

/// The embedded output: the stripped carrier with one `free` box appended.
pub open spec fn mp4_embed(data: Seq<u8>, payload: Seq<u8>) -> Seq<u8> {
    if payload.len() == 0 {
        data
    } else {
        mp4_strip(data) + mp4_free_box(payload)
    }
}

/// The payload that extraction finds: the length-prefixed bytes after the
/// first marker occurrence.
pub open spec fn mp4_extract(data: Seq<u8>) -> Option<Seq<u8>> {
    if !mp4_valid(data) {
        None
    } else {
        match mp4_marker_pos(data) {
            None => None,
            Some(m) => {
                if m + 19 > data.len() {
                    None
                } else {
                    let n = spec_u64_from_be_bytes(data.subrange(m + 11, m + 19)) as int;
                    if m + 19 + n > data.len() {
                        None
                    } else {
                        Some(data.subrange(m + 19, m + 19 + n))
                    }
                }
            },
        }
    }
}

/// Hides data in a `free` box appended to an MP4 (ISOBMFF) file; players
/// ignore `free` boxes.
pub struct Mp4FreeBoxCarrier {}

impl Mp4FreeBoxCarrier {
    /// An MP4 free-box carrier.
    pub fn new() -> (r: Mp4FreeBoxCarrier) {
        Mp4FreeBoxCarrier {}
    }

    /// Checks that the bytes look like an MP4 (ISOBMFF) file.
    pub fn validate_mp4(&self, data: &[u8]) -> (r: Result<(), BlobError>)
        ensures
            r is Ok <==> mp4_valid(data@),
            r matches Err(e) ==> e == BlobError::InvalidFormat,
    {
        if data.len() < 12 {
            return Err(BlobError::InvalidFormat);
        }
        let limit = if data.len() < 1024 {
            data.len()
        } else {
            1024
        };
        let hay = slice_subrange(data, 0, limit);
        proof {
            assert(hay@ =~= data@.take(mp4_search_limit(data@)));
        }
        let ftyp = ftyp_bytes();
        match find_first_match(hay, ftyp.as_slice(), 0) {
            Some(_) => {
                proof {
                    lemma_first_match_from_correct(hay@, ftyp@, 0);
                }
                Ok(())
            },
            None => {
                proof {
                    lemma_first_match_from_correct(hay@, ftyp@, 0);
                    if contains_pat(hay@, ftyp_tag()) {
                        let j = choose|j: int| match_at(hay@, ftyp_tag(), j);
                        assert(match_at(hay@, ftyp_tag(), j));
                    }
                }
                Err(BlobError::InvalidFormat)
            },
        }
    }

    /// Removes a previously embedded `free` box, if one is found.
    fn strip_existing_payload(&self, data: &[u8]) -> (r: Vec<u8>)
        ensures
            r@ == mp4_strip(data@),
    {
        let marker = stego_marker_bytes();
        let m = match find_first_match(data, marker.as_slice(), 0) {
            Some(p) => {
                proof {
                    lemma_first_match_from_correct(data@, stego_marker(), 0);
                    assert(match_at(data@, stego_marker(), p as int));
                }
                p
            },
            None => {
                return crate::index::copy_bytes_slice(data);
            },
        };
        if m < 8 {
            return crate::index::copy_bytes_slice(data);
        }
        let bs = m - 8;
        let size32 = u32_from_be_slice(data, bs);
        let size = size32 as usize;
        if size > data.len() - bs {
            return crate::index::copy_bytes_slice(data);
        }
        let mut out = subrange_to_vec(data, 0, bs);
        append_subrange(&mut out, data, bs + size, data.len());
        proof {
            assert(data@.subrange(0, bs as int) =~= data@.subrange(0int, bs as int));
            assert(data@.subrange(bs + size, data@.len() as int) =~= data@.skip(
                bs + size as int,
            ));
            assert(out@ =~= data@.subrange(0, bs as int) + data@.skip(bs + size as int));
        }
        out
    }
}

impl StegoCarrier for Mp4FreeBoxCarrier {
    open spec fn valid_spec(&self, data: Seq<u8>) -> bool {
        mp4_valid(data)
    }

    open spec fn capacity_spec(&self, data: Seq<u8>) -> int {
        if mp4_valid(data) {
            4294967268
        } else {
            0
        }
    }

    open spec fn extract_spec(&self, data: Seq<u8>) -> Option<Seq<u8>> {
        mp4_extract(data)
    }

    open spec fn embed_ok(&self, data: Seq<u8>, payload: Seq<u8>) -> bool {
        mp4_embed_ok(data, payload)
    }

    open spec fn embed_spec(&self, data: Seq<u8>, payload: Seq<u8>) -> Seq<u8> {
        mp4_embed(data, payload)
    }

    open spec fn roundtrip_ok(&self, data: Seq<u8>, payload: Seq<u8>) -> bool {
        &&& !contains_pat(
            mp4_strip(data) + spec_u32_to_be_bytes((payload.len() + 27) as u32) + free_tag(),
            stego_marker(),
        )
        &&& !contains_pat(
            spec_u64_to_be_bytes(payload.len() as u64) + payload,
            stego_marker(),
        )
    }

    open spec fn embed_overhead(&self, payload: Seq<u8>) -> int {
        payload.len() as int + 27
    }

    fn capacity(&self, carrier_bytes: &[u8]) -> (r: usize)
        ensures
            r as int == self.capacity_spec(carrier_bytes@),
    {
        match self.validate_mp4(carrier_bytes) {
            Ok(_) => 4294967268,
            Err(_) => 0,
        }
    }

    #[verifier::rlimit(100)]
    fn embed(&self, carrier_bytes: &[u8], payload: &[u8]) -> (r: Result<Vec<u8>, BlobError>) {
        if payload.len() == 0 {
            return Ok(crate::index::copy_bytes_slice(carrier_bytes));
        }
        match self.validate_mp4(carrier_bytes) {
            Ok(_) => {},
            Err(e) => {
                return Err(e);
            },
        }
        if payload.len() > 4294967268 {
            return Err(BlobError::CarrierTooSmall);
        }
        let mut out = self.strip_existing_payload(carrier_bytes);
        let total = (payload.len() + 27) as u32;
        let size_be = u32_to_be_bytes(total);
        append_subrange(&mut out, size_be.as_slice(), 0, 4);
        let free = free_bytes();
        append_subrange(&mut out, free.as_slice(), 0, 4);
        let marker = stego_marker_bytes();
        append_subrange(&mut out, marker.as_slice(), 0, 11);
        let len_be = u64_to_be_bytes(payload.len() as u64);
        append_subrange(&mut out, len_be.as_slice(), 0, 8);
        append_subrange(&mut out, payload, 0, payload.len());
        proof {
            assert(size_be@.subrange(0, 4) =~= size_be@);
            assert(free@.subrange(0, 4) =~= free_tag());
            assert(marker@.subrange(0, 11) =~= stego_marker());
            assert(len_be@.subrange(0, 8) =~= len_be@);
            assert(payload@.subrange(0, payload@.len() as int) =~= payload@);
            assert(out@ =~= mp4_strip(carrier_bytes@) + mp4_free_box(payload@));
        }
        match self.validate_mp4(out.as_slice()) {
            Ok(_) => Ok(out),
            Err(e) => Err(e),
        }
    }

    fn extract(&self, carrier_bytes: &[u8]) -> (r: Option<Vec<u8>>) {
        match self.validate_mp4(carrier_bytes) {
            Ok(_) => {},
            Err(_) => {
                return None;
            },
        }
        let marker = stego_marker_bytes();
        let m = match find_first_match(carrier_bytes, marker.as_slice(), 0) {
            Some(p) => {
                proof {
                    lemma_first_match_from_correct(carrier_bytes@, stego_marker(), 0);
                    assert(match_at(carrier_bytes@, stego_marker(), p as int));
                }
                p
            },
            None => {
                return None;
            },
        };
        let blen = carrier_bytes.len();
        if blen - m < 19 {
            return None;
        }
        let n64 = u64_from_be_slice(carrier_bytes, m + 11);
        if n64 > (blen - m - 19) as u64 {
            return None;
        }
        let n = n64 as usize;
        Some(subrange_to_vec(carrier_bytes, m + 19, m + 19 + n))
    }

    proof fn lemma_embed_valid(&self, data: Seq<u8>, payload: Seq<u8>) {
        lemma_mp4_embed_shape(data, payload);
    }

    proof fn lemma_extract_embed(&self, data: Seq<u8>, payload: Seq<u8>) {
        lemma_mp4_extract_embed(data, payload);
    }

    proof fn lemma_embed_size(&self, data: Seq<u8>, payload: Seq<u8>) {
        lemma_mp4_embed_shape(data, payload);
    }
}

/// The embedded output is an MP4 (embedding checks this itself) and grows
/// by the box overhead alone.
pub proof fn lemma_mp4_embed_shape(data: Seq<u8>, payload: Seq<u8>)
    requires
        mp4_embed_ok(data, payload),
        payload.len() > 0,
    ensures
        mp4_valid(mp4_embed(data, payload)),
        mp4_embed(data, payload).len() == mp4_strip(data).len() + 27 + payload.len(),
        mp4_embed(data, payload).len() <= data.len() + payload.len() + 27,
        mp4_embed(data, payload) == mp4_strip(data) + mp4_free_box(payload),
{
    lemma_u32_be_round_trip((payload.len() + 27) as u32);
    lemma_u64_be_round_trip(payload.len() as u64);
    lemma_mp4_strip_len(data);
    assert(mp4_free_box(payload).len() == 27 + payload.len());
}

/// The strip never grows the bytes.
proof fn lemma_mp4_strip_len(data: Seq<u8>)
    ensures
        mp4_strip(data).len() <= data.len(),
{
    match mp4_marker_pos(data) {
        None => {},
        Some(m) => {
            lemma_first_match_from_correct(data, stego_marker(), 0);
            assert(match_at(data, stego_marker(), m));
        },
    }
}

/// Extraction finds exactly the embedded payload: the appended box's marker
/// is the first occurrence when the stripped carrier and box header are
/// free of stray markers, and nothing inside the length or payload bytes
/// matches either.
#[verifier::rlimit(100)]
#[verifier::spinoff_prover]
pub proof fn lemma_mp4_extract_embed(data: Seq<u8>, payload: Seq<u8>)
    requires
        mp4_embed_ok(data, payload),
        !contains_pat(
            mp4_strip(data) + spec_u32_to_be_bytes((payload.len() + 27) as u32) + free_tag(),
            stego_marker(),
        ),
        !contains_pat(spec_u64_to_be_bytes(payload.len() as u64) + payload, stego_marker()),
        payload.len() > 0,
    ensures
        mp4_extract(mp4_embed(data, payload)) == Some(payload),
        mp4_marker_pos(mp4_embed(data, payload)) == Some(mp4_strip(data).len() as int + 8),
{
    lemma_mp4_embed_shape(data, payload);
    lemma_marker_no_self_overlap();
    lemma_u32_be_round_trip((payload.len() + 27) as u32);
    lemma_u64_be_round_trip(payload.len() as u64);
    let s = mp4_strip(data);
    let h = s.len() as int;
    let r = mp4_embed(data, payload);
    let header = s + spec_u32_to_be_bytes((payload.len() + 27) as u32) + free_tag();
    let tail = spec_u64_to_be_bytes(payload.len() as u64) + payload;
    assert(header.len() == h + 8);
    assert(r =~= header + stego_marker() + tail);
    // the marker occurs at h + 8
    assert(match_at(r, stego_marker(), h + 8)) by {
        assert(r.subrange(h + 8, h + 19) =~= stego_marker());
    }
    // and nowhere earlier
    assert forall|t: int| 0 <= t < h + 8 implies !match_at(r, stego_marker(), t) by {
        if match_at(r, stego_marker(), t) {
            let w = r.subrange(t, t + 11);
            assert(w == stego_marker());
            if t + 11 <= h + 8 {
                assert forall|i: int| 0 <= i < 11 implies header.subrange(t, t + 11)[i]
                    == stego_marker()[i] by {
                    assert(header[t + i] == r[t + i]);
                    assert(w[i] == r[t + i]);
                }
                assert(header.subrange(t, t + 11) =~= stego_marker());
                assert(match_at(header, stego_marker(), t));
                assert(contains_pat(header, stego_marker()));
                assert(false);
            } else {
                // straddles into the appended marker: self-overlap
                let sft = h + 8 - t;
                assert(1 <= sft < 11);
                assert forall|i: int| 0 <= i < 11 - sft implies stego_marker().subrange(
                    sft,
                    11,
                )[i] == stego_marker().subrange(0, 11 - sft)[i] by {
                    assert(w[sft + i] == stego_marker()[sft + i]);
                    assert(r[h + 8 + i] == stego_marker()[i]);
                    assert(w[sft + i] == r[t + sft + i]);
                }
                assert(stego_marker().subrange(sft, 11) =~= stego_marker().subrange(
                    0,
                    11 - sft,
                ));
                assert(false);
            }
        }
    }
    lemma_first_match_from_correct(r, stego_marker(), 0);
    assert(mp4_marker_pos(r) == Some(h + 8)) by {
        match mp4_marker_pos(r) {
            Some(k) => {
                assert(match_at(r, stego_marker(), k));
                assert(k <= h + 8);
                assert(!(k < h + 8));
            },
            None => {
                assert(false);
            },
        }
    }
    assert(r.subrange(h + 19, h + 27) =~= spec_u64_to_be_bytes(payload.len() as u64));
    assert(spec_u64_from_be_bytes(r.subrange(h + 19, h + 27)) == payload.len() as u64);
    assert(r.subrange(h + 27, h + 27 + payload.len()) =~= payload);
}

/// Re-embedding grows the carrier by the new payload's overhead alone: the
/// first box is spliced out whole before the second is appended.
pub proof fn lemma_mp4_reembed_bounded(data: Seq<u8>, p1: Seq<u8>, p2: Seq<u8>)
    requires
        mp4_embed_ok(data, p1),
        !contains_pat(
            mp4_strip(data) + spec_u32_to_be_bytes((p1.len() + 27) as u32) + free_tag(),
            stego_marker(),
        ),
        !contains_pat(spec_u64_to_be_bytes(p1.len() as u64) + p1, stego_marker()),
        p1.len() > 0,
        p2.len() > 0,
        mp4_embed_ok(mp4_embed(data, p1), p2),
    ensures
        mp4_embed(mp4_embed(data, p1), p2).len() <= data.len() + p2.len() + 27,
{
    lemma_mp4_embed_shape(data, p1);
    lemma_mp4_extract_embed(data, p1);
    lemma_u32_be_round_trip((p1.len() + 27) as u32);
    let s = mp4_strip(data);
    let h = s.len() as int;
    let r1 = mp4_embed(data, p1);
    assert(mp4_marker_pos(r1) == Some(h + 8));
    // stripping the second time splices out exactly the box
    assert(r1.subrange(h, h + 4) =~= spec_u32_to_be_bytes((p1.len() + 27) as u32));
    assert(spec_u32_from_be_bytes(r1.subrange(h, h + 4)) == (p1.len() + 27) as u32);
    assert(mp4_strip(r1) =~= s) by {
        assert(h + (p1.len() + 27) == r1.len());
        assert(r1.subrange(0, h) =~= s);
        assert(r1.skip(h + (p1.len() + 27) as int) =~= Seq::<u8>::empty());
    }
    lemma_mp4_embed_shape(r1, p2);
    lemma_mp4_strip_len(data);
}

} // verus!
