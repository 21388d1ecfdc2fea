use vstd::prelude::*;

use crate::bytes_util::{
    append_subrange, contains_pat, find_first_match, find_last_match, last_match,
    lemma_last_match_correct, match_at, spec_u64_from_be_bytes, spec_u64_to_be_bytes,
    subrange_to_vec, u64_from_be_slice, u64_to_be_bytes, lemma_u64_be_round_trip,
};
use crate::errors::BlobError;
use crate::steganography::{lemma_marker_no_self_overlap, stego_marker, stego_marker_bytes,
    StegoCarrier};

verus! {

/// The PDF header, `%PDF-` in ASCII.
pub open spec fn pdf_magic() -> Seq<u8> {
    seq![0x25u8, 0x50u8, 0x44u8, 0x46u8, 0x2Du8]
}

/// The PDF end marker, `%%EOF` in ASCII.
pub open spec fn pdf_eof_mark() -> Seq<u8> {
    seq![0x25u8, 0x25u8, 0x45u8, 0x4Fu8, 0x46u8]
}

fn pdf_magic_bytes() -> (r: Vec<u8>)
    ensures
        r@ == pdf_magic(),
        r@.len() == 5,
{
    let mut r: Vec<u8> = Vec::new();
    r.push(0x25);
    r.push(0x50);
    r.push(0x44);
    r.push(0x46);
    r.push(0x2D);
    proof {
        assert(r@ =~= pdf_magic());
    }
    r
}

fn pdf_eof_bytes() -> (r: Vec<u8>)
    ensures
        r@ == pdf_eof_mark(),
        r@.len() == 5,
{
    let mut r: Vec<u8> = Vec::new();
    r.push(0x25);
    r.push(0x25);
    r.push(0x45);
    r.push(0x4F);
    r.push(0x46);
    proof {
        assert(r@ =~= pdf_eof_mark());
    }
    r
}

/// True when the bytes look like a PDF: the `%PDF-` header at the start and
/// at least one `%%EOF` somewhere.
pub open spec fn pdf_valid(data: Seq<u8>) -> bool {
    &&& data.len() >= 8
    &&& data.subrange(0, 5) == pdf_magic()
    &&& contains_pat(data, pdf_eof_mark())
}

/// The position just past `%%EOF` and its trailing newline characters,
/// starting the skip at `i`.
pub open spec fn skip_newlines(data: Seq<u8>, i: int) -> int
    decreases data.len() - i,
{
    if 0 <= i < data.len() && (data[i] == 10 || data[i] == 13) {
        skip_newlines(data, i + 1)
    } else {
        i
    }
}

/// Where an appended payload would go: just past the last `%%EOF` and its
/// newlines.
pub open spec fn pdf_eof_end(data: Seq<u8>) -> Option<int> {
    match last_match(data, pdf_eof_mark()) {
        Some(p) => Some(skip_newlines(data, p + 5)),
        None => None,
    }
}

/// The bytes with any embedded trailer stripped: everything from the last
/// marker occurrence on is dropped.
pub open spec fn pdf_strip(data: Seq<u8>) -> Seq<u8> {
    match last_match(data, stego_marker()) {
        Some(p) => data.take(p),
        None => data,
    }
}

/// The appended trailer: marker, payload length big-endian, payload.
pub open spec fn pdf_frame(payload: Seq<u8>) -> Seq<u8> {
    stego_marker() + spec_u64_to_be_bytes(payload.len() as u64) + payload
}

/// The head that embedding writes before the trailer: the stripped bytes up
/// to the insertion point, with a newline added when none ends them.
pub open spec fn pdf_head(data: Seq<u8>) -> Seq<u8>
    recommends
        pdf_eof_end(pdf_strip(data)) is Some,
{
    let clean = pdf_strip(data);
    let e = pdf_eof_end(clean)->Some_0;
    let head = clean.take(e);
    if e == 0 || !(clean[e - 1] == 10 || clean[e - 1] == 13) {
        head.push(10u8)
    } else {
        head
    }
}

/// When embedding succeeds: a valid PDF whose stripped form still carries an
/// `%%EOF`, and a payload within capacity. An empty payload always succeeds
/// (the carrier is returned unchanged).
pub open spec fn pdf_embed_ok(data: Seq<u8>, payload: Seq<u8>) -> bool {
    if payload.len() == 0 {
        true
    } else {
        &&& pdf_valid(data)
        &&& payload.len() <= 104857600
        &&& pdf_eof_end(pdf_strip(data)) is Some
    }
}

/// The embedded output.
pub open spec fn pdf_embed(data: Seq<u8>, payload: Seq<u8>) -> Seq<u8> {
    if payload.len() == 0 {
        data
    } else {
        pdf_head(data) + pdf_frame(payload)
    }
}

/// The payload that extraction finds: the length-prefixed bytes after the
/// last marker occurrence.
pub open spec fn pdf_extract(data: Seq<u8>) -> Option<Seq<u8>> {
    if !pdf_valid(data) {
        None
    } else {
        match last_match(data, stego_marker()) {
            None => None,
            Some(m) => {
                if m + 19 > data.len() {
                    None
                } else {
                    let n = spec_u64_from_be_bytes(data.subrange(m + 11, m + 19)) as int;
                    if m + 19 + n > data.len() {
                        None
                    } else {
                        Some(data.subrange(m + 19, m + 19 + n))
                    }
                }
            },
        }
    }
}

/// Hides data after the final `%%EOF` of a PDF file, where readers ignore
/// trailing bytes.
pub struct PdfEofCarrier {}

impl PdfEofCarrier {
    /// A PDF trailer carrier.
    pub fn new() -> (r: PdfEofCarrier) {
        PdfEofCarrier {}
    }

    /// Checks that the bytes look like a PDF file.
    pub fn validate_pdf(&self, data: &[u8]) -> (r: Result<(), BlobError>)
        ensures
            r is Ok <==> pdf_valid(data@),
            r matches Err(e) ==> e == BlobError::InvalidFormat,
    {
        if data.len() < 8 {
            return Err(BlobError::InvalidFormat);
        }
        let m = pdf_magic_bytes();
        if !crate::bytes_util::range_eq(data, 0, m.as_slice(), 0, 5) {
            proof {
                assert(m@.subrange(0, 5) =~= pdf_magic());
            }
            return Err(BlobError::InvalidFormat);
        }
        proof {
            assert(m@.subrange(0, 5) =~= pdf_magic());
        }
        let eof = pdf_eof_bytes();
        match find_first_match(data, eof.as_slice(), 0) {
            Some(_) => {
                proof {
                    crate::bytes_util::lemma_first_match_from_correct(data@, eof@, 0);
                }
                Ok(())
            },
            None => {
                proof {
                    crate::bytes_util::lemma_first_match_from_correct(data@, eof@, 0);
                    if contains_pat(data@, pdf_eof_mark()) {
                        let j = choose|j: int| match_at(data@, pdf_eof_mark(), j);
                        assert(match_at(data@, pdf_eof_mark(), j));
                    }
                }
                Err(BlobError::InvalidFormat)
            },
        }
    }
}

impl StegoCarrier for PdfEofCarrier {
    open spec fn valid_spec(&self, data: Seq<u8>) -> bool {
        pdf_valid(data)
    }

    open spec fn capacity_spec(&self, data: Seq<u8>) -> int {
        if pdf_valid(data) {
            104857600
        } else {
            0
        }
    }

    open spec fn extract_spec(&self, data: Seq<u8>) -> Option<Seq<u8>> {
        pdf_extract(data)
    }

    open spec fn embed_ok(&self, data: Seq<u8>, payload: Seq<u8>) -> bool {
        pdf_embed_ok(data, payload)
    }

    open spec fn embed_spec(&self, data: Seq<u8>, payload: Seq<u8>) -> Seq<u8> {
        pdf_embed(data, payload)
    }

    open spec fn roundtrip_ok(&self, data: Seq<u8>, payload: Seq<u8>) -> bool {
        !contains_pat(spec_u64_to_be_bytes(payload.len() as u64) + payload, stego_marker())
    }

    open spec fn embed_overhead(&self, payload: Seq<u8>) -> int {
        payload.len() as int + 20
    }

    fn capacity(&self, carrier_bytes: &[u8]) -> (r: usize)
        ensures
            r as int == self.capacity_spec(carrier_bytes@),
    {
        match self.validate_pdf(carrier_bytes) {
            Ok(_) => 104857600,
            Err(_) => 0,
        }
    }

    #[verifier::rlimit(100)]
    fn embed(&self, carrier_bytes: &[u8], payload: &[u8]) -> (r: Result<Vec<u8>, BlobError>) {
        if payload.len() == 0 {
            return Ok(crate::index::copy_bytes_slice(carrier_bytes));
        }
        match self.validate_pdf(carrier_bytes) {
            Ok(_) => {},
            Err(e) => {
                return Err(e);
            },
        }
        if payload.len() > 104857600 {
            return Err(BlobError::CarrierTooSmall);
        }
        // strip any earlier trailer
        let marker = stego_marker_bytes();
        let strip_end = match find_last_match(carrier_bytes, marker.as_slice()) {
            Some(p) => {
                proof {
                    lemma_last_match_correct(carrier_bytes@, stego_marker());
                    assert(match_at(carrier_bytes@, stego_marker(), p as int));
                }
                p
            },
            None => carrier_bytes.len(),
        };
        let clean = subrange_to_vec(carrier_bytes, 0, strip_end);
        proof {
            assert(carrier_bytes@.subrange(0, strip_end as int) =~= carrier_bytes@.take(
                strip_end as int,
            ));
            assert(clean@ == pdf_strip(carrier_bytes@));
        }
        // find the insertion point after the last %%EOF
        let eof = pdf_eof_bytes();
        let eof_pos = match find_last_match(clean.as_slice(), eof.as_slice()) {
            Some(p) => {
                proof {
                    lemma_last_match_correct(clean@, pdf_eof_mark());
                    assert(match_at(clean@, pdf_eof_mark(), p as int));
                }
                p
            },
            None => {
                return Err(BlobError::InvalidFormat);
            },
        };
        let mut e = eof_pos + 5;
        proof {
            assert(pdf_eof_end(clean@) == Some(skip_newlines(clean@, e as int)));
        }
        while e < clean.len() && (clean[e] == 10 || clean[e] == 13)
            invariant
                0 <= e <= clean@.len(),
                pdf_eof_end(clean@) == Some(skip_newlines(clean@, e as int)),
            decreases clean@.len() - e,
        {
            e = e + 1;
        }
        proof {
            assert(skip_newlines(clean@, e as int) == e as int);
            assert(pdf_eof_end(clean@) == Some(e as int));
        }
        // head, with a newline when none ends it
        let mut out = subrange_to_vec(clean.as_slice(), 0, e);
        proof {
            assert(out@ =~= clean@.take(e as int));
        }
        if e == 0 || !(clean[e - 1] == 10 || clean[e - 1] == 13) {
            out.push(10);
        }
        proof {
            assert(out@ == pdf_head(carrier_bytes@));
        }
        // trailer: marker, length, payload
        append_subrange(&mut out, marker.as_slice(), 0, 11);
        let len_be = u64_to_be_bytes(payload.len() as u64);
        append_subrange(&mut out, len_be.as_slice(), 0, 8);
        append_subrange(&mut out, payload, 0, payload.len());
        proof {
            assert(marker@.subrange(0, 11) =~= stego_marker());
            assert(len_be@.subrange(0, 8) =~= len_be@);
            assert(payload@.subrange(0, payload@.len() as int) =~= payload@);
            assert(out@ =~= pdf_head(carrier_bytes@) + pdf_frame(payload@));
        }
        Ok(out)
    }

    fn extract(&self, carrier_bytes: &[u8]) -> (r: Option<Vec<u8>>) {
        match self.validate_pdf(carrier_bytes) {
            Ok(_) => {},
            Err(_) => {
                return None;
            },
        }
        let marker = stego_marker_bytes();
        let m = match find_last_match(carrier_bytes, marker.as_slice()) {
            Some(p) => p,
            None => {
                return None;
            },
        };
        proof {
            lemma_last_match_correct(carrier_bytes@, stego_marker());
            assert(match_at(carrier_bytes@, stego_marker(), m as int));
        }
        let blen = carrier_bytes.len();
        if blen - m < 19 {
            return None;
        }
        let n64 = u64_from_be_slice(carrier_bytes, m + 11);
        if n64 > (blen - m - 19) as u64 {
            return None;
        }
        let n = n64 as usize;
        Some(subrange_to_vec(carrier_bytes, m + 19, m + 19 + n))
    }

    proof fn lemma_embed_valid(&self, data: Seq<u8>, payload: Seq<u8>) {
        lemma_pdf_embed_shape(data, payload);
    }

    proof fn lemma_extract_embed(&self, data: Seq<u8>, payload: Seq<u8>) {
        lemma_pdf_extract_embed(data, payload);
    }

    proof fn lemma_embed_size(&self, data: Seq<u8>, payload: Seq<u8>) {
        lemma_pdf_embed_shape(data, payload);
    }
}

/// The embedded output is still a PDF, its head lies within one byte of the
/// stripped carrier, and the appended trailer adds exactly 19 bytes plus the
/// payload.
pub proof fn lemma_pdf_embed_shape(data: Seq<u8>, payload: Seq<u8>)
    requires
        pdf_embed_ok(data, payload),
        payload.len() > 0,
    ensures
        pdf_valid(pdf_embed(data, payload)),
        pdf_head(data).len() <= pdf_strip(data).len() + 1,
        pdf_embed(data, payload).len() == pdf_head(data).len() + 19 + payload.len(),
        pdf_embed(data, payload).len() <= data.len() + payload.len() + 20,
        pdf_embed(data, payload) == pdf_head(data) + pdf_frame(payload),
        pdf_embed(data, payload).subrange(pdf_head(data).len() as int, pdf_embed(
            data,
            payload,
        ).len() as int) == pdf_frame(payload),
        pdf_head(data).len() >= 5,
{
    let clean = pdf_strip(data);
    let e = pdf_eof_end(clean)->Some_0;
    let head = pdf_head(data);
    let r = pdf_embed(data, payload);
    let p = last_match(clean, pdf_eof_mark())->Some_0;
    lemma_last_match_correct(clean, pdf_eof_mark());
    lemma_skip_newlines_bounds(clean, p + 5);
    assert(match_at(clean, pdf_eof_mark(), p));
    assert(p + 5 <= e <= clean.len());
    // the clean prefix keeps the PDF header: a marker occurrence cannot
    // start inside `%PDF-`, whose bytes differ from the marker's first byte
    lemma_pdf_strip_keeps_magic(data);
    assert(clean.len() >= 5 && clean.subrange(0, 5) == pdf_magic());
    assert(head.len() >= e);
    assert(head.len() <= e + 1);
    assert(e <= clean.len());
    assert(clean.len() <= data.len()) by {
        lemma_last_match_correct(data, stego_marker());
        match last_match(data, stego_marker()) {
            Some(q) => {
                assert(match_at(data, stego_marker(), q));
            },
            None => {},
        }
    }
    assert(head.subrange(0, 5) =~= clean.subrange(0, 5));
    assert(r == head + pdf_frame(payload));
    assert(spec_u64_to_be_bytes(payload.len() as u64).len() == 8) by {
        lemma_u64_be_round_trip(payload.len() as u64);
    }
    assert(r.len() == head.len() + 19 + payload.len());
    assert(r.subrange(0, 5) =~= head.subrange(0, 5));
    // the %%EOF occurrence inside the head survives into the output
    assert(match_at(r, pdf_eof_mark(), p)) by {
        assert(e <= head.len());
        assert forall|i: int| 0 <= i < 5 implies r.subrange(p, p + 5)[i] == pdf_eof_mark()[i]
            by {
            assert(r[p + i] == head[p + i]);
            assert(head[p + i] == clean[p + i]);
            assert(clean.subrange(p, p + 5)[i] == clean[p + i]);
        }
        assert(r.subrange(p, p + 5) =~= pdf_eof_mark());
    }
    assert(contains_pat(r, pdf_eof_mark()));
    assert(r.subrange(head.len() as int, r.len() as int) =~= pdf_frame(payload));
}

/// Stripping a trailer never cuts into the `%PDF-` header.
proof fn lemma_pdf_strip_keeps_magic(data: Seq<u8>)
    requires
        pdf_valid(data),
    ensures
        pdf_strip(data).len() >= 5,
        pdf_strip(data).subrange(0, 5) == data.subrange(0, 5),
        pdf_strip(data).subrange(0, 5) == pdf_magic(),
{
    lemma_last_match_correct(data, stego_marker());
    match last_match(data, stego_marker()) {
        Some(p) => {
            assert(match_at(data, stego_marker(), p));
            if p < 5 {
                assert(data.subrange(p, p + 11)[0] == data[p]);
                assert(data[p] == 0x4B);
                assert(data.subrange(0, 5)[p] == data[p]);
                assert(pdf_magic()[p] != 0x4B);
                assert(false);
            }
            assert(pdf_strip(data).subrange(0, 5) =~= data.subrange(0, 5));
        },
        None => {
            assert(pdf_strip(data).subrange(0, 5) =~= data.subrange(0, 5));
        },
    }
}

/// The newline skip stays within the sequence and never goes backwards.
proof fn lemma_skip_newlines_bounds(data: Seq<u8>, i: int)
    requires
        0 <= i <= data.len(),
    ensures
        i <= skip_newlines(data, i) <= data.len(),
    decreases data.len() - i,
{
    if 0 <= i < data.len() && (data[i] == 10 || data[i] == 13) {
        lemma_skip_newlines_bounds(data, i + 1);
    }
}

/// Extraction finds exactly the embedded payload: the appended marker is the
/// last occurrence, because occurrences cannot straddle it and the payload
/// region carries none.
pub proof fn lemma_pdf_extract_embed(data: Seq<u8>, payload: Seq<u8>)
    requires
        pdf_embed_ok(data, payload),
        !contains_pat(spec_u64_to_be_bytes(payload.len() as u64) + payload, stego_marker()),
        payload.len() > 0,
    ensures
        pdf_extract(pdf_embed(data, payload)) == Some(payload),
        last_match(pdf_embed(data, payload), stego_marker()) == Some(
            pdf_head(data).len() as int,
        ),
{
    lemma_pdf_embed_shape(data, payload);
    lemma_marker_no_self_overlap();
    lemma_u64_be_round_trip(payload.len() as u64);
    let head = pdf_head(data);
    let h = head.len() as int;
    let r = pdf_embed(data, payload);
    let tail = spec_u64_to_be_bytes(payload.len() as u64) + payload;
    assert(r == head + pdf_frame(payload));
    assert(r.len() == h + 19 + payload.len());
    // the marker occurs where the trailer was appended
    assert(match_at(r, stego_marker(), h)) by {
        assert(r.subrange(h, h + 11) =~= stego_marker());
    }
    // and nowhere later
    assert forall|t: int| t > h implies !match_at(r, stego_marker(), t) by {
        if match_at(r, stego_marker(), t) {
            let w = r.subrange(t, t + 11);
            assert(w == stego_marker());
            if t < h + 11 {
                // straddles the appended marker: forces a self-overlap
                let s = t - h;
                assert(1 <= s < 11);
                assert forall|i: int| 0 <= i < 11 - s implies stego_marker().subrange(
                    s,
                    11,
                )[i] == stego_marker().subrange(0, 11 - s)[i] by {
                    assert(w[i] == stego_marker()[i]);
                    assert(r[t + i] == stego_marker()[s + i]);
                }
                assert(stego_marker().subrange(s, 11) =~= stego_marker().subrange(0, 11 - s));
                assert(false);
            } else {
                // lies within the length and payload bytes
                let q = t - h - 11;
                assert(0 <= q && q + 11 <= tail.len());
                assert forall|i: int| 0 <= i < 11 implies tail.subrange(q, q + 11)[i]
                    == stego_marker()[i] by {
                    assert(tail[q + i] == r[t + i]);
                    assert(w[i] == stego_marker()[i]);
                }
                assert(tail.subrange(q, q + 11) =~= stego_marker());
                assert(match_at(tail, stego_marker(), q));
                assert(contains_pat(tail, stego_marker()));
                assert(false);
            }
        }
    }
    lemma_last_match_correct(r, stego_marker());
    assert(last_match(r, stego_marker()) == Some(h)) by {
        match last_match(r, stego_marker()) {
            Some(k) => {
                assert(match_at(r, stego_marker(), k));
                assert(k <= h || !match_at(r, stego_marker(), k));
                assert(h <= k);
            },
            None => {
                assert(false);
            },
        }
    }
    // the length field reads back the payload length
    assert(r.subrange(h + 11, h + 19) =~= spec_u64_to_be_bytes(payload.len() as u64));
    assert(spec_u64_from_be_bytes(r.subrange(h + 11, h + 19)) == payload.len() as u64);
    assert(r.subrange(h + 19, h + 19 + payload.len()) =~= payload);
}

/// Re-embedding grows the carrier by the new payload's overhead alone: the
/// first trailer is stripped before the second is written.
pub proof fn lemma_pdf_reembed_bounded(data: Seq<u8>, p1: Seq<u8>, p2: Seq<u8>)
    requires
        pdf_embed_ok(data, p1),
        !contains_pat(spec_u64_to_be_bytes(p1.len() as u64) + p1, stego_marker()),
        p1.len() > 0,
        p2.len() > 0,
        pdf_embed_ok(pdf_embed(data, p1), p2),
    ensures
        pdf_embed(pdf_embed(data, p1), p2).len() <= data.len() + p2.len() + 21,
{
    lemma_pdf_embed_shape(data, p1);
    lemma_pdf_extract_embed(data, p1);
    let r1 = pdf_embed(data, p1);
    let h = pdf_head(data).len() as int;
    // stripping the second time cuts exactly at the first trailer
    assert(pdf_strip(r1) == r1.take(h));
    assert(r1.take(h) =~= pdf_head(data));
    lemma_pdf_embed_shape(r1, p2);
    assert(pdf_embed(r1, p2).len() <= pdf_strip(r1).len() + 1 + 19 + p2.len());
    assert(pdf_strip(r1).len() <= data.len() + 1);
}

} // verus!
