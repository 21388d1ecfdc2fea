use vstd::prelude::*;

use crate::errors::BlobError;

pub mod jpeg_comment;
pub mod mp4_free_box;
pub mod pdf_eof;
pub mod png_chunk;

verus! {

/// The shared ASCII marker, `KURPODSTEGO`, that identifies this library's
/// embeddings inside a host format.
pub open spec fn stego_marker() -> Seq<u8> {
    seq![
        0x4Bu8,
        0x55u8,
        0x52u8,
        0x50u8,
        0x4Fu8,
        0x44u8,
        0x53u8,
        0x54u8,
        0x45u8,
        0x47u8,
        0x4Fu8,
    ]
}

/// The marker as bytes.
pub fn stego_marker_bytes() -> (r: Vec<u8>)
    ensures
        r@ == stego_marker(),
        r@.len() == 11,
{
    let mut r: Vec<u8> = Vec::new();
    r.push(0x4B);
    r.push(0x55);
    r.push(0x52);
    r.push(0x50);
    r.push(0x4F);
    r.push(0x44);
    r.push(0x53);
    r.push(0x54);
    r.push(0x45);
    r.push(0x47);
    r.push(0x4F);
    proof {
        assert(r@ =~= stego_marker());
    }
    r
}

/// The marker never matches itself at a shift: its first byte occurs nowhere
/// else in it. A marker occurrence therefore cannot straddle the boundary
/// where an embedding begins.
pub proof fn lemma_marker_no_self_overlap()
    ensures
        forall|j: int|
            1 <= j < 11 ==> stego_marker().subrange(j, 11) != stego_marker().subrange(
                0,
                11 - j,
            ),
{
    assert forall|j: int| 1 <= j < 11 implies stego_marker().subrange(j, 11)
        != stego_marker().subrange(0, 11 - j) by {
        let a = stego_marker().subrange(j, 11);
        let b = stego_marker().subrange(0, 11 - j);
        assert(a[0] == stego_marker()[j]);
        assert(b[0] == stego_marker()[0]);
        assert(stego_marker()[0] == 0x4B);
        assert(stego_marker()[j] != 0x4B);
    }
}

/// A transformation over byte buffers that hides a payload inside a host
/// file format and recovers it again.
///
/// Each implementation gives the specification of its operations as spec
/// functions and proves three laws: embedding keeps the host format valid,
/// extraction recovers what embedding hid, and embedding grows the carrier
/// by at most the framed payload's overhead.
pub trait StegoCarrier: Sized {
    /// True when the bytes pass this format's validation.
    spec fn valid_spec(&self, data: Seq<u8>) -> bool;

    /// How many payload bytes the carrier can hold; zero for an invalid
    /// carrier.
    spec fn capacity_spec(&self, data: Seq<u8>) -> int;

    /// The payload that extraction recovers from the bytes, if any.
    spec fn extract_spec(&self, data: Seq<u8>) -> Option<Seq<u8>>;

    /// True when embedding this payload into these bytes succeeds.
    spec fn embed_ok(&self, data: Seq<u8>, payload: Seq<u8>) -> bool;

    /// The bytes that a successful embedding returns.
    spec fn embed_spec(&self, data: Seq<u8>, payload: Seq<u8>) -> Seq<u8>;

    /// True when extraction is guaranteed to find exactly this embedding:
    /// the payload and carrier are free of stray marker occurrences that
    /// could mislead the scan.
    spec fn roundtrip_ok(&self, data: Seq<u8>, payload: Seq<u8>) -> bool;

    /// An upper bound on how much embedding adds to the carrier's size.
    spec fn embed_overhead(&self, payload: Seq<u8>) -> int;

    /// Returns how many payload bytes can fit in the carrier.
    fn capacity(&self, carrier_bytes: &[u8]) -> (r: usize)
        ensures
            r as int == self.capacity_spec(carrier_bytes@),
    ;

    /// Returns new bytes with the payload embedded, any embedding of this
    /// carrier's own form first stripped. An empty payload returns the
    /// carrier unchanged.
    fn embed(&self, carrier_bytes: &[u8], payload: &[u8]) -> (r: Result<Vec<u8>, BlobError>)
        requires
            carrier_bytes@.len() + payload@.len() * 2 + 1048576 < usize::MAX,
        ensures
            r is Ok <==> self.embed_ok(carrier_bytes@, payload@),
            r matches Ok(v) ==> v@ == self.embed_spec(carrier_bytes@, payload@),
            r matches Err(e) ==> (e == BlobError::InvalidFormat || e
                == BlobError::CarrierTooSmall),
            self.valid_spec(carrier_bytes@) && payload@.len() > self.capacity_spec(
                carrier_bytes@,
            ) && payload@.len() > 0 ==> (r matches Err(e) && e == BlobError::CarrierTooSmall),
    ;

    /// Extracts the embedded payload, or reports that none is present.
    fn extract(&self, carrier_bytes: &[u8]) -> (r: Option<Vec<u8>>)
        ensures
            match r {
                Some(v) => self.extract_spec(carrier_bytes@) == Some(v@),
                None => self.extract_spec(carrier_bytes@) is None,
            },
    ;

    /// Law: a successful embedding still passes the format's validation.
    proof fn lemma_embed_valid(&self, data: Seq<u8>, payload: Seq<u8>)
        requires
            self.embed_ok(data, payload),
            payload.len() > 0,
        ensures
            self.valid_spec(self.embed_spec(data, payload)),
    ;

    /// Law: extraction recovers the embedded payload.
    proof fn lemma_extract_embed(&self, data: Seq<u8>, payload: Seq<u8>)
        requires
            self.embed_ok(data, payload),
            self.roundtrip_ok(data, payload),
            payload.len() > 0,
        ensures
            self.extract_spec(self.embed_spec(data, payload)) == Some(payload),
    ;

    /// Law: embedding grows the carrier by at most the payload's overhead.
    proof fn lemma_embed_size(&self, data: Seq<u8>, payload: Seq<u8>)
        requires
            self.embed_ok(data, payload),
            payload.len() > 0,
        ensures
            self.embed_spec(data, payload).len() <= data.len() + self.embed_overhead(payload),
    ;
}

} // verus!
