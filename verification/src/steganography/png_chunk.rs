use vstd::prelude::*;

use crate::bytes_util::{
    append_subrange, lemma_u32_be_round_trip, spec_u32_from_be_bytes, spec_u32_to_be_bytes,
    subrange_to_vec, u32_from_be_slice, u32_to_be_bytes,
};
use crate::crypto::{crc32, crc32_of};
use crate::errors::BlobError;
use crate::steganography::StegoCarrier;

verus! {

/// The PNG signature.
pub open spec fn png_sig() -> Seq<u8> {
    seq![0x89u8, 0x50u8, 0x4Eu8, 0x47u8, 0x0Du8, 0x0Au8, 0x1Au8, 0x0Au8]
}

/// The ancillary chunk type used for embedded data, `ruNd` in ASCII: the
/// lowercase first letter marks the chunk as safe for decoders to ignore.
pub open spec fn stego_chunk_type() -> Seq<u8> {
    seq![0x72u8, 0x75u8, 0x4Eu8, 0x64u8]
}

/// The `IDAT` chunk type.
pub open spec fn idat_type() -> Seq<u8> {
    seq![0x49u8, 0x44u8, 0x41u8, 0x54u8]
}

/// The `IEND` chunk type.
pub open spec fn iend_type() -> Seq<u8> {
    seq![0x49u8, 0x45u8, 0x4Eu8, 0x44u8]
}

fn png_sig_bytes() -> (r: Vec<u8>)
    ensures
        r@ == png_sig(),
        r@.len() == 8,
{
    let mut r: Vec<u8> = Vec::new();
    r.push(0x89);
    r.push(0x50);
    r.push(0x4E);
    r.push(0x47);
    r.push(0x0D);
    r.push(0x0A);
    r.push(0x1A);
    r.push(0x0A);
    proof {
        assert(r@ =~= png_sig());
    }
    r
}

fn stego_type_bytes() -> (r: Vec<u8>)
    ensures
        r@ == stego_chunk_type(),
        r@.len() == 4,
{
    let mut r: Vec<u8> = Vec::new();
    r.push(0x72);
    r.push(0x75);
    r.push(0x4E);
    r.push(0x64);
    proof {
        assert(r@ =~= stego_chunk_type());
    }
    r
}

fn idat_bytes() -> (r: Vec<u8>)
    ensures
        r@ == idat_type(),
        r@.len() == 4,
{
    let mut r: Vec<u8> = Vec::new();
    r.push(0x49);
    r.push(0x44);
    r.push(0x41);
    r.push(0x54);
    proof {
        assert(r@ =~= idat_type());
    }
    r
}

fn iend_bytes() -> (r: Vec<u8>)
    ensures
        r@ == iend_type(),
        r@.len() == 4,
{
    let mut r: Vec<u8> = Vec::new();
    r.push(0x49);
    r.push(0x45);
    r.push(0x4E);
    r.push(0x44);
    proof {
        assert(r@ =~= iend_type());
    }
    r
}

/// True when the bytes start with the PNG signature.
pub open spec fn png_valid(data: Seq<u8>) -> bool {
    data.len() >= 8 && data.subrange(0, 8) == png_sig()
}

// --- The chunk walk over the bytes after the signature ---

/// The declared data length of the chunk at the front of `s`.
pub open spec fn chunk_len_at(s: Seq<u8>) -> int
    recommends
        s.len() >= 8,
{
    spec_u32_from_be_bytes(s.subrange(0, 4)) as int
}

/// The type of the chunk at the front of `s`.
pub open spec fn chunk_type_at(s: Seq<u8>) -> Seq<u8>
    recommends
        s.len() >= 8,
{
    s.subrange(4, 8)
}

/// The whole size of the chunk at the front of `s`: length, type, data, CRC.
pub open spec fn chunk_total(s: Seq<u8>) -> int
    recommends
        s.len() >= 8,
{
    12 + chunk_len_at(s)
}

/// True when a whole chunk can be read at the front of `s`.
pub open spec fn chunk_readable(s: Seq<u8>) -> bool {
    s.len() >= 8 && chunk_total(s) <= s.len()
}

/// The data bytes of the chunk at the front of `s`.
pub open spec fn chunk_data_at(s: Seq<u8>) -> Seq<u8>
    recommends
        chunk_readable(s),
{
    s.subrange(8, 8 + chunk_len_at(s))
}

/// The payload the walk collects: the concatenated data of every `ruNd`
/// chunk from the front of `s` up to `IEND` or the first unreadable chunk.
pub open spec fn png_walk_payload(s: Seq<u8>) -> Seq<u8>
    decreases s.len(),
{
    if !chunk_readable(s) {
        Seq::empty()
    } else if chunk_type_at(s) == iend_type() {
        Seq::empty()
    } else if chunk_type_at(s) == stego_chunk_type() {
        chunk_data_at(s) + png_walk_payload(s.skip(chunk_total(s)))
    } else {
        png_walk_payload(s.skip(chunk_total(s)))
    }
}

/// True when the walk meets at least one `ruNd` chunk.
pub open spec fn png_walk_found(s: Seq<u8>) -> bool
    decreases s.len(),
{
    if !chunk_readable(s) {
        false
    } else if chunk_type_at(s) == iend_type() {
        false
    } else if chunk_type_at(s) == stego_chunk_type() {
        true
    } else {
        png_walk_found(s.skip(chunk_total(s)))
    }
}

/// The payload that extraction recovers.
pub open spec fn png_extract(data: Seq<u8>) -> Option<Seq<u8>> {
    if png_valid(data) && png_walk_found(data.skip(8)) {
        Some(png_walk_payload(data.skip(8)))
    } else {
        None
    }
}

// --- Building the embedded form ---

/// One framed chunk: big-endian length, type, data, CRC-32 of type and data.
pub open spec fn png_chunk_enc(typ: Seq<u8>, d: Seq<u8>) -> Seq<u8> {
    spec_u32_to_be_bytes(d.len() as u32) + typ + d + spec_u32_to_be_bytes(crc32_of(typ + d))
}

/// The payload split into `ruNd` chunks of at most 256 KiB each.
pub open spec fn png_payload_chunks(p: Seq<u8>) -> Seq<u8>
    recommends
        p.len() > 0,
    decreases p.len(),
{
    if p.len() <= 262144 {
        png_chunk_enc(stego_chunk_type(), p)
    } else {
        png_chunk_enc(stego_chunk_type(), p.take(262144)) + png_payload_chunks(p.skip(262144))
    }
}

/// The copied remainder from the first `IDAT` on: whole chunks up to and
/// including `IEND`, with `ruNd` chunks dropped and trailing bytes ignored.
pub open spec fn png_copy_rest(s: Seq<u8>) -> Seq<u8>
    decreases s.len(),
{
    if !chunk_readable(s) {
        Seq::empty()
    } else if chunk_type_at(s) == iend_type() {
        s.take(chunk_total(s))
    } else if chunk_type_at(s) == stego_chunk_type() {
        png_copy_rest(s.skip(chunk_total(s)))
    } else {
        s.take(chunk_total(s)) + png_copy_rest(s.skip(chunk_total(s)))
    }
}

/// The walk that embeds: copies chunks (dropping `ruNd` ones) up to the
/// first `IDAT`, inserts the framed payload there, and copies the rest.
/// Fails when the walk finds no `IDAT`.
pub open spec fn png_embed_walk(s: Seq<u8>, stego: Seq<u8>) -> Option<Seq<u8>>
    decreases s.len(),
{
    if !chunk_readable(s) {
        None
    } else if chunk_type_at(s) == idat_type() {
        Some(stego + png_copy_rest(s))
    } else if chunk_type_at(s) == iend_type() {
        None
    } else if chunk_type_at(s) == stego_chunk_type() {
        png_embed_walk(s.skip(chunk_total(s)), stego)
    } else {
        match png_embed_walk(s.skip(chunk_total(s)), stego) {
            Some(t) => Some(s.take(chunk_total(s)) + t),
            None => None,
        }
    }
}

/// When embedding succeeds: a valid PNG with an `IDAT` reachable by the
/// chunk walk, and a payload within capacity. An empty payload always
/// succeeds.
pub open spec fn png_embed_ok(data: Seq<u8>, payload: Seq<u8>) -> bool {
    if payload.len() == 0 {
        true
    } else {
        &&& png_valid(data)
        &&& payload.len() <= 104857600
        &&& png_embed_walk(data.skip(8), png_payload_chunks(payload)) is Some
    }
}

/// The embedded output.
pub open spec fn png_embed(data: Seq<u8>, payload: Seq<u8>) -> Seq<u8> {
    if payload.len() == 0 {
        data
    } else {
        png_sig() + png_embed_walk(data.skip(8), png_payload_chunks(payload))->Some_0
    }
}

/// Hides data in ancillary `ruNd` chunks inserted before the first `IDAT`
/// chunk of a PNG file; decoders skip unknown ancillary chunks.
pub struct PngChunkCarrier {}

impl PngChunkCarrier {
    /// A PNG chunk carrier.
    pub fn new() -> (r: PngChunkCarrier) {
        PngChunkCarrier {}
    }

    /// Checks that the bytes start with the PNG signature.
    pub fn validate_png(&self, data: &[u8]) -> (r: Result<(), BlobError>)
        ensures
            r is Ok <==> png_valid(data@),
            r matches Err(e) ==> e == BlobError::InvalidFormat,
    {
        if data.len() < 8 {
            return Err(BlobError::InvalidFormat);
        }
        let sig = png_sig_bytes();
        let ok = crate::bytes_util::range_eq(data, 0, sig.as_slice(), 0, 8);
        proof {
            assert(sig@.subrange(0, 8) =~= png_sig());
        }
        if ok {
            Ok(())
        } else {
            Err(BlobError::InvalidFormat)
        }
    }

    /// Frames one `ruNd` chunk around `d` and appends it to `out`.
    fn write_chunk(&self, out: &mut Vec<u8>, d: &[u8], d_start: usize, d_end: usize)
        requires
            d_start <= d_end <= d@.len(),
            d_end - d_start <= 0xFFFF_FFFF,
        ensures
            final(out)@ == old(out)@ + png_chunk_enc(
                stego_chunk_type(),
                d@.subrange(d_start as int, d_end as int),
            ),
    {
        let ghost data = d@.subrange(d_start as int, d_end as int);
        let n = d_end - d_start;
        let len_be = u32_to_be_bytes(n as u32);
        append_subrange(out, len_be.as_slice(), 0, 4);
        let typ = stego_type_bytes();
        append_subrange(out, typ.as_slice(), 0, 4);
        append_subrange(out, d, d_start, d_end);
        // CRC over type and data
        let mut crc_input = subrange_to_vec(typ.as_slice(), 0, 4);
        append_subrange(&mut crc_input, d, d_start, d_end);
        proof {
            assert(typ@.subrange(0, 4) =~= stego_chunk_type());
            assert(crc_input@ =~= stego_chunk_type() + data);
        }
        let c = crc32(crc_input.as_slice());
        let crc_be = u32_to_be_bytes(c);
        append_subrange(out, crc_be.as_slice(), 0, 4);
        proof {
            assert(len_be@.subrange(0, 4) =~= len_be@);
            assert(crc_be@.subrange(0, 4) =~= crc_be@);
            assert(final(out)@ =~= old(out)@ + png_chunk_enc(stego_chunk_type(), data));
        }
    }
}

impl StegoCarrier for PngChunkCarrier {
    open spec fn valid_spec(&self, data: Seq<u8>) -> bool {
        png_valid(data)
    }

    open spec fn capacity_spec(&self, data: Seq<u8>) -> int {
        if png_valid(data) {
            104857600
        } else {
            0
        }
    }

    open spec fn extract_spec(&self, data: Seq<u8>) -> Option<Seq<u8>> {
        png_extract(data)
    }

    open spec fn embed_ok(&self, data: Seq<u8>, payload: Seq<u8>) -> bool {
        png_embed_ok(data, payload)
    }

    open spec fn embed_spec(&self, data: Seq<u8>, payload: Seq<u8>) -> Seq<u8> {
        png_embed(data, payload)
    }

    open spec fn roundtrip_ok(&self, data: Seq<u8>, payload: Seq<u8>) -> bool {
        true
    }

    open spec fn embed_overhead(&self, payload: Seq<u8>) -> int {
        png_payload_chunks(payload).len() as int
    }

    fn capacity(&self, carrier_bytes: &[u8]) -> (r: usize)
        ensures
            r as int == self.capacity_spec(carrier_bytes@),
    {
        match self.validate_png(carrier_bytes) {
            Ok(_) => 104857600,
            Err(_) => 0,
        }
    }

    #[verifier::rlimit(100)]
    fn embed(&self, carrier_bytes: &[u8], payload: &[u8]) -> (r: Result<Vec<u8>, BlobError>) {
        if payload.len() == 0 {
            return Ok(crate::index::copy_bytes_slice(carrier_bytes));
        }
        match self.validate_png(carrier_bytes) {
            Ok(_) => {},
            Err(e) => {
                return Err(e);
            },
        }
        if payload.len() > 104857600 {
            return Err(BlobError::CarrierTooSmall);
        }
        // frame the payload as ruNd chunks
        let mut stego: Vec<u8> = Vec::new();
        let mut pos: usize = 0;
        let plen = payload.len();
        proof {
            assert(payload@.skip(0) =~= payload@);
            assert(Seq::<u8>::empty() + png_payload_chunks(payload@) =~= png_payload_chunks(
                payload@,
            ));
        }
        while plen - pos > 262144
            invariant
                pos < plen,
                plen == payload@.len(),
                png_payload_chunks(payload@) == stego@ + png_payload_chunks(
                    payload@.skip(pos as int),
                ),
            decreases plen - pos,
        {
            let ghost sfx = payload@.skip(pos as int);
            let ghost stego0 = stego@;
            self.write_chunk(&mut stego, payload, pos, pos + 262144);
            proof {
                assert(sfx.take(262144) =~= payload@.subrange(pos as int, pos + 262144));
                assert(sfx.skip(262144) =~= payload@.skip(pos + 262144));
                assert(png_payload_chunks(sfx) == png_chunk_enc(
                    stego_chunk_type(),
                    sfx.take(262144),
                ) + png_payload_chunks(sfx.skip(262144)));
                assert(stego0 + (png_chunk_enc(stego_chunk_type(), sfx.take(262144))
                    + png_payload_chunks(payload@.skip(pos + 262144))) =~= stego@
                    + png_payload_chunks(payload@.skip(pos + 262144)));
            }
            pos = pos + 262144;
        }
        let ghost sfx = payload@.skip(pos as int);
        self.write_chunk(&mut stego, payload, pos, plen);
        proof {
            assert(sfx =~= payload@.subrange(pos as int, plen as int));
            assert(png_payload_chunks(sfx) == png_chunk_enc(stego_chunk_type(), sfx));
            assert(png_payload_chunks(payload@) =~= stego@);
        }
        // walk the chunks, dropping old ruNd chunks, inserting before IDAT
        let mut out = png_sig_bytes();
        let blen = carrier_bytes.len();
        let mut cpos: usize = 8;
        let idat = idat_bytes();
        let iend = iend_bytes();
        let runt = stego_type_bytes();
        proof {
            assert(out@.subrange(0, 8) =~= png_sig());
            assert(out@.skip(8) =~= Seq::<u8>::empty());
            match png_embed_walk(carrier_bytes@.skip(8), stego@) {
                Some(t) => {
                    assert(out@.skip(8) + t =~= t);
                },
                None => {},
            }
        }
        loop
            invariant
                8 <= cpos <= blen,
                blen == carrier_bytes@.len(),
                plen == payload@.len(),
                0 < plen <= 104857600,
                png_valid(carrier_bytes@),
                stego@ == png_payload_chunks(payload@),
                out@.subrange(0, 8) == png_sig(),
                out@.len() >= 8,
                idat@ == idat_type(),
                iend@ == iend_type(),
                runt@ == stego_chunk_type(),
                idat@.len() == 4,
                iend@.len() == 4,
                runt@.len() == 4,
                png_embed_walk(carrier_bytes@.skip(8), stego@) == (match png_embed_walk(
                    carrier_bytes@.skip(cpos as int),
                    stego@,
                ) {
                    Some(t) => Some(out@.skip(8) + t),
                    None => None::<Seq<u8>>,
                }),
            decreases blen - cpos,
        {
            let ghost sfx = carrier_bytes@.skip(cpos as int);
            let rem = blen - cpos;
            if rem < 12 {
                proof {
                    assert(!chunk_readable(sfx));
                }
                return Err(BlobError::InvalidFormat);
            }
            let clen32 = u32_from_be_slice(carrier_bytes, cpos);
            proof {
                assert(sfx.subrange(0, 4) =~= carrier_bytes@.subrange(cpos as int, cpos + 4));
            }
            if (clen32 as u64) > (rem as u64) - 12 {
                proof {
                    assert(!chunk_readable(sfx));
                }
                return Err(BlobError::InvalidFormat);
            }
            let clen = clen32 as usize;
            let total = 12 + clen;
            proof {
                assert(chunk_readable(sfx));
                assert(chunk_total(sfx) == total);
                assert(chunk_type_at(sfx) =~= carrier_bytes@.subrange(cpos + 4, cpos + 8));
                assert(sfx.skip(total as int) =~= carrier_bytes@.skip(cpos + total));
                assert(sfx.take(total as int) =~= carrier_bytes@.subrange(
                    cpos as int,
                    cpos + total,
                ));
            }
            if crate::bytes_util::range_eq(carrier_bytes, cpos + 4, idat.as_slice(), 0, 4) {
                proof {
                    assert(idat@.subrange(0, 4) =~= idat_type());
                    assert(chunk_type_at(sfx) == idat_type());
                }
                // insert the framed payload, then copy the rest
                append_subrange(&mut out, stego.as_slice(), 0, stego.len());
                proof {
                    assert(stego@.subrange(0, stego@.len() as int) =~= stego@);
                }
                let ghost walk_base = out@;
                proof {
                    assert(walk_base.subrange(0, 8) =~= png_sig());
                    assert(png_embed_walk(sfx, stego@) == Some(stego@ + png_copy_rest(sfx)));
                    assert(png_embed_walk(carrier_bytes@.skip(8), stego@) == Some(
                        walk_base.skip(8) + png_copy_rest(carrier_bytes@.skip(cpos as int)),
                    )) by {
                        assert(out@.skip(8).subrange(0, out@.skip(8).len() - stego@.len())
                            + stego@ =~= walk_base.skip(8));
                        match png_embed_walk(carrier_bytes@.skip(cpos as int), stego@) {
                            Some(t) => {
                                assert((walk_base.skip(8).subrange(
                                    0,
                                    walk_base.skip(8).len() - stego@.len(),
                                )) + (stego@ + png_copy_rest(sfx)) =~= walk_base.skip(8)
                                    + png_copy_rest(sfx));
                            },
                            None => {},
                        }
                    }
                }
                let mut rpos: usize = cpos;
                loop
                    invariant_except_break
                        cpos <= rpos <= blen,
                        blen == carrier_bytes@.len(),
                        iend@ == iend_type(),
                        runt@ == stego_chunk_type(),
                        iend@.len() == 4,
                        runt@.len() == 4,
                        plen == payload@.len(),
                        0 < plen <= 104857600,
                        png_valid(carrier_bytes@),
                        stego@ == png_payload_chunks(payload@),
                        walk_base.subrange(0, 8) == png_sig(),
                        png_embed_walk(carrier_bytes@.skip(8), stego@) == Some(
                            walk_base.skip(8) + png_copy_rest(carrier_bytes@.skip(cpos as int)),
                        ),
                        out@.len() >= walk_base.len() >= 8,
                        png_copy_rest(carrier_bytes@.skip(cpos as int)) == out@.skip(
                            walk_base.len() as int,
                        ) + png_copy_rest(carrier_bytes@.skip(rpos as int)),
                        out@.subrange(0, walk_base.len() as int) == walk_base,
                    ensures
                        plen == payload@.len(),
                        0 < plen <= 104857600,
                        png_valid(carrier_bytes@),
                        stego@ == png_payload_chunks(payload@),
                        walk_base.subrange(0, 8) == png_sig(),
                        png_embed_walk(carrier_bytes@.skip(8), stego@) == Some(
                            walk_base.skip(8) + png_copy_rest(carrier_bytes@.skip(cpos as int)),
                        ),
                        out@.len() >= walk_base.len() >= 8,
                        png_copy_rest(carrier_bytes@.skip(cpos as int)) == out@.skip(
                            walk_base.len() as int,
                        ),
                        out@.subrange(0, walk_base.len() as int) == walk_base,
                    decreases blen - rpos,
                {
                    let ghost rsfx = carrier_bytes@.skip(rpos as int);
                    let rrem = blen - rpos;
                    if rrem < 12 {
                        proof {
                            assert(!chunk_readable(rsfx));
                            assert(png_copy_rest(rsfx) =~= Seq::<u8>::empty());
                            assert(out@.skip(walk_base.len() as int) + Seq::<u8>::empty()
                                =~= out@.skip(walk_base.len() as int));
                        }
                        break ;
                    }
                    let rlen32 = u32_from_be_slice(carrier_bytes, rpos);
                    proof {
                        assert(rsfx.subrange(0, 4) =~= carrier_bytes@.subrange(
                            rpos as int,
                            rpos + 4,
                        ));
                    }
                    if (rlen32 as u64) > (rrem as u64) - 12 {
                        proof {
                            assert(!chunk_readable(rsfx));
                            assert(png_copy_rest(rsfx) =~= Seq::<u8>::empty());
                            assert(out@.skip(walk_base.len() as int) + Seq::<u8>::empty()
                                =~= out@.skip(walk_base.len() as int));
                        }
                        break ;
                    }
                    let rlen = rlen32 as usize;
                    let rtotal = 12 + rlen;
                    proof {
                        assert(chunk_readable(rsfx));
                        assert(chunk_total(rsfx) == rtotal);
                        assert(chunk_type_at(rsfx) =~= carrier_bytes@.subrange(
                            rpos + 4,
                            rpos + 8,
                        ));
                        assert(rsfx.skip(rtotal as int) =~= carrier_bytes@.skip(rpos + rtotal));
                        assert(rsfx.take(rtotal as int) =~= carrier_bytes@.subrange(
                            rpos as int,
                            rpos + rtotal,
                        ));
                    }
                    if crate::bytes_util::range_eq(carrier_bytes, rpos + 4, runt.as_slice(), 0, 4)
                    {
                        proof {
                            assert(runt@.subrange(0, 4) =~= stego_chunk_type());
                            assert(chunk_type_at(rsfx) == stego_chunk_type());
                            assert(stego_chunk_type() != iend_type()) by {
                                assert(stego_chunk_type()[0] != iend_type()[0]);
                            }
                        }
                        rpos = rpos + rtotal;
                    } else if crate::bytes_util::range_eq(
                        carrier_bytes,
                        rpos + 4,
                        iend.as_slice(),
                        0,
                        4,
                    ) {
                        proof {
                            assert(iend@.subrange(0, 4) =~= iend_type());
                            assert(chunk_type_at(rsfx) == iend_type());
                        }
                        let ghost out_before = out@;
                        append_subrange(&mut out, carrier_bytes, rpos, rpos + rtotal);
                        proof {
                            assert(png_copy_rest(rsfx) == rsfx.take(rtotal as int));
                            assert(out@.skip(walk_base.len() as int) =~= out_before.skip(
                                walk_base.len() as int,
                            ) + rsfx.take(rtotal as int));
                            assert(out@.subrange(0, walk_base.len() as int) =~= walk_base);
                            assert(png_copy_rest(carrier_bytes@.skip(cpos as int)) == out@.skip(
                                walk_base.len() as int,
                            ));
                        }
                        break ;
                    } else {
                        proof {
                            assert(iend@.subrange(0, 4) =~= iend_type());
                            assert(runt@.subrange(0, 4) =~= stego_chunk_type());
                            assert(chunk_type_at(rsfx) != iend_type());
                            assert(chunk_type_at(rsfx) != stego_chunk_type());
                        }
                        let ghost out_before = out@;
                        append_subrange(&mut out, carrier_bytes, rpos, rpos + rtotal);
                        proof {
                            assert(out@.skip(walk_base.len() as int) =~= out_before.skip(
                                walk_base.len() as int,
                            ) + rsfx.take(rtotal as int));
                            assert(out@.subrange(0, walk_base.len() as int) =~= walk_base);
                            assert(out_before.skip(walk_base.len() as int) + (rsfx.take(
                                rtotal as int,
                            ) + png_copy_rest(carrier_bytes@.skip(rpos + rtotal))) =~= out@.skip(
                                walk_base.len() as int,
                            ) + png_copy_rest(carrier_bytes@.skip(rpos + rtotal)));
                        }
                        rpos = rpos + rtotal;
                    }
                }
                proof {
                    assert(out@ =~= walk_base + out@.skip(walk_base.len() as int));
                    assert(out@.skip(8) =~= walk_base.skip(8) + out@.skip(
                        walk_base.len() as int,
                    ));
                    assert(out@.skip(8) == png_embed_walk(carrier_bytes@.skip(8), stego@)
                        ->Some_0);
                    assert(out@.subrange(0, 8) =~= png_sig());
                    assert(out@ =~= png_sig() + png_embed_walk(
                        carrier_bytes@.skip(8),
                        stego@,
                    )->Some_0);
                }
                return Ok(out);
            }
            if crate::bytes_util::range_eq(carrier_bytes, cpos + 4, iend.as_slice(), 0, 4) {
                proof {
                    assert(iend@.subrange(0, 4) =~= iend_type());
                    assert(idat@.subrange(0, 4) =~= idat_type());
                    assert(chunk_type_at(sfx) == iend_type());
                    assert(chunk_type_at(sfx) != idat_type()) by {
                        assert(iend_type()[1] != idat_type()[1]);
                    }
                }
                return Err(BlobError::InvalidFormat);
            }
            proof {
                assert(idat@.subrange(0, 4) =~= idat_type());
                assert(iend@.subrange(0, 4) =~= iend_type());
                assert(chunk_type_at(sfx) != idat_type());
                assert(chunk_type_at(sfx) != iend_type());
            }
            if crate::bytes_util::range_eq(carrier_bytes, cpos + 4, runt.as_slice(), 0, 4) {
                proof {
                    assert(runt@.subrange(0, 4) =~= stego_chunk_type());
                    assert(chunk_type_at(sfx) == stego_chunk_type());
                }
                cpos = cpos + total;
            } else {
                proof {
                    assert(runt@.subrange(0, 4) =~= stego_chunk_type());
                    assert(chunk_type_at(sfx) != stego_chunk_type());
                }
                let ghost out_before = out@;
                append_subrange(&mut out, carrier_bytes, cpos, cpos + total);
                proof {
                    assert(out@.subrange(0, 8) =~= png_sig());
                    assert(out@.skip(8) =~= out_before.skip(8) + sfx.take(total as int));
                    match png_embed_walk(carrier_bytes@.skip(cpos + total), stego@) {
                        Some(t) => {
                            assert(out_before.skip(8) + (sfx.take(total as int) + t)
                                =~= out@.skip(8) + t);
                        },
                        None => {},
                    }
                }
                cpos = cpos + total;
            }
        }
    }

    fn extract(&self, carrier_bytes: &[u8]) -> (r: Option<Vec<u8>>) {
        match self.validate_png(carrier_bytes) {
            Ok(_) => {},
            Err(_) => {
                return None;
            },
        }
        let blen = carrier_bytes.len();
        let mut pos: usize = 8;
        let mut found = false;
        let mut acc: Vec<u8> = Vec::new();
        let iend = iend_bytes();
        let runt = stego_type_bytes();
        proof {
            assert(acc@ + png_walk_payload(carrier_bytes@.skip(8)) =~= png_walk_payload(
                carrier_bytes@.skip(8),
            ));
        }
        loop
            invariant_except_break
                8 <= pos <= blen,
                blen == carrier_bytes@.len(),
                iend@ == iend_type(),
                runt@ == stego_chunk_type(),
                iend@.len() == 4,
                runt@.len() == 4,
                png_walk_found(carrier_bytes@.skip(8)) == (found || png_walk_found(
                    carrier_bytes@.skip(pos as int),
                )),
                png_walk_payload(carrier_bytes@.skip(8)) == acc@ + png_walk_payload(
                    carrier_bytes@.skip(pos as int),
                ),
            ensures
                png_walk_found(carrier_bytes@.skip(8)) == found,
                png_walk_payload(carrier_bytes@.skip(8)) == acc@,
            decreases blen - pos,
        {
            let ghost sfx = carrier_bytes@.skip(pos as int);
            let rem = blen - pos;
            if rem < 12 {
                proof {
                    assert(!chunk_readable(sfx));
                    assert(acc@ + png_walk_payload(sfx) =~= acc@);
                }
                break ;
            }
            let clen32 = u32_from_be_slice(carrier_bytes, pos);
            proof {
                assert(sfx.subrange(0, 4) =~= carrier_bytes@.subrange(pos as int, pos + 4));
            }
            if (clen32 as u64) > (rem as u64) - 12 {
                proof {
                    assert(!chunk_readable(sfx));
                    assert(acc@ + png_walk_payload(sfx) =~= acc@);
                }
                break ;
            }
            let clen = clen32 as usize;
            let total = 12 + clen;
            proof {
                assert(chunk_readable(sfx));
                assert(chunk_total(sfx) == total);
                assert(chunk_type_at(sfx) =~= carrier_bytes@.subrange(pos + 4, pos + 8));
                assert(sfx.skip(total as int) =~= carrier_bytes@.skip(pos + total));
            }
            if crate::bytes_util::range_eq(carrier_bytes, pos + 4, iend.as_slice(), 0, 4) {
                proof {
                    assert(iend@.subrange(0, 4) =~= iend_type());
                    assert(chunk_type_at(sfx) == iend_type());
                    assert(acc@ + png_walk_payload(sfx) =~= acc@);
                }
                break ;
            }
            if crate::bytes_util::range_eq(carrier_bytes, pos + 4, runt.as_slice(), 0, 4) {
                proof {
                    assert(iend@.subrange(0, 4) =~= iend_type());
                    assert(runt@.subrange(0, 4) =~= stego_chunk_type());
                    assert(chunk_type_at(sfx) == stego_chunk_type());
                    assert(chunk_type_at(sfx) != iend_type()) by {
                        assert(stego_chunk_type()[0] != iend_type()[0]);
                    }
                    assert(chunk_data_at(sfx) =~= carrier_bytes@.subrange(
                        pos + 8,
                        pos + 8 + clen,
                    ));
                }
                found = true;
                let ghost acc0 = acc@;
                append_subrange(&mut acc, carrier_bytes, pos + 8, pos + 8 + clen);
                proof {
                    assert(acc0 + (chunk_data_at(sfx) + png_walk_payload(
                        carrier_bytes@.skip(pos + total),
                    )) =~= acc@ + png_walk_payload(carrier_bytes@.skip(pos + total)));
                }
            } else {
                proof {
                    assert(iend@.subrange(0, 4) =~= iend_type());
                    assert(runt@.subrange(0, 4) =~= stego_chunk_type());
                    assert(chunk_type_at(sfx) != iend_type());
                    assert(chunk_type_at(sfx) != stego_chunk_type());
                }
            }
            pos = pos + total;
        }
        if found {
            Some(acc)
        } else {
            None
        }
    }

    proof fn lemma_embed_valid(&self, data: Seq<u8>, payload: Seq<u8>) {
        let r = png_embed(data, payload);
        assert(r.subrange(0, 8) =~= png_sig());
    }

    proof fn lemma_extract_embed(&self, data: Seq<u8>, payload: Seq<u8>) {
        lemma_png_extract_embed(data, payload);
    }

    proof fn lemma_embed_size(&self, data: Seq<u8>, payload: Seq<u8>) {
        lemma_png_embed_size(data, payload);
    }
}

/// A whole chunk prepended to anything parses as itself.
proof fn lemma_png_chunk_prepend(c: Seq<u8>, t: Seq<u8>)
    requires
        c.len() >= 12,
        chunk_len_at(c) == c.len() - 12,
    ensures
        chunk_readable(c + t),
        chunk_len_at(c + t) == chunk_len_at(c),
        chunk_type_at(c + t) == chunk_type_at(c),
        chunk_data_at(c + t) == chunk_data_at(c),
        chunk_total(c + t) == c.len() as int,
        (c + t).skip(chunk_total(c + t)) == t,
{
    let u = c + t;
    assert(u.subrange(0, 4) =~= c.subrange(0, 4));
    assert(u.subrange(4, 8) =~= c.subrange(4, 8));
    assert(u.subrange(8, 8 + chunk_len_at(c)) =~= c.subrange(8, 8 + chunk_len_at(c)));
    assert(u.skip(c.len() as int) =~= t);
}

/// A framed chunk is a whole chunk of its data's length.
proof fn lemma_png_chunk_enc_shape(typ: Seq<u8>, d: Seq<u8>)
    requires
        typ.len() == 4,
        d.len() <= 0xFFFF_FFFF,
    ensures
        png_chunk_enc(typ, d).len() == 12 + d.len(),
        chunk_len_at(png_chunk_enc(typ, d)) == d.len(),
        chunk_type_at(png_chunk_enc(typ, d)) == typ,
        chunk_data_at(png_chunk_enc(typ, d)) == d,
{
    lemma_u32_be_round_trip(d.len() as u32);
    lemma_u32_be_round_trip(crc32_of(typ + d));
    let c = png_chunk_enc(typ, d);
    assert(c.subrange(0, 4) =~= spec_u32_to_be_bytes(d.len() as u32));
    assert(c.subrange(4, 8) =~= typ);
    assert(c.subrange(8, 8 + d.len() as int) =~= d);
}

/// Walking the framed payload followed by walk-silent bytes collects
/// exactly the payload.
#[verifier::rlimit(100)]
#[verifier::spinoff_prover]
proof fn lemma_png_walk_chunks(p: Seq<u8>, t: Seq<u8>)
    requires
        0 < p.len() <= 104857600,
        png_walk_found(t) == false,
        png_walk_payload(t) == Seq::<u8>::empty(),
    ensures
        png_walk_found(png_payload_chunks(p) + t),
        png_walk_payload(png_payload_chunks(p) + t) == p,
    decreases p.len(),
{
    if p.len() <= 262144 {
        let c = png_chunk_enc(stego_chunk_type(), p);
        lemma_png_chunk_enc_shape(stego_chunk_type(), p);
        lemma_png_chunk_prepend(c, t);
        assert(chunk_type_at(c + t) == stego_chunk_type());
        assert(stego_chunk_type() != iend_type()) by {
            assert(stego_chunk_type()[0] != iend_type()[0]);
        }
        assert(png_walk_payload(c + t) == p + png_walk_payload(t));
        assert(p + png_walk_payload(t) =~= p);
        assert(png_payload_chunks(p) + t =~= c + t);
    } else {
        let head = p.take(262144);
        let rest = p.skip(262144);
        lemma_png_walk_chunks(rest, t);
        let c = png_chunk_enc(stego_chunk_type(), head);
        lemma_png_chunk_enc_shape(stego_chunk_type(), head);
        let tail = png_payload_chunks(rest) + t;
        lemma_png_chunk_prepend(c, tail);
        assert(stego_chunk_type() != iend_type()) by {
            assert(stego_chunk_type()[0] != iend_type()[0]);
        }
        assert(png_payload_chunks(p) + t =~= c + tail);
        assert(png_walk_payload(c + tail) == head + png_walk_payload(tail));
        assert(head + rest =~= p);
    }
}

/// The copied remainder is walk-silent: it holds no `ruNd` chunk.
proof fn lemma_png_copy_rest_silent(s: Seq<u8>)
    ensures
        png_walk_found(png_copy_rest(s)) == false,
        png_walk_payload(png_copy_rest(s)) == Seq::<u8>::empty(),
    decreases s.len(),
{
    if !chunk_readable(s) {
        assert(png_copy_rest(s) =~= Seq::<u8>::empty());
    } else if chunk_type_at(s) == iend_type() {
        let c = s.take(chunk_total(s));
        assert(c.len() == chunk_total(s));
        assert(chunk_len_at(c) == chunk_len_at(s)) by {
            assert(c.subrange(0, 4) =~= s.subrange(0, 4));
        }
        assert(chunk_type_at(c) =~= chunk_type_at(s));
        assert(chunk_readable(c));
        assert(png_walk_found(c) == false);
        assert(png_walk_payload(c) =~= Seq::<u8>::empty());
    } else if chunk_type_at(s) == stego_chunk_type() {
        lemma_png_copy_rest_silent(s.skip(chunk_total(s)));
    } else {
        let rest = s.skip(chunk_total(s));
        lemma_png_copy_rest_silent(rest);
        let c = s.take(chunk_total(s));
        assert(c.len() == chunk_total(s) >= 12);
        assert(chunk_len_at(c) == chunk_len_at(s)) by {
            assert(c.subrange(0, 4) =~= s.subrange(0, 4));
        }
        lemma_png_chunk_prepend(c, png_copy_rest(rest));
        assert(chunk_type_at(c) =~= chunk_type_at(s));
        assert(png_walk_found(c + png_copy_rest(rest)) == png_walk_found(png_copy_rest(rest)));
        assert(png_walk_payload(c + png_copy_rest(rest)) == png_walk_payload(
            png_copy_rest(rest),
        ));
    }
}

/// The walk of the embedded output collects exactly the payload.
proof fn lemma_png_walk_embed(s: Seq<u8>, p: Seq<u8>)
    requires
        png_embed_walk(s, png_payload_chunks(p)) is Some,
        0 < p.len() <= 104857600,
    ensures
        png_walk_found(png_embed_walk(s, png_payload_chunks(p))->Some_0),
        png_walk_payload(png_embed_walk(s, png_payload_chunks(p))->Some_0) == p,
    decreases s.len(),
{
    let stego = png_payload_chunks(p);
    if chunk_type_at(s) == idat_type() && chunk_readable(s) {
        lemma_png_copy_rest_silent(s);
        lemma_png_walk_chunks(p, png_copy_rest(s));
    } else if chunk_type_at(s) == stego_chunk_type() && chunk_readable(s) {
        lemma_png_walk_embed(s.skip(chunk_total(s)), p);
    } else {
        let rest = s.skip(chunk_total(s));
        lemma_png_walk_embed(rest, p);
        let t = png_embed_walk(rest, stego)->Some_0;
        let c = s.take(chunk_total(s));
        assert(chunk_len_at(c) == chunk_len_at(s)) by {
            assert(c.subrange(0, 4) =~= s.subrange(0, 4));
        }
        lemma_png_chunk_prepend(c, t);
        assert(chunk_type_at(c) =~= chunk_type_at(s));
        assert(png_walk_found(c + t) == png_walk_found(t));
        assert(png_walk_payload(c + t) == png_walk_payload(t));
    }
}

/// Extraction recovers the embedded payload. The chunk framing needs no
/// marker scan, so no further condition is needed.
pub proof fn lemma_png_extract_embed(data: Seq<u8>, payload: Seq<u8>)
    requires
        png_embed_ok(data, payload),
        payload.len() > 0,
    ensures
        png_extract(png_embed(data, payload)) == Some(payload),
{
    let r = png_embed(data, payload);
    let w = png_embed_walk(data.skip(8), png_payload_chunks(payload))->Some_0;
    lemma_png_walk_embed(data.skip(8), payload);
    assert(r.subrange(0, 8) =~= png_sig());
    assert(r.skip(8) =~= w);
}

/// The embedded output never exceeds the carrier plus the framed payload.
pub proof fn lemma_png_embed_size(data: Seq<u8>, payload: Seq<u8>)
    requires
        png_embed_ok(data, payload),
        payload.len() > 0,
    ensures
        png_embed(data, payload).len() <= data.len() + png_payload_chunks(payload).len(),
{
    lemma_png_embed_walk_size(data.skip(8), png_payload_chunks(payload));
}

/// The embed walk output is bounded by its input plus the inserted bytes.
proof fn lemma_png_embed_walk_size(s: Seq<u8>, stego: Seq<u8>)
    requires
        png_embed_walk(s, stego) is Some,
    ensures
        png_embed_walk(s, stego)->Some_0.len() <= s.len() + stego.len(),
    decreases s.len(),
{
    if chunk_readable(s) && chunk_type_at(s) == idat_type() {
        lemma_png_copy_rest_size(s);
    } else if chunk_readable(s) && chunk_type_at(s) == stego_chunk_type() {
        lemma_png_embed_walk_size(s.skip(chunk_total(s)), stego);
    } else {
        lemma_png_embed_walk_size(s.skip(chunk_total(s)), stego);
    }
}

/// The copied remainder is bounded by its input.
proof fn lemma_png_copy_rest_size(s: Seq<u8>)
    ensures
        png_copy_rest(s).len() <= s.len(),
    decreases s.len(),
{
    if !chunk_readable(s) {
    } else if chunk_type_at(s) == iend_type() {
    } else {
        lemma_png_copy_rest_size(s.skip(chunk_total(s)));
    }
}


/// The embed walk steps over the framed payload chunks at the front without
/// copying them: they carry the stego chunk type.
proof fn lemma_png_walk_skips_chunks(p: Seq<u8>, t: Seq<u8>, stego: Seq<u8>)
    requires
        0 < p.len() <= 104857600,
    ensures
        png_embed_walk(png_payload_chunks(p) + t, stego) == png_embed_walk(t, stego),
    decreases p.len(),
{
    assert(stego_chunk_type() != idat_type()) by {
        assert(stego_chunk_type()[0] != idat_type()[0]);
    }
    assert(stego_chunk_type() != iend_type()) by {
        assert(stego_chunk_type()[0] != iend_type()[0]);
    }
    if p.len() <= 262144 {
        let c = png_chunk_enc(stego_chunk_type(), p);
        lemma_png_chunk_enc_shape(stego_chunk_type(), p);
        lemma_png_chunk_prepend(c, t);
        assert(png_payload_chunks(p) + t =~= c + t);
        assert(chunk_type_at(c + t) == stego_chunk_type());
        assert(png_embed_walk(c + t, stego) == png_embed_walk(t, stego));
    } else {
        let head = p.take(262144);
        let rest = p.skip(262144);
        lemma_png_walk_skips_chunks(rest, t, stego);
        let c = png_chunk_enc(stego_chunk_type(), head);
        lemma_png_chunk_enc_shape(stego_chunk_type(), head);
        let tail2 = png_payload_chunks(rest) + t;
        lemma_png_chunk_prepend(c, tail2);
        assert(png_payload_chunks(p) + t =~= c + tail2);
        assert(chunk_type_at(c + tail2) == stego_chunk_type());
        assert(png_embed_walk(c + tail2, stego) == png_embed_walk(tail2, stego));
    }
}

/// A second embed walk over an embedded output drops the first framed
/// payload again, so its result is bounded by the original bytes plus the
/// new frames alone.
proof fn lemma_png_embed_twice_size(s: Seq<u8>, p1: Seq<u8>, stego2: Seq<u8>)
    requires
        png_embed_walk(s, png_payload_chunks(p1)) is Some,
        0 < p1.len() <= 104857600,
    ensures
        png_embed_walk(png_embed_walk(s, png_payload_chunks(p1))->Some_0, stego2) is Some,
        png_embed_walk(png_embed_walk(s, png_payload_chunks(p1))->Some_0, stego2)
            ->Some_0.len() <= s.len() + stego2.len(),
    decreases s.len(),
{
    let st1 = png_payload_chunks(p1);
    let r1 = png_embed_walk(s, st1)->Some_0;
    if chunk_readable(s) && chunk_type_at(s) == idat_type() {
        // the first walk put the frames right before this chunk; the second
        // walk skips them and stops where the first copy stopped
        assert(r1 == st1 + png_copy_rest(s));
        lemma_png_walk_skips_chunks(p1, png_copy_rest(s), stego2);
        assert(png_embed_walk(r1, stego2) == png_embed_walk(png_copy_rest(s), stego2));
        // the copied remainder begins with this same IDAT chunk
        let c = s.take(chunk_total(s));
        let rest = png_copy_rest(s.skip(chunk_total(s)));
        assert(png_copy_rest(s) == c + rest) by {
            assert(chunk_type_at(s) != iend_type()) by {
                assert(idat_type()[1] != iend_type()[1]);
            }
            assert(chunk_type_at(s) != stego_chunk_type()) by {
                assert(idat_type()[0] != stego_chunk_type()[0]);
            }
        }
        assert(c.len() == chunk_total(s));
        assert(chunk_len_at(c) == chunk_len_at(s)) by {
            assert(c.subrange(0, 4) =~= s.subrange(0, 4));
        }
        lemma_png_chunk_prepend(c, rest);
        assert(chunk_type_at(c) =~= chunk_type_at(s));
        assert(png_embed_walk(c + rest, stego2) == Some(stego2 + png_copy_rest(c + rest)));
        lemma_png_copy_rest_size(c + rest);
        lemma_png_copy_rest_size(s.skip(chunk_total(s)));
        assert((stego2 + png_copy_rest(c + rest)).len() <= stego2.len() + c.len()
            + rest.len());
        assert(c.len() + rest.len() <= s.len());
    } else if chunk_readable(s) && chunk_type_at(s) == stego_chunk_type() {
        lemma_png_embed_twice_size(s.skip(chunk_total(s)), p1, stego2);
    } else if chunk_readable(s) && chunk_type_at(s) != iend_type() {
        let c = s.take(chunk_total(s));
        let r1p = png_embed_walk(s.skip(chunk_total(s)), st1)->Some_0;
        assert(r1 == c + r1p);
        lemma_png_embed_twice_size(s.skip(chunk_total(s)), p1, stego2);
        let u = png_embed_walk(r1p, stego2)->Some_0;
        assert(c.len() == chunk_total(s));
        assert(chunk_len_at(c) == chunk_len_at(s)) by {
            assert(c.subrange(0, 4) =~= s.subrange(0, 4));
        }
        lemma_png_chunk_prepend(c, r1p);
        assert(chunk_type_at(c) =~= chunk_type_at(s));
        assert(png_embed_walk(c + r1p, stego2) == Some(c + u));
        assert((c + u).len() <= s.len() + stego2.len());
    }
}

/// Embedding a second payload into an embedded carrier is bounded by the
/// carrier plus the second payload's frames alone: the first payload's
/// chunks are stripped before the second is inserted.
pub proof fn lemma_png_reembed_bounded(data: Seq<u8>, p1: Seq<u8>, p2: Seq<u8>)
    requires
        png_embed_ok(data, p1),
        p1.len() > 0,
        png_embed_ok(png_embed(data, p1), p2),
        p2.len() > 0,
    ensures
        png_embed(png_embed(data, p1), p2).len() <= data.len() + png_payload_chunks(
            p2,
        ).len(),
{
    let r1 = png_embed(data, p1);
    assert(r1.skip(8) =~= png_embed_walk(data.skip(8), png_payload_chunks(p1))->Some_0);
    lemma_png_embed_twice_size(data.skip(8), p1, png_payload_chunks(p2));
    assert(png_embed(r1, p2).len() == 8 + png_embed_walk(
        r1.skip(8),
        png_payload_chunks(p2),
    )->Some_0.len());
}

} // verus!
