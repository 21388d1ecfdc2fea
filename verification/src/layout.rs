use vstd::prelude::*;

use crate::bytes_util::{append_subrange, overwrite, subrange_to_vec, write_at};
use crate::crypto::{aead_decrypt, aead_encrypt, aead_seal, random_bytes};
use crate::errors::BlobError;
use crate::index::{spec_deserialize_index, spec_serialize_index, MetadataMap};
use vstd::bytes::{lemma_auto_spec_u64_to_from_le_bytes, spec_u64_from_le_bytes, spec_u64_to_le_bytes, u64_from_le_bytes, u64_to_le_bytes};
use vstd::slice::slice_subrange;

verus! {

// --- Fixed offsets of the on-disk layout ---

/// Length of the format magic.
pub const MAGIC_LEN: usize = 8;

/// Format version byte.
pub const VERSION: u8 = 3;

/// Length of a volume salt.
pub const SALT_LEN: usize = 16;

/// Length of an XChaCha20-Poly1305 nonce.
pub const XNONCE_LEN: usize = 24;

/// Length of the standard header: magic, version, salt, metadata nonce,
/// metadata size.
pub const STANDARD_HEADER_LEN: usize = 57;

/// Offset of the standard volume's metadata ciphertext.
pub const STANDARD_METADATA_OFFSET: usize = 57;

/// Offset of the hidden header. Its salt is a fresh random draw, its nonce
/// is a fresh random draw, and the ciphertext after it is AEAD output, so
/// none of that marks the hidden volume. The metadata-size field, though,
/// is a plain little-endian integer that must be readable before any key
/// exists: those eight bytes are small integers, not uniform randomness —
/// a limit of the wire format itself, not of this implementation.
pub const HIDDEN_HEADER_OFFSET: usize = 65536;

/// Offset of the hidden volume's metadata ciphertext.
pub const HIDDEN_METADATA_OFFSET: usize = 65584;

/// Offset of the first file data block.
pub const DATA_AREA_START: usize = 1114160;

/// Cap on a metadata block's stored size; a larger size field is corruption.
pub const METADATA_SIZE_CAP: u64 = 52428800;

/// The format magic, `ENC_BLOB` in ASCII.
pub open spec fn magic() -> Seq<u8> {
    seq![0x45u8, 0x4Eu8, 0x43u8, 0x5Fu8, 0x42u8, 0x4Cu8, 0x4Fu8, 0x42u8]
}

/// The format magic as bytes.
pub fn magic_bytes() -> (r: Vec<u8>)
    ensures
        r@ == magic(),
        r@.len() == 8,
{
    let mut r: Vec<u8> = Vec::new();
    r.push(0x45);
    r.push(0x4E);
    r.push(0x43);
    r.push(0x5F);
    r.push(0x42);
    r.push(0x4C);
    r.push(0x4F);
    r.push(0x42);
    proof {
        assert(r@ =~= magic());
    }
    r
}

/// Identifies which volume is meant: the standard (decoy) volume, whose
/// header carries the format magic, or the hidden volume at its fixed
/// offset.
#[derive(Debug, Clone, Copy, PartialEq, Eq, Structural)]
pub enum VolumeType {
    Standard,
    Hidden,
}

/// Offset of a volume's metadata ciphertext.
pub open spec fn spec_meta_offset(vol: VolumeType) -> int {
    match vol {
        VolumeType::Standard => 57,
        VolumeType::Hidden => 65584,
    }
}

/// Offset of a volume's metadata ciphertext.
pub fn meta_offset(vol: VolumeType) -> (r: usize)
    ensures
        r == spec_meta_offset(vol),
{
    match vol {
        VolumeType::Standard => STANDARD_METADATA_OFFSET,
        VolumeType::Hidden => HIDDEN_METADATA_OFFSET,
    }
}

/// One past the last byte a volume's metadata ciphertext may reach: the
/// standard block must not cross the hidden header, the hidden block must
/// not cross the data area.
pub open spec fn spec_meta_end(vol: VolumeType) -> int {
    match vol {
        VolumeType::Standard => 65536,
        VolumeType::Hidden => 1114160,
    }
}

/// One past the last byte a volume's metadata ciphertext may reach.
pub fn meta_end(vol: VolumeType) -> (r: usize)
    ensures
        r == spec_meta_end(vol),
{
    match vol {
        VolumeType::Standard => HIDDEN_HEADER_OFFSET,
        VolumeType::Hidden => DATA_AREA_START,
    }
}

/// Offset of a volume's salt field.
pub open spec fn spec_salt_offset(vol: VolumeType) -> int {
    match vol {
        VolumeType::Standard => 9,
        VolumeType::Hidden => 65536,
    }
}

/// Offset of a volume's metadata-nonce field; the metadata-size field
/// follows it directly.
pub open spec fn spec_nonce_field_offset(vol: VolumeType) -> int {
    match vol {
        VolumeType::Standard => 25,
        VolumeType::Hidden => 65552,
    }
}

/// Offset of a volume's metadata-nonce field.
pub fn nonce_field_offset(vol: VolumeType) -> (r: usize)
    ensures
        r == spec_nonce_field_offset(vol),
{
    match vol {
        VolumeType::Standard => 25,
        VolumeType::Hidden => 65552,
    }
}

/// A volume's salt as stored in its header.
pub open spec fn spec_salt(b: Seq<u8>, vol: VolumeType) -> Seq<u8> {
    b.subrange(spec_salt_offset(vol), spec_salt_offset(vol) + 16)
}

/// A volume's metadata nonce as stored in its header.
pub open spec fn spec_meta_nonce(b: Seq<u8>, vol: VolumeType) -> Seq<u8> {
    b.subrange(spec_nonce_field_offset(vol), spec_nonce_field_offset(vol) + 24)
}

/// A volume's metadata size as stored in its header.
pub open spec fn spec_meta_size(b: Seq<u8>, vol: VolumeType) -> u64 {
    spec_u64_from_le_bytes(
        b.subrange(spec_nonce_field_offset(vol) + 24, spec_nonce_field_offset(vol) + 32),
    )
}

/// True when a volume's header can be read: the blob reaches past the
/// header, and for the standard volume the magic and version match. The
/// hidden header has no magic: its bytes must look like padding.
pub open spec fn spec_header_ok(b: Seq<u8>, vol: VolumeType) -> bool {
    match vol {
        VolumeType::Standard => b.len() >= 57 && b.subrange(0, 8) == magic() && b[8] == 3,
        VolumeType::Hidden => b.len() >= 65584,
    }
}

/// The fields of one volume header.
pub struct HeaderInfo {
    /// The volume's 16-byte salt.
    pub salt: Vec<u8>,
    /// The metadata block's 24-byte nonce.
    pub nonce: Vec<u8>,
    /// The metadata block's size in bytes.
    pub size: u64,
}

/// Reads the standard header at the start of the blob, checking magic and
/// version.
pub fn read_standard_header(blob: &[u8]) -> (r: Result<HeaderInfo, BlobError>)
    ensures
        match r {
            Ok(h) => spec_header_ok(blob@, VolumeType::Standard) && h.salt@ == spec_salt(
                blob@,
                VolumeType::Standard,
            ) && h.nonce@ == spec_meta_nonce(blob@, VolumeType::Standard) && h.size
                == spec_meta_size(blob@, VolumeType::Standard),
            Err(e) => !spec_header_ok(blob@, VolumeType::Standard) && e
                == BlobError::InvalidFormat,
        },
{
    if blob.len() < STANDARD_HEADER_LEN {
        return Err(BlobError::InvalidFormat);
    }
    let m = magic_bytes();
    if !crate::bytes_util::range_eq(blob, 0, m.as_slice(), 0, MAGIC_LEN) {
        proof {
            assert(m@.subrange(0, 8) =~= magic());
        }
        return Err(BlobError::InvalidFormat);
    }
    proof {
        assert(m@.subrange(0, 8) =~= magic());
    }
    if blob[8] != VERSION {
        return Err(BlobError::InvalidFormat);
    }
    let salt = subrange_to_vec(blob, 9, 25);
    let nonce = subrange_to_vec(blob, 25, 49);
    let size = u64_from_le_bytes(slice_subrange(blob, 49, 57));
    Ok(HeaderInfo { salt, nonce, size })
}

/// Reads the hidden header at its fixed offset. There is no magic to check:
/// any blob long enough yields fields, meaningful only with the right key.
pub fn read_hidden_header(blob: &[u8]) -> (r: Result<HeaderInfo, BlobError>)
    ensures
        match r {
            Ok(h) => spec_header_ok(blob@, VolumeType::Hidden) && h.salt@ == spec_salt(
                blob@,
                VolumeType::Hidden,
            ) && h.nonce@ == spec_meta_nonce(blob@, VolumeType::Hidden) && h.size
                == spec_meta_size(blob@, VolumeType::Hidden),
            Err(e) => !spec_header_ok(blob@, VolumeType::Hidden) && e
                == BlobError::InvalidFormat,
        },
{
    if blob.len() < HIDDEN_METADATA_OFFSET {
        return Err(BlobError::InvalidFormat);
    }
    let salt = subrange_to_vec(blob, HIDDEN_HEADER_OFFSET, HIDDEN_HEADER_OFFSET + 16);
    let nonce = subrange_to_vec(blob, 65552, 65576);
    let size = u64_from_le_bytes(slice_subrange(blob, 65576, 65584));
    Ok(HeaderInfo { salt, nonce, size })
}

/// Overwrites a volume's metadata-nonce and metadata-size header fields.
pub fn update_header_metadata(blob: &mut Vec<u8>, vol: VolumeType, nonce: &[u8], size: u64)
    requires
        old(blob)@.len() >= 65584,
        nonce@.len() == 24,
    ensures
        final(blob)@ == overwrite(
            old(blob)@,
            spec_nonce_field_offset(vol),
            nonce@ + spec_u64_to_le_bytes(size),
        ),
{
    let off = nonce_field_offset(vol);
    let mut field: Vec<u8> = Vec::new();
    append_subrange(&mut field, nonce, 0, 24);
    let sz = u64_to_le_bytes(size);
    append_subrange(&mut field, sz.as_slice(), 0, 8);
    proof {
        assert(nonce@.subrange(0, 24) =~= nonce@);
        assert(sz@.subrange(0, 8) =~= sz@);
        assert(field@ =~= nonce@ + spec_u64_to_le_bytes(size));
    }
    write_at(blob, off, field.as_slice());
}

/// True when the bytes of `b` from `off` for `len` bytes hold a data block
/// of `content` under `key`: a 24-byte nonce followed by the sealed content.
pub open spec fn data_block_at(
    b: Seq<u8>,
    key: Seq<u8>,
    off: int,
    len: int,
    content: Seq<u8>,
) -> bool {
    &&& len == content.len() + 40
    &&& len < 0x3F_FFFF_FF00
    &&& 0 <= off
    &&& off + len <= b.len()
    &&& b.subrange(off + 24, off + len) == aead_seal(key, b.subrange(off, off + 24), content)
}

/// Encrypts `content` under a fresh random nonce and appends the data block
/// at the end of the blob, padding with random bytes up to the data-area
/// start when the blob is still shorter than that. Returns the new entry's
/// record.
pub fn append_file_data(
    blob: &mut Vec<u8>,
    key: &[u8; 32],
    content: &[u8],
    mime_type: &[u8],
) -> (r: crate::index::FileMetadata)
    requires
        content@.len() < 0x3F_FFFF_0000,
        old(blob)@.len() + content@.len() + 2114160 < usize::MAX,
    ensures
        r.size == content@.len(),
        r.data_offset == if old(blob)@.len() < 1114160 {
            1114160int
        } else {
            old(blob)@.len() as int
        },
        r.data_length == content@.len() + 40,
        r.mime_type@ == mime_type@,
        final(blob)@.len() == r.data_offset + r.data_length,
        final(blob)@.subrange(0, old(blob)@.len() as int) == old(blob)@,
        data_block_at(final(blob)@, key@, r.data_offset as int, r.data_length as int, content@),
{
    let ghost prefix_len = blob@.len() as int;
    if blob.len() < DATA_AREA_START {
        let pad = random_bytes(DATA_AREA_START - blob.len());
        append_subrange(blob, pad.as_slice(), 0, pad.len());
        proof {
            assert(pad@.subrange(0, pad@.len() as int) =~= pad@);
        }
    }
    let data_offset = blob.len();
    let nonce = random_bytes(XNONCE_LEN);
    let ciphertext = aead_encrypt(key, nonce.as_slice(), content);
    append_subrange(blob, nonce.as_slice(), 0, XNONCE_LEN);
    append_subrange(blob, ciphertext.as_slice(), 0, ciphertext.len());
    proof {
        assert(nonce@.subrange(0, 24) =~= nonce@);
        assert(ciphertext@.subrange(0, ciphertext@.len() as int) =~= ciphertext@);
        assert(blob@.subrange(data_offset as int, data_offset + 24) =~= nonce@);
        assert(blob@.subrange(data_offset + 24, data_offset + 40 + content@.len()) =~=
            ciphertext@);
        assert(blob@.subrange(0, old(blob)@.len() as int) =~= old(blob)@);
    }
    let data_length = (XNONCE_LEN + ciphertext.len()) as u64;
    crate::index::FileMetadata {
        size: content.len() as u64,
        data_offset: data_offset as u64,
        data_length,
        mime_type: crate::index::copy_bytes_slice(mime_type),
    }
}

/// Reads and decrypts the data block that `meta` points at.
pub fn read_file_data(
    blob: &[u8],
    key: &[u8; 32],
    meta: &crate::index::FileMetadata,
) -> (r: Result<Vec<u8>, BlobError>)
    ensures
        match r {
            Ok(v) => data_block_at(
                blob@,
                key@,
                meta.data_offset as int,
                meta.data_length as int,
                v@,
            ),
            Err(e) => e == BlobError::Corruption,
        },
        forall|c: Seq<u8>|
            data_block_at(blob@, key@, meta.data_offset as int, meta.data_length as int, c)
                ==> (r matches Ok(v) && v@ == c),
{
    let blen = blob.len();
    if meta.data_length < 40 || meta.data_length >= 0x3F_FFFF_FF00 || meta.data_offset > (
    blen as u64) || meta.data_length > (blen as u64) - meta.data_offset {
        return Err(BlobError::Corruption);
    }
    let off = meta.data_offset as usize;
    let dlen = meta.data_length as usize;
    let nonce = slice_subrange(blob, off, off + 24);
    let ciphertext = slice_subrange(blob, off + 24, off + dlen);
    match aead_decrypt(key, nonce, ciphertext) {
        Some(v) => {
            if v.len() as u64 == meta.data_length - 40 {
                Ok(v)
            } else {
                proof {
                    assert forall|c: Seq<u8>|
                        !data_block_at(
                            blob@,
                            key@,
                            meta.data_offset as int,
                            meta.data_length as int,
                            c,
                        ) by {
                        if data_block_at(
                            blob@,
                            key@,
                            meta.data_offset as int,
                            meta.data_length as int,
                            c,
                        ) {
                            assert(c.len() + 16 == ciphertext@.len());
                        }
                    }
                }
                Err(BlobError::Corruption)
            }
        },
        None => {
            proof {
                assert forall|c: Seq<u8>|
                    !data_block_at(
                        blob@,
                        key@,
                        meta.data_offset as int,
                        meta.data_length as int,
                        c,
                    ) by {
                    if data_block_at(
                        blob@,
                        key@,
                        meta.data_offset as int,
                        meta.data_length as int,
                        c,
                    ) {
                        assert(c.len() + 16 == ciphertext@.len());
                    }
                }
            }
            Err(BlobError::Corruption)
        },
    }
}

/// True when decrypting `size` bytes at `off` under `key` and `nonce` parses
/// to the index `map`. A zero size is an empty index without decryption.
pub open spec fn meta_block_yields(
    b: Seq<u8>,
    key: Seq<u8>,
    nonce: Seq<u8>,
    size: u64,
    off: int,
    map: Seq<crate::index::IndexEntryV>,
) -> bool {
    if size == 0 {
        map == Seq::<crate::index::IndexEntryV>::empty()
    } else {
        &&& size <= 52428800
        &&& 0 <= off
        &&& off + size <= b.len()
        &&& exists|pt: Seq<u8>|
            {
                &&& pt.len() + 16 == size
                &&& b.subrange(off, off + size) == aead_seal(key, nonce, pt)
                &&& spec_deserialize_index(pt) == Some(map)
            }
    }
}

/// True when the block can be decrypted and parsed at all.
pub open spec fn meta_block_ok(
    b: Seq<u8>,
    key: Seq<u8>,
    nonce: Seq<u8>,
    size: u64,
    off: int,
) -> bool {
    exists|map: Seq<crate::index::IndexEntryV>| meta_block_yields(b, key, nonce, size, off, map)
}

/// Reads, decrypts and parses a volume's metadata block.
pub fn read_metadata_block(
    blob: &[u8],
    key: &[u8; 32],
    nonce: &[u8],
    size: u64,
    offset: usize,
) -> (r: Result<MetadataMap, BlobError>)
    requires
        nonce@.len() == 24,
    ensures
        match r {
            Ok(m) => meta_block_yields(blob@, key@, nonce@, size, offset as int, m@),
            Err(e) => !meta_block_ok(blob@, key@, nonce@, size, offset as int) && (e
                == BlobError::InvalidPassword || e == BlobError::Corruption),
        },
        forall|map: Seq<crate::index::IndexEntryV>|
            meta_block_yields(blob@, key@, nonce@, size, offset as int, map) ==> (
            r matches Ok(m) && m@ == map),
{
    if size == 0 {
        let m = MetadataMap::new();
        return Ok(m);
    }
    let blen = blob.len();
    if size > METADATA_SIZE_CAP || offset as u64 > (blen as u64) || size > (blen as u64) - (
    offset as u64) {
        proof {
            assert forall|map: Seq<crate::index::IndexEntryV>|
                !meta_block_yields(blob@, key@, nonce@, size, offset as int, map) by {}
        }
        return Err(BlobError::Corruption);
    }
    let sz = size as usize;
    let ciphertext = slice_subrange(blob, offset, offset + sz);
    match aead_decrypt(key, nonce, ciphertext) {
        Some(pt) => {
            match MetadataMap::deserialize(pt.as_slice()) {
                Ok(m) => {
                    proof {
                        assert(meta_block_yields(
                            blob@,
                            key@,
                            nonce@,
                            size,
                            offset as int,
                            m@,
                        )) by {
                            assert(pt@.len() + 16 == size);
                            assert(blob@.subrange(offset as int, offset + size) == aead_seal(
                                key@,
                                nonce@,
                                pt@,
                            ));
                        }
                        assert forall|map: Seq<crate::index::IndexEntryV>|
                            meta_block_yields(blob@, key@, nonce@, size, offset as int, map)
                                implies m@ == map by {
                            let pt2 = choose|pt2: Seq<u8>|
                                {
                                    &&& pt2.len() + 16 == size
                                    &&& blob@.subrange(offset as int, offset + size)
                                        == aead_seal(key@, nonce@, pt2)
                                    &&& spec_deserialize_index(pt2) == Some(map)
                                };
                            assert(pt2 == pt@);
                        }
                    }
                    Ok(m)
                },
                Err(_) => {
                    proof {
                        assert forall|map: Seq<crate::index::IndexEntryV>|
                            !meta_block_yields(blob@, key@, nonce@, size, offset as int, map)
                            by {
                            if meta_block_yields(blob@, key@, nonce@, size, offset as int, map) {
                                let pt2 = choose|pt2: Seq<u8>|
                                    {
                                        &&& pt2.len() + 16 == size
                                        &&& blob@.subrange(offset as int, offset + size)
                                            == aead_seal(key@, nonce@, pt2)
                                        &&& spec_deserialize_index(pt2) == Some(map)
                                    };
                                assert(pt2 == pt@);
                            }
                        }
                    }
                    Err(BlobError::Corruption)
                },
            }
        },
        None => {
            proof {
                assert forall|map: Seq<crate::index::IndexEntryV>|
                    !meta_block_yields(blob@, key@, nonce@, size, offset as int, map) by {
                    if meta_block_yields(blob@, key@, nonce@, size, offset as int, map) {
                        let pt2 = choose|pt2: Seq<u8>|
                            {
                                &&& pt2.len() + 16 == size
                                &&& blob@.subrange(offset as int, offset + size) == aead_seal(
                                    key@,
                                    nonce@,
                                    pt2,
                                )
                                &&& spec_deserialize_index(pt2) == Some(map)
                            };
                    }
                }
            }
            Err(BlobError::InvalidPassword)
        },
    }
}

/// Serializes the index, encrypts it under a fresh random nonce, and
/// overwrites the volume's metadata region. Fails when the ciphertext would
/// cross the end of the volume's metadata region; the blob is then
/// unchanged. Returns the nonce used and the ciphertext's size.
pub fn write_metadata_block(
    blob: &mut Vec<u8>,
    key: &[u8; 32],
    map: &MetadataMap,
    vol: VolumeType,
) -> (r: Result<(Vec<u8>, u64), BlobError>)
    requires
        old(blob)@.len() >= 1114160,
    ensures
        match r {
            Ok((n, sz)) => {
                &&& n@.len() == 24
                &&& sz == spec_serialize_index(map@).len() + 16
                &&& aead_seal(key@, n@, spec_serialize_index(map@)).len() == sz
                &&& spec_meta_offset(vol) + sz <= spec_meta_end(vol)
                &&& final(blob)@ == overwrite(
                    old(blob)@,
                    spec_meta_offset(vol),
                    aead_seal(key@, n@, spec_serialize_index(map@)),
                )
            },
            Err(e) => {
                &&& final(blob)@ == old(blob)@
                &&& e == BlobError::Corruption
                &&& spec_meta_offset(vol) + spec_serialize_index(map@).len() + 16
                    > spec_meta_end(vol)
            },
        },
{
    let plaintext = map.serialize();
    let offset = meta_offset(vol);
    let end = meta_end(vol);
    if plaintext.len() > end - offset - 16 {
        return Err(BlobError::Corruption);
    }
    let nonce = random_bytes(XNONCE_LEN);
    let ciphertext = aead_encrypt(key, nonce.as_slice(), plaintext.as_slice());
    write_at(blob, offset, ciphertext.as_slice());
    let sz = ciphertext.len() as u64;
    Ok((nonce, sz))
}

} // verus!
