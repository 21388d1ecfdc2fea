use vstd::prelude::*;

use crate::crypto::kdf_of;
use crate::errors::BlobError;
use crate::index::{
    copy_bytes_slice, remove_path, spec_serialize_index, FileMetadata, IndexEntryV,
    MetadataMap,
};
use crate::layout::{
    data_block_at, magic, magic_bytes, spec_meta_end, spec_meta_offset,
    spec_salt, VolumeType,
};
use crate::steganography::StegoCarrier;
use crate::volume::{
    add_file, get_file, init_blob, spec_added_entry, spec_file_added, spec_volume_yields,
    unlock_blob,
};

verus! {

/// True when the bytes are a bare blob rather than a wrapped carrier.
pub open spec fn is_bare_blob(s: Seq<u8>) -> bool {
    s.len() >= 8 && s.subrange(0, 8) == magic()
}

/// True when `b` is the inner blob that one given carrier reads out of the
/// bytes: the bytes themselves when they are a bare blob, else what the
/// carrier extracts.
pub open spec fn stego_inner_one<C: StegoCarrier>(s: Seq<u8>, c: C, b: Seq<u8>) -> bool {
    if is_bare_blob(s) {
        b == s
    } else {
        c.extract_spec(s) == Some(b)
    }
}

/// True when `b` is the inner blob that some carrier of the list reads out
/// of the bytes, or the bytes themselves when they are a bare blob.
pub open spec fn stego_inner<C: StegoCarrier>(s: Seq<u8>, cs: Seq<C>, b: Seq<u8>) -> bool {
    ||| (is_bare_blob(s) && b == s)
    ||| exists|i: int| 0 <= i < cs.len() && #[trigger] cs[i].extract_spec(s) == Some(b)
}

/// Checks whether the bytes are a bare blob.
fn check_bare(s: &[u8]) -> (r: bool)
    ensures
        r == is_bare_blob(s@),
{
    if s.len() < 8 {
        return false;
    }
    let m = magic_bytes();
    let r = crate::bytes_util::range_eq(s, 0, m.as_slice(), 0, 8);
    proof {
        assert(m@.subrange(0, 8) =~= magic());
    }
    r
}

/// Builds a fresh dual-volume blob and hides it in the carrier. The result
/// still passes the carrier format's validation and extracts back to the
/// inner blob. Fails with `ConflictingPasswords` exactly when the two
/// passwords are equal.
pub fn init_stego_blob<C: StegoCarrier>(
    carrier_bytes: &[u8],
    carrier: &C,
    password_s: &[u8],
    password_h: &[u8],
) -> (r: Result<Vec<u8>, BlobError>)
    requires
        password_s@.len() <= 0xFFFF_FFFF,
        password_h@.len() <= 0xFFFF_FFFF,
        carrier_bytes@.len() + 3500000 < usize::MAX,
    ensures
        (r matches Err(e) && e == BlobError::ConflictingPasswords) <==> password_s@
            == password_h@,
        r matches Ok(v) ==> exists|b: Seq<u8>|
            {
                &&& #[trigger] carrier.embed_ok(carrier_bytes@, b)
                &&& v@ == carrier.embed_spec(carrier_bytes@, b)
                &&& b.len() == 1114160
                &&& spec_salt(b, VolumeType::Standard) != spec_salt(b, VolumeType::Hidden)
                &&& spec_volume_yields(
                    b,
                    kdf_of(password_s@, spec_salt(b, VolumeType::Standard)),
                    VolumeType::Standard,
                    Seq::<IndexEntryV>::empty(),
                )
                &&& spec_volume_yields(
                    b,
                    kdf_of(password_h@, spec_salt(b, VolumeType::Hidden)),
                    VolumeType::Hidden,
                    Seq::<IndexEntryV>::empty(),
                )
            },
        r matches Err(e) ==> (e == BlobError::ConflictingPasswords || e
            == BlobError::InvalidPassword || ((e == BlobError::InvalidFormat || e
            == BlobError::CarrierTooSmall) && exists|b: Seq<u8>|
            b.len() == 1114160 && !(#[trigger] carrier.embed_ok(carrier_bytes@, b)))),
{
    let blob = match init_blob(password_s, password_h) {
        Ok(b) => b,
        Err(e) => {
            return Err(e);
        },
    };
    match carrier.embed(carrier_bytes, blob.as_slice()) {
        Ok(v) => Ok(v),
        Err(e) => Err(e),
    }
}

/// Unlocks a blob hidden in carrier bytes: a bare blob (recognized by its
/// magic) is unlocked directly; otherwise each carrier is tried in turn and
/// the first one that extracts a payload supplies the inner blob. Every
/// failure surfaces as the one generic error.
pub fn unlock_stego_blob<C: StegoCarrier>(
    stego_bytes: &[u8],
    carriers: &Vec<C>,
    password: &[u8],
) -> (r: Result<(VolumeType, [u8; 32], MetadataMap), BlobError>)
    requires
        password@.len() <= 0xFFFF_FFFF,
    ensures
        match r {
            Ok((vol, key, map)) => exists|b: Seq<u8>|
                {
                    &&& #[trigger] stego_inner(stego_bytes@, carriers@, b)
                    &&& key@ == kdf_of(password@, spec_salt(b, vol))
                    &&& spec_volume_yields(b, key@, vol, map@)
                },
            Err(e) => e == BlobError::InvalidPassword,
        },
{
    if check_bare(stego_bytes) {
        match unlock_blob(stego_bytes, password) {
            Ok(out) => {
                proof {
                    assert(stego_inner(stego_bytes@, carriers@, stego_bytes@));
                }
                return Ok(out);
            },
            Err(e) => {
                return Err(e);
            },
        }
    }
    let n = carriers.len();
    let mut i: usize = 0;
    while i < n
        invariant
            n == carriers@.len(),
            i <= n,
            password@.len() <= 0xFFFF_FFFF,
        decreases n - i,
    {
        match carriers[i].extract(stego_bytes) {
            Some(inner) => {
                match unlock_blob(inner.as_slice(), password) {
                    Ok(out) => {
                        proof {
                            assert(carriers@[i as int].extract_spec(stego_bytes@) == Some(
                                inner@,
                            ));
                            assert(stego_inner(stego_bytes@, carriers@, inner@));
                        }
                        return Ok(out);
                    },
                    Err(e) => {
                        return Err(e);
                    },
                }
            },
            None => {},
        }
        i = i + 1;
    }
    Err(BlobError::InvalidPassword)
}

/// Adds one file to the blob hidden in the carrier bytes and returns the
/// rewrapped bytes: the inner blob is extracted (or taken bare), the file is
/// added, and the updated blob is embedded back into the same bytes,
/// replacing the previous embedding. A bare blob stays bare.
#[verifier::rlimit(100)]
pub fn add_file_stego<C: StegoCarrier>(
    stego_bytes: &[u8],
    carrier: &C,
    volume_type: VolumeType,
    key: &[u8; 32],
    metadata_map: &mut MetadataMap,
    file_path: &[u8],
    content: &[u8],
    mime_type: &[u8],
) -> (r: Result<Vec<u8>, BlobError>)
    requires
        content@.len() < 0x3F_FFFF_0000,
        stego_bytes@.len() + content@.len() * 2 + 9000000 < usize::MAX,
    ensures
        match r {
            Ok(v) => exists|b0: Seq<u8>, b1: Seq<u8>|
                {
                    &&& #[trigger] stego_inner_one(stego_bytes@, *carrier, b0)
                    &&& #[trigger] spec_file_added(
                        b0,
                        b1,
                        volume_type,
                        key@,
                        old(metadata_map)@,
                        final(metadata_map)@,
                        file_path@,
                        content@,
                        mime_type@,
                    )
                    &&& (is_bare_blob(stego_bytes@) ==> v@ == b1)
                    &&& (!is_bare_blob(stego_bytes@) ==> carrier.embed_ok(stego_bytes@, b1)
                        && v@ == carrier.embed_spec(stego_bytes@, b1))
                },
            Err(e) => e == BlobError::Corruption || e == BlobError::InvalidFormat || e
                == BlobError::CarrierTooSmall,
        },
        is_bare_blob(stego_bytes@) ==> (r is Err <==> (stego_bytes@.len() < 1114160
            || spec_meta_offset(volume_type) + spec_serialize_index(
            remove_path(old(metadata_map)@, file_path@).push(
                spec_added_entry(stego_bytes@, file_path@, content@, mime_type@),
            ),
        ).len() + 16 > spec_meta_end(volume_type))),
        (!is_bare_blob(stego_bytes@) && carrier.extract_spec(stego_bytes@) is None) ==> (
        r matches Err(e) && e == BlobError::InvalidFormat),
{
    let bare = check_bare(stego_bytes);
    let mut blob: Vec<u8> = if bare {
        copy_bytes_slice(stego_bytes)
    } else {
        match carrier.extract(stego_bytes) {
            Some(inner) => inner,
            None => {
                return Err(BlobError::InvalidFormat);
            },
        }
    };
    let ghost b0 = blob@;
    if (blob.len() as u128) + (content.len() as u128) + 2114160 >= (usize::MAX as u128) {
        return Err(BlobError::Corruption);
    }
    match add_file(
        &mut blob,
        volume_type,
        key,
        metadata_map,
        file_path,
        content,
        mime_type,
    ) {
        Ok(_) => {},
        Err(e) => {
            return Err(e);
        },
    }
    if bare {
        proof {
            assert(stego_inner_one(stego_bytes@, *carrier, b0));
        }
        Ok(blob)
    } else {
        if (stego_bytes.len() as u128) + (blob.len() as u128) * 2 + 1048576 >= (
        usize::MAX as u128) {
            return Err(BlobError::Corruption);
        }
        match carrier.embed(stego_bytes, blob.as_slice()) {
            Ok(v) => {
                proof {
                    assert(stego_inner_one(stego_bytes@, *carrier, b0));
                }
                Ok(v)
            },
            Err(e) => Err(e),
        }
    }
}

/// Reads one stored file out of the blob hidden in the carrier bytes.
pub fn get_file_stego<C: StegoCarrier>(
    stego_bytes: &[u8],
    carrier: &C,
    key: &[u8; 32],
    metadata: &FileMetadata,
) -> (r: Result<Vec<u8>, BlobError>)
    ensures
        match r {
            Ok(v) => exists|b: Seq<u8>|
                {
                    &&& #[trigger] stego_inner_one(stego_bytes@, *carrier, b)
                    &&& data_block_at(
                        b,
                        key@,
                        metadata.data_offset as int,
                        metadata.data_length as int,
                        v@,
                    )
                },
            Err(e) => e == BlobError::Corruption || e == BlobError::InvalidFormat,
        },
        forall|b: Seq<u8>, c: Seq<u8>|
            #[trigger] stego_inner_one(stego_bytes@, *carrier, b) && #[trigger] data_block_at(
                b,
                key@,
                metadata.data_offset as int,
                metadata.data_length as int,
                c,
            ) ==> (r matches Ok(v) && v@ == c),
{
    let bare = check_bare(stego_bytes);
    if bare {
        match get_file(stego_bytes, key, metadata) {
            Ok(v) => {
                proof {
                    assert(stego_inner_one(stego_bytes@, *carrier, stego_bytes@));
                }
                Ok(v)
            },
            Err(e) => Err(e),
        }
    } else {
        let inner = match carrier.extract(stego_bytes) {
            Some(v) => v,
            None => {
                return Err(BlobError::InvalidFormat);
            },
        };
        match get_file(inner.as_slice(), key, metadata) {
            Ok(v) => {
                proof {
                    assert(stego_inner_one(stego_bytes@, *carrier, inner@));
                }
                Ok(v)
            },
            Err(e) => Err(e),
        }
    }
}

} // verus!
