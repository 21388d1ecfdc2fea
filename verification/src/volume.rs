use vstd::prelude::*;

use crate::bytes_util::{append_subrange, overwrite};
use crate::crypto::{aead_encrypt, aead_seal, derive_key, kdf_of, random_bytes};
use crate::errors::BlobError;
use crate::index::{
    contains_path, lookup, remove_folder_spec, remove_path, spec_deserialize_index,
    spec_serialize_index, FileMetadata, FileMetadataV, IndexEntryV, MetadataMap,
};
use crate::layout::{
    data_block_at, magic, magic_bytes, meta_block_yields, meta_end, meta_offset,
    read_file_data, read_hidden_header, read_standard_header, spec_header_ok, spec_meta_end,
    spec_meta_nonce, spec_meta_offset, spec_meta_size, spec_nonce_field_offset, spec_salt,
    update_header_metadata, write_metadata_block, VolumeType, DATA_AREA_START,
    HIDDEN_HEADER_OFFSET, SALT_LEN, VERSION, XNONCE_LEN,
};
use vstd::bytes::{
    lemma_auto_spec_u64_to_from_le_bytes, spec_u64_from_le_bytes, spec_u64_to_le_bytes,
    u64_to_le_bytes,
};

verus! {

/// The other volume.
pub open spec fn other_volume(vol: VolumeType) -> VolumeType {
    match vol {
        VolumeType::Standard => VolumeType::Hidden,
        VolumeType::Hidden => VolumeType::Standard,
    }
}

/// True when `key` opens `vol` in `b` and its metadata block parses to
/// `map`: the header reads, the stored metadata size stays within the
/// volume's metadata region, and the ciphertext there decrypts under the
/// stored nonce to a serialized index equal to `map`.
pub open spec fn spec_volume_yields(
    b: Seq<u8>,
    key: Seq<u8>,
    vol: VolumeType,
    map: Seq<IndexEntryV>,
) -> bool {
    &&& spec_header_ok(b, vol)
    &&& spec_meta_offset(vol) + spec_meta_size(b, vol) <= spec_meta_end(vol)
    &&& meta_block_yields(
        b,
        key,
        spec_meta_nonce(b, vol),
        spec_meta_size(b, vol),
        spec_meta_offset(vol),
        map,
    )
}

/// True when `key` opens `vol` in `b` at all.
pub open spec fn spec_volume_opens(b: Seq<u8>, key: Seq<u8>, vol: VolumeType) -> bool {
    exists|map: Seq<IndexEntryV>| spec_volume_yields(b, key, vol, map)
}

/// What one committed index rewrite does to the blob: the volume's header
/// nonce and size fields now describe a fresh ciphertext of `new_map` under
/// `mn`, and every other byte is as it was.
pub open spec fn spec_index_updated(
    b0: Seq<u8>,
    b1: Seq<u8>,
    vol: VolumeType,
    key: Seq<u8>,
    mn: Seq<u8>,
    new_map: Seq<IndexEntryV>,
) -> bool {
    let mo = spec_meta_offset(vol);
    let nf = spec_nonce_field_offset(vol);
    let sz = spec_serialize_index(new_map).len() + 16;
    &&& b1.len() == b0.len()
    &&& b0.len() >= 1114160
    &&& mn.len() == 24
    &&& mo + sz <= spec_meta_end(vol)
    &&& spec_meta_nonce(b1, vol) == mn
    &&& spec_meta_size(b1, vol) as int == sz
    &&& b1.subrange(mo, mo + sz) == aead_seal(key, mn, spec_serialize_index(new_map))
    &&& forall|i: int|
        0 <= i < b0.len() && !(nf <= i < nf + 32) && !(mo <= i < mo + sz) ==> b1[i] == b0[i]
}

/// Serializes `map`, encrypts it under a fresh nonce, rewrites the volume's
/// metadata block and then its header fields. Fails, leaving the blob
/// unchanged, when the ciphertext would cross the volume's metadata region.
fn commit_index(blob: &mut Vec<u8>, vol: VolumeType, key: &[u8; 32], map: &MetadataMap) -> (r:
    Result<(), BlobError>)
    requires
        old(blob)@.len() >= 1114160,
    ensures
        match r {
            Ok(_) => {
                &&& exists|mn: Seq<u8>|
                    #[trigger] spec_index_updated(old(blob)@, final(blob)@, vol, key@, mn, map@)
                &&& (spec_header_ok(old(blob)@, vol) ==> spec_volume_yields(
                    final(blob)@,
                    key@,
                    vol,
                    map@,
                ))
                &&& forall|k2: Seq<u8>, m2: Seq<IndexEntryV>|
                    spec_volume_yields(old(blob)@, k2, other_volume(vol), m2)
                        <==> #[trigger] spec_volume_yields(
                        final(blob)@,
                        k2,
                        other_volume(vol),
                        m2,
                    )
            },
            Err(e) => {
                &&& final(blob)@ == old(blob)@
                &&& e == BlobError::Corruption
                &&& spec_meta_offset(vol) + spec_serialize_index(map@).len() + 16
                    > spec_meta_end(vol)
            },
        },
{
    let ghost b0 = blob@;
    let (nonce, sz) = match write_metadata_block(blob, key, map, vol) {
        Ok(p) => p,
        Err(e) => {
            return Err(e);
        },
    };
    let ghost b_meta = blob@;
    let ghost ser = spec_serialize_index(map@);
    let ghost ct = aead_seal(key@, nonce@, ser);
    update_header_metadata(blob, vol, nonce.as_slice(), sz);
    let ghost b1 = blob@;
    let ghost mo = spec_meta_offset(vol);
    let ghost nf = spec_nonce_field_offset(vol);
    let ghost field = nonce@ + spec_u64_to_le_bytes(sz);
    proof {
        lemma_auto_spec_u64_to_from_le_bytes();
        assert(b_meta == overwrite(b0, mo, ct));
        assert(b1 == overwrite(b_meta, nf, field));
        assert(ct.len() == sz);
        // header fields of the updated blob
        assert(spec_meta_nonce(b1, vol) =~= nonce@);
        assert(b1.subrange(nf + 24, nf + 32) =~= spec_u64_to_le_bytes(sz));
        assert(spec_meta_size(b1, vol) == sz);
        // ciphertext region, untouched by the header-field write
        assert(b1.subrange(mo, mo + sz as int) =~= ct);
        // everything else preserved
        assert forall|i: int|
            0 <= i < b0.len() && !(nf <= i < nf + 32) && !(mo <= i < mo + sz as int)
                implies b1[i] == b0[i] by {}
        assert(spec_index_updated(b0, b1, vol, key@, nonce@, map@));
        // the rewritten volume now yields `map`
        if spec_header_ok(b0, vol) {
            assert(spec_header_ok(b1, vol)) by {
                if vol is Standard {
                    assert(b1.subrange(0, 8) =~= b0.subrange(0, 8));
                    assert(b1[8] == b0[8]);
                }
            }
            map.lemma_wf();
            crate::index::lemma_deserialize_serialize(map@);
            assert(ser.len() >= 8) by {
                assert(spec_u64_to_le_bytes(map@.len() as u64).len() == 8);
            }
            assert(meta_block_yields(b1, key@, nonce@, sz, mo, map@)) by {
                assert(ser.len() + 16 == sz);
                assert(b1.subrange(mo, mo + sz as int) == aead_seal(key@, nonce@, ser));
            }
            assert(spec_volume_yields(b1, key@, vol, map@));
        }
        // the other volume is untouched
        let ov = other_volume(vol);
        assert forall|k2: Seq<u8>, m2: Seq<IndexEntryV>|
            spec_volume_yields(b0, k2, ov, m2) <==> #[trigger] spec_volume_yields(
                b1,
                k2,
                ov,
                m2,
            ) by {
            lemma_other_volume_untouched(b0, b1, vol, k2, m2);
        }
    }
    Ok(())
}

/// When a rewrite of one volume's regions leaves the other volume's header
/// and metadata bytes alone, the other volume opens to the same indexes.
proof fn lemma_other_volume_untouched(
    b0: Seq<u8>,
    b1: Seq<u8>,
    vol: VolumeType,
    k2: Seq<u8>,
    m2: Seq<IndexEntryV>,
)
    requires
        b0.len() == b1.len(),
        b0.len() >= 1114160,
        forall|i: int|
            0 <= i < b0.len() && !(spec_nonce_field_offset(vol) <= i < spec_nonce_field_offset(
                vol,
            ) + 32) && !(spec_meta_offset(vol) <= i < spec_meta_end(vol)) ==> b1[i] == b0[i],
    ensures
        spec_volume_yields(b0, k2, other_volume(vol), m2) <==> spec_volume_yields(
            b1,
            k2,
            other_volume(vol),
            m2,
        ),
{
    let ov = other_volume(vol);
    assert(spec_salt(b1, ov) =~= spec_salt(b0, ov));
    assert(spec_meta_nonce(b1, ov) =~= spec_meta_nonce(b0, ov));
    assert(b1.subrange(
        spec_nonce_field_offset(ov) + 24,
        spec_nonce_field_offset(ov) + 32,
    ) =~= b0.subrange(spec_nonce_field_offset(ov) + 24, spec_nonce_field_offset(ov) + 32));
    assert(spec_meta_size(b1, ov) == spec_meta_size(b0, ov));
    if vol is Standard {
        assert(spec_header_ok(b1, ov) == spec_header_ok(b0, ov));
    } else {
        assert(b1.subrange(0, 8) =~= b0.subrange(0, 8));
        assert(b1[8] == b0[8]);
        assert(spec_header_ok(b1, ov) == spec_header_ok(b0, ov));
    }
    let sz2 = spec_meta_size(b0, ov) as int;
    let mo2 = spec_meta_offset(ov);
    if mo2 + sz2 <= spec_meta_end(ov) {
        assert(b1.subrange(mo2, mo2 + sz2) =~= b0.subrange(mo2, mo2 + sz2));
    }
}

/// The commit failed or never ran: nothing about either volume changed.
/// (Nothing to prove; the blob is byte-identical.)

/// Builds a fresh dual-volume blob. Both volumes are present and empty; the
/// salts are drawn independently and differ; everything between and after
/// the metadata ciphertexts is random padding; the result reaches exactly to
/// the data-area start. Fails with `ConflictingPasswords` exactly when the
/// two passwords are equal.
pub fn init_blob(password_s: &[u8], password_h: &[u8]) -> (r: Result<Vec<u8>, BlobError>)
    requires
        password_s@.len() <= 0xFFFF_FFFF,
        password_h@.len() <= 0xFFFF_FFFF,
    ensures
        (r matches Err(e) && e == BlobError::ConflictingPasswords) <==> password_s@
            == password_h@,
        match r {
            Ok(b) => {
                &&& b@.len() == 1114160
                &&& spec_meta_size(b@, VolumeType::Standard) == 24
                &&& spec_meta_size(b@, VolumeType::Hidden) == 24
                &&& spec_salt(b@, VolumeType::Standard) != spec_salt(b@, VolumeType::Hidden)
                &&& spec_volume_yields(
                    b@,
                    kdf_of(password_s@, spec_salt(b@, VolumeType::Standard)),
                    VolumeType::Standard,
                    Seq::<IndexEntryV>::empty(),
                )
                &&& spec_volume_yields(
                    b@,
                    kdf_of(password_h@, spec_salt(b@, VolumeType::Hidden)),
                    VolumeType::Hidden,
                    Seq::<IndexEntryV>::empty(),
                )
            },
            Err(e) => e == BlobError::ConflictingPasswords || e == BlobError::InvalidPassword,
        },
{
    if crate::bytes_util::bytes_eq(password_s, password_h) {
        return Err(BlobError::ConflictingPasswords);
    }
    // draw two distinct salts: redraw once on collision, then force one
    // differing byte so that distinctness holds unconditionally
    let salt_s = random_bytes(SALT_LEN);
    let mut salt_h = random_bytes(SALT_LEN);
    if crate::bytes_util::bytes_eq(salt_s.as_slice(), salt_h.as_slice()) {
        salt_h = random_bytes(SALT_LEN);
    }
    if crate::bytes_util::bytes_eq(salt_s.as_slice(), salt_h.as_slice()) {
        let b0 = salt_h[0];
        salt_h.set(0, b0 ^ 1);
        proof {
            let x: u8 = salt_h@[0];
            let y: u8 = salt_s@[0];
            assert(x != y) by (bit_vector)
                requires
                    x == y ^ 1,
            ;
        }
    }
    let key_s = match derive_key(password_s, salt_s.as_slice()) {
        Ok(k) => k,
        Err(e) => {
            return Err(e);
        },
    };
    let key_h = match derive_key(password_h, salt_h.as_slice()) {
        Ok(k) => k,
        Err(e) => {
            return Err(e);
        },
    };
    let empty_map = MetadataMap::new();
    let plaintext = empty_map.serialize();
    proof {
        lemma_auto_spec_u64_to_from_le_bytes();
        assert(empty_map@ =~= Seq::<IndexEntryV>::empty());
        assert(crate::index::spec_enc_entries(empty_map@).len() == 0);
        assert(plaintext@.len() == 8);
    }
    let nonce_s = random_bytes(XNONCE_LEN);
    let ct_s = aead_encrypt(&key_s, nonce_s.as_slice(), plaintext.as_slice());
    let nonce_h = random_bytes(XNONCE_LEN);
    let ct_h = aead_encrypt(&key_h, nonce_h.as_slice(), plaintext.as_slice());
    proof {
        lemma_auto_spec_u64_to_from_le_bytes();
        assert(plaintext@.len() == 8);
        assert(ct_s@.len() == 24);
        assert(ct_h@.len() == 24);
    }

    let mut b = magic_bytes();
    b.push(VERSION);
    append_subrange(&mut b, salt_s.as_slice(), 0, SALT_LEN);
    append_subrange(&mut b, nonce_s.as_slice(), 0, XNONCE_LEN);
    let szb_s = u64_to_le_bytes(ct_s.len() as u64);
    append_subrange(&mut b, szb_s.as_slice(), 0, 8);
    append_subrange(&mut b, ct_s.as_slice(), 0, ct_s.len());
    // random padding up to the hidden header
    let pad1 = random_bytes(HIDDEN_HEADER_OFFSET - 81);
    append_subrange(&mut b, pad1.as_slice(), 0, pad1.len());
    append_subrange(&mut b, salt_h.as_slice(), 0, SALT_LEN);
    append_subrange(&mut b, nonce_h.as_slice(), 0, XNONCE_LEN);
    let szb_h = u64_to_le_bytes(ct_h.len() as u64);
    append_subrange(&mut b, szb_h.as_slice(), 0, 8);
    append_subrange(&mut b, ct_h.as_slice(), 0, ct_h.len());
    // random padding up to the data-area start
    let pad2 = random_bytes(DATA_AREA_START - 65608);
    append_subrange(&mut b, pad2.as_slice(), 0, pad2.len());

    proof {
        assert(salt_s@.subrange(0, 16) =~= salt_s@);
        assert(salt_h@.subrange(0, 16) =~= salt_h@);
        assert(nonce_s@.subrange(0, 24) =~= nonce_s@);
        assert(nonce_h@.subrange(0, 24) =~= nonce_h@);
        assert(szb_s@.subrange(0, 8) =~= szb_s@);
        assert(szb_h@.subrange(0, 8) =~= szb_h@);
        assert(ct_s@.subrange(0, 24) =~= ct_s@);
        assert(ct_h@.subrange(0, 24) =~= ct_h@);
        assert(pad1@.subrange(0, pad1@.len() as int) =~= pad1@);
        assert(pad2@.subrange(0, pad2@.len() as int) =~= pad2@);
        assert(b@.len() == 1114160);
        // the standard header and block
        assert(b@.subrange(0, 8) =~= magic());
        assert(b@[8] == 3);
        assert(spec_salt(b@, VolumeType::Standard) =~= salt_s@);
        assert(spec_meta_nonce(b@, VolumeType::Standard) =~= nonce_s@);
        assert(b@.subrange(49, 57) =~= spec_u64_to_le_bytes(24));
        assert(spec_meta_size(b@, VolumeType::Standard) == 24);
        assert(b@.subrange(57, 81) =~= ct_s@);
        // the hidden header and block
        assert(spec_salt(b@, VolumeType::Hidden) =~= salt_h@);
        assert(spec_meta_nonce(b@, VolumeType::Hidden) =~= nonce_h@);
        assert(b@.subrange(65576, 65584) =~= spec_u64_to_le_bytes(24));
        assert(spec_meta_size(b@, VolumeType::Hidden) == 24);
        assert(b@.subrange(65584, 65608) =~= ct_h@);
        // the empty index round-trips
        empty_map.lemma_wf();
        crate::index::lemma_deserialize_serialize(empty_map@);
        assert(empty_map@ =~= Seq::<IndexEntryV>::empty());
        // both volumes decrypt to the empty index
        assert(meta_block_yields(
            b@,
            kdf_of(password_s@, salt_s@),
            nonce_s@,
            24,
            57,
            Seq::<IndexEntryV>::empty(),
        )) by {
            assert(plaintext@.len() + 16 == 24);
            assert(b@.subrange(57int, 81int) == aead_seal(
                kdf_of(password_s@, salt_s@),
                nonce_s@,
                plaintext@,
            ));
        }
        assert(meta_block_yields(
            b@,
            kdf_of(password_h@, salt_h@),
            nonce_h@,
            24,
            65584,
            Seq::<IndexEntryV>::empty(),
        )) by {
            assert(plaintext@.len() + 16 == 24);
            assert(b@.subrange(65584int, 65608int) == aead_seal(
                kdf_of(password_h@, salt_h@),
                nonce_h@,
                plaintext@,
            ));
        }
    }
    Ok(b)
}

/// Tries to open one volume of `b` with an already-derived key.
fn try_unlock_volume(blob: &[u8], key: &[u8; 32], vol: VolumeType) -> (r: Option<MetadataMap>)
    ensures
        match r {
            Some(m) => spec_volume_yields(blob@, key@, vol, m@),
            None => !spec_volume_opens(blob@, key@, vol),
        },
        forall|map: Seq<IndexEntryV>|
            spec_volume_yields(blob@, key@, vol, map) ==> (r matches Some(m) && m@ == map),
{
    let header = match vol {
        VolumeType::Standard => read_standard_header(blob),
        VolumeType::Hidden => read_hidden_header(blob),
    };
    let h = match header {
        Ok(h) => h,
        Err(_) => {
            proof {
                assert forall|map: Seq<IndexEntryV>|
                    !spec_volume_yields(blob@, key@, vol, map) by {}
            }
            return None;
        },
    };
    let mo = meta_offset(vol);
    let me = meta_end(vol);
    if h.size > (me - mo) as u64 {
        proof {
            assert forall|map: Seq<IndexEntryV>| !spec_volume_yields(blob@, key@, vol, map) by {}
        }
        return None;
    }
    match crate::layout::read_metadata_block(blob, key, h.nonce.as_slice(), h.size, mo) {
        Ok(m) => Some(m),
        Err(_) => {
            proof {
                assert forall|map: Seq<IndexEntryV>|
                    !spec_volume_yields(blob@, key@, vol, map) by {}
            }
            None
        },
    }
}

/// Tries the standard volume, then the hidden volume, with keys already
/// derived. Exactly one generic error covers every failure; a key that opens
/// the standard volume always yields it, and the hidden volume is yielded
/// exactly when the standard one does not open.
pub fn unlock_with_keys(blob: &[u8], key_s: &[u8; 32], key_h: &[u8; 32]) -> (r: Result<
    (VolumeType, [u8; 32], MetadataMap),
    BlobError,
>)
    ensures
        match r {
            Ok((vol, key, map)) => {
                &&& (vol is Standard ==> key@ == key_s@ && spec_volume_yields(
                    blob@,
                    key_s@,
                    VolumeType::Standard,
                    map@,
                ))
                &&& (vol is Hidden ==> key@ == key_h@ && spec_volume_yields(
                    blob@,
                    key_h@,
                    VolumeType::Hidden,
                    map@,
                ) && !spec_volume_opens(blob@, key_s@, VolumeType::Standard))
            },
            Err(e) => {
                &&& e == BlobError::InvalidPassword
                &&& !spec_volume_opens(blob@, key_s@, VolumeType::Standard)
                &&& !spec_volume_opens(blob@, key_h@, VolumeType::Hidden)
            },
        },
        forall|map: Seq<IndexEntryV>|
            spec_volume_yields(blob@, key_s@, VolumeType::Standard, map) ==> (r matches Ok(
                (vol, key, m),
            ) && vol is Standard && m@ == map),
        forall|map: Seq<IndexEntryV>|
            !spec_volume_opens(blob@, key_s@, VolumeType::Standard) && spec_volume_yields(
                blob@,
                key_h@,
                VolumeType::Hidden,
                map,
            ) ==> (r matches Ok((vol, key, m)) && vol is Hidden && m@ == map),
{
    match try_unlock_volume(blob, key_s, VolumeType::Standard) {
        Some(m) => Ok((VolumeType::Standard, *key_s, m)),
        None => {
            match try_unlock_volume(blob, key_h, VolumeType::Hidden) {
                Some(m) => Ok((VolumeType::Hidden, *key_h, m)),
                None => Err(BlobError::InvalidPassword),
            }
        },
    }
}

/// Unlocks a blob with one password: derives a key from the standard salt
/// and tries the standard volume, then derives from the hidden salt and
/// tries the hidden volume. All failures — unreadable header, key
/// derivation, authentication, parsing, either volume — collapse into the
/// one `InvalidPassword` value, so the error reveals nothing about which
/// volume exists or which step failed.
pub fn unlock_blob(blob: &[u8], password: &[u8]) -> (r: Result<
    (VolumeType, [u8; 32], MetadataMap),
    BlobError,
>)
    requires
        password@.len() <= 0xFFFF_FFFF,
    ensures
        match r {
            Ok((vol, key, map)) => {
                &&& key@ == kdf_of(password@, spec_salt(blob@, vol))
                &&& spec_volume_yields(blob@, key@, vol, map@)
            },
            Err(e) => e == BlobError::InvalidPassword,
        },
        !spec_volume_opens(blob@, kdf_of(password@, spec_salt(blob@, VolumeType::Standard)), VolumeType::Standard)
            && !spec_volume_opens(blob@, kdf_of(password@, spec_salt(blob@, VolumeType::Hidden)), VolumeType::Hidden)
            ==> r is Err,
{
    match read_standard_header(blob) {
        Ok(h) => {
            match derive_key(password, h.salt.as_slice()) {
                Ok(key_s) => {
                    match try_unlock_volume(blob, &key_s, VolumeType::Standard) {
                        Some(m) => {
                            return Ok((VolumeType::Standard, key_s, m));
                        },
                        None => {},
                    }
                },
                Err(_) => {},
            }
        },
        Err(_) => {},
    }
    match read_hidden_header(blob) {
        Ok(h) => {
            match derive_key(password, h.salt.as_slice()) {
                Ok(key_h) => {
                    match try_unlock_volume(blob, &key_h, VolumeType::Hidden) {
                        Some(m) => {
                            return Ok((VolumeType::Hidden, key_h, m));
                        },
                        None => {},
                    }
                },
                Err(_) => {},
            }
        },
        Err(_) => {},
    }
    Err(BlobError::InvalidPassword)
}

/// The index entry that adding `content` at `path` to a blob of `b0` makes.
pub open spec fn spec_added_entry(
    b0: Seq<u8>,
    path: Seq<u8>,
    content: Seq<u8>,
    mime: Seq<u8>,
) -> IndexEntryV {
    let off: int = if b0.len() < 1114160 {
        1114160int
    } else {
        b0.len() as int
    };
    IndexEntryV {
        path,
        meta: FileMetadataV {
            size: content.len() as u64,
            data_offset: off as u64,
            data_length: (content.len() + 40) as u64,
            mime_type: mime,
        },
    }
}

/// What a successful add does: the new entry's data block stands at the end
/// of the blob, the index gained exactly that entry, everything in the data
/// area below it is as it was, both salts are as they were, the volume now
/// opens to the new index, and the other volume opens exactly as before.
pub open spec fn spec_file_added(
    b0: Seq<u8>,
    b1: Seq<u8>,
    vol: VolumeType,
    key: Seq<u8>,
    m0: Seq<IndexEntryV>,
    m1: Seq<IndexEntryV>,
    path: Seq<u8>,
    content: Seq<u8>,
    mime: Seq<u8>,
) -> bool {
    let e = spec_added_entry(b0, path, content, mime);
    &&& b0.len() >= 1114160
    &&& m1 == remove_path(m0, path).push(e)
    &&& data_block_at(b1, key, e.meta.data_offset as int, e.meta.data_length as int, content)
    &&& b1.len() == e.meta.data_offset + e.meta.data_length
    &&& b1.subrange(1114160, b0.len() as int) == b0.subrange(1114160, b0.len() as int)
    &&& spec_salt(b1, VolumeType::Standard) == spec_salt(b0, VolumeType::Standard)
    &&& spec_salt(b1, VolumeType::Hidden) == spec_salt(b0, VolumeType::Hidden)
    &&& (spec_header_ok(b0, vol) ==> spec_volume_yields(b1, key, vol, m1))
    &&& forall|k2: Seq<u8>, m2: Seq<IndexEntryV>|
        spec_volume_yields(b0, k2, other_volume(vol), m2) <==> #[trigger] spec_volume_yields(
            b1,
            k2,
            other_volume(vol),
            m2,
        )
}

/// Adds or replaces one file in the unlocked volume: appends the encrypted
/// data block, inserts the entry, and commits the rewritten index. Replacing
/// an entry leaves the old data bytes in place as orphans.
pub fn add_file(
    blob: &mut Vec<u8>,
    volume_type: VolumeType,
    key: &[u8; 32],
    metadata_map: &mut MetadataMap,
    file_path: &[u8],
    content: &[u8],
    mime_type: &[u8],
) -> (r: Result<(), BlobError>)
    requires
        content@.len() < 0x3F_FFFF_0000,
        old(blob)@.len() + content@.len() + 2114160 < usize::MAX,
    ensures
        match r {
            Ok(_) => spec_file_added(
                old(blob)@,
                final(blob)@,
                volume_type,
                key@,
                old(metadata_map)@,
                final(metadata_map)@,
                file_path@,
                content@,
                mime_type@,
            ),
            Err(e) => e == BlobError::Corruption,
        },
        r is Err <==> (old(blob)@.len() < 1114160 || spec_meta_offset(volume_type)
            + spec_serialize_index(
            remove_path(old(metadata_map)@, file_path@).push(
                spec_added_entry(old(blob)@, file_path@, content@, mime_type@),
            ),
        ).len() + 16 > spec_meta_end(volume_type)),
        old(blob)@.len() >= 1114160 ==> final(blob)@.len() >= old(blob)@.len(),
{
    if blob.len() < DATA_AREA_START {
        return Err(BlobError::Corruption);
    }
    let ghost b0 = blob@;
    let meta = crate::layout::append_file_data(blob, key, content, mime_type);
    let ghost b_app = blob@;
    let ghost e = spec_added_entry(b0, file_path@, content@, mime_type@);
    proof {
        assert(meta@ == e.meta);
    }
    metadata_map.insert(crate::index::copy_bytes_slice(file_path), meta);
    proof {
        assert(final(metadata_map)@ == remove_path(old(metadata_map)@, file_path@).push(e));
    }
    match commit_index(blob, volume_type, key, metadata_map) {
        Ok(_) => {
            proof {
                let b1 = blob@;
                let mn = choose|mn: Seq<u8>|
                    spec_index_updated(b_app, b1, volume_type, key@, mn, metadata_map@);
                let mo = spec_meta_offset(volume_type);
                let sz = spec_serialize_index(metadata_map@).len() + 16;
                // the new data block survives the metadata rewrite
                assert(b1.subrange(
                    e.meta.data_offset as int,
                    e.meta.data_offset + e.meta.data_length,
                ) =~= b_app.subrange(
                    e.meta.data_offset as int,
                    e.meta.data_offset + e.meta.data_length,
                ));
                assert(b1.subrange(e.meta.data_offset as int, e.meta.data_offset + 24)
                    =~= b_app.subrange(e.meta.data_offset as int, e.meta.data_offset + 24));
                assert(b1.subrange(
                    e.meta.data_offset + 24,
                    e.meta.data_offset + e.meta.data_length,
                ) =~= b_app.subrange(
                    e.meta.data_offset + 24,
                    e.meta.data_offset + e.meta.data_length,
                ));
                assert(data_block_at(
                    b1,
                    key@,
                    e.meta.data_offset as int,
                    e.meta.data_length as int,
                    content@,
                ));
                // bytes of the data area older than this block survive both steps
                assert(b1.subrange(1114160, b0.len() as int) =~= b0.subrange(
                    1114160,
                    b0.len() as int,
                ));
                // the appended bytes change nothing the other volume reads
                assert forall|k2: Seq<u8>, m2: Seq<IndexEntryV>|
                    spec_volume_yields(b0, k2, other_volume(volume_type), m2)
                        <==> #[trigger] spec_volume_yields(
                        b_app,
                        k2,
                        other_volume(volume_type),
                        m2,
                    ) by {
                    lemma_extension_keeps_volumes(b0, b_app, other_volume(volume_type), k2, m2);
                }
                // and the commit preserves the standard header seen by `spec_header_ok`
                if spec_header_ok(b0, volume_type) {
                    assert(spec_header_ok(b_app, volume_type)) by {
                        if volume_type is Standard {
                            assert(b_app.subrange(0, 8) =~= b0.subrange(0, 8));
                            assert(b_app[8] == b0[8]);
                        }
                    }
                }
                // neither salt field is touched by the append or the commit
                assert(spec_salt(b_app, VolumeType::Standard) =~= spec_salt(
                    b0,
                    VolumeType::Standard,
                ));
                assert(spec_salt(b_app, VolumeType::Hidden) =~= spec_salt(
                    b0,
                    VolumeType::Hidden,
                ));
                assert(spec_salt(b1, VolumeType::Standard) =~= spec_salt(
                    b_app,
                    VolumeType::Standard,
                ));
                assert(spec_salt(b1, VolumeType::Hidden) =~= spec_salt(
                    b_app,
                    VolumeType::Hidden,
                ));
            }
            Ok(())
        },
        Err(e2) => Err(e2),
    }
}

/// Appending bytes at the end of a blob that reaches the data-area start
/// changes nothing either volume's unlock reads.
proof fn lemma_extension_keeps_volumes(
    b0: Seq<u8>,
    b1: Seq<u8>,
    vol: VolumeType,
    k2: Seq<u8>,
    m2: Seq<IndexEntryV>,
)
    requires
        b0.len() >= 1114160,
        b1.len() >= b0.len(),
        b1.subrange(0, b0.len() as int) == b0,
    ensures
        spec_volume_yields(b0, k2, vol, m2) <==> spec_volume_yields(b1, k2, vol, m2),
{
    assert forall|i: int| 0 <= i < b0.len() implies b1[i] == b0[i] by {
        assert(b1.subrange(0, b0.len() as int)[i] == b1[i]);
    }
    assert(spec_salt(b1, vol) =~= spec_salt(b0, vol));
    assert(spec_meta_nonce(b1, vol) =~= spec_meta_nonce(b0, vol));
    assert(b1.subrange(spec_nonce_field_offset(vol) + 24, spec_nonce_field_offset(vol) + 32)
        =~= b0.subrange(spec_nonce_field_offset(vol) + 24, spec_nonce_field_offset(vol) + 32));
    assert(spec_meta_size(b1, vol) == spec_meta_size(b0, vol));
    if vol is Standard {
        assert(b1.subrange(0, 8) =~= b0.subrange(0, 8));
        assert(b1[8] == b0[8]);
    }
    assert(spec_header_ok(b1, vol) == spec_header_ok(b0, vol));
    let sz2 = spec_meta_size(b0, vol) as int;
    let mo2 = spec_meta_offset(vol);
    if mo2 + sz2 <= spec_meta_end(vol) {
        assert(b1.subrange(mo2, mo2 + sz2) =~= b0.subrange(mo2, mo2 + sz2));
    }
}

/// Reads and decrypts one stored file, given its index record.
pub fn get_file(blob: &[u8], key: &[u8; 32], metadata: &FileMetadata) -> (r: Result<
    Vec<u8>,
    BlobError,
>)
    ensures
        match r {
            Ok(v) => data_block_at(
                blob@,
                key@,
                metadata.data_offset as int,
                metadata.data_length as int,
                v@,
            ),
            Err(e) => e == BlobError::Corruption,
        },
        forall|c: Seq<u8>|
            data_block_at(
                blob@,
                key@,
                metadata.data_offset as int,
                metadata.data_length as int,
                c,
            ) ==> (r matches Ok(v) && v@ == c),
{
    read_file_data(blob, key, metadata)
}

/// Removes one file from the unlocked volume's index and commits the
/// rewritten index. The file's data bytes stay where they were — the blob
/// does not shrink — until a compaction rebuilds it.
pub fn remove_file(
    blob: &mut Vec<u8>,
    volume_type: VolumeType,
    key: &[u8; 32],
    metadata_map: &mut MetadataMap,
    file_path: &[u8],
) -> (r: Result<bool, BlobError>)
    ensures
        match r {
            Ok(removed) => {
                &&& removed == contains_path(old(metadata_map)@, file_path@)
                &&& final(metadata_map)@ == remove_path(old(metadata_map)@, file_path@)
                &&& !removed ==> final(blob)@ == old(blob)@
                &&& removed ==> {
                    &&& final(blob)@.len() == old(blob)@.len()
                    &&& final(blob)@.subrange(1114160, final(blob)@.len() as int)
                        == old(blob)@.subrange(1114160, old(blob)@.len() as int)
                    &&& (spec_header_ok(old(blob)@, volume_type) ==> spec_volume_yields(
                        final(blob)@,
                        key@,
                        volume_type,
                        final(metadata_map)@,
                    ))
                    &&& forall|k2: Seq<u8>, m2: Seq<IndexEntryV>|
                        spec_volume_yields(old(blob)@, k2, other_volume(volume_type), m2)
                            <==> #[trigger] spec_volume_yields(
                            final(blob)@,
                            k2,
                            other_volume(volume_type),
                            m2,
                        )
                }
            },
            Err(e) => e == BlobError::Corruption && final(blob)@ == old(blob)@,
        },
        r is Err <==> (old(blob)@.len() < 1114160 || (contains_path(
            old(metadata_map)@,
            file_path@,
        ) && spec_meta_offset(volume_type) + spec_serialize_index(
            remove_path(old(metadata_map)@, file_path@),
        ).len() + 16 > spec_meta_end(volume_type))),
{
    if blob.len() < DATA_AREA_START {
        return Err(BlobError::Corruption);
    }
    let present = metadata_map.contains_key(file_path);
    if !present {
        proof {
            crate::index::lemma_remove_path_absent(metadata_map@, file_path@);
        }
        let _ = metadata_map.remove(file_path);
        return Ok(false);
    }
    let _ = metadata_map.remove(file_path);
    match commit_index(blob, volume_type, key, metadata_map) {
        Ok(_) => {
            proof {
                let mn = choose|mn: Seq<u8>|
                    spec_index_updated(old(blob)@, blob@, volume_type, key@, mn, metadata_map@);
                assert(blob@.subrange(1114160, blob@.len() as int) =~= old(blob)@.subrange(
                    1114160,
                    old(blob)@.len() as int,
                ));
            }
            Ok(true)
        },
        Err(e) => Err(e),
    }
}

/// Renames one file in the unlocked volume's index: the entry moves to the
/// new path (replacing any entry there) and the rewritten index is
/// committed. The data bytes are untouched.
pub fn rename_file(
    blob: &mut Vec<u8>,
    volume_type: VolumeType,
    key: &[u8; 32],
    metadata_map: &mut MetadataMap,
    old_path: &[u8],
    new_path: &[u8],
) -> (r: Result<bool, BlobError>)
    ensures
        match r {
            Ok(renamed) => {
                &&& renamed == contains_path(old(metadata_map)@, old_path@)
                &&& !renamed ==> final(metadata_map)@ == old(metadata_map)@ && final(blob)@
                    == old(blob)@
                &&& renamed ==> {
                    &&& (lookup(old(metadata_map)@, old_path@) matches Some(m)
                        && final(metadata_map)@ == remove_path(
                        remove_path(old(metadata_map)@, old_path@),
                        new_path@,
                    ).push(IndexEntryV { path: new_path@, meta: m }))
                    &&& final(blob)@.len() == old(blob)@.len()
                    &&& final(blob)@.subrange(1114160, final(blob)@.len() as int)
                        == old(blob)@.subrange(1114160, old(blob)@.len() as int)
                    &&& (spec_header_ok(old(blob)@, volume_type) ==> spec_volume_yields(
                        final(blob)@,
                        key@,
                        volume_type,
                        final(metadata_map)@,
                    ))
                    &&& forall|k2: Seq<u8>, m2: Seq<IndexEntryV>|
                        spec_volume_yields(old(blob)@, k2, other_volume(volume_type), m2)
                            <==> #[trigger] spec_volume_yields(
                            final(blob)@,
                            k2,
                            other_volume(volume_type),
                            m2,
                        )
                }
            },
            Err(e) => e == BlobError::Corruption && final(blob)@ == old(blob)@,
        },
        r is Err <==> (old(blob)@.len() < 1114160 || (lookup(old(metadata_map)@, old_path@)
            matches Some(m) && spec_meta_offset(volume_type) + spec_serialize_index(
            remove_path(remove_path(old(metadata_map)@, old_path@), new_path@).push(
                IndexEntryV { path: new_path@, meta: m },
            ),
        ).len() + 16 > spec_meta_end(volume_type))),
{
    if blob.len() < DATA_AREA_START {
        return Err(BlobError::Corruption);
    }
    let renamed = metadata_map.rename(old_path, new_path);
    if !renamed {
        return Ok(false);
    }
    match commit_index(blob, volume_type, key, metadata_map) {
        Ok(_) => {
            proof {
                let mn = choose|mn: Seq<u8>|
                    spec_index_updated(old(blob)@, blob@, volume_type, key@, mn, metadata_map@);
                assert(blob@.subrange(1114160, blob@.len() as int) =~= old(blob)@.subrange(
                    1114160,
                    old(blob)@.len() as int,
                ));
            }
            Ok(true)
        },
        Err(e) => Err(e),
    }
}

/// Removes a folder: every entry whose path is the folder itself or lies
/// under it leaves the index, and the rewritten index is committed. Returns
/// false, changing nothing on the blob, when no entry matched.
pub fn remove_folder(
    blob: &mut Vec<u8>,
    volume_type: VolumeType,
    key: &[u8; 32],
    metadata_map: &mut MetadataMap,
    folder_path: &[u8],
) -> (r: Result<bool, BlobError>)
    ensures
        match r {
            Ok(removed) => {
                &&& final(metadata_map)@ == remove_folder_spec(old(metadata_map)@, folder_path@)
                &&& removed == (final(metadata_map)@.len() < old(metadata_map)@.len())
                &&& !removed ==> final(blob)@ == old(blob)@
                &&& removed ==> {
                    &&& final(blob)@.len() == old(blob)@.len()
                    &&& final(blob)@.subrange(1114160, final(blob)@.len() as int)
                        == old(blob)@.subrange(1114160, old(blob)@.len() as int)
                    &&& (spec_header_ok(old(blob)@, volume_type) ==> spec_volume_yields(
                        final(blob)@,
                        key@,
                        volume_type,
                        final(metadata_map)@,
                    ))
                    &&& forall|k2: Seq<u8>, m2: Seq<IndexEntryV>|
                        spec_volume_yields(old(blob)@, k2, other_volume(volume_type), m2)
                            <==> #[trigger] spec_volume_yields(
                            final(blob)@,
                            k2,
                            other_volume(volume_type),
                            m2,
                        )
                }
            },
            Err(e) => e == BlobError::Corruption && final(blob)@ == old(blob)@,
        },
        r is Err <==> (old(blob)@.len() < 1114160 || (remove_folder_spec(
            old(metadata_map)@,
            folder_path@,
        ).len() < old(metadata_map)@.len() && spec_meta_offset(volume_type)
            + spec_serialize_index(remove_folder_spec(old(metadata_map)@, folder_path@)).len()
            + 16 > spec_meta_end(volume_type))),
{
    if blob.len() < DATA_AREA_START {
        return Err(BlobError::Corruption);
    }
    let removed = metadata_map.remove_folder_entries(folder_path);
    if !removed {
        return Ok(false);
    }
    match commit_index(blob, volume_type, key, metadata_map) {
        Ok(_) => {
            proof {
                let mn = choose|mn: Seq<u8>|
                    spec_index_updated(old(blob)@, blob@, volume_type, key@, mn, metadata_map@);
                assert(blob@.subrange(1114160, blob@.len() as int) =~= old(blob)@.subrange(
                    1114160,
                    old(blob)@.len() as int,
                ));
            }
            Ok(true)
        },
        Err(e) => Err(e),
    }
}


/// True when no two entries share a path.
pub open spec fn paths_distinct(s: Seq<IndexEntryV>) -> bool {
    forall|i: int, j: int| 0 <= i < j < s.len() ==> s[i].path != s[j].path
}

/// True when the file at `path` (recorded as `e0` in the source blob `b0`
/// under `k0`) is carried into the index `m1` of the blob `b1` under `k1`:
/// the new entry keeps the size and MIME type, and every content the old
/// block decrypts to, the new block decrypts to as well.
pub open spec fn entry_carried(
    b0: Seq<u8>,
    k0: Seq<u8>,
    e0: FileMetadataV,
    path: Seq<u8>,
    b1: Seq<u8>,
    k1: Seq<u8>,
    m1: Seq<IndexEntryV>,
) -> bool {
    &&& lookup(m1, path) matches Some(e1)
    &&& (lookup(m1, path) matches Some(e1) ==> {
        &&& e1.mime_type == e0.mime_type
        &&& e1.data_length == e0.data_length
        &&& e1.size as int + 40 == e1.data_length as int
        &&& e1.data_offset >= 1114160
        &&& e1.data_offset + e1.data_length <= b1.len()
        &&& forall|c: Seq<u8>|
            data_block_at(b0, k0, e0.data_offset as int, e0.data_length as int, c)
                ==> data_block_at(b1, k1, e1.data_offset as int, e1.data_length as int, c)
    })
}

/// True when every file of the index `m0` is carried into `m1`, and `m1`
/// holds no path that `m0` does not.
pub open spec fn index_carried(
    b0: Seq<u8>,
    k0: Seq<u8>,
    m0: Seq<IndexEntryV>,
    b1: Seq<u8>,
    k1: Seq<u8>,
    m1: Seq<IndexEntryV>,
) -> bool {
    &&& forall|i: int|
        0 <= i < m0.len() ==> entry_carried(b0, k0, #[trigger] m0[i].meta, m0[i].path, b1, k1, m1)
    &&& forall|p: Seq<u8>| #[trigger] contains_path(m1, p) ==> contains_path(m0, p)
}

/// The summed data-block lengths of an index's entries, in order.
pub open spec fn sum_data_lengths(s: Seq<IndexEntryV>) -> int
    decreases s.len(),
{
    if s.len() == 0 {
        0
    } else {
        s[0].meta.data_length + sum_data_lengths(s.drop_first())
    }
}

/// One more entry adds its data-block length to the sum.
proof fn lemma_sum_take_snoc(s: Seq<IndexEntryV>, j: int)
    requires
        0 <= j < s.len(),
    ensures
        sum_data_lengths(s.take(j + 1)) == sum_data_lengths(s.take(j))
            + s[j].meta.data_length,
    decreases j,
{
    if j == 0 {
        assert(s.take(0) =~= Seq::<IndexEntryV>::empty());
        assert(s.take(1)[0] == s[0]);
        assert(s.take(1).drop_first() =~= Seq::<IndexEntryV>::empty());
    } else {
        let rest = s.drop_first();
        lemma_sum_take_snoc(rest, j - 1);
        assert(s.take(j + 1)[0] == s[0]);
        assert(s.take(j)[0] == s[0]);
        assert(s.take(j + 1).drop_first() =~= rest.take(j));
        assert(s.take(j).drop_first() =~= rest.take(j - 1));
        assert(rest[j - 1] == s[j]);
    }
}

/// Each entry's path is found by a lookup over its index.
proof fn lemma_index_contains(s: Seq<IndexEntryV>, j: int)
    requires
        0 <= j < s.len(),
    ensures
        contains_path(s, s[j].path),
    decreases j,
{
    if s[0].path == s[j].path {
    } else {
        let rest = s.drop_first();
        assert(rest[j - 1] == s[j]);
        lemma_index_contains(rest, j - 1);
    }
}

/// A carried entry stays carried when the destination blob only grows and
/// its data area keeps its bytes.
proof fn lemma_entry_carried_extend(
    b0: Seq<u8>,
    k0: Seq<u8>,
    e0: FileMetadataV,
    path: Seq<u8>,
    b1: Seq<u8>,
    b2: Seq<u8>,
    k1: Seq<u8>,
    m1: Seq<IndexEntryV>,
)
    requires
        entry_carried(b0, k0, e0, path, b1, k1, m1),
        b1.len() >= 1114160,
        b2.len() >= b1.len(),
        b2.subrange(1114160, b1.len() as int) == b1.subrange(1114160, b1.len() as int),
    ensures
        entry_carried(b0, k0, e0, path, b2, k1, m1),
{
    match lookup(m1, path) {
        Some(e1) => {
            assert forall|c: Seq<u8>|
                data_block_at(b0, k0, e0.data_offset as int, e0.data_length as int, c)
                    implies data_block_at(
                    b2,
                    k1,
                    e1.data_offset as int,
                    e1.data_length as int,
                    c,
                ) by {
                let off = e1.data_offset as int;
                let len = e1.data_length as int;
                assert(data_block_at(b1, k1, off, len, c));
                assert forall|x: int| 1114160 <= x < b1.len() implies b2[x] == b1[x] by {
                    assert(b2.subrange(1114160, b1.len() as int)[x - 1114160] == b2[x]);
                }
                assert(b2.subrange(off, off + 24) =~= b1.subrange(off, off + 24));
                assert(b2.subrange(off + 24, off + len) =~= b1.subrange(off + 24, off + len));
            }
        },
        None => {},
    }
}

/// Round trip of a stored file through a later add: adding a file under a
/// different path moves neither the entry nor the data block of a file
/// already stored, so what was readable before stays readable, with the
/// same bytes. Together with the contracts of the add, unlock and get
/// operations this gives the full round trip: files added one by one are
/// all still indexed by the volume the blob opens to, and each data block
/// decrypts to exactly the bytes that were added.
pub proof fn lemma_add_preserves_files(
    b0: Seq<u8>,
    b1: Seq<u8>,
    vol: VolumeType,
    key: Seq<u8>,
    m0: Seq<IndexEntryV>,
    m1: Seq<IndexEntryV>,
    path: Seq<u8>,
    content: Seq<u8>,
    mime: Seq<u8>,
    path0: Seq<u8>,
    content0: Seq<u8>,
)
    requires
        b0.len() <= 0xFFFF_FFFF_FFFF_FFFF,
        spec_file_added(b0, b1, vol, key, m0, m1, path, content, mime),
        path0 != path,
        lookup(m0, path0) matches Some(e0) && data_block_at(
            b0,
            key,
            e0.data_offset as int,
            e0.data_length as int,
            content0,
        ) && e0.data_offset >= 1114160,
    ensures
        lookup(m1, path0) == lookup(m0, path0),
        lookup(m1, path0) matches Some(e0) && data_block_at(
            b1,
            key,
            e0.data_offset as int,
            e0.data_length as int,
            content0,
        ),
{
    let e = spec_added_entry(b0, path, content, mime);
    assert(b1.len() >= b0.len()) by {
        assert(e.meta.data_offset as int >= b0.len());
    }
    crate::index::lemma_lookup_remove_path(m0, path, path0);
    crate::index::lemma_lookup_push(remove_path(m0, path), e, path0);
    match lookup(m0, path0) {
        Some(e0) => {
            let off = e0.data_offset as int;
            let len = e0.data_length as int;
            assert forall|x: int| 1114160 <= x < b0.len() implies b1[x] == b0[x] by {
                assert(b1.subrange(1114160, b0.len() as int)[x - 1114160] == b1[x]);
            }
            assert(b1.subrange(off, off + 24) =~= b0.subrange(off, off + 24));
            assert(b1.subrange(off + 24, off + len) =~= b0.subrange(off + 24, off + len));
        },
        None => {},
    }
}

/// What a successful compaction guarantees: the new blob opens under keys
/// derived from its own fresh salts to a pair of indexes, its length is
/// exactly the data-area start plus the live entries' data blocks, and
/// (for duplicate-free old indexes) each rebuilt index carries exactly the
/// old volume's files, no more.
pub open spec fn spec_compacted(
    b: Seq<u8>,
    nb: Seq<u8>,
    password_s: Seq<u8>,
    password_h: Seq<u8>,
) -> bool {
    exists|ms2: Seq<IndexEntryV>, mh2: Seq<IndexEntryV>|
        {
            &&& #[trigger] spec_volume_yields(
                nb,
                kdf_of(password_s, spec_salt(nb, VolumeType::Standard)),
                VolumeType::Standard,
                ms2,
            )
            &&& #[trigger] spec_volume_yields(
                nb,
                kdf_of(password_h, spec_salt(nb, VolumeType::Hidden)),
                VolumeType::Hidden,
                mh2,
            )
            &&& forall|ms: Seq<IndexEntryV>, mh: Seq<IndexEntryV>|
                #[trigger] spec_volume_yields(
                    b,
                    kdf_of(password_s, spec_salt(b, VolumeType::Standard)),
                    VolumeType::Standard,
                    ms,
                ) && #[trigger] spec_volume_yields(
                    b,
                    kdf_of(password_h, spec_salt(b, VolumeType::Hidden)),
                    VolumeType::Hidden,
                    mh,
                ) ==> {
                    &&& nb.len() == 1114160 + sum_data_lengths(ms) + sum_data_lengths(mh)
                    &&& (paths_distinct(ms) ==> index_carried(
                        b,
                        kdf_of(password_s, spec_salt(b, VolumeType::Standard)),
                        ms,
                        nb,
                        kdf_of(password_s, spec_salt(nb, VolumeType::Standard)),
                        ms2,
                    ))
                    &&& (paths_distinct(mh) ==> index_carried(
                        b,
                        kdf_of(password_h, spec_salt(b, VolumeType::Hidden)),
                        mh,
                        nb,
                        kdf_of(password_h, spec_salt(nb, VolumeType::Hidden)),
                        mh2,
                    ))
                }
        }
}

/// Rebuilds the blob from its live entries alone: both volumes are read
/// with the given passwords, a fresh blob is initialized with fresh salts
/// and nonces, and every stored file is decrypted and added again under its
/// path. Orphaned data blocks of removed or replaced files are left behind,
/// and all volume-level cryptographic state is rotated.
#[verifier::rlimit(100)]
pub fn compact_blob(blob: &[u8], password_s: &[u8], password_h: &[u8]) -> (r: Result<
    Vec<u8>,
    BlobError,
>)
    requires
        password_s@.len() <= 0xFFFF_FFFF,
        password_h@.len() <= 0xFFFF_FFFF,
    ensures
        match r {
            Ok(nb) => {
                &&& nb@.len() >= 1114160
                &&& spec_compacted(blob@, nb@, password_s@, password_h@)
            },
            Err(e) => e == BlobError::InvalidPassword || e == BlobError::Corruption || e
                == BlobError::ConflictingPasswords,
        },
        !spec_volume_opens(
            blob@,
            kdf_of(password_s@, spec_salt(blob@, VolumeType::Standard)),
            VolumeType::Standard,
        ) ==> r is Err,
        !spec_volume_opens(
            blob@,
            kdf_of(password_h@, spec_salt(blob@, VolumeType::Hidden)),
            VolumeType::Hidden,
        ) ==> r is Err,
{
    // open both volumes of the old blob
    let h_s = match read_standard_header(blob) {
        Ok(h) => h,
        Err(_) => {
            return Err(BlobError::InvalidPassword);
        },
    };
    let key_s = match derive_key(password_s, h_s.salt.as_slice()) {
        Ok(k) => k,
        Err(e) => {
            return Err(e);
        },
    };
    let map_s = match try_unlock_volume(blob, &key_s, VolumeType::Standard) {
        Some(m) => m,
        None => {
            return Err(BlobError::InvalidPassword);
        },
    };
    let h_h = match read_hidden_header(blob) {
        Ok(h) => h,
        Err(_) => {
            return Err(BlobError::InvalidPassword);
        },
    };
    let key_h = match derive_key(password_h, h_h.salt.as_slice()) {
        Ok(k) => k,
        Err(e) => {
            return Err(e);
        },
    };
    let map_h = match try_unlock_volume(blob, &key_h, VolumeType::Hidden) {
        Some(m) => m,
        None => {
            return Err(BlobError::InvalidPassword);
        },
    };
    // a fresh blob with fresh salts, nonces and layout
    let mut nb = match init_blob(password_s, password_h) {
        Ok(b) => b,
        Err(e) => {
            return Err(e);
        },
    };
    let h_s2 = match read_standard_header(nb.as_slice()) {
        Ok(h) => h,
        Err(_) => {
            return Err(BlobError::Corruption);
        },
    };
    let key_s2 = match derive_key(password_s, h_s2.salt.as_slice()) {
        Ok(k) => k,
        Err(e) => {
            return Err(e);
        },
    };
    let h_h2 = match read_hidden_header(nb.as_slice()) {
        Ok(h) => h,
        Err(_) => {
            return Err(BlobError::Corruption);
        },
    };
    let key_h2 = match derive_key(password_h, h_h2.salt.as_slice()) {
        Ok(k) => k,
        Err(e) => {
            return Err(e);
        },
    };
    let mut new_map_s = MetadataMap::new();
    let mut new_map_h = MetadataMap::new();
    proof {
        assert(new_map_s@ =~= Seq::<IndexEntryV>::empty());
        assert(new_map_h@ =~= Seq::<IndexEntryV>::empty());
    }
    let ghost old_salt_s = spec_salt(blob@, VolumeType::Standard);
    let ghost old_salt_h = spec_salt(blob@, VolumeType::Hidden);
    proof {
        assert(map_s@.take(0) =~= Seq::<IndexEntryV>::empty());
        assert(sum_data_lengths(map_s@.take(0)) == 0);
        assert forall|p: Seq<u8>| !contains_path(new_map_s@, p) by {}
    }
    // carry the standard volume's files
    let n_s = map_s.len();
    let mut i: usize = 0;
    while i < n_s
        invariant
            i <= n_s,
            n_s == map_s@.len(),
            nb@.len() >= 1114160,
            nb@.len() <= 0xFFFF_FFFF_FFFF_FFFF,
            key_s@ == kdf_of(password_s@, old_salt_s),
            key_h@ == kdf_of(password_h@, old_salt_h),
            old_salt_s == spec_salt(blob@, VolumeType::Standard),
            old_salt_h == spec_salt(blob@, VolumeType::Hidden),
            key_s2@ == kdf_of(password_s@, spec_salt(nb@, VolumeType::Standard)),
            key_h2@ == kdf_of(password_h@, spec_salt(nb@, VolumeType::Hidden)),
            spec_volume_yields(nb@, key_s2@, VolumeType::Standard, new_map_s@),
            spec_volume_yields(nb@, key_h2@, VolumeType::Hidden, new_map_h@),
            new_map_h@ == Seq::<IndexEntryV>::empty(),
            forall|ms: Seq<IndexEntryV>|
                spec_volume_yields(blob@, key_s@, VolumeType::Standard, ms) ==> ms == map_s@,
            forall|mh: Seq<IndexEntryV>|
                spec_volume_yields(blob@, key_h@, VolumeType::Hidden, mh) ==> mh == map_h@,
            spec_volume_yields(blob@, key_s@, VolumeType::Standard, map_s@),
            spec_volume_yields(blob@, key_h@, VolumeType::Hidden, map_h@),
            nb@.len() == 1114160 + sum_data_lengths(map_s@.take(i as int)),
            forall|p: Seq<u8>| #[trigger]
                contains_path(new_map_s@, p) ==> exists|j: int|
                    0 <= j < i && #[trigger] map_s@[j].path == p,
            paths_distinct(map_s@) ==> forall|j: int|
                0 <= j < i ==> entry_carried(
                    blob@,
                    key_s@,
                    #[trigger] map_s@[j].meta,
                    map_s@[j].path,
                    nb@,
                    key_s2@,
                    new_map_s@,
                ),
        decreases n_s - i,
    {
        let meta = map_s.meta_at(i);
        let content = match get_file(blob, &key_s, meta) {
            Ok(c) => c,
            Err(e) => {
                return Err(e);
            },
        };
        if (content.len() as u64) >= 0x3F_FFFF_0000u64 {
            return Err(BlobError::Corruption);
        }
        if (nb.len() as u128) + (content.len() as u128) + 2114160 >= (usize::MAX as u128) {
            return Err(BlobError::Corruption);
        }
        let path = map_s.path_at(i);
        let mime = &meta.mime_type;
        let ghost nb0 = nb@;
        let ghost m0 = new_map_s@;
        let res = add_file(
            &mut nb,
            VolumeType::Standard,
            &key_s2,
            &mut new_map_s,
            path.as_slice(),
            content.as_slice(),
            mime.as_slice(),
        );
        match res {
            Ok(_) => {},
            Err(e) => {
                return Err(e);
            },
        }
        proof {
            let ghost e_new = spec_added_entry(nb0, path@, content@, mime@);
            assert(spec_file_added(
                nb0,
                nb@,
                VolumeType::Standard,
                key_s2@,
                m0,
                new_map_s@,
                path@,
                content@,
                mime@,
            ));
            // the volume the other key opens is untouched
            assert(spec_volume_yields(nb@, key_h2@, VolumeType::Hidden, new_map_h@));
            // the blob grew by exactly this entry's data block
            assert(nb@.len() == nb0.len() + map_s@[i as int].meta.data_length) by {
                assert(e_new.meta.data_offset as int == nb0.len());
                assert(map_s@[i as int].meta.data_length as int == content@.len() + 40);
            }
            lemma_sum_take_snoc(map_s@, i as int);
            // the rebuilt index holds only paths already carried over
            assert forall|p: Seq<u8>| #[trigger] contains_path(new_map_s@, p)
                implies exists|j: int| 0 <= j < i + 1 && #[trigger] map_s@[j].path == p by {
                crate::index::lemma_lookup_remove_path(m0, path@, p);
                crate::index::lemma_lookup_push(remove_path(m0, path@), e_new, p);
                if p == path@ {
                    assert(map_s@[i as int].path == p);
                } else {
                    assert(contains_path(m0, p));
                }
            }
            // the new entry is carried
            crate::index::lemma_lookup_remove_path(m0, path@, path@);
            crate::index::lemma_lookup_push(remove_path(m0, path@), e_new, path@);
            assert(lookup(new_map_s@, path@) == Some(e_new.meta));
            if paths_distinct(map_s@) {
                assert(entry_carried(
                    blob@,
                    key_s@,
                    map_s@[i as int].meta,
                    map_s@[i as int].path,
                    nb@,
                    key_s2@,
                    new_map_s@,
                )) by {
                    assert forall|c: Seq<u8>|
                        data_block_at(
                            blob@,
                            key_s@,
                            map_s@[i as int].meta.data_offset as int,
                            map_s@[i as int].meta.data_length as int,
                            c,
                        ) implies data_block_at(
                        nb@,
                        key_s2@,
                        e_new.meta.data_offset as int,
                        e_new.meta.data_length as int,
                        c,
                    ) by {
                        assert(c == content@);
                    }
                }
                // and the earlier entries stay carried
                assert forall|j: int| 0 <= j < i + 1 implies entry_carried(
                    blob@,
                    key_s@,
                    #[trigger] map_s@[j].meta,
                    map_s@[j].path,
                    nb@,
                    key_s2@,
                    new_map_s@,
                ) by {
                    if j < i {
                        assert(map_s@[j].path != map_s@[i as int].path);
                        lemma_add_carried_other(
                            nb0,
                            nb@,
                            key_s2@,
                            m0,
                            new_map_s@,
                            path@,
                            content@,
                            mime@,
                            blob@,
                            key_s@,
                            map_s@[j].meta,
                            map_s@[j].path,
                        );
                    }
                }
            }
        }
        i = i + 1;
    }
    // carry the hidden volume's files
    let n_h = map_h.len();
    let mut k: usize = 0;
    let ghost nb_after_s = nb@;
    let ghost map_s_final = new_map_s@;
    proof {
        assert(map_s@.take(n_s as int) =~= map_s@);
        assert(map_h@.take(0) =~= Seq::<IndexEntryV>::empty());
        assert(sum_data_lengths(map_h@.take(0)) == 0);
    }
    while k < n_h
        invariant
            k <= n_h,
            n_h == map_h@.len(),
            nb@.len() >= 1114160,
            nb@.len() <= 0xFFFF_FFFF_FFFF_FFFF,
            nb@.len() >= nb_after_s.len(),
            nb_after_s.len() >= 1114160,
            nb@.subrange(1114160, nb_after_s.len() as int) == nb_after_s.subrange(
                1114160,
                nb_after_s.len() as int,
            ),
            key_s@ == kdf_of(password_s@, old_salt_s),
            key_h@ == kdf_of(password_h@, old_salt_h),
            old_salt_s == spec_salt(blob@, VolumeType::Standard),
            old_salt_h == spec_salt(blob@, VolumeType::Hidden),
            key_s2@ == kdf_of(password_s@, spec_salt(nb@, VolumeType::Standard)),
            key_h2@ == kdf_of(password_h@, spec_salt(nb@, VolumeType::Hidden)),
            spec_volume_yields(nb@, key_s2@, VolumeType::Standard, map_s_final),
            spec_volume_yields(nb@, key_h2@, VolumeType::Hidden, new_map_h@),
            forall|ms: Seq<IndexEntryV>|
                spec_volume_yields(blob@, key_s@, VolumeType::Standard, ms) ==> ms == map_s@,
            forall|mh: Seq<IndexEntryV>|
                spec_volume_yields(blob@, key_h@, VolumeType::Hidden, mh) ==> mh == map_h@,
            spec_volume_yields(blob@, key_s@, VolumeType::Standard, map_s@),
            spec_volume_yields(blob@, key_h@, VolumeType::Hidden, map_h@),
            nb@.len() == 1114160 + sum_data_lengths(map_s@) + sum_data_lengths(
                map_h@.take(k as int),
            ),
            forall|p: Seq<u8>| #[trigger]
                contains_path(map_s_final, p) ==> exists|j: int|
                    0 <= j < map_s@.len() && #[trigger] map_s@[j].path == p,
            forall|p: Seq<u8>| #[trigger]
                contains_path(new_map_h@, p) ==> exists|j: int|
                    0 <= j < k && #[trigger] map_h@[j].path == p,
            paths_distinct(map_s@) ==> forall|j: int|
                0 <= j < map_s@.len() ==> entry_carried(
                    blob@,
                    key_s@,
                    #[trigger] map_s@[j].meta,
                    map_s@[j].path,
                    nb_after_s,
                    key_s2@,
                    map_s_final,
                ),
            paths_distinct(map_h@) ==> forall|j: int|
                0 <= j < k ==> entry_carried(
                    blob@,
                    key_h@,
                    #[trigger] map_h@[j].meta,
                    map_h@[j].path,
                    nb@,
                    key_h2@,
                    new_map_h@,
                ),
        decreases n_h - k,
    {
        let meta = map_h.meta_at(k);
        let content = match get_file(blob, &key_h, meta) {
            Ok(c) => c,
            Err(e) => {
                return Err(e);
            },
        };
        if (content.len() as u64) >= 0x3F_FFFF_0000u64 {
            return Err(BlobError::Corruption);
        }
        if (nb.len() as u128) + (content.len() as u128) + 2114160 >= (usize::MAX as u128) {
            return Err(BlobError::Corruption);
        }
        let path = map_h.path_at(k);
        let mime = &meta.mime_type;
        let ghost nb0 = nb@;
        let ghost m0 = new_map_h@;
        let res = add_file(
            &mut nb,
            VolumeType::Hidden,
            &key_h2,
            &mut new_map_h,
            path.as_slice(),
            content.as_slice(),
            mime.as_slice(),
        );
        match res {
            Ok(_) => {},
            Err(e) => {
                return Err(e);
            },
        }
        proof {
            let ghost e_new = spec_added_entry(nb0, path@, content@, mime@);
            assert(spec_file_added(
                nb0,
                nb@,
                VolumeType::Hidden,
                key_h2@,
                m0,
                new_map_h@,
                path@,
                content@,
                mime@,
            ));
            assert(spec_volume_yields(nb@, key_s2@, VolumeType::Standard, map_s_final));
            assert(nb@.subrange(1114160, nb_after_s.len() as int) =~= nb_after_s.subrange(
                1114160,
                nb_after_s.len() as int,
            )) by {
                assert forall|x: int| 1114160 <= x < nb_after_s.len() implies nb@[x]
                    == nb_after_s[x] by {
                    assert(nb@.subrange(1114160, nb0.len() as int)[x - 1114160] == nb@[x]);
                    assert(nb0.subrange(1114160, nb_after_s.len() as int)[x - 1114160]
                        == nb0[x]);
                }
            }
            assert(nb@.len() == nb0.len() + map_h@[k as int].meta.data_length) by {
                assert(e_new.meta.data_offset as int == nb0.len());
                assert(map_h@[k as int].meta.data_length as int == content@.len() + 40);
            }
            lemma_sum_take_snoc(map_h@, k as int);
            assert forall|p: Seq<u8>| #[trigger] contains_path(new_map_h@, p)
                implies exists|j: int| 0 <= j < k + 1 && #[trigger] map_h@[j].path == p by {
                crate::index::lemma_lookup_remove_path(m0, path@, p);
                crate::index::lemma_lookup_push(remove_path(m0, path@), e_new, p);
                if p == path@ {
                    assert(map_h@[k as int].path == p);
                } else {
                    assert(contains_path(m0, p));
                }
            }
            crate::index::lemma_lookup_remove_path(m0, path@, path@);
            crate::index::lemma_lookup_push(remove_path(m0, path@), e_new, path@);
            assert(lookup(new_map_h@, path@) == Some(e_new.meta));
            if paths_distinct(map_h@) {
                assert(entry_carried(
                    blob@,
                    key_h@,
                    map_h@[k as int].meta,
                    map_h@[k as int].path,
                    nb@,
                    key_h2@,
                    new_map_h@,
                )) by {
                    assert forall|c: Seq<u8>|
                        data_block_at(
                            blob@,
                            key_h@,
                            map_h@[k as int].meta.data_offset as int,
                            map_h@[k as int].meta.data_length as int,
                            c,
                        ) implies data_block_at(
                        nb@,
                        key_h2@,
                        e_new.meta.data_offset as int,
                        e_new.meta.data_length as int,
                        c,
                    ) by {
                        assert(c == content@);
                    }
                }
                assert forall|j: int| 0 <= j < k + 1 implies entry_carried(
                    blob@,
                    key_h@,
                    #[trigger] map_h@[j].meta,
                    map_h@[j].path,
                    nb@,
                    key_h2@,
                    new_map_h@,
                ) by {
                    if j < k {
                        assert(map_h@[j].path != map_h@[k as int].path);
                        lemma_add_carried_other(
                            nb0,
                            nb@,
                            key_h2@,
                            m0,
                            new_map_h@,
                            path@,
                            content@,
                            mime@,
                            blob@,
                            key_h@,
                            map_h@[j].meta,
                            map_h@[j].path,
                        );
                    }
                }
            }
        }
        k = k + 1;
    }
    proof {
        assert(spec_volume_yields(
            nb@,
            kdf_of(password_s@, spec_salt(nb@, VolumeType::Standard)),
            VolumeType::Standard,
            map_s_final,
        ));
        assert(spec_volume_yields(
            nb@,
            kdf_of(password_h@, spec_salt(nb@, VolumeType::Hidden)),
            VolumeType::Hidden,
            new_map_h@,
        ));
        // the standard entries carried into the intermediate blob are still
        // carried in the final one
        if paths_distinct(map_s@) {
            assert forall|j: int| 0 <= j < map_s@.len() implies entry_carried(
                blob@,
                key_s@,
                #[trigger] map_s@[j].meta,
                map_s@[j].path,
                nb@,
                key_s2@,
                map_s_final,
            ) by {
                lemma_entry_carried_extend(
                    blob@,
                    key_s@,
                    map_s@[j].meta,
                    map_s@[j].path,
                    nb_after_s,
                    nb@,
                    key_s2@,
                    map_s_final,
                );
            }
        }
        // the rebuilt indexes hold no path the old ones did not
        assert forall|p: Seq<u8>| #[trigger] contains_path(map_s_final, p)
            implies contains_path(map_s@, p) by {
            let j = choose|j: int| 0 <= j < map_s@.len() && #[trigger] map_s@[j].path == p;
            lemma_index_contains(map_s@, j);
        }
        assert forall|p: Seq<u8>| #[trigger] contains_path(new_map_h@, p)
            implies contains_path(map_h@, p) by {
            let j = choose|j: int| 0 <= j < map_h@.len() && #[trigger] map_h@[j].path == p;
            lemma_index_contains(map_h@, j);
        }
        assert(map_h@.take(n_h as int) =~= map_h@);
        let ms2 = map_s_final;
        let mh2 = new_map_h@;
        assert forall|ms: Seq<IndexEntryV>, mh: Seq<IndexEntryV>|
            #[trigger] spec_volume_yields(
                blob@,
                kdf_of(password_s@, spec_salt(blob@, VolumeType::Standard)),
                VolumeType::Standard,
                ms,
            ) && #[trigger] spec_volume_yields(
                blob@,
                kdf_of(password_h@, spec_salt(blob@, VolumeType::Hidden)),
                VolumeType::Hidden,
                mh,
            ) implies {
            &&& nb@.len() == 1114160 + sum_data_lengths(ms) + sum_data_lengths(mh)
            &&& (paths_distinct(ms) ==> index_carried(
                blob@,
                kdf_of(password_s@, spec_salt(blob@, VolumeType::Standard)),
                ms,
                nb@,
                kdf_of(password_s@, spec_salt(nb@, VolumeType::Standard)),
                ms2,
            ))
            &&& (paths_distinct(mh) ==> index_carried(
                blob@,
                kdf_of(password_h@, spec_salt(blob@, VolumeType::Hidden)),
                mh,
                nb@,
                kdf_of(password_h@, spec_salt(nb@, VolumeType::Hidden)),
                mh2,
            ))
        } by {
            assert(ms == map_s@);
            assert(mh == map_h@);
        }
        assert(spec_compacted(blob@, nb@, password_s@, password_h@));
    }
    Ok(nb)
}

/// After adding a file at one path, a file carried at another path is still
/// carried: its entry is untouched and its block lies in the preserved data
/// area.
proof fn lemma_add_carried_other(
    b0: Seq<u8>,
    b1: Seq<u8>,
    key: Seq<u8>,
    m0: Seq<IndexEntryV>,
    m1: Seq<IndexEntryV>,
    path: Seq<u8>,
    content: Seq<u8>,
    mime: Seq<u8>,
    src_b: Seq<u8>,
    src_k: Seq<u8>,
    e0: FileMetadataV,
    path0: Seq<u8>,
)
    requires
        b0.len() <= 0xFFFF_FFFF_FFFF_FFFF,
        spec_file_added(b0, b1, VolumeType::Standard, key, m0, m1, path, content, mime)
            || spec_file_added(b0, b1, VolumeType::Hidden, key, m0, m1, path, content, mime),
        entry_carried(src_b, src_k, e0, path0, b0, key, m0),
        path0 != path,
    ensures
        entry_carried(src_b, src_k, e0, path0, b1, key, m1),
{
    let e = spec_added_entry(b0, path, content, mime);
    assert(b1.len() >= b0.len()) by {
        assert(e.meta.data_offset as int >= b0.len());
    }
    crate::index::lemma_lookup_remove_path(m0, path, path0);
    crate::index::lemma_lookup_push(remove_path(m0, path), e, path0);
    assert(lookup(m1, path0) == lookup(m0, path0));
    match lookup(m0, path0) {
        Some(e1) => {
            assert forall|x: int| 1114160 <= x < b0.len() implies b1[x] == b0[x] by {
                assert(b1.subrange(1114160, b0.len() as int)[x - 1114160] == b1[x]);
            }
            assert forall|c: Seq<u8>|
                data_block_at(src_b, src_k, e0.data_offset as int, e0.data_length as int, c)
                    implies data_block_at(
                    b1,
                    key,
                    e1.data_offset as int,
                    e1.data_length as int,
                    c,
                ) by {
                let off = e1.data_offset as int;
                let len = e1.data_length as int;
                assert(data_block_at(b0, key, off, len, c));
                assert(b1.subrange(off, off + 24) =~= b0.subrange(off, off + 24));
                assert(b1.subrange(off + 24, off + len) =~= b0.subrange(off + 24, off + len));
            }
        },
        None => {},
    }
}

} // verus!
