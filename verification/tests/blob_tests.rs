use encryption_core::crypto::derive_key;
use encryption_core::{
    add_file, compact_blob, get_file, init_blob, remove_file, remove_folder, rename_file,
    unlock_blob, unlock_with_keys, BlobError, VolumeType,
};

#[test]
fn test_unlock_standard_volume() {
    let blob = init_blob(b"alpha", b"omega").unwrap();
    assert_eq!(blob.len(), 1114160);
    let (vol, _key, map) = unlock_blob(&blob, b"alpha").unwrap();
    assert_eq!(vol, VolumeType::Standard);
    assert!(map.is_empty());
}

#[test]
fn test_unlock_hidden_volume() {
    let blob = init_blob(b"alpha", b"omega").unwrap();
    let (vol, _key, map) = unlock_blob(&blob, b"omega").unwrap();
    assert_eq!(vol, VolumeType::Hidden);
    assert!(map.is_empty());
}

#[test]
fn test_conflicting_passwords_rejected() {
    assert_eq!(
        init_blob(b"same", b"same").unwrap_err(),
        BlobError::ConflictingPasswords
    );
}

#[test]
fn test_add_and_get_round_trip() {
    // A file added to the standard volume reads back byte-identical, with
    // its MIME type, through a fresh unlock.
    let mut blob = init_blob(b"alpha", b"omega").unwrap();
    let (vol, key, mut map) = unlock_blob(&blob, b"alpha").unwrap();
    add_file(
        &mut blob,
        vol,
        &key,
        &mut map,
        b"notes.txt",
        b"hello",
        b"text/plain",
    )
    .unwrap();

    let (_, key2, map2) = unlock_blob(&blob, b"alpha").unwrap();
    let meta = map2.get(b"notes.txt").unwrap();
    assert_eq!(meta.mime_type, b"text/plain".to_vec());
    assert_eq!(meta.size, 5);
    assert_eq!(get_file(&blob, &key2, meta).unwrap(), b"hello".to_vec());
}

#[test]
fn test_volume_isolation() {
    // A file added to the standard volume is absent from the hidden
    // volume's index, and its block does not decrypt under the hidden key.
    let mut blob = init_blob(b"alpha", b"omega").unwrap();
    let key_s = derive_key(b"alpha", &blob[9..25]).unwrap();
    let key_h = derive_key(b"omega", &blob[65536..65552]).unwrap();

    let (vol, key, mut map) = unlock_with_keys(&blob, &key_s, &key_h).unwrap();
    assert_eq!(vol, VolumeType::Standard);
    add_file(&mut blob, vol, &key, &mut map, b"a.txt", b"data", b"text/plain").unwrap();

    // open the hidden volume without another derivation: a key that opens
    // nothing standard falls through to the hidden attempt
    let (vol_h, _k, map_h) = unlock_with_keys(&blob, &[0u8; 32], &key_h).unwrap();
    assert_eq!(vol_h, VolumeType::Hidden);
    assert!(map_h.is_empty());
    assert!(!map_h.contains_key(b"a.txt"));

    // the wrong volume's key fails closed on the standard entry
    let meta = map.get(b"a.txt").unwrap();
    assert!(get_file(&blob, &key_h, meta).is_err());
}

#[test]
fn test_hidden_volume_round_trip() {
    let mut blob = init_blob(b"alpha", b"omega").unwrap();
    let key_s = derive_key(b"alpha", &blob[9..25]).unwrap();
    let key_h = derive_key(b"omega", &blob[65536..65552]).unwrap();

    let (vol, key, mut map) = unlock_with_keys(&blob, &[0u8; 32], &key_h).unwrap();
    assert_eq!(vol, VolumeType::Hidden);
    add_file(
        &mut blob,
        vol,
        &key,
        &mut map,
        b"secret.bin",
        b"\x00\x01\x02\xff",
        b"application/octet-stream",
    )
    .unwrap();

    let (vol2, key2, map2) = unlock_with_keys(&blob, &[0u8; 32], &key_h).unwrap();
    assert_eq!(vol2, VolumeType::Hidden);
    let meta = map2.get(b"secret.bin").unwrap();
    assert_eq!(get_file(&blob, &key2, meta).unwrap(), vec![0x00, 0x01, 0x02, 0xff]);

    // the standard index does not hold the hidden file
    let (vol_s, _, std_map) = unlock_with_keys(&blob, &key_s, &[0u8; 32]).unwrap();
    assert_eq!(vol_s, VolumeType::Standard);
    assert!(std_map.get(b"secret.bin").is_none());
}

#[test]
fn test_wrong_password_error_is_generic() {
    // Every failing unlock yields the one generic error, byte-equal in its
    // message, whatever actually failed.
    let blob = init_blob(b"alpha", b"omega").unwrap();
    let e1 = unlock_blob(&blob, b"wrong").unwrap_err();
    let e2 = unlock_blob(b"not a blob at all", b"alpha").unwrap_err();
    let e3 = unlock_blob(&blob[..50], b"alpha").unwrap_err();
    assert_eq!(e1, BlobError::InvalidPassword);
    assert_eq!(e1, e2);
    assert_eq!(e1, e3);
    assert_eq!(e1.message(), e2.message());
    assert_eq!(e1.message(), "Invalid password or corrupted blob");
}

#[test]
fn test_rename_moves_the_entry() {
    let mut blob = init_blob(b"alpha", b"omega").unwrap();
    let (vol, key, mut map) = unlock_blob(&blob, b"alpha").unwrap();
    add_file(&mut blob, vol, &key, &mut map, b"old.txt", b"body", b"text/plain").unwrap();

    let renamed = rename_file(&mut blob, vol, &key, &mut map, b"old.txt", b"new.txt").unwrap();
    assert!(renamed);
    assert!(!map.contains_key(b"old.txt"));
    let meta = map.get(b"new.txt").unwrap();
    assert_eq!(get_file(&blob, &key, meta).unwrap(), b"body".to_vec());

    // renaming a missing path reports false and changes nothing
    let missing = rename_file(&mut blob, vol, &key, &mut map, b"gone", b"x").unwrap();
    assert!(!missing);
}

#[test]
fn test_remove_folder_takes_folder_and_children() {
    let mut blob = init_blob(b"alpha", b"omega").unwrap();
    let (vol, key, mut map) = unlock_blob(&blob, b"alpha").unwrap();
    add_file(&mut blob, vol, &key, &mut map, b"docs/a.txt", b"a", b"text/plain").unwrap();
    add_file(&mut blob, vol, &key, &mut map, b"docs/b.txt", b"b", b"text/plain").unwrap();
    add_file(&mut blob, vol, &key, &mut map, b"docs", b"idx", b"text/plain").unwrap();
    add_file(&mut blob, vol, &key, &mut map, b"docsother", b"k", b"text/plain").unwrap();
    add_file(&mut blob, vol, &key, &mut map, b"keep.txt", b"k", b"text/plain").unwrap();

    let removed = remove_folder(&mut blob, vol, &key, &mut map, b"docs").unwrap();
    assert!(removed);
    assert!(!map.contains_key(b"docs/a.txt"));
    assert!(!map.contains_key(b"docs/b.txt"));
    assert!(!map.contains_key(b"docs"));
    // a sibling whose name merely starts with the folder's name stays
    assert!(map.contains_key(b"docsother"));
    assert!(map.contains_key(b"keep.txt"));

    // removing it again reports that nothing matched
    let again = remove_folder(&mut blob, vol, &key, &mut map, b"docs/").unwrap();
    assert!(!again);

    // the empty folder stands for the root prefix: nothing here starts
    // with a slash, so nothing matches
    let root = remove_folder(&mut blob, vol, &key, &mut map, b"").unwrap();
    assert!(!root);
    assert!(map.contains_key(b"keep.txt"));
}

#[test]
fn test_removal_is_logical() {
    // Removing files never shrinks the blob: the entries leave the index,
    // the data bytes stay where they were.
    let mut blob = init_blob(b"alpha", b"omega").unwrap();
    let (vol, key, mut map) = unlock_blob(&blob, b"alpha").unwrap();
    add_file(&mut blob, vol, &key, &mut map, b"a.txt", b"alpha", b"text/plain").unwrap();
    add_file(&mut blob, vol, &key, &mut map, b"b.txt", b"bravo", b"text/plain").unwrap();
    add_file(&mut blob, vol, &key, &mut map, b"c.txt", b"charlie", b"text/plain").unwrap();
    let size_before = blob.len();

    let removed = remove_file(&mut blob, vol, &key, &mut map, b"b.txt").unwrap();
    assert!(removed);
    assert!(!map.contains_key(b"b.txt"));
    assert!(map.get(b"b.txt").is_none());
    assert!(blob.len() >= size_before);

    // the survivors still read back
    assert_eq!(get_file(&blob, &key, map.get(b"a.txt").unwrap()).unwrap(), b"alpha".to_vec());
    assert_eq!(
        get_file(&blob, &key, map.get(b"c.txt").unwrap()).unwrap(),
        b"charlie".to_vec()
    );

    // removing a missing file reports false
    assert!(!remove_file(&mut blob, vol, &key, &mut map, b"b.txt").unwrap());
}

#[test]
fn test_replacing_a_file_keeps_one_entry() {
    // Adding under an existing path replaces the entry; the new content is
    // read back and the index holds a single entry for the path.
    let mut blob = init_blob(b"alpha", b"omega").unwrap();
    let (vol, key, mut map) = unlock_blob(&blob, b"alpha").unwrap();
    add_file(&mut blob, vol, &key, &mut map, b"f.txt", b"first", b"text/plain").unwrap();
    add_file(&mut blob, vol, &key, &mut map, b"f.txt", b"second", b"text/plain").unwrap();
    assert_eq!(map.len(), 1);
    let (_, k2, m2) = unlock_blob(&blob, b"alpha").unwrap();
    assert_eq!(m2.len(), 1);
    assert_eq!(get_file(&blob, &k2, m2.get(b"f.txt").unwrap()).unwrap(), b"second".to_vec());
}

#[test]
fn test_corrupt_entry_read_fails_closed() {
    // An index record pointing at bytes that are not a sealed block yields
    // the corruption error, never bogus plaintext.
    let blob = init_blob(b"alpha", b"omega").unwrap();
    let (_, key, _) = unlock_blob(&blob, b"alpha").unwrap();
    let bogus = encryption_core::FileMetadata {
        size: 16,
        data_offset: 70000,
        data_length: 56,
        mime_type: b"x/y".to_vec(),
    };
    assert_eq!(get_file(&blob, &key, &bogus).unwrap_err(), BlobError::Corruption);
}

#[test]
fn test_fresh_randomness_per_init() {
    // Two blobs from the same passwords share no salts or nonces, and the
    // hidden header region differs: nothing marks the hidden volume.
    let b1 = init_blob(b"alpha", b"omega").unwrap();
    let b2 = init_blob(b"alpha", b"omega").unwrap();
    assert_ne!(&b1[9..25], &b2[9..25]); // standard salts
    assert_ne!(&b1[25..49], &b2[25..49]); // standard metadata nonces
    assert_ne!(&b1[65536..65584], &b2[65536..65584]); // hidden header bytes
}

#[test]
fn test_compact_rejects_unreadable_blob() {
    // Compaction needs both volumes to open; bytes that are no blob fail
    // with the generic unlock error before anything is rebuilt.
    assert_eq!(
        compact_blob(b"not a blob", b"alpha", b"omega").unwrap_err(),
        BlobError::InvalidPassword
    );
}
