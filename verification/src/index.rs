use vstd::prelude::*;

use crate::bytes_util::append_subrange;
use crate::errors::BlobError;
use vstd::bytes::{spec_u64_from_le_bytes, spec_u64_to_le_bytes, lemma_auto_spec_u64_to_from_le_bytes, u64_from_le_bytes, u64_to_le_bytes};
use vstd::slice::slice_subrange;

verus! {

/// Ghost form of a file entry: what one stored file's index record says.
pub ghost struct FileMetadataV {
    /// Original length of the file body in bytes.
    pub size: u64,
    /// Offset of the file's data block (nonce followed by ciphertext).
    pub data_offset: u64,
    /// Total length of the data block in bytes.
    pub data_length: u64,
    /// MIME type as bytes.
    pub mime_type: Seq<u8>,
}

/// The index record of one stored file.
#[derive(Debug)]
pub struct FileMetadata {
    /// Original length of the file body in bytes.
    pub size: u64,
    /// Offset within the blob where the data block (nonce followed by
    /// ciphertext) begins.
    pub data_offset: u64,
    /// Total length of the data block in bytes.
    pub data_length: u64,
    /// MIME type as bytes (for example `b"text/plain"`).
    pub mime_type: Vec<u8>,
}

impl View for FileMetadata {
    type V = FileMetadataV;

    open spec fn view(&self) -> FileMetadataV {
        FileMetadataV {
            size: self.size,
            data_offset: self.data_offset,
            data_length: self.data_length,
            mime_type: self.mime_type@,
        }
    }
}

impl FileMetadata {
    /// A copy of this record with the same view.
    pub fn duplicate(&self) -> (r: FileMetadata)
        ensures
            r@ == self@,
    {
        let mut mime: Vec<u8> = Vec::new();
        append_subrange(&mut mime, self.mime_type.as_slice(), 0, self.mime_type.len());
        proof {
            assert(self.mime_type@.subrange(0, self.mime_type@.len() as int) =~= self
                .mime_type@);
        }
        FileMetadata {
            size: self.size,
            data_offset: self.data_offset,
            data_length: self.data_length,
            mime_type: mime,
        }
    }
}

/// Ghost form of one index entry: a path and its record.
pub ghost struct IndexEntryV {
    pub path: Seq<u8>,
    pub meta: FileMetadataV,
}

/// One entry of a volume's index.
#[derive(Debug)]
pub struct IndexEntry {
    pub path: Vec<u8>,
    pub meta: FileMetadata,
}

impl View for IndexEntry {
    type V = IndexEntryV;

    open spec fn view(&self) -> IndexEntryV {
        IndexEntryV { path: self.path@, meta: self.meta@ }
    }
}

/// The first entry for `path`, if any.
pub open spec fn lookup(s: Seq<IndexEntryV>, path: Seq<u8>) -> Option<FileMetadataV>
    decreases s.len(),
{
    if s.len() == 0 {
        None
    } else if s[0].path == path {
        Some(s[0].meta)
    } else {
        lookup(s.drop_first(), path)
    }
}

/// True when the index holds an entry for `path`.
pub open spec fn contains_path(s: Seq<IndexEntryV>, path: Seq<u8>) -> bool {
    lookup(s, path) is Some
}

/// The index without any entry for `path`.
pub open spec fn remove_path(s: Seq<IndexEntryV>, path: Seq<u8>) -> Seq<IndexEntryV> {
    s.filter(|e: IndexEntryV| e.path != path)
}

/// The index without the folder `folder`'s entries.
pub open spec fn remove_folder_spec(s: Seq<IndexEntryV>, folder: Seq<u8>) -> Seq<IndexEntryV> {
    s.filter(|e: IndexEntryV| !folder_matches(e.path, folder))
}

/// Removing a path from a one-entry index keeps or drops that entry.
pub proof fn lemma_remove_path_singleton(e: IndexEntryV, p: Seq<u8>)
    ensures
        remove_path(seq![e], p) == if e.path != p {
            seq![e]
        } else {
            Seq::<IndexEntryV>::empty()
        },
{
    reveal_with_fuel(Seq::filter, 2);
    assert(seq![e].drop_last() =~= Seq::<IndexEntryV>::empty());
    assert(seq![e].last() == e);
    if e.path != p {
        assert(remove_path(seq![e], p) =~= seq![e]);
    } else {
        assert(remove_path(seq![e], p) =~= Seq::<IndexEntryV>::empty());
    }
}

/// Removing a path that has no entry changes nothing.
pub proof fn lemma_remove_path_absent(s: Seq<IndexEntryV>, p: Seq<u8>)
    requires
        !contains_path(s, p),
    ensures
        remove_path(s, p) == s,
    decreases s.len(),
{
    broadcast use Seq::filter_distributes_over_add;

    if s.len() == 0 {
        reveal(Seq::filter);
        assert(remove_path(s, p) =~= s);
    } else {
        let rest = s.drop_first();
        assert(s =~= seq![s[0]] + rest);
        lemma_remove_path_singleton(s[0], p);
        assert(s[0].path != p);
        lemma_remove_path_absent(rest, p);
        assert(remove_path(s, p) =~= seq![s[0]] + remove_path(rest, p));
        assert(remove_path(s, p) =~= s);
    }
}

/// Removing a folder from a one-entry index keeps or drops that entry.
pub proof fn lemma_remove_folder_singleton(e: IndexEntryV, folder: Seq<u8>)
    ensures
        remove_folder_spec(seq![e], folder) == if !folder_matches(e.path, folder) {
            seq![e]
        } else {
            Seq::<IndexEntryV>::empty()
        },
{
    reveal_with_fuel(Seq::filter, 2);
    assert(seq![e].drop_last() =~= Seq::<IndexEntryV>::empty());
    assert(seq![e].last() == e);
    if !folder_matches(e.path, folder) {
        assert(remove_folder_spec(seq![e], folder) =~= seq![e]);
    } else {
        assert(remove_folder_spec(seq![e], folder) =~= Seq::<IndexEntryV>::empty());
    }
}

/// Looking a path up after removing another path: removing `p` hides `p`
/// and leaves every other path's entry as it was.
pub proof fn lemma_lookup_remove_path(s: Seq<IndexEntryV>, p: Seq<u8>, q: Seq<u8>)
    ensures
        lookup(remove_path(s, p), q) == if p == q {
            None::<FileMetadataV>
        } else {
            lookup(s, q)
        },
    decreases s.len(),
{
    reveal(Seq::filter);
    if s.len() == 0 {
        assert(remove_path(s, p) =~= Seq::<IndexEntryV>::empty());
    } else {
        let rest = s.drop_first();
        lemma_lookup_remove_path(rest, p, q);
        assert(s == seq![s[0]] + rest);
        lemma_filter_first(s, |e: IndexEntryV| e.path != p);
        if s[0].path == p {
            assert(remove_path(s, p) == remove_path(rest, p));
        } else {
            assert(remove_path(s, p) == seq![s[0]] + remove_path(rest, p));
            assert(remove_path(s, p)[0] == s[0]);
            assert(remove_path(s, p).drop_first() =~= remove_path(rest, p));
        }
    }
}

/// Filtering a nonempty sequence: the first element is kept or dropped, the
/// rest is filtered.
pub proof fn lemma_filter_first(s: Seq<IndexEntryV>, pred: spec_fn(IndexEntryV) -> bool)
    requires
        s.len() > 0,
    ensures
        s.filter(pred) == if pred(s[0]) {
            seq![s[0]] + s.drop_first().filter(pred)
        } else {
            s.drop_first().filter(pred)
        },
{
    let rest = s.drop_first();
    let first = seq![s[0]];
    assert(s =~= first + rest);
    Seq::filter_distributes_over_add(first, rest, pred);
    reveal(Seq::filter);
    assert(first.drop_last() =~= Seq::<IndexEntryV>::empty());
    assert(Seq::<IndexEntryV>::empty().filter(pred) =~= Seq::<IndexEntryV>::empty());
    assert(first.last() == s[0]);
    if pred(s[0]) {
        assert(first.filter(pred) =~= seq![s[0]]);
    } else {
        assert(first.filter(pred) =~= Seq::<IndexEntryV>::empty());
        assert(Seq::<IndexEntryV>::empty() + rest.filter(pred) =~= rest.filter(pred));
    }
}

/// Looking up a path after pushing an entry at the end: the pushed entry is
/// found only where no earlier entry shadows it.
pub proof fn lemma_lookup_push(s: Seq<IndexEntryV>, e: IndexEntryV, q: Seq<u8>)
    ensures
        lookup(s.push(e), q) == if lookup(s, q) is Some {
            lookup(s, q)
        } else if e.path == q {
            Some(e.meta)
        } else {
            None::<FileMetadataV>
        },
    decreases s.len(),
{
    if s.len() == 0 {
        assert(s.push(e)[0] == e);
        assert(s.push(e).drop_first() =~= Seq::<IndexEntryV>::empty());
        assert(lookup(s.push(e).drop_first(), q) is None);
        if e.path == q {
            assert(lookup(s.push(e), q) == Some(e.meta));
        } else {
            assert(lookup(s.push(e), q) is None);
        }
    } else {
        lemma_lookup_push(s.drop_first(), e, q);
        assert(s.push(e)[0] == s[0]);
        assert(s.push(e).drop_first() =~= s.drop_first().push(e));
        if s[0].path == q {
            assert(lookup(s.push(e), q) == Some(s[0].meta));
            assert(lookup(s, q) == Some(s[0].meta));
        } else {
            assert(lookup(s.push(e), q) == lookup(s.drop_first().push(e), q));
            assert(lookup(s, q) == lookup(s.drop_first(), q));
        }
    }
}

/// The in-memory index of one unlocked volume: a list of path/record pairs.
/// Lookups return the first entry for a path; the mutating operations keep
/// at most one entry per path.
#[derive(Debug)]
pub struct MetadataMap {
    entries: Vec<IndexEntry>,
}

impl View for MetadataMap {
    type V = Seq<IndexEntryV>;

    closed spec fn view(&self) -> Seq<IndexEntryV> {
        Seq::new(self.entries@.len(), |i: int| self.entries@[i]@)
    }
}

impl MetadataMap {
    /// An empty index.
    pub fn new() -> (r: MetadataMap)
        ensures
            r@ =~= Seq::<IndexEntryV>::empty(),
    {
        MetadataMap { entries: Vec::new() }
    }

    /// The number of entries.
    pub fn len(&self) -> (r: usize)
        ensures
            r == self@.len(),
    {
        self.entries.len()
    }

    /// True when the index holds no entry.
    pub fn is_empty(&self) -> (r: bool)
        ensures
            r == (self@.len() == 0),
    {
        self.entries.len() == 0
    }

    /// The path of the entry at position `i`.
    pub fn path_at(&self, i: usize) -> (r: &Vec<u8>)
        requires
            i < self@.len(),
        ensures
            r@ == self@[i as int].path,
    {
        &self.entries[i].path
    }

    /// The record of the entry at position `i`.
    pub fn meta_at(&self, i: usize) -> (r: &FileMetadata)
        requires
            i < self@.len(),
        ensures
            r@ == self@[i as int].meta,
    {
        &self.entries[i].meta
    }

    /// The record stored for `path`, if any.
    pub fn get(&self, path: &[u8]) -> (r: Option<&FileMetadata>)
        ensures
            match r {
                Some(m) => lookup(self@, path@) == Some(m@),
                None => lookup(self@, path@) is None,
            },
    {
        let n = self.entries.len();
        let mut i: usize = 0;
        proof {
            assert(self@.skip(0) =~= self@);
        }
        while i < n
            invariant
                n == self@.len(),
                i <= n,
                lookup(self@, path@) == lookup(self@.skip(i as int), path@),
            decreases n - i,
        {
            proof {
                let suf = self@.skip(i as int);
                assert(suf[0] == self@[i as int]);
                assert(suf.drop_first() =~= self@.skip(i + 1));
            }
            if crate::bytes_util::bytes_eq(self.entries[i].path.as_slice(), path) {
                proof {
                    assert(self@.skip(i as int)[0].path == path@);
                }
                return Some(&self.entries[i].meta);
            }
            i = i + 1;
        }
        proof {
            assert(self@.skip(n as int) =~= Seq::<IndexEntryV>::empty());
        }
        None
    }

    /// True when the index holds an entry for `path`.
    pub fn contains_key(&self, path: &[u8]) -> (r: bool)
        ensures
            r == contains_path(self@, path@),
    {
        match self.get(path) {
            Some(_) => true,
            None => false,
        }
    }

    /// Drops every entry whose path is `path`. Returns true when at least
    /// one entry was dropped.
    fn remove_all(&mut self, path: &[u8]) -> (r: bool)
        ensures
            final(self)@ == remove_path(old(self)@, path@),
            r == contains_path(old(self)@, path@),
    {
        broadcast use Seq::filter_distributes_over_add;

        let n = self.entries.len();
        let mut kept: Vec<IndexEntry> = Vec::new();
        let mut found = false;
        let mut i: usize = 0;
        proof {
            assert(old(self)@.take(0) =~= Seq::<IndexEntryV>::empty());
            reveal(Seq::filter);
            assert(views_of(kept@) =~= remove_path(old(self)@.take(0), path@));
            assert(old(self)@.skip(0) =~= old(self)@);
        }
        while i < n
            invariant
                n == old(self)@.len(),
                self@ == old(self)@,
                i <= n,
                views_of(kept@) == remove_path(old(self)@.take(i as int), path@),
                found ==> contains_path(old(self)@, path@),
                !found ==> lookup(old(self)@, path@) == lookup(
                    old(self)@.skip(i as int),
                    path@,
                ),
            decreases n - i,
        {
            let ghost full = old(self)@;
            let ghost e = full[i as int];
            proof {
                let suf = full.skip(i as int);
                assert(suf[0] == e);
                assert(suf.drop_first() =~= full.skip(i + 1));
                assert(full.take(i + 1) =~= full.take(i as int) + seq![e]);
                lemma_remove_path_singleton(e, path@);
                assert(remove_path(full.take(i + 1), path@) == remove_path(
                    full.take(i as int),
                    path@,
                ) + remove_path(seq![e], path@));
            }
            let matches = crate::bytes_util::bytes_eq(self.entries[i].path.as_slice(), path);
            if matches {
                found = true;
                proof {
                    assert(views_of(kept@) =~= remove_path(full.take(i + 1), path@));
                }
            } else {
                let en = &self.entries[i];
                let entry = IndexEntry { path: copy_bytes(&en.path), meta: en.meta.duplicate() };
                proof {
                    assert(entry@ == e);
                }
                kept.push(entry);
                proof {
                    assert(views_of(kept@) =~= views_of(kept@.drop_last()).push(e));
                    assert(remove_path(full.take(i as int), path@) + remove_path(
                        seq![e],
                        path@,
                    ) =~= remove_path(full.take(i as int), path@).push(e));
                    assert(views_of(kept@) =~= remove_path(full.take(i + 1), path@));
                }
            }
            i = i + 1;
        }
        proof {
            assert(old(self)@.take(n as int) =~= old(self)@);
            assert(old(self)@.skip(n as int) =~= Seq::<IndexEntryV>::empty());
        }
        self.entries = kept;
        proof {
            assert(self@ =~= views_of(self.entries@));
        }
        found
    }

    /// Inserts or replaces the entry for `path`.
    pub fn insert(&mut self, path: Vec<u8>, meta: FileMetadata)
        ensures
            final(self)@ == remove_path(old(self)@, path@).push(
                IndexEntryV { path: path@, meta: meta@ },
            ),
    {
        let ghost p = path@;
        let ghost m = meta@;
        self.remove_all(path.as_slice());
        let entry = IndexEntry { path, meta };
        proof {
            assert(entry@ == (IndexEntryV { path: p, meta: m }));
        }
        self.entries.push(entry);
        proof {
            assert(self@ =~= remove_path(old(self)@, p).push(entry@));
        }
    }

    /// Removes the entry for `path`. Returns false when no entry was there.
    pub fn remove(&mut self, path: &[u8]) -> (r: bool)
        ensures
            final(self)@ == remove_path(old(self)@, path@),
            r == contains_path(old(self)@, path@),
    {
        self.remove_all(path)
    }

    /// Moves the entry at `old_path` to `new_path`, replacing any entry
    /// already at `new_path`. Returns false when `old_path` has no entry.
    pub fn rename(&mut self, old_path: &[u8], new_path: &[u8]) -> (r: bool)
        ensures
            match lookup(old(self)@, old_path@) {
                Some(m) => r && final(self)@ == remove_path(
                    remove_path(old(self)@, old_path@),
                    new_path@,
                ).push(IndexEntryV { path: new_path@, meta: m }),
                None => !r && final(self)@ == old(self)@,
            },
    {
        let taken = match self.get(old_path) {
            Some(m) => Some(m.duplicate()),
            None => None,
        };
        match taken {
            Some(m) => {
                self.remove_all(old_path);
                self.insert(copy_bytes_slice(new_path), m);
                true
            },
            None => false,
        }
    }

    /// Removes the entry whose path is the folder itself and every entry
    /// under the folder. Returns true when at least one entry was removed.
    pub fn remove_folder_entries(&mut self, folder: &[u8]) -> (r: bool)
        ensures
            final(self)@ == remove_folder_spec(old(self)@, folder@),
            r == (final(self)@.len() < old(self)@.len()),
    {
        broadcast use Seq::filter_distributes_over_add;

        let trimmed_len = trimmed_length(folder);
        let n = self.entries.len();
        let mut kept: Vec<IndexEntry> = Vec::new();
        let mut i: usize = 0;
        proof {
            assert(old(self)@.take(0) =~= Seq::<IndexEntryV>::empty());
            reveal(Seq::filter);
            assert(views_of(kept@) =~= remove_folder_spec(old(self)@.take(0), folder@));
        }
        while i < n
            invariant
                n == old(self)@.len(),
                self@ == old(self)@,
                i <= n,
                kept@.len() <= i,
                trimmed_len <= folder@.len(),
                trim_slashes(folder@) == folder@.subrange(0, trimmed_len as int),
                views_of(kept@) == remove_folder_spec(old(self)@.take(i as int), folder@),
            decreases n - i,
        {
            let ghost full = old(self)@;
            let ghost e = full[i as int];
            proof {
                assert(full.take(i + 1) =~= full.take(i as int) + seq![e]);
                lemma_remove_folder_singleton(e, folder@);
                assert(remove_folder_spec(full.take(i + 1), folder@) == remove_folder_spec(
                    full.take(i as int),
                    folder@,
                ) + remove_folder_spec(seq![e], folder@));
            }
            let keep = !path_in_folder(self.entries[i].path.as_slice(), folder, trimmed_len);
            if keep {
                let en = &self.entries[i];
                let entry = IndexEntry { path: copy_bytes(&en.path), meta: en.meta.duplicate() };
                proof {
                    assert(entry@ == e);
                }
                kept.push(entry);
                proof {
                    assert(views_of(kept@) =~= views_of(kept@.drop_last()).push(e));
                    assert(remove_folder_spec(full.take(i as int), folder@) + remove_folder_spec(
                        seq![e],
                        folder@,
                    ) =~= remove_folder_spec(full.take(i as int), folder@).push(e));
                    assert(views_of(kept@) =~= remove_folder_spec(full.take(i + 1), folder@));
                }
            } else {
                proof {
                    assert(views_of(kept@) =~= remove_folder_spec(full.take(i + 1), folder@));
                }
            }
            i = i + 1;
        }
        proof {
            assert(old(self)@.take(n as int) =~= old(self)@);
        }
        let removed = kept.len() < self.entries.len();
        self.entries = kept;
        proof {
            assert(self@ =~= views_of(self.entries@));
        }
        removed
    }
}

/// The views of a list of entries.
pub open spec fn views_of(s: Seq<IndexEntry>) -> Seq<IndexEntryV> {
    Seq::new(s.len(), |i: int| s[i]@)
}

/// A copy of a byte vector.
pub fn copy_bytes(v: &Vec<u8>) -> (r: Vec<u8>)
    ensures
        r@ == v@,
{
    copy_bytes_slice(v.as_slice())
}

/// A copy of a byte slice as a vector.
pub fn copy_bytes_slice(v: &[u8]) -> (r: Vec<u8>)
    ensures
        r@ == v@,
{
    let mut r: Vec<u8> = Vec::new();
    append_subrange(&mut r, v, 0, v.len());
    proof {
        assert(v@.subrange(0, v@.len() as int) =~= v@);
    }
    r
}

/// The folder path without its trailing slashes.
pub open spec fn trim_slashes(folder: Seq<u8>) -> Seq<u8>
    decreases folder.len(),
{
    if folder.len() > 0 && folder[folder.len() - 1] == 47u8 {
        trim_slashes(folder.drop_last())
    } else {
        folder
    }
}

/// The prefix that identifies entries under a folder: the folder followed
/// by a slash, or the folder itself when it already ends in one.
pub open spec fn folder_prefix(folder: Seq<u8>) -> Seq<u8> {
    if folder.len() > 0 && folder[folder.len() - 1] == 47u8 {
        folder
    } else {
        folder.push(47u8)
    }
}

/// True when removing `folder` removes the entry at `path`: the path is the
/// folder itself (trailing slashes ignored), or lies under it.
pub open spec fn folder_matches(path: Seq<u8>, folder: Seq<u8>) -> bool {
    path == trim_slashes(folder) || (folder_prefix(folder) == path.take(
        folder_prefix(folder).len() as int,
    ) && folder_prefix(folder).len() <= path.len())
}

/// The length of `folder` once trailing slashes are dropped.
fn trimmed_length(folder: &[u8]) -> (r: usize)
    ensures
        r <= folder@.len(),
        trim_slashes(folder@) == folder@.subrange(0, r as int),
{
    let mut k = folder.len();
    proof {
        assert(folder@.take(folder@.len() as int) =~= folder@);
    }
    while k > 0 && folder[k - 1] == 47u8
        invariant
            k <= folder@.len(),
            trim_slashes(folder@) == trim_slashes(folder@.take(k as int)),
        decreases k,
    {
        proof {
            let t = folder@.take(k as int);
            assert(t[t.len() - 1] == folder@[k - 1]);
            assert(t.drop_last() =~= folder@.take(k - 1));
        }
        k = k - 1;
    }
    proof {
        let t = folder@.take(k as int);
        if k > 0 {
            assert(t[t.len() - 1] == folder@[k - 1]);
        }
        assert(trim_slashes(t) == t);
        assert(folder@.take(k as int) =~= folder@.subrange(0, k as int));
    }
    k
}

/// True when the entry at `path` falls to a removal of `folder`.
fn path_in_folder(path: &[u8], folder: &[u8], trimmed_len: usize) -> (r: bool)
    requires
        trimmed_len <= folder@.len(),
        trim_slashes(folder@) == folder@.subrange(0, trimmed_len as int),
    ensures
        r == folder_matches(path@, folder@),
{
    let flen = folder.len();
    // the path equals the folder with trailing slashes dropped
    if path.len() == trimmed_len && crate::bytes_util::range_eq(path, 0, folder, 0, trimmed_len)
    {
        proof {
            assert(path@.subrange(0, trimmed_len as int) =~= path@);
        }
        return true;
    }
    if flen == 0 {
        // the prefix is a single slash: the path lies under the root folder
        // exactly when it begins with one
        proof {
            assert(folder_prefix(folder@) =~= seq![47u8]);
            if path@ == trim_slashes(folder@) {
                assert(path@.len() == trimmed_len);
            }
            if path@.len() == 0 {
                assert(path@.subrange(0, 0) =~= folder@.subrange(0, 0));
                assert(false);
            }
            assert(path@.len() >= 1);
        }
        if path[0] == 47u8 {
            proof {
                assert(path@.take(1) =~= seq![path@[0]]);
                assert(folder_prefix(folder@) == path@.take(folder_prefix(folder@).len() as int));
            }
            return true;
        } else {
            proof {
                if folder_prefix(folder@) == path@.take(1) && 1 <= path@.len() {
                    assert(path@.take(1)[0] == path@[0]);
                    assert(false);
                }
            }
            return false;
        }
    }
    proof {
        if path@ == trim_slashes(folder@) {
            assert(path@.len() == trimmed_len);
            assert(path@.subrange(0, trimmed_len as int) =~= path@);
        }
    }
    // the path lies under the folder prefix
    if folder[flen - 1] == 47u8 {
        // the folder already ends in a slash: the prefix is the folder itself
        if path.len() >= flen && crate::bytes_util::range_eq(path, 0, folder, 0, flen) {
            proof {
                assert(folder_prefix(folder@) =~= folder@);
                assert(folder@.subrange(0, flen as int) =~= folder@);
                assert(path@.take(flen as int) =~= path@.subrange(0, flen as int));
            }
            true
        } else {
            proof {
                assert(folder_prefix(folder@) =~= folder@);
                if folder_prefix(folder@) == path@.take(flen as int) && flen <= path@.len() {
                    assert(folder@.subrange(0, flen as int) =~= folder@);
                    assert(path@.take(flen as int) =~= path@.subrange(0, flen as int));
                }
            }
            false
        }
    } else {
        // the prefix is the folder followed by a slash
        if path.len() > flen && crate::bytes_util::range_eq(path, 0, folder, 0, flen)
            && path[flen] == 47u8 {
            proof {
                let pre = folder_prefix(folder@);
                assert(pre =~= folder@.push(47u8));
                assert(folder@.subrange(0, flen as int) =~= folder@);
                assert(path@.take(pre.len() as int) =~= pre) by {
                    assert(path@.subrange(0, flen as int) =~= folder@);
                    assert forall|j: int| 0 <= j < pre.len() implies path@.take(
                        pre.len() as int,
                    )[j] == pre[j] by {
                        if j < flen {
                            assert(path@[j] == folder@.subrange(0, flen as int)[j]);
                        }
                    }
                }
            }
            true
        } else {
            proof {
                let pre = folder_prefix(folder@);
                assert(pre =~= folder@.push(47u8));
                if pre == path@.take(pre.len() as int) && pre.len() <= path@.len() {
                    assert(path@.take(pre.len() as int)[flen as int] == path@[flen as int]);
                    assert(pre[flen as int] == 47u8);
                    assert forall|j: int| 0 <= j < flen implies path@.subrange(
                        0,
                        flen as int,
                    )[j] == folder@[j] by {
                        assert(path@.take(pre.len() as int)[j] == pre[j]);
                    }
                    assert(path@.subrange(0, flen as int) =~= folder@);
                }
            }
            false
        }
    }
}



// --- Index serialization: the compact deterministic binary form of a
// --- volume's index. Little-endian fixed-width integers; length-prefixed
// --- byte strings.

/// True when an entry's lengths fit the 64-bit length fields.
pub open spec fn entry_wf(e: IndexEntryV) -> bool {
    e.path.len() <= u64::MAX && e.meta.mime_type.len() <= u64::MAX
}

/// True when an index can be serialized.
pub open spec fn index_wf(s: Seq<IndexEntryV>) -> bool {
    s.len() <= u64::MAX && forall|i: int| 0 <= i < s.len() ==> entry_wf(#[trigger] s[i])
}

/// The encoding of one entry: path length, path, size, data offset, data
/// length, MIME length, MIME bytes.
pub open spec fn spec_enc_entry(e: IndexEntryV) -> Seq<u8> {
    spec_u64_to_le_bytes(e.path.len() as u64) + e.path + spec_u64_to_le_bytes(e.meta.size)
        + spec_u64_to_le_bytes(e.meta.data_offset) + spec_u64_to_le_bytes(e.meta.data_length)
        + spec_u64_to_le_bytes(e.meta.mime_type.len() as u64) + e.meta.mime_type
}

/// The concatenated encodings of a list of entries.
pub open spec fn spec_enc_entries(s: Seq<IndexEntryV>) -> Seq<u8>
    decreases s.len(),
{
    if s.len() == 0 {
        Seq::empty()
    } else {
        spec_enc_entry(s[0]) + spec_enc_entries(s.drop_first())
    }
}

/// The serialized index: the entry count, then the entries.
pub open spec fn spec_serialize_index(s: Seq<IndexEntryV>) -> Seq<u8> {
    spec_u64_to_le_bytes(s.len() as u64) + spec_enc_entries(s)
}

/// Parses exactly `n` entries from `b`, requiring that no byte is left over.
pub open spec fn spec_dec_entries(b: Seq<u8>, n: nat) -> Option<Seq<IndexEntryV>>
    decreases n,
{
    if n == 0 {
        if b.len() == 0 {
            Some(Seq::empty())
        } else {
            None
        }
    } else if b.len() < 8 {
        None
    } else {
        let plen = spec_u64_from_le_bytes(b.subrange(0, 8)) as int;
        if 40 + plen > b.len() {
            None
        } else {
            let path = b.subrange(8, 8 + plen);
            let size = spec_u64_from_le_bytes(b.subrange(8 + plen, 16 + plen));
            let off = spec_u64_from_le_bytes(b.subrange(16 + plen, 24 + plen));
            let dlen = spec_u64_from_le_bytes(b.subrange(24 + plen, 32 + plen));
            let mlen = spec_u64_from_le_bytes(b.subrange(32 + plen, 40 + plen)) as int;
            if 40 + plen + mlen > b.len() {
                None
            } else {
                let mime = b.subrange(40 + plen, 40 + plen + mlen);
                let e = IndexEntryV {
                    path,
                    meta: FileMetadataV {
                        size,
                        data_offset: off,
                        data_length: dlen,
                        mime_type: mime,
                    },
                };
                match spec_dec_entries(b.skip(40 + plen + mlen), (n - 1) as nat) {
                    Some(t) => Some(seq![e] + t),
                    None => None,
                }
            }
        }
    }
}

/// The parse of a serialized index: the count, then that many entries.
pub open spec fn spec_deserialize_index(b: Seq<u8>) -> Option<Seq<IndexEntryV>> {
    if b.len() < 8 {
        None
    } else {
        spec_dec_entries(b.skip(8), spec_u64_from_le_bytes(b.subrange(0, 8)) as nat)
    }
}

/// Parsing the encoding of a list of entries gives the list back.
pub proof fn lemma_dec_enc_entries(s: Seq<IndexEntryV>)
    requires
        forall|i: int| 0 <= i < s.len() ==> entry_wf(#[trigger] s[i]),
    ensures
        spec_dec_entries(spec_enc_entries(s), s.len() as nat) == Some(s),
    decreases s.len(),
{
    lemma_auto_spec_u64_to_from_le_bytes();
    if s.len() == 0 {
        assert(spec_enc_entries(s).len() == 0);
        assert(spec_dec_entries(spec_enc_entries(s), 0) == Some(Seq::<IndexEntryV>::empty()));
        assert(s =~= Seq::<IndexEntryV>::empty());
    } else {
        let e = s[0];
        let rest = s.drop_first();
        assert(entry_wf(e));
        lemma_dec_enc_entries(rest);
        let b = spec_enc_entries(s);
        let head = spec_enc_entry(e);
        let tail = spec_enc_entries(rest);
        assert(b == head + tail);
        let plen = e.path.len() as int;
        let mlen = e.meta.mime_type.len() as int;
        assert(head.len() == 40 + plen + mlen);
        assert(b.len() >= 40 + plen + mlen);
        assert(b.subrange(0, 8) =~= spec_u64_to_le_bytes(e.path.len() as u64));
        assert(spec_u64_from_le_bytes(b.subrange(0, 8)) as int == plen);
        assert(b.subrange(8, 8 + plen) =~= e.path);
        assert(b.subrange(8 + plen, 16 + plen) =~= spec_u64_to_le_bytes(e.meta.size));
        assert(b.subrange(16 + plen, 24 + plen) =~= spec_u64_to_le_bytes(e.meta.data_offset));
        assert(b.subrange(24 + plen, 32 + plen) =~= spec_u64_to_le_bytes(e.meta.data_length));
        assert(b.subrange(32 + plen, 40 + plen) =~= spec_u64_to_le_bytes(
            e.meta.mime_type.len() as u64,
        ));
        assert(b.subrange(40 + plen, 40 + plen + mlen) =~= e.meta.mime_type);
        assert(b.skip(40 + plen + mlen) =~= tail);
        assert(spec_dec_entries(tail, rest.len() as nat) == Some(rest));
        assert(seq![e] + rest =~= s);
    }
}

/// Round trip: parsing a serialized index gives the index back.
pub proof fn lemma_deserialize_serialize(s: Seq<IndexEntryV>)
    requires
        index_wf(s),
    ensures
        spec_deserialize_index(spec_serialize_index(s)) == Some(s),
{
    lemma_auto_spec_u64_to_from_le_bytes();
    let b = spec_serialize_index(s);
    assert(b.subrange(0, 8) =~= spec_u64_to_le_bytes(s.len() as u64));
    assert(b.skip(8) =~= spec_enc_entries(s));
    lemma_dec_enc_entries(s);
}

impl MetadataMap {
    /// Serializes the index to its binary form.
    pub fn serialize(&self) -> (r: Vec<u8>)
        ensures
            r@ == spec_serialize_index(self@),
    {
        let n = self.entries.len();
        let mut out: Vec<u8> = u64_to_le_bytes(n as u64);
        proof {
            assert(spec_enc_entries(self@.take(0)) =~= Seq::<u8>::empty());
            assert(out@ =~= spec_u64_to_le_bytes(self@.len() as u64) + spec_enc_entries(
                self@.take(0),
            ));
        }
        let mut i: usize = 0;
        while i < n
            invariant
                n == self@.len(),
                i <= n,
                out@ == spec_u64_to_le_bytes(self@.len() as u64) + spec_enc_entries(
                    self@.take(i as int),
                ),
            decreases n - i,
        {
            let ghost before = out@;
            let e = &self.entries[i];
            let plen = u64_to_le_bytes(e.path.len() as u64);
            append_subrange(&mut out, plen.as_slice(), 0, plen.len());
            append_subrange(&mut out, e.path.as_slice(), 0, e.path.len());
            let szb = u64_to_le_bytes(e.meta.size);
            append_subrange(&mut out, szb.as_slice(), 0, szb.len());
            let offb = u64_to_le_bytes(e.meta.data_offset);
            append_subrange(&mut out, offb.as_slice(), 0, offb.len());
            let dlb = u64_to_le_bytes(e.meta.data_length);
            append_subrange(&mut out, dlb.as_slice(), 0, dlb.len());
            let mlb = u64_to_le_bytes(e.meta.mime_type.len() as u64);
            append_subrange(&mut out, mlb.as_slice(), 0, mlb.len());
            append_subrange(&mut out, e.meta.mime_type.as_slice(), 0, e.meta.mime_type.len());
            proof {
                let ev = self@[i as int];
                assert(plen@.subrange(0, 8) =~= plen@);
                assert(e.path@.subrange(0, e.path@.len() as int) =~= e.path@);
                assert(szb@.subrange(0, 8) =~= szb@);
                assert(offb@.subrange(0, 8) =~= offb@);
                assert(dlb@.subrange(0, 8) =~= dlb@);
                assert(mlb@.subrange(0, 8) =~= mlb@);
                assert(e.meta.mime_type@.subrange(0, e.meta.mime_type@.len() as int) =~= e
                    .meta
                    .mime_type@);
                assert(out@ =~= before + spec_enc_entry(ev));
                lemma_enc_entries_snoc(self@.take(i as int), ev);
                assert(self@.take(i + 1) =~= self@.take(i as int).push(ev));
                assert(out@ =~= spec_u64_to_le_bytes(self@.len() as u64) + spec_enc_entries(
                    self@.take(i + 1),
                ));
            }
            i = i + 1;
        }
        proof {
            assert(self@.take(n as int) =~= self@);
        }
        out
    }

    /// Parses an index from its binary form. Fails on any malformed or
    /// oversized field and on trailing bytes.
    pub fn deserialize(bytes: &[u8]) -> (r: Result<MetadataMap, BlobError>)
        ensures
            match r {
                Ok(m) => spec_deserialize_index(bytes@) == Some(m@),
                Err(e) => spec_deserialize_index(bytes@) is None && e
                    == BlobError::Corruption,
            },
    {
        let blen = bytes.len();
        if blen < 8 {
            return Err(BlobError::Corruption);
        }
        let count = u64_from_le_bytes(slice_subrange(bytes, 0, 8));
        proof {
            assert(bytes@.subrange(0, 8) =~= bytes@.subrange(0int, 8int));
        }
        let mut entries: Vec<IndexEntry> = Vec::new();
        let mut pos: usize = 8;
        let mut i: u64 = 0;
        proof {
            assert(bytes@.skip(8) =~= bytes@.skip(pos as int));
            assert(views_of(entries@) =~= Seq::<IndexEntryV>::empty());
            assert(Seq::<IndexEntryV>::empty() + match spec_dec_entries(
                bytes@.skip(pos as int),
                (count - i) as nat,
            ) {
                Some(t) => t,
                None => Seq::<IndexEntryV>::empty(),
            } =~= match spec_dec_entries(bytes@.skip(pos as int), (count - i) as nat) {
                Some(t) => t,
                None => Seq::<IndexEntryV>::empty(),
            });
        }
        while i < count
            invariant
                8 <= pos <= blen,
                blen == bytes@.len(),
                count == spec_u64_from_le_bytes(bytes@.subrange(0, 8)),
                i <= count,
                spec_dec_entries(bytes@.skip(8), count as nat) == (match spec_dec_entries(
                    bytes@.skip(pos as int),
                    (count - i) as nat,
                ) {
                    Some(t) => Some(views_of(entries@) + t),
                    None => None::<Seq<IndexEntryV>>,
                }),
            decreases count - i,
        {
            let ghost sfx = bytes@.skip(pos as int);
            let rem = blen - pos;
            if rem < 8 {
                return Err(BlobError::Corruption);
            }
            let plen64 = u64_from_le_bytes(slice_subrange(bytes, pos, pos + 8));
            proof {
                assert(sfx.subrange(0, 8) =~= bytes@.subrange(pos as int, pos + 8));
            }
            if plen64 > (rem as u64) || 40u64 > (rem as u64) - plen64 {
                proof {
                    assert(40 + plen64 > sfx.len());
                }
                return Err(BlobError::Corruption);
            }
            let plen = plen64 as usize;
            let path = crate::bytes_util::subrange_to_vec(bytes, pos + 8, pos + 8 + plen);
            let size = u64_from_le_bytes(slice_subrange(bytes, pos + 8 + plen, pos + 16 + plen));
            let off = u64_from_le_bytes(slice_subrange(bytes, pos + 16 + plen, pos + 24 + plen));
            let dlen = u64_from_le_bytes(slice_subrange(bytes, pos + 24 + plen, pos + 32 + plen));
            let mlen64 = u64_from_le_bytes(slice_subrange(bytes, pos + 32 + plen, pos + 40 + plen));
            proof {
                assert(sfx.subrange(8, 8 + plen) =~= bytes@.subrange(pos + 8, pos + 8 + plen));
                assert(sfx.subrange(8 + plen, 16 + plen) =~= bytes@.subrange(
                    pos + 8 + plen,
                    pos + 16 + plen,
                ));
                assert(sfx.subrange(16 + plen, 24 + plen) =~= bytes@.subrange(
                    pos + 16 + plen,
                    pos + 24 + plen,
                ));
                assert(sfx.subrange(24 + plen, 32 + plen) =~= bytes@.subrange(
                    pos + 24 + plen,
                    pos + 32 + plen,
                ));
                assert(sfx.subrange(32 + plen, 40 + plen) =~= bytes@.subrange(
                    pos + 32 + plen,
                    pos + 40 + plen,
                ));
            }
            if mlen64 > ((rem - 40) as u64) - plen64 {
                proof {
                    assert(40 + plen + mlen64 > sfx.len());
                }
                return Err(BlobError::Corruption);
            }
            let mlen = mlen64 as usize;
            let mime = crate::bytes_util::subrange_to_vec(
                bytes,
                pos + 40 + plen,
                pos + 40 + plen + mlen,
            );
            proof {
                assert(sfx.subrange(40 + plen, 40 + plen + mlen) =~= bytes@.subrange(
                    pos + 40 + plen,
                    pos + 40 + plen + mlen,
                ));
            }
            let entry = IndexEntry {
                path,
                meta: FileMetadata {
                    size,
                    data_offset: off,
                    data_length: dlen,
                    mime_type: mime,
                },
            };
            let ghost ev = entry@;
            let new_pos = pos + 40 + plen + mlen;
            proof {
                assert(sfx.skip(40 + plen + mlen) =~= bytes@.skip(new_pos as int));
                assert(spec_dec_entries(sfx, (count - i) as nat) == (match spec_dec_entries(
                    bytes@.skip(new_pos as int),
                    (count - i - 1) as nat,
                ) {
                    Some(t) => Some(seq![ev] + t),
                    None => None::<Seq<IndexEntryV>>,
                }));
            }
            entries.push(entry);
            proof {
                assert(views_of(entries@) =~= views_of(entries@.drop_last()).push(ev));
                match spec_dec_entries(bytes@.skip(new_pos as int), (count - i - 1) as nat) {
                    Some(t) => {
                        assert(views_of(entries@.drop_last()) + (seq![ev] + t) =~= views_of(
                            entries@,
                        ) + t);
                    },
                    None => {},
                }
            }
            pos = new_pos;
            i = i + 1;
        }
        if pos != blen {
            proof {
                assert(bytes@.skip(pos as int).len() > 0);
                assert(spec_dec_entries(bytes@.skip(pos as int), (count - i) as nat) is None);
            }
            return Err(BlobError::Corruption);
        }
        proof {
            assert(bytes@.skip(pos as int).len() == 0);
            assert(views_of(entries@) + Seq::<IndexEntryV>::empty() =~= views_of(entries@));
        }
        let m = MetadataMap { entries };
        proof {
            assert(m@ =~= views_of(m.entries@));
        }
        Ok(m)
    }
}

impl MetadataMap {
    /// Every real index is well formed: its lengths are bounded by the
    /// machine and so fit the 64-bit length fields.
    pub proof fn lemma_wf(&self)
        ensures
            index_wf(self@),
    {
        broadcast use vstd::std_specs::vec::axiom_spec_len;

        assert(vstd::std_specs::vec::spec_vec_len(&self.entries) == self.entries@.len());
        assert forall|i: int| 0 <= i < self@.len() implies entry_wf(#[trigger] self@[i]) by {
            let e = &self.entries@[i];
            assert(vstd::std_specs::vec::spec_vec_len(&e.path) == e.path@.len());
            assert(vstd::std_specs::vec::spec_vec_len(&e.meta.mime_type) == e
                .meta
                .mime_type@
                .len());
        }
    }
}

/// Encoding a list with one more entry at the end appends that entry's
/// encoding.
pub proof fn lemma_enc_entries_snoc(s: Seq<IndexEntryV>, e: IndexEntryV)
    ensures
        spec_enc_entries(s.push(e)) == spec_enc_entries(s) + spec_enc_entry(e),
    decreases s.len(),
{
    if s.len() == 0 {
        assert(s.push(e)[0] == e);
        assert(s.push(e).drop_first() =~= Seq::<IndexEntryV>::empty());
        assert(spec_enc_entries(s.push(e).drop_first()) =~= Seq::<u8>::empty());
        assert(spec_enc_entries(s.push(e)) == spec_enc_entry(e) + spec_enc_entries(
            s.push(e).drop_first(),
        ));
        assert(spec_enc_entries(s) =~= Seq::<u8>::empty());
        assert(spec_enc_entry(e) + Seq::<u8>::empty() =~= spec_enc_entry(e));
        assert(Seq::<u8>::empty() + spec_enc_entry(e) =~= spec_enc_entry(e));
    } else {
        lemma_enc_entries_snoc(s.drop_first(), e);
        assert(s.push(e)[0] == s[0]);
        assert(s.push(e).len() > 0);
        assert(s.push(e).drop_first() =~= s.drop_first().push(e));
        assert(spec_enc_entries(s.push(e)) == spec_enc_entry(s[0]) + spec_enc_entries(
            s.drop_first().push(e),
        ));
        assert(spec_enc_entries(s) == spec_enc_entry(s[0]) + spec_enc_entries(s.drop_first()));
        assert(spec_enc_entry(s[0]) + (spec_enc_entries(s.drop_first()) + spec_enc_entry(e))
            =~= (spec_enc_entry(s[0]) + spec_enc_entries(s.drop_first())) + spec_enc_entry(e));
    }
}

} // verus!
