//! The archive: the durable record of the last observed state of all
//! replicas.
//!
//! An [`Archive`] maps each scanned directory to one archive file, named by
//! the decimal string of the directory path's hash. An [`ArchiveEntries`]
//! value is the in-memory entry table of one such file: hashed relative path
//! to an N-wide row of per-replica states, with a dirty flag set on any
//! insertion and pruning of fully-empty rows before persistence.
//!
//! Reading and writing work on whole file images as byte vectors; opening,
//! locking and removing the files themselves is the caller's I/O.

use crate::codec::{
    decode_payload, encode_archive_bytes, entries_view, lemma_archive_round_trip,
    spec_decode_payload, spec_encode_archive,
    spec_version_of, ARCHIVE_VERSION,
};
use crate::state::{row_all_empty, spec_row_all_empty, ArchiveEntryPerReplica};
use crate::util::{fnv1a_bytes, hash_value, spec_decimal, u64_to_decimal};
use vstd::prelude::*;
use vstd::string::*;

verus! {

/// The 64-bit digest of a path, used to name archive files and to key
/// entries inside one.
pub type HashedPath = u64;

/// Errors explaining why an archive file image couldn't be read.
#[derive(Debug, PartialEq, Eq, Structural, Clone, Copy)]
pub enum ReadError {
    /// The leading version tag differs from the current format version. The
    /// reader recovers from this by treating the file as empty; it is never
    /// surfaced by [`read_archive`].
    InvalidArchiveVersion(u32),
    /// The image is too short to carry a version tag, or its payload does
    /// not decode as an entry table.
    Corrupt,
}

/// Whether all keys in an entry sequence are distinct.
pub open spec fn spec_keys_unique(rows: Seq<(u64, Seq<ArchiveEntryPerReplica>)>) -> bool {
    forall|i: int, j: int|
        0 <= i < j < rows.len() ==> (#[trigger] rows[i]).0 != (#[trigger] rows[j]).0
}

/// The entry sequence with every fully-empty row removed, order preserved.
pub open spec fn spec_prune(rows: Seq<(u64, Seq<ArchiveEntryPerReplica>)>) -> Seq<
    (u64, Seq<ArchiveEntryPerReplica>),
>
    decreases rows.len(),
{
    if rows.len() == 0 {
        Seq::empty()
    } else if spec_row_all_empty(rows[0].1) {
        spec_prune(rows.skip(1))
    } else {
        seq![rows[0]] + spec_prune(rows.skip(1))
    }
}

/// Pruning a concatenation prunes each part in turn.
pub proof fn lemma_prune_concat(
    a: Seq<(u64, Seq<ArchiveEntryPerReplica>)>,
    b: Seq<(u64, Seq<ArchiveEntryPerReplica>)>,
)
    ensures
        spec_prune(a + b) == spec_prune(a) + spec_prune(b),
    decreases a.len(),
{
    if a.len() == 0 {
        assert(a + b =~= b);
        assert(spec_prune(a) + spec_prune(b) =~= spec_prune(b));
    } else {
        assert((a + b)[0] == a[0]);
        assert((a + b).skip(1) =~= a.skip(1) + b);
        lemma_prune_concat(a.skip(1), b);
        if spec_row_all_empty(a[0].1) {
        } else {
            assert(seq![a[0]] + (spec_prune(a.skip(1)) + spec_prune(b)) =~= (seq![a[0]]
                + spec_prune(a.skip(1))) + spec_prune(b));
        }
    }
}

/// Pruning a one-entry sequence keeps or drops that entry.
pub proof fn lemma_prune_singleton(e: (u64, Seq<ArchiveEntryPerReplica>))
    ensures
        spec_prune(seq![e]) == if spec_row_all_empty(e.1) {
            Seq::<(u64, Seq<ArchiveEntryPerReplica>)>::empty()
        } else {
            seq![e]
        },
{
    reveal_with_fuel(spec_prune, 2);
    assert(seq![e].skip(1) =~= Seq::<(u64, Seq<ArchiveEntryPerReplica>)>::empty());
    assert(seq![e][0] == e);
    if !spec_row_all_empty(e.1) {
        assert(seq![e] + Seq::<(u64, Seq<ArchiveEntryPerReplica>)>::empty() =~= seq![e]);
    }
}

/// An entry is kept by pruning exactly when it occurs in the table and has
/// some non-empty slot.
pub proof fn lemma_prune_membership(
    rows: Seq<(u64, Seq<ArchiveEntryPerReplica>)>,
    x: (u64, Seq<ArchiveEntryPerReplica>),
)
    ensures
        spec_prune(rows).contains(x) <==> (rows.contains(x) && !spec_row_all_empty(x.1)),
    decreases rows.len(),
{
    if rows.len() == 0 {
    } else {
        let head = rows[0];
        let tail = rows.skip(1);
        lemma_prune_membership(tail, x);
        assert(rows.contains(x) <==> (x == head || tail.contains(x))) by {
            assert(rows[0] == head);
            if rows.contains(x) {
                let i = choose|i: int| 0 <= i < rows.len() && rows[i] == x;
                if i > 0 {
                    assert(tail[i - 1] == x);
                }
            }
            if tail.contains(x) {
                let i = choose|i: int| 0 <= i < tail.len() && tail[i] == x;
                assert(rows[i + 1] == x);
            }
        }
        if spec_row_all_empty(head.1) {
        } else {
            let p = spec_prune(tail);
            assert(spec_prune(rows) == seq![head] + p);
            assert((seq![head] + p).contains(x) <==> (x == head || p.contains(x))) by {
                assert((seq![head] + p)[0] == head);
                if (seq![head] + p).contains(x) {
                    let i = choose|i: int|
                        0 <= i < (seq![head] + p).len() && (seq![head] + p)[i] == x;
                    if i > 0 {
                        assert(p[i - 1] == x);
                    }
                }
                if p.contains(x) {
                    let i = choose|i: int| 0 <= i < p.len() && p[i] == x;
                    assert((seq![head] + p)[i + 1] == x);
                }
            }
        }
    }
}

/// Pruning removes nothing from a table with no fully-empty rows.
pub proof fn lemma_prune_all_kept(rows: Seq<(u64, Seq<ArchiveEntryPerReplica>)>)
    requires
        forall|i: int| 0 <= i < rows.len() ==> !spec_row_all_empty((#[trigger] rows[i]).1),
    ensures
        spec_prune(rows) == rows,
    decreases rows.len(),
{
    if rows.len() == 0 {
        assert(spec_prune(rows) =~= rows);
    } else {
        assert(forall|i: int|
            0 <= i < rows.skip(1).len() ==> !spec_row_all_empty(
                (#[trigger] rows.skip(1)[i]).1,
            )) by {
            assert(forall|i: int|
                0 <= i < rows.skip(1).len() ==> rows.skip(1)[i] == rows[i + 1]);
        }
        lemma_prune_all_kept(rows.skip(1));
        assert(seq![rows[0]] + rows.skip(1) =~= rows);
    }
}

/// Pruning twice yields the same table as pruning once.
pub proof fn lemma_prune_idempotent(rows: Seq<(u64, Seq<ArchiveEntryPerReplica>)>)
    ensures
        spec_prune(spec_prune(rows)) == spec_prune(rows),
    decreases rows.len(),
{
    if rows.len() == 0 {
        assert(spec_prune(spec_prune(rows)) =~= spec_prune(rows));
    } else {
        lemma_prune_idempotent(rows.skip(1));
        if spec_row_all_empty(rows[0].1) {
        } else {
            lemma_prune_concat(seq![rows[0]], spec_prune(rows.skip(1)));
            lemma_prune_singleton(rows[0]);
        }
    }
}

/// Pruning preserves distinctness of keys.
pub proof fn lemma_prune_keys_unique(rows: Seq<(u64, Seq<ArchiveEntryPerReplica>)>)
    requires
        spec_keys_unique(rows),
    ensures
        spec_keys_unique(spec_prune(rows)),
    decreases rows.len(),
{
    if rows.len() == 0 {
    } else {
        let head = rows[0];
        let tail = rows.skip(1);
        assert(spec_keys_unique(tail)) by {
            assert(forall|i: int| 0 <= i < tail.len() ==> tail[i] == rows[i + 1]);
        }
        lemma_prune_keys_unique(tail);
        if spec_row_all_empty(head.1) {
        } else {
            let p = spec_prune(tail);
            assert(forall|q: int| 0 <= q < p.len() ==> (#[trigger] p[q]).0 != head.0) by {
                assert forall|q: int| 0 <= q < p.len() implies (#[trigger] p[q]).0 != head.0 by {
                    assert(p.contains(p[q]));
                    lemma_prune_membership(tail, p[q]);
                    let j = choose|j: int| 0 <= j < tail.len() && tail[j] == p[q];
                    assert(rows[j + 1] == p[q]);
                }
            }
            assert forall|i: int, j: int|
                0 <= i < j < spec_prune(rows).len() implies (#[trigger] spec_prune(rows)[i]).0 != (
            #[trigger] spec_prune(rows)[j]).0 by {
                assert(spec_prune(rows) == seq![head] + p);
                if i > 0 {
                    assert(spec_prune(rows)[i] == p[i - 1]);
                }
                assert(spec_prune(rows)[j] == p[j - 1]);
            }
        }
    }
}

/// Every entry kept by pruning occurs in the original table.
pub proof fn lemma_prune_sound(rows: Seq<(u64, Seq<ArchiveEntryPerReplica>)>)
    ensures
        forall|p: int|
            0 <= p < spec_prune(rows).len() ==> rows.contains(#[trigger] spec_prune(rows)[p]),
{
    assert forall|p: int|
        0 <= p < spec_prune(rows).len() implies rows.contains(#[trigger] spec_prune(rows)[p]) by {
        assert(spec_prune(rows).contains(spec_prune(rows)[p]));
        lemma_prune_membership(rows, spec_prune(rows)[p]);
    }
}

/// The `Archive` stores the state of the replicas after the last syncing
/// operation under one root directory, one file per scanned directory. It is
/// used to detect differences to replicas more quickly, and must be kept up
/// to date after propagating changes. Creating the root directory on disk is
/// the caller's I/O.
#[derive(Debug)]
pub struct Archive {
    /// The root directory holding all archive files.
    pub directory: String,
}

/// The on-disk location of one directory's archive file: the archive root,
/// a separator, then the decimal string of the hashed directory path.
pub open spec fn spec_archive_file_path(dir: Seq<char>, hash: u64) -> Seq<char> {
    dir + seq!['/'] + spec_decimal(hash)
}

impl Archive {
    /// Records the directory that will hold archive data. The caller must
    /// create it on disk before any archive file under it is written.
    pub fn new(directory: String) -> (a: Archive)
        ensures
            a.directory@ == directory@,
    {
        Archive { directory }
    }

    /// Constructs an `ArchiveFile` representing the entire `directory` in
    /// the replicas.
    pub fn for_directory(&self, directory: &str) -> (f: ArchiveFile)
        ensures
            f.path@ == spec_archive_file_path(
                self.directory@,
                fnv1a_bytes(directory.spec_bytes()),
            ),
    {
        self.for_hashed_directory(Self::hash(directory))
    }

    /// Constructs an `ArchiveFile` from a hashed directory, representing an
    /// entire directory in the replicas.
    pub fn for_hashed_directory(&self, directory: HashedPath) -> (f: ArchiveFile)
        ensures
            f.path@ == spec_archive_file_path(self.directory@, directory),
    {
        let mut path = self.directory.clone();
        path.append("/");
        let digits = u64_to_decimal(directory);
        path.append(digits.as_str());
        proof {
            reveal_strlit("/");
            assert("/"@ =~= seq!['/']);
            assert((self.directory@ + "/"@) + spec_decimal(directory) =~= spec_archive_file_path(
                self.directory@,
                directory,
            ));
        }
        ArchiveFile::new(path)
    }

    /// The stable digest of a path, used both to name archive files and to
    /// key entries within one.
    pub fn hash(path: &str) -> (h: HashedPath)
        ensures
            h == fnv1a_bytes(path.spec_bytes()),
    {
        hash_value(path)
    }
}

/// Names a single archive file. Remember each file in the archive represents
/// an entire directory (not recursive) in the replicas. Opening, locking and
/// removing the file at this path is the caller's I/O; the entry table it
/// carries is read and written through [`read_archive`] and [`plan_write`]
/// as a whole byte image.
#[derive(Debug)]
pub struct ArchiveFile {
    /// Where the file lives under the archive root.
    pub path: String,
}

impl ArchiveFile {
    /// Creates a new wrapper around the given archive file path.
    fn new(path: String) -> (f: ArchiveFile)
        ensures
            f.path@ == path@,
    {
        ArchiveFile { path }
    }
}

/// Stores all the archive entries for a specific directory: hashed relative
/// path to an N-wide row of per-replica states.
#[derive(Debug)]
pub struct ArchiveEntries {
    entries: Vec<(HashedPath, Vec<ArchiveEntryPerReplica>)>,
    dirty: bool,
    num_roots: usize,
}

impl ArchiveEntries {
    /// The entry sequence: (hashed path, row) pairs in storage order.
    pub closed spec fn rows(self) -> Seq<(u64, Seq<ArchiveEntryPerReplica>)> {
        entries_view(self.entries@)
    }

    /// The replica count every row of this table is sized to.
    pub closed spec fn spec_num_roots(self) -> usize {
        self.num_roots
    }

    /// Whether an insertion has happened since construction.
    pub closed spec fn spec_dirty(self) -> bool {
        self.dirty
    }

    /// Well-formedness: keys are distinct and every row has exactly one slot
    /// per configured replica.
    pub open spec fn wf(self) -> bool {
        &&& spec_keys_unique(self.rows())
        &&& forall|i: int|
            0 <= i < self.rows().len() ==> (#[trigger] self.rows()[i]).1.len()
                == self.spec_num_roots()
    }

    /// A table with zero rows for `num_roots` replicas, not dirty.
    pub fn empty(num_roots: usize) -> (r: Self)
        ensures
            r.wf(),
            r.rows() == Seq::<(u64, Seq<ArchiveEntryPerReplica>)>::empty(),
            r.spec_num_roots() == num_roots,
            !r.spec_dirty(),
    {
        let r = ArchiveEntries { entries: Vec::new(), dirty: false, num_roots };
        proof {
            assert(r.rows() =~= Seq::<(u64, Seq<ArchiveEntryPerReplica>)>::empty());
        }
        r
    }

    /// The number of rows currently held.
    pub fn len(&self) -> (r: usize)
        ensures
            r == self.rows().len(),
    {
        self.entries.len()
    }

    /// Whether the table holds no rows at all.
    pub fn is_empty(&self) -> (r: bool)
        ensures
            r == (self.rows().len() == 0),
    {
        self.entries.len() == 0
    }

    /// The entries as a list of (hashed path, row) pairs, for iteration.
    /// Order is storage order; callers must not rely on it.
    pub fn iter(&self) -> (r: &Vec<(HashedPath, Vec<ArchiveEntryPerReplica>)>)
        ensures
            entries_view(r@) == self.rows(),
    {
        &self.entries
    }

    /// Looks up the row recorded for `path`, by its hash.
    pub fn get(&self, path: &str) -> (r: Option<&Vec<ArchiveEntryPerReplica>>)
        ensures
            match r {
                Some(row) => exists|i: int|
                    0 <= i < self.rows().len() && #[trigger] self.rows()[i] == (
                    fnv1a_bytes(path.spec_bytes()),
                    row@,
                    ),
                None => forall|i: int|
                    0 <= i < self.rows().len() ==> (#[trigger] self.rows()[i]).0 != fnv1a_bytes(
                        path.spec_bytes(),
                    ),
            },
    {
        let key = hash_value(path);
        let mut i: usize = 0;
        while i < self.entries.len()
            invariant
                i <= self.entries@.len(),
                key == fnv1a_bytes(path.spec_bytes()),
                forall|j: int| 0 <= j < i ==> (#[trigger] self.rows()[j]).0 != key,
            decreases self.entries@.len() - i,
        {
            if self.entries[i].0 == key {
                proof {
                    assert(self.rows()[i as int] == (key, self.entries@[i as int].1@));
                }
                return Some(&self.entries[i].1);
            }
            i = i + 1;
        }
        None
    }

    /// Finds the position holding `key`, if any.
    fn find_key(&self, key: u64) -> (r: Option<usize>)
        ensures
            match r {
                Some(i) => i < self.rows().len() && self.rows()[i as int].0 == key,
                None => forall|j: int| 0 <= j < self.rows().len() ==> (#[trigger] self.rows()[j]).0
                    != key,
            },
    {
        let mut i: usize = 0;
        while i < self.entries.len()
            invariant
                i <= self.entries@.len(),
                forall|j: int| 0 <= j < i ==> (#[trigger] self.rows()[j]).0 != key,
            decreases self.entries@.len() - i,
        {
            if self.entries[i].0 == key {
                return Some(i);
            }
            i = i + 1;
        }
        None
    }

    /// Stores `row` under the hash of `path`, overwriting any prior row for
    /// the same hashed path, and marks the table dirty.
    pub fn insert(&mut self, path: &str, row: Vec<ArchiveEntryPerReplica>)
        requires
            old(self).wf(),
            row@.len() == old(self).spec_num_roots(),
        ensures
            final(self).wf(),
            final(self).spec_num_roots() == old(self).spec_num_roots(),
            final(self).spec_dirty(),
            (exists|i: int|
                0 <= i < old(self).rows().len() && (#[trigger] old(self).rows()[i]).0
                    == fnv1a_bytes(path.spec_bytes())) ==> exists|i: int|
                0 <= i < old(self).rows().len() && (#[trigger] old(self).rows()[i]).0
                    == fnv1a_bytes(path.spec_bytes()) && final(self).rows() == old(
                    self,
                ).rows().update(i, (fnv1a_bytes(path.spec_bytes()), row@)),
            (forall|i: int|
                0 <= i < old(self).rows().len() ==> (#[trigger] old(self).rows()[i]).0
                    != fnv1a_bytes(path.spec_bytes())) ==> final(self).rows() == old(
                self,
            ).rows().push((fnv1a_bytes(path.spec_bytes()), row@)),
    {
        let key = hash_value(path);
        let ghost row_view = row@;
        let found = self.find_key(key);
        match found {
            Some(idx) => {
                proof {
                    assert(old(self).rows()[idx as int].0 == key);
                }
                self.entries[idx] = (key, row);
                self.dirty = true;
                proof {
                    assert(self.rows() =~= old(self).rows().update(idx as int, (key, row_view)));
                }
            },
            None => {
                self.entries.push((key, row));
                self.dirty = true;
                proof {
                    assert(self.rows() =~= old(self).rows().push((key, row_view)));
                }
            },
        }
    }

    /// Whether any insertion has happened since construction; never reset by
    /// this type — the caller decides when to persist.
    pub fn is_dirty(&self) -> (r: bool)
        ensures
            r == self.spec_dirty(),
    {
        self.dirty
    }

    /// Removes every row whose slots are all the empty state. Without this,
    /// archive sizes would grow without bound as files are created, synced
    /// and deleted.
    pub fn prune_deleted(&mut self)
        requires
            old(self).wf(),
        ensures
            final(self).wf(),
            final(self).rows() == spec_prune(old(self).rows()),
            final(self).spec_num_roots() == old(self).spec_num_roots(),
            final(self).spec_dirty() == old(self).spec_dirty(),
    {
        let ghost rows_old = self.rows();
        let mut kept: Vec<(HashedPath, Vec<ArchiveEntryPerReplica>)> = Vec::new();
        let mut i: usize = 0;
        proof {
            assert(rows_old.take(0) =~= Seq::<(u64, Seq<ArchiveEntryPerReplica>)>::empty());
            assert(entries_view(kept@) =~= spec_prune(rows_old.take(0)));
        }
        while i < self.entries.len()
            invariant
                i <= self.entries@.len(),
                *self == *old(self),
                rows_old == self.rows(),
                entries_view(kept@) == spec_prune(rows_old.take(i as int)),
            decreases self.entries@.len() - i,
        {
            let entry = &self.entries[i];
            if !row_all_empty(&entry.1) {
                let row_copy = clone_row(&entry.1);
                kept.push((entry.0, row_copy));
            }
            proof {
                lemma_prune_concat(rows_old.take(i as int), seq![rows_old[i as int]]);
                lemma_prune_singleton(rows_old[i as int]);
                assert(rows_old.take(i as int) + seq![rows_old[i as int]] =~= rows_old.take(
                    i + 1,
                ));
                assert(entries_view(kept@) =~= spec_prune(rows_old.take(i + 1)));
            }
            i = i + 1;
        }
        proof {
            assert(rows_old.take(rows_old.len() as int) =~= rows_old);
        }
        self.entries = kept;
        proof {
            lemma_prune_keys_unique(rows_old);
            lemma_prune_sound(rows_old);
            assert forall|p: int|
                0 <= p < self.rows().len() implies (#[trigger] self.rows()[p]).1.len() == old(
                self,
            ).spec_num_roots() by {
                let x = self.rows()[p];
                assert(rows_old.contains(x));
                let j = choose|j: int| 0 <= j < rows_old.len() && rows_old[j] == x;
                assert(rows_old[j].1.len() == old(self).spec_num_roots());
            }
        }
    }
}

/// Copies a row of per-replica states.
fn clone_row(row: &Vec<ArchiveEntryPerReplica>) -> (r: Vec<ArchiveEntryPerReplica>)
    ensures
        r@ == row@,
{
    let mut r: Vec<ArchiveEntryPerReplica> = Vec::new();
    let mut i: usize = 0;
    while i < row.len()
        invariant
            i <= row@.len(),
            r@ == row@.take(i as int),
        decreases row@.len() - i,
    {
        r.push(row[i]);
        proof {
            assert(row@.take(i as int).push(row@[i as int]) =~= row@.take(i + 1));
        }
        i = i + 1;
    }
    proof {
        assert(row@.take(row@.len() as int) =~= row@);
    }
    r
}

/// Checks that all keys of a decoded entry list are distinct.
fn keys_unique(es: &Vec<(u64, Vec<ArchiveEntryPerReplica>)>) -> (r: bool)
    ensures
        r == spec_keys_unique(entries_view(es@)),
{
    let mut i: usize = 0;
    while i < es.len()
        invariant
            i <= es@.len(),
            forall|p: int, q: int|
                0 <= p < q < es@.len() && p < i ==> (#[trigger] entries_view(es@)[p]).0 != (
                #[trigger] entries_view(es@)[q]).0,
        decreases es@.len() - i,
    {
        let mut j: usize = i + 1;
        while j < es.len()
            invariant
                i < es@.len(),
                i + 1 <= j <= es@.len(),
                forall|q: int|
                    i < q < j ==> (#[trigger] entries_view(es@)[q]).0 != entries_view(
                        es@,
                    )[i as int].0,
            decreases es@.len() - j,
        {
            if es[j].0 == es[i].0 {
                proof {
                    assert((entries_view(es@)[i as int]).0 == (entries_view(es@)[j as int]).0);
                }
                return false;
            }
            j = j + 1;
        }
        i = i + 1;
    }
    true
}

/// Reads an entry table from a whole archive file image, strictly: an image
/// whose version tag is not the current version is reported as
/// [`ReadError::InvalidArchiveVersion`]; an image whose payload does not
/// decode as an entry table with `num_roots`-wide rows and distinct keys is
/// reported as [`ReadError::Corrupt`].
pub fn read_entries(bytes: &Vec<u8>, num_roots: usize) -> (r: Result<ArchiveEntries, ReadError>)
    ensures
        match r {
            Ok(t) => bytes@.len() >= 4 && spec_version_of(bytes@) == ARCHIVE_VERSION
                && spec_decode_payload(bytes@.skip(4), num_roots as nat) == Some(t.rows())
                && t.wf() && t.spec_num_roots() == num_roots && !t.spec_dirty(),
            Err(ReadError::InvalidArchiveVersion(v)) => bytes@.len() >= 4 && v == spec_version_of(
                bytes@,
            ) && v != ARCHIVE_VERSION,
            Err(ReadError::Corrupt) => bytes@.len() < 4 || (spec_version_of(bytes@)
                == ARCHIVE_VERSION && match spec_decode_payload(bytes@.skip(4), num_roots as nat) {
                None => true,
                Some(es) => !spec_keys_unique(es),
            }),
        },
{
    if bytes.len() < 4 {
        return Err(ReadError::Corrupt);
    }
    let version = vstd::bytes::u32_from_le_bytes(
        vstd::slice::slice_subrange(bytes.as_slice(), 0, 4),
    );
    proof {
        assert(bytes@.subrange(0, 4) =~= bytes@.take(4));
    }
    if version != ARCHIVE_VERSION {
        return Err(ReadError::InvalidArchiveVersion(version));
    }
    match decode_payload(bytes, 4, num_roots) {
        None => Err(ReadError::Corrupt),
        Some(es) => {
            if !keys_unique(&es) {
                return Err(ReadError::Corrupt);
            }
            let t = ArchiveEntries { entries: es, dirty: false, num_roots };
            Ok(t)
        },
    }
}

/// Reads an entry table from a whole archive file image, recovering from a
/// version mismatch: an image whose leading four bytes are not the current
/// version tag reads back as an empty table, with no error, and this read
/// does not touch the image. Payload failures are still hard errors.
pub fn read_archive(bytes: &Vec<u8>, num_roots: usize) -> (r: Result<ArchiveEntries, ReadError>)
    ensures
        match r {
            Ok(t) => t.wf() && t.spec_num_roots() == num_roots && !t.spec_dirty() && if bytes@.len()
                >= 4 && spec_version_of(bytes@) != ARCHIVE_VERSION {
                t.rows() == Seq::<(u64, Seq<ArchiveEntryPerReplica>)>::empty()
            } else {
                bytes@.len() >= 4 && spec_version_of(bytes@) == ARCHIVE_VERSION
                    && spec_decode_payload(bytes@.skip(4), num_roots as nat) == Some(t.rows())
            },
            Err(ReadError::Corrupt) => bytes@.len() < 4 || (spec_version_of(bytes@)
                == ARCHIVE_VERSION && match spec_decode_payload(bytes@.skip(4), num_roots as nat) {
                None => true,
                Some(es) => !spec_keys_unique(es),
            }),
            Err(ReadError::InvalidArchiveVersion(_)) => false,
        },
{
    match read_entries(bytes, num_roots) {
        Ok(t) => Ok(t),
        Err(ReadError::InvalidArchiveVersion(_)) => Ok(ArchiveEntries::empty(num_roots)),
        Err(ReadError::Corrupt) => Err(ReadError::Corrupt),
    }
}

/// Produces the byte image of an entry table, exactly as an archive file
/// holds it: version tag, count, entries in storage order.
pub fn write_entries(entries: &ArchiveEntries) -> (out: Vec<u8>)
    ensures
        out@ == spec_encode_archive(entries.rows()),
{
    encode_archive_bytes(&entries.entries)
}

/// Prepares a table for persistence: prunes fully-empty rows, then returns
/// `None` when nothing is left — the backing file must be deleted, not
/// written as an empty payload — and otherwise the byte image to write.
pub fn plan_write(entries: &mut ArchiveEntries) -> (r: Option<Vec<u8>>)
    requires
        old(entries).wf(),
    ensures
        final(entries).wf(),
        final(entries).rows() == spec_prune(old(entries).rows()),
        final(entries).spec_num_roots() == old(entries).spec_num_roots(),
        final(entries).spec_dirty() == old(entries).spec_dirty(),
        match r {
            None => final(entries).rows().len() == 0,
            Some(bytes) => final(entries).rows().len() > 0 && bytes@ == spec_encode_archive(
                final(entries).rows(),
            ),
        },
{
    entries.prune_deleted();
    if entries.is_empty() {
        None
    } else {
        Some(write_entries(entries))
    }
}

/// Writing a table with no fully-empty rows and reading the image back
/// yields exactly the table's entries: pruning leaves such a table
/// unchanged, the image carries the current version tag, and its payload
/// decodes to the same entry sequence.
pub proof fn lemma_write_read_round_trip(rows: Seq<(u64, Seq<ArchiveEntryPerReplica>)>, n: nat)
    requires
        spec_keys_unique(rows),
        forall|i: int| 0 <= i < rows.len() ==> (#[trigger] rows[i]).1.len() == n,
        forall|i: int| 0 <= i < rows.len() ==> !spec_row_all_empty((#[trigger] rows[i]).1),
        rows.len() <= u64::MAX,
    ensures
        spec_prune(rows) == rows,
        spec_encode_archive(rows).len() >= 4,
        spec_version_of(spec_encode_archive(rows)) == ARCHIVE_VERSION,
        spec_decode_payload(spec_encode_archive(rows).skip(4), n) == Some(rows),
{
    lemma_prune_all_kept(rows);
    lemma_archive_round_trip(rows, n);
}

} // verus!
