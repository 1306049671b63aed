use ubiquity::archive::{plan_write, read_archive, read_entries, write_entries, Archive,
                        ArchiveEntries, ReadError};
use ubiquity::state::ArchiveEntryPerReplica;
use ubiquity::util::hash_value;

fn file(modified: u64) -> ArchiveEntryPerReplica {
    ArchiveEntryPerReplica::File { modified }
}

fn empty() -> ArchiveEntryPerReplica {
    ArchiveEntryPerReplica::Empty
}

#[test]
fn hash_is_deterministic() {
    let h1 = hash_value("photos/2021");
    let h2 = hash_value("photos/2021");
    assert_eq!(h1, h2);
    assert_eq!(Archive::hash("photos/2021"), h1);
}

#[test]
fn hash_matches_fnv1a_vectors() {
    // Standard FNV-1a 64-bit test vectors.
    assert_eq!(hash_value(""), 0xcbf29ce484222325);
    assert_eq!(hash_value("a"), 0xaf63dc4c8601ec8c);
}

#[test]
fn distinct_paths_hash_differently() {
    assert_ne!(hash_value("a"), hash_value("b"));
    assert_ne!(hash_value("dir/a"), hash_value("dir/b"));
}

#[test]
fn archive_file_is_named_by_decimal_hash() {
    let archive = Archive::new(String::from("archives"));
    let f = archive.for_hashed_directory(0);
    assert_eq!(f.path, "archives/0");
    let f = archive.for_hashed_directory(1234567890123456789);
    assert_eq!(f.path, "archives/1234567890123456789");
    let h = Archive::hash("some/dir");
    let by_path = archive.for_directory("some/dir");
    let by_hash = archive.for_hashed_directory(h);
    assert_eq!(by_path.path, by_hash.path);
}

#[test]
fn empty_table_is_clean_and_empty() {
    let t = ArchiveEntries::empty(2);
    assert!(t.is_empty());
    assert_eq!(t.len(), 0);
    assert!(!t.is_dirty());
    assert!(t.get("anything").is_none());
}

#[test]
fn insert_sets_dirty_and_get_finds_the_row() {
    let mut t = ArchiveEntries::empty(2);
    t.insert("a.txt", vec![file(7), empty()]);
    assert!(t.is_dirty());
    assert_eq!(t.len(), 1);
    assert_eq!(t.get("a.txt").unwrap(), &vec![file(7), empty()]);
    assert!(t.get("b.txt").is_none());
}

#[test]
fn insert_overwrites_prior_row_for_same_path() {
    let mut t = ArchiveEntries::empty(2);
    t.insert("a.txt", vec![file(7), empty()]);
    t.insert("a.txt", vec![file(8), file(8)]);
    assert_eq!(t.len(), 1);
    assert_eq!(t.get("a.txt").unwrap(), &vec![file(8), file(8)]);
}

#[test]
fn prune_removes_exactly_the_all_empty_rows() {
    let mut t = ArchiveEntries::empty(2);
    t.insert("gone", vec![empty(), empty()]);
    t.insert("kept", vec![file(1), empty()]);
    t.insert("also_gone", vec![empty(), empty()]);
    t.prune_deleted();
    assert_eq!(t.len(), 1);
    assert!(t.get("gone").is_none());
    assert!(t.get("also_gone").is_none());
    assert_eq!(t.get("kept").unwrap(), &vec![file(1), empty()]);
}

#[test]
fn prune_twice_equals_prune_once() {
    let mut t = ArchiveEntries::empty(2);
    t.insert("gone", vec![empty(), empty()]);
    t.insert("kept", vec![empty(), file(3)]);
    t.prune_deleted();
    let after_once: Vec<(u64, Vec<ArchiveEntryPerReplica>)> = t.iter().clone();
    t.prune_deleted();
    assert_eq!(t.iter(), &after_once);
}

#[test]
fn prune_leaves_tables_without_empty_rows_unchanged() {
    let mut t = ArchiveEntries::empty(2);
    t.insert("a", vec![file(1), file(2)]);
    t.insert("b", vec![empty(), file(3)]);
    let before: Vec<(u64, Vec<ArchiveEntryPerReplica>)> = t.iter().clone();
    t.prune_deleted();
    assert_eq!(t.iter(), &before);
}

#[test]
fn write_then_read_round_trips() {
    let mut t = ArchiveEntries::empty(3);
    t.insert("a.txt", vec![file(10), empty(), file(11)]);
    t.insert("b/c.txt", vec![
        ArchiveEntryPerReplica::Directory { modified: 4 },
        ArchiveEntryPerReplica::Symlink { modified: 5 },
        empty(),
    ]);
    let bytes = plan_write(&mut t).expect("a non-empty table must produce an image");
    let back = read_archive(&bytes, 3).expect("the written image must read back");
    assert_eq!(back.len(), 2);
    assert_eq!(back.get("a.txt").unwrap(), t.get("a.txt").unwrap());
    assert_eq!(back.get("b/c.txt").unwrap(), t.get("b/c.txt").unwrap());
    assert!(!back.is_dirty());
}

#[test]
fn empty_image_bytes_are_version_tag_and_zero_count() {
    let t = ArchiveEntries::empty(2);
    let bytes = write_entries(&t);
    assert_eq!(bytes, vec![3, 0, 0, 0, 0, 0, 0, 0, 0, 0, 0, 0]);
}

#[test]
fn writing_a_table_that_prunes_to_nothing_asks_for_deletion() {
    let mut t = ArchiveEntries::empty(2);
    t.insert("was_here", vec![empty(), empty()]);
    assert!(plan_write(&mut t).is_none());
    assert!(t.is_empty());

    let mut untouched = ArchiveEntries::empty(2);
    assert!(plan_write(&mut untouched).is_none());

    let mut live = ArchiveEntries::empty(2);
    live.insert("still_here", vec![file(1), empty()]);
    assert!(plan_write(&mut live).is_some());
}

#[test]
fn version_mismatch_reads_as_empty_table() {
    // A file whose leading tag is version 2, not the current version.
    let bytes = vec![2, 0, 0, 0, 1, 0, 0, 0, 0, 0, 0, 0];
    let t = read_archive(&bytes, 2).expect("a foreign version must not be an error");
    assert!(t.is_empty());
    assert!(!t.is_dirty());
    // The strict reader names the version it saw.
    assert!(matches!(read_entries(&bytes, 2), Err(ReadError::InvalidArchiveVersion(2))));
}

#[test]
fn short_and_malformed_images_are_hard_errors() {
    // Too short to carry a version tag.
    assert!(matches!(read_archive(&vec![3, 0], 2), Err(ReadError::Corrupt)));
    // Right version, but the payload promises an entry it does not carry.
    let truncated = vec![3, 0, 0, 0, 1, 0, 0, 0, 0, 0, 0, 0];
    assert!(matches!(read_archive(&truncated, 2), Err(ReadError::Corrupt)));
    // Right version, empty payload, then trailing garbage.
    let trailing = vec![3, 0, 0, 0, 0, 0, 0, 0, 0, 0, 0, 0, 9];
    assert!(matches!(read_archive(&trailing, 2), Err(ReadError::Corrupt)));
}

#[test]
fn rows_keep_one_slot_per_replica() {
    let mut t = ArchiveEntries::empty(1);
    t.insert("solo", vec![file(42)]);
    let bytes = plan_write(&mut t).unwrap();
    let back = read_archive(&bytes, 1).unwrap();
    assert_eq!(back.get("solo").unwrap().len(), 1);
}
