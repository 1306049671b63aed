use ubiquity::config::Ignore;
use ubiquity::detect::{are_archive_files_identical, check_all_roots_exist, is_ignored,
                       scan_directory_contents, RootListing, SyncError};
use ubiquity::state::ArchiveEntryPerReplica;

fn file(modified: u64) -> ArchiveEntryPerReplica {
    ArchiveEntryPerReplica::File { modified }
}

fn empty() -> ArchiveEntryPerReplica {
    ArchiveEntryPerReplica::Empty
}

fn ignore(paths: Vec<&str>, regexes: Vec<&str>) -> Ignore {
    Ignore {
        paths: paths.into_iter().map(String::from).collect(),
        regexes: regexes.into_iter().map(String::from).collect(),
    }
}

fn listing(is_dir: bool, children: Vec<&str>) -> RootListing {
    RootListing { is_dir, child_names: children.into_iter().map(String::from).collect() }
}

#[test]
fn all_roots_present_is_ok() {
    let roots = vec![String::from("/a"), String::from("/b")];
    assert!(check_all_roots_exist(&roots, &vec![true, true]).is_ok());
}

#[test]
fn first_missing_root_is_named() {
    let roots = vec![String::from("/a"), String::from("/b"), String::from("/c")];
    match check_all_roots_exist(&roots, &vec![true, false, false]) {
        Err(SyncError::RootDoesntExist(p)) => assert_eq!(p, "/b"),
        Ok(()) => panic!("a missing root must be reported"),
    }
}

#[test]
fn identical_rows_compare_equal() {
    let a = vec![file(1), empty()];
    let b = vec![file(1), empty()];
    assert!(are_archive_files_identical(&a, &b));
    assert!(are_archive_files_identical(&a, &a));
}

#[test]
fn rows_differing_at_any_index_compare_unequal_symmetrically() {
    let a = vec![file(1), empty()];
    let b = vec![file(1), file(2)];
    assert!(!are_archive_files_identical(&a, &b));
    assert!(!are_archive_files_identical(&b, &a));
    assert_eq!(
        are_archive_files_identical(&a, &b),
        are_archive_files_identical(&b, &a)
    );
}

#[test]
fn prefix_rule_ignores_paths_under_it() {
    let rules = ignore(vec!["Microsoft User Data"], vec![]);
    assert!(is_ignored(&rules, "Microsoft User Data/x.tmp"));
    assert!(is_ignored(&rules, "Microsoft User Data"));
    assert!(!is_ignored(&rules, "Microsoft User Datax"));
    assert!(!is_ignored(&rules, "docs/readme.txt"));
}

#[test]
fn regex_rule_ignores_matching_paths() {
    let rules = ignore(vec![], vec![".DS_Store"]);
    assert!(is_ignored(&rules, "a/.DS_Store"));
    assert!(is_ignored(&rules, ".DS_Store"));
    assert!(!is_ignored(&rules, "docs/readme.txt"));
}

#[test]
fn regex_rules_are_real_regular_expressions() {
    // If the pattern were compared literally instead of compiled, neither
    // of these paths would be excluded.
    let rules = ignore(vec![], vec!["^build/", r"\.tmp$"]);
    assert!(is_ignored(&rules, "build/out.o"));
    assert!(is_ignored(&rules, "notes/draft.tmp"));
    assert!(!is_ignored(&rules, "src/build/out.o"));
    assert!(!is_ignored(&rules, "tmp/keep.txt"));
}

#[test]
fn invalid_regex_matches_nothing() {
    let rules = ignore(vec![], vec!["("]);
    assert!(!is_ignored(&rules, "("));
    assert!(!is_ignored(&rules, "anything"));
}

#[test]
fn scan_unions_children_across_roots() {
    let listings = vec![listing(true, vec!["f.txt"]), listing(true, vec!["g.txt"])];
    let r = scan_directory_contents("", &listings, &ignore(vec![], vec![]));
    assert_eq!(r.len(), 2);
    assert!(r.contains(&String::from("f.txt")));
    assert!(r.contains(&String::from("g.txt")));
}

#[test]
fn scan_lists_a_shared_child_once() {
    let listings = vec![listing(true, vec!["f.txt"]), listing(true, vec!["f.txt"])];
    let r = scan_directory_contents("", &listings, &ignore(vec![], vec![]));
    assert_eq!(r, vec![String::from("f.txt")]);
}

#[test]
fn scan_joins_children_to_the_scanned_directory() {
    let listings = vec![listing(true, vec!["x", "y"])];
    let r = scan_directory_contents("d", &listings, &ignore(vec![], vec![]));
    assert_eq!(r, vec![String::from("d/x"), String::from("d/y")]);
}

#[test]
fn scan_skips_ignored_children() {
    let listings = vec![listing(true, vec![".DS_Store", "kept.txt"])];
    let r = scan_directory_contents("a", &listings, &ignore(vec![], vec![".DS_Store"]));
    assert_eq!(r, vec![String::from("a/kept.txt")]);
}

#[test]
fn scan_synthesizes_the_directory_missing_from_some_replica() {
    // Root A holds `sub` as a directory; root B does not.
    let listings = vec![listing(true, vec![]), listing(false, vec![])];
    let r = scan_directory_contents("sub", &listings, &ignore(vec![], vec![]));
    assert_eq!(r, vec![String::from("sub")]);
}

#[test]
fn scan_adds_nothing_when_the_directory_exists_everywhere() {
    let listings = vec![listing(true, vec![]), listing(true, vec![])];
    let r = scan_directory_contents("sub", &listings, &Ignore::empty());
    assert!(r.is_empty());
}

#[test]
fn scan_is_deterministic_on_equal_listings() {
    let listings = vec![listing(true, vec!["a", "b"]), listing(false, vec![])];
    let rules = ignore(vec![], vec![]);
    let first = scan_directory_contents("d", &listings, &rules);
    let second = scan_directory_contents("d", &listings, &rules);
    assert_eq!(first, second);
    assert_eq!(first, vec![String::from("d/a"), String::from("d/b"), String::from("d")]);
}
