//! Detection utilities: the precondition check on replica roots, row
//! comparison, the ignore filter, and the single-directory union scan.
//!
//! The scan works on plain directory listings handed in by the caller: for
//! each replica root, whether the scanned directory exists there as a
//! directory, and the names of its direct children. Probing the filesystem
//! to produce those listings, and to build the per-replica row of each
//! discovered path, is the caller's I/O.

use crate::config::Ignore;
use crate::state::ArchiveEntryPerReplica;
use vstd::prelude::*;
use vstd::string::*;

verus! {

/// Precondition failures detected before any scanning begins.
#[derive(Debug)]
pub enum SyncError {
    /// A configured replica root does not exist; carries that root.
    RootDoesntExist(String),
}

/// Checks that every replica root exists, failing fast with the first
/// missing one. `present[i]` says whether `roots[i]` exists, as probed by
/// the caller.
pub fn check_all_roots_exist(roots: &Vec<String>, present: &Vec<bool>) -> (r: Result<
    (),
    SyncError,
>)
    requires
        roots@.len() == present@.len(),
    ensures
        match r {
            Ok(_) => forall|i: int| 0 <= i < present@.len() ==> present@[i],
            Err(e) => match e {
                SyncError::RootDoesntExist(p) => exists|i: int|
                    0 <= i < present@.len() && !(#[trigger] present@[i]) && p@ == roots@[i]@ && (
                    forall|j: int| 0 <= j < i ==> present@[j]),
            },
        },
{
    let mut i: usize = 0;
    while i < roots.len()
        invariant
            i <= roots@.len(),
            roots@.len() == present@.len(),
            forall|j: int| 0 <= j < i ==> present@[j],
        decreases roots@.len() - i,
    {
        if !present[i] {
            return Err(SyncError::RootDoesntExist(roots[i].clone()));
        }
        i = i + 1;
    }
    Ok(())
}

/// Element-wise equality of two rows, short-circuiting at the first
/// differing index.
pub fn are_archive_files_identical(
    a: &Vec<ArchiveEntryPerReplica>,
    b: &Vec<ArchiveEntryPerReplica>,
) -> (r: bool)
    requires
        a@.len() == b@.len(),
    ensures
        r == (a@ == b@),
{
    let mut i: usize = 0;
    while i < a.len()
        invariant
            i <= a@.len(),
            a@.len() == b@.len(),
            forall|j: int| 0 <= j < i ==> a@[j] == b@[j],
        decreases a@.len() - i,
    {
        if !(a[i] == b[i]) {
            proof {
                assert(a@[i as int] != b@[i as int]);
            }
            return false;
        }
        i = i + 1;
    }
    proof {
        assert(a@ =~= b@);
    }
    true
}

/// Row identity is symmetric.
pub proof fn lemma_rows_identical_symmetric(
    a: Seq<ArchiveEntryPerReplica>,
    b: Seq<ArchiveEntryPerReplica>,
)
    ensures
        (a == b) == (b == a),
{
}

/// Row identity is reflexive.
pub proof fn lemma_rows_identical_reflexive(a: Seq<ArchiveEntryPerReplica>)
    ensures
        a == a,
{
}

/// Rows differing at any single index are not identical.
pub proof fn lemma_rows_identical_differs(
    a: Seq<ArchiveEntryPerReplica>,
    b: Seq<ArchiveEntryPerReplica>,
    i: int,
)
    requires
        0 <= i < a.len(),
        0 <= i < b.len(),
        a[i] != b[i],
    ensures
        a != b,
{
}

/// What the `regex` crate says about a pattern and a text: whether the
/// pattern, compiled as a regular expression, matches anywhere in the text.
/// The result is a function of the two strings alone.
pub uninterp spec fn regex_match_of(pattern: Seq<char>, text: Seq<char>) -> bool;

/// Relies on regex::Regex::new and regex::Regex::is_match: compiles the
/// pattern and tests whether it matches anywhere in the text; a pattern that
/// does not compile matches nothing.
#[verifier::external_body]
fn regex_is_match(pattern: &str, text: &str) -> (r: bool)
    ensures
        r == regex_match_of(pattern@, text@),
{
    match regex::Regex::new(pattern) {
        Ok(re) => re.is_match(text),
        Err(_) => false,
    }
}

/// Whether `path` lies at or under `prefix`: it equals the prefix, or
/// continues it across a path separator.
pub open spec fn spec_path_has_prefix(path: Seq<char>, prefix: Seq<char>) -> bool {
    path == prefix || (path.len() > prefix.len() && path.take(prefix.len() as int) == prefix
        && path[prefix.len() as int] == '/')
}

/// Tests whether `path` lies at or under `prefix`.
fn path_has_prefix(path: &str, prefix: &str) -> (r: bool)
    ensures
        r == spec_path_has_prefix(path@, prefix@),
{
    let plen = path.unicode_len();
    let xlen = prefix.unicode_len();
    if plen < xlen {
        return false;
    }
    let mut i: usize = 0;
    while i < xlen
        invariant
            i <= xlen,
            xlen == prefix@.len(),
            plen == path@.len(),
            plen >= xlen,
            forall|j: int| 0 <= j < i ==> path@[j] == prefix@[j],
        decreases xlen - i,
    {
        if path.get_char(i) != prefix.get_char(i) {
            proof {
                assert(path@[i as int] != prefix@[i as int]);
                if path@.len() > prefix@.len() {
                    assert(path@.take(prefix@.len() as int)[i as int] != prefix@[i as int]);
                }
            }
            return false;
        }
        i = i + 1;
    }
    if plen == xlen {
        proof {
            assert(path@ =~= prefix@);
        }
        true
    } else {
        proof {
            assert(path@.take(prefix@.len() as int) =~= prefix@);
        }
        path.get_char(xlen) == '/'
    }
}

/// Whether the ignore rules exclude `path`: it lies under one of the literal
/// prefixes, or matches one of the regular expressions.
pub open spec fn spec_is_ignored(
    prefixes: Seq<Seq<char>>,
    regexes: Seq<Seq<char>>,
    path: Seq<char>,
) -> bool {
    (exists|i: int| 0 <= i < prefixes.len() && spec_path_has_prefix(path, #[trigger] prefixes[i]))
        || (exists|i: int| 0 <= i < regexes.len() && regex_match_of(#[trigger] regexes[i], path))
}

/// Checks whether the path is on the ignore list: under a literal prefix or
/// matching a configured regular expression, short-circuiting on the first
/// rule that applies.
pub fn is_ignored(ignore: &Ignore, path: &str) -> (r: bool)
    ensures
        r == spec_is_ignored(ignore.paths.deep_view(), ignore.regexes.deep_view(), path@),
{
    let mut i: usize = 0;
    while i < ignore.paths.len()
        invariant
            i <= ignore.paths@.len(),
            forall|j: int|
                0 <= j < i ==> !spec_path_has_prefix(path@, #[trigger] ignore.paths.deep_view()[j]),
        decreases ignore.paths@.len() - i,
    {
        proof {
            assert(ignore.paths.deep_view()[i as int] == ignore.paths@[i as int]@);
        }
        if path_has_prefix(path, ignore.paths[i].as_str()) {
            return true;
        }
        i = i + 1;
    }
    let mut i: usize = 0;
    while i < ignore.regexes.len()
        invariant
            i <= ignore.regexes@.len(),
            forall|j: int|
                0 <= j < i ==> !regex_match_of(#[trigger] ignore.regexes.deep_view()[j], path@),
            forall|j: int|
                0 <= j < ignore.paths@.len() ==> !spec_path_has_prefix(
                    path@,
                    #[trigger] ignore.paths.deep_view()[j],
                ),
        decreases ignore.regexes@.len() - i,
    {
        proof {
            assert(ignore.regexes.deep_view()[i as int] == ignore.regexes@[i as int]@);
        }
        if regex_is_match(ignore.regexes[i].as_str(), path) {
            return true;
        }
        i = i + 1;
    }
    false
}

/// What the caller saw of the scanned directory under one replica root:
/// whether it exists there as a directory, and if so the names of its direct
/// (non-recursive) children.
#[derive(Debug)]
pub struct RootListing {
    /// Whether `root/directory` is a directory under this root.
    pub is_dir: bool,
    /// The names of its direct children; meaningful only when `is_dir`.
    pub child_names: Vec<String>,
}

/// The path of a child relative to the replica root: the scanned directory,
/// a separator, then the child's name; just the name when scanning the root
/// itself.
pub open spec fn spec_child_path(dir: Seq<char>, name: Seq<char>) -> Seq<char> {
    if dir.len() == 0 {
        name
    } else {
        dir + seq!['/'] + name
    }
}

/// Joins the scanned directory and a child name into the child's relative
/// path.
fn child_path(directory: &str, name: &str) -> (r: String)
    ensures
        r@ == spec_child_path(directory@, name@),
{
    if directory.is_empty() {
        name.to_owned()
    } else {
        let mut s = directory.to_owned();
        s.append("/");
        s.append(name);
        proof {
            reveal_strlit("/");
            assert("/"@ =~= seq!['/']);
            assert((directory@ + "/"@) + name@ =~= spec_child_path(directory@, name@));
        }
        s
    }
}

/// Whether `c` is a non-ignored child path contributed by the listings
/// processed so far: all children of listings before `i`, and the first `j`
/// children of listing `i`.
pub open spec fn spec_scan_child_upto(
    dir: Seq<char>,
    listings: Seq<RootListing>,
    prefixes: Seq<Seq<char>>,
    regexes: Seq<Seq<char>>,
    c: Seq<char>,
    i: int,
    j: int,
) -> bool {
    exists|p: int, q: int|
        #![trigger listings[p].child_names@[q]]
        0 <= p < listings.len() && (p < i || (p == i && q < j)) && listings[p].is_dir && 0 <= q
            < listings[p].child_names@.len() && c == spec_child_path(
            dir,
            listings[p].child_names@[q]@,
        ) && !spec_is_ignored(prefixes, regexes, c)
}

/// Whether `c` is a non-ignored child path of the scanned directory under
/// any replica root.
pub open spec fn spec_scan_child(
    dir: Seq<char>,
    listings: Seq<RootListing>,
    prefixes: Seq<Seq<char>>,
    regexes: Seq<Seq<char>>,
    c: Seq<char>,
) -> bool {
    spec_scan_child_upto(dir, listings, prefixes, regexes, c, listings.len() as int, 0)
}

/// Whether the scan of `dir` yields `c`: a non-ignored child of some root's
/// copy of the directory, or the directory itself when it is missing as a
/// directory under at least one root.
pub open spec fn spec_scan_contains(
    dir: Seq<char>,
    listings: Seq<RootListing>,
    prefixes: Seq<Seq<char>>,
    regexes: Seq<Seq<char>>,
    c: Seq<char>,
) -> bool {
    spec_scan_child(dir, listings, prefixes, regexes, c) || (c == dir && exists|p: int|
        0 <= p < listings.len() && !(#[trigger] listings[p]).is_dir)
}

/// Whether the list already holds a string with this view.
fn contains_string(v: &Vec<String>, s: &String) -> (r: bool)
    ensures
        r == v.deep_view().contains(s@),
{
    let mut i: usize = 0;
    while i < v.len()
        invariant
            i <= v@.len(),
            forall|j: int| 0 <= j < i ==> #[trigger] v.deep_view()[j] != s@,
        decreases v@.len() - i,
    {
        if v[i] == *s {
            proof {
                assert(v.deep_view()[i as int] == s@);
            }
            return true;
        }
        proof {
            assert(v.deep_view()[i as int] == v@[i as int]@);
        }
        i = i + 1;
    }
    proof {
        if v.deep_view().contains(s@) {
            let j = choose|j: int| 0 <= j < v.deep_view().len() && v.deep_view()[j] == s@;
            assert(v.deep_view()[j] != s@);
        }
    }
    false
}

/// Unions the live state of one relative directory across all replica
/// roots: every direct child found under any root where the directory
/// exists, with ignored paths skipped and each relative path listed at most
/// once; and, when the directory is missing as a directory under some root,
/// the directory itself, so the caller learns that it differs across
/// replicas. The caller probes each returned path across all roots to build
/// its row.
pub fn scan_directory_contents(
    directory: &str,
    listings: &Vec<RootListing>,
    ignore: &Ignore,
) -> (r: Vec<String>)
    ensures
        forall|p: int, q: int| 0 <= p < q < r@.len() ==> r@[p]@ != r@[q]@,
        forall|c: Seq<char>|
            #![trigger r.deep_view().contains(c)]
            r.deep_view().contains(c) <==> spec_scan_contains(
                directory@,
                listings@,
                ignore.paths.deep_view(),
                ignore.regexes.deep_view(),
                c,
            ),
{
    let ghost dir = directory@;
    let ghost ls = listings@;
    let ghost pfx = ignore.paths.deep_view();
    let ghost rgx = ignore.regexes.deep_view();
    let mut result: Vec<String> = Vec::new();
    let mut missing = false;
    let mut i: usize = 0;
    proof {
        assert forall|c: Seq<char>|
            #![trigger result.deep_view().contains(c)]
            result.deep_view().contains(c) <==> spec_scan_child_upto(
                dir,
                ls,
                pfx,
                rgx,
                c,
                0,
                0,
            ) by {
            assert(result.deep_view().len() == 0);
            if result.deep_view().contains(c) {
                let k = choose|k: int|
                    0 <= k < result.deep_view().len() && result.deep_view()[k] == c;
                assert(false);
            }
            if spec_scan_child_upto(dir, ls, pfx, rgx, c, 0, 0) {
                let (p, q): (int, int) = choose|p: int, q: int|
                    #![trigger ls[p].child_names@[q]]
                    0 <= p < ls.len() && (p < 0 || (p == 0 && q < 0)) && ls[p].is_dir && 0 <= q
                        < ls[p].child_names@.len() && c == spec_child_path(
                        dir,
                        ls[p].child_names@[q]@,
                    ) && !spec_is_ignored(pfx, rgx, c);
                assert(false);
            }
        }
    }
    while i < listings.len()
        invariant
            i <= ls.len(),
            ls == listings@,
            dir == directory@,
            pfx == ignore.paths.deep_view(),
            rgx == ignore.regexes.deep_view(),
            missing == exists|p: int| 0 <= p < i && !(#[trigger] ls[p]).is_dir,
            forall|p: int, q: int| 0 <= p < q < result@.len() ==> result@[p]@ != result@[q]@,
            forall|c: Seq<char>|
                #![trigger result.deep_view().contains(c)]
                result.deep_view().contains(c) <==> spec_scan_child_upto(
                    dir,
                    ls,
                    pfx,
                    rgx,
                    c,
                    i as int,
                    0,
                ),
        decreases ls.len() - i,
    {
        if listings[i].is_dir {
            let ghost cn = ls[i as int].child_names@;
            let mut j: usize = 0;
            while j < listings[i].child_names.len()
                invariant
                    i < ls.len(),
                    j <= cn.len(),
                    ls == listings@,
                    dir == directory@,
                    pfx == ignore.paths.deep_view(),
                    rgx == ignore.regexes.deep_view(),
                    ls[i as int].is_dir,
                    cn == ls[i as int].child_names@,
                    missing == exists|p: int| 0 <= p < i && !(#[trigger] ls[p]).is_dir,
                    forall|p: int, q: int|
                        0 <= p < q < result@.len() ==> result@[p]@ != result@[q]@,
                    forall|c: Seq<char>|
                        #![trigger result.deep_view().contains(c)]
                        result.deep_view().contains(c) <==> spec_scan_child_upto(
                            dir,
                            ls,
                            pfx,
                            rgx,
                            c,
                            i as int,
                            j as int,
                        ),
                decreases cn.len() - j,
            {
                let name = &listings[i].child_names[j];
                let cpath = child_path(directory, name.as_str());
                let ghost cview = cpath@;
                proof {
                    assert(cview == spec_child_path(dir, cn[j as int]@));
                }
                let ghost prev = result.deep_view();
                let ignored = is_ignored(ignore, cpath.as_str());
                let mut pushed = false;
                if !ignored {
                    if !contains_string(&result, &cpath) {
                        result.push(cpath);
                        pushed = true;
                    }
                }
                proof {
                    if pushed {
                        assert(result.deep_view() =~= prev.push(cview));
                    } else {
                        assert(result.deep_view() =~= prev);
                    }
                    assert forall|c: Seq<char>|
                        #![trigger result.deep_view().contains(c)]
                        result.deep_view().contains(c) <==> spec_scan_child_upto(
                            dir,
                            ls,
                            pfx,
                            rgx,
                            c,
                            i as int,
                            j + 1,
                        ) by {
                        if result.deep_view().contains(c) {
                            let k = choose|k: int|
                                0 <= k < result.deep_view().len() && result.deep_view()[k] == c;
                            if k < prev.len() {
                                assert(prev.contains(c));
                                assert(spec_scan_child_upto(dir, ls, pfx, rgx, c, i as int, j as int));
                                let (p, q): (int, int) = choose|p: int, q: int|
                                    #![trigger ls[p].child_names@[q]]
                                    0 <= p < ls.len() && (p < i || (p == i && q < j)) && ls[p].is_dir
                                        && 0 <= q < ls[p].child_names@.len() && c
                                        == spec_child_path(dir, ls[p].child_names@[q]@)
                                        && !spec_is_ignored(pfx, rgx, c);
                                assert(ls[p].child_names@[q] == ls[p].child_names@[q]);
                                assert(spec_scan_child_upto(dir, ls, pfx, rgx, c, i as int, j + 1));
                            } else {
                                assert(c == cview && !spec_is_ignored(pfx, rgx, c));
                                assert(ls[i as int].child_names@[j as int]
                                    == ls[i as int].child_names@[j as int]);
                                assert(spec_scan_child_upto(dir, ls, pfx, rgx, c, i as int, j + 1));
                            }
                        }
                        if spec_scan_child_upto(dir, ls, pfx, rgx, c, i as int, j + 1) {
                            let (p, q): (int, int) = choose|p: int, q: int|
                                #![trigger ls[p].child_names@[q]]
                                0 <= p < ls.len() && (p < i || (p == i && q < j + 1)) && ls[p].is_dir
                                    && 0 <= q < ls[p].child_names@.len() && c == spec_child_path(
                                    dir,
                                    ls[p].child_names@[q]@,
                                ) && !spec_is_ignored(pfx, rgx, c);
                            if p == i && q == j {
                                assert(c == cview);
                                assert(!ignored);
                                if pushed {
                                    assert(result.deep_view()[prev.len() as int] == c);
                                    assert(result.deep_view().contains(c));
                                } else {
                                    assert(prev.contains(c));
                                    let k = choose|k: int| 0 <= k < prev.len() && prev[k] == c;
                                    assert(result.deep_view()[k] == c);
                                }
                            } else {
                                assert(spec_scan_child_upto(dir, ls, pfx, rgx, c, i as int, j as int));
                                assert(prev.contains(c));
                                let k = choose|k: int| 0 <= k < prev.len() && prev[k] == c;
                                assert(result.deep_view()[k] == c);
                            }
                        }
                    }
                    if pushed {
                        assert forall|p: int, q: int|
                            0 <= p < q < result@.len() implies result@[p]@ != result@[q]@ by {
                            if q == result@.len() - 1 {
                                assert(prev[p] == result@[p]@);
                                assert(!prev.contains(cview));
                                assert(result@[q]@ == cview);
                                if result@[p]@ == cview {
                                    assert(prev.contains(cview));
                                }
                            }
                        }
                    }
                }
                j = j + 1;
            }
            proof {
                assert forall|c: Seq<char>|
                    #![trigger result.deep_view().contains(c)]
                    result.deep_view().contains(c) <==> spec_scan_child_upto(
                        dir,
                        ls,
                        pfx,
                        rgx,
                        c,
                        i + 1,
                        0,
                    ) by {
                    if result.deep_view().contains(c) {
                        assert(spec_scan_child_upto(dir, ls, pfx, rgx, c, i as int, cn.len() as int));
                        let (p, q): (int, int) = choose|p: int, q: int|
                            #![trigger ls[p].child_names@[q]]
                            0 <= p < ls.len() && (p < i || (p == i && q < cn.len())) && ls[p].is_dir
                                && 0 <= q < ls[p].child_names@.len() && c == spec_child_path(
                                dir,
                                ls[p].child_names@[q]@,
                            ) && !spec_is_ignored(pfx, rgx, c);
                        assert(p < i + 1);
                        assert(spec_scan_child_upto(dir, ls, pfx, rgx, c, i + 1, 0));
                    }
                    if spec_scan_child_upto(dir, ls, pfx, rgx, c, i + 1, 0) {
                        let (p, q): (int, int) = choose|p: int, q: int|
                            #![trigger ls[p].child_names@[q]]
                            0 <= p < ls.len() && (p < i + 1 || (p == i + 1 && q < 0)) && ls[p].is_dir
                                && 0 <= q < ls[p].child_names@.len() && c == spec_child_path(
                                dir,
                                ls[p].child_names@[q]@,
                            ) && !spec_is_ignored(pfx, rgx, c);
                        if p == i {
                            assert(q < cn.len());
                        }
                        assert(spec_scan_child_upto(dir, ls, pfx, rgx, c, i as int, cn.len() as int));
                        assert(result.deep_view().contains(c));
                    }
                }
            }
        } else {
            missing = true;
            proof {
                assert(!ls[i as int].is_dir);
                assert forall|c: Seq<char>|
                    #![trigger result.deep_view().contains(c)]
                    result.deep_view().contains(c) <==> spec_scan_child_upto(
                        dir,
                        ls,
                        pfx,
                        rgx,
                        c,
                        i + 1,
                        0,
                    ) by {
                    if result.deep_view().contains(c) {
                        assert(spec_scan_child_upto(dir, ls, pfx, rgx, c, i as int, 0));
                        let (p, q): (int, int) = choose|p: int, q: int|
                            #![trigger ls[p].child_names@[q]]
                            0 <= p < ls.len() && (p < i || (p == i && q < 0)) && ls[p].is_dir && 0
                                <= q < ls[p].child_names@.len() && c == spec_child_path(
                                dir,
                                ls[p].child_names@[q]@,
                            ) && !spec_is_ignored(pfx, rgx, c);
                        assert(spec_scan_child_upto(dir, ls, pfx, rgx, c, i + 1, 0));
                    }
                    if spec_scan_child_upto(dir, ls, pfx, rgx, c, i + 1, 0) {
                        let (p, q): (int, int) = choose|p: int, q: int|
                            #![trigger ls[p].child_names@[q]]
                            0 <= p < ls.len() && (p < i + 1 || (p == i + 1 && q < 0)) && ls[p].is_dir
                                && 0 <= q < ls[p].child_names@.len() && c == spec_child_path(
                                dir,
                                ls[p].child_names@[q]@,
                            ) && !spec_is_ignored(pfx, rgx, c);
                        assert(p != i);
                        assert(spec_scan_child_upto(dir, ls, pfx, rgx, c, i as int, 0));
                        assert(result.deep_view().contains(c));
                    }
                }
            }
        }
        i = i + 1;
    }
    let ghost prev = result.deep_view();
    let mut pushed_dir = false;
    if missing {
        let dir_string = directory.to_owned();
        if !contains_string(&result, &dir_string) {
            result.push(dir_string);
            pushed_dir = true;
        }
    }
    proof {
        if pushed_dir {
            assert(result.deep_view() =~= prev.push(dir));
        } else {
            assert(result.deep_view() =~= prev);
        }
        assert forall|c: Seq<char>|
            #![trigger result.deep_view().contains(c)]
            result.deep_view().contains(c) <==> spec_scan_contains(dir, ls, pfx, rgx, c) by {
            if result.deep_view().contains(c) {
                let k = choose|k: int|
                    0 <= k < result.deep_view().len() && result.deep_view()[k] == c;
                if k < prev.len() {
                    assert(prev.contains(c));
                } else {
                    assert(c == dir && missing);
                }
            }
            if spec_scan_contains(dir, ls, pfx, rgx, c) {
                if spec_scan_child(dir, ls, pfx, rgx, c) {
                    assert(prev.contains(c));
                    let k = choose|k: int| 0 <= k < prev.len() && prev[k] == c;
                    assert(result.deep_view()[k] == c);
                } else {
                    assert(c == dir && missing);
                    if pushed_dir {
                        assert(result.deep_view()[prev.len() as int] == c);
                    } else {
                        assert(prev.contains(c));
                        let k = choose|k: int| 0 <= k < prev.len() && prev[k] == c;
                        assert(result.deep_view()[k] == c);
                    }
                }
            }
        }
        if pushed_dir {
            assert forall|p: int, q: int|
                0 <= p < q < result@.len() implies result@[p]@ != result@[q]@ by {
                if q == result@.len() - 1 {
                    assert(prev[p] == result@[p]@);
                    assert(!prev.contains(dir));
                    if result@[p]@ == dir {
                        assert(prev.contains(dir));
                    }
                }
            }
        }
    }
    result
}

} // verus!
