//! A snapshot directory as a plain list of files, and the ways to pick a file from it.
//!
//! The caller reads the directory from disk and hands it over in listing order; nothing
//! here depends on that order except where two files are otherwise tied.

use vstd::prelude::*;
use crate::error::SnapshotError;
use crate::naming::{has_snapshot_extension, is_snapshot_name, name_contains, name_matches};

verus! {

/// One file of a snapshot directory.
#[derive(Clone, Debug, PartialEq, Eq)]
pub struct SnapshotFile {
    /// The file's name, without the directory.
    pub name: String,
    /// When the file was last modified, in nanoseconds since the Unix epoch, where the
    /// file system could tell.
    pub modified: Option<u128>,
    /// The file's bytes.
    pub payload: Vec<u8>,
}

/// The mathematical content of a vector of strings.
pub open spec fn texts_of(v: Seq<String>) -> Seq<Seq<char>> {
    Seq::new(v.len(), |i: int| v[i]@)
}

/// The names of the files, in listing order.
pub open spec fn names_of(files: Seq<SnapshotFile>) -> Seq<Seq<char>> {
    Seq::new(files.len(), |i: int| files[i].name@)
}

/// The test that keeps the names of snapshots.
pub open spec fn snapshots_only() -> spec_fn(Seq<char>) -> bool {
    |name: Seq<char>| is_snapshot_name(name)
}

/// The file at `i` is one whose name contains the identifier.
pub open spec fn file_matches(files: Seq<SnapshotFile>, i: int, identifier: Seq<char>) -> bool {
    0 <= i < files.len() && name_matches(files[i].name@, identifier)
}

/// What an identifier resolves to: the one file whose name contains it; `NotFound` where
/// there is none, `AmbiguousMatch` where there are several.
pub open spec fn resolved(files: Seq<SnapshotFile>, identifier: Seq<char>) -> Result<
    int,
    SnapshotError,
> {
    if forall|i: int| !file_matches(files, i, identifier) {
        Err(SnapshotError::NotFound)
    } else if exists|i: int, j: int|
        i != j && file_matches(files, i, identifier) && file_matches(files, j, identifier) {
        Err(SnapshotError::AmbiguousMatch)
    } else {
        Ok(choose|i: int| file_matches(files, i, identifier))
    }
}

/// `a` was modified no later than `b`; a file without a time counts as older than any
/// file with one.
pub open spec fn not_after(a: Option<u128>, b: Option<u128>) -> bool {
    match (a, b) {
        (None, _) => true,
        (Some(_), None) => false,
        (Some(x), Some(y)) => x <= y,
    }
}

/// The file at `i` is the latest snapshot: no snapshot was modified later, and of the
/// snapshots that were modified at the same time it is listed last.
pub open spec fn is_latest(files: Seq<SnapshotFile>, i: int) -> bool {
    &&& 0 <= i < files.len()
    &&& is_snapshot_name(files[i].name@)
    &&& forall|j: int|
        0 <= j < i && is_snapshot_name(#[trigger] files[j].name@) ==> not_after(
            files[j].modified,
            files[i].modified,
        )
    &&& forall|j: int|
        i < j < files.len() && is_snapshot_name(#[trigger] files[j].name@) ==> !not_after(
            files[i].modified,
            files[j].modified,
        )
}

/// The latest snapshot of the directory, where it holds a snapshot at all.
pub open spec fn latest(files: Seq<SnapshotFile>) -> Option<int> {
    if exists|i: int| is_latest(files, i) {
        Some(choose|i: int| is_latest(files, i))
    } else {
        None
    }
}

/// The one file whose name contains the identifier is what the identifier resolves to.
pub proof fn lemma_resolved_is(files: Seq<SnapshotFile>, identifier: Seq<char>, i: int)
    requires
        file_matches(files, i, identifier),
        forall|j: int| file_matches(files, j, identifier) ==> j == i,
    ensures
        resolved(files, identifier) == Ok::<int, SnapshotError>(i),
{
    let c = choose|c: int| file_matches(files, c, identifier);
    assert(file_matches(files, c, identifier));
}

/// A directory has at most one latest snapshot.
pub proof fn lemma_latest_is(files: Seq<SnapshotFile>, i: int)
    requires
        is_latest(files, i),
    ensures
        latest(files) == Some(i),
{
    let c = choose|c: int| is_latest(files, c);
    assert(is_latest(files, c));
    if c < i {
        assert(is_snapshot_name(files[i].name@));
        assert(is_snapshot_name(files[c].name@));
    } else if i < c {
        assert(is_snapshot_name(files[i].name@));
        assert(is_snapshot_name(files[c].name@));
    }
}

/// A directory without a snapshot has no latest snapshot.
pub proof fn lemma_no_latest(files: Seq<SnapshotFile>)
    requires
        forall|j: int| 0 <= j < files.len() ==> !is_snapshot_name(#[trigger] files[j].name@),
    ensures
        latest(files) is None,
{
}

/// The names of the snapshots in the directory, in listing order.
pub fn list_snapshots(files: &Vec<SnapshotFile>) -> (r: Vec<String>)
    ensures
        texts_of(r@) == names_of(files@).filter(snapshots_only()),
{
    let mut out: Vec<String> = Vec::new();
    let mut i: usize = 0;
    proof {
        reveal(Seq::filter);
        assert(names_of(files@).take(0) =~= Seq::empty());
        assert(texts_of(out@) =~= Seq::empty());
    }
    while i < files.len()
        invariant
            i <= files@.len(),
            texts_of(out@) == names_of(files@).take(i as int).filter(snapshots_only()),
        decreases files@.len() - i,
    {
        let ghost seen = names_of(files@).take(i as int);
        let ghost next = names_of(files@).take(i + 1);
        let ghost kept = texts_of(out@);
        proof {
            reveal(Seq::filter);
            assert(next.drop_last() =~= seen);
            assert(next.last() == files@[i as int].name@);
        }
        if has_snapshot_extension(files[i].name.as_str()) {
            out.push(files[i].name.clone());
            assert(texts_of(out@) =~= kept.push(files@[i as int].name@));
        }
        i += 1;
    }
    assert(names_of(files@).take(i as int) =~= names_of(files@));
    out
}

/// Resolves an identifier to the position of the one file whose name contains it.
pub fn resolve_by_identifier(files: &Vec<SnapshotFile>, identifier: &str) -> (r: Result<
    usize,
    SnapshotError,
>)
    ensures
        match r {
            Ok(i) => resolved(files@, identifier@) == Ok::<int, SnapshotError>(i as int),
            Err(e) => resolved(files@, identifier@) == Err::<int, SnapshotError>(e),
        },
{
    let mut found: Option<usize> = None;
    let mut i: usize = 0;
    while i < files.len()
        invariant
            i <= files@.len(),
            match found {
                Some(at) => at < i && file_matches(files@, at as int, identifier@) && forall|
                    j: int,
                |
                    0 <= j < i && file_matches(files@, j, identifier@) ==> j == at,
                None => forall|j: int| 0 <= j < i ==> !file_matches(files@, j, identifier@),
            },
        decreases files@.len() - i,
    {
        if name_contains(files[i].name.as_str(), identifier) {
            match found {
                Some(at) => {
                    assert(file_matches(files@, at as int, identifier@) && file_matches(
                        files@,
                        i as int,
                        identifier@,
                    ));
                    return Err(SnapshotError::AmbiguousMatch);
                },
                None => {
                    found = Some(i);
                },
            }
        }
        i += 1;
    }
    match found {
        Some(at) => {
            proof {
                lemma_resolved_is(files@, identifier@, at as int);
            }
            Ok(at)
        },
        None => Err(SnapshotError::NotFound),
    }
}

/// Tells whether `a` was modified no later than `b`.
fn modified_not_after(a: &Option<u128>, b: &Option<u128>) -> (r: bool)
    ensures
        r == not_after(*a, *b),
{
    match a {
        None => true,
        Some(x) => match b {
            None => false,
            Some(y) => *x <= *y,
        },
    }
}

/// One more file is looked at that does not displace the latest snapshot so far: it is
/// no snapshot, or it was modified earlier.
proof fn lemma_latest_stays(files: Seq<SnapshotFile>, n: int, at: int)
    requires
        0 <= n < files.len(),
        is_latest(files.take(n), at),
        !is_snapshot_name(files[n].name@) || !not_after(files[at].modified, files[n].modified),
    ensures
        is_latest(files.take(n + 1), at),
{
    let seen = files.take(n);
    let next = files.take(n + 1);
    assert forall|j: int| 0 <= j < at && is_snapshot_name(#[trigger] next[j].name@) implies not_after(
        next[j].modified,
        next[at].modified,
    ) by {
        assert(next[j] == seen[j]);
        assert(is_snapshot_name(seen[j].name@));
    }
    assert forall|j: int|
        at < j < next.len() && is_snapshot_name(#[trigger] next[j].name@) implies !not_after(
        next[at].modified,
        next[j].modified,
    ) by {
        if j < n {
            assert(next[j] == seen[j]);
            assert(is_snapshot_name(seen[j].name@));
        }
    }
}

/// One more file is looked at that becomes the latest snapshot: it is a snapshot, and
/// the latest so far, if there is one, was modified no later.
proof fn lemma_latest_moves(files: Seq<SnapshotFile>, n: int, best: Option<int>)
    requires
        0 <= n < files.len(),
        is_snapshot_name(files[n].name@),
        match best {
            Some(at) => is_latest(files.take(n), at) && not_after(
                files[at].modified,
                files[n].modified,
            ),
            None => forall|j: int| 0 <= j < n ==> !is_snapshot_name(#[trigger] files[j].name@),
        },
    ensures
        is_latest(files.take(n + 1), n),
{
    let seen = files.take(n);
    let next = files.take(n + 1);
    assert forall|j: int| 0 <= j < n && is_snapshot_name(#[trigger] next[j].name@) implies not_after(
        next[j].modified,
        next[n].modified,
    ) by {
        assert(next[j] == seen[j]);
        assert(next[j] == files[j]);
        let at = best->0;
        assert(is_snapshot_name(seen[j].name@));
        if j < at {
            assert(not_after(seen[j].modified, seen[at].modified));
        } else if at < j {
            assert(!not_after(seen[at].modified, seen[j].modified));
        }
    }
}

/// Picks the latest snapshot of the directory. A directory without snapshots has none,
/// which is no error.
pub fn resolve_latest(files: &Vec<SnapshotFile>) -> (r: Option<usize>)
    ensures
        match r {
            Some(i) => latest(files@) == Some(i as int),
            None => latest(files@) is None,
        },
{
    let mut best: Option<usize> = None;
    let mut i: usize = 0;
    while i < files.len()
        invariant
            i <= files@.len(),
            match best {
                Some(at) => at < i && is_latest(files@.take(i as int), at as int),
                None => forall|j: int|
                    0 <= j < i ==> !is_snapshot_name(#[trigger] files@[j].name@),
            },
        decreases files@.len() - i,
    {
        let moves = has_snapshot_extension(files[i].name.as_str()) && match best {
            Some(at) => modified_not_after(&files[at].modified, &files[i].modified),
            None => true,
        };
        if moves {
            proof {
                let so_far = match best {
                    Some(at) => Some(at as int),
                    None => None,
                };
                lemma_latest_moves(files@, i as int, so_far);
            }
            best = Some(i);
        } else {
            proof {
                if best is Some {
                    lemma_latest_stays(files@, i as int, best->0 as int);
                }
            }
        }
        i += 1;
    }
    assert(files@.take(i as int) =~= files@);
    match best {
        Some(at) => {
            proof {
                lemma_latest_is(files@, at as int);
            }
            Some(at)
        },
        None => {
            proof {
                lemma_no_latest(files@);
            }
            None
        },
    }
}

} // verus!
