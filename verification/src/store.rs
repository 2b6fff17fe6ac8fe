//! The registry as it is kept on disk: one SQLite table of paths.
//!
//! The table holds each path once, as raw bytes. What the database does with
//! a statement is not proved here: each call stands behind a small function
//! whose result is taken as it comes, and the functions of this module say
//! what the tracker makes of every possible result. What the store decides
//! itself, how rows are listed and which paths a pruning removes, it takes
//! from the registry in memory, where it is proved.

use vstd::prelude::*;
use crate::error::TrackError;
use crate::order::copy_bytes;
use crate::path::{is_absolute, join, joined, paths_view, starts_at_root};
use crate::order::lex_lt;
use crate::registry::{ascending, gone, lists, none_gone, AddOutcome, PathStatus, Registry};

verus! {

/// A connection to an SQLite database, of the crate `rusqlite`.
#[verifier::external_type_specification]
#[verifier::external_body]
pub struct ExConnection(rusqlite::Connection);

/// The error type of the crate `rusqlite`.
#[verifier::external_type_specification]
#[verifier::external_body]
pub struct ExSqlError(rusqlite::Error);

/// A location in the filesystem, of the standard library.
#[verifier::external_type_specification]
#[verifier::external_body]
pub struct ExPathBuf(std::path::PathBuf);

/// Calls `rusqlite::Connection::open` on a location. Nothing is claimed of
/// the result: whether the database opens depends on what is on disk.
#[verifier::external_body]
fn connect(location: &std::path::PathBuf) -> (r: Result<rusqlite::Connection, rusqlite::Error>) {
    rusqlite::Connection::open(location)
}

/// Calls `rusqlite::Connection::execute_batch` with statements that take no
/// parameters. Nothing is claimed of the result.
#[verifier::external_body]
fn run_batch(handle: &rusqlite::Connection, sql: &str) -> (r: Result<(), rusqlite::Error>) {
    handle.execute_batch(sql)
}

/// Calls `rusqlite::Connection::execute` with one statement and one
/// parameter, bound as a blob. Nothing is claimed of the result, which on
/// success is the number of rows that the statement changed.
#[verifier::external_body]
fn run_with_blob(handle: &rusqlite::Connection, sql: &str, blob: &Vec<u8>) -> (r: Result<
    usize,
    rusqlite::Error,
>) {
    handle.execute(sql, [blob.as_slice()])
}

/// Calls `rusqlite::Connection::prepare` and `rusqlite::Statement::query_map`
/// with one query that takes no parameters, and reads the first column of
/// each row as a blob with `rusqlite::Row::get`. Nothing is claimed of the
/// result: neither which rows come back nor in which order.
#[verifier::external_body]
fn query_blobs(handle: &rusqlite::Connection, sql: &str) -> (r: Result<
    Vec<Vec<u8>>,
    rusqlite::Error,
>) {
    let mut statement = handle.prepare(sql)?;
    let rows = statement.query_map([], |row| row.get::<usize, Vec<u8>>(0))?;
    rows.collect()
}

/// Calls `rusqlite::Error::sqlite_error_code` and tells whether the code is
/// that of a violated constraint. Nothing is claimed of the result.
#[verifier::external_body]
fn violates_constraint(e: &rusqlite::Error) -> (r: bool) {
    e.sqlite_error_code() == Some(rusqlite::ErrorCode::ConstraintViolation)
}

/// The text of a `rusqlite::Error`, as its `Display` gives it. Nothing is
/// claimed of the result.
#[verifier::external_body]
fn error_text(e: &rusqlite::Error) -> (r: String) {
    format!("{}", e)
}

/// The name of the registry's file within the configuration directory.
pub open spec fn store_name() -> Seq<u8> {
    seq![116u8, 114u8, 97u8, 99u8, 107u8, 46u8, 100u8, 98u8]
}

/// What an unknown configuration directory is reported as.
pub open spec fn no_config_dir() -> Seq<char> {
    "couldn't get user config dir"@
}

/// Where the registry is kept: the file `track.db` in the user's
/// configuration directory. Where that directory is not known the store is
/// unavailable.
pub fn store_location(config_dir: Option<Vec<u8>>) -> (r: Result<Vec<u8>, TrackError>)
    ensures
        match config_dir {
            Some(directory) => r matches Ok(location) && location@ == joined(
                directory@,
                store_name(),
            ),
            None => r matches Err(TrackError::StorageUnavailable { reason }) && reason@
                == no_config_dir(),
        },
{
    match config_dir {
        Some(directory) => {
            let mut name: Vec<u8> = Vec::new();
            name.push(116);
            name.push(114);
            name.push(97);
            name.push(99);
            name.push(107);
            name.push(46);
            name.push(100);
            name.push(98);
            assert(name@ =~= store_name());
            Ok(join(&directory, &name))
        },
        None => Err(
            TrackError::StorageUnavailable {
                reason: String::from_str("couldn't get user config dir"),
            },
        ),
    }
}

/// What is known of a statement that the database refused.
#[derive(Debug, PartialEq, Eq)]
pub struct SqlFailure {
    /// Whether a constraint of the table was violated.
    pub constraint: bool,
    /// The database's own words.
    pub reason: String,
}

/// Reads a database error into plain values.
fn describe(e: &rusqlite::Error) -> (f: SqlFailure) {
    SqlFailure { constraint: violates_constraint(e), reason: error_text(e) }
}

/// What adding a path came to, given what the database said of the insert.
/// The table holds each path once, so an insert that violates a constraint
/// met a path that is tracked already: that is no failure, and the caller is
/// told. Any other refusal is a failure of the store.
pub fn insert_outcome(inserted: Result<usize, SqlFailure>) -> (r: Result<AddOutcome, TrackError>)
    ensures
        match inserted {
            Ok(_) => r == Ok::<AddOutcome, TrackError>(AddOutcome::Added),
            Err(f) => if f.constraint {
                r == Ok::<AddOutcome, TrackError>(AddOutcome::AlreadyTracked)
            } else {
                r == Err::<AddOutcome, TrackError>(TrackError::Storage { reason: f.reason })
            },
        },
{
    match inserted {
        Ok(_) => Ok(AddOutcome::Added),
        Err(f) => if f.constraint {
            Ok(AddOutcome::AlreadyTracked)
        } else {
            Err(TrackError::Storage { reason: f.reason })
        },
    }
}

/// The listing of the rows that the database returned: the same paths in
/// ascending order, each once, whatever the order and number in which the
/// rows came.
pub fn listing(rows: &Vec<Vec<u8>>) -> (r: Vec<Vec<u8>>)
    ensures
        lists(paths_view(r@), paths_view(rows@).to_set()),
{
    Registry::from_rows(rows).list()
}

/// What opening the store came to where the database refused to open or to
/// hold the table: the store is unavailable, for the reason that the database
/// gave.
pub fn open_failure(failure: SqlFailure) -> (e: TrackError)
    ensures
        e == (TrackError::StorageUnavailable { reason: failure.reason }),
{
    TrackError::StorageUnavailable { reason: failure.reason }
}

/// What listing came to, given what the database said of the query. Rows
/// that came back are listed: the same paths in ascending order, each once,
/// and no rows give an empty listing. A refused query is a failure of the
/// store.
pub fn list_outcome(queried: Result<Vec<Vec<u8>>, SqlFailure>) -> (r: Result<
    Vec<Vec<u8>>,
    TrackError,
>)
    ensures
        match queried {
            Ok(rows) => r matches Ok(paths) && lists(
                paths_view(paths@),
                paths_view(rows@).to_set(),
            ),
            Err(f) => r == Err::<Vec<Vec<u8>>, TrackError>(
                TrackError::Storage { reason: f.reason },
            ),
        },
{
    match queried {
        Ok(rows) => Ok(listing(&rows)),
        Err(f) => Err(TrackError::Storage { reason: f.reason }),
    }
}

/// What removing a path came to, given what the database said of the delete.
/// A delete that went through is a success however many rows it changed: that
/// the path was not tracked, and no row changed, is no failure. A refused
/// delete is a failure of the store.
pub fn remove_outcome(deleted: Result<usize, SqlFailure>) -> (r: Result<(), TrackError>)
    ensures
        match deleted {
            Ok(_) => r == Ok::<(), TrackError>(()),
            Err(f) => r == Err::<(), TrackError>(TrackError::Storage { reason: f.reason }),
        },
{
    match deleted {
        Ok(_) => Ok(()),
        Err(f) => Err(TrackError::Storage { reason: f.reason }),
    }
}

/// What a pruning removes, given the rows that the database returned and
/// the findings: the paths that are tracked and reported as gone, in
/// ascending order, each once. A finding on a path that is not tracked
/// removes nothing.
pub fn prune_targets(rows: &Vec<Vec<u8>>, statuses: &Vec<PathStatus>) -> (r: Vec<Vec<u8>>)
    ensures
        lists(paths_view(r@), paths_view(rows@).to_set().intersect(gone(statuses@))),
{
    let mut registry = Registry::from_rows(rows);
    registry.prune(statuses)
}

/// What a pruning did.
#[derive(Debug, PartialEq, Eq)]
pub struct PruneReport {
    /// The paths that were removed from the store, in the order in which
    /// they were removed.
    pub removed: Vec<Vec<u8>>,
    /// The failure of the store that ended the pruning, where one did. The
    /// path at which it came is not among the removed.
    pub failure: Option<TrackError>,
}

/// The registry of tracked paths, kept in an SQLite database.
pub struct PathsDB {
    handle: rusqlite::Connection,
}

impl PathsDB {
    /// Opens the registry kept at `location`, creating the database and its
    /// table where they do not exist yet. Whether that succeeds is the
    /// database's to say; where it refuses, the result is [`open_failure`] of
    /// what it said.
    pub fn open(location: &std::path::PathBuf) -> (r: Result<PathsDB, TrackError>)
        ensures
            r matches Err(e) ==> e is StorageUnavailable,
    {
        match connect(location) {
            Ok(handle) => {
                match run_batch(
                    &handle,
                    "CREATE TABLE IF NOT EXISTS paths (path BLOB NOT NULL UNIQUE)",
                ) {
                    Ok(_) => Ok(PathsDB { handle }),
                    Err(e) => Err(open_failure(describe(&e))),
                }
            },
            Err(e) => Err(open_failure(describe(&e))),
        }
    }

    /// Tracks a path. A path that is not absolute is refused before the
    /// database is asked. Otherwise the path is inserted, and the table's
    /// own constraint decides whether it was tracked already; the result is
    /// [`insert_outcome`] of what the database said.
    pub fn add(&self, path: &Vec<u8>) -> (r: Result<AddOutcome, TrackError>)
        ensures
            match r {
                Ok(_) => is_absolute(path@),
                Err(e) => if is_absolute(path@) {
                    e is Storage
                } else {
                    e matches TrackError::PathResolution { path: refused } && refused@ == path@
                },
            },
    {
        if !starts_at_root(path) {
            return Err(TrackError::PathResolution { path: copy_bytes(path) });
        }
        let inserted = match run_with_blob(
            &self.handle,
            "INSERT INTO paths (path) VALUES (?)",
            path,
        ) {
            Ok(n) => Ok(n),
            Err(e) => Err(describe(&e)),
        };
        insert_outcome(inserted)
    }

    /// The tracked paths in ascending lexicographic order, each once. Which
    /// rows there are is the database's to say; the result is
    /// [`list_outcome`] of what it said.
    pub fn list(&self) -> (r: Result<Vec<Vec<u8>>, TrackError>)
        ensures
            match r {
                Ok(paths) => ascending(paths_view(paths@)),
                Err(e) => e is Storage,
            },
    {
        let queried = match query_blobs(
            &self.handle,
            "SELECT path FROM paths ORDER BY path ASC",
        ) {
            Ok(rows) => Ok(rows),
            Err(e) => Err(describe(&e)),
        };
        list_outcome(queried)
    }

    /// Stops tracking a path. That the path was not tracked is no failure.
    /// The result is [`remove_outcome`] of what the database said of the
    /// delete.
    pub fn rm(&self, path: &Vec<u8>) -> (r: Result<(), TrackError>)
        ensures
            r matches Err(e) ==> e is Storage,
    {
        let deleted = match run_with_blob(
            &self.handle,
            "DELETE FROM paths WHERE path = ?",
            path,
        ) {
            Ok(n) => Ok(n),
            Err(e) => Err(describe(&e)),
        };
        remove_outcome(deleted)
    }

    /// Stops tracking each of the given paths, one after the other, until
    /// all are removed or the store fails. The report holds the paths that
    /// were removed before that, and the failure if there was one. With
    /// nothing to remove the store is not asked, and nothing fails.
    pub fn remove_all(&self, targets: &Vec<Vec<u8>>) -> (report: PruneReport)
        ensures
            paths_view(report.removed@).is_prefix_of(paths_view(targets@)),
            match report.failure {
                None => paths_view(report.removed@) == paths_view(targets@),
                Some(e) => e is Storage && report.removed.len() < targets.len(),
            },
    {
        let mut removed: Vec<Vec<u8>> = Vec::new();
        let mut i: usize = 0;
        assert(paths_view(removed@) =~= paths_view(targets@).subrange(0, 0));
        while i < targets.len()
            invariant
                i <= targets.len(),
                removed.len() == i,
                paths_view(removed@) == paths_view(targets@).subrange(0, i as int),
            decreases targets.len() - i,
        {
            match self.rm(&targets[i]) {
                Ok(_) => {},
                Err(e) => {
                    return PruneReport { removed, failure: Some(e) };
                },
            }
            let ghost before = removed@;
            removed.push(copy_bytes(&targets[i]));
            assert(paths_view(removed@) =~= paths_view(before).push(targets[i as int]@));
            i += 1;
            assert(paths_view(removed@) =~= paths_view(targets@).subrange(0, i as int));
        }
        assert(paths_view(targets@).subrange(0, targets.len() as int) =~= paths_view(targets@));
        PruneReport { removed, failure: None }
    }

    /// Stops tracking the paths that are tracked and that the findings
    /// report as gone. Where no finding reports a path as gone the store is
    /// not asked, nothing is removed and nothing fails. Otherwise the store
    /// is asked for its rows, what is to be removed is [`prune_targets`] of
    /// them, and [`PathsDB::remove_all`] removes it: the report holds, in
    /// ascending order, the paths removed before the store failed, if it did.
    pub fn prune(&self, statuses: &Vec<PathStatus>) -> (report: PruneReport)
        ensures
            ascending(paths_view(report.removed@)),
            forall|k: int|
                0 <= k < report.removed.len() ==> gone(statuses@).contains(
                    (#[trigger] report.removed[k])@,
                ),
            report.failure matches Some(e) ==> e is Storage,
            gone(statuses@) == Set::<Seq<u8>>::empty() ==> report.removed.len() == 0
                && report.failure is None,
    {
        if none_gone(statuses) {
            return PruneReport { removed: Vec::new(), failure: None };
        }
        match self.list() {
            Ok(rows) => {
                let targets = prune_targets(&rows, statuses);
                let report = self.remove_all(&targets);
                proof {
                    let listed = paths_view(targets@);
                    let kept = paths_view(report.removed@);
                    assert forall|k: int| 0 <= k < report.removed.len() implies gone(
                        statuses@,
                    ).contains((#[trigger] report.removed[k])@) by {
                        assert(kept[k] == listed[k]);
                        assert(listed.to_set().contains(listed[k]));
                    }
                    assert forall|i: int, j: int| 0 <= i < j < kept.len() implies lex_lt(
                        kept[i],
                        kept[j],
                    ) by {
                        assert(kept[i] == listed[i]);
                        assert(kept[j] == listed[j]);
                    }
                }
                report
            },
            Err(e) => PruneReport { removed: Vec::new(), failure: Some(e) },
        }
    }
}

} // verus!
