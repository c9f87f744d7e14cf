//! What a storage engine over an SQL database decides without touching
//! the database: which paths it accepts, which statements it runs, and
//! when a transaction commits or rolls back.

use vstd::prelude::*;

verus! {

/// The way in which a request to the storage engine is wrong.
#[derive(Clone, Copy, Debug, PartialEq, Eq, Structural)]
pub enum StorageError {
    /// The path of the database is empty.
    EmptyPath,
    /// The transaction was committed before.
    MultipleCommits,
}

/// The Sqlite storage engine: the database under a path.
#[derive(Debug)]
pub struct SqliteStorage {
    pub name: String,
}

impl Clone for SqliteStorage {
    fn clone(&self) -> (r: SqliteStorage)
        ensures
            r == *self,
    {
        SqliteStorage { name: self.name.clone() }
    }
}

/// The number of statements that the engine runs.
pub const N_QUERIES: usize = 6;

/// The number of statements that a transaction keeps prepared.
pub const N_CACHED_QUERIES: usize = 4;

pub const GET_QUERY: usize = 0;

pub const PUT_QUERY: usize = 1;

pub const DEL_QUERY: usize = 2;

pub const EXISTS_QUERY: usize = 3;

pub const RANGE_QUERY: usize = 4;

pub const SKIP_RANGE_QUERY: usize = 5;

/// The text of the statement `idx`.
pub open spec fn query_text(idx: usize) -> Seq<char> {
    if idx == GET_QUERY {
        "select v from cozo where k = ?;"@
    } else if idx == PUT_QUERY {
        "insert into cozo(k, v) values (?, ?) on conflict(k) do update set v=excluded.v;"@
    } else if idx == DEL_QUERY {
        "delete from cozo where k = ?;"@
    } else if idx == EXISTS_QUERY {
        "select 1 from cozo where k = ?;"@
    } else if idx == RANGE_QUERY {
        "select k, v from cozo where k >= ? and k < ? order by k;"@
    } else {
        "select k, v from cozo where k >= ? and k < ? order by k limit 1;"@
    }
}

/// The text of the statement `idx`.
pub fn query(idx: usize) -> (r: &'static str)
    requires
        idx < N_QUERIES,
    ensures
        r@ == query_text(idx),
{
    if idx == GET_QUERY {
        "select v from cozo where k = ?;"
    } else if idx == PUT_QUERY {
        "insert into cozo(k, v) values (?, ?) on conflict(k) do update set v=excluded.v;"
    } else if idx == DEL_QUERY {
        "delete from cozo where k = ?;"
    } else if idx == EXISTS_QUERY {
        "select 1 from cozo where k = ?;"
    } else if idx == RANGE_QUERY {
        "select k, v from cozo where k >= ? and k < ? order by k;"
    } else {
        "select k, v from cozo where k >= ? and k < ? order by k limit 1;"
    }
}

impl SqliteStorage {
    /// The engine for the database under `path`. An empty path is
    /// refused.
    pub fn new(path: String) -> (r: Result<SqliteStorage, StorageError>)
        ensures
            path@.len() == 0 ==> r == Err::<SqliteStorage, StorageError>(StorageError::EmptyPath),
            path@.len() != 0 ==> (r matches Ok(s) && s.name == path),
    {
        if path.as_str().is_empty() {
            Err(StorageError::EmptyPath)
        } else {
            Ok(SqliteStorage { name: path })
        }
    }

    /// The name of the kind of storage.
    pub fn storage_kind(&self) -> (r: &'static str)
        ensures
            r@ == "sqlite"@,
    {
        "sqlite"
    }
}

/// The options of a database: `{}` where none are given.
pub fn effective_options<'a>(options: &'a str) -> (r: &'a str)
    ensures
        r@ == (if options@.len() == 0 {
            "{}"@
        } else {
            options@
        }),
{
    if options.is_empty() {
        "{}"
    } else {
        options
    }
}

/// What a transaction knows of itself: whether it writes, and whether it
/// has been committed.
#[derive(Clone, Copy, Debug, PartialEq, Eq, Structural)]
pub struct TxState {
    pub write: bool,
    pub committed: bool,
}

impl TxState {
    /// A transaction that has just begun. A writing transaction begins
    /// with a statement of its own; the result says whether to run it.
    pub fn begin(write: bool) -> (r: (TxState, bool))
        ensures
            r.0 == (TxState { write, committed: false }),
            r.1 == write,
    {
        (TxState { write, committed: false }, write)
    }

    /// Commits. A writing transaction runs the commit statement once and
    /// refuses a second commit; a reading transaction has nothing to run.
    /// The result says whether to run the statement.
    pub fn commit(&mut self) -> (r: Result<bool, StorageError>)
        ensures
            final(self).write == old(self).write,
            old(self).write && !old(self).committed ==> r == Ok::<bool, StorageError>(true)
                && final(self).committed,
            old(self).write && old(self).committed ==> r == Err::<bool, StorageError>(
                StorageError::MultipleCommits,
            ) && final(self).committed,
            !old(self).write ==> r == Ok::<bool, StorageError>(false) && final(self).committed
                == old(self).committed,
    {
        if self.write {
            if !self.committed {
                self.committed = true;
                Ok(true)
            } else {
                Err(StorageError::MultipleCommits)
            }
        } else {
            Ok(false)
        }
    }

    /// Whether a transaction that ends now is rolled back: a writing one
    /// that was not committed.
    pub fn needs_rollback(&self) -> (r: bool)
        ensures
            r == (self.write && !self.committed),
    {
        self.write && !self.committed
    }
}

} // verus!
