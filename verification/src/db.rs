//! What the configuration database holds, and the files that it is kept in.

use crate::text;
use vstd::prelude::*;

verus! {

/// A project that is to be registered.
#[derive(Debug, Clone)]
pub struct NewProjectRecord {
    pub id: String,
    pub name: String,
    pub relative_path: String,
    pub source: String,
}

/// A registered project.
#[derive(Debug, Clone)]
pub struct ProjectRecord {
    pub id: String,
    pub name: String,
    pub relative_path: String,
    pub source: String,
    pub created_at: String,
    pub updated_at: String,
}

/// How far the server is set up.
#[derive(Debug, Clone, Copy, PartialEq, Eq, Structural)]
pub struct SetupState {
    pub owner_configured: bool,
}

impl SetupState {
    /// The state of a server with the given number of owners.
    pub fn of_owner_count(count: i64) -> (r: SetupState)
        ensures
            r.owner_configured == (count > 0),
    {
        SetupState { owner_configured: count > 0 }
    }

    /// Whether an owner must still be set up.
    pub fn setup_required(&self) -> (r: bool)
        ensures
            r == !self.owner_configured,
    {
        !self.owner_configured
    }
}

/// Whether a count of rows says that there is one.
pub fn any_row(count: i64) -> (r: bool)
    ensures
        r == (count > 0),
{
    count > 0
}

/// The path of a file that stands beside the database.
pub fn sqlite_sidecar_path(db_path: &str, suffix: &str) -> (r: String)
    ensures
        r@ == db_path@ + suffix@,
{
    let mut out = db_path.to_string();
    out.append(suffix);
    out
}

/// The paths of the files that a database is kept in: the database, its log and its index of the
/// log.
pub fn sqlite_file_set(db_path: &str) -> (r: Vec<String>)
    ensures
        text::strings(r@) == seq![db_path@, db_path@ + "-wal"@, db_path@ + "-shm"@],
{
    let mut out: Vec<String> = Vec::new();
    out.push(db_path.to_string());
    out.push(sqlite_sidecar_path(db_path, "-wal"));
    out.push(sqlite_sidecar_path(db_path, "-shm"));
    assert(text::strings(out@) =~= seq![db_path@, db_path@ + "-wal"@, db_path@ + "-shm"@]);
    out
}

/// Refuses a file of the database that is a symlink. A file that is not there is accepted.
pub fn check_database_file(path: &str, is_symlink: bool) -> (r: Result<(), String>)
    ensures
        match r {
            Ok(_) => !is_symlink,
            Err(message) => is_symlink && message@ == "config database "@ + path@
                + " must not be a symlink"@,
        },
{
    if is_symlink {
        let mut message = "config database ".to_string();
        message.append(path);
        message.append(" must not be a symlink");
        Err(message)
    } else {
        Ok(())
    }
}

} // verus!
