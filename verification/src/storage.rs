//! Where the database lives, what the health report says of it, and which
//! migration errors are the expected no-op of re-running a migration.

use vstd::prelude::*;
use crate::profile::{find, find_spec};
use crate::scan::{path_join, path_join_spec};
use crate::text::chars_of;

verus! {

/// The data directory: the override when it is set and not empty, else
/// `<home>/Library/Application Support/BeatCrate`.
pub open spec fn data_dir_spec(override_dir: Option<Seq<char>>, home: Seq<char>) -> Seq<char> {
    match override_dir {
        Some(d) => if d.len() > 0 {
            d
        } else {
            default_data_dir(home)
        },
        None => default_data_dir(home),
    }
}

pub open spec fn default_data_dir(home: Seq<char>) -> Seq<char> {
    path_join_spec(path_join_spec(path_join_spec(home, "Library"@), "Application Support"@), "BeatCrate"@)
}

/// Resolve the data directory from the override setting and the home
/// directory.
pub fn data_dir(override_dir: Option<&str>, home: &str) -> (r: String)
    ensures
        r@ == data_dir_spec(
            match override_dir {
                Some(d) => Some(d@),
                None => None,
            },
            home@,
        ),
{
    if let Some(d) = override_dir {
        if !d.is_empty() {
            return String::from_str(d);
        }
    }
    let a = path_join(home, "Library");
    let b = path_join(a.as_str(), "Application Support");
    path_join(b.as_str(), "BeatCrate")
}

/// The database file inside the data directory.
pub fn db_path(data_dir: &str) -> (r: String)
    ensures
        r@ == path_join_spec(data_dir@, "beatcrate.db"@),
{
    path_join(data_dir, "beatcrate.db")
}

/// The database smoke test's report: where the database is, and how many
/// crates and tracks it holds.
pub struct DbHealth {
    pub db_path: String,
    pub crates: i64,
    pub tracks: i64,
}

impl DbHealth {
    pub fn new(data_dir: &str, crates: i64, tracks: i64) -> (r: DbHealth)
        ensures
            r.db_path@ == path_join_spec(data_dir@, "beatcrate.db"@),
            r.crates == crates,
            r.tracks == tracks,
    {
        DbHealth { db_path: db_path(data_dir), crates, tracks }
    }
}

/// Re-running an idempotent migration fails with "duplicate column" or
/// "already exists"; any other failure is worth reporting.
pub open spec fn expected_migration_error_spec(msg: Seq<char>) -> bool {
    find_spec(msg, "duplicate column"@) >= 0 || find_spec(msg, "already exists"@) >= 0
}

pub fn is_expected_migration_error(msg: &str) -> (r: bool)
    ensures
        r == expected_migration_error_spec(msg@),
{
    let m = chars_of(msg);
    let a = chars_of("duplicate column");
    let b = chars_of("already exists");
    find(&m, &a).is_some() || find(&m, &b).is_some()
}

} // verus!
