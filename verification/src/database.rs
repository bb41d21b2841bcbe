use vstd::prelude::*;

use crate::error::{fails, storage, Result};

verus! {

/// What stands where a database file is expected.
#[derive(Debug, Clone, Copy, PartialEq, Eq, Structural)]
pub enum FileFound {
    Nothing,
    Symlink,
    Regular,
    Other,
}

/// How the database file is made ready.
#[derive(Debug, Clone, Copy, PartialEq, Eq, Structural)]
pub enum FileStep {
    /// Create it, readable and writable by its owner only.
    Create,
    /// Take all rights away but those of its owner.
    Restrict,
}

/// What was found, told by whether it is a symbolic link and whether it is a regular file.
pub fn file_found(is_symlink: bool, is_file: bool) -> (r: FileFound)
    ensures
        r == (if is_symlink {
            FileFound::Symlink
        } else if is_file {
            FileFound::Regular
        } else {
            FileFound::Other
        }),
{
    if is_symlink {
        FileFound::Symlink
    } else if is_file {
        FileFound::Regular
    } else {
        FileFound::Other
    }
}

/// Decides how the database file is made ready; symbolic links are never followed.
pub fn database_file_step(found: FileFound, path: &str) -> (r: Result<FileStep>)
    ensures
        match found {
            FileFound::Nothing => r matches Ok(step) && step == FileStep::Create,
            FileFound::Regular => r matches Ok(step) && step == FileStep::Restrict,
            FileFound::Symlink => fails(r, "memory database must not be a symlink: "@ + path@),
            FileFound::Other => fails(r, "memory database must be a regular file: "@ + path@),
        },
{
    match found {
        FileFound::Nothing => Ok(FileStep::Create),
        FileFound::Regular => Ok(FileStep::Restrict),
        FileFound::Symlink => Err(
            storage("memory database must not be a symlink: ".to_owned().concat(path)),
        ),
        FileFound::Other => Err(
            storage("memory database must be a regular file: ".to_owned().concat(path)),
        ),
    }
}

/// Decides whether a legacy database may be read.
pub fn check_legacy_source(found: FileFound, path: &str) -> (r: Result<()>)
    ensures
        found == FileFound::Regular <==> r is Ok,
        found != FileFound::Regular ==> fails(
            r,
            "legacy memory source must be a regular non-symlink file: "@ + path@,
        ),
{
    if found == FileFound::Regular {
        Ok(())
    } else {
        Err(
            storage(
                "legacy memory source must be a regular non-symlink file: ".to_owned().concat(path),
            ),
        )
    }
}

/// The version of the schema that this library reads and writes.
pub const STORE_SCHEMA_VERSION: i64 = 3;

/// How a stored schema is brought up to date.
#[derive(Debug, Clone, Copy, PartialEq, Eq, Structural)]
pub struct Migration {
    /// Add the start of validity, taken from the time of creation.
    pub add_valid_from: bool,
    /// Build the full-text indexes anew.
    pub rebuild_search: bool,
    /// The version that is recorded afterwards.
    pub version: i64,
}

/// The steps from a recorded version; a store that records none counts as the first.
pub open spec fn migration_from(version: Option<i64>, has_valid_from: bool) -> Migration {
    let current = match version {
        Some(v) => v,
        None => 1,
    };
    Migration {
        add_valid_from: !has_valid_from,
        rebuild_search: current < STORE_SCHEMA_VERSION,
        version: if current < STORE_SCHEMA_VERSION {
            STORE_SCHEMA_VERSION
        } else {
            current
        },
    }
}

/// Plans the steps from a recorded version.
pub fn plan_migration(version: Option<i64>, has_valid_from: bool) -> (r: Migration)
    ensures
        r == migration_from(version, has_valid_from),
{
    let current: i64 = match version {
        Some(v) => v,
        None => 1,
    };
    let outdated = current < STORE_SCHEMA_VERSION;
    Migration {
        add_valid_from: !has_valid_from,
        rebuild_search: outdated,
        version: if outdated {
            STORE_SCHEMA_VERSION
        } else {
            current
        },
    }
}

/// Migrating is done once: afterwards there is nothing left to do, and no version is ever
/// lowered.
pub proof fn migration_is_final(version: Option<i64>, has_valid_from: bool)
    ensures
        ({
            let done = migration_from(version, has_valid_from);
            let again = migration_from(Some(done.version), true);
            &&& !again.add_valid_from && !again.rebuild_search
            &&& again.version == done.version
            &&& done.version >= STORE_SCHEMA_VERSION
            &&& version matches Some(v) ==> done.version >= v
        }),
{
}

/// A database is opened only where nothing or a regular file stands in its place: the file is made, or
/// kept to its owner. A symbolic link is told from a file before all else.
pub proof fn only_regular_files_are_opened(
    is_symlink: bool,
    is_file: bool,
    path: &str,
    found: FileFound,
    r: Result<FileStep>,
    legacy: Result<()>,
)
    requires
        call_ensures(file_found, (is_symlink, is_file), found),
        call_ensures(database_file_step, (found, path), r),
        call_ensures(check_legacy_source, (found, path), legacy),
    ensures
        r is Ok <==> !is_symlink && is_file,
        r matches Ok(step) ==> step == FileStep::Restrict,
        legacy is Ok <==> !is_symlink && is_file,
{
}

/// A missing database file is made for its owner only; a missing legacy database is no source.
pub proof fn missing_files_are_made(path: &str, r: Result<FileStep>, legacy: Result<()>)
    requires
        call_ensures(database_file_step, (FileFound::Nothing, path), r),
        call_ensures(check_legacy_source, (FileFound::Nothing, path), legacy),
    ensures
        r is Ok,
        r->Ok_0 == FileStep::Create,
        legacy is Err,
{
}

/// The start of validity is added exactly where it is missing. The indexes are built anew exactly where
/// the recorded version is below three or none is recorded; a higher version stays.
pub proof fn migrations_bring_what_is_missing(version: Option<i64>, has_valid_from: bool)
    ensures
        ({
            let m = migration_from(version, has_valid_from);
            &&& m.add_valid_from <==> !has_valid_from
            &&& version is None ==> m.rebuild_search && m.version == 3
            &&& version matches Some(v) ==> (m.rebuild_search <==> v < 3) && (v <= 3 ==> m.version
                == 3) && (v > 3 ==> m.version == v)
        }),
{
}

} // verus!
