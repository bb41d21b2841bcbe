use kitt_memory::database::{
    check_legacy_source, database_file_step, file_found, plan_migration, FileFound, FileStep,
    Migration, STORE_SCHEMA_VERSION,
};

#[test]
fn findings_are_told_apart() {
    assert_eq!(file_found(true, true), FileFound::Symlink);
    assert_eq!(file_found(true, false), FileFound::Symlink);
    assert_eq!(file_found(false, true), FileFound::Regular);
    assert_eq!(file_found(false, false), FileFound::Other);
}

#[test]
fn symlinks_and_directories_are_refused() {
    assert_eq!(database_file_step(FileFound::Nothing, "/m.db").unwrap(), FileStep::Create);
    assert_eq!(database_file_step(FileFound::Regular, "/m.db").unwrap(), FileStep::Restrict);
    assert_eq!(
        database_file_step(FileFound::Symlink, "/m.db").unwrap_err().message(),
        "storage error: memory database must not be a symlink: /m.db"
    );
    assert_eq!(
        database_file_step(FileFound::Other, "/m.db").unwrap_err().message(),
        "storage error: memory database must be a regular file: /m.db"
    );
}

#[test]
fn legacy_sources_are_regular_files() {
    assert!(check_legacy_source(FileFound::Regular, "/l.db").is_ok());
    for found in [FileFound::Symlink, FileFound::Other, FileFound::Nothing] {
        assert_eq!(
            check_legacy_source(found, "/l.db").unwrap_err().message(),
            "storage error: legacy memory source must be a regular non-symlink file: /l.db"
        );
    }
}

#[test]
fn older_schemas_are_migrated_once() {
    let outdated = Migration { add_valid_from: true, rebuild_search: true, version: 3 };
    assert_eq!(plan_migration(Some(2), false), outdated);
    assert_eq!(plan_migration(None, false), outdated);
    let current =
        Migration { add_valid_from: false, rebuild_search: false, version: STORE_SCHEMA_VERSION };
    assert_eq!(plan_migration(Some(outdated.version), true), current);
    assert_eq!(plan_migration(Some(9), true).version, 9);
}
