use db_migrate::codec::calculate_checksum;
use db_migrate::config::Config;
use db_migrate::engine::{
    pending_migrations, reset_migrations, verify_migrations, ApplyAction, ApplyRun,
    RollbackAction, RollbackRun,
};
use db_migrate::ledger::Ledger;
use db_migrate::scan::{collect_migration_files, ScannedFile};
use db_migrate::{IntegrityIssue, MigrationError, MigrationFile, MigrationRecord};

fn entry(name: &str, content: &str) -> ScannedFile {
    ScannedFile {
        name: name.to_string(),
        path: format!("migrations/{}", name),
        content: content.to_string(),
    }
}

const ADD_USERS: &str =
    "-- +migrate Up\nCREATE TABLE users (id UUID PRIMARY KEY);\n\n-- +migrate Down\nDROP TABLE users;\n";

#[test]
fn test_scan_skips_invalid_names_and_sorts() {
    let entries = vec![
        entry("20250116_002_later.cql", "-- UP\nCREATE TABLE b (x INT);\n"),
        entry("not_a_migration.cql", "whatever"),
        entry("20250115_001_add_users.cql", ADD_USERS),
        entry("README.md", "notes"),
    ];
    let files = collect_migration_files(&entries);
    assert_eq!(files.len(), 2);
    assert_eq!(files[0].version, "20250115_001_add_users");
    assert_eq!(files[1].version, "20250116_002_later");
    assert_eq!(files[0].description, "add users");
    assert_eq!(files[0].checksum, calculate_checksum(ADD_USERS));
    assert_eq!(files[0].file_path, "migrations/20250115_001_add_users.cql");
}

#[test]
fn test_apply_and_rollback_scenario() {
    // P7: one pending file, apply it, then roll it back.
    let entries = vec![entry("20250115_001_add_users.cql", ADD_USERS)];
    let files = collect_migration_files(&entries);
    let mut ledger = Ledger::new();

    let pending = pending_migrations(&files, &ledger);
    assert_eq!(pending.len(), 1);
    assert_eq!(pending[0].version, "20250115_001_add_users");

    let mut run = ApplyRun::new(pending, None);
    let mut executed: Vec<String> = Vec::new();
    loop {
        match run.next_action(&ledger) {
            ApplyAction::Execute { version, statements } => {
                assert_eq!(version, "20250115_001_add_users");
                for s in &statements {
                    executed.push(s.clone());
                }
                run.record_success(&mut ledger, 1_736_899_200_000).unwrap();
            }
            ApplyAction::Done => break,
        }
    }
    assert_eq!(executed, vec!["CREATE TABLE users (id UUID PRIMARY KEY)".to_string()]);
    let report = run.into_report();
    assert_eq!(report.applied_count, 1);
    assert!(report.failure.is_none());
    assert_eq!(ledger.list().len(), 1);
    assert_eq!(ledger.list()[0].version, "20250115_001_add_users");
    assert_eq!(ledger.list()[0].checksum.len(), 64);
    assert_eq!(ledger.list()[0].applied_at, 1_736_899_200_000);

    let mut rb = RollbackRun::new(&ledger, 1, false);
    let mut rolled: Vec<String> = Vec::new();
    loop {
        match rb.next_action(&files, &ledger) {
            RollbackAction::ExecuteDown { version, statements } => {
                assert_eq!(version, "20250115_001_add_users");
                for s in &statements {
                    rolled.push(s.clone());
                }
                rb.record_rolled_back(&mut ledger);
            }
            RollbackAction::RemoveRecordOnly { .. } => panic!("force path taken"),
            RollbackAction::Done => break,
        }
    }
    assert_eq!(rolled, vec!["DROP TABLE users".to_string()]);
    let report = rb.into_report();
    assert_eq!(report.rolled_back_count, 1);
    assert!(report.failure.is_none());
    assert_eq!(ledger.list().len(), 0);
}

#[test]
fn test_apply_twice_is_idempotent() {
    // P4: after a full apply, the pending set is empty and a second run
    // performs zero mutations.
    let entries = vec![
        entry("20250115_001_a.cql", "-- UP\nCREATE TABLE a (x INT);\n"),
        entry("20250115_002_b.cql", "-- UP\nCREATE TABLE b (x INT);\n"),
    ];
    let files = collect_migration_files(&entries);
    let mut ledger = Ledger::new();
    let mut run = ApplyRun::new(pending_migrations(&files, &ledger), None);
    loop {
        match run.next_action(&ledger) {
            ApplyAction::Execute { .. } => {
                run.record_success(&mut ledger, 1).unwrap();
            }
            ApplyAction::Done => break,
        }
    }
    assert_eq!(run.into_report().applied_count, 2);

    let pending_again = pending_migrations(&files, &ledger);
    assert_eq!(pending_again.len(), 0);
    let ledger_len_before = ledger.list().len();
    let mut second = ApplyRun::new(pending_again, None);
    match second.next_action(&ledger) {
        ApplyAction::Done => {}
        _ => panic!("second run had work"),
    }
    let report = second.into_report();
    assert_eq!(report.applied_count, 0);
    assert!(report.failure.is_none());
    assert_eq!(ledger.list().len(), ledger_len_before);
}

#[test]
fn test_apply_batch_fails_fast() {
    // P5: the second of three candidates fails; the first is recorded,
    // the third is never attempted.
    let entries = vec![
        entry("20250115_001_a.cql", "-- UP\nCREATE TABLE a (x INT);\n"),
        entry("20250115_002_bad.cql", "-- just a comment, no statements\n"),
        entry("20250115_003_c.cql", "-- UP\nCREATE TABLE c (x INT);\n"),
    ];
    let files = collect_migration_files(&entries);
    let mut ledger = Ledger::new();
    let mut run = ApplyRun::new(pending_migrations(&files, &ledger), None);
    let mut executed: Vec<String> = Vec::new();
    loop {
        match run.next_action(&ledger) {
            ApplyAction::Execute { version, statements } => {
                for s in &statements {
                    executed.push(format!("{}: {}", version, s));
                }
                run.record_success(&mut ledger, 2).unwrap();
            }
            ApplyAction::Done => break,
        }
    }
    let report = run.into_report();
    assert_eq!(report.applied_count, 1);
    assert_eq!(report.applied_versions, vec!["20250115_001_a".to_string()]);
    let failure = report.failure.expect("batch must stop");
    assert_eq!(failure.version, "20250115_002_bad");
    assert!(matches!(failure.error, MigrationError::InvalidFormat(_)));
    assert_eq!(executed.len(), 1);
    assert!(ledger.is_applied("20250115_001_a"));
    assert!(!ledger.is_applied("20250115_002_bad"));
    assert!(!ledger.is_applied("20250115_003_c"));
}

#[test]
fn test_apply_respects_count_limit() {
    let entries = vec![
        entry("20250115_001_a.cql", "-- UP\nCREATE TABLE a (x INT);\n"),
        entry("20250115_002_b.cql", "-- UP\nCREATE TABLE b (x INT);\n"),
    ];
    let files = collect_migration_files(&entries);
    let mut ledger = Ledger::new();
    let mut run = ApplyRun::new(pending_migrations(&files, &ledger), Some(1));
    loop {
        match run.next_action(&ledger) {
            ApplyAction::Execute { .. } => run.record_success(&mut ledger, 3).unwrap(),
            ApplyAction::Done => break,
        }
    }
    assert_eq!(run.into_report().applied_count, 1);
    assert!(ledger.is_applied("20250115_001_a"));
    assert!(!ledger.is_applied("20250115_002_b"));
}

#[test]
fn test_verify_reports_checksum_mismatch_and_repair_clears_it() {
    // P8: the file is edited after apply; verification finds exactly one
    // mismatch; repair updates the ledger and a second pass is clean.
    let entries = vec![entry("20250115_001_add_users.cql", ADD_USERS)];
    let files = collect_migration_files(&entries);
    let mut ledger = Ledger::new();
    let mut run = ApplyRun::new(pending_migrations(&files, &ledger), None);
    loop {
        match run.next_action(&ledger) {
            ApplyAction::Execute { .. } => run.record_success(&mut ledger, 4).unwrap(),
            ApplyAction::Done => break,
        }
    }

    let edited = "-- +migrate Up\nCREATE TABLE users (id UUID PRIMARY KEY, name TEXT);\n";
    let edited_entries = vec![entry("20250115_001_add_users.cql", edited)];
    let edited_files = collect_migration_files(&edited_entries);

    let issues = verify_migrations(&ledger, &edited_files);
    assert_eq!(issues.len(), 1);
    match &issues[0] {
        IntegrityIssue::ChecksumMismatch { version, expected, actual } => {
            assert_eq!(version.as_str(), "20250115_001_add_users");
            assert_eq!(expected, &calculate_checksum(ADD_USERS));
            assert_eq!(actual, &calculate_checksum(edited));
            ledger.update_checksum(version, actual);
        }
        IntegrityIssue::MissingFile { .. } => panic!("expected a mismatch"),
    }
    assert_eq!(verify_migrations(&ledger, &edited_files).len(), 0);
}

#[test]
fn test_verify_reports_missing_file_and_force_rollback_removes_record() {
    // P9: the applied migration's file is gone; verification finds one
    // missing file; rollback fails without force and removes the bare
    // record with force, executing nothing.
    let entries = vec![entry("20250115_001_add_users.cql", ADD_USERS)];
    let files = collect_migration_files(&entries);
    let mut ledger = Ledger::new();
    let mut run = ApplyRun::new(pending_migrations(&files, &ledger), None);
    loop {
        match run.next_action(&ledger) {
            ApplyAction::Execute { .. } => run.record_success(&mut ledger, 5).unwrap(),
            ApplyAction::Done => break,
        }
    }

    let no_files: Vec<MigrationFile> = Vec::new();
    let issues = verify_migrations(&ledger, &no_files);
    assert_eq!(issues.len(), 1);
    match &issues[0] {
        IntegrityIssue::MissingFile { version } => {
            assert_eq!(version.as_str(), "20250115_001_add_users");
        }
        IntegrityIssue::ChecksumMismatch { .. } => panic!("expected a missing file"),
    }

    let mut rb = RollbackRun::new(&ledger, 1, false);
    match rb.next_action(&no_files, &ledger) {
        RollbackAction::Done => {}
        _ => panic!("rollback without force must fail"),
    }
    let report = rb.into_report();
    assert_eq!(report.rolled_back_count, 0);
    let failure = report.failure.expect("must fail");
    assert!(matches!(failure.error, MigrationError::MigrationNotFound(_)));
    assert_eq!(ledger.list().len(), 1);

    let mut forced = RollbackRun::new(&ledger, 1, true);
    let mut statements_executed = 0;
    loop {
        match forced.next_action(&no_files, &ledger) {
            RollbackAction::RemoveRecordOnly { version } => {
                assert_eq!(version, "20250115_001_add_users");
                forced.record_rolled_back(&mut ledger);
            }
            RollbackAction::ExecuteDown { .. } => {
                statements_executed += 1;
                forced.record_rolled_back(&mut ledger);
            }
            RollbackAction::Done => break,
        }
    }
    assert_eq!(statements_executed, 0);
    assert_eq!(forced.into_report().rolled_back_count, 1);
    assert_eq!(ledger.list().len(), 0);
}

#[test]
fn test_rollback_blocked_without_down_section() {
    let content = "-- +migrate Up\nCREATE TABLE a (x INT);\n";
    let entries = vec![entry("20250115_001_a.cql", content)];
    let files = collect_migration_files(&entries);
    let mut ledger = Ledger::new();
    let mut run = ApplyRun::new(pending_migrations(&files, &ledger), None);
    loop {
        match run.next_action(&ledger) {
            ApplyAction::Execute { .. } => run.record_success(&mut ledger, 6).unwrap(),
            ApplyAction::Done => break,
        }
    }
    let mut rb = RollbackRun::new(&ledger, 1, false);
    match rb.next_action(&files, &ledger) {
        RollbackAction::Done => {}
        _ => panic!("rollback must be blocked"),
    }
    let failure = rb.into_report().failure.expect("must fail");
    match failure.error {
        MigrationError::RollbackError { version, reason } => {
            assert_eq!(version, "20250115_001_a");
            assert_eq!(reason, "No DOWN section found in migration");
        }
        _ => panic!("expected a rollback error"),
    }
    assert_eq!(ledger.list().len(), 1);
}

#[test]
fn test_rollback_order_is_most_recent_first() {
    let entries = vec![
        entry("20250115_001_a.cql", "-- UP\nCREATE TABLE a (x INT);\n-- DOWN\nDROP TABLE a;\n"),
        entry("20250115_002_b.cql", "-- UP\nCREATE TABLE b (x INT);\n-- DOWN\nDROP TABLE b;\n"),
    ];
    let files = collect_migration_files(&entries);
    let mut ledger = Ledger::new();
    let mut run = ApplyRun::new(pending_migrations(&files, &ledger), None);
    loop {
        match run.next_action(&ledger) {
            ApplyAction::Execute { .. } => run.record_success(&mut ledger, 7).unwrap(),
            ApplyAction::Done => break,
        }
    }
    let mut rb = RollbackRun::new(&ledger, 2, false);
    let mut order: Vec<String> = Vec::new();
    loop {
        match rb.next_action(&files, &ledger) {
            RollbackAction::ExecuteDown { version, .. } => {
                order.push(version);
                rb.record_rolled_back(&mut ledger);
            }
            RollbackAction::RemoveRecordOnly { .. } => panic!("force path taken"),
            RollbackAction::Done => break,
        }
    }
    assert_eq!(order, vec!["20250115_002_b".to_string(), "20250115_001_a".to_string()]);
}

#[test]
fn test_apply_already_applied_version_fails() {
    let entries = vec![entry("20250115_001_a.cql", "-- UP\nCREATE TABLE a (x INT);\n")];
    let files = collect_migration_files(&entries);
    let mut ledger = Ledger::new();
    ledger
        .append(MigrationRecord {
            version: "20250115_001_a".to_string(),
            applied_at: 8,
            checksum: "irrelevant".to_string(),
            description: "a".to_string(),
        })
        .unwrap();
    // hand the full file list as candidates, skipping the pending diff
    let mut run = ApplyRun::new(files, None);
    match run.next_action(&ledger) {
        ApplyAction::Done => {}
        _ => panic!("must refuse an applied version"),
    }
    let failure = run.into_report().failure.expect("must fail");
    assert!(matches!(failure.error, MigrationError::AlreadyApplied { .. }));
}

#[test]
fn test_reset_is_gated_by_destructive_flag() {
    let mut ledger = Ledger::new();
    ledger
        .append(MigrationRecord {
            version: "20250115_001_a".to_string(),
            applied_at: 9,
            checksum: "c".to_string(),
            description: "a".to_string(),
        })
        .unwrap();
    let denied = reset_migrations(false, &mut ledger);
    assert!(matches!(denied, Err(MigrationError::ConfigError(_))));
    assert_eq!(ledger.list().len(), 1);
    reset_migrations(true, &mut ledger).unwrap();
    assert_eq!(ledger.list().len(), 0);
}

#[test]
fn test_ledger_append_refuses_duplicates_and_sorts() {
    let mut ledger = Ledger::new();
    let rec = |v: &str| MigrationRecord {
        version: v.to_string(),
        applied_at: 10,
        checksum: "c".to_string(),
        description: "d".to_string(),
    };
    ledger.append(rec("20250115_002_b")).unwrap();
    ledger.append(rec("20250115_001_a")).unwrap();
    ledger.append(rec("20250115_003_c")).unwrap();
    let dup = ledger.append(rec("20250115_002_b"));
    match dup {
        Err(MigrationError::AlreadyApplied { version }) => {
            assert_eq!(version, "20250115_002_b");
        }
        _ => panic!("duplicate must be refused"),
    }
    let versions: Vec<&str> = ledger.list().iter().map(|r| r.version.as_str()).collect();
    assert_eq!(versions, vec!["20250115_001_a", "20250115_002_b", "20250115_003_c"]);
    assert!(ledger.is_applied("20250115_001_a"));
    ledger.remove("20250115_002_b");
    assert!(!ledger.is_applied("20250115_002_b"));
    assert_eq!(ledger.len(), 2);
}

#[test]
fn test_config_defaults_and_validation() {
    let config = Config::default();
    assert_eq!(config.database.keyspace, "migrations_test");
    assert_eq!(config.database.port, 9042);
    assert_eq!(config.migrations.table_name, "schema_migrations");
    assert!(!config.behavior.allow_destructive);
    assert!(config.validate().is_ok());
    assert_eq!(config.connection_uri(), "127.0.0.1:9042");

    let mut bad = Config::default();
    bad.database.keyspace = String::new();
    assert!(matches!(bad.validate(), Err(MigrationError::ConfigError(_))));

    let mut two_hosts = Config::default();
    two_hosts.database.hosts.push("10.0.0.2".to_string());
    assert_eq!(two_hosts.connection_uri(), "127.0.0.1,10.0.0.2:9042");
}
