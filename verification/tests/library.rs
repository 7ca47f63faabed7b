use sqlmig::files::{is_sql_file_name, sort_by_file_name};
use sqlmig::{
    checksum, parse_filename, AppliedMigration, BuildError, Direction, ParseError, PlanError,
    Registry,
};

fn fixture() -> Registry {
    Registry::build(&[
        ("0001_create_users.up.sql", "CREATE TABLE users (id INTEGER);"),
        ("0001_create_users.down.sql", "DROP TABLE users;"),
        ("0002_add_email.up.sql", "ALTER TABLE users ADD email TEXT;"),
        ("0002_add_email.down.sql", "ALTER TABLE users DROP email;"),
        ("0003_add_index.up.sql", "CREATE INDEX idx ON users (email);"),
    ])
    .expect("fixture registry should build")
}

#[test]
fn checksum_matches_fnv1a_reference_values() {
    assert_eq!(checksum(""), 0xcbf29ce484222325);
    assert_eq!(checksum("a"), 0xaf63dc4c8601ec8c);
    assert_eq!(checksum("foobar"), 0x85944171f73967e8);
}

fn fnv1a_reference(bytes: &[u8]) -> u64 {
    let mut hash: u64 = 0xcbf29ce484222325;
    for b in bytes {
        hash ^= u64::from(*b);
        hash = hash.wrapping_mul(0x100000001b3);
    }
    hash
}

#[test]
fn checksum_hashes_utf8_bytes() {
    // "é" is the two bytes 0xc3 0xa9 in UTF-8, not the single byte 0xe9.
    assert_eq!(checksum("é"), fnv1a_reference(&[0xc3, 0xa9]));
    assert_ne!(checksum("é"), fnv1a_reference(&[0xe9]));
    assert_eq!(checksum("DROP TABLE users;"), fnv1a_reference(b"DROP TABLE users;"));
}

#[test]
fn leading_zeros_parse_alike() {
    let padded = parse_filename("0000042_seed.down.sql").unwrap();
    let bare = parse_filename("42_seed.down.sql").unwrap();
    assert_eq!(padded, bare);
    assert_eq!(bare.version, 42);
    assert_eq!(bare.direction, Direction::Down);
    assert_eq!(
        parse_filename("00_x.up.sql").unwrap_err(),
        ParseError::ZeroVersion
    );
}

#[test]
fn largest_version_parses_and_one_more_does_not() {
    let p = parse_filename("18446744073709551615_last.up.sql").unwrap();
    assert_eq!(p.version, u64::MAX);
    assert_eq!(p.name, "last");
    assert_eq!(
        parse_filename("18446744073709551616_last.up.sql").unwrap_err(),
        ParseError::InvalidVersion
    );
}

#[test]
fn parse_filename_edge_cases() {
    assert_eq!(parse_filename("a.b").unwrap_err(), ParseError::InvalidFormat);
    assert_eq!(parse_filename("x.up.txt").unwrap_err(), ParseError::InvalidExtension);
    assert_eq!(parse_filename("1_x.sideways.sql").unwrap_err(), ParseError::InvalidDirection);
    assert_eq!(parse_filename(".up.sql").unwrap_err(), ParseError::MissingName);
    assert_eq!(parse_filename("_x.up.sql").unwrap_err(), ParseError::InvalidVersion);
    assert_eq!(parse_filename("1_a.b.up.sql").unwrap_err(), ParseError::InvalidName);
    assert_eq!(parse_filename("1_café.up.sql").unwrap_err(), ParseError::InvalidName);
    assert_eq!(parse_filename("１_x.up.sql").unwrap_err(), ParseError::InvalidVersion);
    let p = parse_filename("7_Add_Index_2.up.sql").unwrap();
    assert_eq!(p.name, "Add_Index_2");
    assert_eq!(p.version, 7);
    let p = parse_filename("7_a_b.up.sql").unwrap();
    assert_eq!(p.name, "a_b");
}

#[test]
fn parse_error_messages() {
    assert_eq!(
        ParseError::InvalidFormat.message(),
        "filename must look like VERSION_NAME.up|down.sql"
    );
    assert_eq!(ParseError::InvalidExtension.message(), "filename must end in .sql");
    assert_eq!(
        ParseError::InvalidDirection.message(),
        "direction segment must be exactly \"up\" or \"down\""
    );
    assert_eq!(
        ParseError::MissingName.message(),
        "filename is missing a NAME segment after the version"
    );
    assert_eq!(
        ParseError::InvalidVersion.message(),
        "version segment must be a plain, in-range integer"
    );
    assert_eq!(
        ParseError::ZeroVersion.message(),
        "version 0 is reserved and cannot be used by a migration"
    );
    assert_eq!(
        ParseError::InvalidName.message(),
        "name segment must be ASCII letters, digits, or underscores"
    );
}

#[test]
fn build_error_messages() {
    let e = Registry::build(&[("nope.sql", "")]).unwrap_err();
    assert_eq!(
        e.message(),
        "nope.sql: filename must look like VERSION_NAME.up|down.sql"
    );
    let e = Registry::build(&[("0004_a.up.sql", ""), ("4_b.up.sql", "")]).unwrap_err();
    assert_eq!(
        e,
        BuildError::DuplicateUp {
            version: 4,
            first_name: "a".to_string(),
            second_name: "b".to_string(),
        }
    );
    assert_eq!(e.message(), "version 4 has two up files: \"a\" and \"b\"");
    let e = Registry::build(&[("6_a.down.sql", ""), ("6_a.down.sql", "")]).unwrap_err();
    assert_eq!(e.message(), "version 6 has two down files");
    let e = Registry::build(&[("7_a.down.sql", "")]).unwrap_err();
    assert_eq!(e.message(), "version 7 has a down file but no up file");
    let e = Registry::build(&[("8_add_a.up.sql", ""), ("8_remove_a.down.sql", "")]).unwrap_err();
    assert_eq!(
        e,
        BuildError::NameMismatch {
            version: 8,
            up_name: "add_a".to_string(),
            down_name: "remove_a".to_string(),
        }
    );
    assert_eq!(
        e.message(),
        "version 8 names disagree: up is \"add_a\", down is \"remove_a\""
    );
}

#[test]
fn plan_error_messages() {
    assert_eq!(
        PlanError::AppliedVersionNotInRegistry { version: 99 }.message(),
        "version 99 is recorded as applied but is not in the registry"
    );
    assert_eq!(
        PlanError::MissingDownSql { version: 3 }.message(),
        "version 3 has no down.sql, so it cannot be rolled back"
    );
    assert_eq!(
        PlanError::ChecksumMismatch { version: 1, recorded: 255, current: 0xabc }.message(),
        "version 1 was applied with checksum ff but the file on disk now checksums to abc"
    );
    assert_eq!(
        PlanError::ChecksumMismatch { version: 10, recorded: 0, current: u64::MAX }.message(),
        "version 10 was applied with checksum 0 but the file on disk now checksums to ffffffffffffffff"
    );
}

#[test]
fn build_ignores_file_order() {
    let forward = fixture();
    let shuffled = Registry::build(&[
        ("0003_add_index.up.sql", "CREATE INDEX idx ON users (email);"),
        ("0002_add_email.down.sql", "ALTER TABLE users DROP email;"),
        ("0001_create_users.down.sql", "DROP TABLE users;"),
        ("0002_add_email.up.sql", "ALTER TABLE users ADD email TEXT;"),
        ("0001_create_users.up.sql", "CREATE TABLE users (id INTEGER);"),
    ])
    .unwrap();
    assert_eq!(forward, shuffled);
}

#[test]
fn built_migrations_carry_checksums_of_their_bodies() {
    let reg = fixture();
    for m in &reg.migrations {
        assert_eq!(m.up_checksum, checksum(&m.up_sql));
        assert_eq!(m.down_checksum, m.down_sql.as_deref().map(checksum));
    }
    assert_eq!(reg.migrations[0].down_sql.as_deref(), Some("DROP TABLE users;"));
    assert!(reg.migrations[2].down_sql.is_none());
}

#[test]
fn build_stops_at_the_first_bad_file_in_input_order() {
    let e = Registry::build(&[
        ("1_a.up.sql", ""),
        ("1_a.up.sql", ""),
        ("bad", ""),
    ])
    .unwrap_err();
    assert!(matches!(e, BuildError::DuplicateUp { version: 1, .. }));
    let e = Registry::build(&[("bad", ""), ("1_a.up.sql", ""), ("1_a.up.sql", "")]).unwrap_err();
    assert_eq!(
        e,
        BuildError::Parse {
            file: "bad".to_string(),
            source: ParseError::InvalidFormat,
        }
    );
}

#[test]
fn build_reports_the_lowest_unsound_version() {
    let e = Registry::build(&[
        ("9_x.down.sql", ""),
        ("5_a.up.sql", ""),
        ("5_b.down.sql", ""),
    ])
    .unwrap_err();
    assert!(matches!(e, BuildError::NameMismatch { version: 5, .. }));
}

#[test]
fn get_finds_exactly_the_registered_versions() {
    let reg = fixture();
    assert_eq!(reg.get(3).unwrap().name, "add_index");
    assert!(reg.get(4).is_none());
    assert!(reg.get(u64::MAX).is_none());
}

#[test]
fn default_registry_is_empty() {
    let reg = Registry::default();
    assert!(reg.migrations.is_empty());
    assert!(reg.plan_apply(&[]).unwrap().pending.is_empty());
    assert_eq!(
        reg.plan_apply(&[1]),
        Err(PlanError::AppliedVersionNotInRegistry { version: 1 })
    );
}

#[test]
fn unknown_applied_versions_report_the_smallest() {
    let reg = fixture();
    assert_eq!(
        reg.plan_apply(&[99, 50, 1, 77]),
        Err(PlanError::AppliedVersionNotInRegistry { version: 50 })
    );
    assert_eq!(
        reg.plan_rollback(&[99, 50, 1, 77], 0),
        Err(PlanError::AppliedVersionNotInRegistry { version: 50 })
    );
}

#[test]
fn plan_apply_ignores_duplicate_applied_entries() {
    let reg = fixture();
    let plan = reg.plan_apply(&[2, 2, 2]).unwrap();
    let versions: Vec<u64> = plan.pending.iter().map(|m| m.version).collect();
    assert_eq!(versions, vec![1, 3]);
}

#[test]
fn rollback_to_zero_takes_every_applied_migration_newest_first() {
    let reg = Registry::build(&[
        ("1_a.up.sql", "a"),
        ("1_a.down.sql", "undo a"),
        ("2_b.up.sql", "b"),
        ("2_b.down.sql", "undo b"),
        ("3_c.up.sql", "c"),
        ("3_c.down.sql", "undo c"),
    ])
    .unwrap();
    let versions: Vec<u64> = reg
        .plan_rollback(&[3, 1, 2], 0)
        .unwrap()
        .iter()
        .map(|m| m.version)
        .collect();
    assert_eq!(versions, vec![3, 2, 1]);
    let versions: Vec<u64> = reg
        .plan_rollback(&[1, 3], 0)
        .unwrap()
        .iter()
        .map(|m| m.version)
        .collect();
    assert_eq!(versions, vec![3, 1]);
    assert!(reg.plan_rollback(&[1, 2, 3], 3).unwrap().is_empty());
}

#[test]
fn rollback_reports_the_newest_migration_without_down_sql() {
    let reg = Registry::build(&[("1_a.up.sql", "a"), ("2_b.up.sql", "b"), ("3_c.up.sql", "c")])
        .unwrap();
    assert_eq!(
        reg.plan_rollback(&[1, 2], 0),
        Err(PlanError::MissingDownSql { version: 2 })
    );
    assert_eq!(
        reg.plan_rollback(&[1, 2], 1),
        Err(PlanError::MissingDownSql { version: 2 })
    );
}

#[test]
fn own_records_do_not_drift() {
    let reg = fixture();
    let records: Vec<AppliedMigration> = reg
        .migrations
        .iter()
        .map(|m| AppliedMigration {
            version: m.version,
            up_checksum: m.up_checksum,
        })
        .collect();
    assert_eq!(reg.check_drift(&records), Ok(()));
    assert_eq!(reg.check_drift(&[]), Ok(()));
}

#[test]
fn check_drift_reports_unknown_versions_before_stale_checksums() {
    let reg = fixture();
    let good = reg.migrations[1].up_checksum;
    // An unknown version fails first, even after a stale record.
    let result = reg.check_drift(&[
        AppliedMigration { version: 2, up_checksum: good },
        AppliedMigration { version: 3, up_checksum: 7 },
        AppliedMigration { version: 99, up_checksum: 0 },
        AppliedMigration { version: 98, up_checksum: 0 },
    ]);
    assert_eq!(result, Err(PlanError::AppliedVersionNotInRegistry { version: 99 }));
    // With every version known, the first stale record is reported.
    let result = reg.check_drift(&[
        AppliedMigration { version: 2, up_checksum: good },
        AppliedMigration { version: 3, up_checksum: 7 },
        AppliedMigration { version: 1, up_checksum: 8 },
    ]);
    assert_eq!(
        result,
        Err(PlanError::ChecksumMismatch {
            version: 3,
            recorded: 7,
            current: reg.migrations[2].up_checksum,
        })
    );
}

#[test]
fn sql_file_names_are_recognised_by_extension_only() {
    assert!(is_sql_file_name("0001_create_users.up.sql"));
    assert!(is_sql_file_name("nope.sql"));
    assert!(is_sql_file_name(".sql"));
    assert!(!is_sql_file_name("sql"));
    assert!(!is_sql_file_name(".gitkeep"));
    assert!(!is_sql_file_name("0001_create_users.up.sql.swp"));
    assert!(!is_sql_file_name("0001_create_users.up.SQL"));
}

#[test]
fn sort_by_file_name_orders_pairs_by_name() {
    let pairs = vec![
        ("0002_add_email_index.up.sql".to_string(), "create index".to_string()),
        ("0001_create_users.up.sql".to_string(), "create table".to_string()),
        ("0001_create_users.down.sql".to_string(), "drop table".to_string()),
        ("Z.sql".to_string(), "upper".to_string()),
    ];
    let sorted = sort_by_file_name(pairs);
    let names: Vec<&str> = sorted.iter().map(|p| p.0.as_str()).collect();
    assert_eq!(
        names,
        vec![
            "0001_create_users.down.sql",
            "0001_create_users.up.sql",
            "0002_add_email_index.up.sql",
            "Z.sql",
        ]
    );
    assert_eq!(sorted[2].1, "create index");
    assert!(sort_by_file_name(Vec::new()).is_empty());
}

#[test]
fn sort_by_file_name_matches_string_order() {
    let names = ["b", "a", "ab", "é", "z", "", "a0", "A"];
    let pairs: Vec<(String, String)> = names
        .iter()
        .map(|n| (n.to_string(), String::new()))
        .collect();
    let mut expected: Vec<String> = names.iter().map(|n| n.to_string()).collect();
    expected.sort();
    let sorted: Vec<String> = sort_by_file_name(pairs).into_iter().map(|p| p.0).collect();
    assert_eq!(sorted, expected);
}

#[test]
fn sort_by_file_name_keeps_equal_names_in_input_order() {
    let pairs = vec![
        ("b".to_string(), "1".to_string()),
        ("a".to_string(), "2".to_string()),
        ("b".to_string(), "3".to_string()),
    ];
    let sorted = sort_by_file_name(pairs);
    let contents: Vec<&str> = sorted.iter().map(|p| p.1.as_str()).collect();
    assert_eq!(contents, vec!["2", "1", "3"]);
}

#[test]
fn applying_the_pending_migrations_leaves_nothing_pending() {
    let reg = fixture();
    let applied = vec![2u64];
    let plan = reg.plan_apply(&applied).unwrap();
    let mut after = applied.clone();
    after.extend(plan.pending.iter().map(|m| m.version));
    assert!(reg.plan_apply(&after).unwrap().pending.is_empty());
}

#[test]
fn rolling_back_then_planning_again() {
    let reg = Registry::build(&[
        ("1_a.up.sql", "a"),
        ("1_a.down.sql", "undo a"),
        ("2_b.up.sql", "b"),
        ("2_b.down.sql", "undo b"),
        ("3_c.up.sql", "c"),
        ("3_c.down.sql", "undo c"),
    ])
    .unwrap();
    let applied = vec![1u64, 2, 3];
    let rolled: Vec<u64> = reg
        .plan_rollback(&applied, 1)
        .unwrap()
        .iter()
        .map(|m| m.version)
        .collect();
    assert_eq!(rolled, vec![3, 2]);
    let remaining: Vec<u64> = applied.iter().copied().filter(|v| !rolled.contains(v)).collect();
    assert!(reg.plan_rollback(&remaining, 1).unwrap().is_empty());
    let pending: Vec<u64> = reg
        .plan_apply(&remaining)
        .unwrap()
        .pending
        .iter()
        .map(|m| m.version)
        .collect();
    assert_eq!(pending, vec![2, 3]);
}

#[test]
fn any_number_of_leading_zeros_parses_alike() {
    for zeros in 0..25 {
        let name = format!("{}17_add_col.down.sql", "0".repeat(zeros));
        let p = parse_filename(&name).unwrap();
        assert_eq!(p.version, 17);
        assert_eq!(p.name, "add_col");
        assert_eq!(p.direction, Direction::Down);
    }
}

#[test]
fn a_single_byte_edit_changes_the_checksum() {
    let body = "CREATE TABLE users (id INTEGER);";
    for i in 0..body.len() {
        let mut bytes = body.as_bytes().to_vec();
        bytes[i] = if bytes[i] == b'x' { b'y' } else { b'x' };
        let edited = String::from_utf8(bytes).unwrap();
        assert_ne!(checksum(body), checksum(&edited));
    }
}

#[test]
fn every_order_of_the_files_builds_the_same_registry() {
    let files = [
        ("0001_a.up.sql", "a"),
        ("0001_a.down.sql", "undo a"),
        ("0002_b.up.sql", "b"),
        ("0003_c.up.sql", "c"),
    ];
    let expected = Registry::build(&files).unwrap();
    let n = files.len();
    for a in 0..n {
        for b in 0..n {
            for c in 0..n {
                for d in 0..n {
                    let order = [a, b, c, d];
                    let mut seen = [false; 4];
                    for &i in &order {
                        seen[i] = true;
                    }
                    if seen.iter().all(|s| *s) {
                        let shuffled: Vec<(&str, &str)> = order.iter().map(|&i| files[i]).collect();
                        assert_eq!(Registry::build(&shuffled).unwrap(), expected);
                    }
                }
            }
        }
    }
}
