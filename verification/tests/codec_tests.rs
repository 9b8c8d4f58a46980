use db_migrate::codec::{
    calculate_checksum, create_migration_filename, extract_description_from_filename,
    extract_version_from_filename, generate_migration_template, generate_migration_version,
    is_valid_migration_filename,
};
use db_migrate::parser::parse_migration_content;

#[test]
fn test_extract_description_from_filename() {
    assert_eq!(
        extract_description_from_filename("20250115_001_add_user_table.cql"),
        "add user table"
    );
    assert_eq!(
        extract_description_from_filename("20250115_002_create_indexes.cql"),
        "create indexes"
    );
}

#[test]
fn test_extract_version_from_filename() {
    assert_eq!(
        extract_version_from_filename("20250115_001_add_user_table.cql"),
        Some("20250115_001_add_user_table".to_string())
    );
    assert_eq!(extract_version_from_filename("invalid_filename.cql"), None);
}

#[test]
fn test_calculate_checksum() {
    let content = "CREATE TABLE test (id UUID PRIMARY KEY);";
    let checksum = calculate_checksum(content);
    assert_eq!(checksum.len(), 64); // SHA256 produces 64 hex characters
}

#[test]
fn test_checksum_is_deterministic() {
    let a = calculate_checksum("CREATE TABLE t (id UUID PRIMARY KEY);");
    let b = calculate_checksum("CREATE TABLE t (id UUID PRIMARY KEY);");
    assert_eq!(a, b);
}

#[test]
fn test_checksum_differs_on_single_byte_change() {
    let a = calculate_checksum("CREATE TABLE t (id UUID PRIMARY KEY);");
    let b = calculate_checksum("CREATE TABLE u (id UUID PRIMARY KEY);");
    assert_ne!(a, b);
}

#[test]
fn test_checksum_known_value() {
    // SHA-256 of the empty string, hex encoded
    assert_eq!(
        calculate_checksum(""),
        "e3b0c44298fc1c149afbf4c8996fb92427ae41e4649b934ca495991b7852b855"
    );
}

#[test]
fn test_version_requires_eight_digit_date() {
    assert_eq!(extract_version_from_filename("2025011_001_x.cql"), None);
    assert_eq!(extract_version_from_filename("2025011a_001_x.cql"), None);
    assert_eq!(extract_version_from_filename("20250115001_x.cql"), None);
}

#[test]
fn test_version_requires_digit_sequence_segment() {
    assert_eq!(extract_version_from_filename("20250115_x_y.cql"), None);
    assert_eq!(extract_version_from_filename("20250115_.cql"), None);
    assert_eq!(extract_version_from_filename("20250115_12a_y.cql"), None);
    assert_eq!(
        extract_version_from_filename("20250115_12.cql"),
        Some("20250115_12".to_string())
    );
}

#[test]
fn test_version_strips_one_extension_only() {
    // the stem keeps any further ".cql": distinct names keep distinct versions
    assert_eq!(
        extract_version_from_filename("20250115_001_x.cql.cql"),
        Some("20250115_001_x.cql".to_string())
    );
    assert_ne!(
        extract_version_from_filename("20250115_001_x.cql"),
        extract_version_from_filename("20250115_001_x.cql.cql")
    );
}

#[test]
fn test_description_of_short_stem_is_the_stem() {
    assert_eq!(extract_description_from_filename("20250115_001.cql"), "20250115_001");
    assert_eq!(extract_description_from_filename("plain.cql"), "plain");
}

#[test]
fn test_is_valid_migration_filename() {
    assert!(is_valid_migration_filename("20250115_001_add_users.cql"));
    assert!(is_valid_migration_filename("20250115_7.cql"));
    assert!(!is_valid_migration_filename("invalid_filename.cql"));
    assert!(!is_valid_migration_filename("20250115-001.cql"));
}

#[test]
fn test_generate_migration_version_shape() {
    let v = generate_migration_version();
    let chars: Vec<char> = v.chars().collect();
    assert_eq!(chars.len(), 15);
    assert_eq!(chars[8], '_');
    for (i, c) in chars.iter().enumerate() {
        if i != 8 {
            assert!(c.is_ascii_digit());
        }
    }
}

#[test]
fn test_create_migration_filename_normalizes_description() {
    let name = create_migration_filename("Add Users!");
    assert!(name.ends_with("_add_users_.cql"));
    assert!(is_valid_migration_filename(&name));
    let version = extract_version_from_filename(&name).unwrap();
    assert!(name.starts_with(&version));
}

#[test]
fn test_generate_migration_template_parses() {
    let template = generate_migration_template("add users");
    assert!(template.starts_with("-- Migration: add users\n-- Created at: "));
    assert!(template.contains("-- +migrate Up"));
    assert!(template.contains("-- +migrate Down"));
    // the guidance below the markers is comment text, so the template
    // already parses as a migration with both sections
    let (up, down) = parse_migration_content(&template).unwrap();
    assert!(up.contains("-- Add your UP migration statements here"));
    assert!(down.unwrap().contains("-- Add your DOWN migration statements here"));
}
