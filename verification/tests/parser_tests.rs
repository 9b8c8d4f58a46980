use db_migrate::parser::{parse_migration_content, split_cql_statements};

#[test]
fn test_parse_migration_content() {
    let content = r#"
-- Migration description

-- +migrate Up
CREATE TABLE users (id UUID PRIMARY KEY);

-- +migrate Down
DROP TABLE users;
"#;

    let (up, down) = parse_migration_content(content).unwrap();
    assert!(up.contains("CREATE TABLE users"));
    assert!(down.unwrap().contains("DROP TABLE users"));
}

#[test]
fn test_parse_implicit_up_section() {
    let content = "CREATE TABLE a (id UUID PRIMARY KEY);\n";
    let (up, down) = parse_migration_content(content).unwrap();
    assert_eq!(up, "CREATE TABLE a (id UUID PRIMARY KEY);");
    assert!(down.is_none());
}

#[test]
fn test_parse_leading_comments_and_blanks_discarded() {
    let content = "\n-- a comment\n\n-- another\nCREATE TABLE a (x INT);\n";
    let (up, down) = parse_migration_content(content).unwrap();
    assert_eq!(up, "CREATE TABLE a (x INT);");
    assert!(down.is_none());
}

#[test]
fn test_parse_short_markers() {
    let content = "-- UP\nCREATE TABLE a (x INT);\n-- DOWN\nDROP TABLE a;\n";
    let (up, down) = parse_migration_content(content).unwrap();
    assert_eq!(up, "CREATE TABLE a (x INT);");
    assert_eq!(down.unwrap(), "DROP TABLE a;");
}

#[test]
fn test_parse_empty_up_is_an_error() {
    let err = parse_migration_content("-- +migrate Up\n\n   \n").unwrap_err();
    assert_eq!(
        err,
        "Migration must contain at least UP section with CQL statements"
    );
    assert!(parse_migration_content("").is_err());
}

#[test]
fn test_parse_blank_down_section_yields_none() {
    let content = "-- +migrate Up\nCREATE TABLE a (x INT);\n-- +migrate Down\n\n";
    let (_up, down) = parse_migration_content(content).unwrap();
    assert!(down.is_none());
}

#[test]
fn test_parse_keeps_statement_order() {
    let content = "-- UP\nCREATE TABLE a (x INT);\nCREATE TABLE b (y INT);\n";
    let (up, _down) = parse_migration_content(content).unwrap();
    let stmts = split_cql_statements(&up);
    assert_eq!(
        stmts,
        vec![
            "CREATE TABLE a (x INT)".to_string(),
            "CREATE TABLE b (y INT)".to_string()
        ]
    );
}

#[test]
fn test_split_statements_trims_and_drops_empties() {
    let stmts = split_cql_statements("  CREATE TABLE a (x INT) ;;\n  ; DROP TABLE a ;  ");
    assert_eq!(
        stmts,
        vec!["CREATE TABLE a (x INT)".to_string(), "DROP TABLE a".to_string()]
    );
}

#[test]
fn test_split_statements_of_empty_text() {
    assert_eq!(split_cql_statements(""), Vec::<String>::new());
    assert_eq!(split_cql_statements(" ;  ; "), Vec::<String>::new());
}

#[test]
fn test_statements_round_trip() {
    let section = "CREATE TABLE a (x INT);\nCREATE TABLE b (y INT);";
    let stmts = split_cql_statements(section);
    let rejoined = stmts.join(";");
    assert_eq!(split_cql_statements(&rejoined), stmts);
}

#[test]
fn test_parse_crlf_line_endings() {
    let content = "-- UP\r\nCREATE TABLE a (x INT);\r\n-- DOWN\r\nDROP TABLE a;\r\n";
    let (up, down) = parse_migration_content(content).unwrap();
    assert_eq!(up, "CREATE TABLE a (x INT);");
    assert_eq!(down.unwrap(), "DROP TABLE a;");
}
