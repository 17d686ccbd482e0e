//! Command-line splitting, workload files and result printing.

use chordify::tools::{
    format_query_result, keys_from_text, parse_requests_file, split_cli_args, Op, RequestsError,
};

#[test]
fn test_split_cli_args_quotes() {
    assert_eq!(
        split_cli_args(r#"insert "hello there" "oh hi""#),
        vec!["insert", "hello there", "oh hi"]
    );
    assert_eq!(split_cli_args(r#"query "hello there""#), vec!["query", "hello there"]);
}

#[test]
fn test_split_cli_args_whitespace_and_empty() {
    assert_eq!(split_cli_args("  delete   key \t "), vec!["delete", "key"]);
    assert!(split_cli_args("   ").is_empty());
    assert!(split_cli_args("").is_empty());
    // quotes glue the parts around them; an empty quoted string adds nothing
    assert_eq!(split_cli_args(r#"a"b c"d """#), vec!["ab cd"]);
    // an unterminated quote runs to the end
    assert_eq!(split_cli_args(r#"x "y z"#), vec!["x", "y z"]);
}

#[test]
fn test_parse_requests_file_ok() {
    let contents = "insert, Hey Jude, 1001\n\n  query, Hey Jude  \r\nquery, Let It Be, extra\n";
    let ops = parse_requests_file(contents).unwrap();
    assert_eq!(
        ops,
        vec![
            Op::Insert { key: "Hey Jude".to_string(), value: "1001".to_string() },
            Op::Query { key: "Hey Jude".to_string() },
            Op::Query { key: "Let It Be".to_string() },
        ]
    );
    assert!(parse_requests_file("").unwrap().is_empty());
}

#[test]
fn test_parse_requests_file_errors() {
    assert_eq!(
        parse_requests_file("query, a\ninsert, only_key\n"),
        Err(RequestsError::InvalidInsert { line_no: 2, line: "insert, only_key".to_string() })
    );
    assert_eq!(
        parse_requests_file("query\n"),
        Err(RequestsError::InvalidQuery { line_no: 1, line: "query".to_string() })
    );
    assert_eq!(
        parse_requests_file("\n\n delete, x\r\n"),
        Err(RequestsError::UnknownOperation {
            op: "delete".to_string(),
            line_no: 3,
            line: " delete, x".to_string(),
        })
    );
}

#[test]
fn test_keys_from_text() {
    assert_eq!(keys_from_text("a\n  b b \n\n\r\nc"), vec!["a", "b b", "c"]);
    assert!(keys_from_text("\n \n").is_empty());
}

#[test]
fn test_format_query_result() {
    let results = vec![
        (7u64, vec!["b".to_string(), "a".to_string()]),
        (3u64, vec![]),
        (7u64, vec!["z".to_string(), "y".to_string()]),
        (120u64, vec!["k:v".to_string()]),
    ];
    assert_eq!(format_query_result(results), "3: <none>\n7: y | z\n120: k:v\n");
    assert_eq!(format_query_result(vec![]), "");
}

#[test]
fn test_format_query_result_ignores_order() {
    let a = vec![
        (9u64, vec!["b".to_string(), "a".to_string(), "c".to_string()]),
        (2u64, vec!["x".to_string()]),
        (5u64, vec![]),
    ];
    let b = vec![
        (5u64, vec![]),
        (9u64, vec!["c".to_string(), "b".to_string(), "a".to_string()]),
        (2u64, vec!["x".to_string()]),
    ];
    let expected = "2: x\n5: <none>\n9: a | b | c\n";
    assert_eq!(format_query_result(a), expected);
    assert_eq!(format_query_result(b), expected);
}

#[test]
fn test_requests_error_messages() {
    let e = parse_requests_file("query, a\n\nupdate, a, b").unwrap_err();
    assert_eq!(e.message(), "Unknown operation 'update' at line 3: update, a, b");
    let e = parse_requests_file("insert, k").unwrap_err();
    assert_eq!(e.message(), "Invalid insert at line 1: expected 'insert, <key>, <value>', got: insert, k");
    let e = parse_requests_file("  \nquery").unwrap_err();
    assert_eq!(e.message(), "Invalid query at line 2: expected 'query, <key>', got: query");
}

#[test]
fn test_split_cli_args_matches_split_whitespace_without_quotes() {
    for line in ["insert a b", "  query   x  ", "", "\t delete\u{3000}k \n", "one"] {
        let expected: Vec<String> = line.split_whitespace().map(String::from).collect();
        assert_eq!(split_cli_args(line), expected);
    }
}
