use loki_to_slack_notification::query::{get_queries, try_get_queries};

#[test]
fn test_read_queries() {
    let config = r#"
            $value=super-job
            {job="$value$"}
            {job="another-job"}
            # комментарий
            {app="my-app"} | logfmt
            "#;
    let queries = get_queries(config);
    println!("queries: {:?}", queries);
    assert_eq!(queries.len(), 3);
    assert_eq!(queries[0], "{job=\"super-job\"}");
    assert_eq!(queries[1], "{job=\"another-job\"}");
    assert_eq!(queries[2], "{app=\"my-app\"} | logfmt");
}

#[test]
fn empty_config_has_no_queries() {
    assert!(get_queries("").is_empty());
    assert!(get_queries("\n\n   \n\t\n").is_empty());
}

#[test]
fn lines_are_trimmed_and_crlf_is_accepted() {
    let queries = get_queries("  {a=\"1\"}  \r\n\r\n\t{b=\"2\"}\r\n");
    assert_eq!(queries, vec!["{a=\"1\"}".to_string(), "{b=\"2\"}".to_string()]);
}

#[test]
fn comments_after_indentation_are_skipped() {
    let queries = get_queries("   # not a query\n{x=\"y\"} # not a comment\n");
    assert_eq!(queries, vec!["{x=\"y\"} # not a comment".to_string()]);
}

#[test]
fn variables_defined_later_still_apply() {
    let queries = get_queries("{job=\"$j$\"}\n$j=late\n");
    assert_eq!(queries, vec!["{job=\"late\"}".to_string()]);
}

#[test]
fn value_stops_at_the_second_equals_sign() {
    let queries = get_queries("$v=a=b\n{x=\"$v$\"}\n");
    assert_eq!(queries, vec!["{x=\"a\"}".to_string()]);
}

#[test]
fn empty_value_removes_the_placeholder() {
    let queries = get_queries("$v=\nq$v$q\n");
    assert_eq!(queries, vec!["qq".to_string()]);
}

#[test]
fn every_occurrence_is_replaced_and_variables_apply_in_order() {
    let queries = get_queries("$a=$b$\n$b=B\nq:$a$-$a$-$b$\n");
    assert_eq!(queries, vec!["q:B-B-B".to_string()]);
    let queries = get_queries("$b=B\n$a=$b$\nq$a$\n");
    assert_eq!(queries, vec!["q$b$".to_string()]);
}

#[test]
fn replacement_does_not_overlap() {
    let queries = get_queries("$a=x\nq$a$a$a$\n");
    assert_eq!(queries, vec!["qxax".to_string()]);
}

#[test]
fn query_without_placeholders_is_kept_as_written() {
    let queries = get_queries("$v=1\n{job=\"v\"} |= \"$v\"\n");
    assert_eq!(queries, vec!["{job=\"v\"} |= \"$v\"".to_string()]);
}

#[test]
fn definition_without_equals_and_no_query_is_accepted() {
    assert_eq!(try_get_queries("$broken\n# c\n"), Some(vec![]));
    assert!(get_queries("$broken\n").is_empty());
}

#[test]
fn definition_without_equals_and_a_query_is_refused() {
    assert_eq!(try_get_queries("$broken\n{a=\"b\"}\n"), None);
}

#[test]
fn lines_starting_with_dollar_define_variables() {
    let queries = get_queries("$a=x\n$a$a$a$\n");
    assert!(queries.is_empty());
}

#[test]
fn unicode_whitespace_is_trimmed() {
    let queries = get_queries("\u{3000}{a=\"b\"}\u{a0}\n");
    assert_eq!(queries, vec!["{a=\"b\"}".to_string()]);
}

#[test]
fn inserting_a_blank_or_comment_line_changes_nothing() {
    let base = "$v=x\n{a=\"$v$\"}\n{b=\"c\"}\n";
    let expected = get_queries(base);
    assert_eq!(expected, vec!["{a=\"x\"}".to_string(), "{b=\"c\"}".to_string()]);
    assert_eq!(get_queries("  # note\n$v=x\n{a=\"$v$\"}\n{b=\"c\"}\n"), expected);
    assert_eq!(get_queries("$v=x\n\t \n{a=\"$v$\"}\n{b=\"c\"}\n"), expected);
    assert_eq!(get_queries("$v=x\n{a=\"$v$\"}\n{b=\"c\"}\n#$w\n"), expected);
}

#[test]
fn every_query_keeps_its_first_character() {
    let queries = get_queries("$v=#\n$w=a b\n  x$v$$w$\n");
    assert_eq!(queries, vec!["x#a b".to_string()]);
}
