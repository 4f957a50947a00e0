use magic_mount::parser::mount::{parse_command, Command};

#[test]
fn test_mount_command() {
    let input = "bind /test /test1";
    let result = parse_command(input).unwrap();
    assert_eq!(
        result,
        Command::Mount {
            source: "/test".to_string(),
            target: "/test1".to_string(),
        }
    );
}

#[test]
fn test_parse_mount_with_quotes() {
    let input = r#"bind "/test" "/mnt/test1 test2""#;
    let cmd = parse_command(input).unwrap();

    assert_eq!(
        cmd,
        Command::Mount {
            source: "/test".to_string(),
            target: "/mnt/test1 test2".to_string()
        }
    );
}

#[test]
fn test_parse_mount_mixed() {
    let input = r#"bind /test "/mnt/test1 test2""#;
    let cmd = parse_command(input).unwrap();
    assert_eq!(
        cmd,
        Command::Mount {
            source: "/test".to_string(),
            target: "/mnt/test1 test2".to_string()
        }
    );
}

#[test]
fn test_ignore_command() {
    let input = "ignore /tmp/cache";
    let result = parse_command(input).unwrap();
    assert_eq!(
        result,
        Command::Ignore {
            source: "/tmp/cache".to_string(),
        }
    );
}

#[test]
fn test_ignore_with_quotes() {
    let input = r#"ignore "/test1 test2""#;
    let cmd = parse_command(input).unwrap();

    assert_eq!(
        cmd,
        Command::Ignore {
            source: "/test1 test2".to_string(),
        }
    );
}

#[test]
fn test_quoted_ignore() {
    let input = r#"ignore "/var/log/my app""#;
    let result = parse_command(input).unwrap();
    assert_eq!(
        result,
        Command::Ignore {
            source: "/var/log/my app".to_string(),
        }
    );
}

#[test]
fn test_invalid_command() {
    let input = "delete /something";
    let result = parse_command(input);
    assert!(result.is_none());
}

#[test]
fn tabs_and_runs_of_blanks_separate_words() {
    assert_eq!(
        parse_command("bind\t /a  \t/b"),
        Some(Command::Mount { source: "/a".to_string(), target: "/b".to_string() })
    );
}

#[test]
fn keyword_needs_a_blank_after_it() {
    assert_eq!(parse_command("binder /a /b"), None);
    assert_eq!(parse_command("ignore"), None);
    assert_eq!(parse_command("ignore "), None);
    assert_eq!(parse_command(""), None);
}

#[test]
fn trailing_text_is_refused() {
    assert_eq!(parse_command("ignore /a /b"), None);
    assert_eq!(parse_command("bind /a /b /c"), None);
    assert_eq!(parse_command("ignore /a "), None);
    assert_eq!(parse_command(r#"bind "/a"b /c"#), None);
}

#[test]
fn unclosed_quote_is_read_as_a_bare_path() {
    assert_eq!(
        parse_command(r#"ignore "abc"#),
        Some(Command::Ignore { source: "\"abc".to_string() })
    );
    assert_eq!(parse_command(r#"ignore "abc def"#), None);
    assert_eq!(parse_command(r#"ignore """#), Some(Command::Ignore { source: "\"\"".to_string() }));
}

#[test]
fn control_characters_end_a_bare_path() {
    assert_eq!(parse_command("ignore /a\u{7}b"), None);
    assert_eq!(
        parse_command("ignore \"/a\u{7}b\""),
        Some(Command::Ignore { source: "/a\u{7}b".to_string() })
    );
}

#[test]
fn keywords_are_case_sensitive() {
    assert_eq!(parse_command("BIND /a /b"), None);
    assert_eq!(parse_command("Ignore /a"), None);
}
