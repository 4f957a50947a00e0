use magic_mount::config::{custom_list_content, custom_list_update, split_commands, ApiCustomMount, Config};
use magic_mount::parser::mount::Command;
use magic_mount::parser::parser_custom;

fn mount(s: &str, t: &str) -> ApiCustomMount {
    ApiCustomMount { source: s.to_string(), target: t.to_string() }
}

#[test]
fn custom_list_skips_comments_and_bad_lines() {
    let text = "# a comment\n  ignore /a  \r\nbogus line\n\n\tbind /s \"/t u\"\n   # indented comment\nignore \"/b c\"";
    let cmds = parser_custom(text);
    assert_eq!(
        cmds,
        vec![
            Command::Ignore { source: "/a".to_string() },
            Command::Mount { source: "/s".to_string(), target: "/t u".to_string() },
            Command::Ignore { source: "/b c".to_string() },
        ]
    );
}

#[test]
fn empty_custom_list_has_no_commands() {
    assert!(parser_custom("").is_empty());
    assert!(parser_custom("\n\n").is_empty());
}

#[test]
fn commands_split_into_ignores_and_mounts() {
    let cmds = vec![
        Command::Mount { source: "/a".to_string(), target: "/b".to_string() },
        Command::Ignore { source: "/x".to_string() },
        Command::Mount { source: "/c".to_string(), target: "/d".to_string() },
        Command::Ignore { source: "/y".to_string() },
    ];
    let (ignores, mounts) = split_commands(&cmds);
    assert_eq!(ignores, vec!["/x".to_string(), "/y".to_string()]);
    assert_eq!(mounts.len(), 2);
    assert_eq!(mounts[0].source, "/a");
    assert_eq!(mounts[0].target, "/b");
    assert_eq!(mounts[1].source, "/c");
    assert_eq!(mounts[1].target, "/d");
}

#[test]
fn paths_with_white_space_are_quoted() {
    assert_eq!(Config::format_custom_path("/a b"), "\"/a b\"");
    assert_eq!(Config::format_custom_path("/a\tb"), "\"/a\tb\"");
    assert_eq!(Config::format_custom_path("/ab"), "/ab");
    assert_eq!(Config::format_custom_path(""), "");
}

#[test]
fn custom_list_text_has_one_line_per_entry() {
    let text = custom_list_content(
        &vec!["/x".to_string(), "/y z".to_string()],
        &vec![mount("/a", "/b c")],
    );
    assert_eq!(text, "ignore /x\nignore \"/y z\"\nbind /a \"/b c\"\n");
    assert_eq!(custom_list_content(&vec![], &vec![]), "");
}

#[test]
fn written_custom_list_reads_back() {
    let ignores = vec!["/x".to_string(), "/y z".to_string(), "/p\"q".to_string()];
    let mounts = vec![mount("/a", "/b c"), mount("/d e", "/f")];
    let text = custom_list_content(&ignores, &mounts);
    let (i2, m2) = Config::read_custom_lists(&text);
    assert_eq!(i2, ignores);
    assert_eq!(m2.len(), mounts.len());
    for (a, b) in m2.iter().zip(mounts.iter()) {
        assert_eq!(a.source, b.source);
        assert_eq!(a.target, b.target);
    }
}

#[test]
fn a_quoted_path_is_not_read_back() {
    let text = custom_list_content(&vec!["\"a\"".to_string()], &vec![]);
    let (i2, _) = Config::read_custom_lists(&text);
    assert_eq!(i2, vec!["a".to_string()]);
}

#[test]
fn save_replaces_only_the_lists_it_gives() {
    let current = "ignore /old\nbind /s /t\n";
    assert_eq!(custom_list_update(None, None, current), None);
    let updated = custom_list_update(Some(vec!["/new".to_string()]), None, current).unwrap();
    assert_eq!(updated, "ignore /new\nbind /s /t\n");
    let updated = custom_list_update(None, Some(vec![mount("/u", "/v w")]), current).unwrap();
    assert_eq!(updated, "ignore /old\nbind /u \"/v w\"\n");
    let updated = custom_list_update(Some(vec![]), Some(vec![]), current).unwrap();
    assert_eq!(updated, "");
}
