use kak_recent_files::{ask_for_path_to_open, parse_menu_command, Error, MruList, RecentFiles};

#[test]
fn projection_is_relative_under_cwd_and_absolute_elsewhere() {
    let list = MruList::deserialize("/cwd/a.txt\n/elsewhere/b.txt\n/cwd/sub/c.txt\n");
    let files = RecentFiles::from_list(&list, "", "/cwd");
    let names: Vec<String> = files.names().clone();
    assert_eq!(names, vec!["a.txt", "/elsewhere/b.txt", "sub/c.txt"]);
}

#[test]
fn projection_preserves_order_and_skips_excluded() {
    let list = MruList::deserialize("/cwd/a\n/cwd/b\n/cwd/c\n");
    let files = RecentFiles::from_list(&list, "/cwd/b", "/cwd");
    let names: Vec<String> = files.names().clone();
    assert_eq!(names, vec!["a", "c"]);
}

#[test]
fn projection_keeps_first_of_colliding_names() {
    // an absolute entry equal to a later relative projection: first wins
    let list = MruList::deserialize("/cwd/a\na\n");
    let files = RecentFiles::from_list(&list, "", "/cwd");
    let names: Vec<String> = files.names().clone();
    assert_eq!(names, vec!["a"]);
    assert_eq!(files.path_from_name("a"), Some("/cwd/a".to_owned()));
}

#[test]
fn path_from_name_resolves_offered_names_only() {
    let list = MruList::deserialize("/cwd/a\n/other/b\n");
    let files = RecentFiles::from_list(&list, "", "/cwd");
    assert_eq!(files.path_from_name("a"), Some("/cwd/a".to_owned()));
    assert_eq!(files.path_from_name("/other/b"), Some("/other/b".to_owned()));
    assert_eq!(files.path_from_name("zzz"), None);
}

#[test]
fn selection_resolves_back_to_absolute_path() {
    let list = MruList::deserialize("/cwd/a\n/cwd/b\n");
    let files = RecentFiles::from_list(&list, "", "/cwd");
    let chosen = ask_for_path_to_open(&files, "b\n");
    assert_eq!(chosen, Ok(Some("/cwd/b".to_owned())));
    let with_crlf = ask_for_path_to_open(&files, "a\r\n");
    assert_eq!(with_crlf, Ok(Some("/cwd/a".to_owned())));
}

#[test]
fn empty_selector_output_is_no_selection() {
    let list = MruList::deserialize("/cwd/a\n");
    let files = RecentFiles::from_list(&list, "", "/cwd");
    assert_eq!(ask_for_path_to_open(&files, ""), Ok(None));
    assert_eq!(ask_for_path_to_open(&files, "\r\n"), Ok(None));
}

#[test]
fn unexpected_selector_output_is_an_integrity_violation() {
    let list = MruList::deserialize("/cwd/a\n");
    let files = RecentFiles::from_list(&list, "", "/cwd");
    let r = ask_for_path_to_open(&files, "not-offered\n");
    assert_eq!(r, Err(Error::SelectorIntegrityViolation));
}

#[test]
fn menu_command_tokenizes_with_shell_rules() {
    let tokens = parse_menu_command("fzf --prompt 'recent files'").unwrap();
    assert_eq!(tokens, vec!["fzf", "--prompt", "recent files"]);
    let simple = parse_menu_command("dmenu -l 10").unwrap();
    assert_eq!(simple, vec!["dmenu", "-l", "10"]);
}

#[test]
fn bad_menu_commands_are_rejected() {
    assert_eq!(parse_menu_command(""), Err(Error::InvalidMenuCommand));
    assert_eq!(parse_menu_command("   "), Err(Error::InvalidMenuCommand));
    assert_eq!(parse_menu_command("fzf 'unterminated"), Err(Error::InvalidMenuCommand));
}

#[test]
fn error_messages_name_the_failure() {
    assert_eq!(Error::NoDataDirectory.message(), "user has no data directory");
    assert_eq!(Error::InvalidMenuCommand.message(), "invalid configured menu command");
}
