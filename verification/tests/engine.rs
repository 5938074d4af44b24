use kak_recent_files::{MruList, add_file_to_buffer, editor_escape, editor_quote, is_wf_path};

fn entries(list: &MruList) -> Vec<String> {
    list.entries().clone()
}

#[test]
fn escape_doubles_single_quotes() {
    assert_eq!(editor_escape("no quotes"), "no quotes");
    assert_eq!(editor_escape("it's"), "it''s");
    assert_eq!(editor_escape("''"), "''''");
    assert_eq!(editor_escape(""), "");
}

#[test]
fn quote_wraps_and_escapes() {
    assert_eq!(editor_quote("plain"), "'plain'");
    assert_eq!(editor_quote("it's"), "'it''s'");
    assert_eq!(editor_quote(""), "''");
}

#[test]
fn only_nonempty_single_line_paths_are_well_formed() {
    assert!(is_wf_path("/a/b.txt"));
    assert!(!is_wf_path(""));
    assert!(!is_wf_path("/a\n/b"));
}

#[test]
fn serialize_empty_list_is_empty_string() {
    let list = MruList::empty();
    assert_eq!(list.serialize(), "");
}

#[test]
fn deserialize_splits_lines_and_skips_blanks() {
    let list = MruList::deserialize("/a\n/b\n\n/c\n");
    assert_eq!(entries(&list), vec!["/a", "/b", "/c"]);
    let blank = MruList::deserialize("");
    assert_eq!(entries(&blank), Vec::<String>::new());
    let missing_final_newline = MruList::deserialize("/a\n/b");
    assert_eq!(entries(&missing_final_newline), vec!["/a", "/b"]);
}

#[test]
fn deserialize_keeps_first_of_duplicates() {
    let list = MruList::deserialize("/a\n/b\n/a\n");
    assert_eq!(entries(&list), vec!["/a", "/b"]);
}

#[test]
fn round_trip_is_stable() {
    let buf = "/a\n/b\n\n/b\n/c\n";
    let once = MruList::deserialize(buf);
    let again = MruList::deserialize(once.serialize().as_str());
    assert_eq!(entries(&once), entries(&again));
    assert_eq!(once.serialize(), "/a\n/b\n/c\n");
}

#[test]
fn insert_front_prepends_new_path() {
    let list = MruList::deserialize("/a\n/b\n");
    let updated = list.insert_front("/c");
    assert_eq!(entries(&updated), vec!["/c", "/a", "/b"]);
    assert_eq!(updated.len(), 3);
}

#[test]
fn insert_front_is_idempotent() {
    let list = MruList::deserialize("/a\n/b\n");
    let once = list.insert_front("/b");
    let twice = once.insert_front("/b");
    assert_eq!(entries(&once), vec!["/b", "/a"]);
    assert_eq!(entries(&once), entries(&twice));
}

#[test]
fn remove_drops_both_forms() {
    let list = MruList::deserialize("/cwd/x\ny\n/z\n");
    let updated = list.remove("y", "/cwd/y");
    assert_eq!(entries(&updated), vec!["/cwd/x", "/z"]);
    let by_abs = list.remove("x", "/cwd/x");
    assert_eq!(entries(&by_abs), vec!["y", "/z"]);
}

#[test]
fn remove_is_idempotent_and_ignores_non_members() {
    let list = MruList::deserialize("/x\n/y\n/z\n");
    let once = list.remove("/y", "/cwd/y");
    let twice = once.remove("/y", "/cwd/y");
    assert_eq!(entries(&once), vec!["/x", "/z"]);
    assert_eq!(entries(&once), entries(&twice));
    let untouched = list.remove("/nope", "/cwd/nope");
    assert_eq!(entries(&untouched), vec!["/x", "/y", "/z"]);
}

#[test]
fn add_file_to_buffer_moves_path_to_front() {
    assert_eq!(add_file_to_buffer("/b", "/a\n/b\n/c\n"), "/b\n/a\n/c\n");
    assert_eq!(add_file_to_buffer("/new", ""), "/new\n");
}
