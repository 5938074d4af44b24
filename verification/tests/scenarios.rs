use kak_recent_files::{
    initial_session_population, load_session_storage, most_recent_file_if_exists, opened_file,
    remove_file, reset_storage, CommonOps, LoadOutcome, MruList, PersistAction, ScanEntry,
    StorageState,
};

fn permanent() -> StorageState {
    StorageState::Permanent("/data/kak-recent-files/sess".to_owned())
}

fn ops_temp(blob: Option<&str>) -> CommonOps {
    CommonOps {
        session: "sess".to_owned(),
        use_temp_storage: true,
        temp_storage: blob.map(|b| b.to_owned()),
    }
}

fn loaded(outcome: LoadOutcome) -> MruList {
    match outcome {
        LoadOutcome::Loaded(list) => list,
        LoadOutcome::SeedRequired => panic!("expected a loaded list"),
    }
}

#[test]
fn session_path_lies_under_the_application_directory() {
    let p = kak_recent_files::storage::session_path("/home/u/.local/share", "main");
    assert_eq!(p, "/home/u/.local/share/kak-recent-files/main");
}

#[test]
fn seeding_persists_only_when_nothing_else_will() {
    let state = permanent();
    let files = vec![ScanEntry { path: "/cwd/a".to_owned(), mtime: 3 }];
    let (list, action) = kak_recent_files::seed_session(&state, &files, true);
    assert_eq!(list.entries().clone(), vec!["/cwd/a"]);
    assert!(action.is_none());
    let (_, action) = kak_recent_files::seed_session(&state, &files, false);
    match action {
        Some(PersistAction::WriteFile { content, .. }) => assert_eq!(content, "/cwd/a\n"),
        _ => panic!("a read-only load must persist the seeded list itself"),
    }
}

#[test]
fn temp_mode_selects_temporary_storage() {
    let ops = ops_temp(None);
    assert!(matches!(StorageState::new(&ops), Ok(StorageState::Temp)));
}

#[test]
fn bool_flag_values_parse_exactly() {
    assert_eq!(kak_recent_files::bool_value_names("true"), Ok(true));
    assert_eq!(kak_recent_files::bool_value_names("false"), Ok(false));
    assert_eq!(
        kak_recent_files::bool_value_names("yes"),
        Err("unknown boolean value yes".to_owned())
    );
}

#[test]
fn seeding_orders_newest_first() {
    // a.txt modified later than b.txt, discovered in the other order
    let files = vec![
        ScanEntry { path: "/cwd/b.txt".to_owned(), mtime: 1 },
        ScanEntry { path: "/cwd/a.txt".to_owned(), mtime: 2 },
    ];
    let list = initial_session_population(&files);
    assert_eq!(list.serialize(), "/cwd/a.txt\n/cwd/b.txt\n");
    let first = most_recent_file_if_exists(false, Some(list.serialize().as_str()));
    assert_eq!(first, Some("/cwd/a.txt".to_owned()));
}

#[test]
fn seeding_breaks_ties_by_discovery_order() {
    let files = vec![
        ScanEntry { path: "/one".to_owned(), mtime: 5 },
        ScanEntry { path: "/two".to_owned(), mtime: 5 },
        ScanEntry { path: "/newer".to_owned(), mtime: 9 },
    ];
    let list = initial_session_population(&files);
    assert_eq!(list.serialize(), "/newer\n/one\n/two\n");
}

#[test]
fn opened_file_promotes_without_duplicating() {
    let state = permanent();
    let list = MruList::empty();
    let (list, _) = opened_file(&state, &list, "/x");
    let (list, _) = opened_file(&state, &list, "/y");
    let (list, action) = opened_file(&state, &list, "/x");
    assert_eq!(list.entries().clone(), vec!["/x", "/y"]);
    match action {
        PersistAction::WriteFile { path, content } => {
            assert_eq!(path, "/data/kak-recent-files/sess");
            assert_eq!(content, "/x\n/y\n");
        }
        PersistAction::EmitCommand { .. } => panic!("permanent mode must write the file"),
    }
}

#[test]
fn remove_file_drops_entry_and_ignores_non_members() {
    let state = permanent();
    let list = MruList::deserialize("/x\n/y\n/z\n");
    let (removed, action) = remove_file(&state, &list, "y", "/y");
    assert_eq!(removed.entries().clone(), vec!["/x", "/z"]);
    match action {
        PersistAction::WriteFile { content, .. } => assert_eq!(content, "/x\n/z\n"),
        PersistAction::EmitCommand { .. } => panic!("permanent mode must write the file"),
    }
    let (untouched, _) = remove_file(&state, &list, "nope", "/nope");
    assert_eq!(untouched.entries().clone(), vec!["/x", "/y", "/z"]);
}

#[test]
fn reset_then_open_initial_file_finds_nothing() {
    let state = permanent();
    let action = reset_storage(&state);
    let content = match action {
        PersistAction::WriteFile { content, .. } => content,
        PersistAction::EmitCommand { .. } => panic!("permanent mode must write the file"),
    };
    assert_eq!(content, "");
    assert_eq!(most_recent_file_if_exists(false, Some(content.as_str())), None);
}

#[test]
fn open_initial_file_is_silent_in_temporary_mode() {
    assert_eq!(most_recent_file_if_exists(true, Some("/a\n")), None);
    assert_eq!(most_recent_file_if_exists(false, None), None);
    assert_eq!(most_recent_file_if_exists(false, Some("/a\n/b\n")), Some("/a".to_owned()));
}

#[test]
fn temporary_sessions_load_the_blob_and_never_seed() {
    let state = StorageState::Temp;
    let with_blob = ops_temp(Some("/a\n/b\n"));
    let list = loaded(load_session_storage(&state, &with_blob, None));
    assert_eq!(list.entries().clone(), vec!["/a", "/b"]);
    let blank_blob = ops_temp(Some("  \n"));
    let empty = loaded(load_session_storage(&state, &blank_blob, None));
    assert_eq!(empty.len(), 0);
    let no_blob = ops_temp(None);
    let empty2 = loaded(load_session_storage(&state, &no_blob, None));
    assert_eq!(empty2.len(), 0);
}

#[test]
fn permanent_sessions_seed_only_when_blank_or_missing() {
    let state = permanent();
    let ops = CommonOps {
        session: "sess".to_owned(),
        use_temp_storage: false,
        temp_storage: None,
    };
    match load_session_storage(&state, &ops, Some("/a\n")) {
        LoadOutcome::Loaded(list) => assert_eq!(list.entries().clone(), vec!["/a"]),
        LoadOutcome::SeedRequired => panic!("non-blank content must load"),
    }
    assert!(matches!(load_session_storage(&state, &ops, Some("  \n ")), LoadOutcome::SeedRequired));
    assert!(matches!(load_session_storage(&state, &ops, None), LoadOutcome::SeedRequired));
}

#[test]
fn temporary_persist_emits_the_export_command() {
    let state = StorageState::Temp;
    let list = MruList::deserialize("/it's\n");
    let (_, action) = opened_file(&state, &list, "/new");
    match action {
        PersistAction::EmitCommand { line } => {
            assert_eq!(line, "set-option global krf_temp_storage '/new\n/it''s\n'");
        }
        PersistAction::WriteFile { .. } => panic!("temporary mode must not touch a file"),
    }
}
