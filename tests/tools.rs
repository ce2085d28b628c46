use xtask_engine::tools::{CommandError, CommandResultExt, FileSize, GitStatus};

#[test]
fn git_status_letters_round_trip() {
    for c in [' ', 'M', 'T', 'A', 'D', 'R', 'C', 'U', '?', '!'] {
        let s = GitStatus::from_char(c).unwrap();
        assert_eq!(s.to_char(), c);
    }
    assert_eq!(GitStatus::from_char('x'), None);
}

#[test]
fn porcelain_output_is_read() {
    assert_eq!(
        GitStatus::index_and_working_tree("M  src/lib.rs\n", true),
        Some((GitStatus::Modified, GitStatus::Unmodified))
    );
    assert_eq!(
        GitStatus::index_and_working_tree("?? new.rs\n", true),
        Some((GitStatus::Untracked, GitStatus::Untracked))
    );
    assert_eq!(
        GitStatus::index_and_working_tree("  \n", true),
        Some((GitStatus::Unmodified, GitStatus::Unmodified))
    );
    assert_eq!(GitStatus::index_and_working_tree("", false), None);
    assert_eq!(GitStatus::index(" M a\n", true), Some(GitStatus::Unmodified));
    assert_eq!(GitStatus::working_tree(" M a\n", true), Some(GitStatus::Modified));
}

#[test]
fn pending_changes_by_status() {
    assert!(GitStatus::has_pending_changes((GitStatus::Modified, GitStatus::Unmodified)));
    assert!(GitStatus::has_pending_changes((GitStatus::Unmodified, GitStatus::Untracked)));
    assert!(GitStatus::has_pending_changes((GitStatus::Deleted, GitStatus::Copied)));
    assert!(!GitStatus::has_pending_changes((GitStatus::Deleted, GitStatus::Unmodified)));
    assert!(!GitStatus::has_pending_changes((GitStatus::Unmodified, GitStatus::Unmodified)));
}

#[test]
fn command_errors_are_built_and_attributed() {
    assert_eq!(CommandError::new(2), CommandError::ExitError { program: None, code: 2 });
    assert_eq!(
        CommandError::interrupt(9).program("tar"),
        CommandError::Interrupted { program: Some("tar".to_string()), interrupt: 9 }
    );
    assert_eq!(
        CommandError::missing_tool("cargo", Some("https://rustup.rs/")),
        CommandError::MissingTool { program: "cargo".to_string(), install_from: Some("https://rustup.rs/".to_string()) }
    );
    assert_eq!(
        CommandError::file_not_found("input", "a.wasm"),
        CommandError::BadArgument {
            program: None,
            argument: "input".to_string(),
            expect_found: None,
            reason: Some("file not found or inaccessible (path: 'a.wasm')".to_string()),
        }
    );
    assert_eq!(
        CommandError::inaccessible("output", "denied".to_string()).program("wasm-opt"),
        CommandError::BadArgument {
            program: Some("wasm-opt".to_string()),
            argument: "output".to_string(),
            expect_found: None,
            reason: Some("denied".to_string()),
        }
    );
    assert_eq!(CommandError::other("x".to_string()).program("p"), CommandError::Other("x".to_string()));
}

#[test]
fn exit_status_is_classified() {
    assert_eq!(CommandError::from_exit_status(Some(0), 0), Ok(()));
    assert_eq!(
        CommandError::from_exit_status(Some(3), 0),
        Err(CommandError::ExitError { program: None, code: 3 })
    );
    assert_eq!(
        CommandError::from_exit_status(None, 15),
        Err(CommandError::Interrupted { program: None, interrupt: 15 })
    );
}

#[test]
fn file_size_keeps_bytes() {
    assert_eq!(FileSize::from_bytes(4096).bytes(), 4096);
    assert!(FileSize::from_bytes(1) < FileSize::from_bytes(2));
}

#[test]
fn exit_codes_are_remapped() {
    let mapping = |code: i32| if code == 4 { Some(CommandError::other("bad url".to_string())) } else { None };
    let failed: Result<(), CommandError> = Err(CommandError::new(4));
    assert_eq!(failed.map_exit_codes(mapping), Err(CommandError::Other("bad url".to_string())));
    let other_code: Result<(), CommandError> = Err(CommandError::new(1).program("wget"));
    assert_eq!(
        other_code.map_exit_codes(mapping),
        Err(CommandError::ExitError { program: Some("wget".to_string()), code: 1 })
    );
    let interrupted: Result<(), CommandError> = Err(CommandError::interrupt(4));
    assert_eq!(interrupted.map_exit_codes(mapping), Err(CommandError::Interrupted { program: None, interrupt: 4 }));
    let fine: Result<u8, CommandError> = Ok(7);
    assert_eq!(fine.map_exit_codes(mapping), Ok(7));
}
