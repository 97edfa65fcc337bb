//! The Advanced window's selection checks and session start checks.
use process_optimizer::model::{ActionKind, ApprovedAction, Identity, ProcessRow, Provenance, Settings};
use process_optimizer::windows::advanced::{
    advanced_plan, all_protected, game_selection, mark, protect, selection_check, selection_paths, unprotect,
};

fn id(pid: u32, path: &str) -> Identity {
    Identity {
        pid,
        created: 5,
        path: path.into(),
        session_id: 1,
        provenance: Some(Provenance { owner_sid: "S-1-5-21-3".into(), logon_id: 4, image_file_id: format!("f{pid}") }),
    }
}

fn row(pid: u32, name: &str, path: &str, reason: Option<&str>) -> ProcessRow {
    ProcessRow { identity: id(pid, path), parent_pid: 1, name: name.into(), protected_reason: reason.map(String::from), gpu: vec![] }
}

#[test]
fn a_selection_is_refused_by_its_first_protected_row() {
    let rows = vec![
        row(10, "editor.exe", r"C:\Apps\editor.exe", None),
        row(11, "svchost.exe", r"C:\Windows\System32\svchost.exe", Some("Windows component: protected.")),
        row(12, "game.exe", r"D:\Games\game.exe", None),
        row(13, "mine.exe", r"C:\Apps\Mine.exe", None),
    ];
    let game = Some(id(12, r"D:\Games\game.exe"));
    let protected = vec![r"c:/apps/mine.exe".to_string()];
    assert!(selection_check(&rows, &[0], &game, &protected).is_ok());
    assert_eq!(
        selection_check(&rows, &[0, 1, 2], &game, &protected).unwrap_err(),
        "svchost.exe is protected: Windows component: protected."
    );
    assert_eq!(selection_check(&rows, &[2, 1], &game, &protected).unwrap_err(), "The selected game is protected.");
    assert_eq!(selection_check(&rows, &[3], &game, &protected).unwrap_err(), "This application is in your protected list.");
    assert!(selection_check(&rows, &[], &game, &protected).is_ok());
}

fn settings(cpu: bool) -> Settings {
    let mut s = Settings::default();
    s.game_path = r"D:\Games\game.exe".into();
    s.options.cpu_priority = cpu;
    s
}

fn actions(kind: ActionKind) -> Vec<ApprovedAction> {
    vec![ApprovedAction { target: id(10, r"C:\Apps\editor.exe"), action: kind, reopen: None }]
}

#[test]
fn advanced_sessions_start_only_after_every_check() {
    let game = Some(id(12, r"D:\Games\game.exe"));
    let plan = advanced_plan(&settings(true), &game, &actions(ActionKind::LowerPriorities), false, false).unwrap();
    assert!(!plan.manual_mode);
    assert_eq!(plan.game.as_ref().unwrap().pid, 12);
    assert_eq!(plan.actions.len(), 1);
    assert!(plan.consent && plan.force_consent && plan.experimental_consent);
    assert_eq!(
        advanced_plan(&settings(true), &game, &actions(ActionKind::Close), true, false).unwrap_err(),
        "Close this elevated window and run the app normally, not as administrator."
    );
    assert_eq!(
        advanced_plan(&settings(true), &game, &actions(ActionKind::Close), false, true).unwrap_err(),
        "Restore/review the existing session before starting another."
    );
    assert_eq!(
        advanced_plan(&settings(true), &game, &vec![], false, false).unwrap_err(),
        "Choose at least one background process action. There is no automatic kill list."
    );
    assert_eq!(
        advanced_plan(&settings(false), &game, &actions(ActionKind::LowerPriorities), false, false).unwrap_err(),
        "Choose at least one priority policy, or use a close action instead."
    );
    assert!(advanced_plan(&settings(false), &game, &actions(ActionKind::Close), false, false).is_ok());
    assert_eq!(
        advanced_plan(&settings(true), &None, &actions(ActionKind::Close), false, false).unwrap_err(),
        "Select the actual running game using 'Use selected as game'. Browsing a path is not lifetime approval."
    );
    let mut elsewhere = settings(true);
    elsewhere.game_path = r"D:\Games\other.exe".into();
    assert!(advanced_plan(&elsewhere, &game, &actions(ActionKind::Close), false, false).is_err());
}

#[test]
fn the_game_is_exactly_one_unprotected_row() {
    let rows = vec![
        row(12, "game.exe", r"D:\Games\game.exe", None),
        row(13, "launcher.exe", r"D:\Games\launcher.exe", Some("Protected system, game-support, voice or optimizer application.")),
    ];
    assert_eq!(game_selection(&rows, &[0]).unwrap().pid, 12);
    assert_eq!(game_selection(&rows, &[]).unwrap_err(), "Select exactly one actual game process.");
    assert_eq!(game_selection(&rows, &[0, 1]).unwrap_err(), "Select exactly one actual game process.");
    assert_eq!(
        game_selection(&rows, &[1]).unwrap_err(),
        "Select the actual game, not a protected launcher: Protected system, game-support, voice or optimizer application."
    );
}

fn strings(items: &[&str]) -> Vec<String> {
    items.iter().map(|s| s.to_string()).collect()
}

#[test]
fn selected_paths_are_distinct_non_empty_and_ordered() {
    let sel = strings(&[r"C:\b.exe", "", r"C:\a.exe", r"C:\b.exe", r"C:\A.exe"]);
    assert_eq!(selection_paths(&sel), strings(&[r"C:\A.exe", r"C:\a.exe", r"C:\b.exe"]));
    assert!(selection_paths(&strings(&["", ""])).is_empty());
}

#[test]
fn protection_is_toggled_for_the_selected_executables() {
    let mut protected = strings(&[r"c:/tools/keep.exe", r"C:\Apps\a.exe"]);
    let paths = strings(&[r"C:\Apps\A.exe", r"C:\Apps\b.exe"]);
    assert!(!all_protected(&protected, &paths));
    assert!(!all_protected(&protected, &[]));
    let mut acts = vec![
        ApprovedAction { target: id(10, r"c:\apps\b.exe"), action: ActionKind::Close, reopen: None },
        ApprovedAction { target: id(11, r"C:\Apps\c.exe"), action: ActionKind::Close, reopen: None },
    ];
    protect(&mut protected, &mut acts, &paths);
    assert_eq!(protected, strings(&[r"c:/tools/keep.exe", r"C:\Apps\a.exe", r"C:\Apps\b.exe"]));
    assert_eq!(acts.len(), 1);
    assert_eq!(acts[0].target.pid, 11);
    assert!(all_protected(&protected, &paths));
    unprotect(&mut protected, &paths);
    assert_eq!(protected, strings(&[r"c:/tools/keep.exe"]));
}

#[test]
fn marking_keeps_one_action_per_process_in_pid_order() {
    let rows = vec![
        row(30, "c.exe", r"C:\Apps\c.exe", None),
        row(10, "a.exe", r"C:\Apps\a.exe", None),
        row(20, "b.exe", r"C:\Apps\b.exe", None),
        row(40, "svc.exe", r"C:\Apps\svc.exe", Some("Protected process.")),
    ];
    let mut acts: Vec<ApprovedAction> = vec![];
    mark(&mut acts, &rows, &[0, 1], Some(ActionKind::Close), &None, &[]).unwrap();
    assert_eq!(acts.iter().map(|a| a.target.pid).collect::<Vec<_>>(), vec![10, 30]);
    mark(&mut acts, &rows, &[2, 1], Some(ActionKind::LowerPriorities), &None, &[]).unwrap();
    assert_eq!(acts.iter().map(|a| (a.target.pid, a.action)).collect::<Vec<_>>(), vec![
        (10, ActionKind::LowerPriorities),
        (20, ActionKind::LowerPriorities),
        (30, ActionKind::Close),
    ]);
    mark(&mut acts, &rows, &[0], None, &None, &[]).unwrap();
    assert_eq!(acts.iter().map(|a| a.target.pid).collect::<Vec<_>>(), vec![10, 20]);
    assert_eq!(
        mark(&mut acts, &rows, &[0, 3], Some(ActionKind::Close), &None, &[]).unwrap_err(),
        "svc.exe is protected: Protected process."
    );
    assert_eq!(acts.len(), 2);
    assert_eq!(
        mark(&mut acts, &rows, &[], None, &None, &[]).unwrap_err(),
        "Select background process rows first (Ctrl/Shift for multiple)."
    );
    assert!(acts.iter().all(|a| a.reopen.is_none()));
}
