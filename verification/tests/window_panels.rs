//! The remaining window decisions: the Advanced window's list, status line and plan text,
//! the Settings panel's startup buttons and process report, and the storage rules.
use process_optimizer::advice::Choice;
use process_optimizer::manual::StartupValueKind;
use process_optimizer::model::{
    ActionKind, ApprovedAction, Change, CloseRecord, CloseState, Fault, FaultKind, Identity, Options, Plan, ProcessRow,
    Provenance, Session, Stage, Value,
};
use process_optimizer::update::{updater_args, updater_command};
use process_optimizer::windows::advanced::{
    action_label, game_after_edit, keep_live, mark_action, plan_text, restore_request, selected_rows, selection_size,
    status_line, RestoreRequest,
};
use process_optimizer::windows::manual::foreground_owner;
use process_optimizer::windows::process::{alive_from, cancel_requested, exact_check, filetime};
use process_optimizer::windows::reopen::desktop_ready_from;
use process_optimizer::windows::settings::{
    backup_check, chosen_app, cleanup_stopped, copy_list_step, disable_startup_check, entry_names, forget_backup,
    idle_check, keep_startup, report_order, report_status, restore_startup_check, KeepStartup, PersistentChange,
};
use process_optimizer::windows::startup::RunEntry;
use process_optimizer::windows::storage::{directory_check, recovery_acl, store_entry_check, DirectoryRole};
use process_optimizer::windows::update::{download_names, update_notice};

fn id(pid: u32, path: &str) -> Identity {
    Identity {
        pid,
        created: 7,
        path: path.into(),
        session_id: 1,
        provenance: Some(Provenance { owner_sid: "S-1-5-21-9".into(), logon_id: 3, image_file_id: format!("f{pid}") }),
    }
}

fn row(pid: u32, name: &str, path: &str, reason: Option<&str>) -> ProcessRow {
    ProcessRow { identity: id(pid, path), parent_pid: 1, name: name.into(), protected_reason: reason.map(String::from), gpu: vec![] }
}

fn action(pid: u32, path: &str, kind: ActionKind) -> ApprovedAction {
    ApprovedAction { target: id(pid, path), action: kind, reopen: None }
}

fn plan() -> Plan {
    Plan {
        manual_mode: false,
        game_path: String::new(),
        game: None,
        actions: vec![],
        protected_paths: vec![],
        options: Options::default(),
        consent: true,
        force_consent: false,
        experimental_consent: false,
    }
}

fn session(stage: Stage, changes: usize, closes: usize, worker: bool) -> Session {
    let mut s = Session::new("s1".into(), plan());
    s.stage = stage;
    s.worker = if worker { Some(id(99, r"C:\App\optimizer.exe")) } else { None };
    s.changes = (0..changes)
        .map(|_| Change {
            target: id(40, r"C:\Apps\a.exe"),
            before: Value::GpuPriority(2),
            applied: Value::GpuPriority(1),
            state: process_optimizer::model::ChangeState::Applied,
            detail: String::new(),
        })
        .collect();
    s.closed = (0..closes)
        .map(|_| CloseRecord { target: id(41, r"C:\Apps\b.exe"), force_allowed: false, state: CloseState::KeptOpen, detail: String::new() })
        .collect();
    s
}

#[test]
fn advanced_status_line_reports_stalled_and_running_sessions() {
    assert_eq!(
        status_line(&session(Stage::Active, 2, 1, true), false),
        "Active: worker not running. Click Restore now; original values remain in the recovery journal."
    );
    assert_eq!(
        status_line(&session(Stage::Active, 2, 1, true), true),
        "Session Active | 2 settings recorded | 1 close attempts. Closing/relaunching apps is not memory restoration."
    );
    assert_eq!(
        status_line(&session(Stage::Pending, 0, 0, false), false),
        "Session Pending | 0 settings recorded | 0 close attempts. Closing/relaunching apps is not memory restoration."
    );
    assert_eq!(
        status_line(&session(Stage::RecoveryNeeded, 3, 0, true), true),
        "Session RecoveryNeeded | 3 settings recorded | 0 close attempts. Review conflicts before continuing."
    );
    assert_eq!(
        status_line(&session(Stage::Restored, 1, 2, false), false),
        "Session Restored | 1 settings recorded | 2 close attempts. Closing/relaunching apps is not memory restoration."
    );
}

#[test]
fn a_fresh_snapshot_drops_actions_for_exited_processes() {
    let mut actions = vec![
        action(10, r"C:\Apps\a.exe", ActionKind::Close),
        action(20, r"C:\Apps\b.exe", ActionKind::LowerPriorities),
        action(30, r"C:\Apps\c.exe", ActionKind::ForceClose),
    ];
    let mut restarted = row(20, "b.exe", r"C:\Apps\b.exe", None);
    restarted.identity.created = 8;
    let rows = vec![row(30, "c.exe", r"C:\Apps\c.exe", None), restarted, row(10, "a.exe", r"C:\Apps\a.exe", None)];
    keep_live(&mut actions, &rows);
    assert_eq!(actions.iter().map(|a| a.target.pid).collect::<Vec<_>>(), vec![10, 30]);
    keep_live(&mut actions, &[]);
    assert!(actions.is_empty());
}

#[test]
fn advanced_rows_show_their_action_column() {
    let game = Some(id(12, r"D:\Games\game.exe"));
    let protected = vec![r"c:/apps/mine.exe".to_string()];
    let mut actions = vec![];
    mark_action(&mut actions, &id(14, r"C:\Apps\chat.exe"), Some(ActionKind::LowerPriorities));
    mark_action(&mut actions, &id(10, r"C:\Apps\editor.exe"), Some(ActionKind::ForceClose));
    let label = |r: &ProcessRow| action_label(r, &game, &protected, &actions);
    assert_eq!(label(&row(12, "game.exe", r"D:\Games\game.exe", None)), "GAME");
    assert_eq!(label(&row(13, "mine.exe", r"C:\Apps\Mine.exe", Some("x"))), "USER PROTECTED");
    assert_eq!(label(&row(11, "svc.exe", r"C:\Windows\svc.exe", Some("Windows component: protected."))), "PROTECTED: Windows component: protected.");
    assert_eq!(label(&row(14, "chat.exe", r"C:\Apps\chat.exe", None)), "LowerPriorities");
    assert_eq!(label(&row(10, "editor.exe", r"C:\Apps\editor.exe", None)), "ForceClose");
    assert_eq!(label(&row(15, "idle.exe", r"C:\Apps\idle.exe", None)), "Keep (default)");
}

#[test]
fn list_selection_keeps_only_rows_that_exist() {
    assert_eq!(selection_size(0, 5), None);
    assert_eq!(selection_size(-1, 5), None);
    assert_eq!(selection_size(6, 5), None);
    assert_eq!(selection_size(3, 5), Some(3));
    assert_eq!(selected_rows(&[4, -2, 1, 9, 0], 5, 5), vec![4, 1, 0]);
    assert_eq!(selected_rows(&[4, 1, 0], 2, 5), vec![4, 1]);
    assert_eq!(selected_rows(&[4, 1, 0], 8, 5), vec![4, 1, 0]);
    assert!(selected_rows(&[4, 1], -1, 5).is_empty());
}

#[test]
fn the_approval_plan_lists_each_process_then_the_limits() {
    let actions = vec![action(7, r"C:\Apps\a.exe", ActionKind::Close), action(1234, r"C:\Apps\b.exe", ActionKind::LowerPriorities)];
    assert_eq!(
        plan_text(&actions),
        "APPROVAL PLAN — exact processes, this session only\r\nClose: PID 7  C:\\Apps\\a.exe\r\nLowerPriorities: PID 1234  C:\\Apps\\b.exe\r\n\r\nA helper process exiting does not prove the entire application exited. Unselected/new helpers are never force-closed.\r\nGPU priority is not a usage cap. No documents, RAM contents, tabs or unsaved work are snapshotted. No automatic relaunch."
    );
    assert!(plan_text(&[]).starts_with("APPROVAL PLAN — exact processes, this session only\r\n\r\nA helper"));
}

#[test]
fn editing_the_game_path_keeps_the_game_only_for_the_same_executable() {
    let game = Some(id(12, r"D:\Games\Game.exe"));
    assert_eq!(game_after_edit(&game, "d:/games/game.exe").unwrap().pid, 12);
    assert!(game_after_edit(&game, r"D:\Games\other.exe").is_none());
    assert!(game_after_edit(&None, r"D:\Games\Game.exe").is_none());
}

#[test]
fn restore_is_left_to_a_live_worker_or_started_anew() {
    assert_eq!(restore_request(None, true), RestoreRequest::NothingUnfinished);
    assert_eq!(restore_request(Some(&session(Stage::Active, 0, 0, true)), true), RestoreRequest::LeftToWorker);
    assert_eq!(restore_request(Some(&session(Stage::Active, 0, 0, true)), false), RestoreRequest::StartRecovery);
    assert_eq!(restore_request(Some(&session(Stage::Active, 0, 0, false)), true), RestoreRequest::StartRecovery);
}

fn choice(protected: bool, running: bool, enabled: bool, disabled: bool) -> Choice {
    Choice {
        path: r"c:\apps\sync.exe".into(),
        name: "sync.exe".into(),
        id: if running { Some(id(50, r"C:\Apps\Sync.exe")) } else { None },
        protected,
        essential: false,
        gpu_hundredths: None,
        startup_enabled: enabled,
        startup_disabled: disabled,
    }
}

fn entry(name: &str) -> RunEntry {
    RunEntry { value_name: name.into(), command: r"C:\Apps\Sync.exe".into(), kind: StartupValueKind::String, executable: Some(r"C:\Apps\Sync.exe".into()) }
}

#[test]
fn settings_selection_and_persistent_changes_wait_for_game_mode_off() {
    assert_eq!(chosen_app(-1, 3).unwrap_err(), "Select a background app in Settings first.");
    assert_eq!(chosen_app(3, 3).unwrap_err(), "Selection changed; refresh the list.");
    assert_eq!(chosen_app(2, 3).unwrap(), 2);
    assert!(idle_check(false, false, PersistentChange::Permissions).is_ok());
    assert_eq!(idle_check(true, false, PersistentChange::Permissions).unwrap_err(), "Turn Game Mode OFF before changing app permissions.");
    assert_eq!(idle_check(false, true, PersistentChange::DisableStartup).unwrap_err(), "Turn Game Mode OFF before changing Windows startup.");
    assert_eq!(idle_check(false, true, PersistentChange::RestoreStartup).unwrap_err(), "Turn Game Mode OFF before restoring Windows startup.");
    assert_eq!(
        idle_check(false, true, PersistentChange::Update).unwrap_err(),
        "Turn Game Mode OFF and finish recovery before updating Process Optimizer."
    );
}

#[test]
fn disabling_startup_is_checked_before_and_after_confirmation() {
    let entries = vec![entry("SyncHelper"), entry("SyncTray")];
    assert_eq!(disable_startup_check(&choice(true, true, true, false), &entries).unwrap_err(), "This application is protected.");
    assert_eq!(
        disable_startup_check(&choice(false, false, true, false), &entries).unwrap_err(),
        "Open the app, Refresh apps, then review it before disabling startup."
    );
    assert!(disable_startup_check(&choice(false, true, true, false), &[]).unwrap_err().starts_with("No supported current-user Windows startup entry"));
    let target = disable_startup_check(&choice(false, true, true, false), &entries).unwrap();
    assert_eq!(target.pid, 50);
    assert_eq!(entry_names(&entries), "SyncHelper, SyncTray");
    assert_eq!(entry_names(&entries[..1]), "SyncHelper");
    assert_eq!(entry_names(&[]), "");
    assert!(backup_check(&target, &entries, &["Other".into()]).is_ok());
    let taken = "That startup entry is already backed up. Restore or review it first.";
    assert_eq!(backup_check(&target, &entries, &["synctray".into()]).unwrap_err(), taken);
    assert_eq!(backup_check(&target, &[entry("A"), entry("a")], &[]).unwrap_err(), taken);
    let mut unknown = target.clone();
    unknown.provenance = None;
    assert_eq!(backup_check(&unknown, &entries, &[]).unwrap_err(), "Unknown application owner");
    assert_eq!(
        cleanup_stopped("Access denied."),
        "Startup cleanup stopped: Access denied. The original value is backed up; use Restore Windows startup."
    );
}

#[test]
fn keeping_and_restoring_startup_follow_the_backups() {
    assert!(matches!(keep_startup(&choice(false, true, false, true)), KeepStartup::Restore));
    match keep_startup(&choice(false, true, true, false)) {
        KeepStartup::Inform(m) => assert!(m.starts_with("Windows startup is kept for this app.")),
        KeepStartup::Restore => panic!("an enabled entry is kept"),
    }
    match keep_startup(&choice(false, true, false, false)) {
        KeepStartup::Inform(m) => assert!(m.starts_with("No supported current-user Windows startup entry exists")),
        KeepStartup::Restore => panic!("nothing to restore"),
    }
    let mut disabled = vec![r"C:\Apps\Sync.exe".to_string(), r"C:\Apps\Other.exe".to_string(), r"C:\Apps\Sync.exe".to_string()];
    assert!(restore_startup_check(&disabled, r"C:\Apps\Sync.exe").is_ok());
    assert_eq!(restore_startup_check(&disabled, r"c:\apps\sync.exe").unwrap_err(), "No startup backup exists for this app.");
    forget_backup(&mut disabled, r"C:\Apps\Sync.exe");
    assert_eq!(disabled, vec![r"C:\Apps\Other.exe".to_string()]);
    assert_eq!(restore_startup_check(&disabled, r"C:\Apps\Sync.exe").unwrap_err(), "No startup backup exists for this app.");
}

#[test]
fn the_process_report_is_ordered_by_name_then_pid() {
    assert_eq!(copy_list_step(true, 0).unwrap(), false);
    assert_eq!(copy_list_step(false, 0).unwrap_err(), "Refresh apps first, then open the copyable process list.");
    assert_eq!(copy_list_step(false, 4).unwrap(), true);
    let rows = vec![
        row(30, "zeta.exe", r"C:\z.exe", None),
        row(20, "Alpha.exe", r"C:\a.exe", Some("Protected process.")),
        row(10, "alpha.exe", r"C:\a2.exe", None),
        row(5, "beta.exe", r"C:\b.exe", None),
        row(10, "ALPHA.exe", r"C:\a3.exe", None),
    ];
    assert_eq!(report_order(&rows), vec![2, 4, 1, 3, 0]);
    assert!(report_order(&[]).is_empty());
    assert_eq!(report_status(&rows[1]), "Protected process.");
    assert_eq!(report_status(&rows[0]), "Optional / not approved");
}

#[test]
fn storage_paths_must_be_plain_and_private() {
    assert!(directory_check(DirectoryRole::Storage, true, 0x10).is_ok());
    assert_eq!(directory_check(DirectoryRole::Storage, true, 0x410).unwrap_err(), "Recovery storage must be a normal non-reparse directory.");
    assert_eq!(
        directory_check(DirectoryRole::StateAncestor, false, 0).unwrap_err(),
        "Reparse or non-directory ancestor in the state path; no fallback is allowed."
    );
    assert_eq!(
        directory_check(DirectoryRole::Recheck, true, 0x400).unwrap_err(),
        "Recovery directory changed to a reparse or non-directory entry."
    );
    assert!(store_entry_check("state.sqlite3", None).is_ok());
    assert!(store_entry_check("state.sqlite3", Some((true, 0x20))).is_ok());
    assert_eq!(store_entry_check("controller.lock", Some((false, 0))).unwrap_err(), "Recovery entry controller.lock is not a normal file.");
    assert_eq!(store_entry_check("controller.lock", Some((true, 0x400))).unwrap_err(), "Recovery entry controller.lock is not a normal file.");
    assert_eq!(recovery_acl("S-1-5-21-1"), "D:P(A;OICI;FA;;;SY)(A;OICI;FA;;;S-1-5-21-1)");
}

#[test]
fn update_messages_and_download_names() {
    assert_eq!(update_notice("0.4.1", None), "You are up to date.\n\nInstalled version: 0.4.1");
    assert_eq!(
        update_notice("0.4.1", Some("0.5.0")),
        "Process Optimizer 0.5.0 is available.\n\nInstalled: 0.4.1\nAvailable: 0.5.0\n\nDownload, verify, replace the local app, and restart now?"
    );
    let (app, updater) = download_names("0.5.0");
    assert_eq!(app, "process-optimizer-0.5.0.exe");
    assert_eq!(updater, "process-optimizer-updater-0.5.0.exe");
}

#[test]
fn the_updater_reads_back_the_command_it_is_given() {
    let args = updater_command(r"C:\Apps\PO", r"C:\u\app.exe", r"C:\u\upd.exe", "aa", "bb", 4321);
    assert_eq!(args.len(), 13);
    assert_eq!(args[0], "--apply");
    assert_eq!(args[12], "4321");
    let parsed = updater_args(&args).unwrap();
    assert_eq!(parsed.install_dir, r"C:\Apps\PO");
    assert_eq!(parsed.app, r"C:\u\app.exe");
    assert_eq!(parsed.updater, r"C:\u\upd.exe");
    assert_eq!(parsed.app_sha256, "aa");
    assert_eq!(parsed.updater_sha256, "bb");
    assert_eq!(parsed.parent_pid, 4321);
    assert!(!parsed.no_restart);
    assert_eq!(updater_command("d", "a", "u", "x", "y", 0)[12], "0");
}

#[test]
fn native_handles_are_checked_against_the_recorded_process() {
    assert_eq!(filetime(1, 2), 0x1_0000_0002);
    assert_eq!(filetime(0xFFFF_FFFF, 0xFFFF_FFFF), u64::MAX);
    let recorded = id(60, r"C:\Apps\a.exe");
    assert!(exact_check(&recorded, &Some(recorded.clone())).is_ok());
    let gone = exact_check(&recorded, &None).unwrap_err();
    assert_eq!((gone.kind, gone.message.as_str()), (FaultKind::Gone, "Original process exited."));
    let mut reused = recorded.clone();
    reused.created = 9;
    let changed = exact_check(&recorded, &Some(reused)).unwrap_err();
    assert_eq!((changed.kind, changed.message.as_str()), (FaultKind::Gone, "PID was reused or executable identity changed."));
    assert_eq!(alive_from(Ok(())).unwrap(), true);
    assert_eq!(alive_from(Err(Fault::new(FaultKind::Gone, "x"))).unwrap(), false);
    assert_eq!(alive_from(Err(Fault::new(FaultKind::Denied, "no"))).unwrap_err().kind, FaultKind::Denied);
}

#[test]
fn apps_start_only_on_the_unlocked_default_desktop() {
    let name: Vec<u16> = "Default\0junk".encode_utf16().collect();
    let ready = Some((1u32, 3u32, true, true));
    assert!(desktop_ready_from(ready, 3, Some(&name)));
    let upper: Vec<u16> = "DEFAULT".encode_utf16().collect();
    assert!(desktop_ready_from(ready, 3, Some(&upper)));
    let winlogon: Vec<u16> = "Winlogon\0".encode_utf16().collect();
    assert!(!desktop_ready_from(ready, 3, Some(&winlogon)));
    let longer: Vec<u16> = "Defaults".encode_utf16().collect();
    assert!(!desktop_ready_from(ready, 3, Some(&longer)));
    assert!(!desktop_ready_from(ready, 3, None));
    assert!(!desktop_ready_from(ready, 4, Some(&name)));
    assert!(!desktop_ready_from(Some((1, 3, true, false)), 3, Some(&name)));
    assert!(!desktop_ready_from(Some((1, 3, false, true)), 3, Some(&name)));
    assert!(!desktop_ready_from(Some((2, 3, true, true)), 3, Some(&name)));
    assert!(!desktop_ready_from(None, 3, Some(&name)));
}

#[test]
fn the_foreground_owner_and_session_cancellation() {
    assert_eq!(foreground_owner(false, None, 7).unwrap(), None);
    assert_eq!(foreground_owner(true, Some(7), 7).unwrap(), None);
    assert_eq!(foreground_owner(true, Some(9), 7).unwrap(), Some(9));
    let unknown = foreground_owner(true, Some(0), 7).unwrap_err();
    assert_eq!((unknown.kind, unknown.message.as_str()), (FaultKind::Denied, "Cannot identify the foreground application."));
    assert_eq!(foreground_owner(true, None, 7).unwrap_err().kind, FaultKind::Denied);
    assert!(!cancel_requested(false, &None));
    assert!(cancel_requested(true, &None));
    assert!(!cancel_requested(false, &Some(Ok(true))));
    assert!(cancel_requested(false, &Some(Ok(false))));
    assert!(cancel_requested(false, &Some(Err(Fault::new(FaultKind::Denied, "no")))));
}
