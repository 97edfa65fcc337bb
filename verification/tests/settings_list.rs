//! The Settings app list, its per-app controls and the texts it shows.
use process_optimizer::advice::{controls, detail, rule_action, Choice};
use process_optimizer::applications::AppKey;
use process_optimizer::manual::{Rule, RuleAction};
use process_optimizer::model::{GpuReading, Identity, ProcessRow, Provenance, ReopenApproval};
use process_optimizer::windows::app_list::{app_list, busiest_hundredths, list_line, row_key_of};
use process_optimizer::windows::startup::RunEntry;

fn identity(pid: u32, path: &str) -> Identity {
    Identity {
        pid,
        created: 10,
        path: path.into(),
        session_id: 1,
        provenance: Some(Provenance { owner_sid: "S-1-5-21-1".into(), logon_id: 2, image_file_id: format!("file-{pid}") }),
    }
}

fn reading(percent: Option<u32>) -> GpuReading {
    GpuReading { adapter: "a".into(), engine: "3D".into(), percent_hundredths: percent, dedicated_bytes: None, shared_bytes: None }
}

fn row(pid: u32, name: &str, path: &str, reason: Option<&str>, gpu: Vec<GpuReading>) -> ProcessRow {
    ProcessRow { identity: identity(pid, path), parent_pid: 1, name: name.into(), protected_reason: reason.map(String::from), gpu }
}

fn rule(path: &str, action: RuleAction, granted: u64, expires: u64) -> Rule {
    Rule {
        app: AppKey { path: path.into(), image_file_id: "f".into() },
        stamp: ReopenApproval { image_file_id: "f".into(), file_size: 1, modified: 1 },
        owner_sid: "S-1-5-21-1".into(),
        action,
        granted_unix: granted,
        expires_unix: expires,
    }
}

fn entry(executable: &str) -> RunEntry {
    RunEntry {
        value_name: "x".into(),
        command: executable.into(),
        kind: process_optimizer::manual::StartupValueKind::String,
        executable: Some(executable.into()),
    }
}

#[test]
fn processes_of_one_executable_share_an_entry() {
    let rows = vec![
        row(100, "Chrome.exe", r"C:\Apps\Chrome.exe", None, vec![reading(Some(250)), reading(Some(20000))]),
        row(101, "chrome.exe", r"c:/apps/chrome.exe", Some("helper"), vec![reading(Some(900)), reading(None)]),
    ];
    let list = app_list(&rows, &[], &[], &[]);
    assert_eq!(list.len(), 1);
    let c = &list[0];
    assert_eq!(c.path, r"c:\apps\chrome.exe");
    assert_eq!(c.name, "Chrome.exe");
    assert_eq!(c.id.as_ref().unwrap().pid, 100);
    assert!(c.protected);
    assert!(!c.essential);
    assert_eq!(c.gpu_hundredths, Some(900));
}

#[test]
fn essential_processes_without_identity_stay_visible() {
    let mut svchost = row(812, "SvcHost.exe", "", None, vec![]);
    svchost.identity.created = 0;
    svchost.identity.provenance = None;
    let mut unknown = row(813, "mystery.exe", "", None, vec![]);
    unknown.identity.provenance = None;
    assert_eq!(row_key_of(&svchost), Some("protected://svchost.exe:812".to_string()));
    assert_eq!(row_key_of(&unknown), None);
    let list = app_list(&[svchost, unknown], &[], &[], &[]);
    assert_eq!(list.len(), 1);
    assert!(list[0].essential && list[0].protected);
    assert!(list[0].id.is_none());
}

#[test]
fn saved_permissions_and_disabled_startup_entries_are_listed() {
    let rows = vec![row(200, "editor.exe", r"C:\Apps\Editor.exe", None, vec![])];
    let rules = vec![rule(r"c:\tools\sync.exe", RuleAction::Close, 0, 100)];
    let disabled = vec![r"c:\tools\updater.exe".to_string(), r"c:\apps\editor.exe".to_string()];
    let startup = vec![entry(r"c:\apps\editor.exe")];
    let list = app_list(&rows, &rules, &disabled, &startup);
    assert_eq!(list.len(), 3);
    let by = |p: &str| list.iter().find(|c| c.path == p).unwrap();
    let editor = by(r"c:\apps\editor.exe");
    assert!(editor.startup_enabled && editor.startup_disabled);
    let sync = by(r"c:\tools\sync.exe");
    assert_eq!(sync.name, "sync.exe");
    assert!(sync.id.is_none() && !sync.startup_enabled && !sync.startup_disabled);
    let updater = by(r"c:\tools\updater.exe");
    assert_eq!(updater.name, "updater.exe");
    assert!(updater.startup_disabled);
}

#[test]
fn protected_and_essential_apps_come_last() {
    let mut core = row(4000, "csrss.exe", "", None, vec![]);
    core.identity.provenance = None;
    let rows = vec![
        row(300, "Zed.exe", r"C:\Apps\Zed.exe", None, vec![]),
        row(301, "steam.exe", r"C:\Games\steam.exe", Some("Protected system, game-support, voice or optimizer application."), vec![]),
        core,
        row(302, "alpha.exe", r"C:\Apps\alpha.exe", None, vec![]),
        row(303, "Beta.exe", r"C:\Apps\Beta.exe", None, vec![]),
    ];
    let names: Vec<String> = app_list(&rows, &[], &[], &[]).into_iter().map(|c| c.name).collect();
    assert_eq!(names, vec!["alpha.exe", "Beta.exe", "Zed.exe", "steam.exe", "csrss.exe"]);
}

#[test]
fn busiest_engine_ignores_unknown_and_impossible_readings() {
    assert_eq!(busiest_hundredths(&[]), None);
    assert_eq!(busiest_hundredths(&[reading(None), reading(Some(10001))]), None);
    assert_eq!(busiest_hundredths(&[reading(Some(300)), reading(Some(10000)), reading(Some(50))]), Some(10000));
}

fn choice(protected: bool, running: bool, startup_enabled: bool, startup_disabled: bool) -> Choice {
    Choice {
        path: r"c:\apps\tool.exe".into(),
        name: "tool.exe".into(),
        id: if running { Some(identity(9, r"C:\Apps\tool.exe")) } else { None },
        protected,
        essential: false,
        gpu_hundredths: None,
        startup_enabled,
        startup_disabled,
    }
}

#[test]
fn protected_rows_offer_no_lower_close_or_startup_cleanup() {
    let rules = vec![rule(r"c:\apps\tool.exe", RuleAction::Close, 0, 100)];
    let c = controls(&choice(true, true, true, false), &rules, 50, true);
    assert!(!c.reduce_enabled && !c.close_enabled && !c.disable_startup_enabled);
    assert!(c.keep_enabled);
    assert!(c.close_checked && !c.keep_checked);
    let plain = controls(&choice(true, true, true, false), &[], 50, true);
    assert!(!plain.keep_enabled);
    let restorable = controls(&choice(true, false, false, true), &[], 50, true);
    assert!(restorable.restore_startup_enabled && restorable.startup_disabled_checked);
}

#[test]
fn optional_running_apps_can_be_changed_only_while_idle() {
    let c = controls(&choice(false, true, true, false), &[], 50, true);
    assert!(c.keep_enabled && c.reduce_enabled && c.close_enabled && c.disable_startup_enabled && c.restore_startup_enabled);
    assert!(c.keep_checked && c.startup_kept_checked);
    let busy = controls(&choice(false, true, true, false), &[], 50, false);
    assert!(!busy.keep_enabled && !busy.reduce_enabled && !busy.close_enabled && !busy.disable_startup_enabled && !busy.restore_startup_enabled);
    let stopped = controls(&choice(false, false, true, false), &[], 50, true);
    assert!(!stopped.reduce_enabled && !stopped.close_enabled && !stopped.disable_startup_enabled);
}

#[test]
fn expired_permissions_are_not_in_force() {
    let rules = vec![rule(r"c:\apps\tool.exe", RuleAction::ReduceLoad, 0, 100), rule(r"c:\apps\tool.exe", RuleAction::Close, 0, 1000)];
    assert_eq!(rule_action(&rules, r"c:\apps\tool.exe", 99), Some(RuleAction::ReduceLoad));
    assert_eq!(rule_action(&rules, r"c:\apps\tool.exe", 100), None);
    assert_eq!(rule_action(&rules, r"c:\apps\other.exe", 5), None);
    let c = controls(&choice(false, true, false, false), &rules, 150, true);
    assert!(c.keep_checked && !c.reduce_checked && !c.close_checked);
}

#[test]
fn detail_and_row_texts() {
    let c = choice(false, true, true, false);
    assert_eq!(
        detail(&c, Some(RuleAction::ReduceLoad)),
        "Optional app. Optional app: Review before changing. Current: Game Mode = Lower priority; Startup = Keep / starts with Windows. Recommended: KEEP / REVIEW. Turn OFF restores priority changes already applied."
    );
    let core = Choice { essential: true, protected: true, ..choice(true, false, false, false) };
    assert_eq!(
        detail(&core, None),
        "ESSENTIAL — KEEP. This Windows/core process is never an optimization target. Windows / core: Required; do not change. Current: Game Mode = Keep; Startup = No supported startup entry. Recommended: KEEP — REQUIRED. Turn OFF restores priority changes already applied."
    );
    let rules = vec![rule(r"c:\apps\tool.exe", RuleAction::Close, 0, 100)];
    assert_eq!(
        list_line(&c, &rules, 10),
        "OPTIONAL | tool.exe — Optional app | Game: Close | Startup: Keep | RECOMMENDED: KEEP / REVIEW"
    );
    assert_eq!(
        list_line(&choice(true, false, false, true), &rules, 100),
        "PROTECTED — KEEP | tool.exe — Protected app | Game: Keep (approval expired) | Startup: Disabled | RECOMMENDED: KEEP — PROTECTED | Not running"
    );
}
