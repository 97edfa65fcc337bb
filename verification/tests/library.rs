//! Reports, groups, profiles and permissions on concrete values.
use process_optimizer::applications::{self, eligible};
use process_optimizer::manual::{self, RuleAction};
use process_optimizer::model::{
    ActionKind, ApprovedAction, Change, ChangeState, CloseRecord, CloseState, Identity, Options, Plan,
    ProcessRow, Provenance, ReopenApproval, Session, Stage, Value,
};
use process_optimizer::profiles;
use process_optimizer::report::render;

fn id(pid: u32, name: &str) -> Identity {
    Identity {
        pid,
        created: 7,
        path: format!(r"C:\Apps\{name}.exe"),
        session_id: 1,
        provenance: Some(Provenance { owner_sid: "u".into(), logon_id: 3, image_file_id: format!("f-{name}") }),
    }
}

fn row(identity: Identity) -> ProcessRow {
    ProcessRow { identity, parent_pid: 0, name: "fixture.exe".into(), protected_reason: None, gpu: vec![] }
}

fn plan() -> Plan {
    Plan {
        manual_mode: false,
        game_path: r"C:\Apps\game.exe".into(),
        game: Some(id(99, "game")),
        actions: vec![ApprovedAction { target: id(10, "a"), action: ActionKind::LowerPriorities, reopen: None }],
        protected_paths: vec![],
        options: Options { cpu_priority: true, ..Options::default() },
        consent: true,
        force_consent: false,
        experimental_consent: false,
    }
}

#[test]
fn report_lists_every_record_in_plain_text() {
    let mut s = Session::new("r1".into(), plan());
    s.stage = Stage::RecoveryNeeded;
    s.changes.push(Change {
        target: id(10, "a"),
        before: Value::EcoQos { control: 0, state: 0 },
        applied: Value::EcoQos { control: 1, state: 1 },
        state: ChangeState::Conflict,
        detail: "d".into(),
    });
    s.closed.push(CloseRecord { target: id(11, "b"), force_allowed: false, state: CloseState::KeptOpen, detail: "k".into() });
    s.note("e1".into());
    let text = render(&s);
    let expected = "GAME SESSION — RecoveryNeeded\r\nC:\\Apps\\game.exe\r\nSession: r1\r\nGaming performance benefit: not measured\r\n\r\n\
SETTINGS\r\nConflict | PID 10 | EcoQos: EcoQos { control: 0, state: 0 } -> EcoQos { control: 1, state: 1 }\r\nC:\\Apps\\a.exe\r\nd\r\n\r\n\
CLOSE REQUESTS\r\nKeptOpen | PID 11 | C:\\Apps\\b.exe\r\nk\r\n\r\n\
OPTIONAL APP REOPENING\r\nNo app reopening has been recorded.\r\n\
EVENTS\r\ne1\r\n\
\r\nReopening starts a new process. It does not recover documents, tabs, unsaved work, RAM or VRAM. Unselected helpers may remain.\r\n";
    assert_eq!(text, expected);
}

#[test]
fn report_formats_signed_gpu_values() {
    let mut s = Session::new("r2".into(), plan());
    s.changes.push(Change {
        target: id(10, "a"),
        before: Value::GpuPriority(-2),
        applied: Value::GpuPriority(1),
        state: ChangeState::Applied,
        detail: String::new(),
    });
    assert!(render(&s).contains("GpuPriority: GpuPriority(-2) -> GpuPriority(1)"));
    assert!(render(&Session::new("r3".into(), plan())).contains("No scheduling settings were changed.\r\nCLOSE REQUESTS\r\nNo close requests were recorded.\r\n"));
}

#[test]
fn group_is_ordered_by_pid_with_one_entry_each() {
    let a = id(30, "bg");
    let b = id(10, "bg");
    let mut dup = id(10, "bg");
    dup.created = 8;
    let g = applications::group(&[row(a.clone()), row(b.clone()), row(dup)], &a).unwrap();
    assert_eq!(g, vec![b, a]);
}

#[test]
fn eligibility_follows_protection_session_and_family() {
    let game = id(99, "game");
    let mut child = row(id(20, "helper"));
    child.parent_pid = 99;
    let rows = vec![row(game.clone()), child.clone(), row(id(21, "other"))];
    assert!(!eligible(&child, &game, &rows, &[]));
    assert!(eligible(&rows[2], &game, &rows, &[]));
    assert!(!eligible(&rows[2], &game, &rows, &[r"c:/apps/OTHER.exe".into()]));
    let mut system = row(id(22, "svc"));
    system.name = "SvcHost.exe".into();
    assert!(!eligible(&system, &game, &rows, &[]));
}

#[test]
fn capture_orders_recipes_by_path_and_merges_processes() {
    let acts = vec![
        ApprovedAction { target: id(12, "zeta"), action: ActionKind::Close, reopen: None },
        ApprovedAction { target: id(10, "alpha"), action: ActionKind::Close, reopen: None },
        ApprovedAction { target: id(11, "zeta"), action: ActionKind::Close, reopen: None },
    ];
    let p = profiles::capture(&id(99, "game"), &acts, &Options { close_timeout_ms: 2000, ..Options::default() }).unwrap();
    let paths: Vec<_> = p.targets.iter().map(|t| t.app.path.clone()).collect();
    assert_eq!(paths, vec![r"c:\apps\alpha.exe".to_string(), r"c:\apps\zeta.exe".to_string()]);
    assert_eq!(p.options.close_timeout_ms, 2000);
    assert!(profiles::capture(&id(99, "game"), &acts, &Options { close_timeout_ms: 20000, ..Options::default() }).is_err());
}

#[test]
fn resolve_notices_name_what_was_left_out() {
    let acts = vec![ApprovedAction { target: id(10, "alpha"), action: ActionKind::Close, reopen: None }];
    let p = profiles::capture(&id(99, "game"), &acts, &Options::default()).unwrap();
    let preview = profiles::resolve(&p, &id(99, "game"), &[row(id(99, "game"))], &[]).unwrap();
    assert_eq!(preview.notices.len(), 2);
    assert_eq!(preview.notices[0], r"Not included (not running, updated or unverifiable): c:\apps\alpha.exe");
    assert!(preview.notices[1].starts_with("Preview only."));
    let mut game_child = row(id(10, "alpha"));
    game_child.parent_pid = 99;
    let preview = profiles::resolve(&p, &id(99, "game"), &[row(id(99, "game")), game_child], &[]).unwrap();
    assert_eq!(preview.notices[0], r"Not included (protected group): c:\apps\alpha.exe");
}

#[test]
fn approval_binds_file_owner_and_thirty_days() {
    let i = id(10, "alpha");
    let s = ReopenApproval { image_file_id: "f-alpha".into(), file_size: 1, modified: 1 };
    let r = manual::approve(&i, s.clone(), RuleAction::ReduceLoad, 1000).unwrap();
    assert_eq!(r.app.path, r"c:\apps\alpha.exe");
    assert_eq!(r.owner_sid, "u");
    assert_eq!((r.granted_unix, r.expires_unix), (1000, 1000 + manual::APPROVAL_SECONDS));
    assert!(r.active(1000) && !r.active(999) && !r.active(1000 + manual::APPROVAL_SECONDS));
    assert!(manual::approve(&i, s.clone(), RuleAction::Close, u64::MAX - 10).is_err());
    assert!(manual::approve(&i, s.clone(), RuleAction::Close, 0).is_err());
    let other = ReopenApproval { image_file_id: "other".into(), ..s.clone() };
    assert!(manual::approve(&i, other, RuleAction::Close, 1000).is_err());
    let explorer = Identity { path: r"C:\Windows\explorer.exe".into(), ..id(10, "alpha") };
    assert!(manual::approve(&explorer, s, RuleAction::Close, 1000).is_err());
}

#[test]
fn manual_plan_lowers_only_when_asked_and_orders_by_pid() {
    let i = id(10, "alpha");
    let s = ReopenApproval { image_file_id: "f-alpha".into(), file_size: 1, modified: 1 };
    let rule = manual::approve(&i, s, RuleAction::ReduceLoad, 1000).unwrap();
    let c = manual::Config { schema: 1, rules: vec![rule] };
    let p = manual::plan(&c, &[row(id(30, "alpha")), row(id(20, "alpha"))], &id(99, "game"), &[], 1001, false).unwrap();
    assert_eq!(p.actions.iter().map(|a| a.target.pid).collect::<Vec<_>>(), vec![20, 30]);
    assert!(p.options.cpu_priority && p.options.eco_qos && p.options.memory_priority && !p.options.gpu_priority);
    assert!(p.actions.iter().all(|a| a.action == ActionKind::LowerPriorities && a.reopen.is_none()));
}
