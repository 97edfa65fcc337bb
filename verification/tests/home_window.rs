//! The On/Off window's decisions and the per-app permission changes behind Settings.
use process_optimizer::advice::Choice;
use process_optimizer::manual::{self, set_permission, Config, RuleAction};
use process_optimizer::model::{
    ActionKind, ApprovedAction, CloseRecord, CloseState, Identity, Plan, ProcessRow, Provenance, ReopenApproval, Session, Stage,
};
use process_optimizer::windows::home::{home_view, toggle_step, ToggleStep};
use process_optimizer::windows::manual::permit_check;

fn id(pid: u32) -> Identity {
    Identity {
        pid,
        created: 1,
        path: format!(r"C:\Fixture\app{pid}.exe"),
        session_id: 1,
        provenance: Some(Provenance { owner_sid: "test-user".into(), logon_id: 1, image_file_id: format!("file{pid}") }),
    }
}

fn stamp(target: &Identity) -> ReopenApproval {
    ReopenApproval { image_file_id: target.provenance.as_ref().unwrap().image_file_id.clone(), file_size: 10, modified: 1 }
}

fn rule(pid: u32, action: RuleAction, now: u64) -> manual::Rule {
    let i = id(pid);
    manual::approve(&i, stamp(&i), action, now).unwrap()
}

#[test]
fn keep_removes_a_permission_and_approval_replaces_it() {
    let mut c = Config { schema: 1, rules: vec![rule(10, RuleAction::Close, 100), rule(11, RuleAction::ReduceLoad, 100)] };
    let path = c.rules[0].app.path.clone();
    set_permission(&mut c, &path, None);
    assert_eq!(c.rules.len(), 1);
    assert!(c.rules.iter().all(|r| r.app.path != path));
    let again = rule(10, RuleAction::ReduceLoad, 200);
    set_permission(&mut c, &path, Some(again));
    assert_eq!(c.rules.len(), 2);
    assert_eq!(c.rules[1].app.path, path);
    assert_eq!(c.rules[1].action, RuleAction::ReduceLoad);
    let other = c.rules[0].app.path.clone();
    assert_ne!(other, path);
    let replacement = rule(10, RuleAction::Close, 300);
    set_permission(&mut c, &path, Some(replacement));
    assert_eq!(c.rules.len(), 2);
    assert_eq!(c.rules[0].app.path, other);
    assert_eq!(c.rules[1].action, RuleAction::Close);
    assert_eq!(c.schema, 1);
}

fn row(target: Identity, reason: Option<&str>) -> ProcessRow {
    ProcessRow { name: "app.exe".into(), identity: target, parent_pid: 0, protected_reason: reason.map(String::from), gpu: vec![] }
}

fn choice(target: Option<Identity>, protected: bool) -> Choice {
    Choice {
        path: r"c:\fixture\app10.exe".into(),
        name: "app10.exe".into(),
        id: target,
        protected,
        essential: false,
        gpu_hundredths: None,
        startup_enabled: false,
        startup_disabled: false,
    }
}

#[test]
fn permissions_are_granted_only_for_unprotected_running_apps() {
    let rows = vec![row(id(10), None)];
    assert_eq!(permit_check(&choice(Some(id(10)), false), &rows, &[]).unwrap().pid, 10);
    assert_eq!(permit_check(&choice(Some(id(10)), true), &rows, &[]).unwrap_err(), "This application is protected.");
    assert_eq!(
        permit_check(&choice(None, false), &rows, &[]).unwrap_err(),
        "Open the app and refresh Settings before approving it."
    );
    let mut restarted = id(10);
    restarted.created = 2;
    assert_eq!(
        permit_check(&choice(Some(restarted), false), &rows, &[]).unwrap_err(),
        "App changed; refresh and review it again."
    );
    assert_eq!(
        permit_check(&choice(Some(id(10)), false), &[row(id(10), Some("Protected process."))], &[]).unwrap_err(),
        "This app is protected. Its permission was not changed."
    );
    assert_eq!(
        permit_check(&choice(Some(id(10)), false), &rows, &[r"C:/FIXTURE/App10.exe".into()]).unwrap_err(),
        "This app is protected. Its permission was not changed."
    );
}

fn session(stage: Stage, actions: usize, closed: &[CloseState], changes: usize, worker: bool) -> Session {
    let plan = Plan {
        actions: (0..actions)
            .map(|i| ApprovedAction { target: id(20 + i as u32), action: ActionKind::Close, reopen: None })
            .collect(),
        ..manual::plan(&Config { schema: 1, rules: vec![rule(10, RuleAction::Close, 100)] }, &[row(id(10), None)], &id(99), &[], 101, false)
            .unwrap()
    };
    let mut s = Session::new("s".into(), plan);
    s.stage = stage;
    s.worker = if worker { Some(id(99)) } else { None };
    s.closed = closed
        .iter()
        .map(|state| CloseRecord { target: id(30), force_allowed: false, state: *state, detail: String::new() })
        .collect();
    let template = process_optimizer::model::Change {
        target: id(31),
        before: process_optimizer::model::Value::GpuPriority(2),
        applied: process_optimizer::model::Value::GpuPriority(1),
        state: process_optimizer::model::ChangeState::Applied,
        detail: String::new(),
    };
    s.changes = (0..changes).map(|_| template.clone()).collect();
    s
}

#[test]
fn the_button_stops_running_sessions_before_anything_else() {
    let rules = vec![rule(10, RuleAction::Close, 100)];
    assert_eq!(toggle_step(true, None, false, &rules, 101), ToggleStep::CancelPreparing);
    let s = session(Stage::Active, 1, &[], 0, true);
    assert_eq!(toggle_step(false, Some(&s), true, &rules, 101), ToggleStep::Stop { recover: false });
    assert_eq!(toggle_step(false, Some(&s), false, &rules, 101), ToggleStep::Stop { recover: true });
    assert_eq!(toggle_step(false, None, false, &rules, 101), ToggleStep::Prepare);
    assert_eq!(toggle_step(false, None, false, &rules, 100 + 30 * 24 * 60 * 60), ToggleStep::OpenSetup);
    assert_eq!(toggle_step(false, None, false, &[], 101), ToggleStep::OpenSetup);
}

#[test]
fn the_window_says_what_the_session_is_doing() {
    let rules = vec![rule(10, RuleAction::Close, 100)];
    let off = home_view(None, false, false, &rules, 101, 2);
    assert_eq!(off.title, "Game Mode is OFF");
    assert_eq!(off.toggle, "Turn ON");
    assert_eq!(off.summary, "1 Game Mode rule(s) ready; 2 startup item(s) disabled.");
    assert!(off.idle && !off.acknowledge);
    assert_eq!(home_view(None, false, false, &[], 101, 0).summary, "Settings: choose Game Mode-only or Permanent cleanup.");

    let on = session(Stage::Active, 2, &[CloseState::ClosedGracefully, CloseState::KeptOpen, CloseState::Terminated], 3, true);
    let v = home_view(Some(&on), true, false, &rules, 101, 0);
    assert_eq!(v.title, "Game Mode is ON");
    assert_eq!(v.toggle, "Turn OFF");
    assert_eq!(v.summary, "2 process(es) closed; 3 setting(s) recorded.\r\nYou can start or switch games normally.");
    assert!(!v.idle && !v.acknowledge);
    let empty = session(Stage::Active, 0, &[], 0, true);
    assert_eq!(home_view(Some(&empty), true, false, &rules, 101, 0).summary, "No approved apps matched. Nothing was changed.");

    let lost = home_view(Some(&on), false, false, &rules, 101, 0);
    assert_eq!(lost.title, "Recovery needs attention");
    assert_eq!(lost.toggle, "Restore settings");
    let stopping = home_view(Some(&on), true, true, &rules, 101, 0);
    assert_eq!(stopping.title, "Turning Game Mode OFF");
    let review = session(Stage::RecoveryNeeded, 1, &[], 0, false);
    let r = home_view(Some(&review), false, false, &rules, 101, 0);
    assert_eq!(r.summary, "Some outcomes need review. Settings > Session details.");
    assert!(r.acknowledge);
    let starting = session(Stage::Pending, 1, &[], 0, true);
    assert_eq!(home_view(Some(&starting), true, false, &rules, 101, 0).title, "Starting Game Mode");
}
