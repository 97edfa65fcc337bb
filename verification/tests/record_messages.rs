//! Every refusal of a recovery record names the first check it failed.
use process_optimizer::integrity::validate_record;
use process_optimizer::model::{
    ActionKind, ApprovedAction, Change, ChangeState, CloseRecord, CloseState, Identity, Options, Plan, Session, Stage,
    Value,
};
use process_optimizer::policy::validate;

fn id(pid: u32) -> Identity {
    Identity { pid, created: 100, path: format!(r"C:\Apps\{pid}.exe"), session_id: 1, provenance: None }
}

fn plan() -> Plan {
    Plan {
        manual_mode: false,
        game_path: r"C:\Game\game.exe".into(),
        game: None,
        actions: vec![
            ApprovedAction { target: id(20), action: ActionKind::LowerPriorities, reopen: None },
            ApprovedAction { target: id(21), action: ActionKind::Close, reopen: None },
        ],
        protected_paths: vec![r"C:\Apps\protected.exe".into()],
        options: Options { cpu_priority: true, ..Options::default() },
        consent: true,
        force_consent: false,
        experimental_consent: false,
    }
}

fn active() -> Session {
    let mut s = Session::new("record".into(), plan());
    s.stage = Stage::Active;
    s
}

fn lowering(pid: u32, before: Value, applied: Value) -> Change {
    Change { target: id(pid), before, applied, state: ChangeState::Applied, detail: String::new() }
}

fn err(s: &Session) -> String {
    validate_record(s).unwrap_err()
}

#[test]
fn a_valid_record_is_accepted() {
    let mut s = active();
    s.changes.push(lowering(20, Value::CpuPriority(0x20), Value::CpuPriority(0x4000)));
    s.closed.push(CloseRecord { target: id(21), force_allowed: false, state: CloseState::KeptOpen, detail: String::new() });
    assert_eq!(validate_record(&s), Ok(()));
}

#[test]
fn record_id_and_plan_refusals_come_first() {
    let mut s = active();
    s.id = "bad id".into();
    assert_eq!(err(&s), "Invalid recovery record ID.");
    let mut s = active();
    s.plan.consent = false;
    assert_eq!(err(&s), "Explicit session approval is required.");
}

#[test]
fn change_refusals_are_distinct() {
    let mut s = active();
    s.changes.push(lowering(30, Value::CpuPriority(0x20), Value::CpuPriority(0x4000)));
    assert_eq!(err(&s), "A recovery target was not part of the approved plan.");
    let mut s = active();
    s.changes.push(lowering(20, Value::CpuPriority(0x20), Value::CpuPriority(0x40)));
    assert_eq!(err(&s), "Invalid original/desired policy values in the recovery record.");
    let mut s = active();
    s.changes.push(lowering(21, Value::CpuPriority(0x20), Value::CpuPriority(0x4000)));
    assert_eq!(err(&s), "Invalid original/desired policy values in the recovery record.");
    let mut s = active();
    s.changes.push(lowering(20, Value::MemoryPriority(5), Value::MemoryPriority(2)));
    assert_eq!(err(&s), "Duplicate or unapproved recovery property.");
    let mut s = active();
    s.changes.push(lowering(20, Value::CpuPriority(0x20), Value::CpuPriority(0x4000)));
    s.changes.push(lowering(20, Value::CpuPriority(0x8000), Value::CpuPriority(0x4000)));
    assert_eq!(err(&s), "Duplicate or unapproved recovery property.");
}

#[test]
fn close_refusals_are_distinct() {
    let mut s = active();
    s.closed.push(CloseRecord { target: id(30), force_allowed: false, state: CloseState::KeptOpen, detail: String::new() });
    assert_eq!(err(&s), "Close record target is outside the original approval.");
    let mut s = active();
    s.closed.push(CloseRecord { target: id(21), force_allowed: false, state: CloseState::Terminated, detail: String::new() });
    assert_eq!(err(&s), "Invalid or duplicate close record.");
    let mut s = active();
    s.closed.push(CloseRecord { target: id(20), force_allowed: false, state: CloseState::KeptOpen, detail: String::new() });
    assert_eq!(err(&s), "Invalid or duplicate close record.");
}

#[test]
fn a_pending_record_has_no_attempts() {
    let mut s = Session::new("record".into(), plan());
    s.closed.push(CloseRecord { target: id(21), force_allowed: false, state: CloseState::KeptOpen, detail: String::new() });
    assert_eq!(err(&s), "A pending session cannot contain previously attempted mutations.");
}

#[test]
fn dropping_actions_or_protected_paths_keeps_a_plan_valid() {
    let p = plan();
    assert!(validate(&p).is_ok());
    let mut q = plan();
    q.actions.remove(0);
    q.protected_paths.clear();
    assert!(validate(&q).is_ok());
}
