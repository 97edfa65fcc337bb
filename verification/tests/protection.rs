//! The native adapter's protection decisions, on values the adapter would have queried.
use process_optimizer::model::{CloseState, Fault, FaultKind, Identity, Value};
use process_optimizer::windows::process::{
    close_wait_ms, family_gate, graceful_close_outcome, process_row, termination_outcome, write_gate, Safety,
};
use std::collections::HashSet;

fn me() -> Identity {
    Identity { pid: 900, created: 5, path: r"C:\Tools\Process-Optimizer.exe".into(), session_id: 2, provenance: None }
}

fn safety() -> Safety {
    Safety::new("S-1-5-21-7".into(), &me(), r"C:\WINDOWS")
}

fn app(path: &str) -> Identity {
    Identity { pid: 1234, created: 77, path: path.into(), session_id: 2, provenance: None }
}

fn owner() -> Result<String, Fault> {
    Ok("S-1-5-21-7".into())
}

#[test]
fn safety_context_is_canonical() {
    let s = safety();
    assert_eq!(s.self_path, r"c:\tools\process-optimizer.exe");
    assert_eq!(s.windows_path, r"c:\windows");
    assert_eq!(s.session, 2);
}

#[test]
fn ordinary_same_user_apps_pass() {
    assert!(safety().check(&app(r"C:\Apps\Editor.exe"), &owner(), &Ok(false), &Ok(false)).is_ok());
}

#[test]
fn system_foreign_and_protected_processes_are_refused() {
    let s = safety();
    let message = |id: &Identity, o: &Result<String, Fault>, p: bool, c: bool| {
        s.check(id, o, &Ok(p), &Ok(c)).unwrap_err().message
    };
    let mut system = app(r"C:\Apps\Editor.exe");
    system.pid = 4;
    assert_eq!(message(&system, &owner(), false, false), "System or unidentified process.");
    let mut other_session = app(r"C:\Apps\Editor.exe");
    other_session.session_id = 3;
    assert_eq!(message(&other_session, &owner(), false, false), "Different Windows session.");
    assert_eq!(message(&app(r"C:\Apps\Editor.exe"), &Ok("S-1-5-18".into()), false, false), "Different user or system account.");
    assert_eq!(
        message(&app(r"c:/tools/process-optimizer.exe"), &owner(), false, false),
        "Protected system, game-support, voice or optimizer application."
    );
    assert_eq!(
        message(&app(r"D:\Games\Steam\steam.exe"), &owner(), false, false),
        "Protected system, game-support, voice or optimizer application."
    );
    assert_eq!(message(&app(r"C:\Windows\System32\notepad.exe"), &owner(), false, false), "Windows component: protected.");
    assert_eq!(message(&app(r"C:\Apps\Editor.exe"), &owner(), true, false), "Protected process.");
    assert_eq!(message(&app(r"C:\Apps\Editor.exe"), &owner(), false, true), "Critical Windows process.");
    let f = s.check(&app(r"C:\Apps\Editor.exe"), &owner(), &Ok(true), &Ok(true)).unwrap_err();
    assert_eq!(f.kind, FaultKind::Denied);
}

#[test]
fn a_sibling_of_the_windows_directory_is_not_a_windows_component() {
    assert!(safety().check(&app(r"C:\WindowsApps\tool.exe"), &owner(), &Ok(false), &Ok(false)).is_ok());
}

#[test]
fn failed_native_queries_are_handed_on() {
    let s = safety();
    let failed = || -> Result<bool, Fault> { Err(Fault::new(FaultKind::Other, "query failed")) };
    let e = s.check(&app(r"C:\Apps\Editor.exe"), &Err(Fault::new(FaultKind::Gone, "token gone")), &Ok(false), &Ok(false)).unwrap_err();
    assert_eq!((e.kind, e.message.as_str()), (FaultKind::Gone, "token gone"));
    let e = s.check(&app(r"C:\Apps\Editor.exe"), &owner(), &failed(), &Ok(false)).unwrap_err();
    assert_eq!(e.message, "query failed");
    let e = s.check(&app(r"C:\Apps\Editor.exe"), &owner(), &Ok(false), &failed()).unwrap_err();
    assert_eq!(e.message, "query failed");
    let mut system = app(r"C:\Apps\Editor.exe");
    system.created = 0;
    assert_eq!(
        s.check(&system, &Err(Fault::new(FaultKind::Gone, "token gone")), &failed(), &failed()).unwrap_err().message,
        "System or unidentified process."
    );
}

#[test]
fn game_family_and_user_protected_paths_are_locked() {
    let guarded: HashSet<u32> = [1234u32].into_iter().collect();
    let f = family_gate(&guarded, &[], &app(r"C:\Apps\Editor.exe")).unwrap_err();
    assert_eq!(f.kind, FaultKind::Denied);
    assert_eq!(f.message, "Game family or user-protected executable.");
    let none = HashSet::new();
    assert!(family_gate(&none, &[r"C:\Other.exe".into()], &app(r"C:\Apps\Editor.exe")).is_ok());
    assert!(family_gate(&none, &[r"c:/apps/EDITOR.exe".into()], &app(r"C:\Apps\Editor.exe")).is_err());
}

#[test]
fn only_valid_values_are_written_and_never_after_cancel() {
    assert!(write_gate(&Value::GpuPriority(1), false).is_ok());
    let invalid = write_gate(&Value::GpuPriority(9), false).unwrap_err();
    assert_eq!(invalid.kind, FaultKind::Other);
    assert_eq!(invalid.message, "Invalid native policy value; no setter was called.");
    let cancelled = write_gate(&Value::GpuPriority(1), true).unwrap_err();
    assert_eq!(cancelled.kind, FaultKind::Denied);
    assert_eq!(cancelled.message, "Cancelled before native setter.");
}

#[test]
fn close_outcomes_never_claim_more_than_was_seen() {
    assert_eq!(close_wait_ms(10), 1000);
    assert_eq!(close_wait_ms(5000), 5000);
    assert_eq!(close_wait_ms(60000), 15000);
    assert_eq!(graceful_close_outcome(false, false, false), CloseState::KeptOpen);
    assert_eq!(graceful_close_outcome(true, true, true), CloseState::ClosedGracefully);
    assert_eq!(graceful_close_outcome(true, false, true), CloseState::RequestedPending);
    assert_eq!(graceful_close_outcome(true, false, false), CloseState::KeptOpen);
    assert_eq!(termination_outcome(true).unwrap(), CloseState::Terminated);
    let unconfirmed = termination_outcome(false).unwrap_err();
    assert_eq!(unconfirmed.kind, FaultKind::Other);
    assert_eq!(unconfirmed.message, "Termination requested; exit remains unconfirmed.");
}

#[test]
fn uninspectable_processes_are_listed_as_protected() {
    let row = process_row(321, 4, "svc.exe".into(), Err(Fault::new(FaultKind::Denied, "Access is denied.")));
    assert_eq!(row.identity.pid, 321);
    assert_eq!(row.identity.created, 0);
    assert_eq!(row.identity.path, "");
    assert_eq!(row.identity.session_id, u32::MAX);
    assert!(row.identity.provenance.is_none());
    assert_eq!(row.parent_pid, 4);
    assert_eq!(row.name, "svc.exe");
    assert_eq!(row.protected_reason.as_deref(), Some("Unavailable/protected: Access is denied."));
    let ok = process_row(1234, 8, "editor.exe".into(), Ok((app(r"C:\Apps\Editor.exe"), None)));
    assert_eq!(ok.identity.path, r"C:\Apps\Editor.exe");
    assert!(ok.protected_reason.is_none());
    assert!(ok.gpu.is_empty());
}
