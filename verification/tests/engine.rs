//! Apply and restore against an in-memory adapter and journal.
use process_optimizer::engine::{apply, restore, Backend};
use process_optimizer::journal::Journal;
use process_optimizer::model::{
    ActionKind, AppResult, ApprovedAction, ChangeState, CloseState, Fault, FaultKind, Identity,
    NativeResult, Options, Plan, Property, Session, Stage, Value,
};

#[derive(Default)]
struct MemoryJournal {
    writes: usize,
    fail_at: Option<usize>,
    saved: Option<Session>,
}

impl Journal for MemoryJournal {
    fn save(&mut self, s: &Session) -> AppResult<()> {
        self.writes += 1;
        if self.fail_at == Some(self.writes) {
            return Err("disk failure".into());
        }
        self.saved = Some(s.clone());
        Ok(())
    }
}

struct Fake {
    value: Value,
    writes: usize,
    close_calls: usize,
    denied: bool,
    gone: bool,
    write_error_after_effect: bool,
}

impl Backend for Fake {
    fn authorize(&mut self, _: &Identity) -> NativeResult<()> {
        if self.denied {
            Err(Fault::new(FaultKind::Denied, "protected"))
        } else {
            Ok(())
        }
    }
    fn read(&mut self, _: &Identity, _: Property) -> NativeResult<Value> {
        if self.gone {
            Err(Fault::new(FaultKind::Gone, "gone"))
        } else {
            Ok(self.value)
        }
    }
    fn write(&mut self, _: &Identity, v: &Value) -> NativeResult<()> {
        self.writes += 1;
        self.value = *v;
        if self.write_error_after_effect {
            Err(Fault::new(FaultKind::Other, "ambiguous"))
        } else {
            Ok(())
        }
    }
    fn close(&mut self, _: &Identity, force: bool, _: u32) -> NativeResult<CloseState> {
        self.close_calls += 1;
        Ok(if force { CloseState::Terminated } else { CloseState::KeptOpen })
    }
}

fn setup(action: ActionKind) -> (Session, Fake, MemoryJournal) {
    let id = Identity {
        pid: 20,
        created: 100,
        path: r"C:\Apps\background.exe".into(),
        session_id: 1,
        provenance: None,
    };
    let p = Plan {
        manual_mode: false,
        game_path: r"C:\Game\game.exe".into(),
        game: None,
        actions: vec![ApprovedAction { target: id, action, reopen: None }],
        protected_paths: vec![],
        // Experimental GPU scheduling is off by default and needs its own approval
        // (README); these scenarios lower it.
        options: Options { gpu_priority: true, ..Options::default() },
        consent: true,
        force_consent: action == ActionKind::ForceClose,
        experimental_consent: true,
    };
    (
        Session::new("test".into(), p),
        Fake {
            value: Value::GpuPriority(2),
            writes: 0,
            close_calls: 0,
            denied: false,
            gone: false,
            write_error_after_effect: false,
        },
        MemoryJournal::default(),
    )
}

#[test]
fn apply_and_restore_original() {
    let (mut s, mut b, mut j) = setup(ActionKind::LowerPriorities);
    apply(&mut s, &mut b, &mut j).unwrap();
    assert_eq!(b.value, Value::GpuPriority(1));
    restore(&mut s, &mut b, &mut j).unwrap();
    assert_eq!(b.value, Value::GpuPriority(2));
    assert_eq!(s.stage, Stage::Restored);
}

#[test]
fn prepared_intent_is_durable_before_mutation() {
    let (mut s, mut b, mut j) = setup(ActionKind::LowerPriorities);
    j.fail_at = Some(2);
    assert!(apply(&mut s, &mut b, &mut j).is_err());
    assert_eq!(b.writes, 0);
}

#[test]
fn external_change_is_not_overwritten() {
    let (mut s, mut b, mut j) = setup(ActionKind::LowerPriorities);
    apply(&mut s, &mut b, &mut j).unwrap();
    b.value = Value::GpuPriority(3);
    restore(&mut s, &mut b, &mut j).unwrap();
    assert_eq!(b.value, Value::GpuPriority(3));
    assert_eq!(s.stage, Stage::RecoveryNeeded);
}

#[test]
fn crashed_after_setter_can_recover_prepared_record() {
    let (mut s, mut b, mut j) = setup(ActionKind::LowerPriorities);
    j.fail_at = Some(3);
    assert!(apply(&mut s, &mut b, &mut j).is_err());
    let mut durable = j.saved.clone().unwrap();
    assert_eq!(durable.changes[0].state, ChangeState::Prepared);
    j.fail_at = None;
    restore(&mut durable, &mut b, &mut j).unwrap();
    assert_eq!(b.value, Value::GpuPriority(2));
}

#[test]
fn restore_is_idempotent() {
    let (mut s, mut b, mut j) = setup(ActionKind::LowerPriorities);
    apply(&mut s, &mut b, &mut j).unwrap();
    restore(&mut s, &mut b, &mut j).unwrap();
    let count = b.writes;
    restore(&mut s, &mut b, &mut j).unwrap();
    assert_eq!(b.writes, count);
}

#[test]
fn pid_reuse_or_exit_does_not_receive_restore() {
    let (mut s, mut b, mut j) = setup(ActionKind::LowerPriorities);
    apply(&mut s, &mut b, &mut j).unwrap();
    b.gone = true;
    restore(&mut s, &mut b, &mut j).unwrap();
    assert_eq!(b.writes, 1);
    assert_eq!(s.changes[0].state, ChangeState::ProcessGone);
}

#[test]
fn protected_targets_are_skipped() {
    let (mut s, mut b, mut j) = setup(ActionKind::ForceClose);
    b.denied = true;
    // The design rules (W-01) reject a plan with an unauthorized target before any
    // intent is recorded, so the run fails here instead of skipping the target; as
    // before, the protected process is never closed.
    assert!(apply(&mut s, &mut b, &mut j).is_err());
    assert_eq!(b.close_calls, 0);
    assert!(s.closed.is_empty());
}

#[test]
fn graceful_close_never_escalates() {
    let (mut s, mut b, mut j) = setup(ActionKind::Close);
    apply(&mut s, &mut b, &mut j).unwrap();
    assert_eq!(s.closed[0].state, CloseState::KeptOpen);
    assert!(!s.closed[0].force_allowed);
}

#[test]
fn approved_force_path_is_distinct() {
    let (mut s, mut b, mut j) = setup(ActionKind::ForceClose);
    apply(&mut s, &mut b, &mut j).unwrap();
    assert_eq!(s.closed[0].state, CloseState::Terminated);
}

#[test]
fn recovery_never_replays_a_close() {
    let (mut s, mut b, mut j) = setup(ActionKind::ForceClose);
    apply(&mut s, &mut b, &mut j).unwrap();
    restore(&mut s, &mut b, &mut j).unwrap();
    assert_eq!(b.close_calls, 1);
}

#[test]
fn ambiguous_set_error_keeps_recovery_intent() {
    let (mut s, mut b, mut j) = setup(ActionKind::LowerPriorities);
    b.write_error_after_effect = true;
    // The design rules (W-05) stop application when a setter fails, so the run reports
    // the failure instead of continuing; the durable intent stays the recovery anchor.
    assert!(apply(&mut s, &mut b, &mut j).is_err());
    assert_eq!(s.changes[0].state, ChangeState::Prepared);
    b.write_error_after_effect = false;
    restore(&mut s, &mut b, &mut j).unwrap();
    assert_eq!(b.value, Value::GpuPriority(2));
}

#[test]
fn close_is_not_attempted_after_journal_failure() {
    let (mut s, mut b, mut j) = setup(ActionKind::Close);
    j.fail_at = Some(2);
    assert!(apply(&mut s, &mut b, &mut j).is_err());
    assert_eq!(b.close_calls, 0);
}

#[test]
fn already_low_priority_is_untouched() {
    let (mut s, mut b, mut j) = setup(ActionKind::LowerPriorities);
    b.value = Value::GpuPriority(0);
    apply(&mut s, &mut b, &mut j).unwrap();
    assert_eq!(b.writes, 0);
    assert!(s.changes.is_empty());
}
