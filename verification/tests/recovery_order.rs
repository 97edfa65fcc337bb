//! Recovery visits recorded changes from the last to the first, compares before it
//! writes (read, read again after recording the intent, write, read back), and once everything is restored it touches no setting again.
use process_optimizer::engine::{apply, restore, Backend};
use process_optimizer::journal::Journal;
use process_optimizer::model::{
    ActionKind, AppResult, ApprovedAction, ChangeState, CloseState, Identity, NativeResult, Options, Plan, Property,
    Provenance, Session, Stage, Value,
};

#[derive(Default)]
struct Store;

impl Journal for Store {
    fn save(&mut self, _: &Session) -> AppResult<()> {
        Ok(())
    }
}

/// Two processes with one GPU priority each; every read and write is logged by pid.
struct Logged {
    values: Vec<(u32, Value)>,
    log: Vec<(char, u32)>,
}

impl Logged {
    fn slot(&mut self, pid: u32) -> &mut Value {
        &mut self.values.iter_mut().find(|(p, _)| *p == pid).unwrap().1
    }
}

impl Backend for Logged {
    fn authorize(&mut self, _: &Identity) -> NativeResult<()> {
        Ok(())
    }
    fn read(&mut self, id: &Identity, _: Property) -> NativeResult<Value> {
        self.log.push(('r', id.pid));
        Ok(*self.slot(id.pid))
    }
    fn write(&mut self, id: &Identity, v: &Value) -> NativeResult<()> {
        self.log.push(('w', id.pid));
        *self.slot(id.pid) = *v;
        Ok(())
    }
    fn close(&mut self, _: &Identity, _: bool, _: u32) -> NativeResult<CloseState> {
        Ok(CloseState::KeptOpen)
    }
}

fn identity(pid: u32, path: &str) -> Identity {
    Identity {
        pid,
        created: 100,
        path: path.into(),
        session_id: 1,
        provenance: Some(Provenance {
            owner_sid: "test-user".into(),
            logon_id: 10,
            image_file_id: format!("file-{pid}"),
        }),
    }
}

fn two_targets() -> (Session, Logged) {
    let lower = |target: Identity| ApprovedAction { target, action: ActionKind::LowerPriorities, reopen: None };
    let p = Plan {
        manual_mode: false,
        game_path: r"C:\Game\game.exe".into(),
        game: Some(identity(99, r"C:\Game\game.exe")),
        actions: vec![lower(identity(20, r"C:\Apps\first.exe")), lower(identity(21, r"C:\Apps\second.exe"))],
        protected_paths: vec![],
        options: Options { gpu_priority: true, ..Options::default() },
        consent: true,
        force_consent: false,
        experimental_consent: true,
    };
    (
        Session::new("order".into(), p),
        Logged { values: vec![(20, Value::GpuPriority(2)), (21, Value::GpuPriority(3))], log: vec![] },
    )
}

#[test]
fn restore_visits_changes_in_reverse_order() {
    let (mut s, mut b) = two_targets();
    let mut j = Store;
    apply(&mut s, &mut b, &mut j).unwrap();
    assert_eq!(s.changes.len(), 2);
    assert_eq!(s.changes[0].target.pid, 20);
    assert_eq!(s.changes[1].target.pid, 21);
    b.log.clear();
    restore(&mut s, &mut b, &mut j).unwrap();
    assert_eq!(
        b.log,
        vec![('r', 21), ('r', 21), ('w', 21), ('r', 21), ('r', 20), ('r', 20), ('w', 20), ('r', 20)]
    );
    assert_eq!(*b.slot(20), Value::GpuPriority(2));
    assert_eq!(*b.slot(21), Value::GpuPriority(3));
    assert_eq!(s.stage, Stage::Restored);
}

#[test]
fn restored_session_is_not_touched_again() {
    let (mut s, mut b) = two_targets();
    let mut j = Store;
    apply(&mut s, &mut b, &mut j).unwrap();
    restore(&mut s, &mut b, &mut j).unwrap();
    b.log.clear();
    restore(&mut s, &mut b, &mut j).unwrap();
    assert!(b.log.is_empty());
    assert_eq!(s.stage, Stage::Restored);
    assert!(s.changes.iter().all(|c| c.state == ChangeState::Restored));
}

#[test]
fn external_change_is_kept_as_conflict() {
    let (mut s, mut b) = two_targets();
    let mut j = Store;
    apply(&mut s, &mut b, &mut j).unwrap();
    *b.slot(21) = Value::GpuPriority(4);
    b.log.clear();
    restore(&mut s, &mut b, &mut j).unwrap();
    assert_eq!(b.log, vec![('r', 21), ('r', 20), ('r', 20), ('w', 20), ('r', 20)]);
    assert_eq!(*b.slot(21), Value::GpuPriority(4));
    assert_eq!(s.changes[1].state, ChangeState::Conflict);
    assert_eq!(s.stage, Stage::RecoveryNeeded);
}
