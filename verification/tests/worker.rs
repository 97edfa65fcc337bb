//! The session worker's decisions and manual-mode authorisation.
use process_optimizer::integrity;
use process_optimizer::journal::Journal;
use process_optimizer::manual::{self, Config, RuleAction};
use process_optimizer::model::{
    ActionKind, AppResult, ApprovedAction, Change, ChangeState, FaultKind, Identity, Options, Plan,
    ProcessRow, Provenance, ReopenApproval, ReopenRecord, ReopenState, Session, Stage, Value,
};
use process_optimizer::windows::manual::{authorize_current_rule, build_plan, denied, mark_unapproved};
use process_optimizer::windows::runner::{
    acknowledge, attach_game, attach_or_launch, begin_run, cancel_before_start, fail_run, normal_token_required,
};

fn id(pid: u32) -> Identity {
    Identity {
        pid,
        created: 1,
        path: format!(r"C:\Fixture\app{pid}.exe"),
        session_id: 1,
        provenance: Some(Provenance {
            owner_sid: "test-user".into(),
            logon_id: 1,
            image_file_id: format!("file{pid}"),
        }),
    }
}

fn stamp(target: &Identity) -> ReopenApproval {
    ReopenApproval {
        image_file_id: target.provenance.as_ref().unwrap().image_file_id.clone(),
        file_size: 10,
        modified: 1,
    }
}

fn row(target: Identity) -> ProcessRow {
    ProcessRow { name: "test-app.exe".into(), identity: target, parent_pid: 0, protected_reason: None, gpu: vec![] }
}

fn config() -> Config {
    let i = id(10);
    Config { schema: 1, rules: vec![manual::approve(&i, stamp(&i), RuleAction::Close, 100).unwrap()] }
}

fn attached_plan() -> Plan {
    Plan {
        manual_mode: false,
        game_path: id(99).path.clone(),
        game: Some(id(99)),
        actions: vec![ApprovedAction { target: id(10), action: ActionKind::Close, reopen: None }],
        protected_paths: vec![],
        options: Options::default(),
        consent: true,
        force_consent: false,
        experimental_consent: false,
    }
}

#[derive(Default)]
struct Saved {
    records: Vec<Session>,
    fail: bool,
}

impl Journal for Saved {
    fn save(&mut self, s: &Session) -> AppResult<()> {
        if self.fail {
            return Err("disk".into());
        }
        self.records.push(s.clone());
        Ok(())
    }
}

#[test]
fn elevated_tokens_are_refused() {
    assert!(normal_token_required(true).is_err());
    assert!(normal_token_required(false).is_ok());
}

#[test]
fn attach_requires_the_exact_running_unprotected_game() {
    let p = attached_plan();
    assert_eq!(attach_or_launch(&p, &[row(id(99))]).unwrap(), id(99));
    let mut restarted = id(99);
    restarted.created = 2;
    assert!(attach_or_launch(&p, &[row(restarted)]).is_err());
    let mut guarded = row(id(99));
    guarded.protected_reason = Some("anti-cheat".into());
    let e = attach_or_launch(&p, &[guarded]).unwrap_err();
    assert!(e.ends_with(": anti-cheat"));
    let mut launch = attached_plan();
    launch.options.launch_game = true;
    assert!(attach_or_launch(&launch, &[row(id(99))]).is_err());
    let mut none = attached_plan();
    none.game = None;
    assert!(attach_or_launch(&none, &[row(id(99))]).is_err());
}

#[test]
fn a_run_starts_only_from_a_pending_allowed_session() {
    let mut s = Session::new("run".into(), attached_plan());
    let mut j = Saved::default();
    begin_run(&mut s, id(500), &mut j).unwrap();
    assert_eq!(s.worker, Some(id(500)));
    assert_eq!(j.records.len(), 1);
    s.stage = Stage::Active;
    assert!(begin_run(&mut s, id(501), &mut j).is_err());
    assert_eq!(j.records.len(), 1);
    let mut bad = Session::new("bad".into(), attached_plan());
    bad.plan.consent = false;
    assert!(begin_run(&mut bad, id(500), &mut j).is_err());
    assert!(bad.worker.is_none());
}

#[test]
fn cancelled_or_unattachable_runs_end_without_changes() {
    let mut s = Session::new("cancel".into(), attached_plan());
    let mut j = Saved::default();
    cancel_before_start(&mut s, &mut j).unwrap();
    assert_eq!(s.stage, Stage::Restored);
    assert_eq!(s.events.last().unwrap(), "Cancelled before any mutation.");
    let mut s = Session::new("gone".into(), attached_plan());
    assert_eq!(attach_game(&mut s, &[], &mut j).unwrap(), None);
    assert_eq!(s.stage, Stage::Restored);
    assert!(s.game.is_none());
    let mut s = Session::new("ok".into(), attached_plan());
    assert_eq!(attach_game(&mut s, &[row(id(99))], &mut j).unwrap(), Some(id(99)));
    assert_eq!(s.game, Some(id(99)));
    assert_eq!(s.stage, Stage::Pending);
}

#[test]
fn failed_recovery_is_left_for_review() {
    let mut s = Session::new("fail".into(), attached_plan());
    let mut j = Saved { fail: true, ..Default::default() };
    fail_run(&mut s, "native adapter lost", &mut j);
    assert_eq!(s.stage, Stage::RecoveryNeeded);
    assert_eq!(s.events.last().unwrap(), "Recovery worker error: native adapter lost");
    assert!(j.records.is_empty());
}

fn recovery_session() -> Session {
    let mut s = Session::new("ack".into(), attached_plan());
    s.plan.actions[0].action = ActionKind::LowerPriorities;
    s.plan.options.cpu_priority = true;
    s.stage = Stage::RecoveryNeeded;
    s.changes.push(Change {
        target: id(10),
        before: Value::CpuPriority(0x20),
        applied: Value::CpuPriority(0x4000),
        state: ChangeState::Conflict,
        detail: "changed by another program".into(),
    });
    s
}

#[test]
fn acknowledgement_keeps_unresolved_settings_by_choice() {
    let mut s = recovery_session();
    let mut j = Saved::default();
    acknowledge(&mut s, &mut j).unwrap();
    assert_eq!(s.stage, Stage::UserAcknowledged);
    assert_eq!(s.changes[0].state, ChangeState::UserKept);
    assert_eq!(s.changes[0].before, Value::CpuPriority(0x20));
    assert_eq!(j.records.len(), 1);
    let mut pending = Session::new("pending".into(), attached_plan());
    assert!(acknowledge(&mut pending, &mut j).is_err());
    assert_eq!(pending.stage, Stage::Pending);
    let mut with_launch = recovery_session();
    with_launch.reopened.push(ReopenRecord {
        target: id(10),
        child: None,
        state: ReopenState::Indeterminate,
        detail: "unknown".into(),
    });
    acknowledge(&mut with_launch, &mut Saved::default()).unwrap();
    assert_eq!(with_launch.reopened[0].state, ReopenState::UserKept);
}

#[test]
fn current_permission_is_refused_for_changed_files_and_foreground_apps() {
    let c = config();
    let i = id(10);
    assert_eq!(authorize_current_rule(&c, &i, &stamp(&i), 101, &None).unwrap(), RuleAction::Close);
    let mut changed = stamp(&i);
    changed.file_size = 11;
    assert_eq!(authorize_current_rule(&c, &i, &changed, 101, &None).unwrap_err().kind, FaultKind::Denied);
    let front = Some(c.rules[0].app.path.clone());
    assert!(authorize_current_rule(&c, &i, &stamp(&i), 101, &front).is_err());
    assert!(authorize_current_rule(&c, &i, &stamp(&i), 100 + manual::APPROVAL_SECONDS, &None).is_err());
    assert_eq!(denied("no").kind, FaultKind::Denied);
}

#[test]
fn stale_or_foreground_permissions_are_excluded_from_on() {
    let c = config();
    let rows = vec![row(id(10)), row(id(11))];
    let (p, excluded) = build_plan(&c, &[], &id(99), &None, rows.clone(), &[Some(stamp(&id(10))), None], 101, false).unwrap();
    assert_eq!((p.actions.len(), excluded), (1, 0));
    let (p, excluded) = build_plan(&c, &[], &id(99), &None, rows.clone(), &[None, None], 101, false).unwrap();
    assert_eq!((p.actions.len(), excluded), (0, 1));
    let front = Some(c.rules[0].app.path.clone());
    let (p, excluded) = build_plan(&c, &[], &id(99), &front, rows.clone(), &[Some(stamp(&id(10))), None], 101, false).unwrap();
    assert_eq!((p.actions.len(), excluded), (0, 1));
    let mut marked = rows;
    assert_eq!(mark_unapproved(&c, &mut marked, &[None, None], &id(99), &None, 101), 1);
    assert!(marked[0].protected_reason.is_some() && marked[1].protected_reason.is_none());
}

#[test]
fn stored_records_must_be_current_and_new_ones_pristine() {
    let s = Session::new("new".into(), attached_plan());
    assert!(integrity::validate_new_session(&s).is_ok());
    assert!(integrity::validate_stored(&s).is_ok());
    let mut old = Session::new("old".into(), attached_plan());
    old.schema = 3;
    assert!(integrity::validate_stored(&old).is_err());
    let mut active = Session::new("active".into(), attached_plan());
    active.stage = Stage::Active;
    assert!(integrity::validate_new_session(&active).is_err());
}

#[test]
fn updates_keep_the_approval_and_recovery_evidence() {
    let mut prev = recovery_session();
    prev.stage = Stage::Active;
    prev.changes[0].state = ChangeState::Applied;
    assert!(integrity::validate_update(&prev, &prev).is_ok());
    let mut next = prev.clone();
    next.changes[0].state = ChangeState::Restored;
    next.stage = Stage::Restored;
    assert!(integrity::validate_update(&prev, &next).is_ok());
    let mut rewritten = prev.clone();
    rewritten.changes[0].before = Value::CpuPriority(0x80);
    assert!(integrity::validate_update(&prev, &rewritten).is_err());
    let mut dropped = prev.clone();
    dropped.changes.clear();
    assert!(integrity::validate_update(&prev, &dropped).is_err());
    let mut replanned = prev.clone();
    replanned.plan.force_consent = true;
    assert!(integrity::validate_update(&prev, &replanned).is_err());
    let mut after = next.clone();
    after.events.push("edited".into());
    assert!(integrity::validate_update(&next, &after).is_err());
    assert!(integrity::validate_update(&next, &next).is_ok());
}
