//! Identity, path, protection and plan rules.
use process_optimizer::model::{
    ActionKind, ApprovedAction, Identity, Options, Plan, ProcessRow, Value,
};
use process_optimizer::policy::{guarded_pids, normalized_path, reserved_name, same_process, validate};

fn id(pid: u32) -> Identity {
    Identity { pid, created: 100, path: format!(r"C:\Apps\{pid}.exe"), session_id: 1, provenance: None }
}

fn plan() -> Plan {
    Plan {
        manual_mode: false,
        game_path: r"C:\Game\game.exe".into(),
        game: None,
        actions: vec![],
        protected_paths: vec![],
        options: Options::default(),
        consent: true,
        force_consent: false,
        experimental_consent: false,
    }
}

#[test]
fn no_consent_no_changes() {
    assert!(validate(&plan()).is_ok());
    let mut p = plan();
    p.consent = false;
    assert!(validate(&p).is_err());
}

#[test]
fn force_consent_is_separate() {
    let mut p = plan();
    p.actions.push(ApprovedAction { target: id(20), action: ActionKind::ForceClose, reopen: None });
    assert!(validate(&p).is_err());
    p.force_consent = true;
    assert!(validate(&p).is_ok());
}

#[test]
fn pid_reuse_is_not_same_process() {
    let a = id(20);
    let mut b = a.clone();
    b.created += 1;
    assert!(!same_process(&a, &b));
}

#[test]
fn case_and_prefix_are_normalized() {
    assert_eq!(normalized_path(r"\\?\C:\Apps\FOO.exe"), normalized_path("c:/apps/foo.exe"));
}

#[test]
fn protected_path_wins() {
    let mut p = plan();
    p.protected_paths.push(id(20).path);
    p.actions.push(ApprovedAction { target: id(20), action: ActionKind::Close, reopen: None });
    assert!(validate(&p).is_err());
}

#[test]
fn duplicate_pid_rejected() {
    let mut p = plan();
    let a = ApprovedAction { target: id(20), action: ActionKind::Close, reopen: None };
    p.actions = vec![a.clone(), a];
    assert!(validate(&p).is_err());
}

#[test]
fn game_cannot_be_target() {
    let mut p = plan();
    let mut i = id(20);
    i.path = p.game_path.clone();
    p.actions.push(ApprovedAction { target: i, action: ActionKind::Close, reopen: None });
    assert!(validate(&p).is_err());
}

#[test]
fn lower_never_raises_idle() {
    assert_eq!(Value::GpuPriority(0).background(), Value::GpuPriority(0));
    assert_eq!(Value::CpuPriority(0x40).background(), Value::CpuPriority(0x40));
}

#[test]
fn eco_preserves_other_flags() {
    assert_eq!(
        Value::EcoQos { control: 4, state: 4 }.background(),
        Value::EcoQos { control: 5, state: 5 }
    );
}

#[test]
fn unknown_names_are_not_auto_classified() {
    assert!(!reserved_name("my-app.exe"));
    assert!(reserved_name("DWM.EXE"));
}

#[test]
fn protects_game_family_without_sweeping_launcher_siblings() {
    let rows: Vec<_> = [(10, 0), (20, 10), (30, 20), (40, 10)]
        .into_iter()
        .map(|(p, parent)| ProcessRow {
            identity: id(p),
            parent_pid: parent,
            name: "fixture".into(),
            protected_reason: None,
            gpu: vec![],
        })
        .collect();
    let guard = guarded_pids(&rows, &id(20));
    assert!(guard.contains(&10) && guard.contains(&20) && guard.contains(&30));
    assert!(!guard.contains(&40));
}

#[test]
fn lowering_reaches_the_documented_background_values() {
    assert_eq!(Value::GpuPriority(4).background(), Value::GpuPriority(1));
    assert_eq!(Value::CpuPriority(0x20).background(), Value::CpuPriority(0x4000));
    assert_eq!(Value::MemoryPriority(5).background(), Value::MemoryPriority(2));
    assert_eq!(Value::MemoryPriority(1).background(), Value::MemoryPriority(1));
    let once = Value::EcoQos { control: 6, state: 2 }.background();
    assert_eq!(once.background(), once);
}

#[test]
fn same_lifetime_is_reflexive_and_symmetric() {
    let a = id(20);
    let mut b = a.clone();
    b.path = r"\\?\c:/apps/20.EXE".into();
    assert!(same_process(&a, &a));
    assert!(same_process(&a, &b) && same_process(&b, &a));
}

#[test]
fn a_named_game_must_be_the_stated_executable() {
    let mut p = plan();
    p.game = Some(Identity { path: r"c:/game/GAME.exe".into(), ..id(99) });
    assert!(validate(&p).is_ok());
    p.game = Some(id(99));
    assert_eq!(validate(&p), Err("Selected game identity and executable do not match.".to_string()));
}

#[test]
fn untrustworthy_identities_are_rejected() {
    for target in [Identity { pid: 4, ..id(4) }, Identity { created: 0, ..id(20) }, Identity { path: String::new(), ..id(20) }] {
        let mut p = plan();
        p.actions.push(ApprovedAction { target, action: ActionKind::Close, reopen: None });
        assert_eq!(validate(&p), Err("A selected process has no trustworthy identity.".to_string()));
    }
}

#[test]
fn gpu_scheduling_needs_its_own_approval() {
    let mut p = plan();
    p.options.gpu_priority = true;
    assert_eq!(validate(&p), Err("Experimental GPU scheduling needs its own explicit approval.".to_string()));
    p.experimental_consent = true;
    assert!(validate(&p).is_ok());
}

#[test]
fn refusals_follow_the_check_order() {
    let mut p = plan();
    p.actions.push(ApprovedAction { target: id(20), action: ActionKind::ForceClose, reopen: None });
    assert_eq!(validate(&p), Err("Force termination needs its own explicit approval.".to_string()));
    p.actions.push(ApprovedAction { target: id(20), action: ActionKind::Close, reopen: None });
    p.force_consent = true;
    assert_eq!(validate(&p), Err("Duplicate process in the plan.".to_string()));
    let mut p = plan();
    p.protected_paths.push(r"c:/apps/20.EXE".into());
    p.actions.push(ApprovedAction { target: id(20), action: ActionKind::Close, reopen: None });
    assert_eq!(validate(&p), Err("The plan contains an application you protected.".to_string()));
    let mut p = plan();
    p.game_path = "   ".into();
    assert_eq!(validate(&p), Err("Choose the actual game executable, not its launcher.".to_string()));
}
