//! The single decisions an engine run makes on each answer of the adapter, and the
//! update checks made before reading or parsing downloaded bytes.
use process_optimizer::engine::{compare_step, lowering_step, settled_close, write_confirmed, CompareStep, LowerStep};
use process_optimizer::model::{Change, ChangeState, CloseState, Fault, FaultKind, Identity, Property, Value};
use process_optimizer::text::is_whitespace;
use process_optimizer::update::{expected_digest_check, manifest_size_check, verify_file, MAX_MANIFEST_BYTES};
use process_optimizer::windows::update::response_check;

fn target() -> Identity {
    Identity { pid: 20, created: 100, path: r"C:\Apps\background.exe".into(), session_id: 1, provenance: None }
}

fn change(state: ChangeState) -> Change {
    Change {
        target: target(),
        before: Value::GpuPriority(2),
        applied: Value::GpuPriority(1),
        state,
        detail: String::new(),
    }
}

#[test]
fn lowering_step_lowers_to_the_background_value() {
    match lowering_step(Property::GpuPriority, &Ok(Value::GpuPriority(2))) {
        LowerStep::Lower(from, to) => {
            assert_eq!(from, Value::GpuPriority(2));
            assert_eq!(to, Value::GpuPriority(1));
        }
        other => panic!("unexpected step {other:?}"),
    }
    match lowering_step(Property::MemoryPriority, &Ok(Value::MemoryPriority(5))) {
        LowerStep::Lower(from, to) => {
            assert_eq!(from, Value::MemoryPriority(5));
            assert_eq!(to, Value::MemoryPriority(2));
        }
        other => panic!("unexpected step {other:?}"),
    }
}

#[test]
fn lowering_step_never_raises() {
    assert!(matches!(lowering_step(Property::GpuPriority, &Ok(Value::GpuPriority(0))), LowerStep::AlreadyLow));
    assert!(matches!(lowering_step(Property::GpuPriority, &Ok(Value::GpuPriority(1))), LowerStep::AlreadyLow));
}

#[test]
fn lowering_step_rejects_foreign_or_invalid_reads() {
    assert!(matches!(lowering_step(Property::CpuPriority, &Ok(Value::GpuPriority(2))), LowerStep::Invalid));
    assert!(matches!(lowering_step(Property::GpuPriority, &Ok(Value::GpuPriority(9))), LowerStep::Invalid));
    assert!(matches!(
        lowering_step(Property::GpuPriority, &Err(Fault::new(FaultKind::Denied, "denied"))),
        LowerStep::Unavailable
    ));
}

#[test]
fn write_is_confirmed_only_by_reading_it_back() {
    assert!(write_confirmed(&Value::GpuPriority(1), &Ok(Value::GpuPriority(1))));
    assert!(!write_confirmed(&Value::GpuPriority(1), &Ok(Value::GpuPriority(2))));
    assert!(!write_confirmed(&Value::GpuPriority(1), &Err(Fault::new(FaultKind::Other, "failed"))));
}

#[test]
fn close_answers_settle_only_allowed_outcomes() {
    assert_eq!(settled_close(&Ok(CloseState::KeptOpen), false), Some(CloseState::KeptOpen));
    assert_eq!(settled_close(&Ok(CloseState::ClosedGracefully), false), Some(CloseState::ClosedGracefully));
    assert_eq!(settled_close(&Ok(CloseState::Terminated), true), Some(CloseState::Terminated));
    assert_eq!(settled_close(&Ok(CloseState::Terminated), false), None);
    assert_eq!(settled_close(&Ok(CloseState::IntentRecorded), true), None);
    assert_eq!(settled_close(&Ok(CloseState::NotRequested), true), None);
    assert_eq!(settled_close(&Err(Fault::new(FaultKind::Other, "lost")), true), None);
}

#[test]
fn compare_step_writes_back_only_what_this_session_applied() {
    let applied = change(ChangeState::Applied);
    assert!(matches!(compare_step(&applied, &Ok(Value::GpuPriority(1))), CompareStep::WriteBack));
    assert!(matches!(compare_step(&applied, &Ok(Value::GpuPriority(2))), CompareStep::Original));
    assert!(matches!(compare_step(&applied, &Ok(Value::GpuPriority(3))), CompareStep::Conflict));
    assert!(matches!(
        compare_step(&applied, &Err(Fault::new(FaultKind::Gone, "gone"))),
        CompareStep::Gone
    ));
    assert!(matches!(
        compare_step(&applied, &Err(Fault::new(FaultKind::Denied, "denied"))),
        CompareStep::Unreadable
    ));
    let conflict = change(ChangeState::Conflict);
    assert!(matches!(compare_step(&conflict, &Ok(Value::GpuPriority(1))), CompareStep::Conflict));
}

#[test]
fn digest_is_checked_before_the_file() {
    assert!(expected_digest_check(&"a".repeat(64)).is_ok());
    assert!(expected_digest_check(&"A".repeat(64)).is_ok());
    assert_eq!(expected_digest_check("abc"), Err("Expected update digest is invalid.".to_string()));
    assert!(expected_digest_check(&"g".repeat(64)).is_err());
    assert_eq!(verify_file(b"abc", "xyz"), Err("Expected update digest is invalid.".to_string()));
}

#[test]
fn manifest_size_is_bounded() {
    assert_eq!(MAX_MANIFEST_BYTES, 256 * 1024);
    assert!(manifest_size_check(0).is_ok());
    assert!(manifest_size_check(MAX_MANIFEST_BYTES).is_ok());
    assert_eq!(
        manifest_size_check(MAX_MANIFEST_BYTES + 1),
        Err("Update manifest is unexpectedly large.".to_string())
    );
}

#[test]
fn update_responses_are_bounded_and_non_empty() {
    assert!(response_check(0, 10, false).is_ok());
    assert!(response_check(10, 10, true).is_ok());
    assert_eq!(
        response_check(11, 10, false),
        Err("Update download exceeded the safety size limit.".to_string())
    );
    assert_eq!(response_check(0, 10, true), Err("GitHub returned an empty update response.".to_string()));
}

#[test]
fn whitespace_is_the_unicode_property() {
    for c in [' ', '\t', '\n', '\r', '\u{0B}', '\u{0C}', '\u{85}', '\u{A0}', '\u{1680}', '\u{2000}', '\u{200A}', '\u{2028}', '\u{2029}', '\u{202F}', '\u{205F}', '\u{3000}'] {
        assert!(is_whitespace(c), "{c:?}");
    }
    for c in ['a', '\u{200B}', '\u{FEFF}', '\u{1F}', '_'] {
        assert!(!is_whitespace(c), "{c:?}");
    }
}
