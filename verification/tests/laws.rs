//! The library's promises on concrete values.
use process_optimizer::engine::{apply, restore, Backend};
use process_optimizer::journal::Journal;
use process_optimizer::model::{
    ActionKind, AppResult, ApprovedAction, CloseState, Identity, NativeResult, Options, Plan, Property, Provenance, Session, Value,
};
use process_optimizer::policy::same_process;
use process_optimizer::update::is_newer;
use process_optimizer::windows::startup::decode_string;
use process_optimizer::windows::wide;

#[test]
fn lowering_twice_equals_lowering_once() {
    for v in [
        Value::GpuPriority(5),
        Value::CpuPriority(0x8000),
        Value::EcoQos { control: 6, state: 2 },
        Value::MemoryPriority(4),
    ] {
        assert_eq!(v.background().background(), v.background());
        assert!(v.background().valid());
    }
}

#[test]
fn lowering_keeps_existing_throttling_bits() {
    let v = Value::EcoQos { control: 6, state: 2 };
    assert_eq!(v.background(), Value::EcoQos { control: 7, state: 3 });
}

#[test]
fn newer_is_a_strict_order() {
    assert!(!is_newer("1.2.3", "1.2.3").unwrap());
    assert!(is_newer("1.2.3", "1.3.0").unwrap() && !is_newer("1.3.0", "1.2.3").unwrap());
    assert!(is_newer("1.2.3", "1.2.4").unwrap() && is_newer("1.2.4", "2.0.0").unwrap() && is_newer("1.2.3", "2.0.0").unwrap());
}

#[test]
fn a_changed_provenance_is_a_different_lifetime() {
    let a = Identity {
        pid: 5,
        created: 9,
        path: "x".into(),
        session_id: 1,
        provenance: Some(Provenance { owner_sid: "s".into(), logon_id: 1, image_file_id: "f".into() }),
    };
    let b = Identity { provenance: None, ..a.clone() };
    assert!(same_process(&a, &a));
    assert!(!same_process(&a, &b) && !same_process(&b, &a));
}

#[test]
fn utf16_round_trip_through_the_registry_form() {
    for text in ["", "plain", "C:\\Program Files\\x.exe -a", "\u{10FFFF}\u{E000}\u{D7FF}"] {
        let bytes: Vec<u8> = wide(text).iter().flat_map(|w| w.to_le_bytes()).collect();
        assert_eq!(decode_string(&bytes).unwrap(), text);
    }
}

struct Log(Vec<String>);

impl Journal for Log {
    fn save(&mut self, _: &Session) -> AppResult<()> {
        self.0.push("save".into());
        Ok(())
    }
}

struct Recorder {
    value: Value,
    calls: Vec<String>,
}

impl Backend for Recorder {
    fn authorize(&mut self, id: &Identity) -> NativeResult<()> {
        self.calls.push(format!("authorize {}", id.pid));
        Ok(())
    }
    fn read(&mut self, id: &Identity, p: Property) -> NativeResult<Value> {
        self.calls.push(format!("read {} {:?}", id.pid, p));
        Ok(self.value)
    }
    fn write(&mut self, id: &Identity, v: &Value) -> NativeResult<()> {
        self.calls.push(format!("write {} {:?}", id.pid, v.property()));
        self.value = *v;
        Ok(())
    }
    fn close(&mut self, id: &Identity, _: bool, _: u32) -> NativeResult<CloseState> {
        self.calls.push(format!("close {}", id.pid));
        Ok(CloseState::KeptOpen)
    }
}

fn recorded_session() -> Session {
    let who = |pid: u32, path: &str| Identity {
        pid,
        created: 100,
        path: path.into(),
        session_id: 1,
        provenance: Some(Provenance { owner_sid: "u".into(), logon_id: 1, image_file_id: format!("f{pid}") }),
    };
    Session::new(
        "laws".into(),
        Plan {
            manual_mode: false,
            game_path: r"C:\Game\game.exe".into(),
            game: Some(who(99, r"C:\Game\game.exe")),
            actions: vec![ApprovedAction { target: who(20, r"C:\Apps\tool.exe"), action: ActionKind::LowerPriorities, reopen: None }],
            protected_paths: vec![],
            options: Options { cpu_priority: true, ..Options::default() },
            consent: true,
            force_consent: false,
            experimental_consent: false,
        },
    )
}

#[test]
fn every_write_follows_a_read_of_the_same_setting() {
    let mut s = recorded_session();
    let mut b = Recorder { value: Value::CpuPriority(0x20), calls: vec![] };
    let mut j = Log(vec![]);
    apply(&mut s, &mut b, &mut j).unwrap();
    restore(&mut s, &mut b, &mut j).unwrap();
    assert_eq!(b.value, Value::CpuPriority(0x20));
    let writes: Vec<usize> = b.calls.iter().enumerate().filter(|(_, c)| c.starts_with("write")).map(|(i, _)| i).collect();
    assert_eq!(writes.len(), 2);
    for i in writes {
        assert!(i > 0);
        assert_eq!(b.calls[i - 1], "read 20 CpuPriority");
        assert_eq!(b.calls[i], "write 20 CpuPriority");
    }
}
