//! Startup command parsing and stored-value decoding.
use process_optimizer::manual::StartupValueKind;
use process_optimizer::model::FaultKind;
use process_optimizer::windows::startup::{
    command_executable, decode_string, disable_step, disable_verified, fault, matching, restore_step, restore_verified,
    run_entry, value_kind, RunEntry, MAX_DATA_BYTES, REG_EXPAND_SZ, REG_SZ,
};
use process_optimizer::windows::wide;

#[test]
fn parses_only_plain_executable_tokens() {
    assert_eq!(
        command_executable(r#""C:\Program Files\Example\app.exe" --background"#),
        Some(r"c:\program files\example\app.exe".into())
    );
    assert_eq!(command_executable(r"C:\Tools\tool.exe --quiet"), Some(r"c:\tools\tool.exe".into()));
    assert_eq!(command_executable(r"%LOCALAPPDATA%\App\app.exe"), None);
}

#[test]
fn unterminated_quotes_and_environment_references_are_not_matched() {
    assert_eq!(command_executable(r#""C:\Apps\a.exe"#), None);
    assert_eq!(command_executable(r#""C:\%APP%\a.exe" -x"#), None);
    assert_eq!(command_executable("   "), None);
    assert_eq!(command_executable(r#""""#), None);
}

fn encode(text: &str) -> Vec<u8> {
    wide(text).iter().flat_map(|w| w.to_le_bytes()).collect()
}

#[test]
fn stored_values_decode_up_to_the_terminator() {
    assert_eq!(decode_string(&encode("C:\\Apps\\a.exe --min")).unwrap(), "C:\\Apps\\a.exe --min");
    assert_eq!(decode_string(&encode("snow \u{2603} \u{1F600}")).unwrap(), "snow \u{2603} \u{1F600}");
    assert_eq!(decode_string(&[]).unwrap(), "");
    assert_eq!(decode_string(&[0x41]).unwrap_err().kind, FaultKind::Other);
    assert_eq!(decode_string(&[0x00, 0xD8, 0x41, 0x00]).unwrap_err().kind, FaultKind::Other);
}

#[test]
fn wide_strings_are_nul_terminated_utf16() {
    assert_eq!(wide("A\u{1F600}"), vec![0x41, 0xD83D, 0xDE00, 0]);
    assert_eq!(wide(""), vec![0]);
}

#[test]
fn matching_uses_the_canonical_executable() {
    let entry = |name: &str, command: &str| RunEntry {
        value_name: name.into(),
        command: command.into(),
        kind: StartupValueKind::String,
        executable: command_executable(command),
    };
    let entries = vec![
        entry("a", r"C:\Apps\Tool.exe /min"),
        entry("b", r"%APPDATA%\Tool.exe"),
        entry("c", r#""c:/apps/tool.exe""#),
    ];
    let found = matching(&entries, r"\\?\C:\Apps\TOOL.exe");
    assert_eq!(found.len(), 2);
    assert_eq!(found[0].value_name, "a");
    assert_eq!(found[1].value_name, "c");
}

#[test]
fn native_failures_name_the_operation_and_code() {
    let f = fault("Open current-user startup key", 5);
    assert_eq!(f.kind, FaultKind::Denied);
    assert_eq!(f.message, "Open current-user startup key failed with Windows error 5.");
}

fn units(text: &str) -> Vec<u16> {
    text.encode_utf16().collect()
}

#[test]
fn enumerated_string_values_become_entries() {
    let e = run_entry(&units("Tool"), REG_SZ, &encode(r#""C:\Apps\Tool.exe" /min"#)).unwrap().unwrap();
    assert_eq!(e.value_name, "Tool");
    assert_eq!(e.command, r#""C:\Apps\Tool.exe" /min"#);
    assert_eq!(e.kind, StartupValueKind::String);
    assert_eq!(e.executable, Some(r"c:\apps\tool.exe".into()));
    let x = run_entry(&units("Env"), REG_EXPAND_SZ, &encode(r"%APPDATA%\x.exe")).unwrap().unwrap();
    assert_eq!(x.kind, StartupValueKind::ExpandString);
    assert_eq!(x.executable, None);
}

#[test]
fn other_value_types_are_skipped_and_bad_text_refused() {
    assert!(run_entry(&units("Bin"), 3, &[1, 2, 3]).unwrap().is_none());
    let bad_name = run_entry(&[0xD800], REG_SZ, &encode("a.exe")).unwrap_err();
    assert_eq!(bad_name.kind, FaultKind::Other);
    assert_eq!(bad_name.message, "Invalid startup value name.");
    assert_eq!(run_entry(&units("Odd"), REG_SZ, &[0x41]).unwrap_err().message, "Malformed UTF-16 startup value.");
    assert_eq!(run_entry(&units("Lone"), REG_SZ, &[0x00, 0xD8]).unwrap_err().message, "Invalid UTF-16 startup value.");
}

#[test]
fn only_manageable_string_values_are_read() {
    assert_eq!(value_kind(REG_SZ, 10).unwrap(), StartupValueKind::String);
    assert_eq!(value_kind(REG_EXPAND_SZ, MAX_DATA_BYTES as u32).unwrap(), StartupValueKind::ExpandString);
    let big = value_kind(REG_SZ, MAX_DATA_BYTES as u32 + 1).unwrap_err();
    assert_eq!(big.kind, FaultKind::Other);
    assert_eq!(big.message, "Startup value is too large to manage safely.");
    let dword = value_kind(4, 4).unwrap_err();
    assert_eq!(dword.kind, FaultKind::Unsupported);
    assert_eq!(dword.message, "Startup entry is not a string command.");
}

#[test]
fn disabling_touches_only_the_reviewed_value() {
    let entry = RunEntry {
        value_name: "Tool".into(),
        command: r"C:\Apps\Tool.exe /min".into(),
        kind: StartupValueKind::String,
        executable: command_executable(r"C:\Apps\Tool.exe /min"),
    };
    assert!(!disable_step(&entry, &None).unwrap());
    assert!(disable_step(&entry, &Some((entry.command.clone(), StartupValueKind::String))).unwrap());
    let changed = disable_step(&entry, &Some((r"C:\Other.exe".into(), StartupValueKind::String))).unwrap_err();
    assert_eq!(changed.kind, FaultKind::Denied);
    assert_eq!(changed.message, "Startup entry changed after review; it was not disabled.");
    assert_eq!(disable_step(&entry, &Some((entry.command.clone(), StartupValueKind::ExpandString))).unwrap_err().kind, FaultKind::Denied);
    assert!(disable_verified(&None).is_ok());
    assert_eq!(
        disable_verified(&Some((entry.command.clone(), StartupValueKind::String))).unwrap_err().message,
        "Startup value still exists after disable request."
    );
}

#[test]
fn restoring_never_overwrites_a_different_value() {
    let kind = StartupValueKind::String;
    let command = r"C:\Apps\Tool.exe /min";
    assert!(restore_step(command, &kind, &None).unwrap());
    assert!(!restore_step(command, &kind, &Some((command.into(), kind))).unwrap());
    let other = restore_step(command, &kind, &Some((r"C:\Other.exe".into(), kind))).unwrap_err();
    assert_eq!(other.kind, FaultKind::Denied);
    assert_eq!(other.message, "A different startup value now uses this name; recovery will not overwrite it.");
    assert!(restore_verified(command, &kind, &Some((command.into(), kind))).is_ok());
    let missing = restore_verified(command, &kind, &None).unwrap_err();
    assert_eq!(missing.kind, FaultKind::Other);
    assert_eq!(missing.message, "Startup value could not be verified after restore.");
    assert!(restore_verified(command, &kind, &Some((command.into(), StartupValueKind::ExpandString))).is_err());
}
