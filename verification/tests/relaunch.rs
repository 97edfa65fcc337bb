//! Which executables may be started again, and the GUI executable header check.
use process_optimizer::model::{Fault, FaultKind, Identity, ProcessRow, Provenance, ReopenApproval, ReopenState};
use process_optimizer::windows::reopen::{
    approval_unchanged, gui_header, header_offset, launch_hold, launch_identity_check, launch_result, launch_target_check, not_launched,
    same_image, stamp_check,
};

fn target(path: &str) -> Identity {
    Identity {
        pid: 4242,
        created: 7,
        path: path.into(),
        session_id: 1,
        provenance: Some(Provenance { owner_sid: "S-1-5-21-1".into(), logon_id: 9, image_file_id: "vol:1:file:2".into() }),
    }
}

fn stamp(file: &str, size: u64) -> ReopenApproval {
    ReopenApproval { image_file_id: file.into(), file_size: size, modified: 3 }
}

#[test]
fn ordinary_applications_may_be_started_again() {
    assert!(launch_target_check(&target(r"C:\Apps\Editor\editor.exe")).is_ok());
}

#[test]
fn shells_interpreters_and_infrastructure_are_refused() {
    for path in [r"C:\Windows\System32\cmd.exe", r"C:\Tools\PYTHON.EXE", r"\\?\C:\x\pwsh.exe", r"C:/Windows/System32/rundll32.exe", r"C:\Windows\explorer.exe"] {
        let f = launch_target_check(&target(path)).unwrap_err();
        assert_eq!(f.kind, FaultKind::Denied);
        assert_eq!(f.message, "System infrastructure, shells, interpreters and job hosts cannot be generically reopened.");
    }
    let mut partial = target(r"C:\Apps\editor.exe");
    partial.provenance = None;
    assert_eq!(launch_target_check(&partial).unwrap_err().message, "Incomplete executable identity.");
}

#[test]
fn replaced_or_changed_files_are_refused() {
    let id = target(r"C:\Apps\editor.exe");
    assert!(same_image(&id, &stamp("vol:1:file:2", 10)).is_ok());
    let replaced = same_image(&id, &stamp("vol:1:file:3", 10)).unwrap_err();
    assert_eq!(replaced.kind, FaultKind::Denied);
    assert_eq!(replaced.message, "Executable was replaced.");
    assert!(approval_unchanged(&stamp("a", 10), &stamp("a", 10)).is_ok());
    assert_eq!(
        approval_unchanged(&stamp("a", 11), &stamp("a", 10)).unwrap_err().message,
        "The executable changed after reopening was approved."
    );
}

fn dos(offset: u32) -> Vec<u8> {
    let mut d = vec![0u8; 64];
    d[0] = b'M';
    d[1] = b'Z';
    d[60..64].copy_from_slice(&offset.to_le_bytes());
    d
}

fn pe(magic: u16, optional: u16, subsystem: u16) -> Vec<u8> {
    let mut p = vec![0u8; 94];
    p[..4].copy_from_slice(b"PE\0\0");
    p[20..22].copy_from_slice(&optional.to_le_bytes());
    p[24..26].copy_from_slice(&magic.to_le_bytes());
    p[92..94].copy_from_slice(&subsystem.to_le_bytes());
    p
}

#[test]
fn header_offset_must_lie_inside_the_file() {
    assert_eq!(header_offset(&dos(0x80), 4096).unwrap(), 0x80);
    assert_eq!(header_offset(&dos(0x80), 0x80 + 94).unwrap(), 0x80);
    assert_eq!(header_offset(&dos(0x80), 0x80 + 93).unwrap_err().message, "Invalid executable header.");
    assert_eq!(header_offset(&dos(63), 4096).unwrap_err().message, "Invalid executable header.");
    assert_eq!(header_offset(&dos(1024 * 1024 + 1), u64::MAX).unwrap_err().message, "Invalid executable header.");
    let mut not_mz = dos(0x80);
    not_mz[0] = b'Z';
    let f = header_offset(&not_mz, 4096).unwrap_err();
    assert_eq!(f.kind, FaultKind::Denied);
    assert_eq!(f.message, "Not a PE executable.");
}

#[test]
fn only_gui_subsystem_images_pass() {
    assert!(gui_header(&pe(0x10b, 224, 2)).is_ok());
    assert!(gui_header(&pe(0x20b, 240, 2)).is_ok());
    let console = gui_header(&pe(0x20b, 240, 3)).unwrap_err();
    assert_eq!(console.kind, FaultKind::Denied);
    assert_eq!(console.message, "Only ordinary Windows GUI executables can be reopened; console workloads are excluded.");
    assert!(gui_header(&pe(0x107, 240, 2)).is_err());
    assert!(gui_header(&pe(0x10b, 69, 2)).is_err());
    let mut unsigned = pe(0x10b, 224, 2);
    unsigned[2] = 1;
    assert!(gui_header(&unsigned).is_err());
}

#[test]
fn launches_are_never_elevated_and_stay_with_the_user() {
    let id = target(r"C:\Apps\editor.exe");
    assert!(launch_identity_check(&id, false, &target(r"C:\Apps\other.exe")).is_ok());
    assert_eq!(launch_identity_check(&id, true, &id).unwrap_err().message, "Reopening is never elevated.");
    let mut someone = target(r"C:\Apps\other.exe");
    someone.provenance.as_mut().unwrap().logon_id = 99;
    let f = launch_identity_check(&id, false, &someone).unwrap_err();
    assert_eq!(f.kind, FaultKind::Denied);
    assert_eq!(f.message, "Original user/logon/session is no longer current.");
    assert!(stamp_check(&stamp("a", 1), &stamp("a", 1)).is_ok());
    assert_eq!(
        stamp_check(&stamp("a", 2), &stamp("a", 1)).unwrap_err().message,
        "Executable size, write time or file identity changed; open manually."
    );
}

fn process(pid: u32, name: &str, path: &str) -> ProcessRow {
    let mut identity = target(path);
    identity.pid = pid;
    ProcessRow { identity, parent_pid: 1, name: name.into(), protected_reason: None, gpu: vec![] }
}

#[test]
fn launches_are_held_back_when_unsafe_or_redundant() {
    let id = target(r"C:\Apps\Editor.exe");
    assert!(launch_hold(&id, &[], &[], true).is_none());
    let held = |protected: &[String], rows: &[ProcessRow], ready: bool| launch_hold(&id, protected, rows, ready).unwrap();
    let p = held(&[r"c:/apps/editor.exe".to_string()], &[], true);
    assert_eq!((p.state, p.detail.as_str()), (ReopenState::Skipped, "Newly protected app; no launch was attempted."));
    assert!(p.child.is_none() && p.target.pid == id.pid);
    let r = held(&[], &[process(77, "editor.exe", r"c:\apps\editor.exe")], true);
    assert_eq!((r.state, r.detail.as_str()), (ReopenState::AlreadyRunning, "An app instance or helper is already running. No duplicate was launched."));
    let mut hidden = process(78, "EDITOR.EXE", "");
    hidden.identity.provenance = None;
    let u = held(&[], &[hidden], true);
    assert_eq!((u.state, u.detail.as_str()), (ReopenState::Deferred, "A possible existing instance cannot be identified. Reopen manually after review."));
    let d = held(&[], &[process(79, "notes.exe", r"C:\Apps\notes.exe")], false);
    assert_eq!((d.state, d.detail.as_str()), (ReopenState::Deferred, "Desktop is locked, disconnected or unverifiable. No launch; reopen manually after returning."));
}

#[test]
fn only_a_verified_new_process_counts_as_started() {
    let id = target(r"C:\Apps\Editor.exe");
    let mut child = target(r"c:/apps/editor.exe");
    child.pid = 5000;
    let started = launch_result(&id, Ok(child.clone()));
    assert_eq!(started.state, ReopenState::Started);
    assert_eq!(started.child.as_ref().unwrap().pid, 5000);
    let mut other = child.clone();
    other.provenance.as_mut().unwrap().image_file_id = "vol:9".into();
    let unsure = launch_result(&id, Ok(other));
    assert_eq!(unsure.state, ReopenState::Indeterminate);
    assert!(unsure.child.is_none());
    assert_eq!(
        unsure.detail,
        "Launch returned but the new lifetime could not be verified (it may have exited or handed off). No retry will occur."
    );
    assert_eq!(launch_result(&id, Err(Fault::new(FaultKind::Gone, "exited"))).state, ReopenState::Indeterminate);
    let skipped = not_launched(&id, &Fault::new(FaultKind::Denied, "Reopening is never elevated."));
    assert_eq!((skipped.state, skipped.detail.as_str()), (ReopenState::Skipped, "Reopening is never elevated."));
}
