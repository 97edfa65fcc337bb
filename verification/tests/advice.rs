//! Plain-language app advice.
use process_optimizer::advice::{describe, essential_process, recommendation, Choice};

fn choice(name: &str, protected: bool, essential: bool, startup: bool, gpu: Option<u32>) -> Choice {
    Choice {
        path: format!(r"c:\apps\{name}"),
        name: name.into(),
        id: None,
        protected,
        essential,
        gpu_hundredths: gpu,
        startup_enabled: startup,
        startup_disabled: false,
    }
}

#[test]
fn essential_and_protected_are_always_keep_recommendations() {
    assert_eq!(recommendation(&choice("svchost.exe", true, true, false, Some(2000))), "KEEP — REQUIRED");
    assert_eq!(recommendation(&choice("steam.exe", true, false, false, Some(2000))), "KEEP — PROTECTED");
}

#[test]
fn browser_and_gpu_active_optional_apps_prefer_lower_priority() {
    assert_eq!(recommendation(&choice("chrome.exe", false, false, false, None)), "LOWER PRIORITY");
    assert_eq!(recommendation(&choice("optional.exe", false, false, false, Some(200))), "LOWER PRIORITY");
}

#[test]
fn unused_sync_style_startup_apps_get_persistent_cleanup_hint() {
    assert_eq!(recommendation(&choice("Everything.exe", false, false, true, None)), "DISABLE STARTUP IF UNUSED");
}

#[test]
fn hardware_utilities_are_reviewed_and_idle_apps_kept() {
    assert_eq!(recommendation(&choice("ASUSOptimization.exe", false, false, true, Some(5000))), "KEEP / REVIEW");
    assert_eq!(recommendation(&choice("quiet.exe", false, false, false, Some(99))), "KEEP / REVIEW");
}

#[test]
fn descriptions_ignore_case() {
    assert_eq!(describe("FireFox.EXE"), ("Web browser", "Usually a Game Mode-only choice"));
    assert_eq!(describe("NVIDIA Overlay.exe").0, "Overlay / monitoring");
    assert_eq!(describe("unknown.exe"), ("Optional app", "Review before changing"));
}

#[test]
fn essential_processes_by_name_or_reason() {
    assert!(essential_process("CSRSS.EXE", None));
    assert!(essential_process("x.exe", Some("Critical Windows process")));
    assert!(!essential_process("x.exe", Some("user app")));
    assert!(!essential_process("x.exe", None));
}
