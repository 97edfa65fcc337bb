//! Release version ordering, manifest scoping and download verification.
use process_optimizer::update::{
    is_newer, sha256_bytes, updater_args, value, verify_file, Manifest, MANIFEST_SCHEMA, REPOSITORY,
};
use process_optimizer::windows::update::split_https;

fn manifest(version: &str) -> Manifest {
    let base = format!("https://github.com/{REPOSITORY}/releases/download/v{version}/");
    Manifest {
        schema: MANIFEST_SCHEMA,
        version: version.into(),
        app_url: format!("{base}process-optimizer.exe"),
        app_sha256: "a".repeat(64),
        updater_url: format!("{base}process-optimizer-updater.exe"),
        updater_sha256: "b".repeat(64),
        installer_url: format!("{base}ProcessOptimizerSetup.exe"),
    }
}

#[test]
fn stable_versions_compare_numerically() {
    assert!(is_newer("0.4.9", "0.5.0").unwrap());
    assert!(is_newer("0.9.9", "0.10.0").unwrap());
    assert!(!is_newer("1.2.3", "1.2.3").unwrap());
    assert!(!is_newer("2.0.0", "1.99.99").unwrap());
}

#[test]
fn manifest_is_repository_and_asset_scoped() {
    let mut m = manifest("0.5.0");
    m.validate().unwrap();
    m.app_url = "https://example.com/process-optimizer.exe".into();
    assert!(m.validate().is_err());
}

#[test]
fn malformed_versions_and_hashes_fail_closed() {
    assert!(is_newer("0.4.0", "0.5-beta").is_err());
    let mut m = manifest("0.5.0");
    m.app_sha256 = "not-a-hash".into();
    assert!(m.validate().is_err());
}

#[test]
fn newer_is_strict_and_leading_v_is_accepted() {
    assert!(is_newer("v1.0.0", "1.0.1").unwrap());
    assert!(!is_newer("1.0.1", "v1.0.0").unwrap());
    assert!(is_newer("1.0", "1.0.1").is_err());
}

#[test]
fn digest_is_lowercase_hex_of_sha256() {
    assert_eq!(
        sha256_bytes(b"abc"),
        "ba7816bf8f01cfea414140de5dae2223b00361a396177a9cb410ff61f20015ad"
    );
    assert!(verify_file(b"abc", "BA7816BF8F01CFEA414140DE5DAE2223B00361A396177A9CB410FF61F20015AD").is_ok());
    assert!(verify_file(b"abd", "ba7816bf8f01cfea414140de5dae2223b00361a396177a9cb410ff61f20015ad").is_err());
}

#[test]
fn updater_arguments_are_read_by_flag() {
    let args: Vec<String> = ["updater", "--pid", "42", "--target"].iter().map(|s| s.to_string()).collect();
    assert_eq!(value(&args, "--pid").unwrap(), "42");
    assert!(value(&args, "--target").is_err());
    assert!(value(&args, "--missing").is_err());
}

#[test]
fn update_address_splits_into_github_host_and_path() {
    let (host, path) = split_https("https://github.com/owner/repo/releases/download/v1.2.3/app.exe").unwrap();
    assert_eq!(host, "github.com");
    assert_eq!(path, "/owner/repo/releases/download/v1.2.3/app.exe");
}

#[test]
fn update_address_must_be_https_on_github_with_a_path() {
    assert_eq!(split_https("http://github.com/owner/repo").unwrap_err(), "Only HTTPS update URLs are accepted.");
    assert_eq!(split_https("HTTPS://github.com/owner/repo").unwrap_err(), "Only HTTPS update URLs are accepted.");
    assert_eq!(split_https("https://github.com").unwrap_err(), "Update URL is missing a path.");
    assert_eq!(split_https("https://example.com/owner/repo").unwrap_err(), "Update URL host is not the expected GitHub host.");
    assert_eq!(split_https("https://github.com.example.com/x").unwrap_err(), "Update URL host is not the expected GitHub host.");
    assert_eq!(split_https("https://github.com/").unwrap(), ("github.com".to_string(), "/".to_string()));
}

fn argv(items: &[&str]) -> Vec<String> {
    items.iter().map(|s| s.to_string()).collect()
}

#[test]
fn updater_argument_errors_name_the_flag() {
    let args = argv(&["updater", "--pid", "42", "--target"]);
    assert_eq!(value(&args, "--target").unwrap_err(), "Missing value for updater argument --target.");
    assert_eq!(value(&args, "--missing").unwrap_err(), "Missing updater argument --missing.");
}

fn full(pid: &str) -> Vec<String> {
    argv(&[
        "updater.exe", "--apply", "--install-dir", r"C:\PO", "--app", r"C:\u\app.exe", "--updater", r"C:\u\upd.exe",
        "--app-sha256", "aa", "--updater-sha256", "bb", "--parent-pid", pid,
    ])
}

#[test]
fn updater_request_is_read_in_full() {
    let a = updater_args(&full("1234")).unwrap();
    assert_eq!(a.install_dir, r"C:\PO");
    assert_eq!(a.app, r"C:\u\app.exe");
    assert_eq!(a.updater, r"C:\u\upd.exe");
    assert_eq!(a.app_sha256, "aa");
    assert_eq!(a.updater_sha256, "bb");
    assert_eq!(a.parent_pid, 1234);
    assert!(!a.no_restart);
    let mut quiet = full("+7");
    quiet.push("--test-no-restart".into());
    let q = updater_args(&quiet).unwrap();
    assert_eq!(q.parent_pid, 7);
    assert!(q.no_restart);
}

#[test]
fn updater_request_is_refused_in_order() {
    let mut no_apply = full("1");
    no_apply.retain(|a| a != "--apply");
    assert_eq!(updater_args(&no_apply).err().unwrap(), "Updater must be launched by Process Optimizer.");
    let missing = argv(&["updater.exe", "--apply", "--app", "x"]);
    assert_eq!(updater_args(&missing).err().unwrap(), "Missing updater argument --install-dir.");
    assert_eq!(updater_args(&full("-1")).err().unwrap(), "Updater parent PID is invalid.");
    assert_eq!(updater_args(&full("4294967296")).err().unwrap(), "Updater parent PID is invalid.");
    assert_eq!(updater_args(&full("")).err().unwrap(), "Updater parent PID is invalid.");
}
