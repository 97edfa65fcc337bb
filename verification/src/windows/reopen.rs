//! The checks behind the narrow GUI launch adapter: which executables may be started
//! again at all, and the header of an ordinary Windows GUI executable.
use crate::applications::{app_key, key_file, key_path, same_user_session, same_user_session_spec};
use crate::model::{Fault, FaultKind, Identity, NativeResult, ProcessRow, ReopenApproval, ReopenRecord, ReopenState};
use crate::policy::{complete_identity, complete_identity_spec, normalized, normalized_path, reserved_name, reserved_name_spec};
use crate::text::{after_last, ascii_lower_seq, chars_equal, chars_of, last_field, lower_ascii, str_equal};
use crate::windows::startup::until_nul;
use vstd::prelude::*;

verus! {

/// Shells, interpreters and job hosts: never started again on a user's behalf.
pub open spec fn launch_host(leaf: Seq<char>) -> bool {
    ||| leaf == "cmd.exe"@
    ||| leaf == "powershell.exe"@
    ||| leaf == "pwsh.exe"@
    ||| leaf == "wsl.exe"@
    ||| leaf == "bash.exe"@
    ||| leaf == "python.exe"@
    ||| leaf == "pythonw.exe"@
    ||| leaf == "node.exe"@
    ||| leaf == "dotnet.exe"@
    ||| leaf == "rundll32.exe"@
    ||| leaf == "regsvr32.exe"@
    ||| leaf == "msiexec.exe"@
    ||| leaf == "conhost.exe"@
    ||| leaf == "wt.exe"@
}

/// The file name of a path in canonical form.
pub open spec fn canonical_leaf(path: Seq<char>) -> Seq<char> {
    after_last(normalized(path), '\\')
}

fn is_launch_host(leaf: &str) -> (r: bool)
    ensures
        r == launch_host(leaf@),
{
    str_equal(leaf, "cmd.exe") || str_equal(leaf, "powershell.exe") || str_equal(leaf, "pwsh.exe")
        || str_equal(leaf, "wsl.exe") || str_equal(leaf, "bash.exe") || str_equal(leaf, "python.exe")
        || str_equal(leaf, "pythonw.exe") || str_equal(leaf, "node.exe") || str_equal(leaf, "dotnet.exe")
        || str_equal(leaf, "rundll32.exe") || str_equal(leaf, "regsvr32.exe") || str_equal(
        leaf,
        "msiexec.exe",
    ) || str_equal(leaf, "conhost.exe") || str_equal(leaf, "wt.exe")
}

/// The identity checks made before the executable file is opened: a complete identity,
/// and no essential infrastructure, shell, interpreter or job host.
pub fn launch_target_check(id: &Identity) -> (r: NativeResult<()>)
    ensures
        !complete_identity_spec(*id) ==> (r matches Err(f) && f.kind == FaultKind::Denied
            && f.message@ == "Incomplete executable identity."@),
        complete_identity_spec(*id) ==> if reserved_name_spec(canonical_leaf(id.path@)) || launch_host(
            canonical_leaf(id.path@),
        ) {
            r matches Err(f) && f.kind == FaultKind::Denied && f.message@
                == "System infrastructure, shells, interpreters and job hosts cannot be generically reopened."@
        } else {
            r is Ok
        },
{
    if !complete_identity(id) {
        return Err(Fault::new(FaultKind::Denied, "Incomplete executable identity."));
    }
    let leaf = last_field(normalized_path(id.path.as_str()).as_str(), '\\');
    if reserved_name(leaf.as_str()) || is_launch_host(leaf.as_str()) {
        return Err(Fault::new(
            FaultKind::Denied,
            "System infrastructure, shells, interpreters and job hosts cannot be generically reopened.",
        ));
    }
    Ok(())
}

/// The opened file is the one the process was started from.
pub fn same_image(id: &Identity, stamp: &ReopenApproval) -> (r: NativeResult<()>)
    ensures
        r is Ok <==> (id.provenance matches Some(p) && p.image_file_id@ == stamp.image_file_id@),
        r matches Err(f) ==> f.kind == FaultKind::Denied && f.message@ == "Executable was replaced."@,
{
    match &id.provenance {
        Some(p) => {
            if str_equal(p.image_file_id.as_str(), stamp.image_file_id.as_str()) {
                return Ok(());
            }
        },
        None => {},
    }
    Err(Fault::new(FaultKind::Denied, "Executable was replaced."))
}

/// The file evidence still matches what was approved.
pub fn approval_unchanged(current: &ReopenApproval, expected: &ReopenApproval) -> (r: NativeResult<()>)
    ensures
        r is Ok <==> crate::model::approval_eq(*current, *expected),
        r matches Err(f) ==> f.kind == FaultKind::Denied
            && f.message@ == "The executable changed after reopening was approved."@,
{
    if !(*current == *expected) {
        return Err(Fault::new(FaultKind::Denied, "The executable changed after reopening was approved."));
    }
    Ok(())
}

/// The little-endian 16-bit number at `at`.
pub open spec fn le16(b: Seq<u8>, at: int) -> int {
    b[at] + b[at + 1] * 256
}

/// The little-endian 32-bit number at `at`.
pub open spec fn le32(b: Seq<u8>, at: int) -> int {
    le16(b, at) + le16(b, at + 2) * 65536
}

/// Largest header offset accepted: one mebibyte.
pub const MAX_HEADER_OFFSET: u64 = 1048576;

/// Length of the header read at the offset: through the optional header's subsystem.
pub const PE_HEADER_BYTES: u64 = 94;

/// Where the PE header starts, from the first 64 bytes of a file of `size` bytes: an `MZ`
/// file whose header offset lies in [64, 1 MiB] with the whole header inside the file.
pub fn header_offset(dos: &[u8], size: u64) -> (r: NativeResult<u64>)
    requires
        dos@.len() == 64,
    ensures
        !(dos@[0] == 0x4D && dos@[1] == 0x5A) ==> (r matches Err(f) && f.kind == FaultKind::Denied
            && f.message@ == "Not a PE executable."@),
        dos@[0] == 0x4D && dos@[1] == 0x5A ==> {
            let off = le32(dos@, 60);
            if 64 <= off <= MAX_HEADER_OFFSET && off + PE_HEADER_BYTES <= size {
                r matches Ok(o) && o == off
            } else {
                r matches Err(f) && f.kind == FaultKind::Denied && f.message@ == "Invalid executable header."@
            }
        },
{
    if !(dos[0] == 0x4D && dos[1] == 0x5A) {
        return Err(Fault::new(FaultKind::Denied, "Not a PE executable."));
    }
    let offset: u64 = (dos[60] as u64) + (dos[61] as u64) * 256 + ((dos[62] as u64) + (dos[63] as u64) * 256)
        * 65536;
    if offset < 64 || offset > MAX_HEADER_OFFSET || offset + PE_HEADER_BYTES > size {
        return Err(Fault::new(FaultKind::Denied, "Invalid executable header."));
    }
    Ok(offset)
}

/// A PE header of an ordinary Windows GUI program: the `PE\0\0` signature, a PE32 or
/// PE32+ optional header long enough to hold the subsystem, and the GUI subsystem.
pub open spec fn gui_header_spec(pe: Seq<u8>) -> bool {
    &&& pe[0] == 0x50 && pe[1] == 0x45 && pe[2] == 0 && pe[3] == 0
    &&& le16(pe, 24) == 0x10b || le16(pe, 24) == 0x20b
    &&& le16(pe, 20) >= 70
    &&& le16(pe, 92) == 2
}

/// Checks the PE header read at the header offset.
pub fn gui_header(pe: &[u8]) -> (r: NativeResult<()>)
    requires
        pe@.len() == PE_HEADER_BYTES,
    ensures
        r is Ok <==> gui_header_spec(pe@),
        r matches Err(f) ==> f.kind == FaultKind::Denied && f.message@
            == "Only ordinary Windows GUI executables can be reopened; console workloads are excluded."@,
{
    let magic: u16 = (pe[24] as u16) + (pe[25] as u16) * 256;
    let optional_size: u16 = (pe[20] as u16) + (pe[21] as u16) * 256;
    let subsystem: u16 = (pe[92] as u16) + (pe[93] as u16) * 256;
    if !(pe[0] == 0x50 && pe[1] == 0x45 && pe[2] == 0 && pe[3] == 0) || !(magic == 0x10b || magic == 0x20b)
        || optional_size < 70 || subsystem != 2 {
        return Err(Fault::new(
            FaultKind::Denied,
            "Only ordinary Windows GUI executables can be reopened; console workloads are excluded.",
        ));
    }
    Ok(())
}

/// The checks made first: never elevated, and only for the user, logon and session the
/// app was closed in.
pub fn launch_identity_check(id: &Identity, elevated: bool, caller: &Identity) -> (r: NativeResult<()>)
    ensures
        elevated ==> (r matches Err(f) && f.kind == FaultKind::Denied && f.message@ == "Reopening is never elevated."@),
        !elevated && !same_user_session_spec(*caller, *id) ==> (r matches Err(f) && f.kind == FaultKind::Denied
            && f.message@ == "Original user/logon/session is no longer current."@),
        !elevated && same_user_session_spec(*caller, *id) ==> r is Ok,
{
    if elevated {
        return Err(Fault::new(FaultKind::Denied, "Reopening is never elevated."));
    }
    if !same_user_session(caller, id) {
        return Err(Fault::new(FaultKind::Denied, "Original user/logon/session is no longer current."));
    }
    Ok(())
}

/// The opened file still carries the evidence approved for reopening.
pub fn stamp_check(observed: &ReopenApproval, expected: &ReopenApproval) -> (r: NativeResult<()>)
    ensures
        r is Ok <==> crate::model::approval_eq(*observed, *expected),
        r matches Err(f) ==> f.kind == FaultKind::Denied
            && f.message@ == "Executable size, write time or file identity changed; open manually."@,
{
    if !(*observed == *expected) {
        return Err(Fault::new(FaultKind::Denied, "Executable size, write time or file identity changed; open manually."));
    }
    Ok(())
}

/// A running process of the same executable for the same user, logon and session.
pub open spec fn instance_running(rows: Seq<ProcessRow>, id: Identity) -> bool {
    exists|j: int|
        0 <= j < rows.len() && normalized((#[trigger] rows[j]).identity.path@) == normalized(id.path@)
            && same_user_session_spec(rows[j].identity, id)
}

/// A process with the executable's file name whose identity is unknown.
pub open spec fn instance_unidentified(rows: Seq<ProcessRow>, id: Identity) -> bool {
    exists|j: int|
        0 <= j < rows.len() && ascii_lower_seq((#[trigger] rows[j]).name@) == ascii_lower_seq(canonical_leaf(id.path@))
            && !complete_identity_spec(rows[j].identity)
}

/// Why no launch is made, if none is: the user protected the app since, an instance or
/// helper of it already runs, a possible instance cannot be identified, or the desktop is
/// locked, disconnected or unverifiable.
pub open spec fn hold_spec(id: Identity, protected_paths: Seq<String>, rows: Seq<ProcessRow>, desktop_ready: bool) -> Option<(ReopenState, Seq<char>)> {
    if exists|k: int| 0 <= k < protected_paths.len() && normalized((#[trigger] protected_paths[k])@) == normalized(id.path@) {
        Some((ReopenState::Skipped, "Newly protected app; no launch was attempted."@))
    } else if instance_running(rows, id) {
        Some((ReopenState::AlreadyRunning, "An app instance or helper is already running. No duplicate was launched."@))
    } else if instance_unidentified(rows, id) {
        Some((ReopenState::Deferred, "A possible existing instance cannot be identified. Reopen manually after review."@))
    } else if !desktop_ready {
        Some(
            (
                ReopenState::Deferred,
                "Desktop is locked, disconnected or unverifiable. No launch; reopen manually after returning."@,
            ),
        )
    } else {
        None
    }
}

fn record(id: &Identity, state: ReopenState, detail: &str) -> (r: ReopenRecord)
    ensures
        r.target == *id,
        r.child is None,
        r.state == state,
        r.detail@ == detail@,
{
    ReopenRecord { target: id.clone(), child: None, state, detail: detail.to_string() }
}

/// The record of a reopening that is held back before any launch, or none when the
/// launch may go ahead.
pub fn launch_hold(id: &Identity, protected_paths: &[String], rows: &[ProcessRow], desktop_ready: bool) -> (r: Option<ReopenRecord>)
    ensures
        match hold_spec(*id, protected_paths@, rows@, desktop_ready) {
            Some((state, detail)) => r matches Some(x) && x.target == *id && x.child is None && x.state == state
                && x.detail@ == detail,
            None => r is None,
        },
{
    let path = normalized_path(id.path.as_str());
    let mut k: usize = 0;
    while k < protected_paths.len()
        invariant
            k <= protected_paths@.len(),
            path@ == normalized(id.path@),
            forall|q: int| 0 <= q < k ==> normalized((#[trigger] protected_paths@[q])@) != normalized(id.path@),
        decreases protected_paths@.len() - k,
    {
        let p = normalized_path(protected_paths[k].as_str());
        if str_equal(p.as_str(), path.as_str()) {
            assert(normalized(protected_paths@[k as int]@) == normalized(id.path@));
            return Some(record(id, ReopenState::Skipped, "Newly protected app; no launch was attempted."));
        }
        k = k + 1;
    }
    let mut j: usize = 0;
    while j < rows.len()
        invariant
            j <= rows@.len(),
            path@ == normalized(id.path@),
            forall|q: int| 0 <= q < protected_paths@.len() ==> normalized((#[trigger] protected_paths@[q])@) != normalized(id.path@),
            forall|q: int| 0 <= q < j ==> !(normalized((#[trigger] rows@[q]).identity.path@) == normalized(id.path@)
                && same_user_session_spec(rows@[q].identity, *id)),
        decreases rows@.len() - j,
    {
        let other = normalized_path(rows[j].identity.path.as_str());
        if str_equal(other.as_str(), path.as_str()) && same_user_session(&rows[j].identity, id) {
            assert(normalized(rows@[j as int].identity.path@) == normalized(id.path@));
            return Some(record(id, ReopenState::AlreadyRunning, "An app instance or helper is already running. No duplicate was launched."));
        }
        j = j + 1;
    }
    let leaf = lower_ascii(&chars_of(last_field(path.as_str(), '\\').as_str()));
    let mut m: usize = 0;
    while m < rows.len()
        invariant
            m <= rows@.len(),
            leaf@ == ascii_lower_seq(canonical_leaf(id.path@)),
            forall|q: int| 0 <= q < protected_paths@.len() ==> normalized((#[trigger] protected_paths@[q])@) != normalized(id.path@),
            !instance_running(rows@, *id),
            forall|q: int| 0 <= q < m ==> !(ascii_lower_seq((#[trigger] rows@[q]).name@) == ascii_lower_seq(canonical_leaf(id.path@))
                && !complete_identity_spec(rows@[q].identity)),
        decreases rows@.len() - m,
    {
        let name = lower_ascii(&chars_of(rows[m].name.as_str()));
        if chars_equal(&name, &leaf) && !complete_identity(&rows[m].identity) {
            assert(ascii_lower_seq(rows@[m as int].name@) == ascii_lower_seq(canonical_leaf(id.path@)));
            return Some(record(id, ReopenState::Deferred, "A possible existing instance cannot be identified. Reopen manually after review."));
        }
        m = m + 1;
    }
    if !desktop_ready {
        return Some(record(
            id,
            ReopenState::Deferred,
            "Desktop is locked, disconnected or unverifiable. No launch; reopen manually after returning.",
        ));
    }
    None
}

/// The same executable key: both identities complete with equal canonical path and file
/// identifier, or neither complete.
pub open spec fn same_key(a: Identity, b: Identity) -> bool {
    if complete_identity_spec(a) && complete_identity_spec(b) {
        key_path(a) == key_path(b) && key_file(a) == key_file(b)
    } else {
        !complete_identity_spec(a) && !complete_identity_spec(b)
    }
}

/// The record of a launch: started only when the new process is verified to run the
/// same executable for the same user; otherwise the outcome is indeterminate and never
/// retried.
pub fn launch_result(id: &Identity, child: NativeResult<Identity>) -> (r: ReopenRecord)
    ensures
        r.target == *id,
        match child {
            Ok(c) => if same_key(c, *id) && same_user_session_spec(c, *id) {
                r.state == ReopenState::Started && r.child == Some(c) && r.detail@
                    == "A new GUI process was started without arguments. This does not prove its UI is ready or recover unsaved work."@
            } else {
                r.state == ReopenState::Indeterminate && r.child is None
            },
            Err(_) => r.state == ReopenState::Indeterminate && r.child is None,
        },
        r.state == ReopenState::Indeterminate ==> r.detail@
            == "Launch returned but the new lifetime could not be verified (it may have exited or handed off). No retry will occur."@,
{
    match child {
        Ok(c) => {
            let a = app_key(&c);
            let b = app_key(id);
            let same = match (&a, &b) {
                (Ok(x), Ok(y)) => str_equal(x.path.as_str(), y.path.as_str()) && str_equal(
                    x.image_file_id.as_str(),
                    y.image_file_id.as_str(),
                ),
                (Err(_), Err(_)) => true,
                _ => false,
            };
            if same && same_user_session(&c, id) {
                return ReopenRecord {
                    target: id.clone(),
                    child: Some(c),
                    state: ReopenState::Started,
                    detail: "A new GUI process was started without arguments. This does not prove its UI is ready or recover unsaved work.".to_string(),
                };
            }
        },
        Err(_) => {},
    }
    record(
        id,
        ReopenState::Indeterminate,
        "Launch returned but the new lifetime could not be verified (it may have exited or handed off). No retry will occur.",
    )
}

/// The record of a reopening that a failed check stopped before any launch.
pub fn not_launched(id: &Identity, fault: &Fault) -> (r: ReopenRecord)
    ensures
        r.target == *id,
        r.child is None,
        r.state == ReopenState::Skipped,
        r.detail@ == fault.message@,
{
    record(id, ReopenState::Skipped, fault.message.as_str())
}


/// A UTF-16 word with ASCII upper-case letters made lower case.
pub open spec fn lower_word(w: u16) -> u16 {
    if 65 <= w <= 90 {
        (w + 32) as u16
    } else {
        w
    }
}

/// `default` in UTF-16.
pub open spec fn default_name() -> Seq<u16> {
    seq![100u16, 101u16, 102u16, 97u16, 117u16, 108u16, 116u16]
}

/// The input desktop's name (its words up to the first NUL) is `default`, ignoring
/// ASCII case. A word outside ASCII never matches, as its decoded character would not.
pub open spec fn default_desktop(name: Seq<u16>) -> bool {
    let w = until_nul(name);
    w.len() == 7 && forall|i: int| 0 <= i < 7 ==> lower_word(#[trigger] w[i]) == default_name()[i]
}

/// An approved app may be started now: the session query gave level-one data
/// (level, reported session, active, unlocked) for this session, which is active and
/// unlocked, and the input desktop could be read and is the default desktop.
pub open spec fn desktop_ready_spec(info: Option<(u32, u32, bool, bool)>, session: u32, desktop: Option<Seq<u16>>) -> bool {
    match (info, desktop) {
        (Some((level, reported, active, unlocked)), Some(name)) => level == 1 && reported == session && active && unlocked
            && default_desktop(name),
        _ => false,
    }
}

/// Whether an approved app may be started now (see `desktop_ready_spec`).
pub fn desktop_ready_from(info: Option<(u32, u32, bool, bool)>, session: u32, desktop: Option<&[u16]>) -> (r: bool)
    ensures
        r == desktop_ready_spec(info, session, match desktop {
            Some(n) => Some(n@),
            None => None,
        }),
{
    let session_ok = match info {
        Some((level, reported, active, unlocked)) => level == 1 && reported == session && active && unlocked,
        None => false,
    };
    if !session_ok {
        return false;
    }
    let name = match desktop {
        Some(n) => n,
        None => return false,
    };
    let mut k: usize = 0;
    while k < name.len() && name[k] != 0
        invariant
            k <= name@.len(),
            forall|j: int| 0 <= j < k ==> name@[j] != 0,
        decreases name@.len() - k,
    {
        k = k + 1;
    }
    proof {
        if k < name@.len() {
            assert(until_nul(name@) =~= name@.take(k as int)) by {
                let c = choose|i: int| 0 <= i < name@.len() && name@[i] == 0 && forall|j: int| 0 <= j < i ==> name@[j] != 0;
                assert(c == k);
            }
        } else {
            assert(name@.take(k as int) =~= name@);
        }
        assert(until_nul(name@) == name@.take(k as int));
    }
    if k != 7 {
        return false;
    }
    let target: [u16; 7] = [100, 101, 102, 97, 117, 108, 116];
    let mut i: usize = 0;
    while i < 7
        invariant
            i <= 7 <= name@.len(),
            k == 7,
            until_nul(name@) == name@.take(7),
            target@ == default_name(),
            desktop matches Some(n) && n@ == name@,
            info matches Some((level, reported, active, unlocked)) && level == 1 && reported == session && active && unlocked,
            forall|j: int| 0 <= j < i ==> lower_word(#[trigger] until_nul(name@)[j]) == default_name()[j],
        decreases 7 - i,
    {
        let w = name[i];
        let lw: u16 = if 65 <= w && w <= 90 { w + 32 } else { w };
        assert(until_nul(name@)[i as int] == w);
        if lw != target[i] {
            proof {
                assert(target@[i as int] == default_name()[i as int]);
                assert(lower_word(until_nul(name@)[i as int]) != default_name()[i as int]);
            }
            return false;
        }
        i = i + 1;
    }
    true
}

} // verus!
