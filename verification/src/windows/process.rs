//! The protection decisions of the native process adapter: which processes it may
//! inspect or change, which values it may write, and how a close request ended. The
//! native queries are made by the adapter and handed in as their results.
use crate::model::{valid_value, CloseState, Fault, FaultKind, Identity, NativeResult, ProcessRow, Value};
use crate::policy::{normalized, normalized_path, reserved_name, reserved_name_spec, same_path, same_process, same_process_spec};
use crate::text::{after_last, chars_of, concat, has_prefix, last_field, starts_with, str_equal};
use std::collections::HashSet;
use vstd::prelude::*;

verus! {

/// Who the optimizer runs as, and the executables it never touches: its own and those
/// under the Windows directory (both in canonical form).
pub struct Safety {
    pub sid: String,
    pub session: u32,
    pub self_path: String,
    pub windows_path: String,
}

/// The denial a process gets for being a system process or in another session.
pub open spec fn identity_denial(s: Safety, id: Identity) -> Option<Seq<char>> {
    if id.pid <= 4 || id.created == 0 {
        Some("System or unidentified process."@)
    } else if id.session_id != s.session {
        Some("Different Windows session."@)
    } else {
        None
    }
}

/// The denial a process gets for its owner or its executable.
pub open spec fn owner_denial(s: Safety, id: Identity, owner: Seq<char>) -> Option<Seq<char>> {
    let path = normalized(id.path@);
    if owner != s.sid@ {
        Some("Different user or system account."@)
    } else if path == s.self_path@ || reserved_name_spec(after_last(path, '\\')) {
        Some("Protected system, game-support, voice or optimizer application."@)
    } else if has_prefix(path, s.windows_path@ + "\\"@) {
        Some("Windows component: protected."@)
    } else {
        None
    }
}

/// A denial with this message.
pub open spec fn refused(r: NativeResult<()>, m: Seq<char>) -> bool {
    r matches Err(f) && f.kind == FaultKind::Denied && f.message@ == m
}

/// The failure of a native query, handed on unchanged.
pub open spec fn passes_on(r: NativeResult<()>, f: Fault) -> bool {
    r matches Err(g) && g == f
}

impl Safety {
    /// The account and session of the running optimizer, its executable and the Windows
    /// directory.
    pub fn new(sid: String, me: &Identity, windows_dir: &str) -> (s: Self)
        ensures
            s.sid@ == sid@,
            s.session == me.session_id,
            s.self_path@ == normalized(me.path@),
            s.windows_path@ == normalized(windows_dir@),
    {
        Safety {
            sid,
            session: me.session_id,
            self_path: normalized_path(me.path.as_str()),
            windows_path: normalized_path(windows_dir),
        }
    }

    /// Whether a process may be inspected or changed, given its token's owner, whether it
    /// runs protected, and whether it is critical. Checks run in order; the first one
    /// that refuses, or the first native query that failed, decides.
    pub fn check(
        &self,
        id: &Identity,
        owner_sid: &NativeResult<String>,
        protected: &NativeResult<bool>,
        critical: &NativeResult<bool>,
    ) -> (r: NativeResult<()>)
        ensures
            match identity_denial(*self, *id) {
                Some(m) => refused(r, m),
                None => match owner_sid {
                    Err(f) => passes_on(r, *f),
                    Ok(o) => match owner_denial(*self, *id, o@) {
                        Some(m) => refused(r, m),
                        None => match protected {
                            Err(f) => passes_on(r, *f),
                            Ok(p) => if *p {
                                refused(r, "Protected process."@)
                            } else {
                                match critical {
                                    Err(f) => passes_on(r, *f),
                                    Ok(c) => if *c {
                                        refused(r, "Critical Windows process."@)
                                    } else {
                                        r is Ok
                                    },
                                }
                            },
                        },
                    },
                },
            },
    {
        if id.pid <= 4 || id.created == 0 {
            return Err(Fault::new(FaultKind::Denied, "System or unidentified process."));
        }
        if id.session_id != self.session {
            return Err(Fault::new(FaultKind::Denied, "Different Windows session."));
        }
        let owner = match owner_sid {
            Ok(o) => o,
            Err(f) => return Err(f.clone()),
        };
        if !str_equal(owner.as_str(), self.sid.as_str()) {
            return Err(Fault::new(FaultKind::Denied, "Different user or system account."));
        }
        let path = normalized_path(id.path.as_str());
        let name = last_field(path.as_str(), '\\');
        if str_equal(path.as_str(), self.self_path.as_str()) || reserved_name(name.as_str()) {
            return Err(Fault::new(
                FaultKind::Denied,
                "Protected system, game-support, voice or optimizer application.",
            ));
        }
        let prefix = concat(self.windows_path.as_str(), "\\");
        if starts_with(&chars_of(path.as_str()), &chars_of(prefix.as_str())) {
            return Err(Fault::new(FaultKind::Denied, "Windows component: protected."));
        }
        match protected {
            Err(f) => return Err(f.clone()),
            Ok(p) => if *p {
                return Err(Fault::new(FaultKind::Denied, "Protected process."));
            },
        }
        match critical {
            Err(f) => return Err(f.clone()),
            Ok(c) => if *c {
                return Err(Fault::new(FaultKind::Denied, "Critical Windows process."));
            },
        }
        Ok(())
    }
}

/// A protected path that names this executable.
pub open spec fn user_protected(protected_paths: Seq<String>, id: Identity) -> bool {
    exists|k: int| 0 <= k < protected_paths.len() && normalized((#[trigger] protected_paths[k])@) == normalized(id.path@)
}

/// The game's process family and the user's protected executables are never touched.
pub fn family_gate(guarded: &HashSet<u32>, protected_paths: &[String], id: &Identity) -> (r: NativeResult<()>)
    ensures
        r is Ok <==> !(guarded@.contains(id.pid) || user_protected(protected_paths@, *id)),
        r matches Err(f) ==> f.kind == FaultKind::Denied && f.message@
            == "Game family or user-protected executable."@,
{
    let mut hit = guarded.contains(&id.pid);
    let mut k: usize = 0;
    while k < protected_paths.len() && !hit
        invariant
            k <= protected_paths@.len(),
            hit == (guarded@.contains(id.pid) || exists|j: int|
                0 <= j < k && normalized((#[trigger] protected_paths@[j])@) == normalized(id.path@)),
        decreases protected_paths@.len() - k,
    {
        if same_path(protected_paths[k].as_str(), id.path.as_str()) {
            hit = true;
        }
        k = k + 1;
    }
    if hit {
        return Err(Fault::new(FaultKind::Denied, "Game family or user-protected executable."));
    }
    proof {
        assert(k == protected_paths@.len());
    }
    Ok(())
}

/// The checks made before any native setter runs: only a value the getters may report
/// is written, and nothing is written once the session was cancelled.
pub fn write_gate(value: &Value, cancelled: bool) -> (r: NativeResult<()>)
    ensures
        !valid_value(*value) ==> (r matches Err(f) && f.kind == FaultKind::Other
            && f.message@ == "Invalid native policy value; no setter was called."@),
        valid_value(*value) && cancelled ==> refused(r, "Cancelled before native setter."@),
        valid_value(*value) && !cancelled ==> r is Ok,
{
    if !value.valid() {
        return Err(Fault::new(FaultKind::Other, "Invalid native policy value; no setter was called."));
    }
    if cancelled {
        return Err(Fault::new(FaultKind::Denied, "Cancelled before native setter."));
    }
    Ok(())
}

/// How long a graceful close waits for the exit: the requested timeout, within one to
/// fifteen seconds.
pub fn close_wait_ms(timeout_ms: u32) -> (r: u32)
    ensures
        r == (if timeout_ms < 1000 {
            1000
        } else if timeout_ms > 15000 {
            15000
        } else {
            timeout_ms
        }),
{
    if timeout_ms < 1000 {
        1000
    } else if timeout_ms > 15000 {
        15000
    } else {
        timeout_ms
    }
}

/// How a graceful close ended: with no window to ask, the app stays open; an exit seen
/// before the deadline is a graceful close; a request that may have been delivered is
/// never reported as undone.
pub fn graceful_close_outcome(windows_found: bool, exited: bool, requested: bool) -> (r: CloseState)
    ensures
        r == (if !windows_found {
            CloseState::KeptOpen
        } else if exited {
            CloseState::ClosedGracefully
        } else if requested {
            CloseState::RequestedPending
        } else {
            CloseState::KeptOpen
        }),
{
    if !windows_found {
        CloseState::KeptOpen
    } else if exited {
        CloseState::ClosedGracefully
    } else if requested {
        CloseState::RequestedPending
    } else {
        CloseState::KeptOpen
    }
}

/// How an approved termination ended: only a confirmed exit counts as terminated.
pub fn termination_outcome(exited: bool) -> (r: NativeResult<CloseState>)
    ensures
        exited ==> (r matches Ok(s) && s == CloseState::Terminated),
        !exited ==> (r matches Err(f) && f.kind == FaultKind::Other
            && f.message@ == "Termination requested; exit remains unconfirmed."@),
{
    if exited {
        Ok(CloseState::Terminated)
    } else {
        Err(Fault::new(FaultKind::Other, "Termination requested; exit remains unconfirmed."))
    }
}

/// The listed row of one enumerated process: its identity and protection reason when it
/// could be inspected, else an unidentified row that is protected with the reason.
pub fn process_row(
    pid: u32,
    parent_pid: u32,
    name: String,
    inspected: NativeResult<(Identity, Option<String>)>,
) -> (r: ProcessRow)
    ensures
        r.parent_pid == parent_pid,
        r.name == name,
        r.gpu@.len() == 0,
        match inspected {
            Ok((id, reason)) => r.identity == id && r.protected_reason == reason,
            Err(f) => r.identity.pid == pid && r.identity.created == 0 && r.identity.path@.len() == 0
                && r.identity.session_id == u32::MAX && r.identity.provenance is None
                && (r.protected_reason matches Some(m) && m@ == "Unavailable/protected: "@ + f.message@),
        },
{
    match inspected {
        Ok((identity, reason)) => ProcessRow { identity, parent_pid, name, protected_reason: reason, gpu: Vec::new() },
        Err(f) => {
            let reason = concat("Unavailable/protected: ", f.message.as_str());
            ProcessRow {
                identity: Identity {
                    pid,
                    created: 0,
                    path: String::new(),
                    session_id: u32::MAX,
                    provenance: None,
                },
                parent_pid,
                name,
                protected_reason: Some(reason),
                gpu: Vec::new(),
            }
        },
    }
}


/// A Windows file time from its two halves.
pub fn filetime(high: u32, low: u32) -> (r: u64)
    ensures
        r == high as int * 0x1_0000_0000 + low as int,
{
    let h = high as u64;
    let l = low as u64;
    let r = (h << 32u64) | l;
    assert(r == h * 0x1_0000_0000 + l) by (bit_vector)
        requires
            h < 0x1_0000_0000,
            l < 0x1_0000_0000,
            r == (h << 32u64) | l,
    ;
    r
}

/// A handle opened for a recorded process still belongs to it: the process has not
/// exited (`current` is its identity now, none once it exited) and is the same process.
pub fn exact_check(recorded: &Identity, current: &Option<Identity>) -> (r: NativeResult<()>)
    ensures
        match *current {
            None => r matches Err(f) && f.kind == FaultKind::Gone && f.message@ == "Original process exited."@,
            Some(c) => if same_process_spec(*recorded, c) {
                r is Ok
            } else {
                r matches Err(f) && f.kind == FaultKind::Gone && f.message@ == "PID was reused or executable identity changed."@
            },
        },
{
    match current {
        None => Err(Fault::new(FaultKind::Gone, "Original process exited.")),
        Some(c) => if same_process(recorded, c) {
            Ok(())
        } else {
            Err(Fault::new(FaultKind::Gone, "PID was reused or executable identity changed."))
        },
    }
}

/// Whether the recorded process is alive, from the outcome of opening it exactly: gone
/// means not alive; any other fault is passed on.
pub fn alive_from(opened: NativeResult<()>) -> (r: NativeResult<bool>)
    ensures
        match opened {
            Ok(()) => r == Ok::<bool, Fault>(true),
            Err(f) => if f.kind == FaultKind::Gone {
                r == Ok::<bool, Fault>(false)
            } else {
                r == Err::<bool, Fault>(f)
            },
        },
{
    match opened {
        Ok(()) => Ok(true),
        Err(f) => if f.kind == FaultKind::Gone {
            Ok(false)
        } else {
            Err(f)
        },
    }
}


/// The running session is cancelled: a stop was requested, or the game it is attached to
/// (when there is one; `game_alive` is the outcome of checking it) is not known to be alive.
pub fn cancel_requested(stop: bool, game_alive: &Option<NativeResult<bool>>) -> (r: bool)
    ensures
        r == (stop || match *game_alive {
            Some(Ok(alive)) => !alive,
            Some(Err(_)) => true,
            None => false,
        }),
{
    stop || match game_alive {
        Some(Ok(alive)) => !*alive,
        Some(Err(_)) => true,
        None => false,
    }
}

} // verus!
