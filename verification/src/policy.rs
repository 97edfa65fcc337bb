//! Process identity, path canonicalisation, protected names and plan validation.
use crate::model::{provenance_equal, same_provenance, ActionKind, AppResult, ApprovedAction, Identity, Plan, ProcessRow};
use std::collections::HashSet;
use crate::text::{chars_of, has_prefix, matches_at, str_equal, string_of, to_lowercase, trim, trim_seq, unicode_lowercase};
use vstd::prelude::*;

verus! {

/// Longest path a Windows API accepts (extended-length form), in characters.
pub const MAX_PATH_CHARS: usize = 32767;

/// Most explicitly selected processes in one plan.
pub const MAX_ACTIONS: usize = 32;

/// The verbatim-path marker `\\?\`.
pub open spec fn verbatim_prefix() -> Seq<char> {
    seq!['\\', '\\', '?', '\\']
}

/// Every leading `\\?\` removed, as `trim_start_matches` does.
pub open spec fn strip_verbatim(s: Seq<char>) -> Seq<char>
    decreases s.len(),
{
    if has_prefix(s, verbatim_prefix()) {
        strip_verbatim(s.skip(4))
    } else {
        s
    }
}

/// Forward slashes turned into backslashes.
pub open spec fn backslashed(s: Seq<char>) -> Seq<char> {
    s.map_values(|c: char| if c == '/' { '\\' } else { c })
}

/// Canonical comparison form of a path.
pub open spec fn normalized(s: Seq<char>) -> Seq<char> {
    unicode_lowercase(backslashed(strip_verbatim(s)))
}

/// Canonical comparison form: verbatim prefix dropped, `/` as `\`, lowercase.
pub fn normalized_path(path: &str) -> (r: String)
    ensures
        r@ == normalized(path@),
{
    let chars = chars_of(path);
    let prefix: Vec<char> = vec!['\\', '\\', '?', '\\'];
    let mut start: usize = 0;
    assert(chars@.skip(0) =~= chars@);
    while start < chars.len() && chars.len() - start >= 4 && matches_at(&chars, &prefix, start)
        invariant
            start <= chars@.len(),
            prefix@ == verbatim_prefix(),
            strip_verbatim(chars@) == strip_verbatim(chars@.skip(start as int)),
        decreases chars@.len() - start,
    {
        proof {
            let rest = chars@.skip(start as int);
            assert(rest.take(4) =~= chars@.subrange(start as int, start + 4));
            assert(rest.skip(4) =~= chars@.skip(start + 4));
        }
        start = start + 4;
    }
    proof {
        let rest = chars@.skip(start as int);
        if has_prefix(rest, verbatim_prefix()) {
            assert(rest.take(4) =~= chars@.subrange(start as int, start + 4));
        }
    }
    let mut out: Vec<char> = Vec::new();
    let mut i: usize = start;
    while i < chars.len()
        invariant
            start <= i <= chars@.len(),
            out@ == backslashed(chars@.subrange(start as int, i as int)),
        decreases chars@.len() - i,
    {
        let c = chars[i];
        let d = if c == '/' { '\\' } else { c };
        proof {
            assert(backslashed(chars@.subrange(start as int, i as int)).push(d)
                =~= backslashed(chars@.subrange(start as int, i + 1)));
        }
        out.push(d);
        i = i + 1;
    }
    proof {
        assert(chars@.subrange(start as int, chars@.len() as int) =~= chars@.skip(start as int));
    }
    let joined = string_of(&out);
    to_lowercase(joined.as_str())
}

/// Same canonical path.
pub fn same_path(a: &str, b: &str) -> (r: bool)
    ensures
        r == (normalized(a@) == normalized(b@)),
{
    let x = normalized_path(a);
    let y = normalized_path(b);
    x == y
}

/// The same lifetime: PID, creation time, session, canonical path, owner, logon and file.
pub open spec fn same_process_spec(a: Identity, b: Identity) -> bool {
    &&& a.pid == b.pid
    &&& a.created == b.created
    &&& a.session_id == b.session_id
    &&& normalized(a.path@) == normalized(b.path@)
    &&& same_provenance(a.provenance, b.provenance)
}

pub fn same_process(a: &Identity, b: &Identity) -> (r: bool)
    ensures
        r == same_process_spec(*a, *b),
{
    a.pid == b.pid && a.created == b.created && a.session_id == b.session_id
        && same_path(a.path.as_str(), b.path.as_str()) && provenance_equal(
        &a.provenance,
        &b.provenance,
    )
}

/// Enough evidence to name one lifetime: a user PID, a creation time, an interactive
/// session, a bounded path, and owner, logon and file identifiers.
pub open spec fn complete_identity_spec(id: Identity) -> bool {
    &&& id.pid > 4
    &&& id.created != 0
    &&& id.session_id != 0
    &&& 0 < id.path@.len() <= MAX_PATH_CHARS
    &&& match id.provenance {
        Some(p) => p.owner_sid@.len() > 0 && p.logon_id != 0 && p.image_file_id@.len() > 0,
        None => false,
    }
}

pub fn complete_identity(id: &Identity) -> (r: bool)
    ensures
        r == complete_identity_spec(*id),
{
    let n = chars_of(id.path.as_str()).len();
    if id.pid <= 4 || id.created == 0 || id.session_id == 0 || n == 0 || n > MAX_PATH_CHARS {
        return false;
    }
    match &id.provenance {
        Some(p) => chars_of(p.owner_sid.as_str()).len() > 0 && p.logon_id != 0 && chars_of(
            p.image_file_id.as_str(),
        ).len() > 0,
        None => false,
    }
}

/// Lowercase executable names of protected Windows, launcher, anti-cheat, voice,
/// device, accessibility and optimizer components.
pub open spec fn reserved_lower(n: Seq<char>) -> bool {
    n == "system"@
        || n == "registry"@
        || n == "secure system"@
        || n == "memory compression"@
        || n == "smss.exe"@
        || n == "csrss.exe"@
        || n == "wininit.exe"@
        || n == "services.exe"@
        || n == "lsass.exe"@
        || n == "winlogon.exe"@
        || n == "svchost.exe"@
        || n == "dwm.exe"@
        || n == "explorer.exe"@
        || n == "audiodg.exe"@
        || n == "fontdrvhost.exe"@
        || n == "sihost.exe"@
        || n == "ctfmon.exe"@
        || n == "runtimebroker.exe"@
        || n == "steam.exe"@
        || n == "steamservice.exe"@
        || n == "steamwebhelper.exe"@
        || n == "epicgameslauncher.exe"@
        || n == "epicwebhelper.exe"@
        || n == "gamingservices.exe"@
        || n == "gamingservicesnet.exe"@
        || n == "gamebar.exe"@
        || n == "xboxpcapp.exe"@
        || n == "goggalaxy.exe"@
        || n == "galaxyclient.exe"@
        || n == "ubisoftconnect.exe"@
        || n == "upc.exe"@
        || n == "eadesktop.exe"@
        || n == "eabackgroundservice.exe"@
        || n == "battle.net.exe"@
        || n == "riotclientservices.exe"@
        || n == "discord.exe"@
        || n == "teamspeak.exe"@
        || n == "ts3client_win64.exe"@
        || n == "nvcontainer.exe"@
        || n == "nvdisplay.container.exe"@
        || n == "atiesrxx.exe"@
        || n == "atieclxx.exe"@
        || n == "msmpeng.exe"@
        || n == "mssense.exe"@
        || n == "securityhealthservice.exe"@
        || n == "vgc.exe"@
        || n == "vgtray.exe"@
        || n == "beservice.exe"@
        || n == "beservice_x64.exe"@
        || n == "easyanticheat.exe"@
        || n == "easyanticheat_eos.exe"@
        || n == "faceitservice.exe"@
        || n == "g-helper.exe"@
        || n == "ghelper.exe"@
        || n == "nvda.exe"@
        || n == "asusoptimization.exe"@
        || n == "process-optimizer.exe"@
}

fn is_reserved_lower(n: &str) -> (r: bool)
    ensures
        r == reserved_lower(n@),
{
    str_equal(n, "system")
        || str_equal(n, "registry")
        || str_equal(n, "secure system")
        || str_equal(n, "memory compression")
        || str_equal(n, "smss.exe")
        || str_equal(n, "csrss.exe")
        || str_equal(n, "wininit.exe")
        || str_equal(n, "services.exe")
        || str_equal(n, "lsass.exe")
        || str_equal(n, "winlogon.exe")
        || str_equal(n, "svchost.exe")
        || str_equal(n, "dwm.exe")
        || str_equal(n, "explorer.exe")
        || str_equal(n, "audiodg.exe")
        || str_equal(n, "fontdrvhost.exe")
        || str_equal(n, "sihost.exe")
        || str_equal(n, "ctfmon.exe")
        || str_equal(n, "runtimebroker.exe")
        || str_equal(n, "steam.exe")
        || str_equal(n, "steamservice.exe")
        || str_equal(n, "steamwebhelper.exe")
        || str_equal(n, "epicgameslauncher.exe")
        || str_equal(n, "epicwebhelper.exe")
        || str_equal(n, "gamingservices.exe")
        || str_equal(n, "gamingservicesnet.exe")
        || str_equal(n, "gamebar.exe")
        || str_equal(n, "xboxpcapp.exe")
        || str_equal(n, "goggalaxy.exe")
        || str_equal(n, "galaxyclient.exe")
        || str_equal(n, "ubisoftconnect.exe")
        || str_equal(n, "upc.exe")
        || str_equal(n, "eadesktop.exe")
        || str_equal(n, "eabackgroundservice.exe")
        || str_equal(n, "battle.net.exe")
        || str_equal(n, "riotclientservices.exe")
        || str_equal(n, "discord.exe")
        || str_equal(n, "teamspeak.exe")
        || str_equal(n, "ts3client_win64.exe")
        || str_equal(n, "nvcontainer.exe")
        || str_equal(n, "nvdisplay.container.exe")
        || str_equal(n, "atiesrxx.exe")
        || str_equal(n, "atieclxx.exe")
        || str_equal(n, "msmpeng.exe")
        || str_equal(n, "mssense.exe")
        || str_equal(n, "securityhealthservice.exe")
        || str_equal(n, "vgc.exe")
        || str_equal(n, "vgtray.exe")
        || str_equal(n, "beservice.exe")
        || str_equal(n, "beservice_x64.exe")
        || str_equal(n, "easyanticheat.exe")
        || str_equal(n, "easyanticheat_eos.exe")
        || str_equal(n, "faceitservice.exe")
        || str_equal(n, "g-helper.exe")
        || str_equal(n, "ghelper.exe")
        || str_equal(n, "nvda.exe")
        || str_equal(n, "asusoptimization.exe")
        || str_equal(n, "process-optimizer.exe")
}

/// Whether a process name is known essential or protected infrastructure
/// (compared case-insensitively). Unknown names are never classified.
pub open spec fn reserved_name_spec(name: Seq<char>) -> bool {
    reserved_lower(unicode_lowercase(name))
}

pub fn reserved_name(name: &str) -> (r: bool)
    ensures
        r == reserved_name_spec(name@),
{
    let n = to_lowercase(name);
    is_reserved_lower(n.as_str())
}

/// The timeout bounds for a normal-close request, in milliseconds.
pub open spec fn valid_timeout(ms: u32) -> bool {
    1000 <= ms <= 15000
}

/// An identity the plan may name: a real process id (not the idle or system process), a
/// creation time and an executable path. The complete identity, with its session and
/// provenance, is checked again by the adapter right before any change.
pub open spec fn trustworthy_identity(id: Identity) -> bool {
    id.pid > 4 && id.created != 0 && id.path@.len() > 0
}

/// What one selected action must satisfy within its plan.
pub open spec fn action_allowed(p: Plan, a: ApprovedAction) -> bool {
    &&& trustworthy_identity(a.target)
    &&& normalized(a.target.path@) != normalized(p.game_path@)
    &&& forall|k: int| 0 <= k < p.protected_paths@.len()
        ==> normalized(#[trigger] p.protected_paths@[k]@) != normalized(a.target.path@)
    &&& a.action == ActionKind::ForceClose ==> p.force_consent && !p.manual_mode
    &&& match a.reopen {
        Some(stamp) => {
            &&& !p.manual_mode
            &&& a.action == ActionKind::Close
            &&& a.target.provenance matches Some(pv) && stamp.image_file_id@ == pv.image_file_id@
        },
        None => true,
    }
}

/// The game side of a plan: a manual session names no game; an attached session states
/// a game executable, and a game identity, when it names one, is of that executable.
pub open spec fn game_allowed(p: Plan) -> bool {
    if p.manual_mode {
        p.game is None && p.game_path@.len() == 0
    } else {
        &&& trim_seq(p.game_path@).len() > 0
        &&& p.game matches Some(g) ==> normalized(g.path@) == normalized(p.game_path@)
    }
}

/// A plan the worker may start.
pub open spec fn plan_allowed(p: Plan) -> bool {
    &&& p.consent
    &&& game_allowed(p)
    &&& p.actions@.len() <= MAX_ACTIONS
    &&& valid_timeout(p.options.close_timeout_ms)
    &&& !p.options.launch_game
    &&& p.options.gpu_priority ==> p.experimental_consent
    &&& forall|i: int| 0 <= i < p.actions@.len() ==> action_allowed(p, #[trigger] p.actions@[i])
    &&& forall|i: int, j: int| 0 <= i < j < p.actions@.len()
        ==> #[trigger] p.actions@[i].target.pid != #[trigger] p.actions@[j].target.pid
    &&& forall|i: int, j: int|
        0 <= i < j < p.actions@.len() && (#[trigger] p.actions@[i]).reopen is Some && (
        #[trigger] p.actions@[j]).reopen is Some ==> normalized(p.actions@[i].target.path@)
            != normalized(p.actions@[j].target.path@)
}

#[verifier::loop_isolation(false)]
fn action_check(p: &Plan, a: &ApprovedAction, i: usize) -> (r: Option<String>)
    requires
        i < p.actions@.len(),
        *a == p.actions@[i as int],
    ensures
        match action_refusal(*p, i as int) {
            None => r is None,
            Some(m) => r matches Some(e) && e@ == m,
        },
{
    if a.target.pid <= 4 || a.target.created == 0 || chars_of(a.target.path.as_str()).len() == 0 {
        return Some("A selected process has no trustworthy identity.".to_string());
    }
    let mut j: usize = 0;
    while j < i
        invariant
            j <= i < p.actions@.len(),
            *a == p.actions@[i as int],
            forall|m: int| 0 <= m < j ==> (#[trigger] p.actions@[m]).target.pid != a.target.pid,
        decreases i - j,
    {
        if p.actions[j].target.pid == a.target.pid {
            proof {
                assert(pid_before(*p, i as int));
            }
            return Some("Duplicate process in the plan.".to_string());
        }
        j = j + 1;
    }
    if same_path(a.target.path.as_str(), p.game_path.as_str()) {
        return Some("The game cannot be an optimization target.".to_string());
    }
    let target = normalized_path(a.target.path.as_str());
    let mut k: usize = 0;
    while k < p.protected_paths.len()
        invariant
            k <= p.protected_paths@.len(),
            target@ == normalized(a.target.path@),
            forall|m: int| 0 <= m < k ==> normalized((#[trigger] p.protected_paths@[m])@) != normalized(
                a.target.path@,
            ),
        decreases p.protected_paths@.len() - k,
    {
        let q = normalized_path(p.protected_paths[k].as_str());
        if q == target {
            proof {
                assert(protected_hit(*p, a.target.path@));
            }
            return Some("The plan contains an application you protected.".to_string());
        }
        k = k + 1;
    }
    if a.action == ActionKind::ForceClose && !p.force_consent {
        return Some("Force termination needs its own explicit approval.".to_string());
    }
    if a.action == ActionKind::ForceClose && p.manual_mode {
        return Some("Manual sessions never force-close applications.".to_string());
    }
    let approval_ok = match &a.reopen {
        Some(stamp) => {
            if p.manual_mode || a.action != ActionKind::Close {
                false
            } else {
                match &a.target.provenance {
                    Some(pv) => stamp.image_file_id == pv.image_file_id,
                    None => false,
                }
            }
        },
        None => true,
    };
    if !approval_ok {
        return Some("Reopening needs a normal close of an identified application in an attached session.".to_string());
    }
    if a.reopen.is_some() {
        let mut j: usize = 0;
        while j < i
            invariant
                j <= i < p.actions@.len(),
                *a == p.actions@[i as int],
                a.reopen is Some,
                forall|m: int| 0 <= m < j && (#[trigger] p.actions@[m]).reopen is Some ==> normalized(
                    p.actions@[m].target.path@,
                ) != normalized(a.target.path@),
            decreases i - j,
        {
            if p.actions[j].reopen.is_some() && same_path(p.actions[j].target.path.as_str(), a.target.path.as_str()) {
                proof {
                    assert(reopen_before(*p, i as int));
                }
                return Some("Reopening may be approved once per application.".to_string());
            }
            j = j + 1;
        }
    }
    None
}

/// Plans with the same fields are allowed alike.
pub proof fn lemma_plan_allowed_eq(a: Plan, b: Plan)
    requires
        crate::model::plan_eq(a, b),
    ensures
        plan_allowed(a) == plan_allowed(b),
{
    assert forall|x: ApprovedAction| action_allowed(a, x) == action_allowed(b, x) by {}
}

/// Action `i` names the same process id as an earlier action.
pub open spec fn pid_before(p: Plan, i: int) -> bool {
    exists|j: int| 0 <= j < i && (#[trigger] p.actions@[j]).target.pid == p.actions@[i].target.pid
}

/// A protected path names this executable.
pub open spec fn protected_hit(p: Plan, path: Seq<char>) -> bool {
    exists|k: int| 0 <= k < p.protected_paths@.len() && normalized((#[trigger] p.protected_paths@[k])@) == normalized(path)
}

/// The reopening approval of an action, if any, is allowed.
pub open spec fn reopen_approval_allowed(p: Plan, a: ApprovedAction) -> bool {
    match a.reopen {
        Some(stamp) => {
            &&& !p.manual_mode
            &&& a.action == ActionKind::Close
            &&& a.target.provenance matches Some(pv) && stamp.image_file_id@ == pv.image_file_id@
        },
        None => true,
    }
}

/// Action `i` approves reopening an executable an earlier action already approves.
pub open spec fn reopen_before(p: Plan, i: int) -> bool {
    p.actions@[i].reopen is Some && exists|j: int|
        0 <= j < i && (#[trigger] p.actions@[j]).reopen is Some && normalized(p.actions@[j].target.path@)
            == normalized(p.actions@[i].target.path@)
}

/// Why action `i` is refused, checked in this order, if it is.
pub open spec fn action_refusal(p: Plan, i: int) -> Option<Seq<char>> {
    let a = p.actions@[i];
    if !trustworthy_identity(a.target) {
        Some("A selected process has no trustworthy identity."@)
    } else if pid_before(p, i) {
        Some("Duplicate process in the plan."@)
    } else if normalized(a.target.path@) == normalized(p.game_path@) {
        Some("The game cannot be an optimization target."@)
    } else if protected_hit(p, a.target.path@) {
        Some("The plan contains an application you protected."@)
    } else if a.action == ActionKind::ForceClose && !p.force_consent {
        Some("Force termination needs its own explicit approval."@)
    } else if a.action == ActionKind::ForceClose && p.manual_mode {
        Some("Manual sessions never force-close applications."@)
    } else if !reopen_approval_allowed(p, a) {
        Some("Reopening needs a normal close of an identified application in an attached session."@)
    } else if reopen_before(p, i) {
        Some("Reopening may be approved once per application."@)
    } else {
        None
    }
}

/// The first refusal among the first `n` actions.
pub open spec fn actions_refusal(p: Plan, n: int) -> Option<Seq<char>>
    decreases n,
{
    if n <= 0 {
        None
    } else {
        match actions_refusal(p, n - 1) {
            Some(m) => Some(m),
            None => action_refusal(p, n - 1),
        }
    }
}

/// Why a plan is refused, checked in this order, if it is.
pub open spec fn plan_refusal(p: Plan) -> Option<Seq<char>> {
    if !p.consent {
        Some("Explicit session approval is required."@)
    } else if p.manual_mode && !(p.game is None && p.game_path@.len() == 0) {
        Some("A manual session names no game."@)
    } else if !p.manual_mode && trim_seq(p.game_path@).len() == 0 {
        Some("Choose the actual game executable, not its launcher."@)
    } else if p.actions@.len() > MAX_ACTIONS {
        Some("At most 32 explicitly selected processes per session."@)
    } else if !valid_timeout(p.options.close_timeout_ms) {
        Some("Close timeout must be between 1 and 15 seconds."@)
    } else if p.options.launch_game {
        Some("Automatic launcher tracking is not available; attach to a running game."@)
    } else if p.options.gpu_priority && !p.experimental_consent {
        Some("Experimental GPU scheduling needs its own explicit approval."@)
    } else if actions_refusal(p, p.actions@.len() as int) is Some {
        actions_refusal(p, p.actions@.len() as int)
    } else if p.game matches Some(g) && normalized(g.path@) != normalized(p.game_path@) {
        Some("Selected game identity and executable do not match."@)
    } else {
        None
    }
}

proof fn lemma_refusal_kept(p: Plan, k: int, n: int)
    requires
        0 <= k <= n,
        actions_refusal(p, k) is Some,
    ensures
        actions_refusal(p, n) == actions_refusal(p, k),
    decreases n - k,
{
    if k < n {
        lemma_refusal_kept(p, k, n - 1);
    }
}

/// Actions before `i` are refused for nothing exactly when each is allowed and none
/// repeats an earlier process id or reopening.
proof fn lemma_no_refusal(p: Plan, i: int)
    requires
        0 <= i <= p.actions@.len(),
    ensures
        actions_refusal(p, i) is None <==> (forall|m: int| 0 <= m < i ==> #[trigger] action_refusal(p, m) is None),
    decreases i,
{
    if i > 0 {
        lemma_no_refusal(p, i - 1);
    }
}

proof fn lemma_action_refusal(p: Plan, i: int)
    requires
        0 <= i < p.actions@.len(),
    ensures
        action_refusal(p, i) is None <==> action_allowed(p, p.actions@[i]) && !pid_before(p, i) && !reopen_before(p, i),
{
}

/// Checks consent, the game, bounds and every target before any mutation; the first
/// failing check gives the message.
#[verifier::loop_isolation(false)]
pub fn validate(plan: &Plan) -> (r: AppResult<()>)
    ensures
        r is Ok <==> plan_allowed(*plan),
        match plan_refusal(*plan) {
            None => r is Ok,
            Some(m) => r matches Err(e) && e@ == m,
        },
{
    proof {
        lemma_plan_refusal(*plan);
    }
    if !plan.consent {
        return Err("Explicit session approval is required.".to_string());
    }
    if plan.manual_mode {
        if !(plan.game.is_none() && chars_of(plan.game_path.as_str()).len() == 0) {
            return Err("A manual session names no game.".to_string());
        }
    } else {
        if trim(&chars_of(plan.game_path.as_str())).len() == 0 {
            return Err("Choose the actual game executable, not its launcher.".to_string());
        }
    }
    if plan.actions.len() > MAX_ACTIONS {
        return Err("At most 32 explicitly selected processes per session.".to_string());
    }
    if plan.options.close_timeout_ms < 1000 || plan.options.close_timeout_ms > 15000 {
        return Err("Close timeout must be between 1 and 15 seconds.".to_string());
    }
    if plan.options.launch_game {
        return Err("Automatic launcher tracking is not available; attach to a running game.".to_string());
    }
    if plan.options.gpu_priority && !plan.experimental_consent {
        return Err("Experimental GPU scheduling needs its own explicit approval.".to_string());
    }
    let n = plan.actions.len();
    let mut i: usize = 0;
    while i < n
        invariant
            n == plan.actions@.len(),
            i <= n,
            actions_refusal(*plan, i as int) is None,
        decreases n - i,
    {
        let item = &plan.actions[i];
        let found = action_check(plan, item, i);
        proof {
            lemma_no_refusal(*plan, i as int);
            lemma_no_refusal(*plan, i as int + 1);
        }
        match found {
            Some(m) => {
                proof {
                    lemma_refusal_kept(*plan, i as int + 1, n as int);
                }
                return Err(m);
            },
            None => {},
        }
        i = i + 1;
    }
    match &plan.game {
        Some(g) => {
            if !same_path(g.path.as_str(), plan.game_path.as_str()) {
                return Err("Selected game identity and executable do not match.".to_string());
            }
        },
        None => {},
    }
    Ok(())
}

/// The first refusal of a plan is none exactly when the plan is allowed.
pub proof fn lemma_plan_refusal(p: Plan)
    ensures
        plan_refusal(p) is None <==> plan_allowed(p),
{
    let n = p.actions@.len() as int;
    lemma_no_refusal(p, n);
    if actions_refusal(p, n) is None {
        assert forall|i: int| 0 <= i < n implies action_refusal(p, i) is None by {}
        assert forall|i: int| 0 <= i < n implies action_allowed(p, #[trigger] p.actions@[i]) by {
            lemma_action_refusal(p, i);
        }
        assert forall|i: int, j: int| 0 <= i < j < n implies #[trigger] p.actions@[i].target.pid
            != #[trigger] p.actions@[j].target.pid by {
            lemma_action_refusal(p, j);
            if p.actions@[i].target.pid == p.actions@[j].target.pid {
                assert(pid_before(p, j));
            }
        }
        assert forall|i: int, j: int|
            0 <= i < j < n && (#[trigger] p.actions@[i]).reopen is Some && (#[trigger] p.actions@[j]).reopen is Some
            implies normalized(p.actions@[i].target.path@) != normalized(p.actions@[j].target.path@) by {
            lemma_action_refusal(p, j);
            if normalized(p.actions@[i].target.path@) == normalized(p.actions@[j].target.path@) {
                assert(reopen_before(p, j));
            }
        }
    }
    if plan_allowed(p) {
        assert forall|i: int| 0 <= i < n implies #[trigger] action_refusal(p, i) is None by {
            lemma_action_refusal(p, i);
            assert(action_allowed(p, p.actions@[i]));
            if pid_before(p, i) {
                let j = choose|j: int| 0 <= j < i && (#[trigger] p.actions@[j]).target.pid == p.actions@[i].target.pid;
                assert(p.actions@[j].target.pid != p.actions@[i].target.pid);
            }
            if reopen_before(p, i) {
                let j = choose|j: int|
                    0 <= j < i && (#[trigger] p.actions@[j]).reopen is Some && normalized(p.actions@[j].target.path@)
                        == normalized(p.actions@[i].target.path@);
                assert(normalized(p.actions@[j].target.path@) != normalized(p.actions@[i].target.path@));
            }
        }
    }
}

/// Dropping actions or protected paths from an accepted plan keeps it accepted: `q` keeps
/// the actions of `p` at the increasing positions `keep` and only protected paths `p`
/// also has, and agrees with `p` everywhere else.
pub proof fn law_subplan_allowed(p: Plan, q: Plan, keep: Seq<int>)
    requires
        plan_allowed(p),
        q.manual_mode == p.manual_mode,
        q.game_path == p.game_path,
        q.game == p.game,
        q.options == p.options,
        q.consent == p.consent,
        q.force_consent == p.force_consent,
        q.experimental_consent == p.experimental_consent,
        keep.len() == q.actions@.len(),
        forall|i: int, j: int| 0 <= i < j < keep.len() ==> keep[i] < keep[j],
        forall|i: int|
            0 <= i < keep.len() ==> 0 <= #[trigger] keep[i] < p.actions@.len() && q.actions@[i] == p.actions@[keep[i]],
        forall|k: int|
            0 <= k < q.protected_paths@.len() ==> exists|m: int|
                0 <= m < p.protected_paths@.len() && (#[trigger] q.protected_paths@[k])@ == (#[trigger] p.protected_paths@[m])@,
    ensures
        plan_allowed(q),
{
    assert(q.actions@.len() <= p.actions@.len()) by {
        if q.actions@.len() > p.actions@.len() {
            lemma_increasing_bound(keep, p.actions@.len() as int);
        }
    }
    assert forall|i: int| 0 <= i < q.actions@.len() implies action_allowed(q, #[trigger] q.actions@[i]) by {
        let a = q.actions@[i];
        assert(a == p.actions@[keep[i]]);
        assert(action_allowed(p, p.actions@[keep[i]]));
        assert forall|k: int| 0 <= k < q.protected_paths@.len() implies normalized(
            (#[trigger] q.protected_paths@[k])@,
        ) != normalized(a.target.path@) by {
            let m = choose|m: int|
                0 <= m < p.protected_paths@.len() && (#[trigger] q.protected_paths@[k])@ == (
                #[trigger] p.protected_paths@[m])@;
            assert(normalized(p.protected_paths@[m]@) != normalized(a.target.path@));
        }
    }
    assert forall|i: int, j: int| 0 <= i < j < q.actions@.len() implies #[trigger] q.actions@[i].target.pid
        != #[trigger] q.actions@[j].target.pid by {
        assert(keep[i] < keep[j]);
        assert(q.actions@[i] == p.actions@[keep[i]] && q.actions@[j] == p.actions@[keep[j]]);
        assert(p.actions@[keep[i]].target.pid != p.actions@[keep[j]].target.pid);
    }
    assert forall|i: int, j: int|
        0 <= i < j < q.actions@.len() && (#[trigger] q.actions@[i]).reopen is Some && (
        #[trigger] q.actions@[j]).reopen is Some implies normalized(q.actions@[i].target.path@) != normalized(
        q.actions@[j].target.path@,
    ) by {
        assert(keep[i] < keep[j]);
        assert(q.actions@[i] == p.actions@[keep[i]] && q.actions@[j] == p.actions@[keep[j]]);
        assert(p.actions@[keep[i]].reopen is Some && p.actions@[keep[j]].reopen is Some);
    }
}

/// Strictly increasing positions below `n` number at most `n`.
proof fn lemma_increasing_bound(keep: Seq<int>, n: int)
    requires
        n >= 0,
        forall|i: int, j: int| 0 <= i < j < keep.len() ==> keep[i] < keep[j],
        forall|i: int| 0 <= i < keep.len() ==> 0 <= #[trigger] keep[i] < n,
    ensures
        keep.len() <= n,
    decreases keep.len(),
{
    if keep.len() > 0 {
        let k = keep.drop_last();
        assert forall|i: int| 0 <= i < k.len() implies 0 <= #[trigger] k[i] < keep.last() by {
            assert(k[i] == keep[i]);
        }
        assert forall|i: int, j: int| 0 <= i < j < k.len() implies k[i] < k[j] by {
            assert(k[i] == keep[i] && k[j] == keep[j]);
        }
        lemma_increasing_bound(k, keep.last());
        assert(keep.last() == keep[keep.len() - 1]);
    }
}

/// How far the parent chain and the descendant search are followed.
pub const FAMILY_DEPTH: usize = 64;

/// The parent of the first snapshot row that is the game's exact lifetime (0 if none).
pub open spec fn game_parent(rows: Seq<ProcessRow>, game: Identity, from: int) -> u32
    decreases rows.len() - from,
{
    if from < 0 || from >= rows.len() {
        0
    } else if same_process_spec(rows[from].identity, game) {
        rows[from].parent_pid
    } else {
        game_parent(rows, game, from + 1)
    }
}

/// The parent of the first snapshot row with this PID (0 if none).
pub open spec fn parent_of(rows: Seq<ProcessRow>, pid: u32, from: int) -> u32
    decreases rows.len() - from,
{
    if from < 0 || from >= rows.len() {
        0
    } else if rows[from].identity.pid == pid {
        rows[from].parent_pid
    } else {
        parent_of(rows, pid, from + 1)
    }
}

/// The parent chain, followed at most `fuel` steps, stopping at PID 0 or a repeat.
pub open spec fn ancestors(rows: Seq<ProcessRow>, guard: Set<u32>, parent: u32, fuel: nat) -> Set<u32>
    decreases fuel,
{
    if fuel == 0 || parent == 0 || guard.contains(parent) {
        guard
    } else {
        ancestors(rows, guard.insert(parent), parent_of(rows, parent, 0), (fuel - 1) as nat)
    }
}

/// One pass over the snapshot in order, adding every row whose parent is already in the set.
pub open spec fn descendant_pass(rows: Seq<ProcessRow>, d: Set<u32>) -> Set<u32>
    decreases rows.len(),
{
    if rows.len() == 0 {
        d
    } else {
        let e = descendant_pass(rows.drop_last(), d);
        if e.contains(rows.last().parent_pid) {
            e.insert(rows.last().identity.pid)
        } else {
            e
        }
    }
}

/// Passes repeated until nothing changes, at most `fuel` times.
pub open spec fn descendants(rows: Seq<ProcessRow>, d: Set<u32>, fuel: nat) -> Set<u32>
    decreases fuel,
{
    if fuel == 0 {
        d
    } else {
        let e = descendant_pass(rows, d);
        if e == d {
            d
        } else {
            descendants(rows, e, (fuel - 1) as nat)
        }
    }
}

/// The game, its parent chain and its descendants; a shared launcher's other children are not included.
pub open spec fn guarded_set(rows: Seq<ProcessRow>, game: Identity) -> Set<u32> {
    ancestors(rows, set![game.pid], game_parent(rows, game, 0), FAMILY_DEPTH as nat)
        + descendants(rows, set![game.pid], FAMILY_DEPTH as nat)
}

/// The values a sequence holds.
pub open spec fn elems(s: Seq<u32>) -> Set<u32> {
    Set::new(|x: u32| exists|j: int| 0 <= j < s.len() && s[j] == x)
}

pub proof fn lemma_elems_push(s: Seq<u32>, x: u32)
    ensures
        elems(s.push(x)) == elems(s).insert(x),
{
    assert forall|y: u32| elems(s.push(x)).contains(y) <==> elems(s).insert(x).contains(y) by {
        if elems(s.push(x)).contains(y) {
            let j = choose|j: int| 0 <= j < s.push(x).len() && s.push(x)[j] == y;
            if j < s.len() {
                assert(s[j] == y);
            }
        }
        if elems(s).contains(y) {
            let j = choose|j: int| 0 <= j < s.len() && s[j] == y;
            assert(s.push(x)[j] == y);
        }
        if y == x {
            assert(s.push(x)[s.len() as int] == y);
        }
    }
    assert(elems(s.push(x)) =~= elems(s).insert(x));
}

pub proof fn lemma_pass_grows(rows: Seq<ProcessRow>, d: Set<u32>)
    ensures
        d.subset_of(descendant_pass(rows, d)),
    decreases rows.len(),
{
    if rows.len() > 0 {
        lemma_pass_grows(rows.drop_last(), d);
    }
}

fn parent_of_game(rows: &[ProcessRow], game: &Identity) -> (r: u32)
    ensures
        r == game_parent(rows@, *game, 0),
{
    let mut k: usize = 0;
    while k < rows.len()
        invariant
            k <= rows@.len(),
            game_parent(rows@, *game, 0) == game_parent(rows@, *game, k as int),
        decreases rows@.len() - k,
    {
        if same_process(&rows[k].identity, game) {
            return rows[k].parent_pid;
        }
        k = k + 1;
    }
    0
}

fn parent_of_pid(rows: &[ProcessRow], pid: u32) -> (r: u32)
    ensures
        r == parent_of(rows@, pid, 0),
{
    let mut k: usize = 0;
    while k < rows.len()
        invariant
            k <= rows@.len(),
            parent_of(rows@, pid, 0) == parent_of(rows@, pid, k as int),
        decreases rows@.len() - k,
    {
        if rows[k].identity.pid == pid {
            return rows[k].parent_pid;
        }
        k = k + 1;
    }
    0
}

/// PIDs that protection keeps out of any plan: the game, up to 64 ancestors, and the
/// descendants reached in up to 64 in-order passes over the snapshot.
pub fn guarded_pids(rows: &[ProcessRow], game: &Identity) -> (r: HashSet<u32>)
    ensures
        r@ == guarded_set(rows@, *game),
{
    broadcast use vstd::std_specs::hash::group_hash_axioms;

    let mut guard: HashSet<u32> = HashSet::new();
    guard.insert(game.pid);
    let mut parent = parent_of_game(rows, game);
    let ghost target = ancestors(rows@, set![game.pid], game_parent(rows@, *game, 0), FAMILY_DEPTH as nat);
    proof {
        assert(guard@ =~= set![game.pid]);
    }
    let mut n: usize = 0;
    while n < FAMILY_DEPTH
        invariant
            n <= FAMILY_DEPTH,
            target == ancestors(rows@, guard@, parent, (FAMILY_DEPTH - n) as nat),
        ensures
            target == guard@,
        decreases FAMILY_DEPTH - n,
    {
        if parent == 0 || guard.contains(&parent) {
            break;
        }
        guard.insert(parent);
        parent = parent_of_pid(rows, parent);
        n = n + 1;
    }
    let mut desc: HashSet<u32> = HashSet::new();
    desc.insert(game.pid);
    let mut members: Vec<u32> = Vec::new();
    members.push(game.pid);
    let ghost dtarget = descendants(rows@, set![game.pid], FAMILY_DEPTH as nat);
    proof {
        assert(desc@ =~= set![game.pid]);
        assert(members@ =~= Seq::<u32>::empty().push(game.pid));
        lemma_elems_push(Seq::<u32>::empty(), game.pid);
        assert(elems(Seq::<u32>::empty()) =~= Set::<u32>::empty());
    }
    let mut n: usize = 0;
    while n < FAMILY_DEPTH
        invariant
            n <= FAMILY_DEPTH,
            dtarget == descendants(rows@, desc@, (FAMILY_DEPTH - n) as nat),
            elems(members@) == desc@,
        ensures
            dtarget == desc@,
            elems(members@) == desc@,
        decreases FAMILY_DEPTH - n,
    {
        let ghost start = desc@;
        let mut changed = false;
        let mut k: usize = 0;
        proof {
            assert(rows@.take(0) =~= Seq::<ProcessRow>::empty());
        }
        while k < rows.len()
            invariant
                k <= rows@.len(),
                desc@ == descendant_pass(rows@.take(k as int), start),
                elems(members@) == desc@,
                start.subset_of(desc@),
                changed <==> desc@ != start,
            decreases rows@.len() - k,
        {
            proof {
                assert(rows@.take(k + 1).drop_last() =~= rows@.take(k as int));
                assert(rows@.take(k + 1).last() == rows@[k as int]);
            }
            let ghost before = desc@;
            if desc.contains(&rows[k].parent_pid) {
                let pid = rows[k].identity.pid;
                if desc.insert(pid) {
                    let ghost old_members = members@;
                    members.push(pid);
                    changed = true;
                    proof {
                        lemma_elems_push(old_members, pid);
                        assert(!start.contains(pid));
                        assert(desc@.contains(pid));
                    }
                } else {
                    proof {
                        assert(desc@ =~= before);
                    }
                }
            }
            k = k + 1;
        }
        proof {
            assert(rows@.take(k as int) =~= rows@);
            lemma_pass_grows(rows@, start);
            if !changed {
                assert(desc@ =~= start);
            }
        }
        if !changed {
            break;
        }
        n = n + 1;
    }
    let mut i: usize = 0;
    let ghost g0 = guard@;
    proof {
        assert(elems(members@.take(0)) =~= Set::<u32>::empty());
    }
    while i < members.len()
        invariant
            i <= members@.len(),
            guard@ == g0 + elems(members@.take(i as int)),
        decreases members@.len() - i,
    {
        proof {
            assert(members@.take(i + 1) =~= members@.take(i as int).push(members@[i as int]));
            lemma_elems_push(members@.take(i as int), members@[i as int]);
        }
        guard.insert(members[i]);
        proof {
            assert(guard@ =~= g0 + elems(members@.take(i + 1)));
        }
        i = i + 1;
    }
    proof {
        assert(members@.take(i as int) =~= members@);
        assert(guard@ =~= target + dtarget);
    }
    guard
}

/// Being the same process lifetime is an equivalence.
pub proof fn law_same_process_equivalence(a: Identity, b: Identity, c: Identity)
    ensures
        same_process_spec(a, a),
        same_process_spec(a, b) ==> same_process_spec(b, a),
        same_process_spec(a, b) && same_process_spec(b, c) ==> same_process_spec(a, c),
{
}

/// A reused PID or a restarted process is never the same lifetime.
pub proof fn law_pid_reuse_is_not_same_process(a: Identity, b: Identity)
    requires
        a.pid != b.pid || a.created != b.created,
    ensures
        !same_process_spec(a, b),
{
}

pub proof fn lemma_ancestors_grow(rows: Seq<ProcessRow>, guard: Set<u32>, parent: u32, fuel: nat)
    ensures
        guard.subset_of(ancestors(rows, guard, parent, fuel)),
    decreases fuel,
{
    if !(fuel == 0 || parent == 0 || guard.contains(parent)) {
        lemma_ancestors_grow(rows, guard.insert(parent), parent_of(rows, parent, 0), (fuel - 1) as nat);
    }
}

/// The game itself is always guarded.
pub proof fn law_game_is_guarded(rows: Seq<ProcessRow>, game: Identity)
    ensures
        guarded_set(rows, game).contains(game.pid),
{
    lemma_ancestors_grow(rows, set![game.pid], game_parent(rows, game, 0), FAMILY_DEPTH as nat);
}

/// Row `i` is the first snapshot row that is the game's exact lifetime.
pub open spec fn first_game_row(rows: Seq<ProcessRow>, game: Identity, i: int) -> bool {
    &&& 0 <= i < rows.len()
    &&& same_process_spec(rows[i].identity, game)
    &&& forall|j: int| 0 <= j < i ==> !same_process_spec(#[trigger] rows[j].identity, game)
}

/// Row `i` is the first snapshot row with this process id.
pub open spec fn first_pid_row(rows: Seq<ProcessRow>, pid: u32, i: int) -> bool {
    &&& 0 <= i < rows.len()
    &&& rows[i].identity.pid == pid
    &&& forall|j: int| 0 <= j < i ==> (#[trigger] rows[j]).identity.pid != pid
}

/// `b` is the parent recorded on the game's first row.
pub open spec fn game_link(rows: Seq<ProcessRow>, game: Identity, b: u32) -> bool {
    exists|i: int| #[trigger] first_game_row(rows, game, i) && rows[i].parent_pid == b
}

/// `b` is the parent recorded on the first row of process id `a`.
pub open spec fn pid_link(rows: Seq<ProcessRow>, a: u32, b: u32) -> bool {
    exists|i: int| #[trigger] first_pid_row(rows, a, i) && rows[i].parent_pid == b
}

/// `chain` lists the game's ancestors in order: the parent recorded on the game's first
/// row, then each time the parent recorded on the first row of the previous process id.
pub open spec fn parent_chain(rows: Seq<ProcessRow>, game: Identity, chain: Seq<u32>) -> bool {
    &&& chain.len() > 0 ==> game_link(rows, game, chain[0])
    &&& forall|n: int| #![trigger chain[n]] 0 <= n < chain.len() - 1 ==> pid_link(rows, chain[n], chain[n + 1])
}

proof fn lemma_game_parent_first(rows: Seq<ProcessRow>, game: Identity, i: int, from: int)
    requires
        first_game_row(rows, game, i),
        0 <= from <= i,
    ensures
        game_parent(rows, game, from) == rows[i].parent_pid,
    decreases i - from,
{
    if from < i {
        assert(!same_process_spec(rows[from].identity, game));
        lemma_game_parent_first(rows, game, i, from + 1);
    }
}

proof fn lemma_parent_of_first(rows: Seq<ProcessRow>, pid: u32, i: int, from: int)
    requires
        first_pid_row(rows, pid, i),
        0 <= from <= i,
    ensures
        parent_of(rows, pid, from) == rows[i].parent_pid,
    decreases i - from,
{
    if from < i {
        assert(rows[from].identity.pid != pid);
        lemma_parent_of_first(rows, pid, i, from + 1);
    }
}

proof fn lemma_chain_in_ancestors(rows: Seq<ProcessRow>, chain: Seq<u32>, j: int, guard: Set<u32>, fuel: nat)
    requires
        0 <= j < chain.len(),
        fuel >= chain.len() - j,
        forall|n: int| j <= n < chain.len() - 1 ==> parent_of(rows, #[trigger] chain[n], 0) == chain[n + 1],
        forall|n: int| j <= n < chain.len() ==> #[trigger] chain[n] != 0 && !guard.contains(chain[n]),
        forall|n: int, m: int| 0 <= n < m < chain.len() ==> #[trigger] chain[n] != #[trigger] chain[m],
    ensures
        forall|m: int| j <= m < chain.len() ==> ancestors(rows, guard, chain[j], fuel).contains(#[trigger] chain[m]),
    decreases chain.len() - j,
{
    let g2 = guard.insert(chain[j]);
    let next = parent_of(rows, chain[j], 0);
    assert(ancestors(rows, guard, chain[j], fuel) == ancestors(rows, g2, next, (fuel - 1) as nat));
    lemma_ancestors_grow(rows, g2, next, (fuel - 1) as nat);
    if j + 1 < chain.len() {
        assert(next == chain[j + 1]);
        assert forall|n: int| j + 1 <= n < chain.len() implies #[trigger] chain[n] != 0 && !g2.contains(chain[n]) by {
            assert(chain[j] != chain[n]);
        }
        lemma_chain_in_ancestors(rows, chain, j + 1, g2, (fuel - 1) as nat);
    }
}

/// Every process on the game's parent chain is guarded: walking up from the game, each
/// ancestor up to the 64th, before the chain ends at PID 0 or comes back to a process
/// already seen, is kept out of any plan, with the game itself.
pub proof fn law_game_ancestors_guarded(rows: Seq<ProcessRow>, game: Identity, chain: Seq<u32>)
    requires
        parent_chain(rows, game, chain),
        chain.len() <= 64,
        forall|n: int| 0 <= n < chain.len() ==> #[trigger] chain[n] != 0 && chain[n] != game.pid,
        forall|n: int, m: int| 0 <= n < m < chain.len() ==> #[trigger] chain[n] != #[trigger] chain[m],
    ensures
        guarded_set(rows, game).contains(game.pid),
        forall|n: int| 0 <= n < chain.len() ==> guarded_set(rows, game).contains(#[trigger] chain[n]),
{
    law_game_is_guarded(rows, game);
    assert(FAMILY_DEPTH == 64);
    if chain.len() > 0 {
        assert(game_link(rows, game, chain[0]));
        let i = choose|i: int| #[trigger] first_game_row(rows, game, i) && rows[i].parent_pid == chain[0];
        lemma_game_parent_first(rows, game, i, 0);
        assert forall|n: int| 0 <= n < chain.len() - 1 implies parent_of(rows, #[trigger] chain[n], 0) == chain[n + 1] by {
            assert(pid_link(rows, chain[n], chain[n + 1]));
            let k = choose|k: int| #[trigger] first_pid_row(rows, chain[n], k) && rows[k].parent_pid == chain[n + 1];
            lemma_parent_of_first(rows, chain[n], k, 0);
        }
        let g = set![game.pid];
        lemma_chain_in_ancestors(rows, chain, 0, g, FAMILY_DEPTH as nat);
        let a = ancestors(rows, g, game_parent(rows, game, 0), FAMILY_DEPTH as nat);
        assert forall|n: int| 0 <= n < chain.len() implies guarded_set(rows, game).contains(#[trigger] chain[n]) by {
            assert(a.contains(chain[n]));
        }
    }
}

proof fn lemma_pass_adds_children(rows: Seq<ProcessRow>, d: Set<u32>, k: int)
    requires
        0 <= k < rows.len(),
        d.contains(rows[k].parent_pid),
    ensures
        descendant_pass(rows, d).contains(rows[k].identity.pid),
    decreases rows.len(),
{
    if k < rows.len() - 1 {
        lemma_pass_adds_children(rows.drop_last(), d, k);
        assert(rows.drop_last()[k] == rows[k]);
    } else {
        lemma_pass_grows(rows.drop_last(), d);
    }
    let front = rows.drop_last();
    if k < rows.len() - 1 {
        assert(descendant_pass(front, d).subset_of(descendant_pass(rows, d)));
    }
}

/// Process `line[m + 1]` is a child of `line[m]`: some snapshot row has its PID and
/// `line[m]` as parent.
pub open spec fn child_step(rows: Seq<ProcessRow>, line: Seq<u32>, m: int) -> bool {
    exists|k: int| 0 <= k < rows.len() && (#[trigger] rows[k]).identity.pid == line[m + 1] && rows[k].parent_pid == line[m]
}

/// Each process of the line is a child of the one before.
pub open spec fn child_line(rows: Seq<ProcessRow>, line: Seq<u32>) -> bool {
    forall|m: int| 0 <= m < line.len() - 1 ==> #[trigger] child_step(rows, line, m)
}

proof fn lemma_descendants_grow(rows: Seq<ProcessRow>, d: Set<u32>, fuel: nat)
    ensures
        d.subset_of(descendants(rows, d, fuel)),
    decreases fuel,
{
    if fuel > 0 {
        let e = descendant_pass(rows, d);
        lemma_pass_grows(rows, d);
        if e != d {
            lemma_descendants_grow(rows, e, (fuel - 1) as nat);
        }
    }
}

proof fn lemma_closed_contains_line(rows: Seq<ProcessRow>, line: Seq<u32>, j: int, d: Set<u32>, m: int)
    requires
        0 <= j < m < line.len(),
        d.contains(line[j]),
        descendant_pass(rows, d) == d,
        child_line(rows, line),
    ensures
        d.contains(line[m]),
    decreases m - j,
{
    assert(child_step(rows, line, j));
    let k = choose|k: int| 0 <= k < rows.len() && (#[trigger] rows[k]).identity.pid == line[j + 1] && rows[k].parent_pid == line[j];
    lemma_pass_adds_children(rows, d, k);
    if j + 1 < m {
        lemma_closed_contains_line(rows, line, j + 1, d, m);
    }
}

proof fn lemma_descendant_chain(rows: Seq<ProcessRow>, line: Seq<u32>, j: int, d: Set<u32>, fuel: nat)
    requires
        0 <= j < line.len(),
        fuel >= line.len() - 1 - j,
        forall|m: int| 0 <= m <= j ==> d.contains(#[trigger] line[m]),
        child_line(rows, line),
    ensures
        forall|m: int| 0 <= m < line.len() ==> descendants(rows, d, fuel).contains(#[trigger] line[m]),
    decreases fuel,
{
    lemma_descendants_grow(rows, d, fuel);
    if j + 1 < line.len() {
        let e = descendant_pass(rows, d);
        lemma_pass_grows(rows, d);
        assert(child_step(rows, line, j));
        let k = choose|k: int| 0 <= k < rows.len() && (#[trigger] rows[k]).identity.pid == line[j + 1] && rows[k].parent_pid == line[j];
        lemma_pass_adds_children(rows, d, k);
        if e == d {
            assert forall|m: int| 0 <= m < line.len() implies descendants(rows, d, fuel).contains(#[trigger] line[m]) by {
                if m > j {
                    lemma_closed_contains_line(rows, line, j, d, m);
                }
            }
        } else {
            lemma_descendant_chain(rows, line, j + 1, e, (fuel - 1) as nat);
        }
    }
}

/// The game's descendants are guarded too: for a line of processes starting at the game in
/// which each is the child of the one before (some snapshot row has its PID and the
/// previous one as parent), up to 64 generations down, every process is kept out of any plan.
pub proof fn law_game_descendants_guarded(rows: Seq<ProcessRow>, game: Identity, line: Seq<u32>)
    requires
        line.len() > 0,
        line[0] == game.pid,
        line.len() <= 65,
        child_line(rows, line),
    ensures
        forall|m: int| 0 <= m < line.len() ==> guarded_set(rows, game).contains(#[trigger] line[m]),
{
    assert(FAMILY_DEPTH == 64);
    lemma_descendant_chain(rows, line, 0, set![game.pid], FAMILY_DEPTH as nat);
    let d = descendants(rows, set![game.pid], FAMILY_DEPTH as nat);
    assert forall|m: int| 0 <= m < line.len() implies guarded_set(rows, game).contains(#[trigger] line[m]) by {
        assert(d.contains(line[m]));
    }
}

/// `x` is an ancestor of the game: the last process of some parent chain of the game.
pub open spec fn ancestor_of_game(rows: Seq<ProcessRow>, game: Identity, x: u32) -> bool {
    exists|chain: Seq<u32>| #[trigger] parent_chain(rows, game, chain) && chain.len() > 0 && chain.last() == x
}

/// `x` is a descendant of the game (or the game): the last process of a line that starts
/// at the game and in which each process is a child of the one before.
pub open spec fn descendant_of_game(rows: Seq<ProcessRow>, game: Identity, x: u32) -> bool {
    exists|line: Seq<u32>| #[trigger] child_line(rows, line) && line.len() > 0 && line[0] == game.pid && line.last() == x
}

proof fn lemma_parent_of_row(rows: Seq<ProcessRow>, pid: u32, from: int)
    requires
        0 <= from <= rows.len(),
        forall|j: int| 0 <= j < from ==> (#[trigger] rows[j]).identity.pid != pid,
        parent_of(rows, pid, from) != 0,
    ensures
        pid_link(rows, pid, parent_of(rows, pid, from)),
    decreases rows.len() - from,
{
    if rows[from].identity.pid == pid {
        assert(first_pid_row(rows, pid, from));
    } else {
        lemma_parent_of_row(rows, pid, from + 1);
    }
}

proof fn lemma_game_parent_row(rows: Seq<ProcessRow>, game: Identity, from: int)
    requires
        0 <= from <= rows.len(),
        forall|j: int| 0 <= j < from ==> !same_process_spec(#[trigger] rows[j].identity, game),
        game_parent(rows, game, from) != 0,
    ensures
        game_link(rows, game, game_parent(rows, game, from)),
    decreases rows.len() - from,
{
    if same_process_spec(rows[from].identity, game) {
        assert(first_game_row(rows, game, from));
    } else {
        lemma_game_parent_row(rows, game, from + 1);
    }
}

proof fn lemma_chain_extend(rows: Seq<ProcessRow>, game: Identity, chain: Seq<u32>, next: u32)
    requires
        parent_chain(rows, game, chain),
        chain.len() > 0,
        pid_link(rows, chain.last(), next),
    ensures
        parent_chain(rows, game, chain.push(next)),
{
    let c2 = chain.push(next);
    assert forall|n: int| #![trigger c2[n]] 0 <= n < c2.len() - 1 implies pid_link(rows, c2[n], c2[n + 1]) by {
        if n < chain.len() - 1 {
            assert(c2[n] == chain[n] && c2[n + 1] == chain[n + 1]);
            assert(chain[n] == chain[n]);
        } else {
            assert(c2[n] == chain.last() && c2[n + 1] == next);
        }
    }
    assert(c2[0] == chain[0]);
}

proof fn lemma_ancestors_bounded(
    rows: Seq<ProcessRow>,
    game: Identity,
    guard: Set<u32>,
    chain: Seq<u32>,
    fuel: nat,
)
    requires
        forall|x: u32| #[trigger] guard.contains(x) ==> x == game.pid || ancestor_of_game(rows, game, x),
        parent_chain(rows, game, chain),
        chain.len() > 0,
    ensures
        forall|x: u32|
            #[trigger] ancestors(rows, guard, chain.last(), fuel).contains(x) ==> x == game.pid || ancestor_of_game(rows, game, x),
    decreases fuel,
{
    let p = chain.last();
    if !(fuel == 0 || p == 0 || guard.contains(p)) {
        let g2 = guard.insert(p);
        assert(ancestor_of_game(rows, game, p));
        assert(forall|x: u32| #[trigger] g2.contains(x) ==> x == game.pid || ancestor_of_game(rows, game, x));
        let next = parent_of(rows, p, 0);
        assert(ancestors(rows, guard, p, fuel) == ancestors(rows, g2, next, (fuel - 1) as nat));
        if next == 0 {
            assert(ancestors(rows, g2, next, (fuel - 1) as nat) == g2);
        } else {
            lemma_parent_of_row(rows, p, 0);
            lemma_chain_extend(rows, game, chain, next);
            let c2 = chain.push(next);
            assert(c2.last() == next);
            lemma_ancestors_bounded(rows, game, g2, c2, (fuel - 1) as nat);
        }
    }
}

proof fn lemma_pass_bounded(part: Seq<ProcessRow>, rows: Seq<ProcessRow>, game: Identity, d: Set<u32>)
    requires
        part.len() <= rows.len(),
        forall|k: int| 0 <= k < part.len() ==> part[k] == rows[k],
        forall|x: u32| #[trigger] d.contains(x) ==> descendant_of_game(rows, game, x),
    ensures
        forall|x: u32| #[trigger] descendant_pass(part, d).contains(x) ==> descendant_of_game(rows, game, x),
    decreases part.len(),
{
    if part.len() > 0 {
        let front = part.drop_last();
        lemma_pass_bounded(front, rows, game, d);
        let e = descendant_pass(front, d);
        let last = part.last();
        let k = part.len() - 1;
        assert(rows[k] == last);
        if e.contains(last.parent_pid) {
            let pid = last.identity.pid;
            assert(descendant_of_game(rows, game, last.parent_pid));
            let line = choose|line: Seq<u32>| #[trigger] child_line(rows, line) && line.len() > 0 && line[0] == game.pid
                && line.last() == last.parent_pid;
            let l2 = line.push(pid);
            assert forall|m: int| 0 <= m < l2.len() - 1 implies #[trigger] child_step(rows, l2, m) by {
                if m < line.len() - 1 {
                    assert(child_step(rows, line, m));
                    let q = choose|q: int| 0 <= q < rows.len() && (#[trigger] rows[q]).identity.pid == line[m + 1]
                        && rows[q].parent_pid == line[m];
                    assert(l2[m] == line[m] && l2[m + 1] == line[m + 1]);
                } else {
                    assert(l2[m] == line.last() && l2[m + 1] == pid);
                }
            }
            assert(child_line(rows, l2));
            assert(l2[0] == game.pid && l2.last() == pid);
            assert(descendant_of_game(rows, game, pid));
        }
    }
}

proof fn lemma_descendants_bounded(rows: Seq<ProcessRow>, game: Identity, d: Set<u32>, fuel: nat)
    requires
        forall|x: u32| #[trigger] d.contains(x) ==> descendant_of_game(rows, game, x),
    ensures
        forall|x: u32| #[trigger] descendants(rows, d, fuel).contains(x) ==> descendant_of_game(rows, game, x),
    decreases fuel,
{
    if fuel > 0 {
        let e = descendant_pass(rows, d);
        lemma_pass_bounded(rows, rows, game, d);
        if e != d {
            lemma_descendants_bounded(rows, game, e, (fuel - 1) as nat);
            assert(descendants(rows, d, fuel) == descendants(rows, e, (fuel - 1) as nat));
        } else {
            assert(descendants(rows, d, fuel) == d);
        }
    }
}

/// Protection guards nothing beyond the game's family: every guarded process is the game,
/// one of its ancestors, or one of its descendants, so a launcher's other children stay
/// selectable.
pub proof fn law_guarded_only_family(rows: Seq<ProcessRow>, game: Identity, x: u32)
    ensures
        guarded_set(rows, game).contains(x) ==> x == game.pid || ancestor_of_game(rows, game, x) || descendant_of_game(
            rows,
            game,
            x,
        ),
{
    let g = set![game.pid];
    let first = game_parent(rows, game, 0);
    if first != 0 {
        lemma_game_parent_row(rows, game, 0);
        let c = seq![first];
        assert(parent_chain(rows, game, c));
        lemma_ancestors_bounded(rows, game, g, c, FAMILY_DEPTH as nat);
    } else {
        assert(ancestors(rows, g, first, FAMILY_DEPTH as nat) == g);
    }
    let line = seq![game.pid];
    assert(child_line(rows, line));
    assert(descendant_of_game(rows, game, game.pid));
    lemma_descendants_bounded(rows, game, g, FAMILY_DEPTH as nat);
}

} // verus!
