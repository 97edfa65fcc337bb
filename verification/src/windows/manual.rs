//! Manual-mode checks made at the moment On is pressed: a permission must still match the
//! running file, and an app in the foreground is never interrupted.
use crate::applications::{same_user_session, same_user_session_spec};
use crate::manual::{find_rule, manual_plan_ok, manual_plan_result, matching_rule, plan, Config, RuleAction};
use crate::model::{AppResult, Fault, FaultKind, Identity, NativeResult, Plan, ProcessRow, ReopenApproval};
use crate::policy::{complete_identity_spec, normalized, normalized_path};
use vstd::prelude::*;

verus! {

/// A refusal for the current user.
pub fn denied(message: &str) -> (f: Fault)
    ensures
        f.kind == FaultKind::Denied,
        f.message@ == message@,
{
    Fault::new(FaultKind::Denied, message)
}

/// The permission an approved app is closed or lowered under right now: refused when no
/// active permission matches its file stamp and owner, or when it is in the foreground.
pub fn authorize_current_rule(
    config: &Config,
    id: &Identity,
    observed: &ReopenApproval,
    now: u64,
    foreground: &Option<String>,
) -> (r: NativeResult<RuleAction>)
    ensures
        r is Ok <==> complete_identity_spec(*id) && match find_rule(config.rules@, *id, *observed, now, 0) {
            Some(i) => !(foreground matches Some(f) && f@ == config.rules@[i].app.path@),
            None => false,
        },
        r matches Ok(a) ==> a == config.rules@[find_rule(config.rules@, *id, *observed, now, 0)->0].action,
        r matches Err(f) ==> f.kind == FaultKind::Denied,
{
    let rule = match matching_rule(config, id, observed, now) {
        Some(rule) => rule,
        None => {
            return Err(denied("Background-app approval expired, changed or was revoked. Review Settings."));
        },
    };
    if let Some(f) = foreground {
        if *f == rule.app.path {
            return Err(denied("The approved app is now in the foreground; Game Mode will not interrupt it."));
        }
    }
    Ok(rule.action)
}

/// Some permission names this canonical path.
pub open spec fn has_rule_for(config: Config, path: Seq<char>) -> bool {
    exists|i: int| 0 <= i < config.rules@.len() && (#[trigger] config.rules@[i]).app.path@ == path
}

/// Row `k` of the caller's session is left out when its app has a permission that no
/// longer matches the file, or when it is in the foreground.
pub open spec fn excluded(
    config: Config,
    row: ProcessRow,
    stamp: Option<ReopenApproval>,
    caller: Identity,
    foreground: Option<String>,
    now: u64,
) -> bool {
    let path = normalized(row.identity.path@);
    &&& same_user_session_spec(row.identity, caller)
    &&& has_rule_for(config, path)
    &&& {
        ||| !(stamp matches Some(s) && complete_identity_spec(row.identity) && find_rule(
            config.rules@,
            row.identity,
            s,
            now,
            0,
        ) is Some)
        ||| (foreground matches Some(f) && f@ == path)
    }
}

/// `out` is `rows` with every excluded row marked protected and nothing else changed.
pub open spec fn marked(
    rows: Seq<ProcessRow>,
    out: Seq<ProcessRow>,
    config: Config,
    stamps: Seq<Option<ReopenApproval>>,
    caller: Identity,
    foreground: Option<String>,
    now: u64,
) -> bool {
    &&& out.len() == rows.len()
    &&& forall|k: int| 0 <= k < rows.len() ==> {
        &&& (#[trigger] out[k]).identity == rows[k].identity
        &&& out[k].parent_pid == rows[k].parent_pid
        &&& out[k].name == rows[k].name
        &&& out[k].gpu == rows[k].gpu
        &&& if excluded(config, rows[k], stamps[k], caller, foreground, now) {
            out[k].protected_reason matches Some(m) && m@ == "Approval is stale, file changed or app is in the foreground."@
        } else {
            out[k].protected_reason == rows[k].protected_reason
        }
    }
}

/// How many rows are excluded.
pub open spec fn excluded_count(
    rows: Seq<ProcessRow>,
    config: Config,
    stamps: Seq<Option<ReopenApproval>>,
    caller: Identity,
    foreground: Option<String>,
    now: u64,
) -> nat
    decreases rows.len(),
{
    if rows.len() == 0 {
        0
    } else {
        let k = rows.len() - 1;
        excluded_count(rows.drop_last(), config, stamps, caller, foreground, now) + if excluded(
            config,
            rows[k],
            stamps[k],
            caller,
            foreground,
            now,
        ) {
            1nat
        } else {
            0nat
        }
    }
}

proof fn lemma_count_prefix(
    rows: Seq<ProcessRow>,
    config: Config,
    stamps: Seq<Option<ReopenApproval>>,
    caller: Identity,
    foreground: Option<String>,
    now: u64,
    k: int,
)
    requires
        0 <= k <= rows.len(),
    ensures
        excluded_count(rows.take(k), config, stamps, caller, foreground, now) <= k,
    decreases k,
{
    if k > 0 {
        assert(rows.take(k).drop_last() =~= rows.take(k - 1));
        lemma_count_prefix(rows, config, stamps, caller, foreground, now, k - 1);
    }
}

/// Marks every row whose permission is stale or whose app is in the foreground as protected,
/// and says how many were marked.
pub fn mark_unapproved(
    config: &Config,
    rows: &mut Vec<ProcessRow>,
    stamps: &[Option<ReopenApproval>],
    caller: &Identity,
    foreground: &Option<String>,
    now: u64,
) -> (n: usize)
    requires
        stamps@.len() == old(rows)@.len(),
    ensures
        marked(old(rows)@, final(rows)@, *config, stamps@, *caller, *foreground, now),
        n == excluded_count(old(rows)@, *config, stamps@, *caller, *foreground, now),
{
    let ghost original = rows@;
    let mut count: usize = 0;
    let mut k: usize = 0;
    proof {
        assert(original.take(0) =~= Seq::<ProcessRow>::empty());
    }
    while k < rows.len()
        invariant
            original.len() == rows@.len(),
            stamps@.len() == rows@.len(),
            k <= rows@.len(),
            count == excluded_count(original.take(k as int), *config, stamps@, *caller, *foreground, now),
            count <= k,
            forall|q: int| k <= q < rows@.len() ==> #[trigger] rows@[q] == original[q],
            forall|q: int| 0 <= q < k ==> {
                &&& (#[trigger] rows@[q]).identity == original[q].identity
                &&& rows@[q].parent_pid == original[q].parent_pid
                &&& rows@[q].name == original[q].name
                &&& rows@[q].gpu == original[q].gpu
                &&& if excluded(*config, original[q], stamps@[q], *caller, *foreground, now) {
                    rows@[q].protected_reason matches Some(m) && m@ == "Approval is stale, file changed or app is in the foreground."@
                } else {
                    rows@[q].protected_reason == original[q].protected_reason
                }
            },
        decreases rows@.len() - k,
    {
        proof {
            assert(original.take(k + 1).drop_last() =~= original.take(k as int));
            assert(original.take(k + 1)[k as int] == original[k as int]);
        }
        let mut exclude = false;
        if same_user_session(&rows[k].identity, caller) {
            let path = normalized_path(rows[k].identity.path.as_str());
            let mut has = false;
            let mut i: usize = 0;
            while i < config.rules.len()
                invariant
                    i <= config.rules@.len(),
                    has == exists|q: int| 0 <= q < i && (#[trigger] config.rules@[q]).app.path@ == path@,
                decreases config.rules@.len() - i,
            {
                if config.rules[i].app.path == path {
                    has = true;
                }
                i = i + 1;
            }
            if has {
                let valid = match &stamps[k] {
                    Some(s) => matching_rule(config, &rows[k].identity, s, now).is_some(),
                    None => false,
                };
                let front = match foreground {
                    Some(f) => *f == path,
                    None => false,
                };
                if !valid || front {
                    exclude = true;
                }
            }
        }
        proof {
            assert(exclude == excluded(*config, original[k as int], stamps@[k as int], *caller, *foreground, now));
        }
        if exclude {
            rows[k].protected_reason = Some("Approval is stale, file changed or app is in the foreground.".to_string());
            count = count + 1;
        }
        k = k + 1;
    }
    proof {
        assert(original.take(k as int) =~= original);
    }
    count
}

/// The plan for pressing On: permissions whose file changed or whose app is in the
/// foreground are excluded (their processes are marked protected), then the remaining
/// permissions are resolved as `manual::plan` does. Also returns how many processes were excluded.
pub fn build_plan(
    config: &Config,
    protected: &[String],
    caller: &Identity,
    foreground: &Option<String>,
    rows: Vec<ProcessRow>,
    stamps: &[Option<ReopenApproval>],
    now: u64,
    experimental_gpu: bool,
) -> (r: AppResult<(Plan, usize)>)
    requires
        stamps@.len() == rows@.len(),
    ensures
        exists|out: Seq<ProcessRow>| {
            &&& #[trigger] marked(rows@, out, *config, stamps@, *caller, *foreground, now)
            &&& (r is Ok <==> manual_plan_ok(*config, out, *caller, protected@, now))
            &&& (r matches Ok((p, _)) ==> manual_plan_result(p, *config, out, *caller, protected@, now, experimental_gpu))
        },
        r matches Ok((_, n)) ==> n == excluded_count(rows@, *config, stamps@, *caller, *foreground, now),
{
    let mut rows = rows;
    let ghost original = rows@;
    let excluded = mark_unapproved(config, &mut rows, stamps, caller, foreground, now);
    let result = plan(config, rows.as_slice(), caller, protected, now, experimental_gpu);
    proof {
        assert(marked(original, rows@, *config, stamps@, *caller, *foreground, now));
    }
    match result {
        Ok(p) => Ok((p, excluded)),
        Err(e) => Err(e),
    }
}

/// The first row that is the same process lifetime as `id`, at or after `from`.
pub open spec fn first_same(rows: Seq<ProcessRow>, id: Identity, from: int) -> Option<int>
    decreases rows.len() - from,
{
    if from < 0 || from >= rows.len() {
        None
    } else if crate::policy::same_process_spec(rows[from].identity, id) {
        Some(from)
    } else {
        first_same(rows, id, from + 1)
    }
}

/// A protected path that names the app listed under `path`.
pub open spec fn path_protected(protected_paths: Seq<String>, path: Seq<char>) -> bool {
    exists|k: int| 0 <= k < protected_paths.len() && normalized((#[trigger] protected_paths[k])@) == path
}

/// Whether a Game Mode permission may be granted for the selected app, given a fresh
/// process snapshot and the user's protected paths: never for a protected app, only for
/// one that runs as the same process it was listed as, and not when that process is now
/// protected or the user protects its executable. Gives the identity to approve.
pub fn permit_check(choice: &crate::advice::Choice, rows: &[ProcessRow], protected_paths: &[String]) -> (r: AppResult<Identity>)
    ensures
        choice.protected ==> (r matches Err(m) && m@ == "This application is protected."@),
        !choice.protected && choice.id is None ==> (r matches Err(m)
            && m@ == "Open the app and refresh Settings before approving it."@),
        !choice.protected && choice.id is Some ==> match first_same(rows@, choice.id->0, 0) {
            None => r matches Err(m) && m@ == "App changed; refresh and review it again."@,
            Some(j) => if rows@[j].protected_reason is Some || path_protected(protected_paths@, choice.path@) {
                r matches Err(m) && m@ == "This app is protected. Its permission was not changed."@
            } else {
                r matches Ok(id) && id == choice.id->0
            },
        },
{
    if choice.protected {
        return Err("This application is protected.".to_string());
    }
    let id = match &choice.id {
        Some(id) => id,
        None => return Err("Open the app and refresh Settings before approving it.".to_string()),
    };
    let mut j: usize = 0;
    while j < rows.len() && !crate::policy::same_process(&rows[j].identity, id)
        invariant
            j <= rows@.len(),
            first_same(rows@, *id, 0) == first_same(rows@, *id, j as int),
        decreases rows@.len() - j,
    {
        proof {
            assert(crate::policy::same_process_spec(*id, rows@[j as int].identity) == crate::policy::same_process_spec(rows@[j as int].identity, *id)) by {
                crate::policy::law_same_process_equivalence(rows@[j as int].identity, *id, *id);
            }
        }
        j = j + 1;
    }
    if j == rows.len() {
        return Err("App changed; refresh and review it again.".to_string());
    }
    proof {
        crate::policy::law_same_process_equivalence(rows@[j as int].identity, *id, *id);
        crate::policy::law_same_process_equivalence(*id, rows@[j as int].identity, *id);
    }
    let mut hit = rows[j].protected_reason.is_some();
    let mut k: usize = 0;
    while k < protected_paths.len() && !hit
        invariant
            k <= protected_paths@.len(),
            hit == (rows@[j as int].protected_reason is Some || exists|q: int|
                0 <= q < k && normalized((#[trigger] protected_paths@[q])@) == choice.path@),
        decreases protected_paths@.len() - k,
    {
        let p = normalized_path(protected_paths[k].as_str());
        if crate::text::str_equal(p.as_str(), choice.path.as_str()) {
            hit = true;
        }
        k = k + 1;
    }
    if hit {
        return Err("This app is protected. Its permission was not changed.".to_string());
    }
    Ok(id.clone())
}


/// The process whose executable counts as the foreground application, from the
/// foreground window (none when there is none) and the PID that owns it (none when it
/// cannot be read): the optimizer's own window counts as no foreground application.
pub fn foreground_owner(window: bool, owner: Option<u32>, own_pid: u32) -> (r: NativeResult<Option<u32>>)
    ensures
        !window ==> r == Ok::<Option<u32>, Fault>(None),
        window && (owner is None || owner == Some(0u32)) ==> (r matches Err(f) && f.kind == FaultKind::Denied
            && f.message@ == "Cannot identify the foreground application."@),
        window && owner == Some(own_pid) && own_pid != 0 ==> r == Ok::<Option<u32>, Fault>(None),
        window && owner is Some && owner->0 != 0 && owner->0 != own_pid ==> r == Ok::<Option<u32>, Fault>(owner),
{
    if !window {
        return Ok(None);
    }
    match owner {
        None => Err(denied("Cannot identify the foreground application.")),
        Some(p) => if p == 0 {
            Err(denied("Cannot identify the foreground application."))
        } else if p == own_pid {
            Ok(None)
        } else {
            Ok(Some(p))
        },
    }
}

} // verus!
