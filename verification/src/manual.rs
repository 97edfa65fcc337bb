//! User-toggled mode with explicit, recurring background-app permissions.
//! No game detection, wildcard rules, future-process enforcement, force or reopening.
use crate::applications::{app_key, key_file, key_path, same_user_session, same_user_session_spec, AppKey};
use crate::model::{approval_eq, default_options, ActionKind, AppResult, ApprovedAction, Identity, Options, Plan, ProcessRow, ReopenApproval};
use crate::policy::{action_allowed, complete_identity, complete_identity_spec, normalized, normalized_path, plan_allowed, reserved_name, reserved_name_spec, MAX_ACTIONS, MAX_PATH_CHARS};
use crate::sorting::{inverse_of, sort_by_pid, stable_sort_by_pid, stably_sorted_from};
use crate::text::{after_last, chars_of, last_field, utf8_len, utf8_len_at_most};
use vstd::prelude::*;

verus! {

/// How long one approval lasts: thirty days, in seconds.
pub const APPROVAL_SECONDS: u64 = 30 * 24 * 60 * 60;

/// Most recurring permissions one configuration may hold.
pub const MAX_RULES: usize = 32;

/// Largest stored form of a configuration, in bytes; checked where it is encoded.
pub const MAX_SETTINGS_BYTES: usize = 256 * 1024;

/// Longest owner or file identifier a permission may carry, in UTF-8 bytes.
pub const MAX_ID_BYTES: usize = 256;

/// How a startup command is stored: a plain string or one with environment references.
#[derive(Clone, Copy, Debug, PartialEq, Eq, Structural)]
pub enum StartupValueKind {
    String,
    ExpandString,
}

#[derive(Clone, Copy, Debug, PartialEq, Eq, Structural)]
pub enum RuleAction {
    Close,
    ReduceLoad,
}

/// A recurring permission for one executable file, owner and stamp, for a bounded time.
#[derive(Debug)]
pub struct Rule {
    pub app: AppKey,
    pub stamp: ReopenApproval,
    pub owner_sid: String,
    pub action: RuleAction,
    pub granted_unix: u64,
    pub expires_unix: u64,
}

pub open spec fn rule_active(r: Rule, now: u64) -> bool {
    r.granted_unix <= now < r.expires_unix
}

impl Rule {
    /// In force from the grant time up to, not including, the expiry time.
    pub fn active(&self, now: u64) -> (r: bool)
        ensures
            r == rule_active(*self, now),
    {
        now >= self.granted_unix && now < self.expires_unix
    }
}

impl Clone for Rule {
    fn clone(&self) -> (r: Self)
        ensures
            r == *self,
    {
        Rule {
            app: self.app.clone(),
            stamp: self.stamp.clone(),
            owner_sid: self.owner_sid.clone(),
            action: self.action,
            granted_unix: self.granted_unix,
            expires_unix: self.expires_unix,
        }
    }
}

#[derive(Debug)]
pub struct Config {
    pub schema: u32,
    pub rules: Vec<Rule>,
}

impl Default for Config {
    fn default() -> (c: Self)
        ensures
            c.schema == 1,
            c.rules@.len() == 0,
    {
        Config { schema: 1, rules: Vec::new() }
    }
}

/// The shape of one permission: a complete canonical executable that is not protected
/// infrastructure, a bounded owner and file identifier, a stamp of that same file,
/// and a grant of at most thirty days.
pub open spec fn permission_valid(
    path: Seq<char>,
    file: Seq<char>,
    owner: Seq<char>,
    stamp: ReopenApproval,
    granted: u64,
    expires: u64,
) -> bool {
    &&& 0 < path.len() <= MAX_PATH_CHARS
    &&& 0 < owner.len() && utf8_len(owner) <= MAX_ID_BYTES
    &&& 0 < file.len() && utf8_len(file) <= MAX_ID_BYTES
    &&& path == normalized(path)
    &&& stamp.image_file_id@ == file
    &&& stamp.file_size != 0
    &&& stamp.modified != 0
    &&& granted != 0
    &&& granted < expires
    &&& expires - granted <= APPROVAL_SECONDS
    &&& !reserved_name_spec(after_last(path, '\\'))
}

pub open spec fn rule_valid(r: Rule) -> bool {
    permission_valid(r.app.path@, r.app.image_file_id@, r.owner_sid@, r.stamp, r.granted_unix, r.expires_unix)
}

/// A supported configuration: schema 1, at most 32 valid permissions, one per path.
pub open spec fn config_valid(c: Config) -> bool {
    &&& c.schema == 1
    &&& c.rules@.len() <= MAX_RULES
    &&& forall|i: int| 0 <= i < c.rules@.len() ==> rule_valid(#[trigger] c.rules@[i])
    &&& forall|i: int, j: int| 0 <= i < j < c.rules@.len()
        ==> (#[trigger] c.rules@[i]).app.path@ != (#[trigger] c.rules@[j]).app.path@
}

fn rule_check(r: &Rule) -> (ok: bool)
    ensures
        ok == rule_valid(*r),
{
    let path_len = chars_of(r.app.path.as_str()).len();
    let owner_len = chars_of(r.owner_sid.as_str()).len();
    let file_len = chars_of(r.app.image_file_id.as_str()).len();
    if path_len == 0 || path_len > MAX_PATH_CHARS || owner_len == 0 || file_len == 0 {
        return false;
    }
    if !utf8_len_at_most(r.owner_sid.as_str(), MAX_ID_BYTES) || !utf8_len_at_most(
        r.app.image_file_id.as_str(),
        MAX_ID_BYTES,
    ) {
        return false;
    }
    if r.app.path != normalized_path(r.app.path.as_str()) {
        return false;
    }
    if r.stamp.image_file_id != r.app.image_file_id || r.stamp.file_size == 0 || r.stamp.modified == 0 {
        return false;
    }
    if r.granted_unix == 0 || r.expires_unix <= r.granted_unix || r.expires_unix - r.granted_unix > APPROVAL_SECONDS {
        return false;
    }
    let name = last_field(r.app.path.as_str(), '\\');
    !reserved_name(name.as_str())
}

/// Accepts a configuration only if every permission is well formed and unique per path.
pub fn validate(c: &Config) -> (r: AppResult<()>)
    ensures
        r is Ok <==> config_valid(*c),
{
    if c.schema != 1 || c.rules.len() > MAX_RULES {
        return Err("Unsupported or oversized Game Mode settings. Existing settings were preserved.".to_string());
    }
    let n = c.rules.len();
    let mut i: usize = 0;
    while i < n
        invariant
            n == c.rules@.len(),
            i <= n,
            forall|m: int| 0 <= m < i ==> rule_valid(#[trigger] c.rules@[m]),
            forall|a: int, b: int| 0 <= a < b < i
                ==> (#[trigger] c.rules@[a]).app.path@ != (#[trigger] c.rules@[b]).app.path@,
        decreases n - i,
    {
        let rule = &c.rules[i];
        if !rule_check(rule) {
            return Err("Invalid, duplicate or protected recurring permission. Nothing was changed.".to_string());
        }
        let mut j: usize = 0;
        while j < i
            invariant
                n == c.rules@.len(),
                j <= i < n,
                rule == c.rules@[i as int],
                forall|m: int| 0 <= m < j ==> (#[trigger] c.rules@[m]).app.path@ != rule.app.path@,
            decreases i - j,
        {
            if c.rules[j].app.path == rule.app.path {
                return Err("Invalid, duplicate or protected recurring permission. Nothing was changed.".to_string());
            }
            j = j + 1;
        }
        i = i + 1;
    }
    Ok(())
}

/// The owner recorded for a complete identity.
pub open spec fn owner_of(id: Identity) -> Seq<char> {
    id.provenance->0.owner_sid@
}

/// Grants a thirty-day permission for the running executable of `id`, bound to its file
/// stamp and owner; refused when the evidence is incomplete, the clock would overflow,
/// or the permission would not be valid.
pub fn approve(id: &Identity, stamp: ReopenApproval, action: RuleAction, now: u64) -> (r: AppResult<Rule>)
    ensures
        r is Ok <==> complete_identity_spec(*id) && now + APPROVAL_SECONDS <= u64::MAX
            && permission_valid(key_path(*id), key_file(*id), owner_of(*id), stamp, now, (now + APPROVAL_SECONDS) as u64),
        r matches Ok(rule) ==> {
            &&& rule.app.path@ == key_path(*id)
            &&& rule.app.image_file_id@ == key_file(*id)
            &&& rule.owner_sid@ == owner_of(*id)
            &&& rule.stamp == stamp
            &&& rule.action == action
            &&& rule.granted_unix == now
            &&& rule.expires_unix == now + APPROVAL_SECONDS
        },
{
    let app = match app_key(id) {
        Ok(k) => k,
        Err(e) => return Err(e),
    };
    let owner_sid = match &id.provenance {
        Some(p) => p.owner_sid.clone(),
        None => return Err("Unknown owner".to_string()),
    };
    let expires_unix = match now.checked_add(APPROVAL_SECONDS) {
        Some(t) => t,
        None => return Err("Invalid time".to_string()),
    };
    let rule = Rule { app, stamp, owner_sid, action, granted_unix: now, expires_unix };
    if !rule_check(&rule) {
        return Err("Invalid, duplicate or protected recurring permission. Nothing was changed.".to_string());
    }
    Ok(rule)
}

/// The permission `r` covers identity `id` with stamp `stamp` at time `now`.
pub open spec fn rule_matches(r: Rule, id: Identity, stamp: ReopenApproval, now: u64) -> bool {
    &&& rule_active(r, now)
    &&& r.app.path@ == key_path(id)
    &&& r.app.image_file_id@ == key_file(id)
    &&& r.owner_sid@ == owner_of(id)
    &&& approval_eq(r.stamp, stamp)
}

/// The first permission at or after `from` that covers the identity.
pub open spec fn find_rule(rules: Seq<Rule>, id: Identity, stamp: ReopenApproval, now: u64, from: int) -> Option<int>
    decreases rules.len() - from,
{
    if from < 0 || from >= rules.len() {
        None
    } else if rule_matches(rules[from], id, stamp, now) {
        Some(from)
    } else {
        find_rule(rules, id, stamp, now, from + 1)
    }
}

/// The first active permission for this exact executable, owner and file stamp.
pub fn matching_rule<'a>(c: &'a Config, id: &Identity, stamp: &ReopenApproval, now: u64) -> (r: Option<&'a Rule>)
    ensures
        !complete_identity_spec(*id) ==> r is None,
        complete_identity_spec(*id) ==> match find_rule(c.rules@, *id, *stamp, now, 0) {
            Some(i) => r matches Some(x) && *x == c.rules@[i],
            None => r is None,
        },
{
    let key = match app_key(id) {
        Ok(k) => k,
        Err(_) => return None,
    };
    let owner = match &id.provenance {
        Some(p) => &p.owner_sid,
        None => return None,
    };
    let mut i: usize = 0;
    while i < c.rules.len()
        invariant
            i <= c.rules@.len(),
            complete_identity_spec(*id),
            key.path@ == key_path(*id),
            key.image_file_id@ == key_file(*id),
            owner@ == owner_of(*id),
            find_rule(c.rules@, *id, *stamp, now, 0) == find_rule(c.rules@, *id, *stamp, now, i as int),
        decreases c.rules@.len() - i,
    {
        let r = &c.rules[i];
        if r.active(now) && r.app == key && r.owner_sid == *owner && r.stamp == *stamp {
            return Some(r);
        }
        i = i + 1;
    }
    None
}

/// The action a permission asks for.
pub open spec fn kind_of(a: RuleAction) -> ActionKind {
    match a {
        RuleAction::Close => ActionKind::Close,
        RuleAction::ReduceLoad => ActionKind::LowerPriorities,
    }
}

/// A running process covered by permission `r` for this caller: the same executable
/// and file, the caller's own session and logon, and the permission's owner.
pub open spec fn in_group(row: ProcessRow, r: Rule, caller: Identity) -> bool {
    &&& complete_identity_spec(row.identity)
    &&& key_path(row.identity) == r.app.path@
    &&& key_file(row.identity) == r.app.image_file_id@
    &&& same_user_session_spec(row.identity, caller)
    &&& owner_of(row.identity) == r.owner_sid@
}

pub open spec fn action_for(row: ProcessRow, r: Rule) -> ApprovedAction {
    ApprovedAction { target: row.identity, action: kind_of(r.action), reopen: None }
}

/// One action per covered process, in snapshot order.
pub open spec fn group_actions(rows: Seq<ProcessRow>, r: Rule, caller: Identity) -> Seq<ApprovedAction>
    decreases rows.len(),
{
    if rows.len() == 0 {
        Seq::empty()
    } else {
        let g = group_actions(rows.drop_last(), r, caller);
        if in_group(rows.last(), r, caller) {
            g.push(action_for(rows.last(), r))
        } else {
            g
        }
    }
}

/// A permission is set aside when any covered process is protected or is the caller,
/// or when it covers something and names the caller's own executable or a protected path.
pub open spec fn group_blocked(rows: Seq<ProcessRow>, r: Rule, caller: Identity, protected: Seq<String>) -> bool {
    ||| exists|k: int| 0 <= k < rows.len() && in_group(#[trigger] rows[k], r, caller)
        && (rows[k].protected_reason is Some || rows[k].identity.pid == caller.pid)
    ||| (exists|k: int| 0 <= k < rows.len() && in_group(#[trigger] rows[k], r, caller)) && (
    r.app.path@ == normalized(caller.path@) || exists|k: int| 0 <= k < protected.len()
        && normalized((#[trigger] protected[k])@) == r.app.path@)
}

/// What one permission contributes at time `now`.
pub open spec fn rule_actions(r: Rule, rows: Seq<ProcessRow>, caller: Identity, protected: Seq<String>, now: u64) -> Seq<ApprovedAction> {
    if rule_active(r, now) && !group_blocked(rows, r, caller, protected) {
        group_actions(rows, r, caller)
    } else {
        Seq::empty()
    }
}

/// Every permission's contribution, in permission order.
pub open spec fn collected(rules: Seq<Rule>, rows: Seq<ProcessRow>, caller: Identity, protected: Seq<String>, now: u64) -> Seq<ApprovedAction>
    decreases rules.len(),
{
    if rules.len() == 0 {
        Seq::empty()
    } else {
        collected(rules.drop_last(), rows, caller, protected, now) + rule_actions(rules.last(), rows, caller, protected, now)
    }
}

pub open spec fn any_active(rules: Seq<Rule>, now: u64) -> bool {
    exists|i: int| 0 <= i < rules.len() && rule_active(#[trigger] rules[i], now)
}

pub open spec fn has_lowering(s: Seq<ApprovedAction>) -> bool {
    exists|i: int| 0 <= i < s.len() && (#[trigger] s[i]).action == ActionKind::LowerPriorities
}

/// What a manual plan needs of its actions: at most 32 distinct targets with trustworthy
/// identities, none of them the empty game path or a protected path.
pub open spec fn manual_actions_allowed(actions: Seq<ApprovedAction>, protected: Seq<String>) -> bool {
    &&& actions.len() <= MAX_ACTIONS
    &&& forall|i: int| 0 <= i < actions.len() ==> {
        let a = #[trigger] actions[i];
        &&& crate::policy::trustworthy_identity(a.target)
        &&& normalized(a.target.path@) != normalized(Seq::<char>::empty())
        &&& forall|k: int| 0 <= k < protected.len() ==> normalized((#[trigger] protected[k])@) != normalized(a.target.path@)
    }
    &&& forall|i: int, j: int| 0 <= i < j < actions.len()
        ==> (#[trigger] actions[i]).target.pid != (#[trigger] actions[j]).target.pid
}

/// When a manual plan is produced: a valid configuration, a complete caller, at least one
/// permission in force, at most 32 covered processes, and a plan the policy accepts.
pub open spec fn manual_plan_ok(c: Config, rows: Seq<ProcessRow>, caller: Identity, protected: Seq<String>, now: u64) -> bool {
    &&& config_valid(c)
    &&& complete_identity_spec(caller)
    &&& any_active(c.rules@, now)
    &&& collected(c.rules@, rows, caller, protected, now).len() <= MAX_ACTIONS
    &&& manual_actions_allowed(collected(c.rules@, rows, caller, protected, now), protected)
}

pub proof fn lemma_group_actions_shape(rows: Seq<ProcessRow>, r: Rule, caller: Identity)
    ensures
        forall|i: int| 0 <= i < group_actions(rows, r, caller).len() ==> {
            let a = #[trigger] group_actions(rows, r, caller)[i];
            &&& a.reopen is None
            &&& a.action == kind_of(r.action)
            &&& crate::policy::trustworthy_identity(a.target)
        },
    decreases rows.len(),
{
    if rows.len() > 0 {
        lemma_group_actions_shape(rows.drop_last(), r, caller);
    }
}

pub proof fn lemma_collected_shape(rules: Seq<Rule>, rows: Seq<ProcessRow>, caller: Identity, protected: Seq<String>, now: u64)
    ensures
        forall|i: int| 0 <= i < collected(rules, rows, caller, protected, now).len() ==> {
            let a = #[trigger] collected(rules, rows, caller, protected, now)[i];
            &&& a.reopen is None
            &&& a.action != ActionKind::ForceClose
            &&& crate::policy::trustworthy_identity(a.target)
        },
    decreases rules.len(),
{
    if rules.len() > 0 {
        let pre = collected(rules.drop_last(), rows, caller, protected, now);
        let last = rule_actions(rules.last(), rows, caller, protected, now);
        lemma_collected_shape(rules.drop_last(), rows, caller, protected, now);
        lemma_group_actions_shape(rows, rules.last(), caller);
        assert forall|i: int| 0 <= i < (pre + last).len() implies {
            let a = #[trigger] (pre + last)[i];
            &&& a.reopen is None
            &&& a.action != ActionKind::ForceClose
            &&& crate::policy::trustworthy_identity(a.target)
        } by {
            if i >= pre.len() {
                assert((pre + last)[i] == last[i - pre.len()]);
            }
        }
    }
}

pub proof fn lemma_collected_prefix(rules: Seq<Rule>, rows: Seq<ProcessRow>, caller: Identity, protected: Seq<String>, now: u64, k: int)
    requires
        0 <= k <= rules.len(),
    ensures
        collected(rules.take(k), rows, caller, protected, now).len() <= collected(rules, rows, caller, protected, now).len(),
    decreases rules.len(),
{
    if k < rules.len() {
        lemma_collected_prefix(rules.drop_last(), rows, caller, protected, now, k);
        assert(rules.drop_last().take(k) =~= rules.take(k));
    } else {
        assert(rules.take(k) =~= rules);
    }
}

/// A manual plan is accepted by the policy exactly when its actions are.
pub proof fn lemma_manual_plan_allowed(p: Plan)
    requires
        p.manual_mode,
        p.consent,
        p.game is None,
        p.game_path@.len() == 0,
        p.options.close_timeout_ms == 4000,
        !p.options.launch_game,
        p.options.gpu_priority ==> p.experimental_consent,
        forall|i: int| 0 <= i < p.actions@.len() ==> (#[trigger] p.actions@[i]).reopen is None
            && p.actions@[i].action != ActionKind::ForceClose,
    ensures
        plan_allowed(p) <==> manual_actions_allowed(p.actions@, p.protected_paths@),
{
    assert(p.game_path@ =~= Seq::<char>::empty());
    if manual_actions_allowed(p.actions@, p.protected_paths@) {
        assert forall|i: int| 0 <= i < p.actions@.len() implies action_allowed(p, #[trigger] p.actions@[i]) by {
            let a = p.actions@[i];
            assert(crate::policy::trustworthy_identity(a.target));
        }
    }
    if plan_allowed(p) {
        assert forall|i: int| 0 <= i < p.actions@.len() implies {
            let a = #[trigger] p.actions@[i];
            &&& crate::policy::trustworthy_identity(a.target)
            &&& normalized(a.target.path@) != normalized(Seq::<char>::empty())
            &&& forall|k: int| 0 <= k < p.protected_paths@.len() ==> normalized((#[trigger] p.protected_paths@[k])@) != normalized(a.target.path@)
        } by {
            assert(action_allowed(p, p.actions@[i]));
        }
    }
}

/// Reordering keeps the manual-plan conditions.
pub proof fn lemma_manual_allowed_reordered(
    out: Seq<ApprovedAction>,
    src: Seq<ApprovedAction>,
    m: Seq<int>,
    inv: Seq<int>,
    protected: Seq<String>,
)
    requires
        stably_sorted_from(out, src, m),
        inverse_of(m, inv, src.len() as int),
    ensures
        manual_actions_allowed(out, protected) <==> manual_actions_allowed(src, protected),
{
    if manual_actions_allowed(src, protected) {
        assert forall|i: int| 0 <= i < out.len() implies {
            let a = #[trigger] out[i];
            &&& crate::policy::trustworthy_identity(a.target)
            &&& normalized(a.target.path@) != normalized(Seq::<char>::empty())
            &&& forall|k: int| 0 <= k < protected.len() ==> normalized((#[trigger] protected[k])@) != normalized(a.target.path@)
        } by {
            assert(out[i] == src[m[i]]);
            let a = src[m[i]];
            assert(crate::policy::trustworthy_identity(a.target));
        }
        assert forall|i: int, j: int| 0 <= i < j < out.len()
            implies (#[trigger] out[i]).target.pid != (#[trigger] out[j]).target.pid by {
            assert(m[i] != m[j]);
            if m[i] < m[j] {
                assert(src[m[i]].target.pid != src[m[j]].target.pid);
            } else {
                assert(src[m[j]].target.pid != src[m[i]].target.pid);
            }
        }
    }
    if manual_actions_allowed(out, protected) {
        assert forall|i: int| 0 <= i < src.len() implies {
            let a = #[trigger] src[i];
            &&& crate::policy::trustworthy_identity(a.target)
            &&& normalized(a.target.path@) != normalized(Seq::<char>::empty())
            &&& forall|k: int| 0 <= k < protected.len() ==> normalized((#[trigger] protected[k])@) != normalized(a.target.path@)
        } by {
            let q = inv[i];
            assert(m[q] == i);
            assert(out[q] == src[i]);
            let a = out[q];
            assert(crate::policy::trustworthy_identity(a.target));
        }
        assert forall|i: int, j: int| 0 <= i < j < src.len()
            implies (#[trigger] src[i]).target.pid != (#[trigger] src[j]).target.pid by {
            let qi = inv[i];
            let qj = inv[j];
            assert(out[qi] == src[i]);
            assert(out[qj] == src[j]);
            assert(qi != qj);
            if qi < qj {
                assert(out[qi].target.pid != out[qj].target.pid);
            } else {
                assert(out[qj].target.pid != out[qi].target.pid);
            }
        }
    }
}

fn in_group_check(row: &ProcessRow, rule: &Rule, caller: &Identity) -> (r: bool)
    ensures
        r == in_group(*row, *rule, *caller),
{
    let key = match app_key(&row.identity) {
        Ok(k) => k,
        Err(_) => return false,
    };
    if !(key == rule.app) || !same_user_session(&row.identity, caller) {
        return false;
    }
    match &row.identity.provenance {
        Some(p) => p.owner_sid == rule.owner_sid,
        None => false,
    }
}

fn protected_contains(protected: &[String], path: &String) -> (r: bool)
    ensures
        r == exists|k: int| 0 <= k < protected@.len() && normalized((#[trigger] protected@[k])@) == path@,
{
    let mut k: usize = 0;
    while k < protected.len()
        invariant
            k <= protected@.len(),
            forall|m: int| 0 <= m < k ==> normalized((#[trigger] protected@[m])@) != path@,
        decreases protected@.len() - k,
    {
        if normalized_path(protected[k].as_str()) == *path {
            return true;
        }
        k = k + 1;
    }
    false
}

/// The actions of one permission, with whether the permission is set aside.
fn gather_group(rows: &[ProcessRow], rule: &Rule, caller: &Identity, protected: &[String]) -> (res: (Vec<ApprovedAction>, bool))
    ensures
        res.0@ == group_actions(rows@, *rule, *caller),
        res.1 == group_blocked(rows@, *rule, *caller, protected@),
{
    let mut group: Vec<ApprovedAction> = Vec::new();
    let mut blocked = false;
    let mut k: usize = 0;
    proof {
        assert(rows@.take(0) =~= Seq::<ProcessRow>::empty());
    }
    while k < rows.len()
        invariant
            k <= rows@.len(),
            group@ == group_actions(rows@.take(k as int), *rule, *caller),
            blocked == exists|q: int| 0 <= q < k && in_group(#[trigger] rows@[q], *rule, *caller)
                && (rows@[q].protected_reason is Some || rows@[q].identity.pid == caller.pid),
            group@.len() == 0 <==> !exists|q: int| 0 <= q < k && in_group(#[trigger] rows@[q], *rule, *caller),
        decreases rows@.len() - k,
    {
        let row = &rows[k];
        proof {
            assert(rows@.take(k + 1).drop_last() =~= rows@.take(k as int));
            assert(rows@.take(k + 1).last() == rows@[k as int]);
        }
        if in_group_check(row, rule, caller) {
            if row.protected_reason.is_some() || row.identity.pid == caller.pid {
                blocked = true;
            }
            group.push(ApprovedAction {
                target: row.identity.clone(),
                action: match rule.action {
                    RuleAction::Close => ActionKind::Close,
                    RuleAction::ReduceLoad => ActionKind::LowerPriorities,
                },
                reopen: None,
            });
        }
        k = k + 1;
    }
    proof {
        assert(rows@.take(k as int) =~= rows@);
    }
    if group.len() > 0 {
        let own = normalized_path(caller.path.as_str());
        if rule.app.path == own || protected_contains(protected, &rule.app.path) {
            blocked = true;
        }
    }
    (group, blocked)
}

fn copy_paths(protected: &[String]) -> (r: Vec<String>)
    ensures
        r@ == protected@,
{
    let mut out: Vec<String> = Vec::new();
    let mut k: usize = 0;
    while k < protected.len()
        invariant
            k <= protected@.len(),
            out@ == protected@.take(k as int),
        decreases protected@.len() - k,
    {
        proof {
            assert(protected@.take(k + 1) =~= protected@.take(k as int).push(protected@[k as int]));
        }
        out.push(protected[k].clone());
        k = k + 1;
    }
    proof {
        assert(protected@.take(k as int) =~= protected@);
    }
    out
}

/// The plan pressing On makes: a manual session with the permitted actions in PID order,
/// the user's protected paths, the priority policies that lowering needs (GPU scheduling
/// only when asked for), consent for nothing beyond that, and no force-close or reopening.
pub open spec fn manual_plan_result(
    p: Plan,
    c: Config,
    rows: Seq<ProcessRow>,
    caller: Identity,
    protected: Seq<String>,
    now: u64,
    experimental_gpu: bool,
) -> bool {
    let acts = collected(c.rules@, rows, caller, protected, now);
    let lower = has_lowering(acts);
    &&& p.manual_mode
    &&& p.game is None
    &&& p.game_path@.len() == 0
    &&& stable_sort_by_pid(p.actions@, acts)
    &&& p.protected_paths@ == protected
    &&& p.options == Options {
        cpu_priority: lower,
        eco_qos: lower,
        memory_priority: lower,
        gpu_priority: lower && experimental_gpu,
        ..default_options()
    }
    &&& p.consent
    &&& !p.force_consent
    &&& p.experimental_consent == (lower && experimental_gpu)
    &&& plan_allowed(p)
    &&& forall|q: int| 0 <= q < p.actions@.len() ==> (#[trigger] p.actions@[q]).reopen is None
        && p.actions@[q].action != ActionKind::ForceClose
}

/// Resolves the permissions in force into a plan for exactly the processes observed now.
/// Every other application is kept. The plan is ordered by process id, lowers priorities
/// (and, with experimental approval, GPU priority) only when some permission asks for it,
/// and is refused whole when anything about it is not allowed.
pub fn plan(
    c: &Config,
    rows: &[ProcessRow],
    caller: &Identity,
    protected: &[String],
    now: u64,
    experimental_gpu: bool,
) -> (r: AppResult<Plan>)
    ensures
        r is Ok <==> manual_plan_ok(*c, rows@, *caller, protected@, now),
        r matches Ok(p) ==> manual_plan_result(p, *c, rows@, *caller, protected@, now, experimental_gpu),
{
    if let Err(e) = validate(c) {
        return Err(e);
    }
    if !complete_identity(caller) {
        return Err("Current user/session cannot be established.".to_string());
    }
    let mut any = false;
    let mut i: usize = 0;
    while i < c.rules.len()
        invariant
            i <= c.rules@.len(),
            any == exists|q: int| 0 <= q < i && rule_active(#[trigger] c.rules@[q], now),
        decreases c.rules@.len() - i,
    {
        if c.rules[i].active(now) {
            any = true;
        }
        i = i + 1;
    }
    if !any {
        return Err("Choose background apps once in Settings. No games or game files need to be selected.".to_string());
    }
    let ghost rs = c.rules@;
    let mut actions: Vec<ApprovedAction> = Vec::new();
    let mut i: usize = 0;
    proof {
        assert(rs.take(0) =~= Seq::<Rule>::empty());
    }
    while i < c.rules.len()
        invariant
            rs == c.rules@,
            i <= rs.len(),
            actions@ == collected(rs.take(i as int), rows@, *caller, protected@, now),
            actions@.len() <= MAX_ACTIONS,
        decreases rs.len() - i,
    {
        let rule = &c.rules[i];
        proof {
            assert(rs.take(i + 1).drop_last() =~= rs.take(i as int));
            assert(rs.take(i + 1).last() == rs[i as int]);
        }
        if rule.active(now) {
            let (group, blocked) = gather_group(rows, rule, caller, protected);
            if !blocked {
                let ghost before = actions@;
                let mut g: usize = 0;
                while g < group.len()
                    invariant
                        g <= group@.len(),
                        actions@ == before + group@.take(g as int),
                    decreases group@.len() - g,
                {
                    proof {
                        assert(before + group@.take(g + 1) =~= (before + group@.take(g as int)).push(group@[g as int]));
                    }
                    actions.push(group[g].clone());
                    g = g + 1;
                }
                proof {
                    assert(group@.take(g as int) =~= group@);
                }
            } else {
                assert(actions@ =~= collected(rs.take(i + 1), rows@, *caller, protected@, now));
            }
        } else {
            assert(actions@ =~= collected(rs.take(i + 1), rows@, *caller, protected@, now));
        }
        if actions.len() > MAX_ACTIONS {
            proof {
                lemma_collected_prefix(rs, rows@, *caller, protected@, now, i + 1);
            }
            return Err("Approved apps expand beyond 32 processes. Reduce the selection in Settings; no partial cleanup was started.".to_string());
        }
        i = i + 1;
    }
    proof {
        assert(rs.take(i as int) =~= rs);
        lemma_collected_shape(rs, rows@, *caller, protected@, now);
    }
    let ghost acts = actions@;
    let mut lower = false;
    let mut k: usize = 0;
    while k < actions.len()
        invariant
            k <= actions@.len(),
            lower == exists|q: int| 0 <= q < k && (#[trigger] actions@[q]).action == ActionKind::LowerPriorities,
        decreases actions@.len() - k,
    {
        if actions[k].action == ActionKind::LowerPriorities {
            lower = true;
        }
        k = k + 1;
    }
    let (sorted, Ghost(m), Ghost(inv)) = sort_by_pid(&actions);
    let plan = Plan {
        manual_mode: true,
        game_path: String::new(),
        game: None,
        actions: sorted,
        protected_paths: copy_paths(protected),
        options: Options {
            gpu_priority: lower && experimental_gpu,
            cpu_priority: lower,
            eco_qos: lower,
            memory_priority: lower,
            launch_game: false,
            close_timeout_ms: 4000,
        },
        consent: true,
        force_consent: false,
        experimental_consent: lower && experimental_gpu,
    };
    proof {
        assert forall|q: int| 0 <= q < plan.actions@.len() implies (#[trigger] plan.actions@[q]).reopen is None
            && plan.actions@[q].action != ActionKind::ForceClose by {
            assert(plan.actions@[q] == acts[m[q]]);
        }
        lemma_manual_plan_allowed(plan);
        lemma_manual_allowed_reordered(plan.actions@, acts, m, inv, protected@);
        assert(stable_sort_by_pid(plan.actions@, acts));
    }
    match crate::policy::validate(&plan) {
        Ok(()) => Ok(plan),
        Err(e) => Err(e),
    }
}

/// The permissions that are not for the executable `p`, in order.
pub open spec fn without_path(rules: Seq<Rule>, p: Seq<char>) -> Seq<Rule>
    decreases rules.len(),
{
    if rules.len() == 0 {
        Seq::empty()
    } else {
        let w = without_path(rules.drop_last(), p);
        if rules.last().app.path@ == p {
            w
        } else {
            w.push(rules.last())
        }
    }
}

/// Replaces the permission for the executable `path`: Keep (`None`) removes it, an
/// approval takes its place at the end; permissions of other executables are kept.
pub fn set_permission(config: &mut Config, path: &str, rule: Option<Rule>)
    ensures
        final(config).schema == old(config).schema,
        final(config).rules@ == match rule {
            Some(r) => without_path(old(config).rules@, path@).push(r),
            None => without_path(old(config).rules@, path@),
        },
{
    let mut kept: Vec<Rule> = Vec::new();
    let mut i: usize = 0;
    proof {
        assert(config.rules@.take(0) =~= Seq::<Rule>::empty());
    }
    while i < config.rules.len()
        invariant
            i <= config.rules@.len(),
            config.rules@ == old(config).rules@,
            config.schema == old(config).schema,
            kept@ == without_path(config.rules@.take(i as int), path@),
        decreases config.rules@.len() - i,
    {
        proof {
            assert(config.rules@.take(i + 1).drop_last() =~= config.rules@.take(i as int));
            assert(config.rules@.take(i + 1).last() == config.rules@[i as int]);
        }
        if !crate::text::str_equal(config.rules[i].app.path.as_str(), path) {
            kept.push(config.rules[i].clone());
        }
        i = i + 1;
    }
    proof {
        assert(config.rules@.take(i as int) =~= config.rules@);
    }
    match rule {
        Some(r) => kept.push(r),
        None => {},
    }
    config.rules = kept;
}

/// After Keep, no permission for that executable remains, and every permission for
/// another executable is kept.
pub proof fn law_keep_removes_permission(rules: Seq<Rule>, p: Seq<char>)
    ensures
        forall|i: int| 0 <= i < without_path(rules, p).len() ==> (#[trigger] without_path(rules, p)[i]).app.path@ != p,
        forall|i: int| 0 <= i < rules.len() && (#[trigger] rules[i]).app.path@ != p ==> without_path(rules, p).contains(rules[i]),
    decreases rules.len(),
{
    if rules.len() > 0 {
        let r = rules.drop_last();
        law_keep_removes_permission(r, p);
        let w = without_path(r, p);
        assert forall|i: int| 0 <= i < rules.len() && (#[trigger] rules[i]).app.path@ != p implies without_path(rules, p).contains(rules[i]) by {
            if i < rules.len() - 1 {
                assert(r[i] == rules[i]);
                let k = choose|k: int| 0 <= k < w.len() && w[k] == r[i];
                if rules.last().app.path@ != p {
                    assert(w.push(rules.last())[k] == w[k]);
                }
            } else {
                assert(w.push(rules.last())[w.len() as int] == rules[i]);
            }
        }
        if rules.last().app.path@ != p {
            assert forall|i: int| 0 <= i < without_path(rules, p).len() implies (#[trigger] without_path(rules, p)[i]).app.path@ != p by {
                if i < w.len() {
                    assert(w.push(rules.last())[i] == w[i]);
                }
            }
        }
    }
}

/// A granted permission is in force from its grant time for exactly thirty days; before
/// the grant (a clock set back) or after expiry it is not.
pub proof fn law_approval_window(r: Rule, now: u64, t: u64)
    requires
        r.granted_unix == now,
        r.expires_unix == now + APPROVAL_SECONDS,
    ensures
        rule_active(r, t) <==> now <= t < now + APPROVAL_SECONDS,
{
}

/// The action is for a running process that permission `r` covers, and closes exactly when
/// the permission is Close and lowers exactly when it is ReduceLoad.
pub open spec fn keeps_permission_action(a: ApprovedAction, r: Rule, rows: Seq<ProcessRow>, caller: Identity) -> bool {
    &&& exists|k: int| 0 <= k < rows.len() && (#[trigger] rows[k]).identity == a.target && in_group(rows[k], r, caller)
    &&& (a.action == ActionKind::Close <==> r.action == RuleAction::Close)
    &&& (a.action == ActionKind::LowerPriorities <==> r.action == RuleAction::ReduceLoad)
}

/// The action comes from one of the permissions in force, with that permission's action.
pub open spec fn from_some_permission(a: ApprovedAction, rules: Seq<Rule>, rows: Seq<ProcessRow>, caller: Identity, now: u64) -> bool {
    exists|q: int| 0 <= q < rules.len() && rule_active(rules[q], now) && #[trigger] keeps_permission_action(a, rules[q], rows, caller)
}

proof fn lemma_group_keeps_action(rows: Seq<ProcessRow>, full: Seq<ProcessRow>, r: Rule, caller: Identity)
    requires
        rows.len() <= full.len(),
        forall|k: int| 0 <= k < rows.len() ==> rows[k] == full[k],
    ensures
        forall|i: int|
            0 <= i < group_actions(rows, r, caller).len() ==> keeps_permission_action(
                #[trigger] group_actions(rows, r, caller)[i],
                r,
                full,
                caller,
            ),
    decreases rows.len(),
{
    if rows.len() > 0 {
        let front = rows.drop_last();
        lemma_group_keeps_action(front, full, r, caller);
        let k = rows.len() - 1;
        assert(rows.last() == full[k]);
        let g = group_actions(front, r, caller);
        let all = group_actions(rows, r, caller);
        assert forall|i: int| 0 <= i < all.len() implies keeps_permission_action(#[trigger] all[i], r, full, caller) by {
            if i < g.len() {
                assert(all[i] == g[i]);
            } else {
                assert(all[i] == action_for(rows.last(), r));
                assert(full[k].identity == all[i].target);
            }
        }
    }
}

proof fn lemma_collected_keeps_action(
    rules: Seq<Rule>,
    all: Seq<Rule>,
    rows: Seq<ProcessRow>,
    caller: Identity,
    protected: Seq<String>,
    now: u64,
)
    requires
        rules.len() <= all.len(),
        forall|k: int| 0 <= k < rules.len() ==> rules[k] == all[k],
    ensures
        forall|i: int|
            0 <= i < collected(rules, rows, caller, protected, now).len() ==> from_some_permission(
                #[trigger] collected(rules, rows, caller, protected, now)[i],
                all,
                rows,
                caller,
                now,
            ),
    decreases rules.len(),
{
    if rules.len() > 0 {
        let front = rules.drop_last();
        lemma_collected_keeps_action(front, all, rows, caller, protected, now);
        let before = collected(front, rows, caller, protected, now);
        let here = rule_actions(rules.last(), rows, caller, protected, now);
        let q = rules.len() - 1;
        assert(rules.last() == all[q]);
        lemma_group_keeps_action(rows, rows, rules.last(), caller);
        assert forall|i: int| 0 <= i < (before + here).len() implies from_some_permission(
            #[trigger] (before + here)[i],
            all,
            rows,
            caller,
            now,
        ) by {
            if i >= before.len() {
                assert((before + here)[i] == here[i - before.len()]);
                assert(keeps_permission_action(here[i - before.len()], all[q], rows, caller));
            } else {
                assert((before + here)[i] == before[i]);
            }
        }
    }
}

/// A Game Mode plan keeps each permission's action: every action is for a running
/// process that a permission in force covers, and closes exactly when that permission is
/// Close and lowers exactly when it is ReduceLoad.
pub proof fn law_manual_plan_keeps_permission_actions(
    p: Plan,
    c: Config,
    rows: Seq<ProcessRow>,
    caller: Identity,
    protected: Seq<String>,
    now: u64,
    experimental_gpu: bool,
)
    requires
        manual_plan_result(p, c, rows, caller, protected, now, experimental_gpu),
    ensures
        forall|i: int| 0 <= i < p.actions@.len() ==> from_some_permission(#[trigger] p.actions@[i], c.rules@, rows, caller, now),
{
    let src = collected(c.rules@, rows, caller, protected, now);
    let m = choose|m: Seq<int>| #[trigger] crate::sorting::stably_sorted_from(p.actions@, src, m);
    lemma_collected_keeps_action(c.rules@, c.rules@, rows, caller, protected, now);
    assert forall|i: int| 0 <= i < p.actions@.len() implies from_some_permission(#[trigger] p.actions@[i], c.rules@, rows, caller, now) by {
        assert(p.actions@[i] == src[m[i]]);
        assert(from_some_permission(src[m[i]], c.rules@, rows, caller, now));
    }
}

proof fn lemma_group_has_member(rows: Seq<ProcessRow>, r: Rule, caller: Identity, k: int)
    requires
        0 <= k < rows.len(),
        in_group(rows[k], r, caller),
    ensures
        exists|j: int| 0 <= j < group_actions(rows, r, caller).len() && (#[trigger] group_actions(rows, r, caller)[j]).target
            == rows[k].identity,
    decreases rows.len(),
{
    let front = rows.drop_last();
    if k < rows.len() - 1 {
        assert(front[k] == rows[k]);
        lemma_group_has_member(front, r, caller, k);
        let j = choose|j: int| 0 <= j < group_actions(front, r, caller).len() && (#[trigger] group_actions(front, r, caller)[j]).target
            == front[k].identity;
        assert(group_actions(rows, r, caller)[j] == group_actions(front, r, caller)[j]);
    } else {
        let j = group_actions(front, r, caller).len() as int;
        assert(group_actions(rows, r, caller)[j] == action_for(rows.last(), r));
    }
}

proof fn lemma_collected_has(
    rules: Seq<Rule>,
    rows: Seq<ProcessRow>,
    caller: Identity,
    protected: Seq<String>,
    now: u64,
    q: int,
    j: int,
)
    requires
        0 <= q < rules.len(),
        0 <= j < rule_actions(rules[q], rows, caller, protected, now).len(),
    ensures
        exists|i: int| 0 <= i < collected(rules, rows, caller, protected, now).len() && #[trigger] collected(
            rules,
            rows,
            caller,
            protected,
            now,
        )[i] == rule_actions(rules[q], rows, caller, protected, now)[j],
    decreases rules.len(),
{
    let front = rules.drop_last();
    let before = collected(front, rows, caller, protected, now);
    let here = rule_actions(rules.last(), rows, caller, protected, now);
    assert(collected(rules, rows, caller, protected, now) == before + here);
    if q < rules.len() - 1 {
        assert(front[q] == rules[q]);
        lemma_collected_has(front, rows, caller, protected, now, q, j);
        let i = choose|i: int| 0 <= i < before.len() && #[trigger] before[i] == rule_actions(front[q], rows, caller, protected, now)[j];
        assert((before + here)[i] == before[i]);
    } else {
        let i = before.len() + j;
        assert((before + here)[i] == here[j]);
    }
}

/// A Game Mode plan leaves out no covered process: every running process that a
/// permission in force covers, when that permission is not set aside, gets an action.
pub proof fn law_manual_plan_covers_permissions(
    p: Plan,
    c: Config,
    rows: Seq<ProcessRow>,
    caller: Identity,
    protected: Seq<String>,
    now: u64,
    experimental_gpu: bool,
    q: int,
    k: int,
)
    requires
        manual_plan_result(p, c, rows, caller, protected, now, experimental_gpu),
        0 <= q < c.rules@.len(),
        rule_active(c.rules@[q], now),
        !group_blocked(rows, c.rules@[q], caller, protected),
        0 <= k < rows.len(),
        in_group(rows[k], c.rules@[q], caller),
    ensures
        exists|i: int| 0 <= i < p.actions@.len() && (#[trigger] p.actions@[i]).target == rows[k].identity,
{
    let src = collected(c.rules@, rows, caller, protected, now);
    let r = c.rules@[q];
    lemma_group_has_member(rows, r, caller, k);
    let j = choose|j: int| 0 <= j < group_actions(rows, r, caller).len() && (#[trigger] group_actions(rows, r, caller)[j]).target
        == rows[k].identity;
    lemma_collected_has(c.rules@, rows, caller, protected, now, q, j);
    let g = choose|g: int| 0 <= g < src.len() && #[trigger] src[g] == rule_actions(r, rows, caller, protected, now)[j];
    let m = choose|m: Seq<int>| #[trigger] crate::sorting::stably_sorted_from(p.actions@, src, m);
    crate::sorting::lemma_sorted_covers(p.actions@, src, m, g);
    let i = choose|i: int| 0 <= i < p.actions@.len() && m[i] == g && #[trigger] p.actions@[i] == src[g];
    assert(p.actions@[i].target == rows[k].identity);
}

/// A Game Mode plan lowers CPU, EcoQoS and memory priorities exactly when it lowers some
/// process, and GPU scheduling only when that experimental option was asked for too; it
/// never launches a game or asks for force.
pub proof fn law_manual_options_follow_actions(
    p: Plan,
    c: Config,
    rows: Seq<ProcessRow>,
    caller: Identity,
    protected: Seq<String>,
    now: u64,
    experimental_gpu: bool,
)
    requires
        manual_plan_result(p, c, rows, caller, protected, now, experimental_gpu),
    ensures
        p.options.cpu_priority <==> exists|i: int|
            0 <= i < p.actions@.len() && (#[trigger] p.actions@[i]).action == ActionKind::LowerPriorities,
        p.options.eco_qos == p.options.cpu_priority,
        p.options.memory_priority == p.options.cpu_priority,
        p.options.gpu_priority <==> p.options.cpu_priority && experimental_gpu,
        !p.options.launch_game,
        !p.force_consent,
{
    let src = collected(c.rules@, rows, caller, protected, now);
    let m = choose|m: Seq<int>| #[trigger] crate::sorting::stably_sorted_from(p.actions@, src, m);
    if has_lowering(p.actions@) {
        let i = choose|i: int| 0 <= i < p.actions@.len() && (#[trigger] p.actions@[i]).action == ActionKind::LowerPriorities;
        assert(p.actions@[i] == src[m[i]]);
        assert(src[m[i]].action == ActionKind::LowerPriorities);
        assert(has_lowering(src));
    }
    if has_lowering(src) {
        let g = choose|g: int| 0 <= g < src.len() && (#[trigger] src[g]).action == ActionKind::LowerPriorities;
        crate::sorting::lemma_sorted_covers(p.actions@, src, m, g);
        let i = choose|i: int| 0 <= i < p.actions@.len() && m[i] == g && #[trigger] p.actions@[i] == src[g];
        assert(has_lowering(p.actions@));
    }
}

/// A Game Mode plan lists its actions by increasing process id.
pub proof fn law_manual_plan_sorted_by_pid(
    p: Plan,
    c: Config,
    rows: Seq<ProcessRow>,
    caller: Identity,
    protected: Seq<String>,
    now: u64,
    experimental_gpu: bool,
)
    requires
        manual_plan_result(p, c, rows, caller, protected, now, experimental_gpu),
    ensures
        forall|i: int, j: int| 0 <= i < j < p.actions@.len() ==> (#[trigger] p.actions@[i]).target.pid <= (#[trigger] p.actions@[j]).target.pid,
{
    let src = collected(c.rules@, rows, caller, protected, now);
    let m = choose|m: Seq<int>| #[trigger] crate::sorting::stably_sorted_from(p.actions@, src, m);
}

/// The action comes from a permission in force that is not set aside.
pub open spec fn from_open_permission(
    a: ApprovedAction,
    rules: Seq<Rule>,
    rows: Seq<ProcessRow>,
    caller: Identity,
    protected: Seq<String>,
    now: u64,
) -> bool {
    exists|q: int|
        0 <= q < rules.len() && !group_blocked(rows, rules[q], caller, protected) && #[trigger] keeps_permission_action(
            a,
            rules[q],
            rows,
            caller,
        )
}

proof fn lemma_collected_open(
    rules: Seq<Rule>,
    all: Seq<Rule>,
    rows: Seq<ProcessRow>,
    caller: Identity,
    protected: Seq<String>,
    now: u64,
)
    requires
        rules.len() <= all.len(),
        forall|k: int| 0 <= k < rules.len() ==> rules[k] == all[k],
    ensures
        forall|i: int|
            0 <= i < collected(rules, rows, caller, protected, now).len() ==> from_open_permission(
                #[trigger] collected(rules, rows, caller, protected, now)[i],
                all,
                rows,
                caller,
                protected,
                now,
            ),
    decreases rules.len(),
{
    if rules.len() > 0 {
        let front = rules.drop_last();
        lemma_collected_open(front, all, rows, caller, protected, now);
        let before = collected(front, rows, caller, protected, now);
        let here = rule_actions(rules.last(), rows, caller, protected, now);
        let q = rules.len() - 1;
        assert(rules.last() == all[q]);
        lemma_group_keeps_action(rows, rows, rules.last(), caller);
        assert forall|i: int| 0 <= i < (before + here).len() implies from_open_permission(
            #[trigger] (before + here)[i],
            all,
            rows,
            caller,
            protected,
            now,
        ) by {
            if i >= before.len() {
                assert((before + here)[i] == here[i - before.len()]);
                assert(keeps_permission_action(here[i - before.len()], all[q], rows, caller));
            } else {
                assert((before + here)[i] == before[i]);
            }
        }
    }
}

/// A Game Mode plan never touches a protected process or the caller: no action is for a
/// process that any snapshot row marks protected, and none is for the caller's process id.
pub proof fn law_manual_plan_spares_protected(
    p: Plan,
    c: Config,
    rows: Seq<ProcessRow>,
    caller: Identity,
    protected: Seq<String>,
    now: u64,
    experimental_gpu: bool,
)
    requires
        manual_plan_result(p, c, rows, caller, protected, now, experimental_gpu),
    ensures
        forall|i: int, k: int|
            0 <= i < p.actions@.len() && 0 <= k < rows.len() && (#[trigger] rows[k]).identity == (
            #[trigger] p.actions@[i]).target ==> rows[k].protected_reason is None && rows[k].identity.pid != caller.pid,
{
    let src = collected(c.rules@, rows, caller, protected, now);
    let m = choose|m: Seq<int>| #[trigger] crate::sorting::stably_sorted_from(p.actions@, src, m);
    lemma_collected_open(c.rules@, c.rules@, rows, caller, protected, now);
    assert forall|i: int, k: int|
        0 <= i < p.actions@.len() && 0 <= k < rows.len() && (#[trigger] rows[k]).identity == (
        #[trigger] p.actions@[i]).target implies rows[k].protected_reason is None && rows[k].identity.pid != caller.pid by {
        assert(p.actions@[i] == src[m[i]]);
        assert(from_open_permission(src[m[i]], c.rules@, rows, caller, protected, now));
        let q = choose|q: int|
            0 <= q < c.rules@.len() && !group_blocked(rows, c.rules@[q], caller, protected) && #[trigger] keeps_permission_action(
                src[m[i]],
                c.rules@[q],
                rows,
                caller,
            );
        let r = c.rules@[q];
        let k2 = choose|k2: int| 0 <= k2 < rows.len() && (#[trigger] rows[k2]).identity == src[m[i]].target && in_group(rows[k2], r, caller);
        assert(in_group(rows[k], r, caller));
    }
}

} // verus!
