//! Structural validation of local recovery records, not a tamper-proof log.
//! Native identity/ownership checks still run immediately before each OS operation.
use crate::applications::{same_app, same_user_session, same_user_session_spec};
use crate::model::{
    background_of, change_resolved, property_of, reopen_resolved, valid_value, ActionKind,
    AppResult, Change, CloseRecord, CloseState, Options, Plan, Property, ReopenRecord,
    ReopenState, Session, Stage, MAX_EVENTS, SCHEMA_VERSION,
};
use crate::policy::{
    complete_identity, complete_identity_spec, normalized, plan_allowed, same_path,
    same_process, same_process_spec, validate,
};
use crate::text::chars_of;
use vstd::prelude::*;

verus! {

/// Bounds on the recorded evidence of one session.
pub const MAX_CHANGES: usize = 128;
pub const MAX_CLOSED: usize = 32;
pub const MAX_REOPENED: usize = 32;
pub const MAX_ID_CHARS: usize = 128;

/// A close whose outcome is not known: recorded but unconfirmed, or requested and pending.
pub open spec fn uncertain_close_spec(state: CloseState) -> bool {
    state == CloseState::IntentRecorded || state == CloseState::RequestedPending
}

pub fn uncertain_close(state: &CloseState) -> (r: bool)
    ensures
        r == uncertain_close_spec(*state),
{
    match state {
        CloseState::IntentRecorded | CloseState::RequestedPending => true,
        _ => false,
    }
}

pub open spec fn id_char(c: char) -> bool {
    ('a' <= c <= 'z') || ('A' <= c <= 'Z') || ('0' <= c <= '9') || c == '-' || c == '_'
}

/// Record identifiers: 1 to 128 ASCII letters, digits, `-` or `_`.
pub open spec fn valid_record_id(id: Seq<char>) -> bool {
    &&& 0 < id.len() <= MAX_ID_CHARS
    &&& forall|i: int| 0 <= i < id.len() ==> id_char(#[trigger] id[i])
}

/// The schemas this build reads: the current one, and older ones without the
/// capabilities they predate.
pub open spec fn schema_allowed(s: Session) -> bool {
    &&& (s.schema == SCHEMA_VERSION || s.schema == 2 || s.schema == 3)
    &&& !(s.schema < 4 && s.plan.manual_mode)
    &&& !(s.schema == 2 && ((exists|i: int|
        0 <= i < s.plan.actions@.len() && (#[trigger] s.plan.actions@[i]).reopen is Some)
        || s.reopened@.len() > 0))
}

/// Whether a plan enables lowering of a property.
pub open spec fn property_enabled(o: Options, p: Property) -> bool {
    match p {
        Property::GpuPriority => o.gpu_priority,
        Property::CpuPriority => o.cpu_priority,
        Property::EcoQos => o.eco_qos,
        Property::MemoryPriority => o.memory_priority,
    }
}

/// A settings change recorded for an approved lowering of an enabled property, with
/// valid values where the applied one is the lowered original.
pub open spec fn change_allowed(p: Plan, c: Change) -> bool {
    &&& exists|i: int|
        0 <= i < p.actions@.len() && same_process_spec((#[trigger] p.actions@[i]).target, c.target)
            && p.actions@[i].action == ActionKind::LowerPriorities
    &&& valid_value(c.before)
    &&& valid_value(c.applied)
    &&& c.before != c.applied
    &&& background_of(c.before) == c.applied
    &&& property_enabled(p.options, property_of(c.before))
}

/// A close recorded for an approved close with the approved force permission.
pub open spec fn close_allowed(p: Plan, c: CloseRecord) -> bool {
    &&& exists|i: int|
        0 <= i < p.actions@.len() && same_process_spec((#[trigger] p.actions@[i]).target, c.target)
            && (p.actions@[i].action == ActionKind::Close || p.actions@[i].action
            == ActionKind::ForceClose) && ((p.actions@[i].action == ActionKind::ForceClose)
            == c.force_allowed)
    &&& c.state == CloseState::Terminated ==> c.force_allowed
}

/// Reopen states that claim a launch was or may have been attempted.
pub open spec fn launch_claimed(state: ReopenState) -> bool {
    state == ReopenState::IntentRecorded || state == ReopenState::Started || state
        == ReopenState::Indeterminate
}

/// This session verified a graceful exit of the target.
pub open spec fn gracefully_closed(s: Session, target: crate::model::Identity) -> bool {
    exists|k: int|
        0 <= k < s.closed@.len() && same_process_spec((#[trigger] s.closed@[k]).target, target)
            && s.closed@[k].state == CloseState::ClosedGracefully
}

/// A replacement process: a new lifetime of the same executable for the same user.
pub open spec fn replacement_allowed(child: crate::model::Identity, target: crate::model::Identity) -> bool {
    &&& complete_identity_spec(child)
    &&& !same_process_spec(child, target)
    &&& complete_identity_spec(target)
    &&& same_app(child, target)
    &&& same_user_session_spec(child, target)
}

/// A reopen record for an approved reopening, based on this session's verified closure.
pub open spec fn reopen_allowed(s: Session, r: ReopenRecord) -> bool {
    &&& exists|i: int|
        0 <= i < s.plan.actions@.len() && (#[trigger] s.plan.actions@[i]).reopen is Some
            && same_process_spec(s.plan.actions@[i].target, r.target)
    &&& launch_claimed(r.state) ==> gracefully_closed(s, r.target)
    &&& (r.state == ReopenState::Started) == (r.child is Some)
    &&& r.child matches Some(ch) ==> replacement_allowed(ch, r.target)
}

/// A completed session accounts for every approved reopening after a verified closure.
pub open spec fn reopen_outcomes_present(s: Session) -> bool {
    forall|i: int|
        0 <= i < s.plan.actions@.len() && (#[trigger] s.plan.actions@[i]).reopen is Some
            && gracefully_closed(s, s.plan.actions@[i].target) ==> exists|k: int|
            0 <= k < s.reopened@.len() && same_process_spec(
                (#[trigger] s.reopened@[k]).target,
                s.plan.actions@[i].target,
            )
}

/// Nothing left open: every change resolved, no uncertain close, every reopening resolved.
pub open spec fn all_resolved(s: Session) -> bool {
    &&& forall|i: int| 0 <= i < s.changes@.len() ==> change_resolved(#[trigger] s.changes@[i].state)
    &&& forall|i: int| 0 <= i < s.closed@.len() ==> !uncertain_close_spec(#[trigger] s.closed@[i].state)
    &&& forall|i: int| 0 <= i < s.reopened@.len() ==> reopen_resolved(#[trigger] s.reopened@[i].state)
}

/// A structurally valid recovery record.
pub open spec fn record_valid(s: Session) -> bool {
    &&& schema_allowed(s)
    &&& valid_record_id(s.id@)
    &&& plan_allowed(s.plan)
    &&& s.changes@.len() <= MAX_CHANGES
    &&& s.closed@.len() <= MAX_CLOSED
    &&& s.events@.len() <= MAX_EVENTS
    &&& s.reopened@.len() <= MAX_REOPENED
    &&& s.stage == Stage::Pending ==> s.changes@.len() == 0 && s.closed@.len() == 0
        && s.reopened@.len() == 0
    &&& s.game matches Some(g) ==> (s.plan.game matches Some(pg) && same_process_spec(pg, g))
    &&& forall|i: int| 0 <= i < s.changes@.len() ==> change_allowed(s.plan, #[trigger] s.changes@[i])
    &&& forall|i: int, j: int|
        0 <= i < j < s.changes@.len() ==> !((#[trigger] s.changes@[i]).target.pid
            == (#[trigger] s.changes@[j]).target.pid && property_of(s.changes@[i].before)
            == property_of(s.changes@[j].before))
    &&& forall|i: int| 0 <= i < s.closed@.len() ==> close_allowed(s.plan, #[trigger] s.closed@[i])
    &&& forall|i: int, j: int|
        0 <= i < j < s.closed@.len() ==> (#[trigger] s.closed@[i]).target.pid
            != (#[trigger] s.closed@[j]).target.pid
    &&& forall|i: int| 0 <= i < s.reopened@.len() ==> reopen_allowed(s, #[trigger] s.reopened@[i])
    &&& forall|i: int, j: int|
        0 <= i < j < s.reopened@.len() ==> normalized((#[trigger] s.reopened@[i]).target.path@)
            != normalized((#[trigger] s.reopened@[j]).target.path@)
    &&& s.stage == Stage::Restored ==> reopen_outcomes_present(s) && all_resolved(s)
}

fn schema_check(s: &Session) -> (r: bool)
    ensures
        r == schema_allowed(*s),
{
    if s.schema != SCHEMA_VERSION && s.schema != 2 && s.schema != 3 {
        return false;
    }
    if s.schema < 4 && s.plan.manual_mode {
        return false;
    }
    if s.schema == 2 {
        if s.reopened.len() > 0 {
            return false;
        }
        let mut i: usize = 0;
        while i < s.plan.actions.len()
            invariant
                s.schema == 2,
                i <= s.plan.actions@.len(),
                forall|k: int| 0 <= k < i ==> (#[trigger] s.plan.actions@[k]).reopen is None,
            decreases s.plan.actions@.len() - i,
        {
            if s.plan.actions[i].reopen.is_some() {
                assert((s.plan.actions@[i as int]).reopen is Some);
                return false;
            }
            i = i + 1;
        }
    }
    true
}

fn id_check(id: &String) -> (r: bool)
    ensures
        r == valid_record_id(id@),
{
    let cs = chars_of(id.as_str());
    if cs.len() == 0 || cs.len() > MAX_ID_CHARS {
        return false;
    }
    let mut i: usize = 0;
    while i < cs.len()
        invariant
            cs@ == id@,
            i <= cs@.len(),
            forall|k: int| 0 <= k < i ==> id_char(#[trigger] cs@[k]),
        decreases cs@.len() - i,
    {
        let c = cs[i];
        if !(('a' <= c && c <= 'z') || ('A' <= c && c <= 'Z') || ('0' <= c && c <= '9') || c == '-'
            || c == '_') {
            return false;
        }
        i = i + 1;
    }
    true
}

fn enabled(o: &Options, p: Property) -> (r: bool)
    ensures
        r == property_enabled(*o, p),
{
    match p {
        Property::GpuPriority => o.gpu_priority,
        Property::CpuPriority => o.cpu_priority,
        Property::EcoQos => o.eco_qos,
        Property::MemoryPriority => o.memory_priority,
    }
}

fn close_check(p: &Plan, c: &CloseRecord) -> (r: bool)
    ensures
        r == close_allowed(*p, *c),
{
    let mut found = false;
    let mut i: usize = 0;
    while i < p.actions.len()
        invariant
            i <= p.actions@.len(),
            found == exists|k: int|
                0 <= k < i && same_process_spec((#[trigger] p.actions@[k]).target, c.target)
                    && (p.actions@[k].action == ActionKind::Close || p.actions@[k].action
                    == ActionKind::ForceClose) && ((p.actions@[k].action == ActionKind::ForceClose)
                    == c.force_allowed),
        decreases p.actions@.len() - i,
    {
        let a = &p.actions[i];
        if same_process(&a.target, &c.target) && (a.action == ActionKind::Close || a.action
            == ActionKind::ForceClose) && ((a.action == ActionKind::ForceClose) == c.force_allowed) {
            found = true;
        }
        i = i + 1;
    }
    found && (c.state != CloseState::Terminated || c.force_allowed)
}

pub fn graceful_check(s: &Session, target: &crate::model::Identity) -> (r: bool)
    ensures
        r == gracefully_closed(*s, *target),
{
    let mut k: usize = 0;
    while k < s.closed.len()
        invariant
            k <= s.closed@.len(),
            forall|m: int|
                0 <= m < k ==> !(same_process_spec((#[trigger] s.closed@[m]).target, *target)
                    && s.closed@[m].state == CloseState::ClosedGracefully),
        decreases s.closed@.len() - k,
    {
        if same_process(&s.closed[k].target, target) && s.closed[k].state == CloseState::ClosedGracefully {
            return true;
        }
        k = k + 1;
    }
    false
}

pub fn replacement_check(child: &crate::model::Identity, target: &crate::model::Identity) -> (r: bool)
    ensures
        r == replacement_allowed(*child, *target),
{
    reveal(crate::applications::key_path);
    if !complete_identity(child) || same_process(child, target) || !complete_identity(target) {
        return false;
    }
    let files = match (&child.provenance, &target.provenance) {
        (Some(a), Some(b)) => a.image_file_id == b.image_file_id,
        _ => false,
    };
    files && same_path(child.path.as_str(), target.path.as_str()) && same_user_session(child, target)
}

fn outcomes_check(s: &Session) -> (r: bool)
    ensures
        r == reopen_outcomes_present(*s),
{
    let mut i: usize = 0;
    while i < s.plan.actions.len()
        invariant
            i <= s.plan.actions@.len(),
            forall|m: int|
                0 <= m < i && (#[trigger] s.plan.actions@[m]).reopen is Some && gracefully_closed(
                    *s,
                    s.plan.actions@[m].target,
                ) ==> exists|k: int|
                    0 <= k < s.reopened@.len() && same_process_spec(
                        (#[trigger] s.reopened@[k]).target,
                        s.plan.actions@[m].target,
                    ),
        decreases s.plan.actions@.len() - i,
    {
        let a = &s.plan.actions[i];
        if a.reopen.is_some() && graceful_check(s, &a.target) {
            let mut k: usize = 0;
            let mut seen = false;
            while k < s.reopened.len()
                invariant
                    k <= s.reopened@.len(),
                    seen == exists|m: int|
                        0 <= m < k && same_process_spec((#[trigger] s.reopened@[m]).target, a.target),
                decreases s.reopened@.len() - k,
            {
                if same_process(&s.reopened[k].target, &a.target) {
                    seen = true;
                }
                k = k + 1;
            }
            if !seen {
                return false;
            }
        }
        i = i + 1;
    }
    true
}

pub fn resolved_check(s: &Session) -> (r: bool)
    ensures
        r == all_resolved(*s),
{
    let mut i: usize = 0;
    while i < s.changes.len()
        invariant
            i <= s.changes@.len(),
            forall|m: int| 0 <= m < i ==> change_resolved(#[trigger] s.changes@[m].state),
        decreases s.changes@.len() - i,
    {
        if !s.changes[i].state.resolved() {
            return false;
        }
        i = i + 1;
    }
    let mut j: usize = 0;
    while j < s.closed.len()
        invariant
            j <= s.closed@.len(),
            forall|m: int| 0 <= m < j ==> !uncertain_close_spec(#[trigger] s.closed@[m].state),
        decreases s.closed@.len() - j,
    {
        if uncertain_close(&s.closed[j].state) {
            return false;
        }
        j = j + 1;
    }
    let mut k: usize = 0;
    while k < s.reopened.len()
        invariant
            k <= s.reopened@.len(),
            forall|m: int| 0 <= m < k ==> reopen_resolved(#[trigger] s.reopened@[m].state),
        decreases s.reopened@.len() - k,
    {
        if !s.reopened[k].state.resolved() {
            return false;
        }
        k = k + 1;
    }
    true
}

/// Some action of the plan names this process lifetime.
pub open spec fn in_plan(p: Plan, t: crate::model::Identity) -> bool {
    exists|i: int| 0 <= i < p.actions@.len() && same_process_spec((#[trigger] p.actions@[i]).target, t)
}

/// A change of an approved lowering whose applied value is the valid, different, lowered
/// original.
pub open spec fn change_values_ok(p: Plan, c: Change) -> bool {
    &&& exists|i: int|
        0 <= i < p.actions@.len() && same_process_spec((#[trigger] p.actions@[i]).target, c.target)
            && p.actions@[i].action == ActionKind::LowerPriorities
    &&& valid_value(c.before)
    &&& valid_value(c.applied)
    &&& c.before != c.applied
    &&& background_of(c.before) == c.applied
}

/// An earlier change records the same setting of the same process id.
pub open spec fn change_dup_before(s: Session, i: int) -> bool {
    exists|j: int|
        0 <= j < i && (#[trigger] s.changes@[j]).target.pid == s.changes@[i].target.pid && property_of(
            s.changes@[j].before,
        ) == property_of(s.changes@[i].before)
}

/// Why change `i` is refused, checked in this order, if it is.
pub open spec fn change_refusal(s: Session, i: int) -> Option<Seq<char>> {
    let c = s.changes@[i];
    if !in_plan(s.plan, c.target) {
        Some("A recovery target was not part of the approved plan."@)
    } else if !change_values_ok(s.plan, c) {
        Some("Invalid original/desired policy values in the recovery record."@)
    } else if !property_enabled(s.plan.options, property_of(c.before)) || change_dup_before(s, i) {
        Some("Duplicate or unapproved recovery property."@)
    } else {
        None
    }
}

/// An earlier close record names the same process id.
pub open spec fn close_dup_before(s: Session, i: int) -> bool {
    exists|j: int| 0 <= j < i && (#[trigger] s.closed@[j]).target.pid == s.closed@[i].target.pid
}

/// Why close record `i` is refused, checked in this order, if it is.
pub open spec fn close_refusal(s: Session, i: int) -> Option<Seq<char>> {
    let c = s.closed@[i];
    if !in_plan(s.plan, c.target) {
        Some("Close record target is outside the original approval."@)
    } else if !close_allowed(s.plan, c) || close_dup_before(s, i) {
        Some("Invalid or duplicate close record."@)
    } else {
        None
    }
}

/// An approved reopening names this process lifetime.
pub open spec fn reopen_approved(s: Session, t: crate::model::Identity) -> bool {
    exists|i: int|
        0 <= i < s.plan.actions@.len() && (#[trigger] s.plan.actions@[i]).reopen is Some && same_process_spec(
            s.plan.actions@[i].target,
            t,
        )
}

/// An earlier launch record names the same executable.
pub open spec fn reopen_dup_before(s: Session, i: int) -> bool {
    exists|j: int|
        0 <= j < i && normalized((#[trigger] s.reopened@[j]).target.path@) == normalized(s.reopened@[i].target.path@)
}

/// Why launch record `i` is refused, checked in this order, if it is.
pub open spec fn reopen_refusal(s: Session, i: int) -> Option<Seq<char>> {
    let r = s.reopened@[i];
    if !reopen_approved(s, r.target) || reopen_dup_before(s, i) {
        Some("Reopen record is duplicated or outside the original approval."@)
    } else if launch_claimed(r.state) && !gracefully_closed(s, r.target) {
        Some("Reopen intent requires this session's verified graceful closure."@)
    } else if (r.state == ReopenState::Started) != (r.child is Some) {
        Some("A started reopen requires a verified new process identity."@)
    } else if r.child matches Some(ch) && !replacement_allowed(ch, r.target) {
        Some("Invalid replacement identity in reopen record."@)
    } else {
        None
    }
}

/// The first refusal among the first `n` changes.
pub open spec fn changes_refusal(s: Session, n: int) -> Option<Seq<char>>
    decreases n,
{
    if n <= 0 {
        None
    } else {
        match changes_refusal(s, n - 1) {
            Some(m) => Some(m),
            None => change_refusal(s, n - 1),
        }
    }
}

/// The first refusal among the first `n` close records.
pub open spec fn closes_refusal(s: Session, n: int) -> Option<Seq<char>>
    decreases n,
{
    if n <= 0 {
        None
    } else {
        match closes_refusal(s, n - 1) {
            Some(m) => Some(m),
            None => close_refusal(s, n - 1),
        }
    }
}

/// The first refusal among the first `n` launch records.
pub open spec fn reopens_refusal(s: Session, n: int) -> Option<Seq<char>>
    decreases n,
{
    if n <= 0 {
        None
    } else {
        match reopens_refusal(s, n - 1) {
            Some(m) => Some(m),
            None => reopen_refusal(s, n - 1),
        }
    }
}

/// Why a recovery record is refused, checked in this order, if it is.
pub open spec fn record_refusal(s: Session) -> Option<Seq<char>> {
    if !schema_allowed(s) {
        Some("Unsupported recovery schema; preserve it for the matching build."@)
    } else if !valid_record_id(s.id@) {
        Some("Invalid recovery record ID."@)
    } else if crate::policy::plan_refusal(s.plan) is Some {
        crate::policy::plan_refusal(s.plan)
    } else if s.changes@.len() > MAX_CHANGES || s.closed@.len() > MAX_CLOSED || s.events@.len() > MAX_EVENTS
        || s.reopened@.len() > MAX_REOPENED {
        Some("Recovery record exceeds its bounded action/event count."@)
    } else if s.stage == Stage::Pending && (s.changes@.len() > 0 || s.closed@.len() > 0 || s.reopened@.len() > 0) {
        Some("A pending session cannot contain previously attempted mutations."@)
    } else if s.game matches Some(g) && !(s.plan.game matches Some(pg) && same_process_spec(pg, g)) {
        Some("Runtime game differs from the approved game lifetime."@)
    } else if changes_refusal(s, s.changes@.len() as int) is Some {
        changes_refusal(s, s.changes@.len() as int)
    } else if closes_refusal(s, s.closed@.len() as int) is Some {
        closes_refusal(s, s.closed@.len() as int)
    } else if reopens_refusal(s, s.reopened@.len() as int) is Some {
        reopens_refusal(s, s.reopened@.len() as int)
    } else if s.stage == Stage::Restored && !reopen_outcomes_present(s) {
        Some("A completed session is missing an approved reopening outcome."@)
    } else if s.stage == Stage::Restored && !all_resolved(s) {
        Some("Unresolved actions cannot be labeled as fully restored."@)
    } else {
        None
    }
}

proof fn lemma_changes_kept(s: Session, k: int, n: int)
    requires
        0 <= k <= n,
        changes_refusal(s, k) is Some,
    ensures
        changes_refusal(s, n) == changes_refusal(s, k),
    decreases n - k,
{
    if k < n {
        lemma_changes_kept(s, k, n - 1);
    }
}

proof fn lemma_closes_kept(s: Session, k: int, n: int)
    requires
        0 <= k <= n,
        closes_refusal(s, k) is Some,
    ensures
        closes_refusal(s, n) == closes_refusal(s, k),
    decreases n - k,
{
    if k < n {
        lemma_closes_kept(s, k, n - 1);
    }
}

proof fn lemma_reopens_kept(s: Session, k: int, n: int)
    requires
        0 <= k <= n,
        reopens_refusal(s, k) is Some,
    ensures
        reopens_refusal(s, n) == reopens_refusal(s, k),
    decreases n - k,
{
    if k < n {
        lemma_reopens_kept(s, k, n - 1);
    }
}

proof fn lemma_changes_none(s: Session, n: int)
    requires
        0 <= n,
    ensures
        changes_refusal(s, n) is None <==> (forall|m: int| 0 <= m < n ==> #[trigger] change_refusal(s, m) is None),
    decreases n,
{
    if n > 0 {
        lemma_changes_none(s, n - 1);
    }
}

proof fn lemma_closes_none(s: Session, n: int)
    requires
        0 <= n,
    ensures
        closes_refusal(s, n) is None <==> (forall|m: int| 0 <= m < n ==> #[trigger] close_refusal(s, m) is None),
    decreases n,
{
    if n > 0 {
        lemma_closes_none(s, n - 1);
    }
}

proof fn lemma_reopens_none(s: Session, n: int)
    requires
        0 <= n,
    ensures
        reopens_refusal(s, n) is None <==> (forall|m: int| 0 <= m < n ==> #[trigger] reopen_refusal(s, m) is None),
    decreases n,
{
    if n > 0 {
        lemma_reopens_none(s, n - 1);
    }
}

/// The first refusal of a record is none exactly when the record is valid.
pub proof fn lemma_record_refusal(s: Session)
    ensures
        record_refusal(s) is None <==> record_valid(s),
{
    crate::policy::lemma_plan_refusal(s.plan);
    let nc = s.changes@.len() as int;
    let nl = s.closed@.len() as int;
    let nr = s.reopened@.len() as int;
    lemma_changes_none(s, nc);
    lemma_closes_none(s, nl);
    lemma_reopens_none(s, nr);
    let cv = (forall|i: int| 0 <= i < nc ==> change_allowed(s.plan, #[trigger] s.changes@[i])) && (forall|i: int, j: int|
        0 <= i < j < nc ==> !((#[trigger] s.changes@[i]).target.pid == (#[trigger] s.changes@[j]).target.pid
            && property_of(s.changes@[i].before) == property_of(s.changes@[j].before)));
    assert(changes_refusal(s, nc) is None <==> cv) by {
        if changes_refusal(s, nc) is None {
            assert forall|i: int| 0 <= i < nc implies change_allowed(s.plan, #[trigger] s.changes@[i]) by {
                assert(change_refusal(s, i) is None);
            }
            assert forall|i: int, j: int| 0 <= i < j < nc implies !((#[trigger] s.changes@[i]).target.pid
                == (#[trigger] s.changes@[j]).target.pid && property_of(s.changes@[i].before) == property_of(
                s.changes@[j].before,
            )) by {
                assert(change_refusal(s, j) is None);
                assert(!change_dup_before(s, j));
            }
        }
        if cv {
            assert forall|m: int| 0 <= m < nc implies #[trigger] change_refusal(s, m) is None by {
                assert(change_allowed(s.plan, s.changes@[m]));
                if change_dup_before(s, m) {
                    let j = choose|j: int|
                        0 <= j < m && (#[trigger] s.changes@[j]).target.pid == s.changes@[m].target.pid && property_of(
                            s.changes@[j].before,
                        ) == property_of(s.changes@[m].before);
                    assert(!(s.changes@[j].target.pid == s.changes@[m].target.pid && property_of(s.changes@[j].before)
                        == property_of(s.changes@[m].before)));
                }
            }
        }
    }
    let lv = (forall|i: int| 0 <= i < nl ==> close_allowed(s.plan, #[trigger] s.closed@[i])) && (forall|i: int, j: int|
        0 <= i < j < nl ==> (#[trigger] s.closed@[i]).target.pid != (#[trigger] s.closed@[j]).target.pid);
    assert(closes_refusal(s, nl) is None <==> lv) by {
        if closes_refusal(s, nl) is None {
            assert forall|i: int| 0 <= i < nl implies close_allowed(s.plan, #[trigger] s.closed@[i]) by {
                assert(close_refusal(s, i) is None);
            }
            assert forall|i: int, j: int| 0 <= i < j < nl implies (#[trigger] s.closed@[i]).target.pid
                != (#[trigger] s.closed@[j]).target.pid by {
                assert(close_refusal(s, j) is None);
                assert(!close_dup_before(s, j));
            }
        }
        if lv {
            assert forall|m: int| 0 <= m < nl implies #[trigger] close_refusal(s, m) is None by {
                assert(close_allowed(s.plan, s.closed@[m]));
                if close_dup_before(s, m) {
                    let j = choose|j: int| 0 <= j < m && (#[trigger] s.closed@[j]).target.pid == s.closed@[m].target.pid;
                    assert(s.closed@[j].target.pid != s.closed@[m].target.pid);
                }
            }
        }
    }
    let rv = (forall|i: int| 0 <= i < nr ==> reopen_allowed(s, #[trigger] s.reopened@[i])) && (forall|i: int, j: int|
        0 <= i < j < nr ==> normalized((#[trigger] s.reopened@[i]).target.path@) != normalized(
            (#[trigger] s.reopened@[j]).target.path@,
        ));
    assert(reopens_refusal(s, nr) is None <==> rv) by {
        if reopens_refusal(s, nr) is None {
            assert forall|i: int| 0 <= i < nr implies reopen_allowed(s, #[trigger] s.reopened@[i]) by {
                assert(reopen_refusal(s, i) is None);
            }
            assert forall|i: int, j: int| 0 <= i < j < nr implies normalized((#[trigger] s.reopened@[i]).target.path@)
                != normalized((#[trigger] s.reopened@[j]).target.path@) by {
                assert(reopen_refusal(s, j) is None);
                assert(!reopen_dup_before(s, j));
            }
        }
        if rv {
            assert forall|m: int| 0 <= m < nr implies #[trigger] reopen_refusal(s, m) is None by {
                assert(reopen_allowed(s, s.reopened@[m]));
                if reopen_dup_before(s, m) {
                    let j = choose|j: int|
                        0 <= j < m && normalized((#[trigger] s.reopened@[j]).target.path@) == normalized(
                            s.reopened@[m].target.path@,
                        );
                    assert(normalized(s.reopened@[j].target.path@) != normalized(s.reopened@[m].target.path@));
                }
            }
        }
    }
}

fn in_plan_check(p: &Plan, t: &crate::model::Identity) -> (r: (bool, bool))
    ensures
        r.0 == in_plan(*p, *t),
        r.1 == exists|i: int|
            0 <= i < p.actions@.len() && same_process_spec((#[trigger] p.actions@[i]).target, *t)
                && p.actions@[i].action == ActionKind::LowerPriorities,
{
    let mut any = false;
    let mut lower = false;
    let mut i: usize = 0;
    while i < p.actions.len()
        invariant
            i <= p.actions@.len(),
            any == exists|k: int| 0 <= k < i && same_process_spec((#[trigger] p.actions@[k]).target, *t),
            lower == exists|k: int|
                0 <= k < i && same_process_spec((#[trigger] p.actions@[k]).target, *t)
                    && p.actions@[k].action == ActionKind::LowerPriorities,
        decreases p.actions@.len() - i,
    {
        if same_process(&p.actions[i].target, t) {
            any = true;
            if p.actions[i].action == ActionKind::LowerPriorities {
                lower = true;
            }
        }
        i = i + 1;
    }
    (any, lower)
}

#[verifier::loop_isolation(false)]
fn changes_message(s: &Session) -> (r: Option<String>)
    ensures
        match changes_refusal(*s, s.changes@.len() as int) {
            None => r is None,
            Some(m) => r matches Some(e) && e@ == m,
        },
{
    let n = s.changes.len();
    let mut i: usize = 0;
    while i < n
        invariant
            n == s.changes@.len(),
            i <= n,
            changes_refusal(*s, i as int) is None,
        decreases n - i,
    {
        let c = &s.changes[i];
        let (any, lower) = in_plan_check(&s.plan, &c.target);
        let mut msg: Option<String> = None;
        if !any {
            msg = Some("A recovery target was not part of the approved plan.".to_string());
        } else if !(lower && c.before.valid() && c.applied.valid() && c.before != c.applied && c.before.background()
            == c.applied) {
            msg = Some("Invalid original/desired policy values in the recovery record.".to_string());
        } else {
            let mut dup = !enabled(&s.plan.options, c.before.property());
            let mut j: usize = 0;
            while j < i
                invariant
                    j <= i < n,
                    c == s.changes@[i as int],
                    dup == (!property_enabled(s.plan.options, property_of(c.before)) || exists|m: int|
                        0 <= m < j && (#[trigger] s.changes@[m]).target.pid == c.target.pid && property_of(
                            s.changes@[m].before,
                        ) == property_of(c.before)),
                decreases i - j,
            {
                if s.changes[j].target.pid == c.target.pid && s.changes[j].before.property() == c.before.property() {
                    dup = true;
                }
                j = j + 1;
            }
            if dup {
                msg = Some("Duplicate or unapproved recovery property.".to_string());
            }
        }
        if msg.is_some() {
            proof {
                lemma_changes_kept(*s, i as int + 1, n as int);
            }
            return msg;
        }
        i = i + 1;
    }
    None
}

#[verifier::loop_isolation(false)]
fn closes_message(s: &Session) -> (r: Option<String>)
    ensures
        match closes_refusal(*s, s.closed@.len() as int) {
            None => r is None,
            Some(m) => r matches Some(e) && e@ == m,
        },
{
    let n = s.closed.len();
    let mut i: usize = 0;
    while i < n
        invariant
            n == s.closed@.len(),
            i <= n,
            closes_refusal(*s, i as int) is None,
        decreases n - i,
    {
        let c = &s.closed[i];
        let (any, _) = in_plan_check(&s.plan, &c.target);
        let mut msg: Option<String> = None;
        if !any {
            msg = Some("Close record target is outside the original approval.".to_string());
        } else {
            let mut bad = !close_check(&s.plan, c);
            let mut j: usize = 0;
            while j < i
                invariant
                    j <= i < n,
                    c == s.closed@[i as int],
                    bad == (!close_allowed(s.plan, *c) || exists|m: int|
                        0 <= m < j && (#[trigger] s.closed@[m]).target.pid == c.target.pid),
                decreases i - j,
            {
                if s.closed[j].target.pid == c.target.pid {
                    bad = true;
                }
                j = j + 1;
            }
            if bad {
                msg = Some("Invalid or duplicate close record.".to_string());
            }
        }
        if msg.is_some() {
            proof {
                lemma_closes_kept(*s, i as int + 1, n as int);
            }
            return msg;
        }
        i = i + 1;
    }
    None
}

#[verifier::loop_isolation(false)]
fn reopens_message(s: &Session) -> (r: Option<String>)
    ensures
        match reopens_refusal(*s, s.reopened@.len() as int) {
            None => r is None,
            Some(m) => r matches Some(e) && e@ == m,
        },
{
    let n = s.reopened.len();
    let mut i: usize = 0;
    while i < n
        invariant
            n == s.reopened@.len(),
            i <= n,
            reopens_refusal(*s, i as int) is None,
        decreases n - i,
    {
        let r = &s.reopened[i];
        let mut approved = false;
        let mut k: usize = 0;
        while k < s.plan.actions.len()
            invariant
                k <= s.plan.actions@.len(),
                r == s.reopened@[i as int],
                approved == exists|q: int|
                    0 <= q < k && (#[trigger] s.plan.actions@[q]).reopen is Some && same_process_spec(
                        s.plan.actions@[q].target,
                        r.target,
                    ),
            decreases s.plan.actions@.len() - k,
        {
            if s.plan.actions[k].reopen.is_some() && same_process(&s.plan.actions[k].target, &r.target) {
                approved = true;
            }
            k = k + 1;
        }
        let mut dup = false;
        let mut j: usize = 0;
        while j < i
            invariant
                j <= i < n,
                r == s.reopened@[i as int],
                dup == exists|m: int|
                    0 <= m < j && normalized((#[trigger] s.reopened@[m]).target.path@) == normalized(r.target.path@),
            decreases i - j,
        {
            if same_path(s.reopened[j].target.path.as_str(), r.target.path.as_str()) {
                dup = true;
            }
            j = j + 1;
        }
        let claimed = match r.state {
            ReopenState::IntentRecorded | ReopenState::Started | ReopenState::Indeterminate => true,
            _ => false,
        };
        let mut msg: Option<String> = None;
        if !approved || dup {
            msg = Some("Reopen record is duplicated or outside the original approval.".to_string());
        } else if claimed && !graceful_check(s, &r.target) {
            msg = Some("Reopen intent requires this session's verified graceful closure.".to_string());
        } else if (r.state == ReopenState::Started) != r.child.is_some() {
            msg = Some("A started reopen requires a verified new process identity.".to_string());
        } else {
            match &r.child {
                Some(ch) => {
                    if !replacement_check(ch, &r.target) {
                        msg = Some("Invalid replacement identity in reopen record.".to_string());
                    }
                },
                None => {},
            }
        }
        if msg.is_some() {
            proof {
                lemma_reopens_kept(*s, i as int + 1, n as int);
            }
            return msg;
        }
        i = i + 1;
    }
    None
}

/// Validates a recovery record before it is stored or acted on; the first failing check
/// gives the message.
#[verifier::loop_isolation(false)]
pub fn validate_record(s: &Session) -> (r: AppResult<()>)
    ensures
        r is Ok <==> record_valid(*s),
        match record_refusal(*s) {
            None => r is Ok,
            Some(m) => r matches Err(e) && e@ == m,
        },
{
    proof {
        lemma_record_refusal(*s);
    }
    if !schema_check(s) {
        return Err("Unsupported recovery schema; preserve it for the matching build.".to_string());
    }
    if !id_check(&s.id) {
        return Err("Invalid recovery record ID.".to_string());
    }
    validate(&s.plan)?;
    if s.changes.len() > MAX_CHANGES || s.closed.len() > MAX_CLOSED || s.events.len() > MAX_EVENTS
        || s.reopened.len() > MAX_REOPENED {
        return Err("Recovery record exceeds its bounded action/event count.".to_string());
    }
    if s.stage == Stage::Pending && (s.changes.len() > 0 || s.closed.len() > 0 || s.reopened.len() > 0) {
        return Err("A pending session cannot contain previously attempted mutations.".to_string());
    }
    match &s.game {
        Some(game) => {
            let ok = match &s.plan.game {
                Some(g) => same_process(g, game),
                None => false,
            };
            if !ok {
                return Err("Runtime game differs from the approved game lifetime.".to_string());
            }
        },
        None => {},
    }
    match changes_message(s) {
        Some(m) => {
            return Err(m);
        },
        None => {},
    }
    match closes_message(s) {
        Some(m) => {
            return Err(m);
        },
        None => {},
    }
    match reopens_message(s) {
        Some(m) => {
            return Err(m);
        },
        None => {},
    }
    if s.stage == Stage::Restored && !outcomes_check(s) {
        return Err("A completed session is missing an approved reopening outcome.".to_string());
    }
    if s.stage == Stage::Restored && !resolved_check(s) {
        return Err("Unresolved actions cannot be labeled as fully restored.".to_string());
    }
    Ok(())
}

/// Two optional identities are the same record value.
pub open spec fn same_identity_option(a: Option<crate::model::Identity>, b: Option<crate::model::Identity>) -> bool {
    match (a, b) {
        (None, None) => true,
        (Some(x), Some(y)) => crate::model::identity_eq(x, y),
        _ => false,
    }
}

pub open spec fn same_approval_option(a: Option<crate::model::ReopenApproval>, b: Option<crate::model::ReopenApproval>) -> bool {
    match (a, b) {
        (None, None) => true,
        (Some(x), Some(y)) => crate::model::approval_eq(x, y),
        _ => false,
    }
}

pub open spec fn same_action(a: crate::model::ApprovedAction, b: crate::model::ApprovedAction) -> bool {
    crate::model::identity_eq(a.target, b.target) && a.action == b.action && same_approval_option(a.reopen, b.reopen)
}

/// The same approved plan, field by field and element by element.
pub open spec fn same_plan(a: Plan, b: Plan) -> bool {
    &&& a.manual_mode == b.manual_mode
    &&& a.game_path@ == b.game_path@
    &&& same_identity_option(a.game, b.game)
    &&& a.actions@.len() == b.actions@.len()
    &&& forall|i: int| 0 <= i < a.actions@.len() ==> same_action(#[trigger] a.actions@[i], b.actions@[i])
    &&& a.protected_paths@.len() == b.protected_paths@.len()
    &&& forall|i: int| 0 <= i < a.protected_paths@.len() ==> (#[trigger] a.protected_paths@[i])@ == b.protected_paths@[i]@
    &&& a.options == b.options
    &&& a.consent == b.consent
    &&& a.force_consent == b.force_consent
    &&& a.experimental_consent == b.experimental_consent
}

pub open spec fn same_change(a: Change, b: Change) -> bool {
    crate::model::identity_eq(a.target, b.target) && a.before == b.before && a.applied == b.applied && a.state == b.state
        && a.detail@ == b.detail@
}

pub open spec fn same_close(a: CloseRecord, b: CloseRecord) -> bool {
    crate::model::identity_eq(a.target, b.target) && a.force_allowed == b.force_allowed && a.state == b.state
        && a.detail@ == b.detail@
}

pub open spec fn same_reopen(a: ReopenRecord, b: ReopenRecord) -> bool {
    crate::model::identity_eq(a.target, b.target) && same_identity_option(a.child, b.child) && a.state == b.state
        && a.detail@ == b.detail@
}

/// The same session record, field by field and element by element.
pub open spec fn same_session(a: Session, b: Session) -> bool {
    &&& a.schema == b.schema
    &&& a.id@ == b.id@
    &&& a.stage == b.stage
    &&& same_plan(a.plan, b.plan)
    &&& same_identity_option(a.worker, b.worker)
    &&& same_identity_option(a.game, b.game)
    &&& a.changes@.len() == b.changes@.len()
    &&& forall|i: int| 0 <= i < a.changes@.len() ==> same_change(#[trigger] a.changes@[i], b.changes@[i])
    &&& a.closed@.len() == b.closed@.len()
    &&& forall|i: int| 0 <= i < a.closed@.len() ==> same_close(#[trigger] a.closed@[i], b.closed@[i])
    &&& a.reopened@.len() == b.reopened@.len()
    &&& forall|i: int| 0 <= i < a.reopened@.len() ==> same_reopen(#[trigger] a.reopened@[i], b.reopened@[i])
    &&& a.events@.len() == b.events@.len()
    &&& forall|i: int| 0 <= i < a.events@.len() ==> (#[trigger] a.events@[i])@ == b.events@[i]@
}

/// An update keeps the approval and all recovery evidence: same identity, schema and plan;
/// no record removed; recorded targets, originals and force permissions unchanged; settled
/// launch outcomes unchanged and an uncertain launch never turned into a retry; and a
/// finished session not changed at all.
pub open spec fn update_allowed(prev: Session, next: Session) -> bool {
    &&& prev.id@ == next.id@
    &&& prev.schema == next.schema
    &&& same_plan(prev.plan, next.plan)
    &&& next.changes@.len() >= prev.changes@.len()
    &&& next.closed@.len() >= prev.closed@.len()
    &&& next.reopened@.len() >= prev.reopened@.len()
    &&& forall|i: int| 0 <= i < prev.changes@.len() ==> {
        let o = #[trigger] prev.changes@[i];
        let n = next.changes@[i];
        crate::model::identity_eq(o.target, n.target) && o.before == n.before && o.applied == n.applied
    }
    &&& forall|i: int| 0 <= i < prev.closed@.len() ==> {
        let o = #[trigger] prev.closed@[i];
        let n = next.closed@[i];
        crate::model::identity_eq(o.target, n.target) && o.force_allowed == n.force_allowed
    }
    &&& forall|i: int| 0 <= i < prev.reopened@.len() ==> {
        let o = #[trigger] prev.reopened@[i];
        let n = next.reopened@[i];
        &&& crate::model::identity_eq(o.target, n.target)
        &&& reopen_resolved(o.state) ==> same_reopen(o, n)
        &&& o.state == ReopenState::Indeterminate ==> (n.state == ReopenState::Indeterminate || n.state
            == ReopenState::UserKept)
    }
    &&& crate::model::stage_finished(prev.stage) ==> same_session(prev, next)
}

fn identity_option_equal(a: &Option<crate::model::Identity>, b: &Option<crate::model::Identity>) -> (r: bool)
    ensures
        r == same_identity_option(*a, *b),
{
    match (a, b) {
        (None, None) => true,
        (Some(x), Some(y)) => crate::model::identity_equal(x, y),
        _ => false,
    }
}

fn action_equal(a: &crate::model::ApprovedAction, b: &crate::model::ApprovedAction) -> (r: bool)
    ensures
        r == same_action(*a, *b),
{
    let approvals = match (&a.reopen, &b.reopen) {
        (None, None) => true,
        (Some(x), Some(y)) => x == y,
        _ => false,
    };
    crate::model::identity_equal(&a.target, &b.target) && a.action == b.action && approvals
}

fn plan_equal(a: &Plan, b: &Plan) -> (r: bool)
    ensures
        r == same_plan(*a, *b),
{
    if a.manual_mode != b.manual_mode || a.game_path != b.game_path || !identity_option_equal(&a.game, &b.game)
        || a.actions.len() != b.actions.len() || a.protected_paths.len() != b.protected_paths.len()
        || a.options.gpu_priority != b.options.gpu_priority || a.options.cpu_priority != b.options.cpu_priority
        || a.options.eco_qos != b.options.eco_qos || a.options.memory_priority != b.options.memory_priority
        || a.options.launch_game != b.options.launch_game || a.options.close_timeout_ms != b.options.close_timeout_ms
        || a.consent != b.consent || a.force_consent != b.force_consent || a.experimental_consent
        != b.experimental_consent {
        return false;
    }
    let mut i: usize = 0;
    while i < a.actions.len()
        invariant
            i <= a.actions@.len(),
            a.actions@.len() == b.actions@.len(),
            forall|k: int| 0 <= k < i ==> same_action(#[trigger] a.actions@[k], b.actions@[k]),
        decreases a.actions@.len() - i,
    {
        if !action_equal(&a.actions[i], &b.actions[i]) {
            return false;
        }
        i = i + 1;
    }
    let mut i: usize = 0;
    while i < a.protected_paths.len()
        invariant
            i <= a.protected_paths@.len(),
            a.protected_paths@.len() == b.protected_paths@.len(),
            forall|k: int| 0 <= k < i ==> (#[trigger] a.protected_paths@[k])@ == b.protected_paths@[k]@,
        decreases a.protected_paths@.len() - i,
    {
        if a.protected_paths[i] != b.protected_paths[i] {
            return false;
        }
        i = i + 1;
    }
    true
}

fn reopen_equal(a: &ReopenRecord, b: &ReopenRecord) -> (r: bool)
    ensures
        r == same_reopen(*a, *b),
{
    crate::model::identity_equal(&a.target, &b.target) && identity_option_equal(&a.child, &b.child) && a.state
        == b.state && a.detail == b.detail
}

fn session_equal(a: &Session, b: &Session) -> (r: bool)
    ensures
        r == same_session(*a, *b),
{
    if a.schema != b.schema || a.id != b.id || a.stage != b.stage || !plan_equal(&a.plan, &b.plan)
        || !identity_option_equal(&a.worker, &b.worker) || !identity_option_equal(&a.game, &b.game)
        || a.changes.len() != b.changes.len() || a.closed.len() != b.closed.len() || a.reopened.len()
        != b.reopened.len() || a.events.len() != b.events.len() {
        return false;
    }
    let mut i: usize = 0;
    while i < a.changes.len()
        invariant
            i <= a.changes@.len(),
            a.changes@.len() == b.changes@.len(),
            forall|k: int| 0 <= k < i ==> same_change(#[trigger] a.changes@[k], b.changes@[k]),
        decreases a.changes@.len() - i,
    {
        let x = &a.changes[i];
        let y = &b.changes[i];
        if !crate::model::identity_equal(&x.target, &y.target) || x.before != y.before || x.applied != y.applied
            || x.state != y.state || x.detail != y.detail {
            return false;
        }
        i = i + 1;
    }
    let mut i: usize = 0;
    while i < a.closed.len()
        invariant
            i <= a.closed@.len(),
            a.closed@.len() == b.closed@.len(),
            forall|k: int| 0 <= k < i ==> same_close(#[trigger] a.closed@[k], b.closed@[k]),
        decreases a.closed@.len() - i,
    {
        let x = &a.closed[i];
        let y = &b.closed[i];
        if !crate::model::identity_equal(&x.target, &y.target) || x.force_allowed != y.force_allowed || x.state
            != y.state || x.detail != y.detail {
            return false;
        }
        i = i + 1;
    }
    let mut i: usize = 0;
    while i < a.reopened.len()
        invariant
            i <= a.reopened@.len(),
            a.reopened@.len() == b.reopened@.len(),
            forall|k: int| 0 <= k < i ==> same_reopen(#[trigger] a.reopened@[k], b.reopened@[k]),
        decreases a.reopened@.len() - i,
    {
        if !reopen_equal(&a.reopened[i], &b.reopened[i]) {
            return false;
        }
        i = i + 1;
    }
    let mut i: usize = 0;
    while i < a.events.len()
        invariant
            i <= a.events@.len(),
            a.events@.len() == b.events@.len(),
            forall|k: int| 0 <= k < i ==> (#[trigger] a.events@[k])@ == b.events@[k]@,
        decreases a.events@.len() - i,
    {
        if a.events[i] != b.events[i] {
            return false;
        }
        i = i + 1;
    }
    true
}

/// Accepts a replacement record only when both records are valid and the update keeps the
/// approval and the recovery evidence.
pub fn validate_update(previous: &Session, next: &Session) -> (r: AppResult<()>)
    ensures
        r is Ok <==> record_valid(*previous) && record_valid(*next) && update_allowed(*previous, *next),
{
    if let Err(e) = validate_record(previous) {
        return Err(e);
    }
    if let Err(e) = validate_record(next) {
        return Err(e);
    }
    if previous.id != next.id || previous.schema != next.schema || !plan_equal(&previous.plan, &next.plan) {
        return Err("The approved plan cannot be rewritten during an existing session.".to_string());
    }
    if next.changes.len() < previous.changes.len() || next.closed.len() < previous.closed.len()
        || next.reopened.len() < previous.reopened.len() {
        return Err("Recovery evidence cannot be removed by a session update.".to_string());
    }
    let mut i: usize = 0;
    while i < previous.changes.len()
        invariant
            i <= previous.changes@.len(),
            next.changes@.len() >= previous.changes@.len(),
            forall|k: int| 0 <= k < i ==> {
                let o = #[trigger] previous.changes@[k];
                let n = next.changes@[k];
                crate::model::identity_eq(o.target, n.target) && o.before == n.before && o.applied == n.applied
            },
        decreases previous.changes@.len() - i,
    {
        let o = &previous.changes[i];
        let n = &next.changes[i];
        if !crate::model::identity_equal(&o.target, &n.target) || o.before != n.before || o.applied != n.applied {
            return Err("Original process identity or policy values were rewritten.".to_string());
        }
        i = i + 1;
    }
    let mut i: usize = 0;
    while i < previous.closed.len()
        invariant
            i <= previous.closed@.len(),
            next.closed@.len() >= previous.closed@.len(),
            forall|k: int| 0 <= k < i ==> {
                let o = #[trigger] previous.closed@[k];
                let n = next.closed@[k];
                crate::model::identity_eq(o.target, n.target) && o.force_allowed == n.force_allowed
            },
        decreases previous.closed@.len() - i,
    {
        let o = &previous.closed[i];
        let n = &next.closed[i];
        if !crate::model::identity_equal(&o.target, &n.target) || o.force_allowed != n.force_allowed {
            return Err("A recorded close target or force authorization was rewritten.".to_string());
        }
        i = i + 1;
    }
    let mut i: usize = 0;
    while i < previous.reopened.len()
        invariant
            i <= previous.reopened@.len(),
            next.reopened@.len() >= previous.reopened@.len(),
            forall|k: int| 0 <= k < i ==> {
                let o = #[trigger] previous.reopened@[k];
                let n = next.reopened@[k];
                &&& crate::model::identity_eq(o.target, n.target)
                &&& reopen_resolved(o.state) ==> same_reopen(o, n)
                &&& o.state == ReopenState::Indeterminate ==> (n.state == ReopenState::Indeterminate || n.state
                    == ReopenState::UserKept)
            },
        decreases previous.reopened@.len() - i,
    {
        let o = &previous.reopened[i];
        let n = &next.reopened[i];
        if !crate::model::identity_equal(&o.target, &n.target) || (o.state.resolved() && !reopen_equal(o, n)) || (
        o.state == ReopenState::Indeterminate && n.state != ReopenState::Indeterminate && n.state
            != ReopenState::UserKept) {
            return Err("Reopen evidence cannot be rewritten or retried after an uncertain launch.".to_string());
        }
        i = i + 1;
    }
    if previous.stage.finished() && !session_equal(previous, next) {
        return Err("A finished session is read-only; start a new reviewed plan.".to_string());
    }
    Ok(())
}

/// Saving an unchanged record again is always an allowed update.
pub proof fn law_unchanged_update_allowed(s: Session)
    ensures
        update_allowed(s, s),
{
    assert(same_session(s, s));
}

/// A record that may start a new session: valid, pending, with nothing recorded yet.
pub fn validate_new_session(s: &Session) -> (r: AppResult<()>)
    ensures
        r is Ok <==> record_valid(*s) && s.stage == Stage::Pending && s.changes@.len() == 0 && s.closed@.len() == 0,
{
    if let Err(e) = validate_record(s) {
        return Err(e);
    }
    if s.stage != Stage::Pending || s.changes.len() != 0 || s.closed.len() != 0 {
        return Err("Only a pristine pending session can be created.".to_string());
    }
    Ok(())
}

/// A stored record that may be loaded: current schema and valid.
pub fn validate_stored(s: &Session) -> (r: AppResult<()>)
    ensures
        r is Ok <==> s.schema == SCHEMA_VERSION && record_valid(*s),
{
    if s.schema != SCHEMA_VERSION {
        return Err("Unsupported journal version. Preserve it for recovery with the matching version.".to_string());
    }
    validate_record(s)
}

} // verus!
