//! The session worker's decisions: who may run it, which game it attaches to, and how a
//! run starts, ends without changes, fails, recovers or is acknowledged.
use crate::engine::{restore, Backend};
use crate::integrity::{all_resolved, record_valid};
use crate::journal::Journal;
use crate::model::{change_resolved, reopen_resolved, AppResult, ChangeState, Identity, Plan, ProcessRow, ReopenState, Session, Stage, MAX_EVENTS};
use crate::policy::{plan_allowed, same_process, same_process_spec, validate};
use crate::text::concat;
use vstd::prelude::*;

verus! {

/// This version only ever runs with a normal, non-elevated token.
pub fn normal_token_required(elevated: bool) -> (r: AppResult<()>)
    ensures
        r is Ok <==> !elevated,
{
    if elevated {
        Err("Run Process Optimizer normally, not as administrator. This version deliberately does not operate with elevated privileges.".to_string())
    } else {
        Ok(())
    }
}

/// The first snapshot row that is the game's exact lifetime.
pub open spec fn find_game_row(rows: Seq<ProcessRow>, game: Identity, from: int) -> Option<int>
    decreases rows.len() - from,
{
    if from < 0 || from >= rows.len() {
        None
    } else if same_process_spec(rows[from].identity, game) {
        Some(from)
    } else {
        find_game_row(rows, game, from + 1)
    }
}

/// The game a run attaches to: the plan's exact running game, never a launcher substitute,
/// and never protected infrastructure.
pub open spec fn attachable(plan: Plan, rows: Seq<ProcessRow>) -> bool {
    &&& plan.game is Some
    &&& !plan.options.launch_game
    &&& match find_game_row(rows, plan.game->0, 0) {
        Some(k) => rows[k].protected_reason is None,
        None => false,
    }
}

pub fn attach_or_launch(plan: &Plan, rows: &[ProcessRow]) -> (r: AppResult<Identity>)
    ensures
        r is Ok <==> attachable(*plan, rows@),
        r matches Ok(g) ==> plan.game == Some(g),
{
    let game = match &plan.game {
        Some(g) => g,
        None => {
            return Err("Start the actual game normally, refresh, and select its exact running process.".to_string());
        },
    };
    if plan.options.launch_game {
        return Err("Automatic launcher tracking is not implemented; use an existing game process.".to_string());
    }
    let mut k: usize = 0;
    while k < rows.len()
        invariant
            k <= rows@.len(),
            plan.game == Some(*game),
            !plan.options.launch_game,
            find_game_row(rows@, *game, 0) == find_game_row(rows@, *game, k as int),
        decreases rows@.len() - k,
    {
        if same_process(&rows[k].identity, game) {
            return match &rows[k].protected_reason {
                Some(reason) => Err(concat(
                    "The selected process is protected infrastructure, not an eligible game: ",
                    reason.as_str(),
                )),
                None => Ok(game.clone()),
            };
        }
        k = k + 1;
    }
    Err("The selected game lifetime ended or changed. Refresh and select it again; no background app was changed.".to_string())
}

/// Starts a worker on a pending session whose plan is allowed: records the worker's own
/// identity and saves before anything else happens.
pub fn begin_run<J: Journal>(s: &mut Session, worker: Identity, j: &mut J) -> (r: AppResult<()>)
    ensures
        !(old(s).stage == Stage::Pending && plan_allowed(old(s).plan)) ==> r is Err && *final(s) == *old(s)
            && final(j).saved() == old(j).saved(),
        old(s).stage == Stage::Pending && plan_allowed(old(s).plan) ==> {
            &&& *final(s) == Session { worker: Some(worker), ..*old(s) }
            &&& r is Ok ==> final(j).saved() == old(j).saved().push(*final(s))
            &&& r is Err ==> final(j).saved() == old(j).saved()
        },
{
    if s.stage != Stage::Pending {
        return Err("This session is not pending; destructive actions will not be replayed.".to_string());
    }
    if let Err(e) = validate(&s.plan) {
        return Err(e);
    }
    s.worker = Some(worker);
    j.save(s)
}

/// Ends a run cancelled before any mutation: the session is finished and says so.
pub fn cancel_before_start<J: Journal>(s: &mut Session, j: &mut J) -> (r: AppResult<()>)
    ensures
        final(s).stage == Stage::Restored,
        final(s).changes == old(s).changes,
        final(s).closed == old(s).closed,
        final(s).reopened == old(s).reopened,
        final(s).plan == old(s).plan,
        final(s).game == old(s).game,
        old(s).events@.len() < MAX_EVENTS ==> final(s).events@.len() == old(s).events@.len() + 1
            && final(s).events@.last()@ == "Cancelled before any mutation."@,
        r is Ok ==> final(j).saved() == old(j).saved().push(*final(s)),
        r is Err ==> final(j).saved() == old(j).saved(),
{
    s.stage = Stage::Restored;
    s.note("Cancelled before any mutation.".to_string());
    j.save(s)
}

/// Attaches the run to its game, or ends it without any change when the game cannot be
/// attached; either way the outcome is saved before the caller goes on.
pub fn attach_game<J: Journal>(s: &mut Session, rows: &[ProcessRow], j: &mut J) -> (r: AppResult<Option<Identity>>)
    ensures
        final(s).changes == old(s).changes,
        final(s).closed == old(s).closed,
        final(s).reopened == old(s).reopened,
        final(s).plan == old(s).plan,
        attachable(old(s).plan, rows@) ==> {
            &&& final(s).game == old(s).plan.game
            &&& final(s).stage == old(s).stage
            &&& r matches Ok(g) ==> g == old(s).plan.game
        },
        !attachable(old(s).plan, rows@) ==> {
            &&& final(s).game == old(s).game
            &&& final(s).stage == Stage::Restored
            &&& r matches Ok(g) ==> g is None
        },
        r is Ok ==> final(j).saved() == old(j).saved().push(*final(s)),
        r is Err ==> final(j).saved() == old(j).saved(),
{
    match attach_or_launch(&s.plan, rows) {
        Ok(g) => {
            s.game = Some(g.clone());
            match j.save(s) {
                Ok(()) => Ok(Some(g)),
                Err(e) => Err(e),
            }
        },
        Err(e) => {
            s.note(e);
            s.stage = Stage::Restored;
            match j.save(s) {
                Ok(()) => Ok(None),
                Err(e) => Err(e),
            }
        },
    }
}

/// A run whose recovery failed is left for review, never reported as restored.
pub fn fail_run<J: Journal>(s: &mut Session, error: &str, j: &mut J)
    ensures
        final(s).stage == Stage::RecoveryNeeded,
        final(s).changes == old(s).changes,
        final(s).closed == old(s).closed,
        final(s).reopened == old(s).reopened,
        final(s).plan == old(s).plan,
        old(s).events@.len() < MAX_EVENTS ==> final(s).events@.len() == old(s).events@.len() + 1
            && final(s).events@.last()@ == "Recovery worker error: "@ + error@,
        final(j).saved() == old(j).saved() || final(j).saved() == old(j).saved().push(*final(s)),
{
    s.stage = Stage::RecoveryNeeded;
    s.note(concat("Recovery worker error: ", error));
    let _ = j.save(s);
}

/// The session as recovered by `worker`: the same record, with that worker.
pub open spec fn with_worker(s: Session, worker: Identity) -> Session {
    Session { worker: Some(worker), ..s }
}

/// Recovers an unfinished session under this worker's identity: the worker is recorded,
/// then the session is restored as `restore` does.
pub fn recover<B: Backend, J: Journal>(s: &mut Session, worker: Identity, b: &mut B, j: &mut J) -> (r: AppResult<()>)
    ensures
        r is Ok ==> (final(s).stage == Stage::Restored || final(s).stage == Stage::RecoveryNeeded)
            && (final(s).stage == Stage::Restored <==> all_resolved(*final(s))),
        !record_valid(with_worker(*old(s), worker)) ==> r is Err && *final(s) == with_worker(*old(s), worker)
            && final(b).calls() == old(b).calls() && final(j).saved() == old(j).saved(),
        final(s).worker == Some(worker),
        r is Ok ==> record_valid(*final(s)),
        final(s).plan == old(s).plan,
        final(s).id == old(s).id,
        final(s).schema == old(s).schema,
        final(s).game == old(s).game,
        final(s).closed == old(s).closed,
        crate::engine::changes_kept(*final(s), *old(s)),
        record_valid(with_worker(*old(s), worker)) ==> (r is Err <==> crate::journal::journal_log(*final(j)).1
            > crate::journal::journal_log(*old(j)).1),
        r is Ok ==> crate::journal::journal_log(*final(j)).0.len() > 0 && crate::journal::journal_log(*final(j)).0.last()
            == *final(s),
        exists|t: Seq<crate::engine::Event>|
            #[trigger] crate::engine::restore_run(
                with_worker(*old(s), worker),
                old(b).calls(),
                final(b).calls(),
                crate::journal::journal_log(*old(j)),
                crate::journal::journal_log(*final(j)),
                t,
            ) && crate::engine::restore_settled(with_worker(*old(s), worker), *final(s), crate::engine::natives(t))
                && crate::engine::reverse_visits(with_worker(*old(s), worker), crate::engine::natives(t)) && (r is Ok
                ==> crate::engine::visited_from(with_worker(*old(s), worker), crate::engine::natives(t), 0)) && (r is Ok
                ==> crate::reopen::launches_settled(
                with_worker(*old(s), worker),
                *final(s),
                crate::engine::natives(t),
                old(s).plan.actions@.len() as int,
            )),
{
    s.worker = Some(worker);
    restore(s, b, j)
}

/// Settings still unresolved are kept as they are now, by the user's explicit choice.
pub open spec fn kept_change(c: crate::model::Change, c0: crate::model::Change) -> bool {
    if change_resolved(c0.state) {
        c == c0
    } else {
        c.state == ChangeState::UserKept && c.target == c0.target && c.before == c0.before && c.applied == c0.applied
            && c.detail@ == "User explicitly chose to retain current settings instead of restoring this value."@
    }
}

/// Uncertain launches are acknowledged, never retried.
pub open spec fn kept_reopen(r: crate::model::ReopenRecord, r0: crate::model::ReopenRecord) -> bool {
    if reopen_resolved(r0.state) {
        r == r0
    } else {
        r.state == ReopenState::UserKept && r.target == r0.target && r.child == r0.child
            && r.detail@ == "User acknowledged an uncertain launch; no launch was retried."@
    }
}

/// The user accepts a recovery warning: unresolved settings and launches are marked as the
/// user's choice and the session is finished as acknowledged, which is not a restoration.
/// Only a session that needs recovery can be acknowledged.
pub fn acknowledge<J: Journal>(s: &mut Session, j: &mut J) -> (r: AppResult<()>)
    ensures
        old(s).stage != Stage::RecoveryNeeded ==> r is Err && *final(s) == *old(s) && final(j).saved() == old(j).saved(),
        old(s).stage == Stage::RecoveryNeeded ==> {
            &&& final(s).stage == Stage::UserAcknowledged
            &&& final(s).changes@.len() == old(s).changes@.len()
            &&& forall|i: int| 0 <= i < old(s).changes@.len() ==> kept_change(#[trigger] final(s).changes@[i], old(s).changes@[i])
            &&& final(s).reopened@.len() == old(s).reopened@.len()
            &&& forall|i: int| 0 <= i < old(s).reopened@.len() ==> kept_reopen(#[trigger] final(s).reopened@[i], old(s).reopened@[i])
            &&& final(s).closed == old(s).closed
            &&& final(s).plan == old(s).plan
            &&& old(s).events@.len() < MAX_EVENTS ==> final(s).events@.len() == old(s).events@.len() + 1
                && final(s).events@.last()@ == "User accepted unresolved settings. This is not a fully restored session."@
            &&& r is Ok ==> final(j).saved() == old(j).saved().push(*final(s))
            &&& r is Err ==> final(j).saved() == old(j).saved()
        },
{
    if s.stage != Stage::RecoveryNeeded {
        return Err("Only a reviewed recovery warning can be acknowledged.".to_string());
    }
    let ghost s0 = *s;
    let mut i: usize = 0;
    while i < s.changes.len()
        invariant
            i <= s.changes@.len(),
            s.changes@.len() == s0.changes@.len(),
            forall|q: int| 0 <= q < i ==> kept_change(#[trigger] s.changes@[q], s0.changes@[q]),
            forall|q: int| i <= q < s.changes@.len() ==> #[trigger] s.changes@[q] == s0.changes@[q],
            s.stage == s0.stage,
            s.reopened == s0.reopened,
            s.closed == s0.closed,
            s.plan == s0.plan,
            s.events == s0.events,
        decreases s.changes@.len() - i,
    {
        if !s.changes[i].state.resolved() {
            s.changes[i].state = ChangeState::UserKept;
            s.changes[i].detail = "User explicitly chose to retain current settings instead of restoring this value.".to_string();
        }
        i = i + 1;
    }
    let mut i: usize = 0;
    while i < s.reopened.len()
        invariant
            i <= s.reopened@.len(),
            s.reopened@.len() == s0.reopened@.len(),
            forall|q: int| 0 <= q < i ==> kept_reopen(#[trigger] s.reopened@[q], s0.reopened@[q]),
            forall|q: int| i <= q < s.reopened@.len() ==> #[trigger] s.reopened@[q] == s0.reopened@[q],
            s.changes@.len() == s0.changes@.len(),
            forall|q: int| 0 <= q < s.changes@.len() ==> kept_change(#[trigger] s.changes@[q], s0.changes@[q]),
            s.stage == s0.stage,
            s.closed == s0.closed,
            s.plan == s0.plan,
            s.events == s0.events,
        decreases s.reopened@.len() - i,
    {
        if !s.reopened[i].state.resolved() {
            s.reopened[i].state = ReopenState::UserKept;
            s.reopened[i].detail = "User acknowledged an uncertain launch; no launch was retried.".to_string();
        }
        i = i + 1;
    }
    s.note("User accepted unresolved settings. This is not a fully restored session.".to_string());
    s.stage = Stage::UserAcknowledged;
    j.save(s)
}

} // verus!
