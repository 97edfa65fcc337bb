//! The decisions of the main On/Off window: what its single button does, and what it
//! says about the current session.
use crate::manual::{rule_active, Rule};
use crate::model::{CloseRecord, CloseState, Session, Stage};
use crate::text::{append, append_chars, decimal, decimal_seq, string_of};
use vstd::prelude::*;

verus! {

/// How many of the permissions are in force.
pub open spec fn count_active(rules: Seq<Rule>, now: u64) -> nat
    decreases rules.len(),
{
    if rules.len() == 0 {
        0
    } else {
        count_active(rules.drop_last(), now) + if rule_active(rules.last(), now) {
            1nat
        } else {
            0nat
        }
    }
}

/// How many recorded closes ended with the app gone.
pub open spec fn count_closed(closed: Seq<CloseRecord>) -> nat
    decreases closed.len(),
{
    if closed.len() == 0 {
        0
    } else {
        count_closed(closed.drop_last()) + if closed.last().state == CloseState::ClosedGracefully
            || closed.last().state == CloseState::Terminated {
            1nat
        } else {
            0nat
        }
    }
}

proof fn lemma_count_active_bound(rules: Seq<Rule>, now: u64)
    ensures
        count_active(rules, now) <= rules.len(),
    decreases rules.len(),
{
    if rules.len() > 0 {
        lemma_count_active_bound(rules.drop_last(), now);
    }
}

proof fn lemma_count_closed_bound(closed: Seq<CloseRecord>)
    ensures
        count_closed(closed) <= closed.len(),
    decreases closed.len(),
{
    if closed.len() > 0 {
        lemma_count_closed_bound(closed.drop_last());
    }
}

/// How many permissions are in force now.
pub fn active_rules(rules: &[Rule], now: u64) -> (r: usize)
    ensures
        r == count_active(rules@, now),
{
    let mut n: usize = 0;
    let mut i: usize = 0;
    while i < rules.len()
        invariant
            i <= rules@.len(),
            n == count_active(rules@.take(i as int), now),
        decreases rules@.len() - i,
    {
        proof {
            assert(rules@.take(i + 1).drop_last() =~= rules@.take(i as int));
            assert(rules@.take(i + 1).last() == rules@[i as int]);
            lemma_count_active_bound(rules@.take(i as int), now);
        }
        if rules[i].active(now) {
            n = n + 1;
        }
        i = i + 1;
    }
    proof {
        assert(rules@.take(i as int) =~= rules@);
    }
    n
}

fn closed_apps(closed: &[CloseRecord]) -> (r: usize)
    ensures
        r == count_closed(closed@),
{
    let mut n: usize = 0;
    let mut i: usize = 0;
    while i < closed.len()
        invariant
            i <= closed@.len(),
            n == count_closed(closed@.take(i as int)),
        decreases closed@.len() - i,
    {
        proof {
            assert(closed@.take(i + 1).drop_last() =~= closed@.take(i as int));
            assert(closed@.take(i + 1).last() == closed@[i as int]);
            lemma_count_closed_bound(closed@.take(i as int));
        }
        if closed[i].state == CloseState::ClosedGracefully || closed[i].state == CloseState::Terminated {
            n = n + 1;
        }
        i = i + 1;
    }
    proof {
        assert(closed@.take(i as int) =~= closed@);
    }
    n
}

/// What pressing the On/Off button does.
#[derive(Debug, PartialEq, Eq, Structural)]
pub enum ToggleStep {
    /// Stop preparing a session that has not started.
    CancelPreparing,
    /// Ask the running session to stop; start recovery when its worker is gone.
    Stop { recover: bool },
    /// No permission is in force: open the one-time setup instead.
    OpenSetup,
    /// Build a plan from the permissions in force.
    Prepare,
}

pub open spec fn toggle_spec(preparing: bool, active: Option<Session>, worker_alive: bool, rules: Seq<Rule>, now: u64) -> ToggleStep {
    if preparing {
        ToggleStep::CancelPreparing
    } else if active is Some {
        ToggleStep::Stop { recover: !(active->0.worker is Some && worker_alive) }
    } else if count_active(rules, now) == 0 {
        ToggleStep::OpenSetup
    } else {
        ToggleStep::Prepare
    }
}

/// What the On/Off button does now. A running session is always stopped first; a
/// session whose worker is gone is also handed to recovery, never cleared.
pub fn toggle_step(preparing: bool, active: Option<&Session>, worker_alive: bool, rules: &[Rule], now: u64) -> (r: ToggleStep)
    ensures
        r == toggle_spec(preparing, match active {
            Some(s) => Some(*s),
            None => None,
        }, worker_alive, rules@, now),
{
    if preparing {
        return ToggleStep::CancelPreparing;
    }
    match active {
        Some(s) => ToggleStep::Stop { recover: !(s.worker.is_some() && worker_alive) },
        None => if active_rules(rules, now) == 0 {
            ToggleStep::OpenSetup
        } else {
            ToggleStep::Prepare
        },
    }
}

/// The texts and button states of the main window.
#[derive(Debug)]
pub struct HomeView {
    pub title: String,
    pub toggle: String,
    pub summary: String,
    pub help: String,
    /// Settings and updates can be used only while no session runs.
    pub idle: bool,
    /// Acknowledging is offered only for a session whose recovery needs review.
    pub acknowledge: bool,
}

/// The summary of a session that is on.
pub open spec fn on_summary(s: Session) -> Seq<char> {
    if s.plan.actions@.len() == 0 {
        "No approved apps matched. Nothing was changed."@
    } else {
        decimal_seq(count_closed(s.closed@)) + " process(es) closed; "@ + decimal_seq(s.changes@.len())
            + " setting(s) recorded.\r\nYou can start or switch games normally."@
    }
}

/// The summary while no session runs.
pub open spec fn off_summary(ready: nat, disabled_startup: nat) -> Seq<char> {
    if ready == 0 && disabled_startup == 0 {
        "Settings: choose Game Mode-only or Permanent cleanup."@
    } else {
        decimal_seq(ready) + " Game Mode rule(s) ready; "@ + decimal_seq(disabled_startup) + " startup item(s) disabled."@
    }
}

/// The main window for the unfinished session, if any: recovery that needs attention
/// (also when the worker is gone) comes first, then a requested stop, then the session's
/// own stage.
pub open spec fn home_matches(
    v: HomeView,
    active: Option<Session>,
    worker_alive: bool,
    stop_requested: bool,
    rules: Seq<Rule>,
    now: u64,
    disabled_startup: nat,
) -> bool {
    match active {
        None => {
            &&& v.title@ == "Game Mode is OFF"@
            &&& v.toggle@ == "Turn ON"@
            &&& v.summary@ == off_summary(count_active(rules, now), disabled_startup)
            &&& v.help@ == "No game selection. Turn OFF when you finish."@
            &&& v.idle
            &&& !v.acknowledge
        },
        Some(s) => {
            &&& !v.idle
            &&& v.acknowledge == (s.stage == Stage::RecoveryNeeded)
            &&& v.help@ == "Closing this window leaves the session on. Reopen to turn OFF."@
            &&& if s.stage == Stage::RecoveryNeeded || (!worker_alive && s.worker is Some) {
                &&& v.title@ == "Recovery needs attention"@
                &&& v.toggle@ == "Restore settings"@
                &&& v.summary@ == "Some outcomes need review. Settings > Session details."@
            } else if s.stage == Stage::Restoring || stop_requested {
                &&& v.title@ == "Turning Game Mode OFF"@
                &&& v.toggle@ == "Restore settings"@
                &&& v.summary@ == "Restoring original settings. Closed apps are not reopened here."@
            } else if s.stage == Stage::Active {
                &&& v.title@ == "Game Mode is ON"@
                &&& v.toggle@ == "Turn OFF"@
                &&& v.summary@ == on_summary(s)
            } else {
                &&& v.title@ == "Starting Game Mode"@
                &&& v.toggle@ == "Turn OFF"@
                &&& v.summary@ == "Applying approved background-app actions..."@
            }
        },
    }
}

/// The main window's texts for the unfinished session (if any), whether its worker is
/// alive, whether a stop was requested, the permissions and how many startup entries the
/// optimizer disabled.
pub fn home_view(
    active: Option<&Session>,
    worker_alive: bool,
    stop_requested: bool,
    rules: &[Rule],
    now: u64,
    disabled_startup: usize,
) -> (v: HomeView)
    ensures
        home_matches(v, match active {
            Some(s) => Some(*s),
            None => None,
        }, worker_alive, stop_requested, rules@, now, disabled_startup as nat),
{
    match active {
        None => {
            let ready = active_rules(rules, now);
            let summary = if ready == 0 && disabled_startup == 0 {
                "Settings: choose Game Mode-only or Permanent cleanup.".to_string()
            } else {
                let mut t: Vec<char> = Vec::new();
                append_chars(&mut t, &decimal(ready as u64));
                append(&mut t, " Game Mode rule(s) ready; ");
                append_chars(&mut t, &decimal(disabled_startup as u64));
                append(&mut t, " startup item(s) disabled.");
                string_of(&t)
            };
            HomeView {
                title: "Game Mode is OFF".to_string(),
                toggle: "Turn ON".to_string(),
                summary,
                help: "No game selection. Turn OFF when you finish.".to_string(),
                idle: true,
                acknowledge: false,
            }
        },
        Some(s) => {
            let (title, toggle, summary) = if s.stage == Stage::RecoveryNeeded || (!worker_alive && s.worker.is_some()) {
                ("Recovery needs attention", "Restore settings", "Some outcomes need review. Settings > Session details.".to_string())
            } else if s.stage == Stage::Restoring || stop_requested {
                (
                    "Turning Game Mode OFF",
                    "Restore settings",
                    "Restoring original settings. Closed apps are not reopened here.".to_string(),
                )
            } else if s.stage == Stage::Active {
                let summary = if s.plan.actions.len() == 0 {
                    "No approved apps matched. Nothing was changed.".to_string()
                } else {
                    let mut t: Vec<char> = Vec::new();
                    append_chars(&mut t, &decimal(closed_apps(s.closed.as_slice()) as u64));
                    append(&mut t, " process(es) closed; ");
                    append_chars(&mut t, &decimal(s.changes.len() as u64));
                    append(&mut t, " setting(s) recorded.\r\nYou can start or switch games normally.");
                    string_of(&t)
                };
                ("Game Mode is ON", "Turn OFF", summary)
            } else {
                ("Starting Game Mode", "Turn OFF", "Applying approved background-app actions...".to_string())
            };
            HomeView {
                title: title.to_string(),
                toggle: toggle.to_string(),
                summary,
                help: "Closing this window leaves the session on. Reopen to turn OFF.".to_string(),
                idle: false,
                acknowledge: s.stage == Stage::RecoveryNeeded,
            }
        },
    }
}

} // verus!
