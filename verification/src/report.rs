//! Human-readable outcomes; the stored record remains the single detailed audit source.
use crate::model::{property_of, Change, ChangeState, CloseRecord, CloseState, Property, ReopenRecord, ReopenState, Session, Stage, Value};
use crate::text::{append, append_chars, decimal, decimal_seq, signed_decimal, signed_seq};
use vstd::prelude::*;

verus! {

/// The name `{:?}` prints for a stage.
pub open spec fn stage_name(s: Stage) -> Seq<char> {
    match s {
        Stage::Pending => "Pending"@,
        Stage::Preparing => "Preparing"@,
        Stage::Active => "Active"@,
        Stage::Restoring => "Restoring"@,
        Stage::Restored => "Restored"@,
        Stage::RecoveryNeeded => "RecoveryNeeded"@,
        Stage::UserAcknowledged => "UserAcknowledged"@,
    }
}

pub(crate) fn stage_str(s: Stage) -> (r: &'static str)
    ensures
        r@ == stage_name(s),
{
    match s {
        Stage::Pending => "Pending",
        Stage::Preparing => "Preparing",
        Stage::Active => "Active",
        Stage::Restoring => "Restoring",
        Stage::Restored => "Restored",
        Stage::RecoveryNeeded => "RecoveryNeeded",
        Stage::UserAcknowledged => "UserAcknowledged",
    }
}

pub open spec fn change_state_name(s: ChangeState) -> Seq<char> {
    match s {
        ChangeState::Prepared => "Prepared"@,
        ChangeState::Applied => "Applied"@,
        ChangeState::NotApplied => "NotApplied"@,
        ChangeState::RestorePrepared => "RestorePrepared"@,
        ChangeState::Restored => "Restored"@,
        ChangeState::ProcessGone => "ProcessGone"@,
        ChangeState::Conflict => "Conflict"@,
        ChangeState::UserKept => "UserKept"@,
    }
}

fn change_state_str(s: ChangeState) -> (r: &'static str)
    ensures
        r@ == change_state_name(s),
{
    match s {
        ChangeState::Prepared => "Prepared",
        ChangeState::Applied => "Applied",
        ChangeState::NotApplied => "NotApplied",
        ChangeState::RestorePrepared => "RestorePrepared",
        ChangeState::Restored => "Restored",
        ChangeState::ProcessGone => "ProcessGone",
        ChangeState::Conflict => "Conflict",
        ChangeState::UserKept => "UserKept",
    }
}

pub open spec fn close_state_name(s: CloseState) -> Seq<char> {
    match s {
        CloseState::NotRequested => "NotRequested"@,
        CloseState::IntentRecorded => "IntentRecorded"@,
        CloseState::RequestedPending => "RequestedPending"@,
        CloseState::ClosedGracefully => "ClosedGracefully"@,
        CloseState::Terminated => "Terminated"@,
        CloseState::KeptOpen => "KeptOpen"@,
        CloseState::AlreadyGone => "AlreadyGone"@,
        CloseState::Failed => "Failed"@,
    }
}

fn close_state_str(s: CloseState) -> (r: &'static str)
    ensures
        r@ == close_state_name(s),
{
    match s {
        CloseState::NotRequested => "NotRequested",
        CloseState::IntentRecorded => "IntentRecorded",
        CloseState::RequestedPending => "RequestedPending",
        CloseState::ClosedGracefully => "ClosedGracefully",
        CloseState::Terminated => "Terminated",
        CloseState::KeptOpen => "KeptOpen",
        CloseState::AlreadyGone => "AlreadyGone",
        CloseState::Failed => "Failed",
    }
}

pub open spec fn reopen_state_name(s: ReopenState) -> Seq<char> {
    match s {
        ReopenState::IntentRecorded => "IntentRecorded"@,
        ReopenState::Started => "Started"@,
        ReopenState::AlreadyRunning => "AlreadyRunning"@,
        ReopenState::Deferred => "Deferred"@,
        ReopenState::Skipped => "Skipped"@,
        ReopenState::Indeterminate => "Indeterminate"@,
        ReopenState::UserKept => "UserKept"@,
    }
}

fn reopen_state_str(s: ReopenState) -> (r: &'static str)
    ensures
        r@ == reopen_state_name(s),
{
    match s {
        ReopenState::IntentRecorded => "IntentRecorded",
        ReopenState::Started => "Started",
        ReopenState::AlreadyRunning => "AlreadyRunning",
        ReopenState::Deferred => "Deferred",
        ReopenState::Skipped => "Skipped",
        ReopenState::Indeterminate => "Indeterminate",
        ReopenState::UserKept => "UserKept",
    }
}

pub open spec fn property_name(p: Property) -> Seq<char> {
    match p {
        Property::GpuPriority => "GpuPriority"@,
        Property::CpuPriority => "CpuPriority"@,
        Property::EcoQos => "EcoQos"@,
        Property::MemoryPriority => "MemoryPriority"@,
    }
}

fn property_str(p: Property) -> (r: &'static str)
    ensures
        r@ == property_name(p),
{
    match p {
        Property::GpuPriority => "GpuPriority",
        Property::CpuPriority => "CpuPriority",
        Property::EcoQos => "EcoQos",
        Property::MemoryPriority => "MemoryPriority",
    }
}

/// A value as `{:?}` prints it.
pub open spec fn value_text(v: Value) -> Seq<char> {
    match v {
        Value::GpuPriority(c) => "GpuPriority("@ + signed_seq(c as int) + ")"@,
        Value::CpuPriority(c) => "CpuPriority("@ + decimal_seq(c as nat) + ")"@,
        Value::EcoQos { control, state } => "EcoQos { control: "@ + decimal_seq(control as nat) + ", state: "@
            + decimal_seq(state as nat) + " }"@,
        Value::MemoryPriority(m) => "MemoryPriority("@ + decimal_seq(m as nat) + ")"@,
    }
}

fn push_value(out: &mut Vec<char>, v: Value)
    ensures
        final(out)@ == old(out)@ + value_text(v),
{
    let ghost start = out@;
    match v {
        Value::GpuPriority(c) => {
            append(out, "GpuPriority(");
            append_chars(out, &signed_decimal(c as i64));
            append(out, ")");
        },
        Value::CpuPriority(c) => {
            append(out, "CpuPriority(");
            append_chars(out, &decimal(c as u64));
            append(out, ")");
        },
        Value::EcoQos { control, state } => {
            append(out, "EcoQos { control: ");
            append_chars(out, &decimal(control as u64));
            append(out, ", state: ");
            append_chars(out, &decimal(state as u64));
            append(out, " }");
        },
        Value::MemoryPriority(m) => {
            append(out, "MemoryPriority(");
            append_chars(out, &decimal(m as u64));
            append(out, ")");
        },
    }
    proof {
        assert(out@ =~= start + value_text(v));
    }
}

pub open spec fn change_text(c: Change) -> Seq<char> {
    change_state_name(c.state) + " | PID "@ + decimal_seq(c.target.pid as nat) + " | "@ + property_name(
        property_of(c.before),
    ) + ": "@ + value_text(c.before) + " -> "@ + value_text(c.applied) + "\r\n"@ + c.target.path@ + "\r\n"@
        + c.detail@ + "\r\n\r\n"@
}

pub open spec fn close_text(c: CloseRecord) -> Seq<char> {
    close_state_name(c.state) + " | PID "@ + decimal_seq(c.target.pid as nat) + " | "@ + c.target.path@ + "\r\n"@
        + c.detail@ + "\r\n\r\n"@
}

pub open spec fn reopen_text(r: ReopenRecord) -> Seq<char> {
    reopen_state_name(r.state) + " | "@ + r.target.path@ + "\r\n"@ + r.detail@ + "\r\n\r\n"@
}

pub open spec fn changes_text(cs: Seq<Change>) -> Seq<char>
    decreases cs.len(),
{
    if cs.len() == 0 {
        Seq::empty()
    } else {
        changes_text(cs.drop_last()) + change_text(cs.last())
    }
}

pub open spec fn closes_text(cs: Seq<CloseRecord>) -> Seq<char>
    decreases cs.len(),
{
    if cs.len() == 0 {
        Seq::empty()
    } else {
        closes_text(cs.drop_last()) + close_text(cs.last())
    }
}

pub open spec fn reopens_text(rs: Seq<ReopenRecord>) -> Seq<char>
    decreases rs.len(),
{
    if rs.len() == 0 {
        Seq::empty()
    } else {
        reopens_text(rs.drop_last()) + reopen_text(rs.last())
    }
}

pub open spec fn events_text(es: Seq<String>) -> Seq<char>
    decreases es.len(),
{
    if es.len() == 0 {
        Seq::empty()
    } else {
        events_text(es.drop_last()) + es.last()@ + "\r\n"@
    }
}

pub open spec fn header_text(s: Session) -> Seq<char> {
    "GAME SESSION — "@ + stage_name(s.stage) + "\r\n"@ + s.plan.game_path@ + "\r\nSession: "@ + s.id@
        + "\r\nGaming performance benefit: not measured\r\n\r\n"@
}

/// The report: header, then settings changes, close requests and reopenings (each with a
/// plain statement when there are none), the event log, and what reopening cannot recover.
pub open spec fn report_text(s: Session) -> Seq<char> {
    header_text(s) + "SETTINGS\r\n"@ + (if s.changes@.len() == 0 {
        "No scheduling settings were changed.\r\n"@
    } else {
        Seq::empty()
    }) + changes_text(s.changes@) + "CLOSE REQUESTS\r\n"@ + (if s.closed@.len() == 0 {
        "No close requests were recorded.\r\n"@
    } else {
        Seq::empty()
    }) + closes_text(s.closed@) + "OPTIONAL APP REOPENING\r\n"@ + (if s.reopened@.len() == 0 {
        "No app reopening has been recorded.\r\n"@
    } else {
        Seq::empty()
    }) + reopens_text(s.reopened@) + "EVENTS\r\n"@ + events_text(s.events@)
        + "\r\nReopening starts a new process. It does not recover documents, tabs, unsaved work, RAM or VRAM. Unselected helpers may remain.\r\n"@
}

fn push_change(out: &mut Vec<char>, c: &Change)
    ensures
        final(out)@ == old(out)@ + change_text(*c),
{
    let ghost start = out@;
    append(out, change_state_str(c.state));
    append(out, " | PID ");
    append_chars(out, &decimal(c.target.pid as u64));
    append(out, " | ");
    append(out, property_str(c.before.property()));
    append(out, ": ");
    push_value(out, c.before);
    append(out, " -> ");
    push_value(out, c.applied);
    append(out, "\r\n");
    append(out, c.target.path.as_str());
    append(out, "\r\n");
    append(out, c.detail.as_str());
    append(out, "\r\n\r\n");
    proof {
        assert(out@ =~= start + change_text(*c));
    }
}

fn push_close(out: &mut Vec<char>, c: &CloseRecord)
    ensures
        final(out)@ == old(out)@ + close_text(*c),
{
    let ghost start = out@;
    append(out, close_state_str(c.state));
    append(out, " | PID ");
    append_chars(out, &decimal(c.target.pid as u64));
    append(out, " | ");
    append(out, c.target.path.as_str());
    append(out, "\r\n");
    append(out, c.detail.as_str());
    append(out, "\r\n\r\n");
    proof {
        assert(out@ =~= start + close_text(*c));
    }
}

fn push_reopen(out: &mut Vec<char>, r: &ReopenRecord)
    ensures
        final(out)@ == old(out)@ + reopen_text(*r),
{
    let ghost start = out@;
    append(out, reopen_state_str(r.state));
    append(out, " | ");
    append(out, r.target.path.as_str());
    append(out, "\r\n");
    append(out, r.detail.as_str());
    append(out, "\r\n\r\n");
    proof {
        assert(out@ =~= start + reopen_text(*r));
    }
}

/// Renders a session for people: every recorded change, close and reopening with its state.
pub fn render(s: &Session) -> (r: String)
    ensures
        r@ == report_text(*s),
{
    let mut out: Vec<char> = Vec::new();
    append(&mut out, "GAME SESSION — ");
    append(&mut out, stage_str(s.stage));
    append(&mut out, "\r\n");
    append(&mut out, s.plan.game_path.as_str());
    append(&mut out, "\r\nSession: ");
    append(&mut out, s.id.as_str());
    append(&mut out, "\r\nGaming performance benefit: not measured\r\n\r\n");
    proof {
        assert(out@ =~= header_text(*s));
    }
    append(&mut out, "SETTINGS\r\n");
    if s.changes.len() == 0 {
        append(&mut out, "No scheduling settings were changed.\r\n");
    }
    let ghost base = out@;
    proof {
        assert(base =~= header_text(*s) + "SETTINGS\r\n"@ + (if s.changes@.len() == 0 {
            "No scheduling settings were changed.\r\n"@
        } else {
            Seq::empty()
        }));
        assert(s.changes@.take(0) =~= Seq::<Change>::empty());
    }
    let mut i: usize = 0;
    while i < s.changes.len()
        invariant
            i <= s.changes@.len(),
            out@ == base + changes_text(s.changes@.take(i as int)),
        decreases s.changes@.len() - i,
    {
        proof {
            assert(s.changes@.take(i + 1).drop_last() =~= s.changes@.take(i as int));
        }
        push_change(&mut out, &s.changes[i]);
        proof {
            assert(out@ =~= base + changes_text(s.changes@.take(i + 1)));
        }
        i = i + 1;
    }
    proof {
        assert(s.changes@.take(i as int) =~= s.changes@);
    }
    append(&mut out, "CLOSE REQUESTS\r\n");
    if s.closed.len() == 0 {
        append(&mut out, "No close requests were recorded.\r\n");
    }
    let ghost base = out@;
    proof {
        assert(s.closed@.take(0) =~= Seq::<CloseRecord>::empty());
        assert(base + closes_text(s.closed@.take(0)) =~= base);
    }
    let mut i: usize = 0;
    while i < s.closed.len()
        invariant
            i <= s.closed@.len(),
            out@ == base + closes_text(s.closed@.take(i as int)),
        decreases s.closed@.len() - i,
    {
        proof {
            assert(s.closed@.take(i + 1).drop_last() =~= s.closed@.take(i as int));
        }
        push_close(&mut out, &s.closed[i]);
        proof {
            assert(out@ =~= base + closes_text(s.closed@.take(i + 1)));
        }
        i = i + 1;
    }
    proof {
        assert(s.closed@.take(i as int) =~= s.closed@);
    }
    append(&mut out, "OPTIONAL APP REOPENING\r\n");
    if s.reopened.len() == 0 {
        append(&mut out, "No app reopening has been recorded.\r\n");
    }
    let ghost base = out@;
    proof {
        assert(s.reopened@.take(0) =~= Seq::<ReopenRecord>::empty());
        assert(base + reopens_text(s.reopened@.take(0)) =~= base);
    }
    let mut i: usize = 0;
    while i < s.reopened.len()
        invariant
            i <= s.reopened@.len(),
            out@ == base + reopens_text(s.reopened@.take(i as int)),
        decreases s.reopened@.len() - i,
    {
        proof {
            assert(s.reopened@.take(i + 1).drop_last() =~= s.reopened@.take(i as int));
        }
        push_reopen(&mut out, &s.reopened[i]);
        proof {
            assert(out@ =~= base + reopens_text(s.reopened@.take(i + 1)));
        }
        i = i + 1;
    }
    proof {
        assert(s.reopened@.take(i as int) =~= s.reopened@);
    }
    append(&mut out, "EVENTS\r\n");
    let ghost base = out@;
    proof {
        assert(s.events@.take(0) =~= Seq::<String>::empty());
        assert(base + events_text(s.events@.take(0)) =~= base);
    }
    let mut i: usize = 0;
    while i < s.events.len()
        invariant
            i <= s.events@.len(),
            out@ == base + events_text(s.events@.take(i as int)),
        decreases s.events@.len() - i,
    {
        proof {
            assert(s.events@.take(i + 1).drop_last() =~= s.events@.take(i as int));
        }
        append(&mut out, s.events[i].as_str());
        append(&mut out, "\r\n");
        proof {
            assert(out@ =~= base + events_text(s.events@.take(i + 1)));
        }
        i = i + 1;
    }
    proof {
        assert(s.events@.take(i as int) =~= s.events@);
    }
    append(&mut out, "\r\nReopening starts a new process. It does not recover documents, tabs, unsaved work, RAM or VRAM. Unselected helpers may remain.\r\n");
    proof {
        assert(out@ =~= report_text(*s));
    }
    crate::text::string_of(&out)
}

proof fn lemma_close_names_plain(a: CloseState)
    ensures
        close_state_name(a).len() > 0,
        forall|i: int| 0 <= i < close_state_name(a).len() ==> #[trigger] close_state_name(a)[i] != ' ',
{
    reveal_strlit("NotRequested");
    reveal_strlit("IntentRecorded");
    reveal_strlit("RequestedPending");
    reveal_strlit("ClosedGracefully");
    reveal_strlit("Terminated");
    reveal_strlit("KeptOpen");
    reveal_strlit("AlreadyGone");
    reveal_strlit("Failed");
}

/// Distinct close states have distinct names.
pub proof fn law_close_state_names_distinct(a: CloseState, b: CloseState)
    ensures
        close_state_name(a) == close_state_name(b) ==> a == b,
{
    reveal_strlit("NotRequested");
    reveal_strlit("IntentRecorded");
    reveal_strlit("RequestedPending");
    reveal_strlit("ClosedGracefully");
    reveal_strlit("Terminated");
    reveal_strlit("KeptOpen");
    reveal_strlit("AlreadyGone");
    reveal_strlit("Failed");
    if close_state_name(a) == close_state_name(b) && a != b {
        assert(close_state_name(a)[0] == close_state_name(b)[0]);
        assert(close_state_name(a)[1] == close_state_name(b)[1]);
    }
}

/// A close line starts with its state's name and says which state the record is in: two
/// records printed alike are in the same state, so a terminated close is never printed as
/// a graceful one.
pub proof fn law_close_line_names_state(c1: CloseRecord, c2: CloseRecord)
    ensures
        close_text(c1).len() >= close_state_name(c1.state).len(),
        close_text(c1).take(close_state_name(c1.state).len() as int) == close_state_name(c1.state),
        close_text(c1) == close_text(c2) ==> c1.state == c2.state,
{
    let n1 = close_state_name(c1.state);
    let n2 = close_state_name(c2.state);
    let t1 = close_text(c1);
    let t2 = close_text(c2);
    reveal_strlit(" | PID ");
    let r1 = " | PID "@ + decimal_seq(c1.target.pid as nat) + " | "@ + c1.target.path@ + "\r\n"@ + c1.detail@
        + "\r\n\r\n"@;
    let r2 = " | PID "@ + decimal_seq(c2.target.pid as nat) + " | "@ + c2.target.path@ + "\r\n"@ + c2.detail@
        + "\r\n\r\n"@;
    assert(t1 =~= n1 + r1);
    assert(t2 =~= n2 + r2);
    assert(r1[0] == ' ' && r2[0] == ' ');
    assert(t1.take(n1.len() as int) =~= n1);
    if t1 == t2 && c1.state != c2.state {
        law_close_state_names_distinct(c1.state, c2.state);
        lemma_close_names_plain(c1.state);
        lemma_close_names_plain(c2.state);
        if n1.len() == n2.len() {
            assert(t2.take(n2.len() as int) =~= n2);
        } else if n1.len() < n2.len() {
            assert(t1[n1.len() as int] == ' ');
            assert(t2[n1.len() as int] == n2[n1.len() as int]);
        } else {
            assert(t2[n2.len() as int] == ' ');
            assert(t1[n2.len() as int] == n1[n2.len() as int]);
        }
    }
}

/// The change state a name stands for, read off its length and first letter.
spec fn change_state_of_name(n: Seq<char>) -> ChangeState {
    if n.len() == 7 {
        ChangeState::Applied
    } else if n.len() == 10 {
        ChangeState::NotApplied
    } else if n.len() == 15 {
        ChangeState::RestorePrepared
    } else if n.len() == 11 {
        ChangeState::ProcessGone
    } else if n[0] == 'P' {
        ChangeState::Prepared
    } else if n[0] == 'R' {
        ChangeState::Restored
    } else if n[0] == 'C' {
        ChangeState::Conflict
    } else {
        ChangeState::UserKept
    }
}

/// Distinct settings-change states have distinct names.
pub proof fn law_change_state_names_distinct(a: ChangeState, b: ChangeState)
    ensures
        change_state_name(a) == change_state_name(b) ==> a == b,
{
    lemma_change_name_decodes(a);
    lemma_change_name_decodes(b);
}

proof fn lemma_change_name_decodes(a: ChangeState)
    ensures
        change_state_of_name(change_state_name(a)) == a,
{
    match a {
        ChangeState::Prepared => reveal_strlit("Prepared"),
        ChangeState::Applied => reveal_strlit("Applied"),
        ChangeState::NotApplied => reveal_strlit("NotApplied"),
        ChangeState::RestorePrepared => reveal_strlit("RestorePrepared"),
        ChangeState::Restored => reveal_strlit("Restored"),
        ChangeState::ProcessGone => reveal_strlit("ProcessGone"),
        ChangeState::Conflict => reveal_strlit("Conflict"),
        ChangeState::UserKept => reveal_strlit("UserKept"),
    }
}

/// The reopening state a name stands for, read off its length and first letter.
spec fn reopen_state_of_name(n: Seq<char>) -> ReopenState {
    if n[0] == 'I' && n.len() == 14 {
        ReopenState::IntentRecorded
    } else if n[0] == 'I' {
        ReopenState::Indeterminate
    } else if n[0] == 'S' && n.len() == 7 && n[1] == 't' {
        ReopenState::Started
    } else if n[0] == 'S' {
        ReopenState::Skipped
    } else if n[0] == 'A' {
        ReopenState::AlreadyRunning
    } else if n[0] == 'D' {
        ReopenState::Deferred
    } else {
        ReopenState::UserKept
    }
}

proof fn lemma_reopen_name_decodes(a: ReopenState)
    ensures
        reopen_state_of_name(reopen_state_name(a)) == a,
{
    match a {
        ReopenState::IntentRecorded => reveal_strlit("IntentRecorded"),
        ReopenState::Started => reveal_strlit("Started"),
        ReopenState::AlreadyRunning => reveal_strlit("AlreadyRunning"),
        ReopenState::Deferred => reveal_strlit("Deferred"),
        ReopenState::Skipped => reveal_strlit("Skipped"),
        ReopenState::Indeterminate => reveal_strlit("Indeterminate"),
        ReopenState::UserKept => reveal_strlit("UserKept"),
    }
}

/// Distinct reopening states have distinct names.
pub proof fn law_reopen_state_names_distinct(a: ReopenState, b: ReopenState)
    ensures
        reopen_state_name(a) == reopen_state_name(b) ==> a == b,
{
    lemma_reopen_name_decodes(a);
    lemma_reopen_name_decodes(b);
}

/// The stage a name stands for, read off its length and letters.
spec fn stage_of_name(n: Seq<char>) -> Stage {
    if n.len() == 7 {
        Stage::Pending
    } else if n.len() == 6 {
        Stage::Active
    } else if n.len() == 14 {
        Stage::RecoveryNeeded
    } else if n.len() == 16 {
        Stage::UserAcknowledged
    } else if n.len() == 8 {
        Stage::Restored
    } else if n[0] == 'P' {
        Stage::Preparing
    } else {
        Stage::Restoring
    }
}

proof fn lemma_stage_name_decodes(a: Stage)
    ensures
        stage_of_name(stage_name(a)) == a,
{
    match a {
        Stage::Pending => reveal_strlit("Pending"),
        Stage::Preparing => reveal_strlit("Preparing"),
        Stage::Active => reveal_strlit("Active"),
        Stage::Restoring => reveal_strlit("Restoring"),
        Stage::Restored => reveal_strlit("Restored"),
        Stage::RecoveryNeeded => reveal_strlit("RecoveryNeeded"),
        Stage::UserAcknowledged => reveal_strlit("UserAcknowledged"),
    }
}

/// Distinct session stages have distinct names.
pub proof fn law_stage_names_distinct(a: Stage, b: Stage)
    ensures
        stage_name(a) == stage_name(b) ==> a == b,
{
    lemma_stage_name_decodes(a);
    lemma_stage_name_decodes(b);
}

} // verus!
