//! Write-ahead application of an approved plan and compare-and-restore recovery.
use crate::integrity::{all_resolved, record_valid, uncertain_close, validate_record};
use crate::journal::{journal_log, Journal};
use crate::model::{
    background_of, change_resolved, not_higher, property_of, valid_value, ActionKind, AppResult, Change,
    ChangeState, CloseRecord, CloseState, Fault, FaultKind, Identity, NativeResult, Plan,
    Property, ReopenApproval, ReopenRecord, Session, Stage, Value,
};
use vstd::prelude::*;

verus! {

/// A call into the native adapter, with what the adapter answered.
pub enum NativeCall {
    Authorize(Identity, NativeResult<()>),
    Read(Identity, Property, NativeResult<Value>),
    Write(Identity, Value, NativeResult<()>),
    /// Target, whether termination is allowed, the observation timeout, the outcome.
    Close(Identity, bool, u32, NativeResult<CloseState>),
    Reopen(Identity, NativeResult<ReopenRecord>),
}

/// The adapter that inspects and changes live processes.
pub trait Backend {
    /// The calls this adapter has received and what it answered, oldest first. The
    /// empty default only lets adapters written outside the verifier compile; an adapter
    /// that keeps it cannot meet the contracts below, so a verified one defines it.
    closed spec fn calls(&self) -> Seq<NativeCall> {
        Seq::empty()
    }

    /// Revalidate identity, ownership, critical status, game family and protected paths.
    fn authorize(&mut self, id: &Identity) -> (r: NativeResult<()>)
        ensures
            final(self).calls() == old(self).calls().push(NativeCall::Authorize(*id, r)),
    ;

    fn read(&mut self, id: &Identity, property: Property) -> (r: NativeResult<Value>)
        ensures
            final(self).calls() == old(self).calls().push(NativeCall::Read(*id, property, r)),
    ;

    fn write(&mut self, id: &Identity, value: &Value) -> (r: NativeResult<()>)
        ensures
            final(self).calls() == old(self).calls().push(NativeCall::Write(*id, *value, r)),
    ;

    fn close(&mut self, id: &Identity, force: bool, timeout_ms: u32) -> (r: NativeResult<CloseState>)
        ensures
            final(self).calls() == old(self).calls().push(NativeCall::Close(*id, force, timeout_ms, r)),
    ;

    /// Starts a new process of the closed application. Adapters without a launcher
    /// report it as unsupported and make no call.
    fn reopen(&mut self, id: &Identity, approval: &ReopenApproval) -> (r: NativeResult<ReopenRecord>)
        ensures
            final(self).calls() == old(self).calls().push(NativeCall::Reopen(*id, r)) || (r is Err
                && final(self).calls() == old(self).calls()),
        default_ensures
            r matches Err(f) && f.kind == FaultKind::Unsupported && f.message@ == "Reopening is not available in this adapter."@,
            final(self).calls() == old(self).calls(),
    {
        Err(Fault::new(FaultKind::Unsupported, "Reopening is not available in this adapter."))
    }
}

/// One step of an engine run: a native call, or a record the journal accepted.
pub enum Event {
    Native(NativeCall),
    Saved(Session),
    /// A record the journal refused to store.
    Refused(Session),
}

/// The native calls of a run, in order.
pub open spec fn natives(t: Seq<Event>) -> Seq<NativeCall>
    decreases t.len(),
{
    if t.len() == 0 {
        Seq::empty()
    } else {
        match t.last() {
            Event::Native(c) => natives(t.drop_last()).push(c),
            _ => natives(t.drop_last()),
        }
    }
}

/// The records the journal accepted during a run, in order.
pub open spec fn saves(t: Seq<Event>) -> Seq<Session>
    decreases t.len(),
{
    if t.len() == 0 {
        Seq::empty()
    } else {
        match t.last() {
            Event::Saved(s) => saves(t.drop_last()).push(s),
            _ => saves(t.drop_last()),
        }
    }
}

/// How many saves the journal refused during a run.
pub open spec fn refusals(t: Seq<Event>) -> nat
    decreases t.len(),
{
    if t.len() == 0 {
        0
    } else {
        refusals(t.drop_last()) + if t.last() is Refused {
            1nat
        } else {
            0nat
        }
    }
}

/// A refused save ends a run: nothing follows it.
pub open spec fn refusal_last(t: Seq<Event>) -> bool {
    forall|i: int| 0 <= i < t.len() && (#[trigger] t[i]) is Refused ==> i == t.len() - 1
}

/// Calls that change a process or start one.
pub open spec fn mutating(c: NativeCall) -> bool {
    c is Write || c is Close || c is Reopen
}

/// The record holds the intent for a mutating call: a prepared lowering to the written
/// value, a prepared restoration of the written original, a recorded close with the same
/// force permission, or a recorded launch intent.
pub open spec fn intent_recorded(s: Session, c: NativeCall) -> bool {
    match c {
        NativeCall::Write(t, v, _) => write_intent(s, t, v),
        NativeCall::Close(t, force, _, _) => close_intent(s, t, force),
        NativeCall::Reopen(t, _) => reopen_intent(s, t),
        _ => true,
    }
}

/// A prepared lowering to `v`, or a prepared restoration of the original `v`, of `t`.
pub open spec fn write_intent(s: Session, t: Identity, v: Value) -> bool {
    exists|i: int|
        0 <= i < s.changes@.len() && (#[trigger] s.changes@[i]).target == t && ((s.changes@[i].state
            == ChangeState::Prepared && s.changes@[i].applied == v) || (s.changes@[i].state
            == ChangeState::RestorePrepared && s.changes@[i].before == v))
}

/// A recorded close of `t` with this force permission.
pub open spec fn close_intent(s: Session, t: Identity, force: bool) -> bool {
    exists|i: int|
        0 <= i < s.closed@.len() && (#[trigger] s.closed@[i]).target == t && s.closed@[i].force_allowed == force
            && s.closed@[i].state == CloseState::IntentRecorded
}

/// A recorded launch intent for `t`.
pub open spec fn reopen_intent(s: Session, t: Identity) -> bool {
    exists|i: int|
        0 <= i < s.reopened@.len() && (#[trigger] s.reopened@[i]).target == t && s.reopened@[i].state
            == crate::model::ReopenState::IntentRecorded
}

pub open spec fn saved_intent(e: Event, c: NativeCall) -> bool {
    match e {
        Event::Saved(s) => intent_recorded(s, c),
        _ => false,
    }
}

/// The journal's latest accepted record before position `i` holds the intent for `c`.
pub open spec fn durable_before(t: Seq<Event>, i: int, c: NativeCall) -> bool {
    exists|k: int|
        0 <= k < i && #[trigger] saved_intent(t[k], c) && forall|m: int|
            k < m < i ==> (#[trigger] t[m]) is Native
}

/// Write-ahead: every mutating native call follows a durable record of its intent,
/// with no other record accepted in between.
pub open spec fn write_ahead(t: Seq<Event>) -> bool {
    forall|i: int|
        0 <= i < t.len() && (#[trigger] t[i]) is Native && mutating(t[i]->Native_0)
            ==> durable_before(t, i, t[i]->Native_0)
}

pub proof fn lemma_natives_push(t: Seq<Event>, e: Event)
    ensures
        natives(t.push(e)) == match e {
            Event::Native(c) => natives(t).push(c),
            _ => natives(t),
        },
        saves(t.push(e)) == match e {
            Event::Saved(s) => saves(t).push(s),
            _ => saves(t),
        },
        refusals(t.push(e)) == refusals(t) + if e is Refused {
            1nat
        } else {
            0nat
        },
{
    assert(t.push(e).drop_last() =~= t);
}

/// Appending an accepted record keeps the write-ahead property.
pub proof fn lemma_write_ahead_saved(t: Seq<Event>, s: Session)
    requires
        write_ahead(t),
    ensures
        write_ahead(t.push(Event::Saved(s))),
{
    let t2 = t.push(Event::Saved(s));
    assert forall|i: int|
        0 <= i < t2.len() && (#[trigger] t2[i]) is Native && mutating(t2[i]->Native_0) implies durable_before(
        t2,
        i,
        t2[i]->Native_0,
    ) by {
        assert(t2[i] == t[i]);
        assert(durable_before(t, i, t[i]->Native_0));
        let k = choose|k: int|
            0 <= k < i && #[trigger] saved_intent(t[k], t[i]->Native_0) && forall|m: int|
                k < m < i ==> (#[trigger] t[m]) is Native;
        assert(t2[k] == t[k]);
        assert forall|m: int| k < m < i implies (#[trigger] t2[m]) is Native by {
            assert(t2[m] == t[m]);
        }
    }
}

/// Appending a native call keeps the write-ahead property when the call does not
/// mutate, or when the latest accepted record (at `k`) holds its intent.
pub proof fn lemma_write_ahead_native(t: Seq<Event>, c: NativeCall, k: int)
    requires
        write_ahead(t),
        mutating(c) ==> (0 <= k < t.len() && saved_intent(t[k], c) && forall|m: int|
            k < m < t.len() ==> (#[trigger] t[m]) is Native),
    ensures
        write_ahead(t.push(Event::Native(c))),
{
    let t2 = t.push(Event::Native(c));
    assert forall|i: int|
        0 <= i < t2.len() && (#[trigger] t2[i]) is Native && mutating(t2[i]->Native_0) implies durable_before(
        t2,
        i,
        t2[i]->Native_0,
    ) by {
        if i == t.len() {
            assert(t2[k] == t[k]);
            assert forall|m: int| k < m < i implies (#[trigger] t2[m]) is Native by {
                assert(t2[m] == t[m]);
            }
            assert(saved_intent(t2[k], t2[i]->Native_0));
        } else {
            assert(t2[i] == t[i]);
            assert(durable_before(t, i, t[i]->Native_0));
            let k2 = choose|k2: int|
                0 <= k2 < i && #[trigger] saved_intent(t[k2], t[i]->Native_0) && forall|m: int|
                    k2 < m < i ==> (#[trigger] t[m]) is Native;
            assert(t2[k2] == t[k2]);
            assert forall|m: int| k2 < m < i implies (#[trigger] t2[m]) is Native by {
                assert(t2[m] == t[m]);
            }
        }
    }
}

/// The adapter and journal logs are the logs at the start of a run extended by the
/// run's events (a journal log is its accepted records and its count of refusals), the
/// run obeys write-ahead, and a refused save is the run's last event.
pub open spec fn tracks(
    calls: Seq<NativeCall>,
    saved: (Seq<Session>, nat),
    calls0: Seq<NativeCall>,
    saved0: (Seq<Session>, nat),
    t: Seq<Event>,
) -> bool {
    &&& calls == calls0 + natives(t)
    &&& saved.0 == saved0.0 + saves(t)
    &&& saved.1 == saved0.1 + refusals(t)
    &&& write_ahead(t)
    &&& refusal_last(t)
}

proof fn lemma_no_refusal(t: Seq<Event>)
    requires
        refusals(t) == 0,
    ensures
        forall|i: int| 0 <= i < t.len() ==> !(#[trigger] t[i] is Refused),
    decreases t.len(),
{
    if t.len() > 0 {
        lemma_no_refusal(t.drop_last());
        assert forall|i: int| 0 <= i < t.len() implies !(#[trigger] t[i] is Refused) by {
            if i < t.len() - 1 {
                assert(t[i] == t.drop_last()[i]);
            }
        }
    }
}

pub proof fn lemma_track_native(
    calls: Seq<NativeCall>,
    saved: (Seq<Session>, nat),
    calls0: Seq<NativeCall>,
    saved0: (Seq<Session>, nat),
    t: Seq<Event>,
    c: NativeCall,
    k: int,
)
    requires
        tracks(calls, saved, calls0, saved0, t),
        refusals(t) == 0,
        mutating(c) ==> (0 <= k < t.len() && saved_intent(t[k], c) && forall|m: int|
            k < m < t.len() ==> (#[trigger] t[m]) is Native),
    ensures
        tracks(calls.push(c), saved, calls0, saved0, t.push(Event::Native(c))),
        natives(t.push(Event::Native(c))) == natives(t).push(c),
        refusals(t.push(Event::Native(c))) == 0,
{
    lemma_natives_push(t, Event::Native(c));
    lemma_write_ahead_native(t, c, k);
    lemma_no_refusal(t);
    assert(calls0 + natives(t).push(c) =~= (calls0 + natives(t)).push(c));
    let t2 = t.push(Event::Native(c));
    assert forall|i: int| 0 <= i < t2.len() && (#[trigger] t2[i]) is Refused implies i == t2.len() - 1 by {
        if i < t.len() {
            assert(t2[i] == t[i]);
        }
    }
}

pub proof fn lemma_track_saved(
    calls: Seq<NativeCall>,
    saved: (Seq<Session>, nat),
    calls0: Seq<NativeCall>,
    saved0: (Seq<Session>, nat),
    t: Seq<Event>,
    s: Session,
)
    requires
        tracks(calls, saved, calls0, saved0, t),
        refusals(t) == 0,
    ensures
        tracks(calls, (saved.0.push(s), saved.1), calls0, saved0, t.push(Event::Saved(s))),
        natives(t.push(Event::Saved(s))) == natives(t),
        refusals(t.push(Event::Saved(s))) == 0,
{
    lemma_natives_push(t, Event::Saved(s));
    lemma_write_ahead_saved(t, s);
    lemma_no_refusal(t);
    assert(saved0.0 + saves(t).push(s) =~= (saved0.0 + saves(t)).push(s));
    let t2 = t.push(Event::Saved(s));
    assert forall|i: int| 0 <= i < t2.len() && (#[trigger] t2[i]) is Refused implies i == t2.len() - 1 by {
        if i < t.len() {
            assert(t2[i] == t[i]);
        }
    }
}

/// A refused save ends the run.
pub proof fn lemma_track_refused(
    calls: Seq<NativeCall>,
    saved: (Seq<Session>, nat),
    calls0: Seq<NativeCall>,
    saved0: (Seq<Session>, nat),
    t: Seq<Event>,
    s: Session,
)
    requires
        tracks(calls, saved, calls0, saved0, t),
        refusals(t) == 0,
    ensures
        tracks(calls, (saved.0, saved.1 + 1), calls0, saved0, t.push(Event::Refused(s))),
        natives(t.push(Event::Refused(s))) == natives(t),
        refusals(t.push(Event::Refused(s))) == 1,
{
    lemma_natives_push(t, Event::Refused(s));
    lemma_no_refusal(t);
    let t2 = t.push(Event::Refused(s));
    assert forall|i: int|
        0 <= i < t2.len() && (#[trigger] t2[i]) is Native && mutating(t2[i]->Native_0) implies durable_before(
        t2,
        i,
        t2[i]->Native_0,
    ) by {
        assert(t2[i] == t[i]);
        assert(durable_before(t, i, t[i]->Native_0));
        let k = choose|k: int|
            0 <= k < i && #[trigger] saved_intent(t[k], t[i]->Native_0) && forall|m: int|
                k < m < i ==> (#[trigger] t[m]) is Native;
        assert(t2[k] == t[k]);
        assert forall|m: int| k < m < i implies (#[trigger] t2[m]) is Native by {
            assert(t2[m] == t[m]);
        }
    }
    assert forall|i: int| 0 <= i < t2.len() && (#[trigger] t2[i]) is Refused implies i == t2.len() - 1 by {
        if i < t.len() {
            assert(t2[i] == t[i]);
        }
    }
}

/// A native call an apply run may make for this plan: lowering only approved lowering
/// targets, closing only approved close targets with exactly the approved force, and
/// never starting a process.
pub open spec fn apply_call_allowed(p: Plan, c: NativeCall) -> bool {
    match c {
        NativeCall::Write(t, _, _) => exists|i: int|
            0 <= i < p.actions@.len() && (#[trigger] p.actions@[i]).target == t
                && p.actions@[i].action == ActionKind::LowerPriorities,
        NativeCall::Close(t, force, timeout, _) => timeout == p.options.close_timeout_ms && exists|i: int|
            0 <= i < p.actions@.len() && (#[trigger] p.actions@[i]).target == t && (if force {
                p.actions@[i].action == ActionKind::ForceClose
            } else {
                p.actions@[i].action == ActionKind::Close
            }),
        NativeCall::Reopen(_, _) => false,
        _ => true,
    }
}

/// `c` lowers a setting right after `prev` read it: the same process and setting, the
/// read succeeded, and the written value is the background value of what was read and
/// differs from it.
pub open spec fn lowering_write(prev: NativeCall, c: NativeCall) -> bool {
    match (prev, c) {
        (NativeCall::Read(rt, rp, Ok(cur)), NativeCall::Write(t, v, _)) => rt == t && rp == property_of(v)
            && valid_value(cur) && v == background_of(cur) && v != cur,
        _ => false,
    }
}

/// The calls an apply run may make: each allowed, and every write lowers the value read
/// by the call just before it.
pub open spec fn apply_calls_allowed(p: Plan, cs: Seq<NativeCall>) -> bool {
    &&& forall|i: int| 0 <= i < cs.len() ==> apply_call_allowed(p, #[trigger] cs[i])
    &&& forall|i: int| 0 <= i < cs.len() && (#[trigger] cs[i]) is Write ==> i >= 1 && lowering_write(cs[i - 1], cs[i])
}

/// What stays fixed during an apply run, and what the run has recorded so far.
pub open spec fn apply_inv(
    s: Session,
    s0: Session,
    calls: Seq<NativeCall>,
    saved: (Seq<Session>, nat),
    calls0: Seq<NativeCall>,
    saved0: (Seq<Session>, nat),
    t: Seq<Event>,
) -> bool {
    &&& s.plan == s0.plan
    &&& s.id == s0.id
    &&& s.schema == s0.schema
    &&& s.game == s0.game
    &&& s.worker == s0.worker
    &&& s.reopened == s0.reopened
    &&& tracks(calls, saved, calls0, saved0, t)
    &&& apply_calls_allowed(s0.plan, natives(t))
}

proof fn lemma_allowed_push(p: Plan, cs: Seq<NativeCall>, c: NativeCall)
    requires
        apply_calls_allowed(p, cs),
        apply_call_allowed(p, c),
        c is Write ==> cs.len() >= 1 && lowering_write(cs.last(), c),
    ensures
        apply_calls_allowed(p, cs.push(c)),
{
    let n = cs.push(c);
    assert forall|i: int| 0 <= i < n.len() implies apply_call_allowed(p, #[trigger] n[i]) by {
        if i < cs.len() {
            assert(n[i] == cs[i]);
        }
    }
    assert forall|i: int| 0 <= i < n.len() && (#[trigger] n[i]) is Write implies i >= 1 && lowering_write(n[i - 1], n[i]) by {
        if i < cs.len() {
            assert(n[i] == cs[i]);
            assert(n[i - 1] == cs[i - 1]);
        } else {
            assert(n[i - 1] == cs.last());
        }
    }
}

/// A close outcome the run can record as settled: an outcome rather than an intent, and
/// termination only where it was allowed.
pub open spec fn close_accepted(r: NativeResult<CloseState>, force: bool) -> bool {
    r matches Ok(st) && st != CloseState::IntentRecorded && st != CloseState::NotRequested && (st
        != CloseState::Terminated || force)
}

/// The last answer stops an apply run: a refused authorization, an invalid value read,
/// a value that changed between the first read and the write, a failed write, a read-back
/// that differs from what was written, or a close outcome that is not settled.
pub open spec fn apply_halt(cs: Seq<NativeCall>) -> bool {
    cs.len() > 0 && match cs.last() {
        NativeCall::Authorize(_, r) => r is Err,
        NativeCall::Read(t, p, r) => invalid_read(p, r) || changed_since_first_read(cs, t, p, r)
            || differs_from_written(cs, t, r),
        NativeCall::Write(_, _, r) => r is Err,
        NativeCall::Close(_, force, _, r) => !close_accepted(r, force),
        _ => false,
    }
}

/// The read gave a value of another setting, or an invalid one.
pub open spec fn invalid_read(p: Property, r: NativeResult<Value>) -> bool {
    match r {
        Ok(v) => property_of(v) != p || !valid_value(v),
        Err(_) => false,
    }
}

/// The last read, right after an authorization, did not give back what the read before
/// that gave for the same setting.
pub open spec fn changed_since_first_read(cs: Seq<NativeCall>, t: Identity, p: Property, r: NativeResult<Value>) -> bool {
    cs.len() >= 3 && cs[cs.len() - 2] is Authorize && match cs[cs.len() - 3] {
        NativeCall::Read(t1, p1, Ok(v1)) => t1 == t && p1 == p && r != Ok::<Value, Fault>(v1),
        _ => false,
    }
}

/// The last read, right after a successful write to the same process, did not give back
/// the written value.
pub open spec fn differs_from_written(cs: Seq<NativeCall>, t: Identity, r: NativeResult<Value>) -> bool {
    cs.len() >= 2 && match cs[cs.len() - 2] {
        NativeCall::Write(wt, w, Ok(_)) => wt == t && r != Ok::<Value, Fault>(w),
        _ => false,
    }
}

/// An answer after which an apply run never goes on: a refused authorization (other
/// than a vanished process), a failed write, or a close outcome that is not settled.
pub open spec fn stops_run(c: NativeCall) -> bool {
    match c {
        NativeCall::Authorize(_, Err(e)) => e.kind != FaultKind::Gone,
        NativeCall::Write(_, _, r) => r is Err,
        NativeCall::Close(_, force, _, r) => !close_accepted(r, force),
        _ => false,
    }
}

/// No call before position `n` stops the run.
pub open spec fn no_stops(cs: Seq<NativeCall>, n: int) -> bool {
    forall|i: int| 0 <= i < n && i < cs.len() ==> !stops_run(#[trigger] cs[i])
}

/// A recorded lowering: a read of the setting gave the original, the applied value is its
/// background value and differs from it, and the change is prepared, applied, or not
/// applied; it is applied only after a successful write of that value read back at once.
pub open spec fn lowered_after_read(cs: Seq<NativeCall>, ch: Change) -> bool {
    &&& exists|i: int|
        0 <= i < cs.len() && #[trigger] cs[i] == NativeCall::Read(ch.target, property_of(ch.before), Ok(ch.before))
    &&& ch.applied == background_of(ch.before) && ch.applied != ch.before
    &&& ch.state == ChangeState::Prepared || ch.state == ChangeState::Applied || ch.state == ChangeState::NotApplied
    &&& ch.state == ChangeState::Applied ==> exists|i: int|
        0 <= i && i + 1 < cs.len() && #[trigger] cs[i] == NativeCall::Write(ch.target, ch.applied, Ok(())) && cs[i + 1]
            == NativeCall::Read(ch.target, property_of(ch.before), Ok(ch.applied))
}

proof fn lemma_changes_extend(cs: Seq<NativeCall>, cs2: Seq<NativeCall>, changes: Seq<Change>)
    requires
        changes_from_reads(cs, changes),
        cs2 == cs + cs2.skip(cs.len() as int),
    ensures
        changes_from_reads(cs2, changes),
{
    reveal(changes_from_reads);
    assert forall|k: int| 0 <= k < changes.len() implies lowered_after_read(cs2, #[trigger] changes[k]) by {
        let ch = changes[k];
        assert(lowered_after_read(cs, ch));
        let i = choose|i: int|
            0 <= i < cs.len() && #[trigger] cs[i] == NativeCall::Read(ch.target, property_of(ch.before), Ok(ch.before));
        assert(cs2[i] == cs[i]);
        if ch.state == ChangeState::Applied {
            let w = choose|w: int|
                0 <= w && w + 1 < cs.len() && #[trigger] cs[w] == NativeCall::Write(ch.target, ch.applied, Ok(())) && cs[w
                    + 1] == NativeCall::Read(ch.target, property_of(ch.before), Ok(ch.applied));
            assert(cs2[w] == cs[w] && cs2[w + 1] == cs[w + 1]);
        }
    }
}

proof fn lemma_changes_step(
    ncs: Seq<NativeCall>,
    cs: Seq<NativeCall>,
    chs: Seq<Change>,
    changes: Seq<Change>,
    pos: int,
    w: int,
)
    requires
        changes_from_reads(ncs, chs),
        cs == ncs + cs.skip(ncs.len() as int),
        changes.len() == chs.len(),
        0 <= pos < chs.len(),
        forall|q: int| 0 <= q < chs.len() && q != pos ==> changes[q] == chs[q],
        changes[pos].target == chs[pos].target && changes[pos].before == chs[pos].before && changes[pos].applied
            == chs[pos].applied,
        changes[pos].state == ChangeState::Prepared || changes[pos].state == ChangeState::NotApplied || (
        changes[pos].state == ChangeState::Applied && 0 <= w && w + 1 < cs.len() && cs[w] == NativeCall::Write(
            chs[pos].target,
            chs[pos].applied,
            Ok(()),
        ) && cs[w + 1] == NativeCall::Read(chs[pos].target, property_of(chs[pos].before), Ok(chs[pos].applied))),
    ensures
        changes_from_reads(cs, changes),
{
    lemma_changes_extend(ncs, cs, chs);
    reveal(changes_from_reads);
    assert forall|q: int| 0 <= q < changes.len() implies lowered_after_read(cs, #[trigger] changes[q]) by {
        assert(lowered_after_read(cs, chs[q]));
        if q == pos {
            let ch = chs[q];
            let i = choose|i: int|
                0 <= i < cs.len() && #[trigger] cs[i] == NativeCall::Read(ch.target, property_of(ch.before), Ok(ch.before));
            assert(cs[i] == NativeCall::Read(changes[q].target, property_of(changes[q].before), Ok(changes[q].before)));
        }
    }
}

/// Every recorded change is a lowering made from what was read.
#[verifier::opaque]
pub open spec fn changes_from_reads(cs: Seq<NativeCall>, changes: Seq<Change>) -> bool {
    forall|k: int| 0 <= k < changes.len() ==> lowered_after_read(cs, #[trigger] changes[k])
}

/// The state a close record is left in after the close call answered `r`: the reported
/// outcome when it is settled, otherwise the recorded intent, which is never retried.
pub open spec fn close_outcome_state(r: NativeResult<CloseState>, force: bool) -> CloseState {
    if close_accepted(r, force) {
        r->Ok_0
    } else {
        CloseState::IntentRecorded
    }
}

/// Every close call has a record for its target, with its force permission and the state
/// its answer gives.
pub open spec fn closes_recorded(cs: Seq<NativeCall>, closed: Seq<CloseRecord>) -> bool {
    forall|i: int|
        0 <= i < cs.len() && (#[trigger] cs[i]) is Close ==> exists|k: int|
            0 <= k < closed.len() && (#[trigger] closed[k]).target == cs[i]->Close_0 && closed[k].force_allowed
                == cs[i]->Close_1 && closed[k].state == close_outcome_state(cs[i]->Close_3, cs[i]->Close_1)
}

/// What the first read of a setting means for lowering it.
#[derive(Debug)]
pub enum LowerStep {
    /// The setting could not be read: it is left unchanged.
    Unavailable,
    /// The adapter reported a value of another setting, or an invalid one.
    Invalid,
    /// The value is already at or below its background value: nothing to do.
    AlreadyLow,
    /// Lower from the first value to the second.
    Lower(Value, Value),
}

/// The next step of lowering a setting after its first read answered `read`.
pub fn lowering_step(property: Property, read: &NativeResult<Value>) -> (r: LowerStep)
    ensures
        match *read {
            Err(_) => r is Unavailable,
            Ok(v) => if property_of(v) != property || !valid_value(v) {
                r is Invalid
            } else if background_of(v) == v {
                r is AlreadyLow
            } else {
                r == LowerStep::Lower(v, background_of(v))
            },
        },
{
    match read {
        Err(_) => LowerStep::Unavailable,
        Ok(v) => {
            if v.property() != property || !v.valid() {
                LowerStep::Invalid
            } else {
                let desired = v.background();
                if desired == *v {
                    LowerStep::AlreadyLow
                } else {
                    LowerStep::Lower(*v, desired)
                }
            }
        },
    }
}

/// Whether a read after writing `desired` confirms the write.
pub fn write_confirmed(desired: &Value, check: &NativeResult<Value>) -> (r: bool)
    ensures
        r == (*check == Ok::<Value, Fault>(*desired)),
{
    match check {
        Ok(v) => *v == *desired,
        Err(_) => false,
    }
}

/// The state a close answer settles a close record in: the reported outcome when it is
/// settled, or none, when the recorded intent stands and is never retried.
pub fn settled_close(outcome: &NativeResult<CloseState>, force: bool) -> (r: Option<CloseState>)
    ensures
        close_accepted(*outcome, force) ==> r == Some(outcome->Ok_0),
        !close_accepted(*outcome, force) ==> r is None,
{
    match outcome {
        Ok(state) => {
            if *state != CloseState::IntentRecorded && *state != CloseState::NotRequested && (*state
                != CloseState::Terminated || force) {
                Some(*state)
            } else {
                None
            }
        },
        Err(_) => None,
    }
}

proof fn lemma_closes_extend(cs: Seq<NativeCall>, cs2: Seq<NativeCall>, closed: Seq<CloseRecord>, closed2: Seq<CloseRecord>)
    requires
        closes_recorded(cs, closed),
        cs2 == cs + cs2.skip(cs.len() as int),
        forall|m: int| cs.len() <= m < cs2.len() ==> !((#[trigger] cs2[m]) is Close),
        closed2.len() >= closed.len(),
        forall|k: int| 0 <= k < closed.len() ==> closed2[k] == closed[k],
    ensures
        closes_recorded(cs2, closed2),
{
    assert forall|i: int| 0 <= i < cs2.len() && (#[trigger] cs2[i]) is Close implies exists|k: int|
        0 <= k < closed2.len() && (#[trigger] closed2[k]).target == cs2[i]->Close_0 && closed2[k].force_allowed
            == cs2[i]->Close_1 && closed2[k].state == close_outcome_state(cs2[i]->Close_3, cs2[i]->Close_1) by {
        assert(i < cs.len());
        assert(cs2[i] == cs[i]);
        let k = choose|k: int|
            0 <= k < closed.len() && (#[trigger] closed[k]).target == cs[i]->Close_0 && closed[k].force_allowed
                == cs[i]->Close_1 && closed[k].state == close_outcome_state(cs[i]->Close_3, cs[i]->Close_1);
        assert(closed2[k] == closed[k]);
    }
}

proof fn lemma_closes_add(cs: Seq<NativeCall>, closed: Seq<CloseRecord>, c: NativeCall, pos: int)
    requires
        closes_recorded(cs, closed),
        c is Close,
        0 <= pos < closed.len(),
        closed[pos].target == c->Close_0 && closed[pos].force_allowed == c->Close_1 && closed[pos].state
            == close_outcome_state(c->Close_3, c->Close_1),
    ensures
        closes_recorded(cs.push(c), closed),
{
    let cs2 = cs.push(c);
    assert forall|i: int| 0 <= i < cs2.len() && (#[trigger] cs2[i]) is Close implies exists|k: int|
        0 <= k < closed.len() && (#[trigger] closed[k]).target == cs2[i]->Close_0 && closed[k].force_allowed
            == cs2[i]->Close_1 && closed[k].state == close_outcome_state(cs2[i]->Close_3, cs2[i]->Close_1) by {
        if i < cs.len() {
            assert(cs2[i] == cs[i]);
        } else {
            assert(closed[pos].target == cs2[i]->Close_0);
        }
    }
}

/// Lowers one enabled property of one approved target, write-ahead, stopping on any
/// ambiguity.
#[verifier::rlimit(100)]
#[verifier::spinoff_prover]
fn apply_property<B: Backend, J: Journal>(
    s: &mut Session,
    b: &mut B,
    j: &mut J,
    idx: usize,
    property: Property,
    Ghost(s0): Ghost<Session>,
    Ghost(calls0): Ghost<Seq<NativeCall>>,
    Ghost(saved0): Ghost<(Seq<Session>, nat)>,
    Ghost(t): Ghost<Seq<Event>>,
) -> (out: (AppResult<()>, Ghost<Seq<Event>>))
    requires
        idx < old(s).plan.actions@.len(),
        old(s).plan.actions@[idx as int].action == ActionKind::LowerPriorities,
        apply_inv(*old(s), s0, old(b).calls(), journal_log(*old(j)), calls0, saved0, t),
        refusals(t) == 0,
        no_stops(natives(t), natives(t).len() as int),
        changes_from_reads(natives(t), old(s).changes@),
    ensures
        out.0 is Ok ==> refusals(out.1@) == 0,
        out.0 is Err ==> refusals(out.1@) > 0 || apply_halt(natives(out.1@)),
        extends(out.1@, t),
        apply_inv(*final(s), s0, final(b).calls(), journal_log(*final(j)), calls0, saved0, out.1@),
        final(s).stage == old(s).stage,
        final(s).closed == old(s).closed,
        natives(out.1@) == natives(t) + natives(out.1@).skip(natives(t).len() as int),
        forall|m: int| natives(t).len() <= m < natives(out.1@).len() ==> !((#[trigger] natives(out.1@)[m]) is Close),
        out.0 is Ok ==> no_stops(natives(out.1@), natives(out.1@).len() as int),
        no_stops(natives(out.1@), natives(out.1@).len() - 1),
        changes_from_reads(natives(out.1@), final(s).changes@),
        final(s).changes@.len() >= old(s).changes@.len(),
        forall|q: int| 0 <= q < old(s).changes@.len() ==> final(s).changes@[q] == old(s).changes@[q],
        out.0 is Ok ==> property_lowered(
            natives(out.1@),
            final(s).changes@,
            old(s).plan.actions@[idx as int].target,
            property,
        ),
{
    let target = s.plan.actions[idx].target.clone();
    let ghost mut tr = t;
    let ghost ir: int = natives(t).len() as int;
    let ghost cb = b.calls();
    let first = b.read(&target, property);
    proof {
        lemma_track_native(cb, journal_log(*j), calls0, saved0, tr, NativeCall::Read(target, property, first), 0);
        lemma_allowed_push(s0.plan, natives(tr), NativeCall::Read(target, property, first));
        tr = tr.push(Event::Native(NativeCall::Read(target, property, first)));
    }
    proof {
        assert(natives(tr) =~= natives(t) + natives(tr).skip(natives(t).len() as int));
        lemma_changes_extend(natives(t), natives(tr), s.changes@);
    }
    let (before, desired) = match lowering_step(property, &first) {
        LowerStep::Unavailable => {
            s.note("A selected policy is unavailable for this process; it was left unchanged.".to_string());
            let ghost sb = journal_log(*j);
        let saved = j.save(s);
            proof {
                if saved is Ok {
                    lemma_track_saved(b.calls(), sb, calls0, saved0, tr, *s);
                    tr = tr.push(Event::Saved(*s));
                } else {
                    lemma_track_refused(b.calls(), sb, calls0, saved0, tr, *s);
                    tr = tr.push(Event::Refused(*s));
                }
                assert(natives(tr) =~= natives(t) + natives(tr).skip(natives(t).len() as int));
                lemma_changes_extend(natives(t), natives(tr), s.changes@);
                assert(natives(tr)[ir] == NativeCall::Read(target, property, first));
                assert(read_handled(natives(tr)[ir], s.changes@));
            }
            return (saved, Ghost(tr));
        },
        LowerStep::Invalid => {
            return (Err("The native getter reported an invalid value; nothing was written.".to_string()), Ghost(tr));
        },
        LowerStep::AlreadyLow => {
            proof {
                assert(natives(tr)[ir] == NativeCall::Read(target, property, first));
                assert(read_handled(natives(tr)[ir], s.changes@));
            }
            return (Ok(()), Ghost(tr));
        },
        LowerStep::Lower(before, desired) => (before, desired),
    };
    s.changes.push(
        Change {
            target: target.clone(),
            before,
            applied: desired,
            state: ChangeState::Prepared,
            detail: "Write-ahead intent; the setter may or may not have run.".to_string(),
        },
    );
    let pos = s.changes.len() - 1;
    let ghost ncs = natives(tr);
    let ghost chs = s.changes@;
    proof {
        reveal(changes_from_reads);
        assert(ncs[ncs.len() - 1] == NativeCall::Read(target, property, first));
        assert forall|q: int| 0 <= q < chs.len() implies lowered_after_read(ncs, #[trigger] chs[q]) by {
            if q == pos {
                assert(ncs[ncs.len() - 1] == NativeCall::Read(chs[q].target, property_of(chs[q].before), Ok(chs[q].before)));
            } else {
                assert(chs[q] == old(s).changes@[q]);
            }
        }
    }
    let ghost sb = journal_log(*j);
        let saved = j.save(s);
    if saved.is_err() {
        proof {
            lemma_track_refused(b.calls(), sb, calls0, saved0, tr, *s);
            tr = tr.push(Event::Refused(*s));
            reveal(changes_from_reads);
            assert(natives(tr) =~= ncs + natives(tr).skip(ncs.len() as int));
            lemma_changes_extend(ncs, natives(tr), chs);
            assert forall|q: int| 0 <= q < s.changes@.len() implies lowered_after_read(natives(tr), #[trigger] s.changes@[q]) by {
                assert(lowered_after_read(natives(tr), chs[q]));
            }
        }
        return (saved, Ghost(tr));
    }
    let ghost k: int = tr.len() as int;
    let ghost intent_s: Session = *s;
    proof {
        lemma_track_saved(b.calls(), sb, calls0, saved0, tr, *s);
        tr = tr.push(Event::Saved(*s));
        assert(s.changes@[pos as int].target == target);
        assert(write_intent(*s, target, desired));
    }
    proof {
        assert(natives(tr) =~= natives(t) + natives(tr).skip(natives(t).len() as int));
    }
    let ghost tm = tr;
    let (step, Ghost(next)) = apply_lowering(
        s, b, j, idx, pos, target, property, before, desired, Ghost(s0), Ghost(calls0), Ghost(saved0), Ghost(tr), Ghost(ncs), Ghost(chs),
    );
    proof {
        tr = next;
        assert(natives(tr) =~= natives(t) + natives(tr).skip(natives(t).len() as int));
        assert(natives(tr)[ir] == NativeCall::Read(target, property, first));
        if step is Ok {
            assert(s.changes@[pos as int].target == target);
            assert(lowering_applied(s.changes@, target, before));
            assert(read_handled(natives(tr)[ir], s.changes@));
        }
    }
    (step, Ghost(tr))
}

/// The write-ahead part of lowering one setting: the intent to lower `before` to
/// `desired` (at `pos`) was just accepted; authorize again, check the value is unchanged,
/// write, and read back.
#[verifier::rlimit(100)]
#[verifier::spinoff_prover]
fn apply_lowering<B: Backend, J: Journal>(
    s: &mut Session,
    b: &mut B,
    j: &mut J,
    idx: usize,
    pos: usize,
    target: Identity,
    property: Property,
    before: Value,
    desired: Value,
    Ghost(s0): Ghost<Session>,
    Ghost(calls0): Ghost<Seq<NativeCall>>,
    Ghost(saved0): Ghost<(Seq<Session>, nat)>,
    Ghost(t): Ghost<Seq<Event>>,
    Ghost(ncs): Ghost<Seq<NativeCall>>,
    Ghost(chs): Ghost<Seq<Change>>,
) -> (out: (AppResult<()>, Ghost<Seq<Event>>))
    requires
        idx < old(s).plan.actions@.len(),
        old(s).plan.actions@[idx as int].action == ActionKind::LowerPriorities,
        old(s).plan.actions@[idx as int].target == target,
        apply_inv(*old(s), s0, old(b).calls(), journal_log(*old(j)), calls0, saved0, t),
        refusals(t) == 0,
        no_stops(natives(t), natives(t).len() as int),
        t.len() > 0,
        t.last() == Event::Saved(*old(s)),
        write_intent(*old(s), target, desired),
        pos < old(s).changes@.len(),
        old(s).changes@ == chs,
        chs[pos as int].target == target && chs[pos as int].before == before && chs[pos as int].applied == desired,
        chs[pos as int].state == ChangeState::Prepared,
        property_of(before) == property,
        valid_value(before),
        desired == background_of(before) && desired != before,
        ncs == natives(t),
        changes_from_reads(ncs, chs),
        ncs.len() > 0 && ncs.last() == NativeCall::Read(target, property, Ok(before)),
    ensures
        out.0 is Ok ==> refusals(out.1@) == 0,
        out.0 is Err ==> refusals(out.1@) > 0 || apply_halt(natives(out.1@)),
        extends(out.1@, t),
        apply_inv(*final(s), s0, final(b).calls(), journal_log(*final(j)), calls0, saved0, out.1@),
        final(s).stage == old(s).stage,
        final(s).closed == old(s).closed,
        natives(out.1@) == natives(t) + natives(out.1@).skip(natives(t).len() as int),
        forall|m: int| natives(t).len() <= m < natives(out.1@).len() ==> !((#[trigger] natives(out.1@)[m]) is Close),
        out.0 is Ok ==> no_stops(natives(out.1@), natives(out.1@).len() as int),
        no_stops(natives(out.1@), natives(out.1@).len() - 1),
        changes_from_reads(natives(out.1@), final(s).changes@),
        final(s).changes@.len() == old(s).changes@.len(),
        forall|q: int| 0 <= q < old(s).changes@.len() && q != pos ==> final(s).changes@[q] == old(s).changes@[q],
        final(s).changes@[pos as int].target == target && final(s).changes@[pos as int].before == before
            && final(s).changes@[pos as int].applied == desired,
        out.0 is Ok ==> final(s).changes@[pos as int].state == ChangeState::Applied,
{
    let ghost mut tr = t;
    let ghost k: int = t.len() - 1;
    let ghost intent_s: Session = *s;
    let ghost cb = b.calls();
    let gate = b.authorize(&target);
    proof {
        lemma_track_native(cb, journal_log(*j), calls0, saved0, tr, NativeCall::Authorize(target, gate), 0);
        lemma_allowed_push(s0.plan, natives(tr), NativeCall::Authorize(target, gate));
        tr = tr.push(Event::Native(NativeCall::Authorize(target, gate)));
    }
    if gate.is_err() {
        s.changes[pos].state = ChangeState::NotApplied;
        s.changes[pos].detail = "Cancelled or no longer authorized before the setter; not applied.".to_string();
        let ghost sb = journal_log(*j);
        let saved = j.save(s);
        proof {
            if saved is Ok {
                lemma_track_saved(b.calls(), sb, calls0, saved0, tr, *s);
                tr = tr.push(Event::Saved(*s));
            } else {
                lemma_track_refused(b.calls(), sb, calls0, saved0, tr, *s);
                tr = tr.push(Event::Refused(*s));
            }
        }
        proof {
        assert(natives(tr) =~= ncs + natives(tr).skip(ncs.len() as int));
        lemma_changes_step(ncs, natives(tr), chs, s.changes@, pos as int, 0);
        }
        return (Err("Cancelled before changing a process setting.".to_string()), Ghost(tr));
    }
    let ghost cb = b.calls();
    let second = b.read(&target, property);
    proof {
        lemma_track_native(cb, journal_log(*j), calls0, saved0, tr, NativeCall::Read(target, property, second), 0);
        lemma_allowed_push(s0.plan, natives(tr), NativeCall::Read(target, property, second));
        tr = tr.push(Event::Native(NativeCall::Read(target, property, second)));
    }
    let unchanged = match second {
        Ok(v) => v == before,
        Err(_) => false,
    };
    if !unchanged {
        s.changes[pos].state = ChangeState::NotApplied;
        s.changes[pos].detail = "The original value changed or became unreadable before the setter; not applied.".to_string();
        let ghost sb = journal_log(*j);
        let saved = j.save(s);
        proof {
            if saved is Ok {
                lemma_track_saved(b.calls(), sb, calls0, saved0, tr, *s);
                tr = tr.push(Event::Saved(*s));
            } else {
                lemma_track_refused(b.calls(), sb, calls0, saved0, tr, *s);
                tr = tr.push(Event::Refused(*s));
            }
        }
        proof {
        assert(natives(tr) =~= ncs + natives(tr).skip(ncs.len() as int));
        lemma_changes_step(ncs, natives(tr), chs, s.changes@, pos as int, 0);
        }
        return (Err("A setting changed between inspection and application; nothing was written.".to_string()), Ghost(tr));
    }
    let ghost cb = b.calls();
    let written = b.write(&target, &desired);
    proof {
        assert(tr[k] == Event::Saved(intent_s));
        assert(saved_intent(tr[k], NativeCall::Write(target, desired, written)));
        lemma_track_native(cb, journal_log(*j), calls0, saved0, tr, NativeCall::Write(target, desired, written), k);
        lemma_allowed_push(s0.plan, natives(tr), NativeCall::Write(target, desired, written));
        tr = tr.push(Event::Native(NativeCall::Write(target, desired, written)));
    }
    if written.is_err() {
        s.changes[pos].detail = "Setter failed or partially applied; recovery compares before writing.".to_string();
        let ghost sb = journal_log(*j);
        let saved = j.save(s);
        proof {
            if saved is Ok {
                lemma_track_saved(b.calls(), sb, calls0, saved0, tr, *s);
                tr = tr.push(Event::Saved(*s));
            } else {
                lemma_track_refused(b.calls(), sb, calls0, saved0, tr, *s);
                tr = tr.push(Event::Refused(*s));
            }
        }
        proof {
        assert(natives(tr) =~= ncs + natives(tr).skip(ncs.len() as int));
        lemma_changes_step(ncs, natives(tr), chs, s.changes@, pos as int, 0);
        }
        return (Err("A setting change was not confirmed; no further actions were taken.".to_string()), Ghost(tr));
    }
    let ghost cb = b.calls();
    let check = b.read(&target, property);
    proof {
        lemma_track_native(cb, journal_log(*j), calls0, saved0, tr, NativeCall::Read(target, property, check), 0);
        lemma_allowed_push(s0.plan, natives(tr), NativeCall::Read(target, property, check));
        tr = tr.push(Event::Native(NativeCall::Read(target, property, check)));
    }
    let confirmed = write_confirmed(&desired, &check);
    if confirmed {
        s.changes[pos].state = ChangeState::Applied;
        s.changes[pos].detail = "Applied and read back.".to_string();
    } else {
        s.changes[pos].detail = "Read-back differed or failed; recovery compares before writing.".to_string();
    }
    let ghost sb = journal_log(*j);
        let saved = j.save(s);
    proof {
        if saved is Ok {
            lemma_track_saved(b.calls(), sb, calls0, saved0, tr, *s);
            tr = tr.push(Event::Saved(*s));
        } else {
            lemma_track_refused(b.calls(), sb, calls0, saved0, tr, *s);
            tr = tr.push(Event::Refused(*s));
        }
        let cs = natives(tr);
        assert(cs =~= ncs + cs.skip(ncs.len() as int));
        let w = cs.len() - 2;
        if confirmed {
            assert(cs[w] == NativeCall::Write(target, desired, written));
            assert(cs[w + 1] == NativeCall::Read(target, property, check));
            assert(written == Ok::<(), Fault>(written->Ok_0));
            assert(check == Ok::<Value, Fault>(desired));
        }
        lemma_changes_step(ncs, cs, chs, s.changes@, pos as int, w);
    }
    if saved.is_err() {
        return (saved, Ghost(tr));
    }
    if !confirmed {
        return (Err("A setting change was not confirmed; no further actions were taken.".to_string()), Ghost(tr));
    }
    (Ok(()), Ghost(tr))
}

/// Requests one approved close, write-ahead; never escalates and never retries.
fn apply_close<B: Backend, J: Journal>(
    s: &mut Session,
    b: &mut B,
    j: &mut J,
    idx: usize,
    Ghost(s0): Ghost<Session>,
    Ghost(calls0): Ghost<Seq<NativeCall>>,
    Ghost(saved0): Ghost<(Seq<Session>, nat)>,
    Ghost(t): Ghost<Seq<Event>>,
) -> (out: (AppResult<()>, Ghost<Seq<Event>>))
    requires
        idx < old(s).plan.actions@.len(),
        old(s).plan.actions@[idx as int].action == ActionKind::Close || old(s).plan.actions@[idx as int].action
            == ActionKind::ForceClose,
        apply_inv(*old(s), s0, old(b).calls(), journal_log(*old(j)), calls0, saved0, t),
        refusals(t) == 0,
        no_stops(natives(t), natives(t).len() as int),
        closes_recorded(natives(t), old(s).closed@),
    ensures
        closes_recorded(natives(out.1@), final(s).closed@),
        out.0 is Ok ==> refusals(out.1@) == 0,
        out.0 is Err ==> refusals(out.1@) > 0 || apply_halt(natives(out.1@)),
        extends(out.1@, t),
        apply_inv(*final(s), s0, final(b).calls(), journal_log(*final(j)), calls0, saved0, out.1@),
        final(s).stage == old(s).stage,
        final(s).changes == old(s).changes,
        natives(out.1@) == natives(t) + natives(out.1@).skip(natives(t).len() as int),
        out.0 is Ok ==> no_stops(natives(out.1@), natives(out.1@).len() as int),
        no_stops(natives(out.1@), natives(out.1@).len() - 1),
        out.0 is Ok ==> close_requested(
            natives(out.1@),
            old(s).plan.actions@[idx as int].target,
            old(s).plan.actions@[idx as int].action == ActionKind::ForceClose,
        ) || found_gone(natives(out.1@), old(s).plan.actions@[idx as int].target),
{
    let force = s.plan.actions[idx].action == ActionKind::ForceClose;
    let timeout = s.plan.options.close_timeout_ms;
    let target = s.plan.actions[idx].target.clone();
    let ghost mut tr = t;
    s.closed.push(
        CloseRecord {
            target: target.clone(),
            force_allowed: force,
            state: CloseState::IntentRecorded,
            detail: "Close intent recorded. This is not an application-memory snapshot.".to_string(),
        },
    );
    let pos = s.closed.len() - 1;
    let ghost sb = journal_log(*j);
    let saved = j.save(s);
    if saved.is_err() {
        proof {
            lemma_closes_extend(natives(t), natives(tr), old(s).closed@, s.closed@);
            lemma_track_refused(b.calls(), sb, calls0, saved0, tr, *s);
            tr = tr.push(Event::Refused(*s));
        }
        return (saved, Ghost(tr));
    }
    let ghost k: int = tr.len() as int;
    let ghost intent_s: Session = *s;
    proof {
        lemma_track_saved(b.calls(), sb, calls0, saved0, tr, *s);
        tr = tr.push(Event::Saved(*s));
        assert(s.closed@[pos as int].target == target);
        assert(close_intent(*s, target, force));
    }
    let ghost cb = b.calls();
    let gate = b.authorize(&target);
    let ghost nc0 = natives(tr);
    proof {
        lemma_track_native(cb, journal_log(*j), calls0, saved0, tr, NativeCall::Authorize(target, gate), 0);
        lemma_allowed_push(s0.plan, natives(tr), NativeCall::Authorize(target, gate));
        tr = tr.push(Event::Native(NativeCall::Authorize(target, gate)));
    }
    let ghost nca = natives(tr);
    proof {
        assert(nca =~= natives(t) + nca.skip(natives(t).len() as int));
    }
    match gate {
        Err(e) => {
            let gone = e.kind == FaultKind::Gone;
            if gone {
                s.closed[pos].state = CloseState::AlreadyGone;
                s.closed[pos].detail = "The process exited before the request; nothing was sent.".to_string();
            } else {
                s.closed[pos].state = CloseState::NotRequested;
                s.closed[pos].detail = "Cancelled or no longer authorized; no close request was sent.".to_string();
            }
            let ghost sb = journal_log(*j);
            let saved = j.save(s);
            proof {
                if saved is Ok {
                    lemma_track_saved(b.calls(), sb, calls0, saved0, tr, *s);
                    tr = tr.push(Event::Saved(*s));
                } else {
                    lemma_track_refused(b.calls(), sb, calls0, saved0, tr, *s);
                    tr = tr.push(Event::Refused(*s));
                }
            }
            proof {
                lemma_closes_extend(natives(t), natives(tr), old(s).closed@, s.closed@);
            }
            if saved.is_err() {
                return (saved, Ghost(tr));
            }
            if gone {
                proof {
                    let ia = nca.len() - 1;
                    assert(nca[ia] == NativeCall::Authorize(target, gate));
                    assert(natives(tr)[ia] == nca[ia]);
                }
                return (Ok(()), Ghost(tr));
            }
            return (Err("Cancelled before a close request was sent.".to_string()), Ghost(tr));
        },
        Ok(()) => {},
    }
    let ghost cb = b.calls();
    let outcome = b.close(&target, force, timeout);
    proof {
        assert(tr[k] == Event::Saved(intent_s));
        assert(saved_intent(tr[k], NativeCall::Close(target, force, timeout, outcome)));
        let a = s0.plan.actions@[idx as int];
        assert(a.target == target);
        assert(apply_call_allowed(s0.plan, NativeCall::Close(target, force, timeout, outcome)));
        lemma_track_native(cb, journal_log(*j), calls0, saved0, tr, NativeCall::Close(target, force, timeout, outcome), k);
        lemma_allowed_push(s0.plan, natives(tr), NativeCall::Close(target, force, timeout, outcome));
        tr = tr.push(Event::Native(NativeCall::Close(target, force, timeout, outcome)));
    }
    let settled = match settled_close(&outcome, force) {
        Some(state) => {
            s.closed[pos].state = state;
            s.closed[pos].detail = "Close outcome recorded. Reopening cannot restore unsaved work.".to_string();
            true
        },
        None => {
            s.closed[pos].detail = match &outcome {
                Ok(_) => "Invalid close acknowledgement; the outcome is unknown and is never retried.".to_string(),
                Err(e) => e.message.clone(),
            };
            false
        },
    };
    proof {
        lemma_closes_extend(natives(t), nca, old(s).closed@, s.closed@);
        lemma_closes_add(nca, s.closed@, NativeCall::Close(target, force, timeout, outcome), pos as int);
    }
    let ghost sb = journal_log(*j);
    let saved = j.save(s);
    proof {
        if saved is Ok {
            lemma_track_saved(b.calls(), sb, calls0, saved0, tr, *s);
            tr = tr.push(Event::Saved(*s));
        } else {
            lemma_track_refused(b.calls(), sb, calls0, saved0, tr, *s);
            tr = tr.push(Event::Refused(*s));
        }
    }
    if saved.is_err() {
        return (saved, Ghost(tr));
    }
    if !settled {
        return (Err("A close request may have been delivered; its outcome is unknown and it is never retried.".to_string()), Ghost(tr));
    }
    proof {
        let ic = nca.len() as int;
        assert(natives(tr)[ic] == NativeCall::Close(target, force, timeout, outcome));
    }
    (Ok(()), Ghost(tr))
}

/// Every approved target is authorized, in plan order, before any record is saved
/// (and so, by write-ahead, before any mutation).
pub open spec fn preflighted(p: Plan, t: Seq<Event>) -> bool {
    (exists|k: int| 0 <= k < t.len() && (#[trigger] t[k]) is Saved) ==> authorized_first(p, t)
}

/// The run starts by authorizing every approved target in plan order.
pub open spec fn authorized_first(p: Plan, t: Seq<Event>) -> bool {
    &&& t.len() >= p.actions@.len()
    &&& forall|i: int|
        0 <= i < p.actions@.len() ==> authorizes(#[trigger] t[i], p.actions@[i].target)
}

/// The event authorizes target `t`.
pub open spec fn authorizes(e: Event, t: Identity) -> bool {
    e matches Event::Native(NativeCall::Authorize(x, _)) && x == t
}

/// `t2` continues `t`.
pub open spec fn extends(t2: Seq<Event>, t: Seq<Event>) -> bool {
    t2.len() >= t.len() && forall|m: int| 0 <= m < t.len() ==> t2[m] == t[m]
}

proof fn lemma_authorized_first_kept(p: Plan, t: Seq<Event>, t2: Seq<Event>)
    requires
        authorized_first(p, t),
        extends(t2, t),
    ensures
        authorized_first(p, t2),
{
    assert forall|i: int| 0 <= i < p.actions@.len() implies authorizes(#[trigger] t2[i], p.actions@[i].target) by {
        assert(t2[i] == t[i]);
    }
}

/// Every approved target was authorized first, in plan order, and each one was granted.
pub open spec fn preflight_passed(p: Plan, cs: Seq<NativeCall>) -> bool {
    &&& cs.len() >= p.actions@.len()
    &&& forall|i: int| 0 <= i < p.actions@.len() ==> #[trigger] cs[i] == NativeCall::Authorize(p.actions@[i].target, Ok(()))
}

/// The approved targets were authorized in plan order until one was refused, and nothing
/// else was called.
pub open spec fn preflight_denied(p: Plan, cs: Seq<NativeCall>) -> bool {
    exists|m: int|
        0 <= m < p.actions@.len() && cs.len() == m + 1 && (forall|i: int|
            0 <= i < m ==> #[trigger] cs[i] == NativeCall::Authorize(p.actions@[i].target, Ok(()))) && (
        #[trigger] cs[m]) is Authorize && cs[m]->Authorize_0 == p.actions@[m].target && cs[m]->Authorize_1 is Err
}

/// What an apply run of a valid pending session returns (`ok`) and leaves (`s` from `s0`):
/// a refused save fails the run; a failure ends with a refused save or a stopping answer;
/// either every target passed the authorization before anything else, or one was refused
/// there and the run failed with nothing recorded or changed; an answer that stops the run
/// is its last call and the run fails; every recorded change is a lowering made from
/// what was read, and every close call has a record with the state its answer gives; and
/// a successful run carried out every approved action.
pub open spec fn apply_outcome(s0: Session, s: Session, t: Seq<Event>, ok: bool) -> bool {
    &&& refusals(t) > 0 ==> !ok
    &&& !ok ==> refusals(t) > 0 || apply_halt(natives(t))
    &&& preflight_passed(s0.plan, natives(t)) || (!ok && preflight_denied(s0.plan, natives(t)) && saves(t).len()
        == 0 && refusals(t) == 0 && s == s0)
    &&& no_stops(natives(t), natives(t).len() - 1)
    &&& ok ==> no_stops(natives(t), natives(t).len() as int)
    &&& changes_from_reads(natives(t), s.changes@)
    &&& closes_recorded(natives(t), s.closed@)
    &&& ok ==> forall|m: int| 0 <= m < s0.plan.actions@.len() ==> #[trigger] action_done(s0.plan, natives(t), s.changes@, m)
}

/// An applied change lowered `v` of `t` to its background value.
pub open spec fn lowering_applied(changes: Seq<Change>, t: Identity, v: Value) -> bool {
    exists|k: int|
        0 <= k < changes.len() && (#[trigger] changes[k]).target == t && changes[k].before == v && changes[k].applied
            == background_of(v) && changes[k].state == ChangeState::Applied
}

/// A read that gave a valid value of its setting above the background value was followed
/// by an applied lowering of that value.
pub open spec fn read_handled(c: NativeCall, changes: Seq<Change>) -> bool {
    match c {
        NativeCall::Read(t, p, Ok(v)) => property_of(v) == p && valid_value(v) && background_of(v) != v
            ==> lowering_applied(changes, t, v),
        _ => true,
    }
}

/// Setting `p` of `t` was read, and lowered when it could be.
pub open spec fn property_lowered(cs: Seq<NativeCall>, changes: Seq<Change>, t: Identity, p: Property) -> bool {
    exists|i: int|
        0 <= i < cs.len() && (#[trigger] cs[i]) is Read && cs[i]->Read_0 == t && cs[i]->Read_1 == p && read_handled(
            cs[i],
            changes,
        )
}

/// An authorization found the process gone.
pub open spec fn found_gone(cs: Seq<NativeCall>, t: Identity) -> bool {
    exists|i: int|
        0 <= i < cs.len() && (#[trigger] cs[i]) is Authorize && cs[i]->Authorize_0 == t && cs[i]->Authorize_1 is Err && cs[i]->Authorize_1->Err_0.kind == FaultKind::Gone
}

/// A close of `t`, with this force permission, was requested.
pub open spec fn close_requested(cs: Seq<NativeCall>, t: Identity, force: bool) -> bool {
    exists|i: int| 0 <= i < cs.len() && (#[trigger] cs[i]) is Close && cs[i]->Close_0 == t && cs[i]->Close_1 == force
}

/// Action `m` of the plan was carried out: its process was found gone, or every enabled
/// setting of it was read and lowered when it could be, or its close was requested.
pub open spec fn action_done(p: Plan, cs: Seq<NativeCall>, changes: Seq<Change>, m: int) -> bool {
    let a = p.actions@[m];
    ||| found_gone(cs, a.target)
    ||| a.action == ActionKind::LowerPriorities && (p.options.gpu_priority ==> property_lowered(
        cs,
        changes,
        a.target,
        Property::GpuPriority,
    )) && (p.options.cpu_priority ==> property_lowered(cs, changes, a.target, Property::CpuPriority)) && (
    p.options.eco_qos ==> property_lowered(cs, changes, a.target, Property::EcoQos)) && (p.options.memory_priority
        ==> property_lowered(cs, changes, a.target, Property::MemoryPriority))
    ||| a.action != ActionKind::LowerPriorities && close_requested(cs, a.target, a.action == ActionKind::ForceClose)
}

proof fn lemma_lowered_extend(
    cs: Seq<NativeCall>,
    cs2: Seq<NativeCall>,
    ch: Seq<Change>,
    ch2: Seq<Change>,
    t: Identity,
    p: Property,
)
    requires
        property_lowered(cs, ch, t, p),
        cs2.len() >= cs.len(),
        forall|i: int| 0 <= i < cs.len() ==> cs2[i] == cs[i],
        ch2.len() >= ch.len(),
        forall|k: int| 0 <= k < ch.len() ==> ch2[k] == ch[k],
    ensures
        property_lowered(cs2, ch2, t, p),
{
    let i = choose|i: int|
        0 <= i < cs.len() && (#[trigger] cs[i]) is Read && cs[i]->Read_0 == t && cs[i]->Read_1 == p && read_handled(
            cs[i],
            ch,
        );
    assert(cs2[i] == cs[i]);
    if let NativeCall::Read(rt, rp, Ok(v)) = cs[i] {
        if property_of(v) == rp && valid_value(v) && background_of(v) != v {
            let k = choose|k: int|
                0 <= k < ch.len() && (#[trigger] ch[k]).target == rt && ch[k].before == v && ch[k].applied
                    == background_of(v) && ch[k].state == ChangeState::Applied;
            assert(ch2[k] == ch[k]);
            assert(lowering_applied(ch2, rt, v));
        }
    }
    assert(read_handled(cs2[i], ch2));
}

proof fn lemma_done_extend(p: Plan, cs: Seq<NativeCall>, cs2: Seq<NativeCall>, ch: Seq<Change>, ch2: Seq<Change>, m: int)
    requires
        0 <= m < p.actions@.len(),
        action_done(p, cs, ch, m),
        cs2.len() >= cs.len(),
        forall|i: int| 0 <= i < cs.len() ==> cs2[i] == cs[i],
        ch2.len() >= ch.len(),
        forall|k: int| 0 <= k < ch.len() ==> ch2[k] == ch[k],
    ensures
        action_done(p, cs2, ch2, m),
{
    let a = p.actions@[m];
    if found_gone(cs, a.target) {
        let i = choose|i: int|
            0 <= i < cs.len() && (#[trigger] cs[i]) is Authorize && cs[i]->Authorize_0 == a.target && cs[i]->Authorize_1 is Err && cs[i]->Authorize_1->Err_0.kind == FaultKind::Gone;
        assert(cs2[i] == cs[i]);
    } else if a.action == ActionKind::LowerPriorities {
        if p.options.gpu_priority {
            lemma_lowered_extend(cs, cs2, ch, ch2, a.target, Property::GpuPriority);
        }
        if p.options.cpu_priority {
            lemma_lowered_extend(cs, cs2, ch, ch2, a.target, Property::CpuPriority);
        }
        if p.options.eco_qos {
            lemma_lowered_extend(cs, cs2, ch, ch2, a.target, Property::EcoQos);
        }
        if p.options.memory_priority {
            lemma_lowered_extend(cs, cs2, ch, ch2, a.target, Property::MemoryPriority);
        }
    } else {
        let i = choose|i: int|
            0 <= i < cs.len() && (#[trigger] cs[i]) is Close && cs[i]->Close_0 == a.target && cs[i]->Close_1 == (a.action
                == ActionKind::ForceClose);
        assert(cs2[i] == cs[i]);
    }
}

proof fn lemma_all_done_extend(p: Plan, cs: Seq<NativeCall>, cs2: Seq<NativeCall>, ch: Seq<Change>, ch2: Seq<Change>, n: int)
    requires
        0 <= n <= p.actions@.len(),
        forall|m: int| 0 <= m < n ==> #[trigger] action_done(p, cs, ch, m),
        cs2.len() >= cs.len(),
        forall|i: int| 0 <= i < cs.len() ==> cs2[i] == cs[i],
        ch2.len() >= ch.len(),
        forall|k: int| 0 <= k < ch.len() ==> ch2[k] == ch[k],
    ensures
        forall|m: int| 0 <= m < n ==> #[trigger] action_done(p, cs2, ch2, m),
{
    assert forall|m: int| 0 <= m < n implies #[trigger] action_done(p, cs2, ch2, m) by {
        lemma_done_extend(p, cs, cs2, ch, ch2, m);
    }
}

proof fn lemma_passed_kept(p: Plan, cs: Seq<NativeCall>, cs2: Seq<NativeCall>)
    requires
        preflight_passed(p, cs),
        cs2 == cs + cs2.skip(cs.len() as int),
    ensures
        preflight_passed(p, cs2),
{
    assert forall|i: int| 0 <= i < p.actions@.len() implies #[trigger] cs2[i] == NativeCall::Authorize(p.actions@[i].target, Ok(())) by {
        assert(cs2[i] == cs[i]);
    }
}

/// A run that obeys write-ahead and touches only what the plan approves.
pub open spec fn apply_run(
    p: Plan,
    calls0: Seq<NativeCall>,
    calls: Seq<NativeCall>,
    saved0: (Seq<Session>, nat),
    saved: (Seq<Session>, nat),
    t: Seq<Event>,
) -> bool {
    tracks(calls, saved, calls0, saved0, t) && apply_calls_allowed(p, natives(t)) && preflighted(p, t)
}

/// Applies a pending, valid session: every target is authorized before anything is
/// recorded; each setting change and close is durably recorded before the native call;
/// any cancellation, ambiguity or journal failure stops further actions.
pub fn apply<B: Backend, J: Journal>(s: &mut Session, b: &mut B, j: &mut J) -> (r: AppResult<()>)
    ensures
        !(record_valid(*old(s)) && old(s).stage == Stage::Pending) ==> r is Err && *final(s)
            == *old(s) && final(b).calls() == old(b).calls() && journal_log(*final(j)) == journal_log(*old(j)),
        r is Ok ==> final(s).stage == Stage::Active,
        r is Ok ==> record_valid(*final(s)),
        final(s).plan == old(s).plan,
        final(s).id == old(s).id,
        final(s).schema == old(s).schema,
        final(s).game == old(s).game,
        final(s).reopened == old(s).reopened,
        r is Ok ==> journal_log(*final(j)).0.len() > 0 && journal_log(*final(j)).0.last() == *final(s),
        exists|t: Seq<Event>|
            apply_run(
                old(s).plan,
                old(b).calls(),
                final(b).calls(),
                journal_log(*old(j)),
                journal_log(*final(j)),
                t,
            ) && (record_valid(*old(s)) && old(s).stage == Stage::Pending ==> apply_outcome(*old(s), *final(s), t, r is Ok)),
{
    let ghost s0: Session = *s;
    let ghost calls0 = b.calls();
    let ghost saved0 = journal_log(*j);
    let ghost mut tr: Seq<Event> = Seq::empty();
    proof {
        assert(calls0 + natives(tr) =~= calls0);
        assert(saved0.0 + saves(tr) =~= saved0.0);
        assert(apply_run(s0.plan, calls0, b.calls(), saved0, journal_log(*j), tr));
    }
    let valid = validate_record(s);
    if valid.is_err() {
        return valid;
    }
    if s.stage != Stage::Pending {
        return Err("This session is not pending; its actions are never replayed.".to_string());
    }
    let n = s.plan.actions.len();
    let mut i: usize = 0;
    while i < n
        invariant
            n == s.plan.actions@.len(),
            i <= n,
            *s == s0,
            s0 == *old(s),
            calls0 == old(b).calls(),
            saved0 == journal_log(*old(j)),
            record_valid(s0),
            s0.stage == Stage::Pending,
            apply_inv(*s, s0, b.calls(), journal_log(*j), calls0, saved0, tr),
            refusals(tr) == 0,
            tr.len() == i,
            forall|m: int| 0 <= m < i ==> authorizes(#[trigger] tr[m], s0.plan.actions@[m].target),
            natives(tr).len() == i,
            saves(tr).len() == 0,
            forall|m: int| 0 <= m < i ==> #[trigger] natives(tr)[m] == NativeCall::Authorize(s0.plan.actions@[m].target, Ok(())),
        decreases n - i,
    {
        let target = s.plan.actions[i].target.clone();
        let ghost cb = b.calls();
        let gate = b.authorize(&target);
        proof {
            lemma_track_native(cb, journal_log(*j), calls0, saved0, tr, NativeCall::Authorize(target, gate), 0);
            lemma_allowed_push(s0.plan, natives(tr), NativeCall::Authorize(target, gate));
            tr = tr.push(Event::Native(NativeCall::Authorize(target, gate)));
        }
        if gate.is_err() {
            proof {
                assert(apply_run(s0.plan, calls0, b.calls(), saved0, journal_log(*j), tr));
                lemma_natives_push(tr.drop_last(), tr.last());
                assert(tr.drop_last().push(tr.last()) =~= tr);
                let cs = natives(tr);
                assert(cs[i as int] == NativeCall::Authorize(target, gate));
                assert(preflight_denied(s0.plan, cs));
                reveal(changes_from_reads);
                assert(no_stops(cs, cs.len() - 1)) by {
                    assert forall|q: int| 0 <= q < cs.len() - 1 implies !stops_run(#[trigger] cs[q]) by {
                        assert(cs[q] == NativeCall::Authorize(s0.plan.actions@[q].target, Ok(())));
                    }
                }
                assert(apply_outcome(s0, *s, tr, false));
            }
            return Err("A selected process is protected, gone or not authorized; nothing was changed.".to_string());
        }
        proof {
            assert(gate is Ok);
            assert(gate == Ok::<(), Fault>(gate->Ok_0));
        }
        i = i + 1;
    }
    let ghost tpre = tr;
    proof {
        assert(preflight_passed(s0.plan, natives(tpre)));
        assert(no_stops(natives(tpre), natives(tpre).len() as int)) by {
            assert forall|q: int| 0 <= q < natives(tpre).len() implies !stops_run(#[trigger] natives(tpre)[q]) by {
                assert(natives(tpre)[q] == NativeCall::Authorize(s0.plan.actions@[q].target, Ok(())));
            }
        }
        reveal(changes_from_reads);
        assert(changes_from_reads(natives(tpre), s.changes@));
    }
    s.stage = Stage::Preparing;
    let ghost sb = journal_log(*j);
    let saved = j.save(s);
    proof {
        if saved is Ok {
            lemma_track_saved(b.calls(), sb, calls0, saved0, tr, *s);
            let prev = tr;
            tr = tr.push(Event::Saved(*s));
            lemma_authorized_first_kept(s0.plan, prev, tr);
        } else {
            lemma_track_refused(b.calls(), sb, calls0, saved0, tr, *s);
            let prev = tr;
            tr = tr.push(Event::Refused(*s));
            lemma_authorized_first_kept(s0.plan, prev, tr);
        }
        assert(apply_run(s0.plan, calls0, b.calls(), saved0, journal_log(*j), tr));
    }
    if saved.is_err() {
        proof {
            lemma_logs_extend(tpre, tr);
            lemma_passed_kept(s0.plan, natives(tpre), natives(tr));
            assert(natives(tr) == natives(tpre));
        }
        return saved;
    }
    proof {
        assert(natives(tr) == natives(tpre));
        assert(closes_recorded(natives(tr), s.closed@)) by {
            assert forall|q: int| 0 <= q < natives(tr).len() implies !((#[trigger] natives(tr)[q]) is Close) by {
                assert(natives(tpre)[q] == NativeCall::Authorize(s0.plan.actions@[q].target, Ok(())));
            }
        }
    }
    let mut idx: usize = 0;
    while idx < n
        invariant
            n == s.plan.actions@.len(),
            idx <= n,
            s.stage == Stage::Preparing,
            s0 == *old(s),
            calls0 == old(b).calls(),
            saved0 == journal_log(*old(j)),
            record_valid(s0),
            s0.stage == Stage::Pending,
            apply_inv(*s, s0, b.calls(), journal_log(*j), calls0, saved0, tr),
            refusals(tr) == 0,
            authorized_first(s0.plan, tr),
            extends(tr, tpre),
            preflight_passed(s0.plan, natives(tpre)),
            no_stops(natives(tr), natives(tr).len() as int),
            changes_from_reads(natives(tr), s.changes@),
            closes_recorded(natives(tr), s.closed@),
            s.plan == s0.plan,
            forall|m: int| 0 <= m < idx ==> #[trigger] action_done(s0.plan, natives(tr), s.changes@, m),
        decreases n - idx,
    {
        let target = s.plan.actions[idx].target.clone();
        let kind = s.plan.actions[idx].action;
        let ghost cs_start = natives(tr);
        let ghost ch_start = s.changes@;
        let ghost cb = b.calls();
        let gate = b.authorize(&target);
        proof {
            lemma_track_native(cb, journal_log(*j), calls0, saved0, tr, NativeCall::Authorize(target, gate), 0);
            lemma_allowed_push(s0.plan, natives(tr), NativeCall::Authorize(target, gate));
            let prev = tr;
            tr = tr.push(Event::Native(NativeCall::Authorize(target, gate)));
            lemma_authorized_first_kept(s0.plan, prev, tr);
            assert(natives(tr) =~= natives(prev) + natives(tr).skip(natives(prev).len() as int));
            lemma_changes_extend(natives(prev), natives(tr), s.changes@);
            lemma_closes_extend(natives(prev), natives(tr), s.closed@, s.closed@);
            lemma_all_done_extend(s0.plan, natives(prev), natives(tr), s.changes@, s.changes@, idx as int);
        }
        let ghost t_auth = tr;
        proof {
            assert(natives(t_auth)[cs_start.len() as int] == NativeCall::Authorize(target, gate));
        }
        match gate {
            Err(e) => {
                if e.kind != FaultKind::Gone {
                    proof {
                        assert(apply_run(s0.plan, calls0, b.calls(), saved0, journal_log(*j), tr));
        lemma_logs_extend(tpre, tr);
        lemma_passed_kept(s0.plan, natives(tpre), natives(tr));
                    }
                    return Err("Cancelled or a target is no longer authorized; no further actions were taken.".to_string());
                }
                let ghost cl0 = s.closed@;
                if kind == ActionKind::LowerPriorities {
                    s.note("A selected process exited before its settings were changed.".to_string());
                } else {
                    s.closed.push(
                        CloseRecord {
                            target,
                            force_allowed: kind == ActionKind::ForceClose,
                            state: CloseState::AlreadyGone,
                            detail: "The process exited before the request; nothing was sent.".to_string(),
                        },
                    );
                }
                proof {
                    assert(natives(tr) =~= natives(tr) + natives(tr).skip(natives(tr).len() as int));
                    lemma_closes_extend(natives(tr), natives(tr), cl0, s.closed@);
                }
                let ghost sb = journal_log(*j);
                let saved = j.save(s);
                proof {
                    if saved is Ok {
                        lemma_track_saved(b.calls(), sb, calls0, saved0, tr, *s);
                        let prev = tr;
                        tr = tr.push(Event::Saved(*s));
                        lemma_authorized_first_kept(s0.plan, prev, tr);
                    } else {
                        lemma_track_refused(b.calls(), sb, calls0, saved0, tr, *s);
                        let prev = tr;
                        tr = tr.push(Event::Refused(*s));
                        lemma_authorized_first_kept(s0.plan, prev, tr);
                    }
                    assert(apply_run(s0.plan, calls0, b.calls(), saved0, journal_log(*j), tr));
        lemma_logs_extend(tpre, tr);
        lemma_passed_kept(s0.plan, natives(tpre), natives(tr));
                }
                if saved.is_err() {
                    return saved;
                }
                proof {
                    lemma_logs_extend(t_auth, tr);
                    let ia = cs_start.len() as int;
                    assert(natives(tr)[ia] == natives(t_auth)[ia]);
                    assert(found_gone(natives(tr), s0.plan.actions@[idx as int].target));
                    assert(action_done(s0.plan, natives(tr), s.changes@, idx as int));
                    lemma_all_done_extend(s0.plan, natives(t_auth), natives(tr), s.changes@, s.changes@, idx as int);
                }
            },
            Ok(()) => {
                if kind == ActionKind::LowerPriorities {
                    let o = s.plan.options.clone();
                    let properties: [(bool, Property); 4] = [
                        (o.gpu_priority, Property::GpuPriority),
                        (o.cpu_priority, Property::CpuPriority),
                        (o.eco_qos, Property::EcoQos),
                        (o.memory_priority, Property::MemoryPriority),
                    ];
                    let mut p: usize = 0;
                    while p < 4
                        invariant
                            n == s.plan.actions@.len(),
                            idx < n,
                            p <= 4,
                            s.stage == Stage::Preparing,
                            s.plan.actions@[idx as int].action == ActionKind::LowerPriorities,
                            s0 == *old(s),
                            calls0 == old(b).calls(),
                            saved0 == journal_log(*old(j)),
                            record_valid(s0),
                            s0.stage == Stage::Pending,
                            apply_inv(*s, s0, b.calls(), journal_log(*j), calls0, saved0, tr),
                            refusals(tr) == 0,
                            authorized_first(s0.plan, tr),
                            extends(tr, tpre),
                            preflight_passed(s0.plan, natives(tpre)),
                            no_stops(natives(tr), natives(tr).len() as int),
                            changes_from_reads(natives(tr), s.changes@),
                            closes_recorded(natives(tr), s.closed@),
                            s.plan == s0.plan,
                            o == s0.plan.options,
                            target == s0.plan.actions@[idx as int].target,
                            properties@ == seq![
                                (o.gpu_priority, Property::GpuPriority),
                                (o.cpu_priority, Property::CpuPriority),
                                (o.eco_qos, Property::EcoQos),
                                (o.memory_priority, Property::MemoryPriority),
                            ],
                            forall|m: int| 0 <= m < idx ==> #[trigger] action_done(s0.plan, natives(tr), s.changes@, m),
                            forall|r: int|
                                0 <= r < p && (#[trigger] properties@[r]).0 ==> property_lowered(
                                    natives(tr),
                                    s.changes@,
                                    target,
                                    properties@[r].1,
                                ),
                        decreases 4 - p,
                    {
                        let (enabled, property) = properties[p];
                        let ghost ch_prev = s.changes@;
                        proof {
                            assert((enabled, property) == properties@[p as int]);
                        }
                        if enabled {
                            let (step, Ghost(next)) = apply_property(
                                s,
                                b,
                                j,
                                idx,
                                property,
                                Ghost(s0),
                                Ghost(calls0),
                                Ghost(saved0),
                                Ghost(tr),
                            );
                            proof {
                                let prev = tr;
                                tr = next;
                                lemma_authorized_first_kept(s0.plan, prev, tr);
                                lemma_all_done_extend(s0.plan, natives(prev), natives(tr), ch_prev, s.changes@, idx as int);
                                assert forall|r: int|
                                    0 <= r < p && (#[trigger] properties@[r]).0 implies property_lowered(
                                    natives(tr),
                                    s.changes@,
                                    target,
                                    properties@[r].1,
                                ) by {
                                    lemma_lowered_extend(natives(prev), natives(tr), ch_prev, s.changes@, target, properties@[r].1);
                                }
                            }
                            if step.is_err() {
                                proof {
                                    assert(apply_run(s0.plan, calls0, b.calls(), saved0, journal_log(*j), tr));
        lemma_logs_extend(tpre, tr);
        lemma_passed_kept(s0.plan, natives(tpre), natives(tr));
                                }
                                return step;
                            }
                        }
                        p = p + 1;
                    }
                    proof {
                        assert(properties@[0] == (o.gpu_priority, Property::GpuPriority));
                        assert(properties@[1] == (o.cpu_priority, Property::CpuPriority));
                        assert(properties@[2] == (o.eco_qos, Property::EcoQos));
                        assert(properties@[3] == (o.memory_priority, Property::MemoryPriority));
                        assert(action_done(s0.plan, natives(tr), s.changes@, idx as int));
                    }
                } else {
                    let (step, Ghost(next)) = apply_close(
                        s,
                        b,
                        j,
                        idx,
                        Ghost(s0),
                        Ghost(calls0),
                        Ghost(saved0),
                        Ghost(tr),
                    );
                    proof {
                        let prev = tr;
                        tr = next;
                        lemma_authorized_first_kept(s0.plan, prev, tr);
                        lemma_changes_extend(natives(prev), natives(tr), s.changes@);
                        lemma_all_done_extend(s0.plan, natives(prev), natives(tr), s.changes@, s.changes@, idx as int);
                    }
                    if step.is_err() {
                        proof {
                            assert(apply_run(s0.plan, calls0, b.calls(), saved0, journal_log(*j), tr));
        lemma_logs_extend(tpre, tr);
        lemma_passed_kept(s0.plan, natives(tpre), natives(tr));
                        }
                        return step;
                    }
                }
            },
        }
        idx = idx + 1;
    }
    s.stage = Stage::Active;
    let ghost sb = journal_log(*j);
    let saved = j.save(s);
    proof {
        if saved is Ok {
            lemma_track_saved(b.calls(), sb, calls0, saved0, tr, *s);
            let prev = tr;
            lemma_natives_push(tr, Event::Saved(*s));
            tr = tr.push(Event::Saved(*s));
            lemma_authorized_first_kept(s0.plan, prev, tr);
        } else {
            lemma_track_refused(b.calls(), sb, calls0, saved0, tr, *s);
            let prev = tr;
            tr = tr.push(Event::Refused(*s));
            lemma_authorized_first_kept(s0.plan, prev, tr);
        }
        assert(apply_run(s0.plan, calls0, b.calls(), saved0, journal_log(*j), tr));
        lemma_logs_extend(tpre, tr);
        lemma_passed_kept(s0.plan, natives(tpre), natives(tr));
    }
    saved
}

/// A native call a restore run may make for the session as it was at the start: a
/// write only of a recorded original value, to a change that was neither resolved nor in
/// conflict; a launch only for an approved reopening after a verified graceful close
/// with no earlier launch record; never a close.
pub open spec fn restore_call_allowed(s0: Session, c: NativeCall) -> bool {
    match c {
        NativeCall::Read(t, p, _) => exists|k: int|
            0 <= k < s0.changes@.len() && (#[trigger] s0.changes@[k]).target == t
                && property_of(s0.changes@[k].before) == p && !change_resolved(s0.changes@[k].state),
        NativeCall::Write(t, v, _) => exists|k: int|
            0 <= k < s0.changes@.len() && (#[trigger] s0.changes@[k]).target == t
                && s0.changes@[k].before == v && !change_resolved(s0.changes@[k].state)
                && s0.changes@[k].state != ChangeState::Conflict,
        NativeCall::Close(_, _, _, _) => false,
        NativeCall::Reopen(t, _) => reopen_launch_allowed(s0, t),
        _ => true,
    }
}

/// `c` writes back an original right after `prev` read the value this session applied:
/// the same process and setting, and a change of the session at the start, unresolved
/// and not in conflict, recorded that original and that applied value.
pub open spec fn restoring_write(s0: Session, prev: NativeCall, c: NativeCall) -> bool {
    match (prev, c) {
        (NativeCall::Read(rt, rp, Ok(cur)), NativeCall::Write(t, v, _)) => rt == t && rp == property_of(v)
            && exists|k: int|
            0 <= k < s0.changes@.len() && (#[trigger] s0.changes@[k]).target == t && s0.changes@[k].before == v
                && s0.changes@[k].applied == cur && !change_resolved(s0.changes@[k].state)
                && s0.changes@[k].state != ChangeState::Conflict,
        _ => false,
    }
}

/// A launch for an approved reopening whose target this session closed gracefully and
/// for which no launch record exists yet.
pub open spec fn reopen_launch_allowed(s0: Session, t: Identity) -> bool {
    &&& exists|i: int|
        0 <= i < s0.plan.actions@.len() && (#[trigger] s0.plan.actions@[i]).target == t
            && s0.plan.actions@[i].reopen is Some
    &&& crate::integrity::gracefully_closed(s0, t)
    &&& forall|k: int|
        0 <= k < s0.reopened@.len() ==> !crate::policy::same_process_spec(
            (#[trigger] s0.reopened@[k]).target,
            t,
        )
}

/// The calls a restore run may make: each allowed, and every write puts back an original
/// right after a read found the value this session applied.
pub open spec fn restore_calls_allowed(s0: Session, cs: Seq<NativeCall>) -> bool {
    &&& forall|i: int| 0 <= i < cs.len() ==> restore_call_allowed(s0, #[trigger] cs[i])
    &&& forall|i: int| 0 <= i < cs.len() && (#[trigger] cs[i]) is Write ==> i >= 1 && restoring_write(s0, cs[i - 1], cs[i])
}

pub proof fn lemma_restore_allowed_push(s0: Session, cs: Seq<NativeCall>, c: NativeCall)
    requires
        restore_calls_allowed(s0, cs),
        restore_call_allowed(s0, c),
        c is Write ==> cs.len() >= 1 && restoring_write(s0, cs.last(), c),
    ensures
        restore_calls_allowed(s0, cs.push(c)),
{
    let n = cs.push(c);
    assert forall|i: int| 0 <= i < n.len() implies restore_call_allowed(s0, #[trigger] n[i]) by {
        if i < cs.len() {
            assert(n[i] == cs[i]);
        }
    }
    assert forall|i: int| 0 <= i < n.len() && (#[trigger] n[i]) is Write implies i >= 1 && restoring_write(s0, n[i - 1], n[i]) by {
        if i < cs.len() {
            assert(n[i] == cs[i]);
            assert(n[i - 1] == cs[i - 1]);
        } else {
            assert(n[i - 1] == cs.last());
        }
    }
}

/// Settings changes keep their target and values; resolved ones stay exactly as they were.
pub open spec fn changes_kept(s: Session, s0: Session) -> bool {
    &&& s.changes@.len() == s0.changes@.len()
    &&& forall|k: int|
        0 <= k < s.changes@.len() ==> (#[trigger] s.changes@[k]).target == s0.changes@[k].target
            && s.changes@[k].before == s0.changes@[k].before && s.changes@[k].applied
            == s0.changes@[k].applied
    &&& forall|k: int|
        0 <= k < s.changes@.len() && change_resolved(s0.changes@[k].state) ==> #[trigger] s.changes@[k]
            == s0.changes@[k]
}

/// What stays fixed during a restore run, and what the run has recorded so far.
pub open spec fn restore_inv(
    s: Session,
    s0: Session,
    calls: Seq<NativeCall>,
    saved: (Seq<Session>, nat),
    calls0: Seq<NativeCall>,
    saved0: (Seq<Session>, nat),
    t: Seq<Event>,
) -> bool {
    &&& s.plan == s0.plan
    &&& s.id == s0.id
    &&& s.schema == s0.schema
    &&& s.game == s0.game
    &&& s.worker == s0.worker
    &&& s.closed == s0.closed
    &&& changes_kept(s, s0)
    &&& tracks(calls, saved, calls0, saved0, t)
    &&& restore_calls_allowed(s0, natives(t))
}

/// The call reads or writes the setting that the change recorded, on the same process id.
pub open spec fn touches(c: NativeCall, ch: Change) -> bool {
    match c {
        NativeCall::Read(t, p, _) => t.pid == ch.target.pid && p == property_of(ch.before),
        NativeCall::Write(t, v, _) => t.pid == ch.target.pid && property_of(v) == property_of(ch.before),
        _ => false,
    }
}

/// The last call that touched the change's setting, if any.
pub open spec fn last_touch(cs: Seq<NativeCall>, ch: Change) -> Option<NativeCall>
    decreases cs.len(),
{
    if cs.len() == 0 {
        None
    } else if touches(cs.last(), ch) {
        Some(cs.last())
    } else {
        last_touch(cs.drop_last(), ch)
    }
}

/// The state recovery leaves a change in (`ch0` before, `ch` after), from the last call
/// that touched its setting: a read of the original means Restored; a read of any other
/// value means Conflict (the applied value only waits, as RestorePrepared, when the intent
/// to write it back could not be recorded); a vanished process means ProcessGone; any
/// other failed read, or a failed write, leaves it unresolved.
pub open spec fn settled_by(ch0: Change, last: NativeCall, ch: Change) -> bool {
    match last {
        NativeCall::Read(_, _, Ok(v)) => if v == ch0.before {
            ch.state == ChangeState::Restored
        } else {
            ch.state == ChangeState::Conflict || (v == ch0.applied && ch.state == ChangeState::RestorePrepared)
        },
        NativeCall::Read(_, _, Err(f)) => if f.kind == FaultKind::Gone {
            ch.state == ChangeState::ProcessGone
        } else {
            ch.state == ch0.state || ch.state == ChangeState::RestorePrepared
        },
        _ => ch.state == ChangeState::RestorePrepared,
    }
}

/// Every unresolved change of the session at the start ends as the last call touching
/// its setting says, or unchanged when no call touched it.
pub open spec fn restore_settled(s0: Session, s: Session, cs: Seq<NativeCall>) -> bool {
    forall|k: int|
        0 <= k < s0.changes@.len() && !change_resolved(s0.changes@[k].state) ==> match last_touch(
            cs,
            #[trigger] s0.changes@[k],
        ) {
            Some(c) => settled_by(s0.changes@[k], c, s.changes@[k]),
            None => s.changes@[k] == s0.changes@[k],
        }
}

proof fn lemma_last_touch_untouched(cs: Seq<NativeCall>, new: Seq<NativeCall>, ch: Change)
    requires
        forall|m: int| 0 <= m < new.len() ==> !touches(#[trigger] new[m], ch),
    ensures
        last_touch(cs + new, ch) == last_touch(cs, ch),
    decreases new.len(),
{
    if new.len() == 0 {
        assert(cs + new =~= cs);
    } else {
        let n2 = new.drop_last();
        assert((cs + new).drop_last() =~= cs + n2);
        assert((cs + new).last() == new.last());
        lemma_last_touch_untouched(cs, n2, ch);
    }
}

proof fn lemma_last_touch_ends(cs: Seq<NativeCall>, new: Seq<NativeCall>, ch: Change)
    requires
        new.len() > 0,
        touches(new.last(), ch),
    ensures
        last_touch(cs + new, ch) == Some(new.last()),
{
    assert((cs + new).last() == new.last());
}

/// Every change from position `idx` on that was unresolved at the start was visited:
/// some call touched its setting.
pub open spec fn visited_from(s0: Session, cs: Seq<NativeCall>, idx: int) -> bool {
    forall|k: int|
        idx <= k < s0.changes@.len() && !change_resolved(s0.changes@[k].state) ==> last_touch(
            cs,
            #[trigger] s0.changes@[k],
        ) is Some
}

/// The changes from position `idx` on have been visited and end as their last touching
/// call says; no call has touched the changes before `idx`.
pub open spec fn settled_after(s0: Session, s: Session, cs: Seq<NativeCall>, idx: int) -> bool {
    &&& forall|k: int|
        idx <= k < s0.changes@.len() && !change_resolved(s0.changes@[k].state) ==> match last_touch(
            cs,
            #[trigger] s0.changes@[k],
        ) {
            Some(c) => settled_by(s0.changes@[k], c, s.changes@[k]),
            None => s.changes@[k] == s0.changes@[k],
        }
    &&& forall|k: int| 0 <= k < idx && k < s0.changes@.len() ==> last_touch(cs, #[trigger] s0.changes@[k]) is None
}

/// A run's events extend another's: its calls and accepted records extend theirs.
pub proof fn lemma_logs_extend(t: Seq<Event>, t2: Seq<Event>)
    requires
        extends(t2, t),
    ensures
        natives(t2) == natives(t) + natives(t2).skip(natives(t).len() as int),
        saves(t2) == saves(t) + saves(t2).skip(saves(t).len() as int),
    decreases t2.len(),
{
    if t2.len() == t.len() {
        assert(t2 =~= t);
        assert(natives(t) + natives(t2).skip(natives(t).len() as int) =~= natives(t));
        assert(saves(t) + saves(t2).skip(saves(t).len() as int) =~= saves(t));
    } else {
        let t3 = t2.drop_last();
        assert(extends(t3, t));
        lemma_logs_extend(t, t3);
        assert(t3.push(t2.last()) =~= t2);
        lemma_natives_push(t3, t2.last());
        assert(natives(t) + natives(t2).skip(natives(t).len() as int) =~= natives(t2));
        assert(saves(t) + saves(t2).skip(saves(t).len() as int) =~= saves(t2));
    }
}

/// Recovery visits the recorded changes from the last to the first: a call on the setting
/// of a later change never comes after a call on the setting of an earlier one.
pub open spec fn reverse_visits(s0: Session, cs: Seq<NativeCall>) -> bool {
    forall|i: int, i2: int, k: int, k2: int|
        #![trigger touches(cs[i], s0.changes@[k]), touches(cs[i2], s0.changes@[k2])]
        0 <= i < i2 < cs.len() && 0 <= k < s0.changes@.len() && 0 <= k2 < s0.changes@.len() && touches(
            cs[i],
            s0.changes@[k],
        ) && touches(cs[i2], s0.changes@[k2]) ==> k2 <= k
}

/// No call touches the setting of one of the first `idx` changes.
pub open spec fn untouched_below(s0: Session, cs: Seq<NativeCall>, idx: int) -> bool {
    forall|i: int, k: int|
        0 <= i < cs.len() && 0 <= k < idx && k < s0.changes@.len() ==> !touches(#[trigger] cs[i], #[trigger] s0.changes@[k])
}

/// A call touches the setting of at most one recorded change.
proof fn lemma_touch_unique(s0: Session, c: NativeCall, k: int, k2: int)
    requires
        record_valid(s0),
        0 <= k < s0.changes@.len(),
        0 <= k2 < s0.changes@.len(),
        touches(c, s0.changes@[k]),
        touches(c, s0.changes@[k2]),
    ensures
        k == k2,
{
    if k < k2 {
        assert(!(s0.changes@[k].target.pid == s0.changes@[k2].target.pid && property_of(s0.changes@[k].before)
            == property_of(s0.changes@[k2].before)));
    } else if k2 < k {
        assert(!(s0.changes@[k2].target.pid == s0.changes@[k].target.pid && property_of(s0.changes@[k2].before)
            == property_of(s0.changes@[k].before)));
    }
}

proof fn lemma_reverse_step(s0: Session, cs1: Seq<NativeCall>, cs2: Seq<NativeCall>, idx: int)
    requires
        record_valid(s0),
        0 <= idx < s0.changes@.len(),
        reverse_visits(s0, cs1),
        untouched_below(s0, cs1, idx + 1),
        cs2 == cs1 + cs2.skip(cs1.len() as int),
        forall|m: int| cs1.len() <= m < cs2.len() ==> touches(#[trigger] cs2[m], s0.changes@[idx]),
    ensures
        reverse_visits(s0, cs2),
        untouched_below(s0, cs2, idx),
{
    assert forall|i: int, k: int|
        0 <= i < cs2.len() && 0 <= k < idx && k < s0.changes@.len() implies !touches(#[trigger] cs2[i], #[trigger] s0.changes@[k]) by {
        if i < cs1.len() {
            assert(cs2[i] == cs1[i]);
            assert(!touches(cs1[i], s0.changes@[k]));
        } else if touches(cs2[i], s0.changes@[k]) {
            assert(touches(cs2[i], s0.changes@[idx]));
            lemma_touch_unique(s0, cs2[i], k, idx);
        }
    }
    assert forall|i: int, i2: int, k: int, k2: int|
        #![trigger touches(cs2[i], s0.changes@[k]), touches(cs2[i2], s0.changes@[k2])]
        0 <= i < i2 < cs2.len() && 0 <= k < s0.changes@.len() && 0 <= k2 < s0.changes@.len() && touches(
            cs2[i],
            s0.changes@[k],
        ) && touches(cs2[i2], s0.changes@[k2]) implies k2 <= k by {
        if i2 < cs1.len() {
            assert(cs2[i] == cs1[i] && cs2[i2] == cs1[i2]);
            assert(touches(cs1[i], s0.changes@[k]) && touches(cs1[i2], s0.changes@[k2]));
        } else {
            assert(touches(cs2[i2], s0.changes@[idx]));
            lemma_touch_unique(s0, cs2[i2], k2, idx);
            if i < cs1.len() {
                assert(cs2[i] == cs1[i]);
                if k < idx + 1 {
                    assert(!touches(cs1[i], s0.changes@[k]));
                }
            } else {
                assert(touches(cs2[i], s0.changes@[idx]));
                lemma_touch_unique(s0, cs2[i], k, idx);
            }
        }
    }
}

proof fn lemma_reverse_untouched(s0: Session, cs1: Seq<NativeCall>, cs2: Seq<NativeCall>)
    requires
        reverse_visits(s0, cs1),
        cs2 == cs1 + cs2.skip(cs1.len() as int),
        forall|m: int| cs1.len() <= m < cs2.len() ==> (#[trigger] cs2[m]) is Reopen,
    ensures
        reverse_visits(s0, cs2),
{
    assert forall|i: int, i2: int, k: int, k2: int|
        #![trigger touches(cs2[i], s0.changes@[k]), touches(cs2[i2], s0.changes@[k2])]
        0 <= i < i2 < cs2.len() && 0 <= k < s0.changes@.len() && 0 <= k2 < s0.changes@.len() && touches(
            cs2[i],
            s0.changes@[k],
        ) && touches(cs2[i2], s0.changes@[k2]) implies k2 <= k by {
        if i2 >= cs1.len() {
            assert(cs2[i2] is Reopen);
        }
        assert(cs2[i] == cs1[i] && cs2[i2] == cs1[i2]);
        assert(touches(cs1[i], s0.changes@[k]) && touches(cs1[i2], s0.changes@[k2]));
    }
}

proof fn lemma_restore_step(
    s0: Session,
    s1: Session,
    s2: Session,
    cs1: Seq<NativeCall>,
    cs2: Seq<NativeCall>,
    idx: int,
)
    requires
        record_valid(s0),
        0 <= idx < s0.changes@.len(),
        s1.changes@.len() == s0.changes@.len(),
        s2.changes@.len() == s0.changes@.len(),
        settled_after(s0, s1, cs1, idx + 1),
        s1.changes@[idx] == s0.changes@[idx],
        cs2 == cs1 + cs2.skip(cs1.len() as int),
        forall|m: int| cs1.len() <= m < cs2.len() ==> touches(#[trigger] cs2[m], s0.changes@[idx]),
        change_resolved(s0.changes@[idx].state) ==> cs2 == cs1 && s2.changes@[idx] == s1.changes@[idx],
        !change_resolved(s0.changes@[idx].state) ==> cs2.len() > cs1.len() && settled_by(
            s0.changes@[idx],
            cs2.last(),
            s2.changes@[idx],
        ),
        forall|k: int| 0 <= k < s2.changes@.len() && k != idx ==> s2.changes@[k] == s1.changes@[k],
    ensures
        settled_after(s0, s2, cs2, idx),
        visited_from(s0, cs1, idx + 1) ==> visited_from(s0, cs2, idx),
{
    let new = cs2.skip(cs1.len() as int);
    assert forall|k: int| 0 <= k < s0.changes@.len() && k != idx implies last_touch(cs2, #[trigger] s0.changes@[k])
        == last_touch(cs1, s0.changes@[k]) by {
        assert forall|m: int| 0 <= m < new.len() implies !touches(#[trigger] new[m], s0.changes@[k]) by {
            assert(new[m] == cs2[cs1.len() + m]);
            assert(touches(cs2[cs1.len() + m], s0.changes@[idx]));
            if k < idx {
                assert(!(s0.changes@[k].target.pid == s0.changes@[idx].target.pid && property_of(s0.changes@[k].before)
                    == property_of(s0.changes@[idx].before)));
            } else {
                assert(!(s0.changes@[idx].target.pid == s0.changes@[k].target.pid && property_of(s0.changes@[idx].before)
                    == property_of(s0.changes@[k].before)));
            }
        }
        lemma_last_touch_untouched(cs1, new, s0.changes@[k]);
    }
    if !change_resolved(s0.changes@[idx].state) {
        assert(new.len() > 0);
        assert(new.last() == cs2.last());
        assert(new.last() == cs2[cs2.len() - 1]);
        lemma_last_touch_ends(cs1, new, s0.changes@[idx]);
    }
}

proof fn lemma_settled_untouched(s0: Session, s: Session, cs1: Seq<NativeCall>, cs2: Seq<NativeCall>)
    requires
        settled_after(s0, s, cs1, 0),
        cs2 == cs1 + cs2.skip(cs1.len() as int),
        forall|m: int| cs1.len() <= m < cs2.len() ==> (#[trigger] cs2[m]) is Reopen,
    ensures
        settled_after(s0, s, cs2, 0),
        visited_from(s0, cs1, 0) ==> visited_from(s0, cs2, 0),
{
    let new = cs2.skip(cs1.len() as int);
    assert forall|k: int| 0 <= k < s0.changes@.len() implies last_touch(cs2, #[trigger] s0.changes@[k])
        == last_touch(cs1, s0.changes@[k]) by {
        assert forall|m: int| 0 <= m < new.len() implies !touches(#[trigger] new[m], s0.changes@[k]) by {
            assert(new[m] == cs2[cs1.len() + m]);
        }
        lemma_last_touch_untouched(cs1, new, s0.changes@[k]);
    }
}

/// The session as recovery first records it: unchanged but marked as restoring.
pub open spec fn marked_restoring(s: Session) -> Session {
    Session { stage: Stage::Restoring, ..s }
}

/// What recovery does with a recorded change after reading its setting.
#[derive(Clone, Copy, Debug, PartialEq, Eq, Structural)]
pub enum CompareStep {
    /// The process is gone: nothing to restore, and no replacement is touched.
    Gone,
    /// The setting could not be read: the change stays unresolved.
    Unreadable,
    /// The setting already holds the original: restored without writing.
    Original,
    /// The setting still holds the value this session applied: write the original back.
    WriteBack,
    /// Someone else changed the setting (or it was already in conflict): keep it.
    Conflict,
}

/// Compares a recorded change with what reading its setting answered.
pub fn compare_step(ch: &Change, read: &NativeResult<Value>) -> (r: CompareStep)
    ensures
        r == match *read {
            Err(f) => if f.kind == FaultKind::Gone {
                CompareStep::Gone
            } else {
                CompareStep::Unreadable
            },
            Ok(v) => if v == ch.before {
                CompareStep::Original
            } else if v == ch.applied && ch.state != ChangeState::Conflict {
                CompareStep::WriteBack
            } else {
                CompareStep::Conflict
            },
        },
{
    match read {
        Err(f) => if f.kind == FaultKind::Gone {
            CompareStep::Gone
        } else {
            CompareStep::Unreadable
        },
        Ok(v) => if *v == ch.before {
            CompareStep::Original
        } else if *v == ch.applied && ch.state != ChangeState::Conflict {
            CompareStep::WriteBack
        } else {
            CompareStep::Conflict
        },
    }
}

/// Compares one recorded change with the live value and restores the original only
/// when the live value is still the one this session applied.
fn restore_change<B: Backend, J: Journal>(
    s: &mut Session,
    b: &mut B,
    j: &mut J,
    i: usize,
    Ghost(s0): Ghost<Session>,
    Ghost(calls0): Ghost<Seq<NativeCall>>,
    Ghost(saved0): Ghost<(Seq<Session>, nat)>,
    Ghost(t): Ghost<Seq<Event>>,
) -> (out: (AppResult<()>, Ghost<Seq<Event>>))
    requires
        i < old(s).changes@.len(),
        old(s).changes@[i as int] == s0.changes@[i as int],
        restore_inv(*old(s), s0, old(b).calls(), journal_log(*old(j)), calls0, saved0, t),
        refusals(t) == 0,
    ensures
        out.0 is Ok ==> refusals(out.1@) == 0,
        restore_inv(*final(s), s0, final(b).calls(), journal_log(*final(j)), calls0, saved0, out.1@),
        extends(out.1@, t),
        final(s).stage == old(s).stage,
        final(s).reopened == old(s).reopened,
        forall|k: int| 0 <= k < final(s).changes@.len() && k != i ==> final(s).changes@[k] == old(s).changes@[k],
        out.0 is Err ==> refusals(out.1@) > 0,
        natives(out.1@) == natives(t) + (natives(out.1@).skip(natives(t).len() as int)),
        forall|m: int|
            natives(t).len() <= m < natives(out.1@).len() ==> touches(#[trigger] natives(out.1@)[m], old(s).changes@[i as int]),
        change_resolved(old(s).changes@[i as int].state) ==> natives(out.1@) == natives(t) && final(s).changes@[i as int]
            == old(s).changes@[i as int],
        !change_resolved(old(s).changes@[i as int].state) ==> natives(out.1@).len() > natives(t).len() && settled_by(
            old(s).changes@[i as int],
            natives(out.1@).last(),
            final(s).changes@[i as int],
        ),
{
    let c = s.changes[i].clone();
    let ghost mut tr = t;
    if c.state.resolved() {
        return (Ok(()), Ghost(tr));
    }
    let property = c.before.property();
    let ghost cb = b.calls();
    let first = b.read(&c.target, property);
    proof {
        lemma_track_native(cb, journal_log(*j), calls0, saved0, tr, NativeCall::Read(c.target, property, first), 0);
        lemma_restore_allowed_push(s0, natives(tr), NativeCall::Read(c.target, property, first));
        tr = tr.push(Event::Native(NativeCall::Read(c.target, property, first)));
    }
    let step = compare_step(&c, &first);
    match step {
        CompareStep::Gone => {
            s.changes[i].state = ChangeState::ProcessGone;
            s.changes[i].detail = "Original process no longer exists; no replacement PID was touched.".to_string();
        },
        CompareStep::Unreadable => {
            s.changes[i].detail = "Recovery read failed; the change stays unresolved.".to_string();
        },
        _ => {
            if step == CompareStep::Original {
                s.changes[i].state = ChangeState::Restored;
                s.changes[i].detail = "Already at original value; no write needed.".to_string();
            } else if step == CompareStep::WriteBack {
                s.changes[i].state = ChangeState::RestorePrepared;
                let ghost sb = journal_log(*j);
                let saved = j.save(s);
                if saved.is_err() {
                    proof {
                        lemma_track_refused(b.calls(), sb, calls0, saved0, tr, *s);
                        tr = tr.push(Event::Refused(*s));
                    }
                    return (saved, Ghost(tr));
                }
                let ghost k: int = tr.len() as int;
                let ghost intent_s: Session = *s;
                proof {
                    lemma_track_saved(b.calls(), sb, calls0, saved0, tr, *s);
                    tr = tr.push(Event::Saved(*s));
                    assert(s.changes@[i as int].target == c.target);
                    assert(write_intent(*s, c.target, c.before));
                }
                let ghost cb = b.calls();
                let second = b.read(&c.target, property);
                proof {
                    lemma_track_native(cb, journal_log(*j), calls0, saved0, tr, NativeCall::Read(c.target, property, second), 0);
                    lemma_restore_allowed_push(s0, natives(tr), NativeCall::Read(c.target, property, second));
                    tr = tr.push(Event::Native(NativeCall::Read(c.target, property, second)));
                }
                match second {
                    Ok(now) => {
                        if now == c.applied {
                            let ghost cb = b.calls();
                            let written = b.write(&c.target, &c.before);
                            proof {
                                assert(tr[k] == Event::Saved(intent_s));
                                assert(saved_intent(tr[k], NativeCall::Write(c.target, c.before, written)));
                                assert(s0.changes@[i as int].target == c.target);
                                assert(restore_call_allowed(s0, NativeCall::Write(c.target, c.before, written)));
                                lemma_track_native(cb, journal_log(*j), calls0, saved0, tr, NativeCall::Write(c.target, c.before, written), k);
                                lemma_restore_allowed_push(s0, natives(tr), NativeCall::Write(c.target, c.before, written));
                                tr = tr.push(Event::Native(NativeCall::Write(c.target, c.before, written)));
                            }
                            match written {
                                Ok(()) => {
                                    let ghost cb = b.calls();
                                    let check = b.read(&c.target, property);
                                    proof {
                                        lemma_track_native(cb, journal_log(*j), calls0, saved0, tr, NativeCall::Read(c.target, property, check), 0);
                                        lemma_restore_allowed_push(s0, natives(tr), NativeCall::Read(c.target, property, check));
                                        tr = tr.push(Event::Native(NativeCall::Read(c.target, property, check)));
                                    }
                                    match check {
                                        Ok(actual) => {
                                            if actual == c.before {
                                                s.changes[i].state = ChangeState::Restored;
                                                s.changes[i].detail = "Original value restored and verified.".to_string();
                                            } else {
                                                s.changes[i].state = ChangeState::Conflict;
                                                s.changes[i].detail = "Value changed during restoration; not overwritten again.".to_string();
                                            }
                                        },
                                        Err(e) => {
                                            if e.kind == FaultKind::Gone {
                                                s.changes[i].state = ChangeState::ProcessGone;
                                            }
                                            s.changes[i].detail = e.message;
                                        },
                                    }
                                },
                                Err(e) => {
                                    s.changes[i].detail = "Recovery write failed; the change stays unresolved.".to_string();
                                },
                            }
                        } else if now == c.before {
                            s.changes[i].state = ChangeState::Restored;
                            s.changes[i].detail = "Already at original value; no write needed.".to_string();
                        } else {
                            s.changes[i].state = ChangeState::Conflict;
                            s.changes[i].detail = "An external change was detected. Kept current value; review required.".to_string();
                        }
                    },
                    Err(e) => {
                        if e.kind == FaultKind::Gone {
                            s.changes[i].state = ChangeState::ProcessGone;
                        }
                        s.changes[i].detail = e.message;
                    },
                }
            } else {
                s.changes[i].state = ChangeState::Conflict;
                s.changes[i].detail = "An external change was detected. Kept current value; review required.".to_string();
            }
        },
    }
    let ghost sb = journal_log(*j);
    let saved = j.save(s);
    proof {
        if saved is Ok {
            lemma_track_saved(b.calls(), sb, calls0, saved0, tr, *s);
            tr = tr.push(Event::Saved(*s));
        } else {
            lemma_track_refused(b.calls(), sb, calls0, saved0, tr, *s);
            tr = tr.push(Event::Refused(*s));
        }
    }
    (saved, Ghost(tr))
}

/// A restore run that obeys write-ahead and makes only the calls recovery may make.
pub open spec fn restore_run(
    s0: Session,
    calls0: Seq<NativeCall>,
    calls: Seq<NativeCall>,
    saved0: (Seq<Session>, nat),
    saved: (Seq<Session>, nat),
    t: Seq<Event>,
) -> bool {
    tracks(calls, saved, calls0, saved0, t) && restore_calls_allowed(s0, natives(t))
}

/// Idempotent, reverse-order compare-and-restore; never replays a close and never
/// relaunches after an interrupted launch.
pub fn restore<B: Backend, J: Journal>(s: &mut Session, b: &mut B, j: &mut J) -> (r: AppResult<()>)
    ensures
        !record_valid(*old(s)) ==> r is Err && *final(s) == *old(s) && final(b).calls()
            == old(b).calls() && journal_log(*final(j)) == journal_log(*old(j)),
        r is Ok ==> (final(s).stage == Stage::Restored || final(s).stage == Stage::RecoveryNeeded)
            && (final(s).stage == Stage::Restored <==> all_resolved(*final(s))),
        r is Ok ==> record_valid(*final(s)),
        final(s).plan == old(s).plan,
        final(s).id == old(s).id,
        final(s).schema == old(s).schema,
        final(s).game == old(s).game,
        final(s).worker == old(s).worker,
        final(s).closed == old(s).closed,
        changes_kept(*final(s), *old(s)),
        record_valid(*old(s)) ==> (r is Err <==> journal_log(*final(j)).1 > journal_log(*old(j)).1),
        record_valid(*old(s)) ==> (journal_log(*final(j)).0.len() > journal_log(*old(j)).0.len()
            && journal_log(*final(j)).0[journal_log(*old(j)).0.len() as int] == marked_restoring(*old(s))) || (
        journal_log(*final(j)) == (journal_log(*old(j)).0, journal_log(*old(j)).1 + 1) && final(b).calls()
            == old(b).calls()),
        r is Ok ==> journal_log(*final(j)).0.len() > 0 && journal_log(*final(j)).0.last() == *final(s),
        exists|t: Seq<Event>|
            restore_run(*old(s), old(b).calls(), final(b).calls(), journal_log(*old(j)), journal_log(*final(j)), t)
                && restore_settled(*old(s), *final(s), natives(t)) && reverse_visits(*old(s), natives(t)) && (r is Ok
                ==> visited_from(*old(s), natives(t), 0)) && (r is Ok ==> crate::reopen::launches_settled(
                *old(s),
                *final(s),
                natives(t),
                old(s).plan.actions@.len() as int,
            )),
{
    let ghost s0: Session = *s;
    let ghost calls0 = b.calls();
    let ghost saved0 = journal_log(*j);
    let ghost mut tr: Seq<Event> = Seq::empty();
    proof {
        assert(calls0 + natives(tr) =~= calls0);
        assert(saved0.0 + saves(tr) =~= saved0.0);
        assert(restore_run(s0, calls0, b.calls(), saved0, journal_log(*j), tr));
    }
    let valid = validate_record(s);
    if valid.is_err() {
        return valid;
    }
    s.stage = Stage::Restoring;
    let ghost sb = journal_log(*j);
    let saved = j.save(s);
    proof {
        if saved is Ok {
            lemma_track_saved(b.calls(), sb, calls0, saved0, tr, *s);
            tr = tr.push(Event::Saved(*s));
        } else {
            lemma_track_refused(b.calls(), sb, calls0, saved0, tr, *s);
            tr = tr.push(Event::Refused(*s));
        }
        assert(restore_run(s0, calls0, b.calls(), saved0, journal_log(*j), tr));
    }
    if saved.is_err() {
        proof {
            assert(restore_settled(s0, *s, natives(tr)));
        }
        return saved;
    }
    let ghost t1 = tr;
    proof {
        assert(t1 == seq![Event::Saved(marked_restoring(s0))]);
        assert(natives(t1) =~= Seq::<NativeCall>::empty()) by {
            assert(t1.drop_last() =~= Seq::<Event>::empty());
        }
        assert(saves(t1) =~= seq![marked_restoring(s0)]) by {
            assert(t1.drop_last() =~= Seq::<Event>::empty());
        }
    }
    let mut idx: usize = s.changes.len();
    while idx > 0
        invariant
            idx <= s.changes@.len(),
            extends(tr, t1),
            saves(t1) == seq![marked_restoring(s0)],
            settled_after(s0, *s, natives(tr), idx as int),
            s0 == *old(s),
            calls0 == old(b).calls(),
            saved0 == journal_log(*old(j)),
            s.stage == Stage::Restoring,
            record_valid(s0),
            s.reopened == s0.reopened,
            restore_inv(*s, s0, b.calls(), journal_log(*j), calls0, saved0, tr),
            refusals(tr) == 0,
            forall|k: int| 0 <= k < idx ==> s.changes@[k] == s0.changes@[k],
            forall|i: int| 0 <= i < natives(tr).len() ==> !((#[trigger] natives(tr)[i]) is Reopen),
            reverse_visits(s0, natives(tr)),
            untouched_below(s0, natives(tr), idx as int),
            visited_from(s0, natives(tr), idx as int),
        decreases idx,
    {
        idx = idx - 1;
        let ghost s1 = *s;
        let ghost tr1 = tr;
        let (step, Ghost(next)) = restore_change(s, b, j, idx, Ghost(s0), Ghost(calls0), Ghost(saved0), Ghost(tr));
        proof {
            tr = next;
            lemma_restore_step(s0, s1, *s, natives(tr1), natives(tr), idx as int);
            lemma_reverse_step(s0, natives(tr1), natives(tr), idx as int);
            assert(extends(tr, t1));
            assert forall|i: int| 0 <= i < natives(tr).len() implies !((#[trigger] natives(tr)[i]) is Reopen) by {
                if i >= natives(tr1).len() {
                    assert(touches(natives(tr)[i], s1.changes@[idx as int]));
                } else {
                    assert(natives(tr)[i] == natives(tr1)[i]);
                }
            }
        }
        if step.is_err() {
            proof {
                assert(restore_run(s0, calls0, b.calls(), saved0, journal_log(*j), tr));
                lemma_logs_extend(t1, tr);
                assert(saves(tr)[0] == marked_restoring(s0));
                assert(settled_after(s0, *s, natives(tr), 0)) by {
                    assert forall|k: int| 0 <= k < idx implies last_touch(natives(tr), #[trigger] s0.changes@[k]) is None by {}
                }
            }
            return step;
        }
    }
    let ghost tr1 = tr;
    let (step, Ghost(next)) = crate::reopen::reopen_phase(s, b, j, Ghost(s0), Ghost(calls0), Ghost(saved0), Ghost(tr));
    proof {
        tr = next;
        lemma_settled_untouched(s0, *s, natives(tr1), natives(tr));
        lemma_reverse_untouched(s0, natives(tr1), natives(tr));
        assert(extends(tr, t1));
    }
    if step.is_err() {
        proof {
            assert(restore_run(s0, calls0, b.calls(), saved0, journal_log(*j), tr));
            lemma_logs_extend(t1, tr);
            assert(saves(tr)[0] == marked_restoring(s0));
        }
        return step;
    }
    let ghost phased: Session = *s;
    let ghost cs_done = natives(tr);
    let done = crate::integrity::resolved_check(s);
    s.stage = if done {
        Stage::Restored
    } else {
        Stage::RecoveryNeeded
    };
    let mut uncertain = false;
    let mut k: usize = 0;
    while k < s.closed.len()
        invariant
            k <= s.closed@.len(),
        decreases s.closed@.len() - k,
    {
        if uncertain_close(&s.closed[k].state) {
            uncertain = true;
        }
        k = k + 1;
    }
    if uncertain {
        s.note("A close outcome is unknown after interruption. No close or reopen was replayed.".to_string());
    }
    let ghost sb = journal_log(*j);
    let saved = j.save(s);
    proof {
        if saved is Ok {
            lemma_track_saved(b.calls(), sb, calls0, saved0, tr, *s);
            lemma_natives_push(tr, Event::Saved(*s));
            tr = tr.push(Event::Saved(*s));
        } else {
            lemma_track_refused(b.calls(), sb, calls0, saved0, tr, *s);
            lemma_natives_push(tr, Event::Refused(*s));
            tr = tr.push(Event::Refused(*s));
        }
        assert(restore_run(s0, calls0, b.calls(), saved0, journal_log(*j), tr));
        lemma_logs_extend(t1, tr);
        assert(saves(tr)[0] == marked_restoring(s0));
        assert(natives(tr) == cs_done);
        assert(s.reopened == phased.reopened);
        crate::reopen::lemma_launches_same_records(s0, phased, *s, cs_done, s0.plan.actions@.len() as int);
    }
    saved
}

/// Recovery never replays a close, and once every setting is resolved (as after a
/// successful restoration) it neither reads nor writes any setting again: restoring is
/// idempotent.
pub proof fn law_restore_never_rewrites_resolved(s0: Session, cs: Seq<NativeCall>)
    requires
        restore_calls_allowed(s0, cs),
        forall|k: int| 0 <= k < s0.changes@.len() ==> change_resolved(#[trigger] s0.changes@[k].state),
    ensures
        forall|i: int| 0 <= i < cs.len() ==> !(#[trigger] cs[i] is Write) && !(cs[i] is Close) && !(cs[i] is Read),
{
    assert forall|i: int| 0 <= i < cs.len() implies !(#[trigger] cs[i] is Write) && !(cs[i] is Close) && !(cs[i] is Read) by {
        assert(restore_call_allowed(s0, cs[i]));
    }
}

/// Recovery never writes blindly: each write puts back a recorded original, right after
/// a read of that same setting of that same process found the value this session applied.
pub proof fn law_restore_compares_before_writing(s0: Session, cs: Seq<NativeCall>)
    requires
        restore_calls_allowed(s0, cs),
    ensures
        forall|i: int| 0 <= i < cs.len() && (#[trigger] cs[i]) is Write ==> i >= 1 && restoring_write(s0, cs[i - 1], cs[i]),
{
}

/// Applying never writes blindly either, and never raises: each write goes to a process
/// approved for lowering, right after a read of that same setting that gave a valid value,
/// and writes the background value of what was read, which differs from it and asks no
/// more of the scheduler.
pub proof fn law_apply_reads_before_lowering(p: Plan, cs: Seq<NativeCall>)
    requires
        apply_calls_allowed(p, cs),
    ensures
        forall|i: int|
            0 <= i < cs.len() && (#[trigger] cs[i]) is Write ==> i >= 1 && lowering_write(cs[i - 1], cs[i])
                && (cs[i - 1] matches NativeCall::Read(_, _, Ok(cur)) && not_higher(cs[i]->Write_1, cur))
                && exists|k: int|
                0 <= k < p.actions@.len() && (#[trigger] p.actions@[k]).target == cs[i]->Write_0
                    && p.actions@[k].action == ActionKind::LowerPriorities,
{
    assert forall|i: int| 0 <= i < cs.len() && (#[trigger] cs[i]) is Write implies i >= 1 && lowering_write(cs[i - 1], cs[i])
        && (cs[i - 1] matches NativeCall::Read(_, _, Ok(cur)) && not_higher(cs[i]->Write_1, cur))
        && exists|k: int|
        0 <= k < p.actions@.len() && (#[trigger] p.actions@[k]).target == cs[i]->Write_0
            && p.actions@[k].action == ActionKind::LowerPriorities by {
        assert(apply_call_allowed(p, cs[i]));
        if let NativeCall::Read(_, _, Ok(cur)) = cs[i - 1] {
            crate::model::law_background_never_raises(cur);
        }
    }
}

} // verus!
