//! Optional reopening is a new irreversible launch, not settings restoration.
use crate::engine::{
    extends, lemma_natives_push, lemma_restore_allowed_push, lemma_track_native, lemma_track_refused, lemma_track_saved, natives, refusals,
    intent_recorded, restore_call_allowed, restore_calls_allowed, restore_inv, restore_run, saved_intent, saves, tracks, Backend, Event,
    NativeCall,
};
use crate::integrity::{gracefully_closed, graceful_check, record_valid, replacement_check, validate_record};
use crate::journal::{journal_log, Journal};
use crate::model::{clone_approval_option, AppResult, ReopenRecord, ReopenState, Session};
use crate::policy::{normalized, same_process, same_process_spec};
use vstd::prelude::*;

verus! {

/// Whether an adapter's launch report may be stored as the outcome for `target`:
/// it names the same lifetime, is an outcome rather than an intent, reports a child
/// exactly when started, and any child is a new lifetime of the same executable.
pub open spec fn launch_report_allowed(r: ReopenRecord, target: crate::model::Identity) -> bool {
    &&& crate::model::identity_eq(r.target, target)
    &&& r.state != ReopenState::IntentRecorded
    &&& (r.state == ReopenState::Started) == (r.child is Some)
    &&& r.child matches Some(ch) ==> crate::integrity::replacement_allowed(ch, target)
}

fn launch_report_check(r: &ReopenRecord, target: &crate::model::Identity) -> (ok: bool)
    ensures
        ok == launch_report_allowed(*r, *target),
{
    if r.target != *target || r.state == ReopenState::IntentRecorded || (r.state
        == ReopenState::Started) != r.child.is_some() {
        return false;
    }
    match &r.child {
        Some(ch) => replacement_check(ch, target),
        None => true,
    }
}

/// The calls a run added after `t` are launches only.
pub open spec fn only_launches(t: Seq<Event>, tr: Seq<Event>) -> bool {
    &&& natives(tr) == natives(t) + natives(tr).skip(natives(t).len() as int)
    &&& forall|m: int| natives(t).len() <= m < natives(tr).len() ==> (#[trigger] natives(tr)[m]) is Reopen
}

proof fn lemma_only_launches(t: Seq<Event>, tr: Seq<Event>, e: Event)
    requires
        only_launches(t, tr),
        e is Native ==> e->Native_0 is Reopen,
    ensures
        only_launches(t, tr.push(e)),
{
    crate::engine::lemma_natives_push(tr, e);
    let n = natives(tr.push(e));
    if e is Native {
        assert(n == natives(tr).push(e->Native_0));
    }
    assert(natives(t) + n.skip(natives(t).len() as int) =~= n);
}

/// The session at the start had a launch record for this process.
pub open spec fn had_record(s0: Session, t: crate::model::Identity) -> bool {
    exists|k: int| 0 <= k < s0.reopened@.len() && same_process_spec((#[trigger] s0.reopened@[k]).target, t)
}

/// The answer to the last launch call for `t`, if one was made.
pub open spec fn launch_answer(cs: Seq<NativeCall>, t: crate::model::Identity) -> Option<crate::model::NativeResult<ReopenRecord>>
    decreases cs.len(),
{
    if cs.len() == 0 {
        None
    } else {
        match cs.last() {
            NativeCall::Reopen(x, r) => if x == t {
                Some(r)
            } else {
                launch_answer(cs.drop_last(), t)
            },
            _ => launch_answer(cs.drop_last(), t),
        }
    }
}

/// The launch record of an approved reopening of `t` that had none: Skipped without this
/// session's verified graceful closure of `t`; otherwise the adapter's report when it is a
/// valid outcome for `t`, and Indeterminate when the launch failed, was not made, or was
/// reported invalidly.
pub open spec fn new_launch_record(s0: Session, t: crate::model::Identity, rec: ReopenRecord, cs: Seq<NativeCall>) -> bool {
    &&& crate::model::identity_eq(rec.target, t)
    &&& if !gracefully_closed(s0, t) {
        rec.state == ReopenState::Skipped && rec.child is None
    } else {
        match launch_answer(cs, t) {
            Some(Ok(report)) => if launch_report_allowed(report, t) {
                rec == report
            } else {
                rec.state == ReopenState::Indeterminate
            },
            _ => rec.state == ReopenState::Indeterminate,
        }
    }
}

/// One of the first `a` actions approves reopening `t`'s process.
pub open spec fn approved_before(s0: Session, t: crate::model::Identity, a: int) -> bool {
    exists|m: int|
        0 <= m < a && (#[trigger] s0.plan.actions@[m]).reopen is Some && same_process_spec(t, s0.plan.actions@[m].target)
}

/// Launch records present at the start, after the first `a` actions were handled: a
/// launch intent that survived an interruption and is approved becomes Indeterminate
/// (never relaunched); every other earlier record stays as it was.
#[verifier::opaque]
pub open spec fn earlier_launches_settled(s0: Session, s: Session, a: int) -> bool {
    &&& s.reopened@.len() >= s0.reopened@.len()
    &&& forall|k: int|
        0 <= k < s0.reopened@.len() ==> if (#[trigger] s0.reopened@[k]).state == ReopenState::IntentRecorded
            && approved_before(s0, s0.reopened@[k].target, a) {
            s.reopened@[k].target == s0.reopened@[k].target && s.reopened@[k].child == s0.reopened@[k].child
                && s.reopened@[k].state == ReopenState::Indeterminate
        } else {
            s.reopened@[k] == s0.reopened@[k]
        }
}

/// Action `m` approves reopening a process that had no launch record at the start, and
/// `rec` is the record `new_launch_record` describes for it.
pub open spec fn launch_for(s0: Session, rec: ReopenRecord, cs: Seq<NativeCall>, m: int) -> bool {
    &&& s0.plan.actions@[m].reopen is Some
    &&& !had_record(s0, s0.plan.actions@[m].target)
    &&& new_launch_record(s0, s0.plan.actions@[m].target, rec, cs)
}

/// `rec` is the new launch record of one of the first `a` actions.
pub open spec fn launch_by_some(s0: Session, rec: ReopenRecord, cs: Seq<NativeCall>, a: int) -> bool {
    exists|m: int| 0 <= m < a && #[trigger] launch_for(s0, rec, cs, m)
}

/// Action `m` got a new launch record in `s`.
pub open spec fn launch_recorded(s0: Session, s: Session, cs: Seq<NativeCall>, m: int) -> bool {
    exists|k: int| s0.reopened@.len() <= k < s.reopened@.len() && #[trigger] launch_for(s0, s.reopened@[k], cs, m)
}

/// Each record added after the first `a` actions is the new launch record of one of them.
#[verifier::opaque]
pub open spec fn new_launches_described(s0: Session, s: Session, cs: Seq<NativeCall>, a: int) -> bool {
    forall|k: int|
        s0.reopened@.len() <= k < s.reopened@.len() ==> #[trigger] launch_by_some(s0, s.reopened@[k], cs, a)
}

/// Every approved reopening among the first `a` actions that had no record got one.
#[verifier::opaque]
pub open spec fn new_launches_present(s0: Session, s: Session, cs: Seq<NativeCall>, a: int) -> bool {
    forall|m: int|
        0 <= m < a && (#[trigger] s0.plan.actions@[m]).reopen is Some && !had_record(s0, s0.plan.actions@[m].target)
            ==> launch_recorded(s0, s, cs, m)
}

/// Every launch call so far was for the target of one of the first `a` actions.
#[verifier::opaque]
pub open spec fn launches_handled(s0: Session, cs: Seq<NativeCall>, a: int) -> bool {
    forall|i: int|
        0 <= i < cs.len() && (#[trigger] cs[i]) is Reopen ==> exists|m: int|
            0 <= m < a && cs[i]->Reopen_0 == (#[trigger] s0.plan.actions@[m]).target
}

/// No process is launched twice: launch calls go to distinct process ids.
#[verifier::opaque]
pub open spec fn launches_distinct(cs: Seq<NativeCall>) -> bool {
    forall|i: int, i2: int|
        0 <= i < i2 < cs.len() && (#[trigger] cs[i]) is Reopen && (#[trigger] cs[i2]) is Reopen ==> cs[i]->Reopen_0.pid
            != cs[i2]->Reopen_0.pid
}

/// The launch records after the first `a` actions were handled.
pub open spec fn launches_settled(s0: Session, s: Session, cs: Seq<NativeCall>, a: int) -> bool {
    &&& earlier_launches_settled(s0, s, a)
    &&& new_launches_described(s0, s, cs, a)
    &&& new_launches_present(s0, s, cs, a)
    &&& launches_handled(s0, cs, a)
    &&& launches_distinct(cs)
}

proof fn lemma_launch_none(cs: Seq<NativeCall>, t: crate::model::Identity)
    requires
        forall|i: int| 0 <= i < cs.len() && (#[trigger] cs[i]) is Reopen ==> cs[i]->Reopen_0 != t,
    ensures
        launch_answer(cs, t) is None,
    decreases cs.len(),
{
    if cs.len() > 0 {
        let c = cs.drop_last();
        assert forall|i: int| 0 <= i < c.len() && (#[trigger] c[i]) is Reopen implies c[i]->Reopen_0 != t by {
            assert(c[i] == cs[i]);
        }
        lemma_launch_none(c, t);
        assert(cs.last() == cs[cs.len() - 1]);
    }
}

proof fn lemma_launch_fresh(s0: Session, cs: Seq<NativeCall>, a: int)
    requires
        record_valid(s0),
        launches_handled(s0, cs, a),
        0 <= a < s0.plan.actions@.len(),
    ensures
        launch_answer(cs, s0.plan.actions@[a].target) is None,
{
    reveal(launches_handled);
    let ta = s0.plan.actions@[a].target;
    assert forall|i: int| 0 <= i < cs.len() && (#[trigger] cs[i]) is Reopen implies cs[i]->Reopen_0 != ta by {
        let m = choose|m: int| 0 <= m < a && cs[i]->Reopen_0 == (#[trigger] s0.plan.actions@[m]).target;
        assert(s0.plan.actions@[m].target.pid != ta.pid);
    }
    lemma_launch_none(cs, ta);
}

pub(crate) proof fn lemma_launches_same_records(s0: Session, s1: Session, s2: Session, cs: Seq<NativeCall>, a: int)
    requires
        launches_settled(s0, s1, cs, a),
        s2.reopened == s1.reopened,
    ensures
        launches_settled(s0, s2, cs, a),
{
    reveal(earlier_launches_settled);
    reveal(new_launches_described);
    reveal(new_launches_present);
}

proof fn lemma_launches_start(s0: Session, s: Session, cs: Seq<NativeCall>)
    requires
        s.reopened == s0.reopened,
        forall|i: int| 0 <= i < cs.len() ==> !((#[trigger] cs[i]) is Reopen),
    ensures
        launches_settled(s0, s, cs, 0),
{
    reveal(earlier_launches_settled);
    reveal(new_launches_described);
    reveal(new_launches_present);
    reveal(launches_handled);
    reveal(launches_distinct);
}

/// Approval by the first `a + 1` actions is approval by the first `a`, for a process
/// that action `a` does not approve.
proof fn lemma_approved_step(s0: Session, t: crate::model::Identity, a: int)
    requires
        0 <= a < s0.plan.actions@.len(),
        s0.plan.actions@[a].reopen is None || !same_process_spec(t, s0.plan.actions@[a].target),
    ensures
        approved_before(s0, t, a + 1) == approved_before(s0, t, a),
{
    if approved_before(s0, t, a + 1) {
        let m = choose|m: int|
            0 <= m < a + 1 && (#[trigger] s0.plan.actions@[m]).reopen is Some && same_process_spec(
                t,
                s0.plan.actions@[m].target,
            );
        assert(m != a);
    }
}

proof fn lemma_handled_step(s0: Session, cs: Seq<NativeCall>, a: int)
    requires
        launches_handled(s0, cs, a),
        a >= 0,
    ensures
        launches_handled(s0, cs, a + 1),
{
    reveal(launches_handled);
    assert forall|i: int| 0 <= i < cs.len() && (#[trigger] cs[i]) is Reopen implies exists|m: int|
        0 <= m < a + 1 && cs[i]->Reopen_0 == (#[trigger] s0.plan.actions@[m]).target by {
        let m = choose|m: int| 0 <= m < a && cs[i]->Reopen_0 == (#[trigger] s0.plan.actions@[m]).target;
        assert(0 <= m < a + 1);
    }
}

proof fn lemma_described_at(s0: Session, s: Session, cs: Seq<NativeCall>, a: int, k: int)
    requires
        new_launches_described(s0, s, cs, a),
        s0.reopened@.len() <= k < s.reopened@.len(),
    ensures
        launch_by_some(s0, s.reopened@[k], cs, a),
{
    reveal(new_launches_described);
}

proof fn lemma_present_at(s0: Session, s: Session, cs: Seq<NativeCall>, a: int, m: int)
    requires
        new_launches_present(s0, s, cs, a),
        0 <= m < a,
        s0.plan.actions@[m].reopen is Some,
        !had_record(s0, s0.plan.actions@[m].target),
    ensures
        launch_recorded(s0, s, cs, m),
{
    reveal(new_launches_present);
}

proof fn lemma_described_step(s0: Session, s: Session, cs: Seq<NativeCall>, a: int)
    requires
        new_launches_described(s0, s, cs, a),
        a >= 0,
    ensures
        new_launches_described(s0, s, cs, a + 1),
{
    reveal(new_launches_described);
    assert forall|k: int| s0.reopened@.len() <= k < s.reopened@.len() implies #[trigger] launch_by_some(s0, s.reopened@[k], cs, a + 1) by {
        lemma_described_at(s0, s, cs, a, k);
        let m = choose|m: int| 0 <= m < a && #[trigger] launch_for(s0, s.reopened@[k], cs, m);
        assert(0 <= m < a + 1);
    }
}

proof fn lemma_launches_skip(s0: Session, s: Session, cs: Seq<NativeCall>, a: int)
    requires
        launches_settled(s0, s, cs, a),
        0 <= a < s0.plan.actions@.len(),
        s0.plan.actions@[a].reopen is None,
    ensures
        launches_settled(s0, s, cs, a + 1),
{
    assert(earlier_launches_settled(s0, s, a + 1)) by {
        reveal(earlier_launches_settled);
        assert forall|k: int| 0 <= k < s0.reopened@.len() implies approved_before(s0, s0.reopened@[k].target, a + 1)
            == approved_before(s0, s0.reopened@[k].target, a) by {
            lemma_approved_step(s0, s0.reopened@[k].target, a);
        }
    }
    lemma_described_step(s0, s, cs, a);
    assert(new_launches_present(s0, s, cs, a + 1)) by {
        reveal(new_launches_present);
    }
    lemma_handled_step(s0, cs, a);
}

proof fn lemma_launches_existing(s0: Session, s1: Session, s2: Session, cs: Seq<NativeCall>, a: int, e: int)
    requires
        record_valid(s0),
        launches_settled(s0, s1, cs, a),
        0 <= a < s0.plan.actions@.len(),
        s0.plan.actions@[a].reopen is Some,
        0 <= e < s1.reopened@.len(),
        same_process_spec(s1.reopened@[e].target, s0.plan.actions@[a].target),
        s2.reopened@.len() == s1.reopened@.len(),
        forall|k: int| 0 <= k < s1.reopened@.len() && k != e ==> s2.reopened@[k] == s1.reopened@[k],
        s2.reopened@[e].target == s1.reopened@[e].target && s2.reopened@[e].child == s1.reopened@[e].child,
        s1.reopened@[e].state == ReopenState::IntentRecorded ==> s2.reopened@[e].state == ReopenState::Indeterminate,
        s1.reopened@[e].state != ReopenState::IntentRecorded ==> s2.reopened@[e] == s1.reopened@[e],
    ensures
        launches_settled(s0, s2, cs, a + 1),
{
    let ta = s0.plan.actions@[a].target;
    assert(e < s0.reopened@.len()) by {
        if e >= s0.reopened@.len() {
            lemma_described_at(s0, s1, cs, a, e);
            let m = choose|m: int| 0 <= m < a && #[trigger] launch_for(s0, s1.reopened@[e], cs, m);
            assert(s0.plan.actions@[m].target.pid != ta.pid);
        }
    }
    assert(s1.reopened@[e].target == s0.reopened@[e].target && s1.reopened@[e].child == s0.reopened@[e].child)
        by {
        reveal(earlier_launches_settled);
    }
    assert(!approved_before(s0, s0.reopened@[e].target, a)) by {
        if approved_before(s0, s0.reopened@[e].target, a) {
            let m = choose|m: int|
                0 <= m < a && (#[trigger] s0.plan.actions@[m]).reopen is Some && same_process_spec(
                    s0.reopened@[e].target,
                    s0.plan.actions@[m].target,
                );
            assert(s0.plan.actions@[m].target.pid != ta.pid);
        }
    }
    assert(s1.reopened@[e] == s0.reopened@[e]) by {
        reveal(earlier_launches_settled);
    }
    assert(approved_before(s0, s0.reopened@[e].target, a + 1)) by {
        assert(s0.plan.actions@[a].reopen is Some);
    }
    assert(had_record(s0, ta)) by {
        assert(same_process_spec(s0.reopened@[e].target, ta));
    }
    assert(earlier_launches_settled(s0, s2, a + 1)) by {
        reveal(earlier_launches_settled);
        assert forall|k: int| 0 <= k < s0.reopened@.len() && k != e implies approved_before(
            s0,
            s0.reopened@[k].target,
            a + 1,
        ) == approved_before(s0, s0.reopened@[k].target, a) by {
            if same_process_spec(s0.reopened@[k].target, ta) {
                if k < e {
                    assert(normalized(s0.reopened@[k].target.path@) != normalized(s0.reopened@[e].target.path@));
                } else {
                    assert(normalized(s0.reopened@[e].target.path@) != normalized(s0.reopened@[k].target.path@));
                }
            }
            lemma_approved_step(s0, s0.reopened@[k].target, a);
        }
    }
    assert(new_launches_described(s0, s2, cs, a)) by {
        reveal(new_launches_described);
        assert forall|k: int| s0.reopened@.len() <= k < s2.reopened@.len() implies #[trigger] launch_by_some(s0, s2.reopened@[k], cs, a) by {
            assert(s2.reopened@[k] == s1.reopened@[k]);
            lemma_described_at(s0, s1, cs, a, k);
            let m = choose|m: int| 0 <= m < a && #[trigger] launch_for(s0, s1.reopened@[k], cs, m);
            assert(launch_for(s0, s2.reopened@[k], cs, m));
        }
    }
    lemma_described_step(s0, s2, cs, a);
    assert(new_launches_present(s0, s2, cs, a + 1)) by {
        reveal(new_launches_present);
        assert forall|m: int|
            #![trigger s0.plan.actions@[m]]
            0 <= m < a + 1 && s0.plan.actions@[m].reopen is Some && !had_record(s0, s0.plan.actions@[m].target)
            implies launch_recorded(s0, s2, cs, m) by {
            assert(m != a);
            lemma_present_at(s0, s1, cs, a, m);
            let k = choose|k: int| s0.reopened@.len() <= k < s1.reopened@.len() && #[trigger] launch_for(
                s0,
                s1.reopened@[k],
                cs,
                m,
            );
            assert(s2.reopened@[k] == s1.reopened@[k]);
            assert(launch_for(s0, s2.reopened@[k], cs, m));
        }
    }
    lemma_handled_step(s0, cs, a);
}

proof fn lemma_launches_new(
    s0: Session,
    s1: Session,
    s2: Session,
    cs1: Seq<NativeCall>,
    cs2: Seq<NativeCall>,
    a: int,
    rec: ReopenRecord,
)
    requires
        record_valid(s0),
        launches_settled(s0, s1, cs1, a),
        0 <= a < s0.plan.actions@.len(),
        s0.plan.actions@[a].reopen is Some,
        forall|k: int|
            0 <= k < s1.reopened@.len() ==> !same_process_spec(
                (#[trigger] s1.reopened@[k]).target,
                s0.plan.actions@[a].target,
            ),
        s2.reopened@ == s1.reopened@.push(rec),
        cs2 == cs1 || cs2 == cs1.push(NativeCall::Reopen(s0.plan.actions@[a].target, cs2.last()->Reopen_1)),
        new_launch_record(s0, s0.plan.actions@[a].target, rec, cs2),
    ensures
        launches_settled(s0, s2, cs2, a + 1),
{
    let ta = s0.plan.actions@[a].target;
    assert forall|k: int| 0 <= k < s0.reopened@.len() implies !same_process_spec(s0.reopened@[k].target, ta) by {
        reveal(earlier_launches_settled);
        assert(s1.reopened@[k].target == s0.reopened@[k].target);
    }
    assert(!had_record(s0, ta));
    assert forall|m: int| 0 <= m < a implies #[trigger] launch_answer(cs2, s0.plan.actions@[m].target)
        == launch_answer(cs1, s0.plan.actions@[m].target) by {
        assert(s0.plan.actions@[m].target.pid != ta.pid);
        if cs2 != cs1 {
            assert(cs2.drop_last() =~= cs1);
        }
    }
    assert(earlier_launches_settled(s0, s2, a + 1)) by {
        reveal(earlier_launches_settled);
        assert forall|k: int| 0 <= k < s0.reopened@.len() implies approved_before(s0, s0.reopened@[k].target, a + 1)
            == approved_before(s0, s0.reopened@[k].target, a) by {
            lemma_approved_step(s0, s0.reopened@[k].target, a);
        }
        assert forall|k: int| 0 <= k < s0.reopened@.len() implies s2.reopened@[k] == s1.reopened@[k] by {}
    }
    assert(new_launches_described(s0, s2, cs2, a + 1)) by {
        reveal(new_launches_described);
        assert forall|k: int| s0.reopened@.len() <= k < s2.reopened@.len() implies #[trigger] launch_by_some(s0, s2.reopened@[k], cs2, a + 1) by {
            if k < s1.reopened@.len() {
                assert(s2.reopened@[k] == s1.reopened@[k]);
                lemma_described_at(s0, s1, cs1, a, k);
                let m = choose|m: int| 0 <= m < a && #[trigger] launch_for(s0, s1.reopened@[k], cs1, m);
                assert(launch_answer(cs2, s0.plan.actions@[m].target) == launch_answer(
                    cs1,
                    s0.plan.actions@[m].target,
                ));
                assert(launch_for(s0, s2.reopened@[k], cs2, m));
            } else {
                assert(s2.reopened@[k] == rec);
                assert(launch_for(s0, s2.reopened@[k], cs2, a));
            }
        }
    }
    assert(new_launches_present(s0, s2, cs2, a + 1)) by {
        reveal(new_launches_present);
        assert forall|m: int|
            #![trigger s0.plan.actions@[m]]
            0 <= m < a + 1 && s0.plan.actions@[m].reopen is Some && !had_record(s0, s0.plan.actions@[m].target)
            implies launch_recorded(s0, s2, cs2, m) by {
            if m == a {
                let k = s1.reopened@.len() as int;
                assert(s0.reopened@.len() <= k) by {
                    reveal(earlier_launches_settled);
                }
                assert(s2.reopened@[k] == rec);
                assert(launch_for(s0, s2.reopened@[k], cs2, m));
            } else {
                lemma_present_at(s0, s1, cs1, a, m);
                let k = choose|k: int| s0.reopened@.len() <= k < s1.reopened@.len() && #[trigger] launch_for(
                    s0,
                    s1.reopened@[k],
                    cs1,
                    m,
                );
                assert(s2.reopened@[k] == s1.reopened@[k]);
                assert(launch_answer(cs2, s0.plan.actions@[m].target) == launch_answer(
                    cs1,
                    s0.plan.actions@[m].target,
                ));
                assert(launch_for(s0, s2.reopened@[k], cs2, m));
            }
        }
    }
    assert(launches_handled(s0, cs2, a + 1)) by {
        reveal(launches_handled);
        assert forall|i: int| 0 <= i < cs2.len() && (#[trigger] cs2[i]) is Reopen implies exists|m: int|
            0 <= m < a + 1 && cs2[i]->Reopen_0 == (#[trigger] s0.plan.actions@[m]).target by {
            if i < cs1.len() {
                assert(cs2[i] == cs1[i]);
                let m = choose|m: int| 0 <= m < a && cs1[i]->Reopen_0 == (#[trigger] s0.plan.actions@[m]).target;
                assert(0 <= m < a + 1);
            } else {
                assert(cs2[i]->Reopen_0 == s0.plan.actions@[a].target);
            }
        }
    }
    assert(launches_distinct(cs2)) by {
        reveal(launches_distinct);
        assert forall|i: int, i2: int|
            0 <= i < i2 < cs2.len() && (#[trigger] cs2[i]) is Reopen && (#[trigger] cs2[i2]) is Reopen implies cs2[i]->Reopen_0.pid
            != cs2[i2]->Reopen_0.pid by {
            assert(cs2[i] == cs1[i]);
            if i2 < cs1.len() {
                assert(cs2[i2] == cs1[i2]);
            } else {
                assert(cs2[i2]->Reopen_0 == ta);
                reveal(launches_handled);
                let m = choose|m: int| 0 <= m < a && cs1[i]->Reopen_0 == (#[trigger] s0.plan.actions@[m]).target;
                assert(s0.plan.actions@[m].target.pid != ta.pid);
            }
        }
    }
}

/// Recovery launches an application at most once: never twice in one run, never one that
/// already had a launch record when recovery began (an earlier attempt, even one cut
/// short), and only an approved reopening after this session closed the process
/// gracefully.
pub proof fn law_launch_at_most_once(s0: Session, s: Session, cs: Seq<NativeCall>)
    requires
        restore_calls_allowed(s0, cs),
        launches_settled(s0, s, cs, s0.plan.actions@.len() as int),
    ensures
        forall|i: int, i2: int|
            0 <= i < i2 < cs.len() && (#[trigger] cs[i]) is Reopen && (#[trigger] cs[i2]) is Reopen ==> cs[i]->Reopen_0.pid
                != cs[i2]->Reopen_0.pid,
        forall|i: int|
            0 <= i < cs.len() && (#[trigger] cs[i]) is Reopen ==> !had_record(s0, cs[i]->Reopen_0) && gracefully_closed(
                s0,
                cs[i]->Reopen_0,
            ),
{
    reveal(launches_distinct);
    assert forall|i: int| 0 <= i < cs.len() && (#[trigger] cs[i]) is Reopen implies !had_record(s0, cs[i]->Reopen_0)
        && gracefully_closed(s0, cs[i]->Reopen_0) by {
        assert(restore_call_allowed(s0, cs[i]));
        assert(crate::engine::reopen_launch_allowed(s0, cs[i]->Reopen_0));
    }
}

/// After a recovery run, every application it launched has a launch record.
pub proof fn law_launch_recorded(s0: Session, s: Session, cs: Seq<NativeCall>, i: int)
    requires
        record_valid(s0),
        restore_calls_allowed(s0, cs),
        launches_settled(s0, s, cs, s0.plan.actions@.len() as int),
        0 <= i < cs.len(),
        cs[i] is Reopen,
    ensures
        had_record(s, cs[i]->Reopen_0),
{
    let t = cs[i]->Reopen_0;
    assert(restore_call_allowed(s0, cs[i]));
    assert(crate::engine::reopen_launch_allowed(s0, t));
    reveal(launches_handled);
    let m = choose|m: int| 0 <= m < s0.plan.actions@.len() && cs[i]->Reopen_0 == (#[trigger] s0.plan.actions@[m]).target;
    let q = choose|q: int|
        0 <= q < s0.plan.actions@.len() && (#[trigger] s0.plan.actions@[q]).target == t && s0.plan.actions@[q].reopen is Some;
    if q != m {
        if q < m {
            assert(s0.plan.actions@[q].target.pid != s0.plan.actions@[m].target.pid);
        } else {
            assert(s0.plan.actions@[m].target.pid != s0.plan.actions@[q].target.pid);
        }
    }
    assert(!had_record(s0, t));
    lemma_present_at(s0, s, cs, s0.plan.actions@.len() as int, m);
    let k = choose|k: int| s0.reopened@.len() <= k < s.reopened@.len() && #[trigger] launch_for(s0, s.reopened@[k], cs, m);
    assert(same_process_spec(s.reopened@[k].target, t));
}

/// Launching is at most once across recovery runs too: no launch of a later run, from the
/// record an earlier run left, is of a process the earlier run launched.
pub proof fn law_launch_once_across_runs(s0: Session, s1: Session, cs1: Seq<NativeCall>, cs2: Seq<NativeCall>)
    requires
        record_valid(s0),
        restore_calls_allowed(s0, cs1),
        launches_settled(s0, s1, cs1, s0.plan.actions@.len() as int),
        restore_calls_allowed(s1, cs2),
    ensures
        forall|i: int, j: int|
            0 <= i < cs1.len() && 0 <= j < cs2.len() && (#[trigger] cs1[i]) is Reopen && (#[trigger] cs2[j]) is Reopen
                ==> !same_process_spec(cs1[i]->Reopen_0, cs2[j]->Reopen_0),
{
    assert forall|i: int, j: int|
        0 <= i < cs1.len() && 0 <= j < cs2.len() && (#[trigger] cs1[i]) is Reopen && (#[trigger] cs2[j]) is Reopen
        implies !same_process_spec(cs1[i]->Reopen_0, cs2[j]->Reopen_0) by {
        law_launch_recorded(s0, s1, cs1, i);
        let t1 = cs1[i]->Reopen_0;
        let t2 = cs2[j]->Reopen_0;
        assert(restore_call_allowed(s1, cs2[j]));
        assert(crate::engine::reopen_launch_allowed(s1, t2));
        let k = choose|k: int| 0 <= k < s1.reopened@.len() && same_process_spec((#[trigger] s1.reopened@[k]).target, t1);
        crate::policy::law_same_process_equivalence(s1.reopened@[k].target, t1, t2);
    }
}

/// Earlier launch records keep their targets.
pub open spec fn reopened_kept(s: Session, s0: Session) -> bool {
    &&& s.reopened@.len() >= s0.reopened@.len()
    &&& forall|k: int|
        0 <= k < s0.reopened@.len() ==> (#[trigger] s.reopened@[k]).target == s0.reopened@[k].target
}

/// The reopening step of recovery: an interrupted launch intent becomes Indeterminate
/// and is never relaunched; a new approved reopening records its intent durably before
/// the one launch attempt, and only after this session's verified graceful closure.
pub(crate) fn reopen_phase<B: Backend, J: Journal>(
    s: &mut Session,
    b: &mut B,
    j: &mut J,
    Ghost(s0): Ghost<Session>,
    Ghost(calls0): Ghost<Seq<NativeCall>>,
    Ghost(saved0): Ghost<(Seq<Session>, nat)>,
    Ghost(t): Ghost<Seq<Event>>,
) -> (out: (AppResult<()>, Ghost<Seq<Event>>))
    requires
        restore_inv(*old(s), s0, old(b).calls(), journal_log(*old(j)), calls0, saved0, t),
        old(s).reopened == s0.reopened,
        refusals(t) == 0,
        record_valid(s0),
        forall|i: int| 0 <= i < natives(t).len() ==> !((#[trigger] natives(t)[i]) is Reopen),
    ensures
        out.0 is Ok ==> launches_settled(s0, *final(s), natives(out.1@), s0.plan.actions@.len() as int),
        out.0 is Ok ==> refusals(out.1@) == 0,
        restore_inv(*final(s), s0, final(b).calls(), journal_log(*final(j)), calls0, saved0, out.1@),
        extends(out.1@, t),
        final(s).stage == old(s).stage,
        final(s).changes == old(s).changes,
        out.0 is Err ==> refusals(out.1@) > 0,
        natives(out.1@) == natives(t) + natives(out.1@).skip(natives(t).len() as int),
        forall|m: int| natives(t).len() <= m < natives(out.1@).len() ==> (#[trigger] natives(out.1@)[m]) is Reopen,
{
    let ghost mut tr = t;
    proof {
        assert(natives(t) + natives(t).skip(natives(t).len() as int) =~= natives(t));
    }
    proof {
        lemma_launches_start(s0, *s, natives(t));
    }
    let n = s.plan.actions.len();
    let mut a: usize = 0;
    while a < n
        invariant
            n == s.plan.actions@.len(),
            a <= n,
            restore_inv(*s, s0, b.calls(), journal_log(*j), calls0, saved0, tr),
            refusals(tr) == 0,
            only_launches(t, tr),
            extends(tr, t),
            reopened_kept(*s, s0),
            s.stage == old(s).stage,
            s.changes == old(s).changes,
            record_valid(s0),
            launches_settled(s0, *s, natives(tr), a as int),
        decreases n - a,
    {
        let approval = clone_approval_option(&s.plan.actions[a].reopen);
        let target = s.plan.actions[a].target.clone();
        match approval {
            None => {
                proof {
                    lemma_launches_skip(s0, *s, natives(tr), a as int);
                }
            },
            Some(stamp) => {
                let mut existing: Option<usize> = None;
                let mut k: usize = 0;
                while k < s.reopened.len()
                    invariant
                        k <= s.reopened@.len(),
                        match existing {
                            Some(e) => e < s.reopened@.len() && same_process_spec(s.reopened@[e as int].target, target),
                            None => forall|m: int| 0 <= m < k ==> !same_process_spec((#[trigger] s.reopened@[m]).target, target),
                        },
                    decreases s.reopened@.len() - k,
                {
                    if existing.is_none() && same_process(&s.reopened[k].target, &target) {
                        existing = Some(k);
                    }
                    k = k + 1;
                }
                match existing {
                    Some(e) => {
                        let ghost s1: Session = *s;
                        let ghost cs1 = natives(tr);
                        if s.reopened[e].state == ReopenState::IntentRecorded {
                            s.reopened[e].state = ReopenState::Indeterminate;
                            s.reopened[e].detail = "An earlier launch intent survived interruption. No duplicate launch was attempted; review manually.".to_string();
                            let ghost sb = journal_log(*j);
                            let saved = j.save(s);
                            proof {
                                if saved is Ok {
                                    lemma_track_saved(b.calls(), sb, calls0, saved0, tr, *s);
                                    lemma_only_launches(t, tr, Event::Saved(*s));
                                    lemma_natives_push(tr, Event::Saved(*s));
                                    tr = tr.push(Event::Saved(*s));
                                } else {
                                    lemma_track_refused(b.calls(), sb, calls0, saved0, tr, *s);
                                    lemma_only_launches(t, tr, Event::Refused(*s));
                                    tr = tr.push(Event::Refused(*s));
                                }
                            }
                            if saved.is_err() {
                                return (saved, Ghost(tr));
                            }
                        }
                        proof {
                            assert(natives(tr) == cs1);
                            lemma_launches_existing(s0, s1, *s, cs1, a as int, e as int);
                        }
                    },
                    None => {
                        let ghost s1: Session = *s;
                        let ghost cs1 = natives(tr);
                        proof {
                            lemma_launch_fresh(s0, cs1, a as int);
                        }
                        let verified = graceful_check(s, &target);
                        s.reopened.push(
                            ReopenRecord {
                                target: target.clone(),
                                child: None,
                                state: if verified {
                                    ReopenState::IntentRecorded
                                } else {
                                    ReopenState::Skipped
                                },
                                detail: if verified {
                                    "Launch intent persisted before checking the desktop and starting a new process.".to_string()
                                } else {
                                    "No verified graceful closure by this session. The app was not reopened.".to_string()
                                },
                            },
                        );
                        let pos = s.reopened.len() - 1;
                        let ghost sb = journal_log(*j);
                        let saved = j.save(s);
                        if saved.is_err() {
                            proof {
                                lemma_track_refused(b.calls(), sb, calls0, saved0, tr, *s);
                                lemma_only_launches(t, tr, Event::Refused(*s));
                                tr = tr.push(Event::Refused(*s));
                            }
                            return (saved, Ghost(tr));
                        }
                        let ghost ks: int = tr.len() as int;
                        let ghost intent_s: Session = *s;
                        proof {
                            lemma_track_saved(b.calls(), sb, calls0, saved0, tr, *s);
                            lemma_only_launches(t, tr, Event::Saved(*s));
                            lemma_natives_push(tr, Event::Saved(*s));
                            tr = tr.push(Event::Saved(*s));
                        }
                        if verified {
                            proof {
                                assert(s.reopened@[pos as int].target == target);
                                assert(crate::engine::reopen_intent(*s, target));
                                assert(tr[ks] == Event::Saved(intent_s));
                                assert(s0.plan.actions@[a as int].target == target);
                                assert forall|m: int| 0 <= m < s0.reopened@.len() implies !same_process_spec(
                                    (#[trigger] s0.reopened@[m]).target,
                                    target,
                                ) by {
                                    assert(s.reopened@[m].target == s0.reopened@[m].target);
                                }
                                assert(crate::engine::reopen_launch_allowed(s0, target));
                            }
                            let ghost cb = b.calls();
                            let launched = b.reopen(&target, &stamp);
                            proof {
                                if b.calls() == cb.push(NativeCall::Reopen(target, launched)) {
                                    assert(saved_intent(tr[ks], NativeCall::Reopen(target, launched)));
                                    lemma_track_native(cb, journal_log(*j), calls0, saved0, tr, NativeCall::Reopen(target, launched), ks);
                                    lemma_restore_allowed_push(s0, natives(tr), NativeCall::Reopen(target, launched));
                                    lemma_only_launches(t, tr, Event::Native(NativeCall::Reopen(target, launched)));
                                    lemma_natives_push(tr, Event::Native(NativeCall::Reopen(target, launched)));
                                    tr = tr.push(Event::Native(NativeCall::Reopen(target, launched)));
                                }
                            }
                            let ghost cs2 = natives(tr);
                            proof {
                                assert(cs2 == cs1.push(NativeCall::Reopen(target, launched)) || (cs2 == cs1
                                    && launched is Err));
                            }
                            match launched {
                                Ok(report) => {
                                    if launch_report_check(&report, &target) {
                                        s.reopened.set(pos, report);
                                    } else {
                                        s.reopened[pos].state = ReopenState::Indeterminate;
                                        s.reopened[pos].detail = "Invalid launch acknowledgement; no retry is permitted.".to_string();
                                    }
                                },
                                Err(e) => {
                                    s.reopened[pos].state = ReopenState::Indeterminate;
                                    s.reopened[pos].detail = e.message;
                                },
                            }
                            let ghost sb = journal_log(*j);
                            let saved = j.save(s);
                            proof {
                                if saved is Ok {
                                    lemma_track_saved(b.calls(), sb, calls0, saved0, tr, *s);
                                    lemma_only_launches(t, tr, Event::Saved(*s));
                                    lemma_natives_push(tr, Event::Saved(*s));
                                    tr = tr.push(Event::Saved(*s));
                                } else {
                                    lemma_track_refused(b.calls(), sb, calls0, saved0, tr, *s);
                                    lemma_only_launches(t, tr, Event::Refused(*s));
                                    tr = tr.push(Event::Refused(*s));
                                }
                            }
                            if saved.is_err() {
                                return (saved, Ghost(tr));
                            }
                            proof {
                                let rec = s.reopened@[pos as int];
                                assert(gracefully_closed(s0, target));
                                if cs2 != cs1 {
                                    assert(cs2.drop_last() =~= cs1);
                                    assert(launch_answer(cs2, target) == Some(launched));
                                }
                                assert(new_launch_record(s0, target, rec, cs2));
                                assert(s.reopened@ == s1.reopened@.push(rec));
                                lemma_launches_new(s0, s1, *s, cs1, cs2, a as int, rec);
                            }
                        } else {
                            proof {
                                let rec = s.reopened@[pos as int];
                                assert(!gracefully_closed(s0, target));
                                assert(natives(tr) == cs1);
                                assert(new_launch_record(s0, target, rec, cs1));
                                assert(s.reopened@ == s1.reopened@.push(rec));
                                lemma_launches_new(s0, s1, *s, cs1, cs1, a as int, rec);
                            }
                        }
                    },
                }
            },
        }
        a = a + 1;
    }
    (Ok(()), Ghost(tr))
}

/// Recovery's reopening step on its own, for a valid record: the same guarantees as
/// the reopening part of `restore`.
pub fn restore_apps<B: Backend, J: Journal>(s: &mut Session, b: &mut B, j: &mut J) -> (r: AppResult<()>)
    ensures
        !record_valid(*old(s)) ==> r is Err && *final(s) == *old(s) && final(b).calls()
            == old(b).calls() && journal_log(*final(j)) == journal_log(*old(j)),
        record_valid(*old(s)) ==> (r is Err <==> journal_log(*final(j)).1 > journal_log(*old(j)).1),
        final(s).plan == old(s).plan,
        final(s).id == old(s).id,
        final(s).stage == old(s).stage,
        final(s).closed == old(s).closed,
        final(s).changes == old(s).changes,
        exists|t: Seq<Event>|
            restore_run(*old(s), old(b).calls(), final(b).calls(), journal_log(*old(j)), journal_log(*final(j)), t)
                && (r is Ok ==> launches_settled(*old(s), *final(s), natives(t), old(s).plan.actions@.len() as int)),
{
    let ghost s0: Session = *s;
    let ghost calls0 = b.calls();
    let ghost saved0 = journal_log(*j);
    let ghost tr: Seq<Event> = Seq::empty();
    proof {
        assert(calls0 + natives(tr) =~= calls0);
        assert(saved0.0 + saves(tr) =~= saved0.0);
        assert(restore_run(s0, calls0, b.calls(), saved0, journal_log(*j), tr));
    }
    let valid = validate_record(s);
    if valid.is_err() {
        return valid;
    }
    let (step, Ghost(next)) = reopen_phase(s, b, j, Ghost(s0), Ghost(calls0), Ghost(saved0), Ghost(tr));
    proof {
        assert(restore_run(s0, calls0, b.calls(), saved0, journal_log(*j), next));
    }
    step
}

} // verus!
