//! Conservative executable groups. A group is a finite snapshot, never a kill rule.
use crate::model::{AppResult, Identity, ProcessRow};
use crate::policy::{complete_identity, complete_identity_spec, guarded_pids, guarded_set, normalized, normalized_path, reserved_name, reserved_name_spec, same_path, same_process, same_process_spec, MAX_ACTIONS};
use vstd::prelude::*;

verus! {

/// An executable: canonical path and file identifier.
#[derive(Debug)]
pub struct AppKey {
    pub path: String,
    pub image_file_id: String,
}

pub open spec fn app_key_eq(a: AppKey, b: AppKey) -> bool {
    a.path@ == b.path@ && a.image_file_id@ == b.image_file_id@
}

impl PartialEq for AppKey {
    fn eq(&self, other: &Self) -> (r: bool) {
        self.path == other.path && self.image_file_id == other.image_file_id
    }
}

impl vstd::std_specs::cmp::PartialEqSpecImpl for AppKey {
    open spec fn obeys_eq_spec() -> bool {
        true
    }

    open spec fn eq_spec(&self, other: &AppKey) -> bool {
        app_key_eq(*self, *other)
    }
}

impl Clone for AppKey {
    fn clone(&self) -> (r: Self)
        ensures
            r == *self,
    {
        AppKey { path: self.path.clone(), image_file_id: self.image_file_id.clone() }
    }
}

/// The canonical path of a complete identity's executable.
#[verifier::opaque]
pub open spec fn key_path(id: Identity) -> Seq<char> {
    normalized(id.path@)
}

/// The file identifier of a complete identity's executable.
pub open spec fn key_file(id: Identity) -> Seq<char> {
    id.provenance->0.image_file_id@
}

/// Two complete identities run the same executable.
pub open spec fn same_app(a: Identity, b: Identity) -> bool {
    key_path(a) == key_path(b) && key_file(a) == key_file(b)
}

/// The executable of a complete identity; incomplete evidence is refused.
pub fn app_key(id: &Identity) -> (r: AppResult<AppKey>)
    ensures
        r is Ok <==> complete_identity_spec(*id),
        r matches Ok(k) ==> k.path@ == key_path(*id) && k.image_file_id@ == key_file(*id),
{
    reveal(key_path);
    if !complete_identity(id) {
        return Err("Complete executable evidence is required.".to_string());
    }
    match &id.provenance {
        Some(p) => Ok(AppKey { path: normalized_path(id.path.as_str()), image_file_id: p.image_file_id.clone() }),
        None => Err("Missing provenance".to_string()),
    }
}

/// Same Windows session, owner and logon.
pub open spec fn same_user_session_spec(a: Identity, b: Identity) -> bool {
    &&& a.session_id == b.session_id
    &&& match (a.provenance, b.provenance) {
        (Some(x), Some(y)) => x.owner_sid@ == y.owner_sid@ && x.logon_id == y.logon_id,
        _ => false,
    }
}

pub fn same_user_session(a: &Identity, b: &Identity) -> (r: bool)
    ensures
        r == same_user_session_spec(*a, *b),
{
    a.session_id == b.session_id && match (&a.provenance, &b.provenance) {
        (Some(x), Some(y)) => x.owner_sid == y.owner_sid && x.logon_id == y.logon_id,
        _ => false,
    }
}

/// A process that may be offered for a game session: unprotected, completely identified,
/// in the game's own session and logon, not protected infrastructure, not the game's
/// executable, outside the game's family, and not on a protected path.
pub open spec fn eligible_spec(row: ProcessRow, game: Identity, rows: Seq<ProcessRow>, protected: Seq<String>) -> bool {
    &&& row.protected_reason is None
    &&& complete_identity_spec(row.identity)
    &&& same_user_session_spec(row.identity, game)
    &&& !reserved_name_spec(row.name@)
    &&& normalized(row.identity.path@) != normalized(game.path@)
    &&& !guarded_set(rows, game).contains(row.identity.pid)
    &&& forall|k: int| 0 <= k < protected.len() ==> normalized((#[trigger] protected[k])@) != normalized(row.identity.path@)
}

pub fn eligible(row: &ProcessRow, game: &Identity, rows: &[ProcessRow], protected: &[String]) -> (r: bool)
    ensures
        r == eligible_spec(*row, *game, rows@, protected@),
{
    broadcast use vstd::std_specs::hash::group_hash_axioms;

    if row.protected_reason.is_some() || !complete_identity(&row.identity) || !same_user_session(&row.identity, game)
        || reserved_name(row.name.as_str()) || same_path(row.identity.path.as_str(), game.path.as_str()) {
        return false;
    }
    let guard = guarded_pids(rows, game);
    if guard.contains(&row.identity.pid) {
        return false;
    }
    let mut k: usize = 0;
    while k < protected.len()
        invariant
            k <= protected@.len(),
            forall|m: int| 0 <= m < k ==> normalized((#[trigger] protected@[m])@) != normalized(row.identity.path@),
        decreases protected@.len() - k,
    {
        if same_path(protected[k].as_str(), row.identity.path.as_str()) {
            return false;
        }
        k = k + 1;
    }
    true
}

/// A process of the same executable as `selected` in the same user session.
pub open spec fn group_member(row: ProcessRow, selected: Identity) -> bool {
    same_user_session_spec(row.identity, selected) && complete_identity_spec(row.identity) && same_app(row.identity, selected)
}

/// The matching identities, in snapshot order.
pub open spec fn group_members(rows: Seq<ProcessRow>, selected: Identity) -> Seq<Identity>
    decreases rows.len(),
{
    if rows.len() == 0 {
        Seq::empty()
    } else {
        let g = group_members(rows.drop_last(), selected);
        if group_member(rows.last(), selected) {
            g.push(rows.last().identity)
        } else {
            g
        }
    }
}

/// The first position at or after `from` holding this PID.
pub open spec fn first_with_pid(s: Seq<Identity>, pid: u32, from: int) -> Option<int>
    decreases s.len() - from,
{
    if from < 0 || from >= s.len() {
        None
    } else if s[from].pid == pid {
        Some(from)
    } else {
        first_with_pid(s, pid, from + 1)
    }
}

pub open spec fn pids_of(s: Seq<Identity>) -> Set<u32> {
    Set::new(|p: u32| exists|k: int| 0 <= k < s.len() && s[k].pid == p)
}

/// `out` lists each PID of `src` once, in increasing order, with the first identity
/// `src` gives for it (`sort_by_key` then `dedup_by_key`).
pub open spec fn first_per_pid_sorted(out: Seq<Identity>, src: Seq<Identity>) -> bool {
    &&& forall|i: int, j: int| 0 <= i < j < out.len() ==> (#[trigger] out[i]).pid < (#[trigger] out[j]).pid
    &&& forall|i: int| 0 <= i < out.len() ==> (first_with_pid(src, (#[trigger] out[i]).pid, 0) matches Some(k)
        && out[i] == src[k])
    &&& forall|k: int| 0 <= k < src.len() ==> exists|i: int| 0 <= i < out.len() && (#[trigger] out[i]).pid == (#[trigger] src[k]).pid
}

pub proof fn lemma_first_with_pid_found(s: Seq<Identity>, pid: u32, from: int)
    ensures
        first_with_pid(s, pid, from) matches Some(k) ==> 0 <= k < s.len() && s[k].pid == pid,
    decreases s.len() - from,
{
    if 0 <= from < s.len() && s[from].pid != pid {
        lemma_first_with_pid_found(s, pid, from + 1);
    }
}

pub proof fn lemma_first_with_pid(s: Seq<Identity>, pid: u32, from: int, k: int)
    requires
        0 <= from <= k < s.len(),
        s[k].pid == pid,
        forall|q: int| from <= q < k ==> (#[trigger] s[q]).pid != pid,
    ensures
        first_with_pid(s, pid, from) == Some(k),
    decreases k - from,
{
    if from < k {
        lemma_first_with_pid(s, pid, from + 1, k);
    }
}

/// Every running process of the selected executable, owner, logon and session: a finite
/// snapshot ordered by PID, one entry per PID. Refused when the selection is incomplete,
/// no longer running, or the group exceeds 32 processes.
pub fn group(rows: &[ProcessRow], selected: &Identity) -> (r: AppResult<Vec<Identity>>)
    ensures
        r is Ok <==> complete_identity_spec(*selected)
            && (exists|k: int| 0 <= k < rows@.len() && same_process_spec((#[trigger] rows@[k]).identity, *selected))
            && pids_of(group_members(rows@, *selected)).len() <= MAX_ACTIONS,
        r matches Ok(v) ==> first_per_pid_sorted(v@, group_members(rows@, *selected)),
{
    let key = match app_key(selected) {
        Ok(k) => k,
        Err(e) => return Err(e),
    };
    let mut present = false;
    let mut k: usize = 0;
    while k < rows.len()
        invariant
            k <= rows@.len(),
            present == exists|q: int| 0 <= q < k && same_process_spec((#[trigger] rows@[q]).identity, *selected),
        decreases rows@.len() - k,
    {
        if same_process(&rows[k].identity, selected) {
            present = true;
        }
        k = k + 1;
    }
    if !present {
        return Err("The selected process is no longer in this snapshot.".to_string());
    }
    let mut members: Vec<Identity> = Vec::new();
    let mut k: usize = 0;
    proof {
        assert(rows@.take(0) =~= Seq::<ProcessRow>::empty());
    }
    while k < rows.len()
        invariant
            k <= rows@.len(),
            complete_identity_spec(*selected),
            key.path@ == key_path(*selected),
            key.image_file_id@ == key_file(*selected),
            members@ == group_members(rows@.take(k as int), *selected),
        decreases rows@.len() - k,
    {
        proof {
            assert(rows@.take(k + 1).drop_last() =~= rows@.take(k as int));
            assert(rows@.take(k + 1).last() == rows@[k as int]);
        }
        let row = &rows[k];
        if same_user_session(&row.identity, selected) {
            match app_key(&row.identity) {
                Ok(rk) => {
                    if rk == key {
                        members.push(row.identity.clone());
                    }
                },
                Err(_) => {},
            }
        }
        k = k + 1;
    }
    proof {
        assert(rows@.take(k as int) =~= rows@);
    }
    let ghost src = members@;
    let mut out: Vec<Identity> = Vec::new();
    let mut last: Option<u32> = None;
    loop
        invariant
            src == members@,
            last is None ==> out@.len() == 0,
            last matches Some(l) ==> out@.len() > 0 && out@.last().pid == l,
            forall|i: int, j: int| 0 <= i < j < out@.len() ==> (#[trigger] out@[i]).pid < (#[trigger] out@[j]).pid,
            forall|i: int| 0 <= i < out@.len() ==> (first_with_pid(src, (#[trigger] out@[i]).pid, 0) matches Some(q)
                && out@[i] == src[q]),
            forall|q: int| 0 <= q < src.len() && (last matches Some(l) && (#[trigger] src[q]).pid <= l)
                ==> exists|i: int| 0 <= i < out@.len() && (#[trigger] out@[i]).pid == src[q].pid,
        ensures
            first_per_pid_sorted(out@, src),
        decreases (match last {
            Some(l) => u32::MAX - l,
            None => u32::MAX + 1,
        }),
    {
        let mut best: Option<usize> = None;
        let mut q: usize = 0;
        while q < members.len()
            invariant
                q <= members@.len(),
                src == members@,
                best matches Some(b) ==> b < q && (last matches Some(l) ==> src[b as int].pid > l),
                best matches Some(b) ==> forall|z: int| 0 <= z < q && (last matches Some(l) ==> (#[trigger] src[z]).pid > l)
                    ==> src[b as int].pid <= src[z].pid,
                best matches Some(b) ==> forall|z: int| 0 <= z < b && (last matches Some(l) ==> (#[trigger] src[z]).pid > l)
                    ==> src[b as int].pid < src[z].pid,
                best is None ==> forall|z: int| 0 <= z < q ==> (last matches Some(l) && (#[trigger] src[z]).pid <= l),
            decreases members@.len() - q,
        {
            let candidate = match last {
                Some(l) => members[q].pid > l,
                None => true,
            };
            if candidate {
                match best {
                    Some(b) => {
                        if members[q].pid < members[b].pid {
                            best = Some(q);
                        }
                    },
                    None => {
                        best = Some(q);
                    },
                }
            }
            q = q + 1;
        }
        let b = match best {
            Some(b) => b,
            None => {
                proof {
                    assert forall|z: int| 0 <= z < src.len() implies exists|i: int| 0 <= i < out@.len() && (#[trigger] out@[i]).pid == (#[trigger] src[z]).pid by {
                        assert(last matches Some(l) && src[z].pid <= l);
                    }
                }
                break;
            },
        };
        let chosen = members[b].clone();
        let pid = chosen.pid;
        proof {
            assert forall|z: int| 0 <= z < b implies (#[trigger] src[z]).pid != pid by {
                match last {
                    Some(l) => {
                        if src[z].pid > l {
                            assert(src[b as int].pid < src[z].pid);
                        }
                    },
                    None => {
                        assert(src[b as int].pid < src[z].pid);
                    },
                }
            }
            lemma_first_with_pid(src, pid, 0, b as int);
        }
        let ghost old_out = out@;
        out.push(chosen);
        proof {
            assert forall|z: int| 0 <= z < src.len() && (#[trigger] src[z]).pid <= pid
                implies exists|i: int| 0 <= i < out@.len() && (#[trigger] out@[i]).pid == src[z].pid by {
                match last {
                    Some(l) => {
                        if src[z].pid <= l {
                            let i = choose|i: int| 0 <= i < old_out.len() && (#[trigger] old_out[i]).pid == src[z].pid;
                            assert(out@[i] == old_out[i]);
                        } else {
                            assert(src[b as int].pid <= src[z].pid);
                            assert(out@[old_out.len() as int].pid == src[z].pid);
                        }
                    },
                    None => {
                        assert(src[b as int].pid <= src[z].pid);
                        assert(out@[old_out.len() as int].pid == src[z].pid);
                    },
                }
            }
        }
        last = Some(pid);
    }
    proof {
        let ps = pids_of(src);
        let op = out@.map_values(|i: Identity| i.pid);
        assert(op.no_duplicates()) by {
            assert forall|i: int, j: int| 0 <= i < op.len() && 0 <= j < op.len() && i != j implies op[i] != op[j] by {
                if i < j {
                    assert(out@[i].pid < out@[j].pid);
                } else {
                    assert(out@[j].pid < out@[i].pid);
                }
            }
        }
        assert(op.to_set() =~= ps) by {
            assert forall|p: u32| op.to_set().contains(p) implies ps.contains(p) by {
                assert(op.contains(p));
                let i = choose|i: int| 0 <= i < op.len() && op[i] == p;
                lemma_first_with_pid_found(src, out@[i].pid, 0);
                let q = first_with_pid(src, out@[i].pid, 0)->0;
                assert(out@[i] == src[q]);
                assert(src[q].pid == p);
                assert(ps.contains(p));
            }
            assert forall|p: u32| ps.contains(p) implies op.to_set().contains(p) by {
                let q = choose|q: int| 0 <= q < src.len() && src[q].pid == p;
                let i = choose|i: int| 0 <= i < out@.len() && (#[trigger] out@[i]).pid == (#[trigger] src[q]).pid;
                assert(op[i] == p);
                assert(op.contains(p));
            }
        }
        op.unique_seq_to_set();
    }
    if out.len() > MAX_ACTIONS {
        return Err("This executable group exceeds 32 processes. Review a smaller explicit selection.".to_string());
    }
    Ok(out)
}

} // verus!
