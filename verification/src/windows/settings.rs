//! The decisions of the Settings panel of the main window: which app is selected, when a
//! persistent change may be made, the Windows startup buttons and the copyable process
//! list.
use crate::advice::Choice;
use crate::model::{AppResult, Identity, ProcessRow};
use crate::text::{
    append, ascii_lower_seq, chars_equal, chars_of, lemma_lex_irreflexive, lemma_lex_total, lemma_lex_transitive, lex_less, lex_lt,
    lower_ascii, str_equal, string_of,
};
use crate::windows::startup::RunEntry;
use vstd::prelude::*;

verus! {

/// The app chosen in the list: the list box reports no selection with a negative index,
/// and an index past the list means the list changed since it was shown.
pub fn chosen_app(index: isize, choices: usize) -> (r: AppResult<usize>)
    ensures
        index < 0 ==> (r matches Err(m) && m@ == "Select a background app in Settings first."@),
        index >= choices ==> (r matches Err(m) && m@ == "Selection changed; refresh the list."@),
        0 <= index < choices ==> r == Ok::<usize, String>(index as usize),
{
    if index < 0 {
        Err("Select a background app in Settings first.".to_string())
    } else if index as usize >= choices {
        Err("Selection changed; refresh the list.".to_string())
    } else {
        Ok(index as usize)
    }
}

/// A persistent change that waits until no session is running or being prepared.
#[derive(Clone, Copy, Debug, PartialEq, Eq, Structural)]
pub enum PersistentChange {
    Permissions,
    DisableStartup,
    RestoreStartup,
    Update,
}

/// The refusal for a change made while Game Mode is on.
pub open spec fn busy_message(change: PersistentChange) -> Seq<char> {
    match change {
        PersistentChange::Permissions => "Turn Game Mode OFF before changing app permissions."@,
        PersistentChange::DisableStartup => "Turn Game Mode OFF before changing Windows startup."@,
        PersistentChange::RestoreStartup => "Turn Game Mode OFF before restoring Windows startup."@,
        PersistentChange::Update => "Turn Game Mode OFF and finish recovery before updating Process Optimizer."@,
    }
}

/// A persistent change is refused while a session is being prepared or is unfinished.
pub fn idle_check(preparing: bool, active: bool, change: PersistentChange) -> (r: AppResult<()>)
    ensures
        preparing || active ==> (r matches Err(m) && m@ == busy_message(change)),
        !preparing && !active ==> r is Ok,
{
    if preparing || active {
        Err(match change {
            PersistentChange::Permissions => "Turn Game Mode OFF before changing app permissions.".to_string(),
            PersistentChange::DisableStartup => "Turn Game Mode OFF before changing Windows startup.".to_string(),
            PersistentChange::RestoreStartup => "Turn Game Mode OFF before restoring Windows startup.".to_string(),
            PersistentChange::Update => "Turn Game Mode OFF and finish recovery before updating Process Optimizer.".to_string(),
        })
    } else {
        Ok(())
    }
}

/// What the Keep button does for an app's Windows startup.
#[derive(Debug)]
pub enum KeepStartup {
    /// The optimizer disabled its startup entry: restore it.
    Restore,
    /// Nothing is changed; the message says why.
    Inform(String),
}

/// Keeping an app whose startup the optimizer disabled restores it; otherwise nothing
/// persistent changes.
pub fn keep_startup(choice: &Choice) -> (r: KeepStartup)
    ensures
        choice.startup_disabled ==> r is Restore,
        !choice.startup_disabled && choice.startup_enabled ==> (r matches KeepStartup::Inform(m)
            && m@ == "Windows startup is kept for this app. Process Optimizer will not change it unless you explicitly choose Disable startup later."@),
        !choice.startup_disabled && !choice.startup_enabled ==> (r matches KeepStartup::Inform(m)
            && m@ == "No supported current-user Windows startup entry exists for this app, so there is nothing persistent to disable. Game Mode choices remain independent."@),
{
    if choice.startup_disabled {
        KeepStartup::Restore
    } else if choice.startup_enabled {
        KeepStartup::Inform(
            "Windows startup is kept for this app. Process Optimizer will not change it unless you explicitly choose Disable startup later.".to_string(),
        )
    } else {
        KeepStartup::Inform(
            "No supported current-user Windows startup entry exists for this app, so there is nothing persistent to disable. Game Mode choices remain independent.".to_string(),
        )
    }
}

/// The optimizer holds a startup backup for exactly this executable path.
pub open spec fn has_backup(disabled: Seq<String>, path: Seq<char>) -> bool {
    exists|k: int| 0 <= k < disabled.len() && (#[trigger] disabled[k])@ == path
}

/// Restoring an app's startup needs a backup for its path.
pub fn restore_startup_check(disabled: &[String], path: &str) -> (r: AppResult<()>)
    ensures
        has_backup(disabled@, path@) ==> r is Ok,
        !has_backup(disabled@, path@) ==> (r matches Err(m) && m@ == "No startup backup exists for this app."@),
{
    let mut k: usize = 0;
    while k < disabled.len()
        invariant
            k <= disabled@.len(),
            forall|q: int| 0 <= q < k ==> (#[trigger] disabled@[q])@ != path@,
        decreases disabled@.len() - k,
    {
        if str_equal(disabled[k].as_str(), path) {
            return Ok(());
        }
        k = k + 1;
    }
    Err("No startup backup exists for this app.".to_string())
}

/// The backups kept after an app's startup was restored: all but those for its path.
pub open spec fn without_backup(disabled: Seq<String>, path: Seq<char>) -> Seq<String>
    decreases disabled.len(),
{
    if disabled.len() == 0 {
        Seq::empty()
    } else {
        let rest = without_backup(disabled.drop_last(), path);
        if disabled.last()@ == path {
            rest
        } else {
            rest.push(disabled.last())
        }
    }
}

/// Forgets the startup backups of a restored app.
pub fn forget_backup(disabled: &mut Vec<String>, path: &str)
    ensures
        final(disabled)@ == without_backup(old(disabled)@, path@),
        !has_backup(final(disabled)@, path@),
{
    let mut kept: Vec<String> = Vec::new();
    let mut k: usize = 0;
    while k < disabled.len()
        invariant
            k <= disabled@.len(),
            kept@ == without_backup(disabled@.take(k as int), path@),
            forall|q: int| 0 <= q < kept@.len() ==> (#[trigger] kept@[q])@ != path@,
        decreases disabled@.len() - k,
    {
        proof {
            assert(disabled@.take(k + 1).drop_last() =~= disabled@.take(k as int));
            assert(disabled@.take(k + 1).last() == disabled@[k as int]);
        }
        if !str_equal(disabled[k].as_str(), path) {
            kept.push(disabled[k].clone());
        }
        k = k + 1;
    }
    proof {
        assert(disabled@.take(k as int) =~= disabled@);
    }
    *disabled = kept;
}

/// Opening the copyable process list needs a snapshot; the same button closes it again.
/// `Ok(true)` opens the list, `Ok(false)` returns to the app settings.
pub fn copy_list_step(copy_mode: bool, processes: usize) -> (r: AppResult<bool>)
    ensures
        copy_mode ==> r == Ok::<bool, String>(false),
        !copy_mode && processes == 0 ==> (r matches Err(m) && m@ == "Refresh apps first, then open the copyable process list."@),
        !copy_mode && processes > 0 ==> r == Ok::<bool, String>(true),
{
    if copy_mode {
        Ok(false)
    } else if processes == 0 {
        Err("Refresh apps first, then open the copyable process list.".to_string())
    } else {
        Ok(true)
    }
}


/// Before asking to disable an app's startup: the app must not be protected, must be
/// open (identified by the last refresh) and must have a matching current-user entry.
pub fn disable_startup_check(choice: &Choice, entries: &[RunEntry]) -> (r: AppResult<Identity>)
    ensures
        choice.protected ==> (r matches Err(m) && m@ == "This application is protected."@),
        !choice.protected && choice.id is None ==> (r matches Err(m)
            && m@ == "Open the app, Refresh apps, then review it before disabling startup."@),
        !choice.protected && choice.id is Some && entries@.len() == 0 ==> (r matches Err(m)
            && m@ == "No supported current-user Windows startup entry matches this app. It may be a service, scheduled task, machine-wide entry, or not auto-started. Nothing was changed."@),
        !choice.protected && choice.id is Some && entries@.len() > 0 ==> (r matches Ok(i) && i == choice.id->0),
{
    if choice.protected {
        return Err("This application is protected.".to_string());
    }
    match &choice.id {
        None => Err("Open the app, Refresh apps, then review it before disabling startup.".to_string()),
        Some(id) => if entries.len() == 0 {
            Err("No supported current-user Windows startup entry matches this app. It may be a service, scheduled task, machine-wide entry, or not auto-started. Nothing was changed.".to_string())
        } else {
            Ok(id.clone())
        },
    }
}

/// The startup value names of the entries, joined by commas, for the confirmation.
pub open spec fn entry_names_spec(entries: Seq<RunEntry>) -> Seq<char>
    decreases entries.len(),
{
    if entries.len() == 0 {
        Seq::empty()
    } else if entries.len() == 1 {
        entries[0].value_name@
    } else {
        entry_names_spec(entries.drop_last()) + ", "@ + entries.last().value_name@
    }
}

/// The names of the startup entries that would be disabled.
pub fn entry_names(entries: &[RunEntry]) -> (r: String)
    ensures
        r@ == entry_names_spec(entries@),
{
    let mut t: Vec<char> = Vec::new();
    let mut k: usize = 0;
    while k < entries.len()
        invariant
            k <= entries@.len(),
            t@ == entry_names_spec(entries@.take(k as int)),
        decreases entries@.len() - k,
    {
        proof {
            assert(entries@.take(k + 1).drop_last() =~= entries@.take(k as int));
            assert(entries@.take(k + 1).last() == entries@[k as int]);
            if k == 0 {
                assert(entries@.take(1)[0] == entries@[0]);
            }
        }
        if k > 0 {
            append(&mut t, ", ");
        }
        append(&mut t, entries[k].value_name.as_str());
        k = k + 1;
    }
    proof {
        assert(entries@.take(k as int) =~= entries@);
    }
    string_of(&t)
}

/// Two startup value names are the same name, ignoring ASCII case.
pub open spec fn same_value_name(a: Seq<char>, b: Seq<char>) -> bool {
    ascii_lower_seq(a) == ascii_lower_seq(b)
}

/// Entry `k` is already backed up: a kept backup, or an earlier entry of the same
/// request, has its name.
pub open spec fn name_taken(backed_up: Seq<String>, entries: Seq<RunEntry>, k: int) -> bool {
    ||| exists|b: int| 0 <= b < backed_up.len() && same_value_name((#[trigger] backed_up[b])@, entries[k].value_name@)
    ||| exists|j: int| 0 <= j < k && same_value_name((#[trigger] entries[j]).value_name@, entries[k].value_name@)
}

fn same_name(a: &str, b: &str) -> (r: bool)
    ensures
        r == same_value_name(a@, b@),
{
    let x = lower_ascii(&chars_of(a));
    let y = lower_ascii(&chars_of(b));
    chars_equal(&x, &y)
}

fn taken(backed_up: &[String], entries: &[RunEntry], k: usize) -> (r: bool)
    requires
        k < entries@.len(),
    ensures
        r == name_taken(backed_up@, entries@, k as int),
{
    let name = entries[k].value_name.as_str();
    let mut b: usize = 0;
    while b < backed_up.len()
        invariant
            b <= backed_up@.len(),
            name@ == entries@[k as int].value_name@,
            forall|q: int| 0 <= q < b ==> !same_value_name((#[trigger] backed_up@[q])@, name@),
        decreases backed_up@.len() - b,
    {
        if same_name(backed_up[b].as_str(), name) {
            return true;
        }
        b = b + 1;
    }
    let mut j: usize = 0;
    while j < k
        invariant
            j <= k < entries@.len(),
            name@ == entries@[k as int].value_name@,
            forall|q: int| 0 <= q < j ==> !same_value_name((#[trigger] entries@[q]).value_name@, name@),
        decreases k - j,
    {
        if same_name(entries[j].value_name.as_str(), name) {
            return true;
        }
        j = j + 1;
    }
    false
}

/// After the confirmation, before any backup is stored: the app's owner must be known,
/// and no entry may already be backed up under the same name.
pub fn backup_check(id: &Identity, entries: &[RunEntry], backed_up: &[String]) -> (r: AppResult<()>)
    ensures
        id.provenance is None ==> (r matches Err(m) && m@ == "Unknown application owner"@),
        id.provenance is Some ==> match r {
            Ok(()) => forall|k: int| 0 <= k < entries@.len() ==> !name_taken(backed_up@, entries@, k),
            Err(m) => m@ == "That startup entry is already backed up. Restore or review it first."@
                && exists|k: int| 0 <= k < entries@.len() && name_taken(backed_up@, entries@, k),
        },
{
    if id.provenance.is_none() {
        return Err("Unknown application owner".to_string());
    }
    let mut k: usize = 0;
    while k < entries.len()
        invariant
            k <= entries@.len(),
            id.provenance is Some,
            forall|q: int| 0 <= q < k ==> !name_taken(backed_up@, entries@, q),
        decreases entries@.len() - k,
    {
        if taken(backed_up, entries, k) {
            return Err("That startup entry is already backed up. Restore or review it first.".to_string());
        }
        k = k + 1;
    }
    Ok(())
}

/// The message when disabling stopped after the backups were stored.
pub fn cleanup_stopped(reason: &str) -> (r: String)
    ensures
        r@ == "Startup cleanup stopped: "@ + reason@ + " The original value is backed up; use Restore Windows startup."@,
{
    let mut t: Vec<char> = Vec::new();
    append(&mut t, "Startup cleanup stopped: ");
    append(&mut t, reason);
    append(&mut t, " The original value is backed up; use Restore Windows startup.");
    string_of(&t)
}


/// The order of the copyable process report: by name ignoring ASCII case, then by PID,
/// rows equal in both keeping their snapshot order.
pub open spec fn report_before(rows: Seq<ProcessRow>, a: int, b: int) -> bool {
    let x = ascii_lower_seq(rows[a].name@);
    let y = ascii_lower_seq(rows[b].name@);
    ||| lex_lt(x, y)
    ||| x == y && rows[a].identity.pid < rows[b].identity.pid
    ||| x == y && rows[a].identity.pid == rows[b].identity.pid && a < b
}

proof fn lemma_report_total(rows: Seq<ProcessRow>, a: int, b: int)
    ensures
        a != b ==> report_before(rows, a, b) || report_before(rows, b, a),
        !(report_before(rows, a, b) && report_before(rows, b, a)),
{
    let x = ascii_lower_seq(rows[a].name@);
    let y = ascii_lower_seq(rows[b].name@);
    lemma_lex_total(x, y);
    lemma_lex_irreflexive(x);
}

proof fn lemma_report_transitive(rows: Seq<ProcessRow>, a: int, b: int, c: int)
    requires
        report_before(rows, a, b),
        report_before(rows, b, c),
    ensures
        report_before(rows, a, c),
{
    let x = ascii_lower_seq(rows[a].name@);
    let y = ascii_lower_seq(rows[b].name@);
    let z = ascii_lower_seq(rows[c].name@);
    if lex_lt(x, y) && lex_lt(y, z) {
        lemma_lex_transitive(x, y, z);
    }
}

/// Every pair of the report's rows is in report order.
pub open spec fn report_sorted(rows: Seq<ProcessRow>, out: Seq<usize>) -> bool {
    forall|i: int, j: int| 0 <= i < j < out.len() ==> report_before(rows, #[trigger] out[i] as int, #[trigger] out[j] as int)
}

fn lowered_names(rows: &[ProcessRow]) -> (r: Vec<Vec<char>>)
    ensures
        r@.len() == rows@.len(),
        forall|k: int| 0 <= k < rows@.len() ==> (#[trigger] r@[k])@ == ascii_lower_seq(rows@[k].name@),
{
    let mut out: Vec<Vec<char>> = Vec::new();
    let mut k: usize = 0;
    while k < rows.len()
        invariant
            k <= rows@.len(),
            out@.len() == k,
            forall|q: int| 0 <= q < k ==> (#[trigger] out@[q])@ == ascii_lower_seq(rows@[q].name@),
        decreases rows@.len() - k,
    {
        out.push(lower_ascii(&chars_of(rows[k].name.as_str())));
        k = k + 1;
    }
    out
}

fn before(rows: &[ProcessRow], keys: &Vec<Vec<char>>, a: usize, b: usize) -> (r: bool)
    requires
        a < rows@.len(),
        b < rows@.len(),
        keys@.len() == rows@.len(),
        forall|k: int| 0 <= k < rows@.len() ==> (#[trigger] keys@[k])@ == ascii_lower_seq(rows@[k].name@),
    ensures
        r == report_before(rows@, a as int, b as int),
{
    let x = &keys[a];
    let y = &keys[b];
    if lex_less(x, y) {
        return true;
    }
    if !chars_equal(x, y) {
        return false;
    }
    let p = rows[a].identity.pid;
    let q = rows[b].identity.pid;
    p < q || (p == q && a < b)
}

/// The rows of the copyable process report, as positions in the snapshot: every row once,
/// sorted by name ignoring ASCII case, then PID (a stable sort by that key).
pub fn report_order(rows: &[ProcessRow]) -> (r: Vec<usize>)
    ensures
        r@.len() == rows@.len(),
        forall|q: int| 0 <= q < r@.len() ==> (#[trigger] r@[q]) < rows@.len(),
        forall|k: usize| k < rows@.len() ==> #[trigger] r@.contains(k),
        report_sorted(rows@, r@),
{
    let keys = lowered_names(rows);
    let mut out: Vec<usize> = Vec::new();
    let mut j: usize = 0;
    while j < rows.len()
        invariant
            j <= rows@.len(),
            keys@.len() == rows@.len(),
            forall|k: int| 0 <= k < rows@.len() ==> (#[trigger] keys@[k])@ == ascii_lower_seq(rows@[k].name@),
            out@.len() == j,
            forall|q: int| 0 <= q < out@.len() ==> (#[trigger] out@[q]) < j,
            forall|k: usize| k < j ==> #[trigger] out@.contains(k),
            report_sorted(rows@, out@),
        decreases rows@.len() - j,
    {
        let mut p: usize = 0;
        while p < out.len() && !before(rows, &keys, j, out[p])
            invariant
                p <= out@.len(),
                j < rows@.len(),
                keys@.len() == rows@.len(),
                forall|k: int| 0 <= k < rows@.len() ==> (#[trigger] keys@[k])@ == ascii_lower_seq(rows@[k].name@),
                forall|q: int| 0 <= q < out@.len() ==> (#[trigger] out@[q]) < j,
                forall|q: int| 0 <= q < p ==> report_before(rows@, (#[trigger] out@[q]) as int, j as int),
            decreases out@.len() - p,
        {
            proof {
                lemma_report_total(rows@, j as int, out@[p as int] as int);
            }
            p = p + 1;
        }
        let ghost o = out@;
        proof {
            assert forall|q: int| p <= q < o.len() implies report_before(rows@, j as int, #[trigger] o[q] as int) by {
                if q > p {
                    lemma_report_transitive(rows@, j as int, o[p as int] as int, o[q] as int);
                }
            }
        }
        out.insert(p, j);
        proof {
            let n = out@;
            assert forall|a: int, b: int| 0 <= a < b < n.len() implies report_before(rows@, #[trigger] n[a] as int, #[trigger] n[b] as int) by {
                if b < p {
                    assert(n[a] == o[a] && n[b] == o[b]);
                } else if b == p {
                    assert(n[a] == o[a]);
                } else if a < p {
                    assert(n[a] == o[a] && n[b] == o[b - 1]);
                    lemma_report_transitive(rows@, o[a] as int, j as int, o[b - 1] as int);
                } else if a == p {
                    assert(n[b] == o[b - 1]);
                } else {
                    assert(n[a] == o[a - 1] && n[b] == o[b - 1]);
                }
            }
            assert forall|k: usize| k < j + 1 implies #[trigger] n.contains(k) by {
                if k == j {
                    assert(n[p as int] == j);
                } else {
                    assert(o.contains(k));
                    let w = choose|w: int| 0 <= w < o.len() && o[w] == k;
                    if w < p {
                        assert(n[w] == o[w]);
                    } else {
                        assert(n[w + 1] == o[w]);
                    }
                }
            }
        }
        j = j + 1;
    }
    out
}

/// The status column of the process report.
pub fn report_status(row: &ProcessRow) -> (r: String)
    ensures
        row.protected_reason matches Some(m) ==> r@ == m@,
        row.protected_reason is None ==> r@ == "Optional / not approved"@,
{
    match &row.protected_reason {
        Some(m) => m.clone(),
        None => "Optional / not approved".to_string(),
    }
}

} // verus!
