//! The decisions of the Advanced process window: which selected rows may receive an
//! action, which row is the game, the user's protected list, and the checks before a
//! game-attached session starts.
use crate::model::{stage_finished, ActionKind, AppResult, ApprovedAction, Identity, Plan, ProcessRow, Session, Settings, Stage};
use crate::report::{stage_name, stage_str};
use crate::policy::{normalized, plan_allowed, same_path, same_process, same_process_spec, validate};
use crate::text::{append, append_chars, chars_of, decimal, decimal_seq, lemma_lex_total, lemma_lex_transitive, lex_less, lex_lt, str_equal, string_of};
use vstd::prelude::*;

verus! {

/// A protected path that names this executable.
pub open spec fn in_protected_list(protected_paths: Seq<String>, path: Seq<char>) -> bool {
    exists|k: int| 0 <= k < protected_paths.len() && normalized((#[trigger] protected_paths[k])@) == normalized(path)
}

/// Why a row may not receive an action, if it may not: a protected process, the game
/// itself, or an executable in the user's protected list.
pub open spec fn row_refusal(row: ProcessRow, game: Option<Identity>, protected_paths: Seq<String>) -> Option<Seq<char>> {
    match row.protected_reason {
        Some(reason) => Some(row.name@ + " is protected: "@ + reason@),
        None => if game matches Some(g) && same_process_spec(g, row.identity) {
            Some("The selected game is protected."@)
        } else if in_protected_list(protected_paths, row.identity.path@) {
            Some("This application is in your protected list."@)
        } else {
            None
        },
    }
}

/// The first refused row of a selection, checked in order.
pub open spec fn first_refusal(
    rows: Seq<ProcessRow>,
    selected: Seq<usize>,
    game: Option<Identity>,
    protected_paths: Seq<String>,
    n: int,
) -> Option<Seq<char>>
    decreases n,
{
    if n <= 0 {
        None
    } else {
        match first_refusal(rows, selected, game, protected_paths, n - 1) {
            Some(m) => Some(m),
            None => row_refusal(rows[selected[n - 1] as int], game, protected_paths),
        }
    }
}

fn refusal(row: &ProcessRow, game: &Option<Identity>, protected_paths: &[String]) -> (r: Option<String>)
    ensures
        match row_refusal(*row, *game, protected_paths@) {
            Some(m) => r matches Some(x) && x@ == m,
            None => r is None,
        },
{
    match &row.protected_reason {
        Some(reason) => {
            let mut t: Vec<char> = Vec::new();
            append(&mut t, row.name.as_str());
            append(&mut t, " is protected: ");
            append(&mut t, reason.as_str());
            return Some(string_of(&t));
        },
        None => {},
    }
    let is_game = match game {
        Some(g) => same_process(g, &row.identity),
        None => false,
    };
    if is_game {
        return Some("The selected game is protected.".to_string());
    }
    let mut k: usize = 0;
    while k < protected_paths.len()
        invariant
            k <= protected_paths@.len(),
            row.protected_reason is None,
            !(*game matches Some(g) && same_process_spec(g, row.identity)),
            forall|q: int| 0 <= q < k ==> normalized((#[trigger] protected_paths@[q])@) != normalized(row.identity.path@),
        decreases protected_paths@.len() - k,
    {
        if same_path(protected_paths[k].as_str(), row.identity.path.as_str()) {
            assert(normalized(protected_paths@[k as int]@) == normalized(row.identity.path@));
            return Some("This application is in your protected list.".to_string());
        }
        k = k + 1;
    }
    None
}

/// Once a row of the selection is refused, the selection's first refusal is fixed.
proof fn lemma_first_refusal_stays(
    rows: Seq<ProcessRow>,
    selected: Seq<usize>,
    game: Option<Identity>,
    protected_paths: Seq<String>,
    k: int,
    n: int,
)
    requires
        0 <= k <= n,
        first_refusal(rows, selected, game, protected_paths, k) is Some,
    ensures
        first_refusal(rows, selected, game, protected_paths, n) == first_refusal(rows, selected, game, protected_paths, k),
    decreases n - k,
{
    if n > k {
        lemma_first_refusal_stays(rows, selected, game, protected_paths, k, n - 1);
    }
}

/// Checks a whole selection before any action is recorded for it: the first refused
/// row, in selection order, refuses all of it.
pub fn selection_check(
    rows: &[ProcessRow],
    selected: &[usize],
    game: &Option<Identity>,
    protected_paths: &[String],
) -> (r: AppResult<()>)
    requires
        forall|q: int| 0 <= q < selected@.len() ==> (#[trigger] selected@[q]) < rows@.len(),
    ensures
        match first_refusal(rows@, selected@, *game, protected_paths@, selected@.len() as int) {
            Some(m) => r matches Err(x) && x@ == m,
            None => r is Ok,
        },
{
    let mut q: usize = 0;
    while q < selected.len()
        invariant
            q <= selected@.len(),
            forall|i: int| 0 <= i < selected@.len() ==> (#[trigger] selected@[i]) < rows@.len(),
            first_refusal(rows@, selected@, *game, protected_paths@, q as int) is None,
        decreases selected@.len() - q,
    {
        match refusal(&rows[selected[q]], game, protected_paths) {
            Some(m) => {
                proof {
                    lemma_first_refusal_stays(rows@, selected@, *game, protected_paths@, q + 1, selected@.len() as int);
                }
                return Err(m);
            },
            None => {},
        }
        q = q + 1;
    }
    Ok(())
}

/// The game chosen from the selection: exactly one row, and not a protected process.
pub fn game_selection(rows: &[ProcessRow], selected: &[usize]) -> (r: AppResult<Identity>)
    requires
        forall|q: int| 0 <= q < selected@.len() ==> (#[trigger] selected@[q]) < rows@.len(),
    ensures
        selected@.len() != 1 ==> (r matches Err(m) && m@ == "Select exactly one actual game process."@),
        selected@.len() == 1 ==> match rows@[selected@[0] as int].protected_reason {
            Some(reason) => r matches Err(m) && m@ == "Select the actual game, not a protected launcher: "@ + reason@,
            None => r matches Ok(id) && id == rows@[selected@[0] as int].identity,
        },
{
    if selected.len() != 1 {
        return Err("Select exactly one actual game process.".to_string());
    }
    let row = &rows[selected[0]];
    match &row.protected_reason {
        Some(reason) => Err(crate::text::concat("Select the actual game, not a protected launcher: ", reason.as_str())),
        None => Ok(row.identity.clone()),
    }
}

/// Whether any selected action lowers priorities.
pub open spec fn lowers(actions: Seq<ApprovedAction>) -> bool {
    exists|i: int| 0 <= i < actions.len() && (#[trigger] actions[i]).action == ActionKind::LowerPriorities
}

/// The plan an Advanced session starts with: attached to the chosen game, with the
/// selected actions, the user's protected paths and options, and every consent given.
pub open spec fn advanced_plan_spec(settings: Settings, game: Option<Identity>, actions: Vec<ApprovedAction>) -> Plan {
    Plan {
        manual_mode: false,
        game_path: settings.game_path,
        game,
        actions,
        protected_paths: settings.protected_paths,
        options: settings.options,
        consent: true,
        force_consent: true,
        experimental_consent: true,
    }
}

/// Whether the selected actions need a priority policy that none is chosen.
pub open spec fn policy_missing(settings: Settings, actions: Seq<ApprovedAction>) -> bool {
    lowers(actions) && !(settings.options.gpu_priority || settings.options.cpu_priority || settings.options.eco_qos
        || settings.options.memory_priority)
}

/// The checks before an Advanced session starts, in order, then the plan itself, which
/// must pass the plan validation.
pub fn advanced_plan(
    settings: &Settings,
    game: &Option<Identity>,
    actions: &Vec<ApprovedAction>,
    elevated: bool,
    session_open: bool,
) -> (r: AppResult<Plan>)
    ensures
        elevated ==> (r matches Err(m) && m@
            == "Close this elevated window and run the app normally, not as administrator."@),
        !elevated && session_open ==> (r matches Err(m) && m@
            == "Restore/review the existing session before starting another."@),
        !elevated && !session_open && actions@.len() == 0 ==> (r matches Err(m) && m@
            == "Choose at least one background process action. There is no automatic kill list."@),
        !elevated && !session_open && actions@.len() > 0 && policy_missing(*settings, actions@) ==> (r matches Err(m)
            && m@ == "Choose at least one priority policy, or use a close action instead."@),
        !elevated && !session_open && actions@.len() > 0 && !policy_missing(*settings, actions@) && game is None ==> (r matches Err(m)
            && m@ == "Select the actual running game using 'Use selected as game'. Browsing a path is not lifetime approval."@),
        !elevated && !session_open && actions@.len() > 0 && !policy_missing(*settings, actions@) && game is Some ==> (r is Ok
            <==> plan_allowed(advanced_plan_spec(*settings, *game, *actions))),
        r matches Ok(p) ==> crate::model::plan_eq(p, advanced_plan_spec(*settings, *game, *actions)),
{
    if elevated {
        return Err("Close this elevated window and run the app normally, not as administrator.".to_string());
    }
    if session_open {
        return Err("Restore/review the existing session before starting another.".to_string());
    }
    if actions.len() == 0 {
        return Err("Choose at least one background process action. There is no automatic kill list.".to_string());
    }
    let mut lower = false;
    let mut i: usize = 0;
    while i < actions.len()
        invariant
            i <= actions@.len(),
            lower == exists|q: int| 0 <= q < i && (#[trigger] actions@[q]).action == ActionKind::LowerPriorities,
        decreases actions@.len() - i,
    {
        if actions[i].action == ActionKind::LowerPriorities {
            lower = true;
        }
        i = i + 1;
    }
    let o = &settings.options;
    if lower && !(o.gpu_priority || o.cpu_priority || o.eco_qos || o.memory_priority) {
        return Err("Choose at least one priority policy, or use a close action instead.".to_string());
    }
    if game.is_none() {
        return Err(
            "Select the actual running game using 'Use selected as game'. Browsing a path is not lifetime approval.".to_string(),
        );
    }
    let copy = settings.clone();
    let planned = actions.clone();
    proof {
        assert(planned@ =~= actions@);
    }
    let plan = Plan {
        manual_mode: false,
        game_path: copy.game_path,
        game: crate::model::clone_identity_option(game),
        actions: planned,
        protected_paths: copy.protected_paths,
        options: copy.options,
        consent: true,
        force_consent: true,
        experimental_consent: true,
    };
    proof {
        crate::policy::lemma_plan_allowed_eq(plan, advanced_plan_spec(*settings, *game, *actions));
    }
    match validate(&plan) {
        Ok(()) => Ok(plan),
        Err(e) => Err(e),
    }
}

/// A path of the list names the executable `v`.
pub open spec fn listed_in(paths: Seq<String>, v: Seq<char>) -> bool {
    exists|i: int| 0 <= i < paths.len() && normalized((#[trigger] paths[i])@) == normalized(v)
}

/// Entry `i` of `out` is one of the first `bound` selected paths.
pub open spec fn drawn_from(selection: Seq<String>, bound: int, out: Seq<String>, i: int) -> bool {
    exists|k: int| 0 <= k < bound && selection[k]@ == out[i]@
}

/// Selected path `k` is among the entries of `out`.
pub open spec fn kept_in(selection: Seq<String>, k: int, out: Seq<String>) -> bool {
    exists|i: int| 0 <= i < out.len() && out[i]@ == selection[k]@
}

/// Ascending distinct paths.
pub open spec fn ascending(out: Seq<String>) -> bool {
    forall|i: int, j: int| 0 <= i < j < out.len() ==> lex_lt((#[trigger] out[i])@, (#[trigger] out[j])@)
}

/// The distinct non-empty paths of the first `bound` selected paths, in ascending order:
/// each comes from the selection, and each non-empty selected path is among them.
pub open spec fn selection_order(selection: Seq<String>, bound: int, out: Seq<String>) -> bool {
    &&& ascending(out)
    &&& forall|i: int| 0 <= i < out.len() ==> (#[trigger] out[i])@.len() > 0
    &&& forall|i: int| 0 <= i < out.len() ==> #[trigger] drawn_from(selection, bound, out, i)
    &&& forall|k: int| 0 <= k < bound && selection[k]@.len() > 0 ==> #[trigger] kept_in(selection, k, out)
}

/// Entry `i` of `n` is `s` or an entry of `o`.
pub open spec fn from_old(o: Seq<String>, n: Seq<String>, s: String, i: int) -> bool {
    n[i]@ == s@ || exists|q: int| 0 <= q < o.len() && o[q]@ == n[i]@
}

/// Inserts `s` into an ascending list of distinct paths unless it is there.
fn insert_path(out: &mut Vec<String>, s: &String)
    requires
        ascending(old(out)@),
    ensures
        ascending(final(out)@),
        forall|i: int| 0 <= i < final(out)@.len() ==> #[trigger] from_old(old(out)@, final(out)@, *s, i),
        forall|q: int| 0 <= q < old(out)@.len() ==> #[trigger] kept_in(old(out)@, q, final(out)@),
        exists|i: int| 0 <= i < final(out)@.len() && (#[trigger] final(out)@[i])@ == s@,
{
    let sc = chars_of(s.as_str());
    let mut p: usize = 0;
    while p < out.len() && lex_less(&chars_of(out[p].as_str()), &sc)
        invariant
            p <= out@.len(),
            sc@ == s@,
            forall|q: int| 0 <= q < p ==> lex_lt((#[trigger] out@[q])@, s@),
        decreases out@.len() - p,
    {
        p = p + 1;
    }
    let ghost o = out@;
    if p < out.len() && str_equal(out[p].as_str(), s.as_str()) {
        proof {
            assert forall|i: int| 0 <= i < o.len() implies #[trigger] from_old(o, o, *s, i) by {
                assert(o[i]@ == o[i]@);
            }
            assert forall|q: int| 0 <= q < o.len() implies #[trigger] kept_in(o, q, o) by {
                assert(o[q]@ == o[q]@);
            }
            assert(o[p as int]@ == s@);
        }
        return;
    }
    proof {
        if p < o.len() {
            lemma_lex_total(o[p as int]@, s@);
        }
    }
    let c = s.clone();
    out.insert(p, c);
    proof {
        lemma_insert_path(o, out@, p as int, c);
    }
}

/// Inserting a path between the smaller and the larger ones keeps the list ascending.
proof fn lemma_insert_path(o: Seq<String>, n: Seq<String>, p: int, s: String)
    requires
        0 <= p <= o.len(),
        n == o.insert(p, s),
        ascending(o),
        forall|q: int| 0 <= q < p ==> lex_lt((#[trigger] o[q])@, s@),
        p < o.len() ==> lex_lt(s@, o[p]@),
    ensures
        ascending(n),
        forall|i: int| 0 <= i < n.len() ==> #[trigger] from_old(o, n, s, i),
        forall|q: int| 0 <= q < o.len() ==> #[trigger] kept_in(o, q, n),
        exists|i: int| 0 <= i < n.len() && (#[trigger] n[i])@ == s@,
{
    assert forall|q: int| p < q < o.len() implies lex_lt(s@, (#[trigger] o[q])@) by {
        lemma_lex_transitive(s@, o[p]@, o[q]@);
    }
    assert forall|i: int, j: int| 0 <= i < j < n.len() implies lex_lt((#[trigger] n[i])@, (#[trigger] n[j])@) by {
        if j < p {
            assert(n[i] == o[i] && n[j] == o[j]);
        } else if j == p {
            assert(n[i] == o[i]);
        } else if i < p {
            assert(n[i] == o[i] && n[j] == o[j - 1]);
            lemma_lex_transitive(o[i]@, s@, o[j - 1]@);
        } else if i == p {
            assert(n[j] == o[j - 1]);
        } else {
            assert(n[i] == o[i - 1] && n[j] == o[j - 1]);
        }
    }
    assert forall|i: int| 0 <= i < n.len() implies #[trigger] from_old(o, n, s, i) by {
        if i < p {
            assert(n[i] == o[i]);
        } else if i > p {
            assert(n[i] == o[i - 1]);
        }
    }
    assert forall|q: int| 0 <= q < o.len() implies #[trigger] kept_in(o, q, n) by {
        if q < p {
            assert(n[q] == o[q]);
        } else {
            assert(n[q + 1] == o[q]);
        }
    }
    assert(n[p]@ == s@);
}

/// The distinct non-empty executable paths of a selection, in ascending order.
pub fn selection_paths(selection: &[String]) -> (r: Vec<String>)
    ensures
        selection_order(selection@, selection@.len() as int, r@),
{
    let mut out: Vec<String> = Vec::new();
    let mut k: usize = 0;
    while k < selection.len()
        invariant
            k <= selection@.len(),
            selection_order(selection@, k as int, out@),
        decreases selection@.len() - k,
    {
        let ghost o = out@;
        if chars_of(selection[k].as_str()).len() > 0 {
            insert_path(&mut out, &selection[k]);
            proof {
                let n = out@;
                assert forall|i: int| 0 <= i < n.len() implies (#[trigger] n[i])@.len() > 0 by {
                    assert(from_old(o, n, selection@[k as int], i));
                    if n[i]@ != selection@[k as int]@ {
                        let q = choose|q: int| 0 <= q < o.len() && o[q]@ == n[i]@;
                        assert(o[q]@.len() > 0);
                    }
                }
                assert forall|i: int| 0 <= i < n.len() implies #[trigger] drawn_from(selection@, k + 1, n, i) by {
                    assert(from_old(o, n, selection@[k as int], i));
                    if n[i]@ != selection@[k as int]@ {
                        let q = choose|q: int| 0 <= q < o.len() && o[q]@ == n[i]@;
                        assert(drawn_from(selection@, k as int, o, q));
                        let w = choose|w: int| 0 <= w < k && selection@[w]@ == o[q]@;
                        assert(selection@[w]@ == n[i]@);
                    } else {
                        assert(selection@[k as int]@ == n[i]@);
                    }
                }
                assert forall|w: int| 0 <= w < k + 1 && selection@[w]@.len() > 0 implies #[trigger] kept_in(selection@, w, n) by {
                    if w < k {
                        assert(kept_in(selection@, w, o));
                        let i2 = choose|i2: int| 0 <= i2 < o.len() && o[i2]@ == selection@[w]@;
                        assert(kept_in(o, i2, n));
                        let i = choose|i: int| 0 <= i < n.len() && n[i]@ == o[i2]@;
                        assert(n[i]@ == selection@[w]@);
                    } else {
                        let i = choose|i: int| 0 <= i < n.len() && (#[trigger] n[i])@ == selection@[k as int]@;
                        assert(n[i]@ == selection@[w]@);
                    }
                }
            }
        } else {
            proof {
                assert forall|i: int| 0 <= i < o.len() implies #[trigger] drawn_from(selection@, k + 1, o, i) by {
                    assert(drawn_from(selection@, k as int, o, i));
                    let w = choose|w: int| 0 <= w < k && selection@[w]@ == o[i]@;
                    assert(selection@[w]@ == o[i]@);
                }
                assert forall|w: int| 0 <= w < k + 1 && selection@[w]@.len() > 0 implies #[trigger] kept_in(selection@, w, o) by {
                    if w < k {
                        assert(kept_in(selection@, w, o));
                    }
                }
            }
        }
        k = k + 1;
    }
    out
}

/// Whether every selected path is already protected (and there is at least one).
pub fn all_protected(protected: &[String], paths: &[String]) -> (r: bool)
    ensures
        r == (paths@.len() > 0 && forall|i: int| 0 <= i < paths@.len() ==> listed_in(protected@, (#[trigger] paths@[i])@)),
{
    if paths.len() == 0 {
        return false;
    }
    let mut i: usize = 0;
    while i < paths.len()
        invariant
            i <= paths@.len(),
            forall|q: int| 0 <= q < i ==> listed_in(protected@, (#[trigger] paths@[q])@),
        decreases paths@.len() - i,
    {
        if !is_listed(protected, paths[i].as_str()) {
            return false;
        }
        i = i + 1;
    }
    true
}

fn is_listed(paths: &[String], v: &str) -> (r: bool)
    ensures
        r == listed_in(paths@, v@),
{
    let mut i: usize = 0;
    while i < paths.len()
        invariant
            i <= paths@.len(),
            forall|q: int| 0 <= q < i ==> normalized((#[trigger] paths@[q])@) != normalized(v@),
        decreases paths@.len() - i,
    {
        if same_path(paths[i].as_str(), v) {
            assert(normalized(paths@[i as int]@) == normalized(v@));
            return true;
        }
        i = i + 1;
    }
    false
}

/// The protected list without the paths the user unprotects.
pub open spec fn without_listed(protected: Seq<String>, paths: Seq<String>) -> Seq<String>
    decreases protected.len(),
{
    if protected.len() == 0 {
        Seq::empty()
    } else {
        let w = without_listed(protected.drop_last(), paths);
        if listed_in(paths, protected.last()@) {
            w
        } else {
            w.push(protected.last())
        }
    }
}

/// Removes the user's protection for these executables.
pub fn unprotect(protected: &mut Vec<String>, paths: &[String])
    ensures
        final(protected)@ == without_listed(old(protected)@, paths@),
{
    let mut kept: Vec<String> = Vec::new();
    let mut i: usize = 0;
    proof {
        assert(protected@.take(0) =~= Seq::<String>::empty());
    }
    while i < protected.len()
        invariant
            i <= protected@.len(),
            protected@ == old(protected)@,
            kept@ == without_listed(protected@.take(i as int), paths@),
        decreases protected@.len() - i,
    {
        proof {
            assert(protected@.take(i + 1).drop_last() =~= protected@.take(i as int));
            assert(protected@.take(i + 1).last() == protected@[i as int]);
        }
        if !is_listed(paths, protected[i].as_str()) {
            kept.push(protected[i].clone());
        }
        i = i + 1;
    }
    proof {
        assert(protected@.take(i as int) =~= protected@);
    }
    *protected = kept;
}

/// The protected list with each path added that is not listed yet, in order.
pub open spec fn with_added(protected: Seq<String>, paths: Seq<String>) -> Seq<String>
    decreases paths.len(),
{
    if paths.len() == 0 {
        protected
    } else {
        let w = with_added(protected, paths.drop_last());
        if listed_in(w, paths.last()@) {
            w
        } else {
            w.push(paths.last())
        }
    }
}

/// The selected actions without those for these executables.
pub open spec fn without_actions_for(actions: Seq<ApprovedAction>, paths: Seq<String>) -> Seq<ApprovedAction>
    decreases actions.len(),
{
    if actions.len() == 0 {
        Seq::empty()
    } else {
        let w = without_actions_for(actions.drop_last(), paths);
        if listed_in(paths, actions.last().target.path@) {
            w
        } else {
            w.push(actions.last())
        }
    }
}

/// Protects these executables: their selected actions are dropped, and each is added to
/// the protected list unless already there.
pub fn protect(protected: &mut Vec<String>, actions: &mut Vec<ApprovedAction>, paths: &[String])
    ensures
        final(protected)@ == with_added(old(protected)@, paths@),
        final(actions)@ == without_actions_for(old(actions)@, paths@),
{
    let mut i: usize = 0;
    proof {
        assert(paths@.take(0) =~= Seq::<String>::empty());
    }
    while i < paths.len()
        invariant
            i <= paths@.len(),
            protected@ == with_added(old(protected)@, paths@.take(i as int)),
            actions@ == old(actions)@,
        decreases paths@.len() - i,
    {
        proof {
            assert(paths@.take(i + 1).drop_last() =~= paths@.take(i as int));
            assert(paths@.take(i + 1).last() == paths@[i as int]);
        }
        if !is_listed(protected.as_slice(), paths[i].as_str()) {
            protected.push(paths[i].clone());
        }
        i = i + 1;
    }
    proof {
        assert(paths@.take(i as int) =~= paths@);
    }
    let mut kept: Vec<ApprovedAction> = Vec::new();
    let mut k: usize = 0;
    proof {
        assert(actions@.take(0) =~= Seq::<ApprovedAction>::empty());
    }
    while k < actions.len()
        invariant
            k <= actions@.len(),
            actions@ == old(actions)@,
            kept@ == without_actions_for(actions@.take(k as int), paths@),
        decreases actions@.len() - k,
    {
        proof {
            assert(actions@.take(k + 1).drop_last() =~= actions@.take(k as int));
            assert(actions@.take(k + 1).last() == actions@[k as int]);
        }
        if !is_listed(paths, actions[k].target.path.as_str()) {
            kept.push(actions[k].clone());
        }
        k = k + 1;
    }
    proof {
        assert(actions@.take(k as int) =~= actions@);
    }
    *actions = kept;
}

/// Selected actions in ascending PID order, one per process.
pub open spec fn pid_sorted(s: Seq<ApprovedAction>) -> bool {
    forall|i: int, j: int| 0 <= i < j < s.len() ==> (#[trigger] s[i]).target.pid < (#[trigger] s[j]).target.pid
}

/// How many of the first `n` actions are for a smaller PID.
pub open spec fn below(s: Seq<ApprovedAction>, pid: u32, n: int) -> int
    decreases n,
{
    if n <= 0 {
        0
    } else {
        below(s, pid, n - 1) + if s[n - 1].target.pid < pid {
            1int
        } else {
            0int
        }
    }
}

/// The selected actions after choosing `action` for `target` (none to keep it): its
/// entry is replaced, added at its place in PID order, or removed.
pub open spec fn mark_spec(s: Seq<ApprovedAction>, target: Identity, action: Option<ActionKind>) -> Seq<ApprovedAction> {
    let p = below(s, target.pid, s.len() as int);
    let present = p < s.len() && s[p].target.pid == target.pid;
    match action {
        Some(a) => {
            let e = ApprovedAction { target, action: a, reopen: None };
            if present {
                s.update(p, e)
            } else {
                s.insert(p, e)
            }
        },
        None => if present {
            s.remove(p)
        } else {
            s
        },
    }
}

proof fn lemma_below(s: Seq<ApprovedAction>, pid: u32, n: int)
    requires
        pid_sorted(s),
        0 <= n <= s.len(),
        forall|q: int| 0 <= q < n ==> (#[trigger] s[q]).target.pid < pid,
    ensures
        below(s, pid, n) == n,
    decreases n,
{
    if n > 0 {
        lemma_below(s, pid, n - 1);
    }
}

proof fn lemma_below_rest(s: Seq<ApprovedAction>, pid: u32, p: int, n: int)
    requires
        pid_sorted(s),
        0 <= p <= n <= s.len(),
        below(s, pid, p) == p,
        p < s.len() ==> s[p].target.pid >= pid,
    ensures
        below(s, pid, n) == p,
    decreases n - p,
{
    if n > p {
        lemma_below_rest(s, pid, p, n - 1);
        if n - 1 > p {
            assert(s[p].target.pid < s[n - 1].target.pid);
        }
    }
}

/// Chooses the action for one process in the selected actions.
pub fn mark_action(actions: &mut Vec<ApprovedAction>, target: &Identity, action: Option<ActionKind>)
    requires
        pid_sorted(old(actions)@),
    ensures
        pid_sorted(final(actions)@),
        final(actions)@ == mark_spec(old(actions)@, *target, action),
{
    let ghost o = actions@;
    let mut p: usize = 0;
    while p < actions.len() && actions[p].target.pid < target.pid
        invariant
            p <= actions@.len(),
            actions@ == o,
            pid_sorted(o),
            forall|q: int| 0 <= q < p ==> (#[trigger] o[q]).target.pid < target.pid,
        decreases actions@.len() - p,
    {
        p = p + 1;
    }
    proof {
        lemma_below(o, target.pid, p as int);
        lemma_below_rest(o, target.pid, p as int, o.len() as int);
    }
    let present = p < actions.len() && actions[p].target.pid == target.pid;
    match action {
        Some(a) => {
            let e = ApprovedAction { target: target.clone(), action: a, reopen: None };
            if present {
                actions.set(p, e);
            } else {
                actions.insert(p, e);
            }
        },
        None => {
            if present {
                let _ = actions.remove(p);
            }
        },
    }
    proof {
        let n = actions@;
        assert forall|i: int, j: int| 0 <= i < j < n.len() implies (#[trigger] n[i]).target.pid < (#[trigger] n[j]).target.pid by {
            if action is Some && !present {
                if j < p {
                    assert(n[i] == o[i] && n[j] == o[j]);
                } else if j == p {
                    assert(n[i] == o[i]);
                } else if i < p {
                    assert(n[i] == o[i] && n[j] == o[j - 1]);
                    assert(o[j - 1].target.pid >= target.pid);
                } else if i == p {
                    assert(n[j] == o[j - 1]);
                } else {
                    assert(n[i] == o[i - 1] && n[j] == o[j - 1]);
                }
            } else if action is None && present {
                if j < p {
                    assert(n[i] == o[i] && n[j] == o[j]);
                } else if i < p {
                    assert(n[i] == o[i] && n[j] == o[j + 1]);
                } else {
                    assert(n[i] == o[i + 1] && n[j] == o[j + 1]);
                }
            } else if action is Some && present {
                if i != p && j != p {
                    assert(n[i] == o[i] && n[j] == o[j]);
                } else if i == p {
                    assert(n[j] == o[j]);
                    assert(o[p as int].target.pid < o[j].target.pid);
                } else {
                    assert(n[i] == o[i]);
                    assert(o[i].target.pid < o[p as int].target.pid);
                }
            }
        }
    }
}

/// The selected actions after choosing `action` for the first `n` selected rows in order.
pub open spec fn marked_rows(
    s: Seq<ApprovedAction>,
    rows: Seq<ProcessRow>,
    selected: Seq<usize>,
    action: Option<ActionKind>,
    n: int,
) -> Seq<ApprovedAction>
    decreases n,
{
    if n <= 0 {
        s
    } else {
        mark_spec(marked_rows(s, rows, selected, action, n - 1), rows[selected[n - 1] as int].identity, action)
    }
}

/// Chooses `action` for every selected row, after checking the whole selection when an
/// action is given: a refused selection changes nothing.
pub fn mark(
    actions: &mut Vec<ApprovedAction>,
    rows: &[ProcessRow],
    selected: &[usize],
    action: Option<ActionKind>,
    game: &Option<Identity>,
    protected_paths: &[String],
) -> (r: AppResult<()>)
    requires
        pid_sorted(old(actions)@),
        forall|q: int| 0 <= q < selected@.len() ==> (#[trigger] selected@[q]) < rows@.len(),
    ensures
        pid_sorted(final(actions)@),
        selected@.len() == 0 ==> (r matches Err(m) && m@ == "Select background process rows first (Ctrl/Shift for multiple)."@)
            && final(actions)@ == old(actions)@,
        selected@.len() > 0 && action is Some ==> match first_refusal(rows@, selected@, *game, protected_paths@, selected@.len() as int) {
            Some(m) => (r matches Err(x) && x@ == m) && final(actions)@ == old(actions)@,
            None => r is Ok && final(actions)@ == marked_rows(old(actions)@, rows@, selected@, action, selected@.len() as int),
        },
        selected@.len() > 0 && action is None ==> r is Ok && final(actions)@ == marked_rows(old(actions)@, rows@, selected@, action, selected@.len() as int),
{
    if selected.len() == 0 {
        return Err("Select background process rows first (Ctrl/Shift for multiple).".to_string());
    }
    if action.is_some() {
        if let Err(e) = selection_check(rows, selected, game, protected_paths) {
            return Err(e);
        }
    }
    let ghost o = actions@;
    let mut q: usize = 0;
    while q < selected.len()
        invariant
            q <= selected@.len(),
            forall|i: int| 0 <= i < selected@.len() ==> (#[trigger] selected@[i]) < rows@.len(),
            pid_sorted(actions@),
            actions@ == marked_rows(o, rows@, selected@, action, q as int),
        decreases selected@.len() - q,
    {
        mark_action(actions, &rows[selected[q]].identity, action);
        q = q + 1;
    }
    Ok(())
}


/// The status line of the Advanced window for the latest session: a stalled session
/// (not finished, not pending, and no live worker) asks for a restore; any other shows
/// its stage and counts.
pub open spec fn session_status(s: Session, worker_alive: bool) -> Seq<char> {
    if !stage_finished(s.stage) && !worker_alive && s.stage != Stage::Pending {
        stage_name(s.stage) + ": worker not running. Click Restore now; original values remain in the recovery journal."@
    } else {
        "Session "@ + stage_name(s.stage) + " | "@ + decimal_seq(s.changes@.len()) + " settings recorded | "@
            + decimal_seq(s.closed@.len()) + " close attempts. "@ + if s.stage == Stage::RecoveryNeeded {
            "Review conflicts before continuing."@
        } else {
            "Closing/relaunching apps is not memory restoration."@
        }
    }
}

/// The Advanced window's status line for the latest session and whether its worker runs.
pub fn status_line(s: &Session, worker_alive: bool) -> (r: String)
    ensures
        r@ == session_status(*s, worker_alive),
{
    let mut t: Vec<char> = Vec::new();
    if !s.stage.finished() && !worker_alive && s.stage != Stage::Pending {
        append(&mut t, stage_str(s.stage));
        append(&mut t, ": worker not running. Click Restore now; original values remain in the recovery journal.");
    } else {
        append(&mut t, "Session ");
        append(&mut t, stage_str(s.stage));
        append(&mut t, " | ");
        append_chars(&mut t, &decimal(s.changes.len() as u64));
        append(&mut t, " settings recorded | ");
        append_chars(&mut t, &decimal(s.closed.len() as u64));
        append(&mut t, " close attempts. ");
        if s.stage == Stage::RecoveryNeeded {
            append(&mut t, "Review conflicts before continuing.");
        } else {
            append(&mut t, "Closing/relaunching apps is not memory restoration.");
        }
    }
    string_of(&t)
}

/// A process of the snapshot is still the action's exact target.
pub open spec fn still_listed(rows: Seq<ProcessRow>, target: Identity) -> bool {
    exists|k: int| 0 <= k < rows.len() && same_process_spec((#[trigger] rows[k]).identity, target)
}

/// The selected actions whose exact target is still in the snapshot, in their order.
pub open spec fn live_actions(actions: Seq<ApprovedAction>, rows: Seq<ProcessRow>) -> Seq<ApprovedAction>
    decreases actions.len(),
{
    if actions.len() == 0 {
        Seq::empty()
    } else {
        let rest = live_actions(actions.drop_last(), rows);
        if still_listed(rows, actions.last().target) {
            rest.push(actions.last())
        } else {
            rest
        }
    }
}

fn listed_now(rows: &[ProcessRow], target: &Identity) -> (r: bool)
    ensures
        r == still_listed(rows@, *target),
{
    let mut k: usize = 0;
    while k < rows.len()
        invariant
            k <= rows@.len(),
            forall|q: int| 0 <= q < k ==> !same_process_spec((#[trigger] rows@[q]).identity, *target),
        decreases rows@.len() - k,
    {
        if same_process(&rows[k].identity, target) {
            return true;
        }
        k = k + 1;
    }
    false
}

/// After a fresh snapshot, drops the selected actions whose exact process is gone.
pub fn keep_live(actions: &mut Vec<ApprovedAction>, rows: &[ProcessRow])
    requires
        pid_sorted(old(actions)@),
    ensures
        pid_sorted(final(actions)@),
        final(actions)@ == live_actions(old(actions)@, rows@),
{
    let mut kept: Vec<ApprovedAction> = Vec::new();
    let mut k: usize = 0;
    while k < actions.len()
        invariant
            k <= actions@.len(),
            pid_sorted(actions@),
            pid_sorted(kept@),
            kept@ == live_actions(actions@.take(k as int), rows@),
            forall|m: int, q: int| 0 <= m < kept@.len() && k <= q < actions@.len()
                ==> (#[trigger] kept@[m]).target.pid < (#[trigger] actions@[q]).target.pid,
        decreases actions@.len() - k,
    {
        proof {
            assert(actions@.take(k + 1).drop_last() =~= actions@.take(k as int));
            assert(actions@.take(k + 1).last() == actions@[k as int]);
        }
        if listed_now(rows, &actions[k].target) {
            let ghost before = kept@;
            kept.push(actions[k].clone());
            proof {
                assert forall|m: int, q: int| 0 <= m < kept@.len() && k + 1 <= q < actions@.len()
                    implies (#[trigger] kept@[m]).target.pid < (#[trigger] actions@[q]).target.pid by {
                    assert(actions@[k as int].target.pid < actions@[q].target.pid);
                    if m < before.len() {
                        assert(kept@[m] == before[m]);
                    }
                }
                assert forall|i: int, j: int| 0 <= i < j < kept@.len()
                    implies (#[trigger] kept@[i]).target.pid < (#[trigger] kept@[j]).target.pid by {
                    if j < before.len() {
                        assert(kept@[i] == before[i] && kept@[j] == before[j]);
                    } else {
                        assert(kept@[i] == before[i]);
                    }
                }
            }
        }
        k = k + 1;
    }
    proof {
        assert(actions@.take(k as int) =~= actions@);
    }
    *actions = kept;
}


/// The name `{:?}` prints for an action kind.
pub open spec fn action_name(a: ActionKind) -> Seq<char> {
    match a {
        ActionKind::LowerPriorities => "LowerPriorities"@,
        ActionKind::Close => "Close"@,
        ActionKind::ForceClose => "ForceClose"@,
    }
}

fn action_str(a: ActionKind) -> (r: &'static str)
    ensures
        r@ == action_name(a),
{
    match a {
        ActionKind::LowerPriorities => "LowerPriorities",
        ActionKind::Close => "Close",
        ActionKind::ForceClose => "ForceClose",
    }
}

/// A selected action is recorded for this PID.
pub open spec fn has_action(actions: Seq<ApprovedAction>, pid: u32) -> bool {
    exists|k: int| 0 <= k < actions.len() && (#[trigger] actions[k]).target.pid == pid
}

/// The action recorded for this PID (there is at most one in PID order).
pub open spec fn action_of(actions: Seq<ApprovedAction>, pid: u32) -> ActionKind {
    actions[choose|k: int| 0 <= k < actions.len() && (#[trigger] actions[k]).target.pid == pid].action
}

/// The action column of a process row: the game, the user's protected list, a
/// protected process, the selected action, or the default of keeping it.
pub open spec fn row_label(row: ProcessRow, game: Option<Identity>, protected_paths: Seq<String>, actions: Seq<ApprovedAction>) -> Seq<char> {
    if game matches Some(g) && same_process_spec(g, row.identity) {
        "GAME"@
    } else if in_protected_list(protected_paths, row.identity.path@) {
        "USER PROTECTED"@
    } else if row.protected_reason is Some {
        "PROTECTED: "@ + row.protected_reason->0@
    } else if has_action(actions, row.identity.pid) {
        action_name(action_of(actions, row.identity.pid))
    } else {
        "Keep (default)"@
    }
}

/// The action column shown for a process row of the Advanced window.
pub fn action_label(row: &ProcessRow, game: &Option<Identity>, protected_paths: &[String], actions: &[ApprovedAction]) -> (r: String)
    requires
        pid_sorted(actions@),
    ensures
        r@ == row_label(*row, *game, protected_paths@, actions@),
{
    let is_game = match game {
        Some(g) => same_process(g, &row.identity),
        None => false,
    };
    if is_game {
        return "GAME".to_string();
    }
    if is_listed(protected_paths, row.identity.path.as_str()) {
        return "USER PROTECTED".to_string();
    }
    match &row.protected_reason {
        Some(reason) => {
            let mut t: Vec<char> = Vec::new();
            append(&mut t, "PROTECTED: ");
            append(&mut t, reason.as_str());
            return string_of(&t);
        },
        None => {},
    }
    let pid = row.identity.pid;
    let mut k: usize = 0;
    while k < actions.len()
        invariant
            k <= actions@.len(),
            pid_sorted(actions@),
            pid == row.identity.pid,
            !(*game matches Some(g) && same_process_spec(g, row.identity)),
            !in_protected_list(protected_paths@, row.identity.path@),
            row.protected_reason is None,
            forall|q: int| 0 <= q < k ==> (#[trigger] actions@[q]).target.pid != pid,
        decreases actions@.len() - k,
    {
        if actions[k].target.pid == pid {
            proof {
                assert(has_action(actions@, pid));
                let c = choose|c: int| 0 <= c < actions@.len() && (#[trigger] actions@[c]).target.pid == pid;
                if c != k {
                    if c < k {
                        assert(actions@[c].target.pid < actions@[k as int].target.pid);
                    } else {
                        assert(actions@[k as int].target.pid < actions@[c].target.pid);
                    }
                }
            }
            return action_str(actions[k].action).to_string();
        }
        k = k + 1;
    }
    "Keep (default)".to_string()
}


/// How many list entries the list box reports as selected, when that count can be
/// trusted: above zero and no more than the rows shown.
pub fn selection_size(count: isize, rows: usize) -> (r: Option<usize>)
    ensures
        count <= 0 || count > rows ==> r is None,
        0 < count <= rows ==> r == Some(count as usize),
{
    if count <= 0 || count as usize > rows {
        None
    } else {
        Some(count as usize)
    }
}

/// The entries of `items` that name a shown row, in order.
pub open spec fn row_indices(items: Seq<i32>, rows: nat) -> Seq<usize>
    decreases items.len(),
{
    if items.len() == 0 {
        Seq::empty()
    } else {
        let rest = row_indices(items.drop_last(), rows);
        if 0 <= items.last() < rows {
            rest.push(items.last() as usize)
        } else {
            rest
        }
    }
}

/// The selected rows from the first `actual` entries the list box wrote: entries that
/// are negative or past the rows shown are skipped; a failed query selects nothing.
pub fn selected_rows(items: &[i32], actual: isize, rows: usize) -> (r: Vec<usize>)
    ensures
        actual < 0 ==> r@.len() == 0,
        actual >= 0 ==> r@ == row_indices(items@.take(if actual < items@.len() { actual as int } else { items@.len() as int }), rows as nat),
        forall|q: int| 0 <= q < r@.len() ==> (#[trigger] r@[q]) < rows,
{
    let mut out: Vec<usize> = Vec::new();
    if actual < 0 {
        return out;
    }
    let n: usize = if (actual as usize) < items.len() { actual as usize } else { items.len() };
    let mut k: usize = 0;
    while k < n
        invariant
            k <= n <= items@.len(),
            out@ == row_indices(items@.take(k as int), rows as nat),
            forall|q: int| 0 <= q < out@.len() ==> (#[trigger] out@[q]) < rows,
        decreases n - k,
    {
        proof {
            assert(items@.take(k + 1).drop_last() =~= items@.take(k as int));
            assert(items@.take(k + 1).last() == items@[k as int]);
        }
        let v = items[k];
        if v >= 0 && (v as usize) < rows {
            out.push(v as usize);
        }
        k = k + 1;
    }
    out
}


/// One line of the approval plan: the action, the exact PID and the executable.
pub open spec fn plan_line(a: ApprovedAction) -> Seq<char> {
    action_name(a.action) + ": PID "@ + decimal_seq(a.target.pid as nat) + "  "@ + a.target.path@ + "\r\n"@
}

/// The lines of the first `n` selected actions.
pub open spec fn plan_lines(actions: Seq<ApprovedAction>, n: int) -> Seq<char>
    decreases n,
{
    if n <= 0 {
        Seq::empty()
    } else {
        plan_lines(actions, n - 1) + plan_line(actions[n - 1])
    }
}

/// The approval plan shown before a game-attached session: every selected action in
/// PID order, then what the session does not do.
pub open spec fn plan_text_spec(actions: Seq<ApprovedAction>) -> Seq<char> {
    "APPROVAL PLAN — exact processes, this session only\r\n"@ + plan_lines(actions, actions.len() as int)
        + "\r\nA helper process exiting does not prove the entire application exited. Unselected/new helpers are never force-closed.\r\nGPU priority is not a usage cap. No documents, RAM contents, tabs or unsaved work are snapshotted. No automatic relaunch."@
}

/// The approval plan text for the selected actions.
pub fn plan_text(actions: &[ApprovedAction]) -> (r: String)
    ensures
        r@ == plan_text_spec(actions@),
{
    let mut t: Vec<char> = Vec::new();
    append(&mut t, "APPROVAL PLAN — exact processes, this session only\r\n");
    let ghost head = t@;
    let mut k: usize = 0;
    while k < actions.len()
        invariant
            k <= actions@.len(),
            t@ == head + plan_lines(actions@, k as int),
        decreases actions@.len() - k,
    {
        let ghost before = t@;
        append(&mut t, action_str(actions[k].action));
        append(&mut t, ": PID ");
        append_chars(&mut t, &decimal(actions[k].target.pid as u64));
        append(&mut t, "  ");
        append(&mut t, actions[k].target.path.as_str());
        append(&mut t, "\r\n");
        proof {
            assert(t@ =~= before + plan_line(actions@[k as int]));
            assert(head + plan_lines(actions@, k + 1) =~= head + plan_lines(actions@, k as int) + plan_line(actions@[k as int]));
        }
        k = k + 1;
    }
    append(&mut t, "\r\nA helper process exiting does not prove the entire application exited. Unselected/new helpers are never force-closed.\r\nGPU priority is not a usage cap. No documents, RAM contents, tabs or unsaved work are snapshotted. No automatic relaunch.");
    proof {
        assert(t@ =~= plan_text_spec(actions@));
    }
    string_of(&t)
}


/// The chosen game after the game path was edited: the process stays chosen only while
/// the path still names its executable.
pub fn game_after_edit(game: &Option<Identity>, game_path: &str) -> (r: Option<Identity>)
    ensures
        match *game {
            None => r is None,
            Some(g) => if normalized(g.path@) == normalized(game_path@) {
                r == Some(g)
            } else {
                r is None
            },
        },
{
    match game {
        None => None,
        Some(g) => if same_path(g.path.as_str(), game_path) {
            Some(g.clone())
        } else {
            None
        },
    }
}

/// What the Restore button of the Advanced window does.
#[derive(Clone, Copy, Debug, PartialEq, Eq, Structural)]
pub enum RestoreRequest {
    /// No session is unfinished: nothing to restore.
    NothingUnfinished,
    /// The session's worker is alive and restores after the stop request.
    LeftToWorker,
    /// The worker is gone: start a recovery worker.
    StartRecovery,
}

/// After a stop was requested for the unfinished session (if any): its live worker
/// restores, otherwise a recovery worker is started.
pub fn restore_request(active: Option<&Session>, worker_alive: bool) -> (r: RestoreRequest)
    ensures
        active is None ==> r == RestoreRequest::NothingUnfinished,
        active matches Some(s) && s.worker is Some && worker_alive ==> r == RestoreRequest::LeftToWorker,
        active matches Some(s) && !(s.worker is Some && worker_alive) ==> r == RestoreRequest::StartRecovery,
{
    match active {
        None => RestoreRequest::NothingUnfinished,
        Some(s) => if s.worker.is_some() && worker_alive {
            RestoreRequest::LeftToWorker
        } else {
            RestoreRequest::StartRecovery
        },
    }
}

} // verus!
