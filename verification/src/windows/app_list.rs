//! The Settings list of apps: one row per executable, built from the running processes,
//! the saved Game Mode permissions and the startup entries the optimizer disabled, with
//! protected and essential apps listed first.
use crate::advice::{
    describe, describe_spec, essential_process, essential_spec, recommendation, recommendation_spec, rule_for, rule_index, Choice,
};
use crate::manual::{rule_active, Rule, RuleAction};
use crate::model::{GpuReading, ProcessRow};
use crate::policy::{complete_identity, complete_identity_spec, normalized, normalized_path};
use crate::text::{
    after_last, append, append_chars, ascii_lower_seq, chars_equal, chars_of, decimal, decimal_seq, last_field,
    lex_less, lex_lt, lemma_lex_irreflexive, lemma_lex_total, lemma_lex_transitive, lower_ascii, str_equal,
    string_of, to_lowercase, unicode_lowercase,
};
use crate::windows::startup::RunEntry;
use vstd::prelude::*;

verus! {

/// The protection reason of a row, as text.
pub open spec fn reason_of(r: ProcessRow) -> Option<Seq<char>> {
    match r.protected_reason {
        Some(x) => Some(x@),
        None => None,
    }
}

/// A row of an essential Windows process.
#[verifier::opaque]
pub open spec fn row_essential(r: ProcessRow) -> bool {
    essential_spec(r.name@, reason_of(r))
}

/// The key a process is listed under: its canonical executable path when its identity is
/// complete; an essential process without one is listed by name and PID; any other
/// process is not listed.
#[verifier::opaque]
pub open spec fn row_key(r: ProcessRow) -> Option<Seq<char>> {
    if complete_identity_spec(r.identity) {
        Some(normalized(r.identity.path@))
    } else if row_essential(r) {
        Some("protected://"@ + ascii_lower_seq(r.name@) + ":"@ + decimal_seq(r.identity.pid as nat))
    } else {
        None
    }
}

/// The larger of two GPU readings, either of which may be unknown.
pub open spec fn gpu_max(a: Option<u32>, b: Option<u32>) -> Option<u32> {
    match (a, b) {
        (Some(x), Some(y)) => Some(if x >= y { x } else { y }),
        (Some(x), None) => Some(x),
        (None, _) => b,
    }
}

/// The busiest single engine of a process, in hundredths of a percent; readings above
/// one hundred percent are not measurements, and parallel engines are never added.
pub open spec fn busiest(g: Seq<GpuReading>) -> Option<u32>
    decreases g.len(),
{
    if g.len() == 0 {
        None
    } else {
        let rest = busiest(g.drop_last());
        match g.last().percent_hundredths {
            Some(v) => if v <= 10000 {
                gpu_max(rest, Some(v))
            } else {
                rest
            },
            None => rest,
        }
    }
}

/// The first of the first `n` rows listed under `k`.
pub open spec fn first_row(rows: Seq<ProcessRow>, k: Seq<char>, n: int) -> Option<int>
    decreases n,
{
    if n <= 0 {
        None
    } else {
        match first_row(rows, k, n - 1) {
            Some(j) => Some(j),
            None => if row_key(rows[n - 1]) == Some(k) {
                Some(n - 1)
            } else {
                None
            },
        }
    }
}

/// Whether one of the first `n` rows listed under `k` is protected or essential.
pub open spec fn any_protected(rows: Seq<ProcessRow>, k: Seq<char>, n: int) -> bool
    decreases n,
{
    if n <= 0 {
        false
    } else {
        any_protected(rows, k, n - 1) || (row_key(rows[n - 1]) == Some(k) && (rows[n - 1].protected_reason is Some
            || row_essential(rows[n - 1])))
    }
}

/// Whether one of the first `n` rows listed under `k` is essential.
pub open spec fn any_essential(rows: Seq<ProcessRow>, k: Seq<char>, n: int) -> bool
    decreases n,
{
    if n <= 0 {
        false
    } else {
        any_essential(rows, k, n - 1) || (row_key(rows[n - 1]) == Some(k) && row_essential(rows[n - 1]))
    }
}

/// The busiest engine over the first `n` rows listed under `k`.
pub open spec fn gpu_of(rows: Seq<ProcessRow>, k: Seq<char>, n: int) -> Option<u32>
    decreases n,
{
    if n <= 0 {
        None
    } else if row_key(rows[n - 1]) == Some(k) {
        gpu_max(gpu_of(rows, k, n - 1), busiest(rows[n - 1].gpu@))
    } else {
        gpu_of(rows, k, n - 1)
    }
}

/// Whether a supported startup entry runs the app listed under `k`.
pub open spec fn starts_with_windows(startup: Seq<RunEntry>, k: Seq<char>) -> bool {
    exists|e: int| 0 <= e < startup.len() && ((#[trigger] startup[e]).executable matches Some(x) && x@ == k)
}

/// Whether the optimizer disabled the startup entry of the app listed under `k`.
pub open spec fn startup_was_disabled(disabled: Seq<String>, k: Seq<char>) -> bool {
    exists|j: int| 0 <= j < disabled.len() && (#[trigger] disabled[j])@ == k
}

/// Whether an app is listed under `k`: a listed process, a saved permission or a
/// disabled startup entry names it.
pub open spec fn listed(rows: Seq<ProcessRow>, rules: Seq<Rule>, disabled: Seq<String>, k: Seq<char>) -> bool {
    ||| exists|j: int| 0 <= j < rows.len() && row_key(#[trigger] rows[j]) == Some(k)
    ||| exists|j: int| 0 <= j < rules.len() && (#[trigger] rules[j]).app.path@ == k
    ||| startup_was_disabled(disabled, k)
}

/// What the list shows of the app listed under `c.path`: the name and identity of its
/// first process (the file name when none runs), whether any of its processes is
/// protected or essential, its busiest engine, and its startup state.
pub open spec fn entry_matches(c: Choice, rows: Seq<ProcessRow>, disabled: Seq<String>, startup: Seq<RunEntry>) -> bool {
    let k = c.path@;
    let n = rows.len() as int;
    &&& match first_row(rows, k, n) {
        Some(i) => c.name@ == rows[i].name@ && c.id == (if complete_identity_spec(rows[i].identity) {
            Some(rows[i].identity)
        } else {
            None
        }),
        None => c.name@ == after_last(k, '\\') && c.id is None,
    }
    &&& c.protected == any_protected(rows, k, n)
    &&& c.essential == any_essential(rows, k, n)
    &&& c.gpu_hundredths == gpu_of(rows, k, n)
    &&& c.startup_enabled == starts_with_windows(startup, k)
    &&& c.startup_disabled == startup_was_disabled(disabled, k)
}

/// List order: ordinary apps before protected and essential ones, essential last, then by
/// lowercase name, then by key.
pub open spec fn list_before(a: Choice, b: Choice) -> bool {
    let ga = a.protected || a.essential;
    let gb = b.protected || b.essential;
    let na = unicode_lowercase(a.name@);
    let nb = unicode_lowercase(b.name@);
    if ga != gb {
        !ga
    } else if a.essential != b.essential {
        !a.essential
    } else if na != nb {
        lex_lt(na, nb)
    } else {
        lex_lt(a.path@, b.path@)
    }
}

pub proof fn lemma_before_total(a: Choice, b: Choice)
    ensures
        a.path@ != b.path@ ==> list_before(a, b) || list_before(b, a),
        !(list_before(a, b) && list_before(b, a)),
{
    lemma_lex_total(unicode_lowercase(a.name@), unicode_lowercase(b.name@));
    lemma_lex_total(a.path@, b.path@);
}

pub proof fn lemma_before_transitive(a: Choice, b: Choice, c: Choice)
    requires
        list_before(a, b),
        list_before(b, c),
    ensures
        list_before(a, c),
{
    let (na, nb, nc) = (unicode_lowercase(a.name@), unicode_lowercase(b.name@), unicode_lowercase(c.name@));
    lemma_lex_total(na, nb);
    lemma_lex_total(nb, nc);
    lemma_lex_total(na, nc);
    if lex_lt(na, nb) && lex_lt(nb, nc) {
        lemma_lex_transitive(na, nb, nc);
    }
    if lex_lt(a.path@, b.path@) && lex_lt(b.path@, c.path@) {
        lemma_lex_transitive(a.path@, b.path@, c.path@);
    }
    lemma_lex_irreflexive(na);
    lemma_lex_irreflexive(a.path@);
    lemma_lex_total(a.path@, c.path@);
}

/// The key a process row is listed under, if any.
pub fn row_key_of(row: &ProcessRow) -> (r: Option<String>)
    ensures
        match row_key(*row) {
            Some(k) => r matches Some(x) && x@ == k,
            None => r is None,
        },
{
    reveal(row_key);
    reveal(row_essential);
    if complete_identity(&row.identity) {
        return Some(normalized_path(row.identity.path.as_str()));
    }
    let reason = match &row.protected_reason {
        Some(x) => Some(x.as_str()),
        None => None,
    };
    if !essential_process(row.name.as_str(), reason) {
        return None;
    }
    let mut out: Vec<char> = Vec::new();
    append(&mut out, "protected://");
    append_chars(&mut out, &lower_ascii(&chars_of(row.name.as_str())));
    append(&mut out, ":");
    append_chars(&mut out, &decimal(row.identity.pid as u64));
    Some(string_of(&out))
}

/// The busiest single engine of a process.
pub fn busiest_hundredths(g: &[GpuReading]) -> (r: Option<u32>)
    ensures
        r == busiest(g@),
{
    let mut best: Option<u32> = None;
    let mut i: usize = 0;
    while i < g.len()
        invariant
            i <= g@.len(),
            best == busiest(g@.take(i as int)),
        decreases g@.len() - i,
    {
        proof {
            assert(g@.take(i + 1).drop_last() =~= g@.take(i as int));
            assert(g@.take(i + 1).last() == g@[i as int]);
        }
        match g[i].percent_hundredths {
            Some(v) => if v <= 10000 {
                best = match best {
                    Some(x) => Some(if x >= v { x } else { v }),
                    None => Some(v),
                };
            },
            None => {},
        }
        i = i + 1;
    }
    proof {
        assert(g@.take(i as int) =~= g@);
    }
    best
}

/// Where the app listed under `k` already is.
fn position(out: &Vec<Choice>, k: &str) -> (r: Option<usize>)
    ensures
        match r {
            Some(m) => m < out@.len() && out@[m as int].path@ == k@,
            None => forall|m: int| 0 <= m < out@.len() ==> (#[trigger] out@[m]).path@ != k@,
        },
{
    let mut m: usize = 0;
    while m < out.len()
        invariant
            m <= out@.len(),
            forall|q: int| 0 <= q < m ==> (#[trigger] out@[q]).path@ != k@,
        decreases out@.len() - m,
    {
        if str_equal(out[m].path.as_str(), k) {
            return Some(m);
        }
        m = m + 1;
    }
    None
}

/// Whether `a` is listed before `b`.
pub fn before(a: &Choice, b: &Choice) -> (r: bool)
    ensures
        r == list_before(*a, *b),
{
    let ga = a.protected || a.essential;
    let gb = b.protected || b.essential;
    if ga != gb {
        return !ga;
    }
    if a.essential != b.essential {
        return !a.essential;
    }
    let na = chars_of(to_lowercase(a.name.as_str()).as_str());
    let nb = chars_of(to_lowercase(b.name.as_str()).as_str());
    if !chars_equal(&na, &nb) {
        return lex_less(&na, &nb);
    }
    lex_less(&chars_of(a.path.as_str()), &chars_of(b.path.as_str()))
}

/// What an entry shows once the first `n` rows are counted, before its startup state is
/// known.
pub open spec fn partial_entry(c: Choice, rows: Seq<ProcessRow>, n: int) -> bool {
    let k = c.path@;
    &&& match first_row(rows, k, n) {
        Some(i) => c.name@ == rows[i].name@ && c.id == (if complete_identity_spec(rows[i].identity) {
            Some(rows[i].identity)
        } else {
            None
        }),
        None => c.name@ == after_last(k, '\\') && c.id is None,
    }
    &&& c.protected == any_protected(rows, k, n)
    &&& c.essential == any_essential(rows, k, n)
    &&& c.gpu_hundredths == gpu_of(rows, k, n)
}

/// No row before `n` is listed under `k`: nothing is counted for it.
pub proof fn lemma_absent_prefix(rows: Seq<ProcessRow>, k: Seq<char>, n: int)
    requires
        forall|j: int| 0 <= j < n ==> row_key(#[trigger] rows[j]) != Some(k),
    ensures
        first_row(rows, k, n) is None,
        !any_protected(rows, k, n),
        !any_essential(rows, k, n),
        gpu_of(rows, k, n) is None,
    decreases n,
{
    if n > 0 {
        lemma_absent_prefix(rows, k, n - 1);
    }
}

/// The entries built from the first `i` rows: each counts those rows, none has a startup
/// state yet, each comes from one of them, keys are distinct, and every listed row has one.
#[verifier::opaque]
pub open spec fn grouped(out: Seq<Choice>, rows: Seq<ProcessRow>, i: int) -> bool {
    &&& forall|m: int| 0 <= m < out.len() ==> partial_entry(#[trigger] out[m], rows, i)
    &&& forall|m: int| 0 <= m < out.len() ==> !(#[trigger] out[m]).startup_enabled && !out[m].startup_disabled
    &&& forall|m: int| 0 <= m < out.len() ==> exists|j: int| 0 <= j < i && row_key(#[trigger] rows[j]) == Some((#[trigger] out[m]).path@)
    &&& forall|a: int, b: int| 0 <= a < b < out.len() ==> (#[trigger] out[a]).path@ != (#[trigger] out[b]).path@
    &&& forall|j: int| 0 <= j < i && row_key(#[trigger] rows[j]) is Some ==> exists|m: int| 0 <= m < out.len() && (#[trigger] out[m]).path@ == row_key(rows[j])->0
}

/// A row listed under another key changes nothing of an entry.
proof fn lemma_step_other(c: Choice, rows: Seq<ProcessRow>, i: int)
    requires
        0 <= i,
        partial_entry(c, rows, i),
        row_key(rows[i]) != Some(c.path@),
    ensures
        partial_entry(c, rows, i + 1),
{
}

/// A row listed under an entry's key is counted into it.
proof fn lemma_step_same(c: Choice, d: Choice, rows: Seq<ProcessRow>, i: int)
    requires
        0 <= i,
        partial_entry(c, rows, i),
        first_row(rows, c.path@, i) is Some,
        row_key(rows[i]) == Some(c.path@),
        d.path@ == c.path@,
        d.name == c.name,
        d.id == c.id,
        d.protected == (c.protected || rows[i].protected_reason is Some || row_essential(rows[i])),
        d.essential == (c.essential || row_essential(rows[i])),
        d.gpu_hundredths == gpu_max(c.gpu_hundredths, busiest(rows[i].gpu@)),
    ensures
        partial_entry(d, rows, i + 1),
{
}

/// The first row listed under a new key starts its entry.
proof fn lemma_step_new(d: Choice, rows: Seq<ProcessRow>, i: int)
    requires
        0 <= i,
        forall|j: int| 0 <= j < i ==> row_key(#[trigger] rows[j]) != Some(d.path@),
        row_key(rows[i]) == Some(d.path@),
        d.name@ == rows[i].name@,
        d.id == (if complete_identity_spec(rows[i].identity) {
            Some(rows[i].identity)
        } else {
            None
        }),
        d.protected == (rows[i].protected_reason is Some || row_essential(rows[i])),
        d.essential == row_essential(rows[i]),
        d.gpu_hundredths == busiest(rows[i].gpu@),
    ensures
        partial_entry(d, rows, i + 1),
{
    lemma_absent_prefix(rows, d.path@, i);
}

/// A row that is not listed leaves the entries as they are.
proof fn lemma_grouped_skip(out: Seq<Choice>, rows: Seq<ProcessRow>, i: int)
    requires
        0 <= i < rows.len(),
        grouped(out, rows, i),
        row_key(rows[i]) is None,
    ensures
        grouped(out, rows, i + 1),
{
    reveal(grouped);
    assert forall|m: int| 0 <= m < out.len() implies partial_entry(#[trigger] out[m], rows, i + 1) by {
        lemma_step_other(out[m], rows, i);
    }
    assert forall|m: int| 0 <= m < out.len() implies exists|j: int| 0 <= j < i + 1 && row_key(#[trigger] rows[j]) == Some((#[trigger] out[m]).path@) by {
        let j = choose|j: int| 0 <= j < i && row_key(#[trigger] rows[j]) == Some(out[m].path@);
        assert(row_key(rows[j]) == Some(out[m].path@));
    }
}

/// A row under a new key adds its entry.
proof fn lemma_grouped_push(out: Seq<Choice>, d: Choice, rows: Seq<ProcessRow>, i: int)
    requires
        0 <= i < rows.len(),
        grouped(out, rows, i),
        row_key(rows[i]) == Some(d.path@),
        forall|m: int| 0 <= m < out.len() ==> (#[trigger] out[m]).path@ != d.path@,
        partial_entry(d, rows, i + 1),
        !d.startup_enabled && !d.startup_disabled,
    ensures
        grouped(out.push(d), rows, i + 1),
{
    reveal(grouped);
    let o = out.push(d);
    assert forall|m: int| 0 <= m < o.len() implies partial_entry(#[trigger] o[m], rows, i + 1) by {
        if m < out.len() {
            assert(o[m] == out[m]);
            lemma_step_other(out[m], rows, i);
        }
    }
    assert forall|m: int| 0 <= m < o.len() implies !(#[trigger] o[m]).startup_enabled && !o[m].startup_disabled by {
        if m < out.len() {
            assert(o[m] == out[m]);
        }
    }
    assert forall|m: int| 0 <= m < o.len() implies exists|j: int| 0 <= j < i + 1 && row_key(#[trigger] rows[j]) == Some((#[trigger] o[m]).path@) by {
        if m < out.len() {
            assert(o[m] == out[m]);
            let j = choose|j: int| 0 <= j < i && row_key(#[trigger] rows[j]) == Some(out[m].path@);
            assert(row_key(rows[j]) == Some(o[m].path@));
        } else {
            assert(row_key(rows[i]) == Some(o[m].path@));
        }
    }
    assert forall|a: int, b: int| 0 <= a < b < o.len() implies (#[trigger] o[a]).path@ != (#[trigger] o[b]).path@ by {
        assert(o[a] == out[a]);
        if b < out.len() {
            assert(o[b] == out[b]);
        }
    }
    assert forall|j: int| 0 <= j < i + 1 && row_key(#[trigger] rows[j]) is Some implies exists|m: int| 0 <= m < o.len() && (#[trigger] o[m]).path@ == row_key(rows[j])->0 by {
        if j < i {
            let m = choose|m: int| 0 <= m < out.len() && (#[trigger] out[m]).path@ == row_key(rows[j])->0;
            assert(o[m] == out[m]);
        } else {
            assert(o[out.len() as int].path@ == row_key(rows[j])->0);
        }
    }
}

/// A row under an existing key is counted into its entry.
proof fn lemma_grouped_update(out: Seq<Choice>, m: int, e: Choice, rows: Seq<ProcessRow>, i: int)
    requires
        0 <= i < rows.len(),
        0 <= m < out.len(),
        grouped(out, rows, i),
        row_key(rows[i]) == Some(out[m].path@),
        e.path@ == out[m].path@,
        partial_entry(e, rows, i + 1),
        !e.startup_enabled && !e.startup_disabled,
    ensures
        grouped(out.update(m, e), rows, i + 1),
{
    reveal(grouped);
    let o = out.update(m, e);
    assert forall|q: int| 0 <= q < o.len() implies partial_entry(#[trigger] o[q], rows, i + 1) by {
        if q != m {
            assert(o[q] == out[q]);
            assert(out[q].path@ != out[m].path@);
            lemma_step_other(out[q], rows, i);
        }
    }
    assert forall|q: int| 0 <= q < o.len() implies !(#[trigger] o[q]).startup_enabled && !o[q].startup_disabled by {
        if q != m {
            assert(o[q] == out[q]);
        }
    }
    assert forall|q: int| 0 <= q < o.len() implies exists|j: int| 0 <= j < i + 1 && row_key(#[trigger] rows[j]) == Some((#[trigger] o[q]).path@) by {
        assert(o[q].path@ == out[q].path@);
        let j = choose|j: int| 0 <= j < i && row_key(#[trigger] rows[j]) == Some(out[q].path@);
        assert(row_key(rows[j]) == Some(o[q].path@));
    }
    assert forall|a: int, b: int| 0 <= a < b < o.len() implies (#[trigger] o[a]).path@ != (#[trigger] o[b]).path@ by {
        assert(o[a].path@ == out[a].path@);
        assert(o[b].path@ == out[b].path@);
    }
    assert forall|j: int| 0 <= j < i + 1 && row_key(#[trigger] rows[j]) is Some implies exists|q: int| 0 <= q < o.len() && (#[trigger] o[q]).path@ == row_key(rows[j])->0 by {
        if j < i {
            let q = choose|q: int| 0 <= q < out.len() && (#[trigger] out[q]).path@ == row_key(rows[j])->0;
            assert(o[q].path@ == out[q].path@);
        } else {
            assert(o[m].path@ == row_key(rows[j])->0);
        }
    }
}

/// Without an entry for `k`, no counted row is listed under it.
proof fn lemma_grouped_absent(out: Seq<Choice>, rows: Seq<ProcessRow>, i: int, k: Seq<char>)
    requires
        grouped(out, rows, i),
        forall|m: int| 0 <= m < out.len() ==> (#[trigger] out[m]).path@ != k,
    ensures
        forall|j: int| 0 <= j < i ==> row_key(#[trigger] rows[j]) != Some(k),
{
    reveal(grouped);
    assert forall|j: int| 0 <= j < i implies row_key(#[trigger] rows[j]) != Some(k) by {
        if row_key(rows[j]) == Some(k) {
            let m = choose|m: int| 0 <= m < out.len() && (#[trigger] out[m]).path@ == row_key(rows[j])->0;
            assert(out[m].path@ == k);
        }
    }
}

/// An entry counts its rows, and its first row exists.
proof fn lemma_grouped_entry(out: Seq<Choice>, rows: Seq<ProcessRow>, i: int, m: int)
    requires
        grouped(out, rows, i),
        0 <= m < out.len(),
    ensures
        partial_entry(out[m], rows, i),
        first_row(rows, out[m].path@, i) is Some,
        !out[m].startup_enabled && !out[m].startup_disabled,
{
    reveal(grouped);
    let j = choose|j: int| 0 <= j < i && row_key(#[trigger] rows[j]) == Some(out[m].path@);
    lemma_first_none(rows, out[m].path@, i, j);
}

/// Counts row `i` into the entries.
fn add_row(out: &mut Vec<Choice>, rows: &[ProcessRow], i: usize)
    requires
        i < rows@.len(),
        grouped(old(out)@, rows@, i as int),
    ensures
        grouped(final(out)@, rows@, i + 1),
{
    let ghost before_out = out@;
    let row = &rows[i];
    let key = row_key_of(row);
    if key.is_none() {
        proof {
            lemma_grouped_skip(out@, rows@, i as int);
        }
        return;
    }
    let k = key.unwrap();
    let reason = match &row.protected_reason {
        Some(x) => Some(x.as_str()),
        None => None,
    };
    let essential = essential_process(row.name.as_str(), reason);
    proof {
        assert(essential == row_essential(rows@[i as int])) by {
            reveal(row_essential);
        }
    }
    let flagged = row.protected_reason.is_some() || essential;
    let gpu = busiest_hundredths(row.gpu.as_slice());
    match position(out, k.as_str()) {
        None => {
            proof {
                lemma_grouped_absent(out@, rows@, i as int, k@);
            }
            let id = if complete_identity(&row.identity) {
                Some(row.identity.clone())
            } else {
                None
            };
            let d = Choice {
                path: k,
                name: row.name.clone(),
                id,
                protected: flagged,
                essential,
                gpu_hundredths: gpu,
                startup_enabled: false,
                startup_disabled: false,
            };
            proof {
                lemma_step_new(d, rows@, i as int);
                lemma_grouped_push(out@, d, rows@, i as int);
            }
            out.push(d);
        },
        Some(m) => {
            let ghost c = before_out[m as int];
            proof {
                lemma_grouped_entry(before_out, rows@, i as int, m as int);
            }
            let mut e = out.remove(m);
            e.protected = e.protected || flagged;
            e.essential = e.essential || essential;
            e.gpu_hundredths = match (e.gpu_hundredths, gpu) {
                (Some(x), Some(y)) => Some(if x >= y { x } else { y }),
                (Some(x), None) => Some(x),
                (None, y) => y,
            };
            proof {
                lemma_step_same(c, e, rows@, i as int);
                lemma_grouped_update(before_out, m as int, e, rows@, i as int);
            }
            out.insert(m, e);
            proof {
                assert(out@ =~= before_out.update(m as int, e));
            }
        },
    }
}

/// A row listed under `k` before `n` makes the first such row exist.
proof fn lemma_first_none(rows: Seq<ProcessRow>, k: Seq<char>, n: int, j: int)
    requires
        0 <= j < n,
        row_key(rows[j]) == Some(k),
    ensures
        first_row(rows, k, n) is Some,
    decreases n,
{
    if j < n - 1 {
        lemma_first_none(rows, k, n - 1, j);
    }
}

/// One entry per listed process key, counting every row.
fn group_rows(rows: &[ProcessRow]) -> (out: Vec<Choice>)
    ensures
        grouped(out@, rows@, rows@.len() as int),
{
    let n = rows.len();
    let mut out: Vec<Choice> = Vec::new();
    let mut i: usize = 0;
    proof {
        reveal(grouped);
    }
    while i < n
        invariant
            n == rows@.len(),
            i <= n,
            grouped(out@, rows@, i as int),
        decreases n - i,
    {
        add_row(&mut out, rows, i);
        i = i + 1;
    }
    out
}

/// The entries once every row is counted and the given further keys are added: each
/// counts all rows and comes from a listed row or a further key, keys are distinct, and
/// every listed row and further key has one.
#[verifier::opaque]
pub open spec fn collected(out: Seq<Choice>, rows: Seq<ProcessRow>, names: Seq<Seq<char>>) -> bool {
    &&& forall|m: int| 0 <= m < out.len() ==> partial_entry(#[trigger] out[m], rows, rows.len() as int)
    &&& forall|m: int| 0 <= m < out.len() ==> !(#[trigger] out[m]).startup_enabled && !out[m].startup_disabled
    &&& forall|m: int|
        0 <= m < out.len() ==> (exists|j: int| 0 <= j < rows.len() && row_key(#[trigger] rows[j]) == Some((#[trigger] out[m]).path@))
            || names.contains(out[m].path@)
    &&& forall|a: int, b: int| 0 <= a < b < out.len() ==> (#[trigger] out[a]).path@ != (#[trigger] out[b]).path@
    &&& forall|j: int| 0 <= j < rows.len() && row_key(#[trigger] rows[j]) is Some ==> exists|m: int| 0 <= m < out.len() && (#[trigger] out[m]).path@ == row_key(rows[j])->0
    &&& forall|q: int| #![trigger names[q]] 0 <= q < names.len() ==> exists|m: int| 0 <= m < out.len() && (#[trigger] out[m]).path@ == names[q]
}

proof fn lemma_collected_start(out: Seq<Choice>, rows: Seq<ProcessRow>)
    requires
        grouped(out, rows, rows.len() as int),
    ensures
        collected(out, rows, Seq::empty()),
{
    reveal(grouped);
    reveal(collected);
}

/// Adds an entry for `path` unless one is there.
fn add_named(out: &mut Vec<Choice>, rows: &[ProcessRow], path: &str, Ghost(names): Ghost<Seq<Seq<char>>>)
    requires
        collected(old(out)@, rows@, names),
    ensures
        collected(final(out)@, rows@, names.push(path@)),
{
    let ghost before_out = out@;
    let ghost ns = names.push(path@);
    match position(out, path) {
        Some(m) => {
            proof {
                reveal(collected);
                assert(ns.contains(path@)) by {
                    assert(ns[names.len() as int] == path@);
                }
                assert forall|m2: int| 0 <= m2 < out@.len() implies (exists|j: int| 0 <= j < rows@.len() && row_key(#[trigger] rows@[j]) == Some((#[trigger] out@[m2]).path@))
                    || ns.contains(out@[m2].path@) by {
                    if names.contains(out@[m2].path@) {
                        let q = choose|q: int| 0 <= q < names.len() && names[q] == out@[m2].path@;
                        assert(ns[q] == names[q]);
                    }
                }
                assert forall|q: int| #![trigger ns[q]] 0 <= q < ns.len() implies exists|m2: int| 0 <= m2 < out@.len() && (#[trigger] out@[m2]).path@ == ns[q] by {
                    if q < names.len() {
                        assert(ns[q] == names[q]);
                    } else {
                        assert(out@[m as int].path@ == ns[q]);
                    }
                }
            }
        },
        None => {
            proof {
                reveal(collected);
                assert forall|j: int| 0 <= j < rows@.len() implies row_key(#[trigger] rows@[j]) != Some(path@) by {
                    if row_key(rows@[j]) == Some(path@) {
                        let m = choose|m: int| 0 <= m < out@.len() && (#[trigger] out@[m]).path@ == row_key(rows@[j])->0;
                        assert(out@[m].path@ == path@);
                    }
                }
                lemma_absent_prefix(rows@, path@, rows@.len() as int);
            }
            let d = Choice {
                path: path.to_string(),
                name: last_field(path, '\\'),
                id: None,
                protected: false,
                essential: false,
                gpu_hundredths: None,
                startup_enabled: false,
                startup_disabled: false,
            };
            out.push(d);
            proof {
                let o = out@;
                assert(o == before_out.push(d));
                assert forall|m: int| 0 <= m < o.len() implies partial_entry(#[trigger] o[m], rows@, rows@.len() as int) by {
                    if m < before_out.len() {
                        assert(o[m] == before_out[m]);
                    }
                }
                assert forall|m: int| 0 <= m < o.len() implies !(#[trigger] o[m]).startup_enabled && !o[m].startup_disabled by {
                    if m < before_out.len() {
                        assert(o[m] == before_out[m]);
                    }
                }
                assert forall|m: int| 0 <= m < o.len() implies (exists|j: int| 0 <= j < rows@.len() && row_key(#[trigger] rows@[j]) == Some((#[trigger] o[m]).path@))
                    || ns.contains(o[m].path@) by {
                    if m < before_out.len() {
                        assert(o[m] == before_out[m]);
                        if names.contains(o[m].path@) {
                            let q = choose|q: int| 0 <= q < names.len() && names[q] == o[m].path@;
                            assert(ns[q] == names[q]);
                        }
                    } else {
                        assert(ns[names.len() as int] == o[m].path@);
                    }
                }
                assert forall|a: int, b: int| 0 <= a < b < o.len() implies (#[trigger] o[a]).path@ != (#[trigger] o[b]).path@ by {
                    assert(o[a] == before_out[a]);
                    if b < before_out.len() {
                        assert(o[b] == before_out[b]);
                    }
                }
                assert forall|j: int| 0 <= j < rows@.len() && row_key(#[trigger] rows@[j]) is Some implies exists|m: int| 0 <= m < o.len() && (#[trigger] o[m]).path@ == row_key(rows@[j])->0 by {
                    let m = choose|m: int| 0 <= m < before_out.len() && (#[trigger] before_out[m]).path@ == row_key(rows@[j])->0;
                    assert(o[m] == before_out[m]);
                }
                assert forall|q: int| #![trigger ns[q]] 0 <= q < ns.len() implies exists|m: int| 0 <= m < o.len() && (#[trigger] o[m]).path@ == ns[q] by {
                    if q < names.len() {
                        assert(ns[q] == names[q]);
                        let m = choose|m: int| 0 <= m < before_out.len() && (#[trigger] before_out[m]).path@ == names[q];
                        assert(o[m] == before_out[m]);
                    } else {
                        assert(o[before_out.len() as int].path@ == ns[q]);
                    }
                }
            }
        },
    }
}

/// Whether a startup entry runs the app listed under `path`, and whether the optimizer
/// disabled its startup entry.
fn startup_state(path: &str, disabled: &[String], startup: &[RunEntry]) -> (r: (bool, bool))
    ensures
        r.0 == starts_with_windows(startup@, path@),
        r.1 == startup_was_disabled(disabled@, path@),
{
    let mut enabled = false;
    let mut e: usize = 0;
    while e < startup.len()
        invariant
            e <= startup@.len(),
            enabled == exists|q: int| 0 <= q < e && ((#[trigger] startup@[q]).executable matches Some(x) && x@ == path@),
        decreases startup@.len() - e,
    {
        let hit = match &startup[e].executable {
            Some(x) => str_equal(x.as_str(), path),
            None => false,
        };
        if hit {
            enabled = true;
        }
        e = e + 1;
    }
    let mut was = false;
    let mut j: usize = 0;
    while j < disabled.len()
        invariant
            j <= disabled@.len(),
            was == exists|q: int| 0 <= q < j && (#[trigger] disabled@[q])@ == path@,
        decreases disabled@.len() - j,
    {
        if str_equal(disabled[j].as_str(), path) {
            was = true;
        }
        j = j + 1;
    }
    (enabled, was)
}

/// An entry with its startup state filled in, all else kept.
pub open spec fn with_startup(c: Choice, d: Choice, disabled: Seq<String>, startup: Seq<RunEntry>) -> bool {
    &&& d.path == c.path
    &&& d.name == c.name
    &&& d.id == c.id
    &&& d.protected == c.protected
    &&& d.essential == c.essential
    &&& d.gpu_hundredths == c.gpu_hundredths
    &&& d.startup_enabled == starts_with_windows(startup, c.path@)
    &&& d.startup_disabled == startup_was_disabled(disabled, c.path@)
}

/// Fills in every entry's startup state.
fn mark_startup(out: &mut Vec<Choice>, disabled: &[String], startup: &[RunEntry])
    ensures
        final(out)@.len() == old(out)@.len(),
        forall|m: int| 0 <= m < old(out)@.len() ==> with_startup(old(out)@[m], #[trigger] final(out)@[m], disabled@, startup@),
{
    let ghost start = out@;
    let mut m: usize = 0;
    while m < out.len()
        invariant
            m <= out@.len(),
            out@.len() == start.len(),
            forall|q: int| 0 <= q < m ==> with_startup(start[q], #[trigger] out@[q], disabled@, startup@),
            forall|q: int| m <= q < out@.len() ==> #[trigger] out@[q] == start[q],
        decreases out@.len() - m,
    {
        let (enabled, was) = startup_state(out[m].path.as_str(), disabled, startup);
        out[m].startup_enabled = enabled;
        out[m].startup_disabled = was;
        m = m + 1;
    }
}

/// Entries in strict list order.
#[verifier::opaque]
pub open spec fn in_list_order(s: Seq<Choice>) -> bool {
    forall|i: int, j: int| 0 <= i < j < s.len() ==> list_before(#[trigger] s[i], #[trigger] s[j])
}

/// Inserts an entry with a new key at its place in list order.
fn insert_sorted(res: &mut Vec<Choice>, e: Choice)
    requires
        in_list_order(old(res)@),
        forall|q: int| 0 <= q < old(res)@.len() ==> (#[trigger] old(res)@[q]).path@ != e.path@,
    ensures
        in_list_order(final(res)@),
        exists|p: int| 0 <= p <= old(res)@.len() && final(res)@ == old(res)@.insert(p, e),
{
    reveal(in_list_order);
    let mut p: usize = 0;
    while p < res.len() && !before(&e, &res[p])
        invariant
            p <= res@.len(),
            forall|q: int| 0 <= q < p ==> !list_before(e, #[trigger] res@[q]),
        decreases res@.len() - p,
    {
        p = p + 1;
    }
    let ghost o = res@;
    res.insert(p, e);
    proof {
        let n = res@;
        assert(n == o.insert(p as int, e));
        assert forall|q: int| 0 <= q < p implies list_before(#[trigger] o[q], e) by {
            lemma_before_total(o[q], e);
        }
        assert forall|q: int| p <= q < o.len() implies list_before(e, #[trigger] o[q]) by {
            if q > p {
                lemma_before_transitive(e, o[p as int], o[q]);
            }
        }
        assert forall|i: int, j: int| 0 <= i < j < n.len() implies list_before(#[trigger] n[i], #[trigger] n[j]) by {
            if j < p {
                assert(n[i] == o[i] && n[j] == o[j]);
            } else if j == p {
                assert(n[i] == o[i]);
            } else if i < p {
                assert(n[i] == o[i] && n[j] == o[j - 1]);
                lemma_before_transitive(o[i], e, o[j - 1]);
            } else if i == p {
                assert(n[j] == o[j - 1]);
            } else {
                assert(n[i] == o[i - 1] && n[j] == o[j - 1]);
            }
        }
    }
}

/// Entry `q` of `res` is one of the entries of `g` from position `lo` on.
pub open spec fn placed(res: Seq<Choice>, g: Seq<Choice>, lo: int, q: int) -> bool {
    exists|a: int| lo <= a < g.len() && res[q] == g[a]
}

/// Entry `a` of `g` is one of the entries of `res`.
pub open spec fn covered(res: Seq<Choice>, g: Seq<Choice>, a: int) -> bool {
    exists|q: int| 0 <= q < res.len() && res[q] == g[a]
}

/// One step of the sort: the last remaining entry is inserted at `p`.
proof fn lemma_sort_step(g: Seq<Choice>, old_res: Seq<Choice>, res: Seq<Choice>, l: int, p: int)
    requires
        0 <= l < g.len(),
        0 <= p <= old_res.len(),
        res == old_res.insert(p, g[l]),
        forall|q: int| 0 <= q < old_res.len() ==> #[trigger] placed(old_res, g, l + 1, q),
        forall|a: int| l + 1 <= a < g.len() ==> #[trigger] covered(old_res, g, a),
    ensures
        forall|q: int| 0 <= q < res.len() ==> #[trigger] placed(res, g, l, q),
        forall|a: int| l <= a < g.len() ==> #[trigger] covered(res, g, a),
{
    assert forall|q: int| 0 <= q < res.len() implies #[trigger] placed(res, g, l, q) by {
        if q < p {
            assert(placed(old_res, g, l + 1, q));
            let a = choose|a: int| l + 1 <= a < g.len() && old_res[q] == g[a];
            assert(res[q] == g[a]);
        } else if q == p {
            assert(res[q] == g[l]);
        } else {
            assert(placed(old_res, g, l + 1, q - 1));
            let a = choose|a: int| l + 1 <= a < g.len() && old_res[q - 1] == g[a];
            assert(res[q] == g[a]);
        }
    }
    assert forall|a: int| l <= a < g.len() implies #[trigger] covered(res, g, a) by {
        if a == l {
            assert(res[p] == g[a]);
        } else {
            assert(covered(old_res, g, a));
            let q = choose|q: int| 0 <= q < old_res.len() && old_res[q] == g[a];
            if q < p {
                assert(res[q] == g[a]);
            } else {
                assert(res[q + 1] == g[a]);
            }
        }
    }
}

/// Moves distinct entries into a new vector, in list order.
fn sort_list(rest: &mut Vec<Choice>) -> (r: Vec<Choice>)
    requires
        forall|a: int, b: int| 0 <= a < b < old(rest)@.len() ==> (#[trigger] old(rest)@[a]).path@ != (#[trigger] old(rest)@[b]).path@,
    ensures
        forall|q: int| 0 <= q < r@.len() ==> #[trigger] placed(r@, old(rest)@, 0, q),
        forall|a: int| 0 <= a < old(rest)@.len() ==> #[trigger] covered(r@, old(rest)@, a),
        in_list_order(r@),
{
    let ghost g = rest@;
    let mut res: Vec<Choice> = Vec::new();
    proof {
        reveal(in_list_order);
    }
    while rest.len() > 0
        invariant
            g == old(rest)@,
            forall|a: int, b: int| 0 <= a < b < g.len() ==> (#[trigger] g[a]).path@ != (#[trigger] g[b]).path@,
            rest@.len() <= g.len(),
            rest@ == g.take(rest@.len() as int),
            forall|q: int| 0 <= q < res@.len() ==> #[trigger] placed(res@, g, rest@.len() as int, q),
            forall|a: int| rest@.len() <= a < g.len() ==> #[trigger] covered(res@, g, a),
            in_list_order(res@),
        decreases rest@.len(),
    {
        let ghost l = rest@.len() - 1;
        let ghost old_res = res@;
        let e = rest.pop().unwrap();
        proof {
            assert(e == g[l]);
            assert forall|q: int| 0 <= q < res@.len() implies (#[trigger] res@[q]).path@ != e.path@ by {
                assert(placed(res@, g, l + 1, q));
                let a = choose|a: int| l + 1 <= a < g.len() && res@[q] == g[a];
                assert(res@[q] == g[a]);
            }
        }
        insert_sorted(&mut res, e);
        proof {
            let p = choose|p: int| 0 <= p <= old_res.len() && res@ == old_res.insert(p, e);
            lemma_sort_step(g, old_res, res@, l, p);
            assert(rest@ =~= g.take(rest@.len() as int));
        }
    }
    res
}

/// Adds an entry for every saved permission's executable.
fn add_rule_paths(out: &mut Vec<Choice>, rows: &[ProcessRow], rules: &[Rule]) -> (names: Ghost<Seq<Seq<char>>>)
    requires
        collected(old(out)@, rows@, Seq::empty()),
    ensures
        collected(final(out)@, rows@, names@),
        names@.len() == rules@.len(),
        forall|q: int| 0 <= q < rules@.len() ==> #[trigger] names@[q] == rules@[q].app.path@,
{
    let ghost mut names: Seq<Seq<char>> = Seq::empty();
    let mut j: usize = 0;
    while j < rules.len()
        invariant
            j <= rules@.len(),
            collected(out@, rows@, names),
            names.len() == j,
            forall|q: int| 0 <= q < j ==> #[trigger] names[q] == rules@[q].app.path@,
        decreases rules@.len() - j,
    {
        add_named(out, rows, rules[j].app.path.as_str(), Ghost(names));
        proof {
            names = names.push(rules@[j as int].app.path@);
        }
        j = j + 1;
    }
    Ghost(names)
}

/// Adds an entry for every startup entry the optimizer disabled.
fn add_disabled_paths(out: &mut Vec<Choice>, rows: &[ProcessRow], disabled: &[String], Ghost(names): Ghost<Seq<Seq<char>>>) -> (all: Ghost<Seq<Seq<char>>>)
    requires
        collected(old(out)@, rows@, names),
    ensures
        collected(final(out)@, rows@, all@),
        all@.len() == names.len() + disabled@.len(),
        forall|q: int| 0 <= q < names.len() ==> #[trigger] all@[q] == names[q],
        forall|q: int| 0 <= q < disabled@.len() ==> #[trigger] all@[names.len() + q] == disabled@[q]@,
{
    let ghost mut all: Seq<Seq<char>> = names;
    let mut j: usize = 0;
    while j < disabled.len()
        invariant
            j <= disabled@.len(),
            collected(out@, rows@, all),
            all.len() == names.len() + j,
            forall|q: int| 0 <= q < names.len() ==> #[trigger] all[q] == names[q],
            forall|q: int| 0 <= q < j ==> #[trigger] all[names.len() + q] == disabled@[q]@,
        decreases disabled@.len() - j,
    {
        add_named(out, rows, disabled[j].as_str(), Ghost(all));
        proof {
            let before = all;
            all = all.push(disabled@[j as int]@);
            assert forall|q: int| 0 <= q < names.len() implies #[trigger] all[q] == names[q] by {
                assert(all[q] == before[q]);
            }
            assert forall|q: int| 0 <= q < j + 1 implies #[trigger] all[names.len() + q] == disabled@[q]@ by {
                if q < j {
                    assert(all[names.len() + q] == before[names.len() + q]);
                }
            }
        }
        j = j + 1;
    }
    Ghost(all)
}

/// The marked entries are the collected ones with their startup state; the list holds
/// exactly them, in list order.
proof fn lemma_list_result(
    rows: Seq<ProcessRow>,
    rules: Seq<Rule>,
    disabled: Seq<String>,
    startup: Seq<RunEntry>,
    c: Seq<Choice>,
    d: Seq<Choice>,
    r: Seq<Choice>,
    names: Seq<Seq<char>>,
)
    requires
        collected(c, rows, names),
        names.len() == rules.len() + disabled.len(),
        forall|q: int| 0 <= q < rules.len() ==> #[trigger] names[q] == rules[q].app.path@,
        forall|q: int| 0 <= q < disabled.len() ==> #[trigger] names[rules.len() + q] == disabled[q]@,
        d.len() == c.len(),
        forall|m: int| 0 <= m < c.len() ==> with_startup(c[m], #[trigger] d[m], disabled, startup),
        forall|q: int| 0 <= q < r.len() ==> #[trigger] placed(r, d, 0, q),
        forall|a: int| 0 <= a < d.len() ==> #[trigger] covered(r, d, a),
    ensures
        forall|i: int|
            0 <= i < r.len() ==> listed(rows, rules, disabled, (#[trigger] r[i]).path@) && entry_matches(r[i], rows, disabled, startup),
        forall|k: Seq<char>| #[trigger] listed(rows, rules, disabled, k) ==> exists|i: int| 0 <= i < r.len() && (#[trigger] r[i]).path@ == k,
{
    reveal(collected);
    assert forall|i: int| 0 <= i < r.len() implies listed(rows, rules, disabled, (#[trigger] r[i]).path@) && entry_matches(r[i], rows, disabled, startup) by {
        assert(placed(r, d, 0, i));
        let a = choose|a: int| 0 <= a < d.len() && r[i] == d[a];
        assert(with_startup(c[a], d[a], disabled, startup));
        assert(partial_entry(c[a], rows, rows.len() as int));
        let k = c[a].path@;
        if !(exists|j: int| 0 <= j < rows.len() && row_key(#[trigger] rows[j]) == Some(k)) {
            assert(names.contains(k));
            let q = choose|q: int| 0 <= q < names.len() && names[q] == k;
            if q < rules.len() {
                assert(rules[q].app.path@ == k);
            } else {
                assert(names[rules.len() + (q - rules.len())] == disabled[q - rules.len()]@);
                assert(disabled[q - rules.len()]@ == k);
            }
        }
    }
    assert forall|k: Seq<char>| #[trigger] listed(rows, rules, disabled, k) implies exists|i: int| 0 <= i < r.len() && (#[trigger] r[i]).path@ == k by {
        let m: int = if exists|j: int| 0 <= j < rows.len() && row_key(#[trigger] rows[j]) == Some(k) {
            let j = choose|j: int| 0 <= j < rows.len() && row_key(#[trigger] rows[j]) == Some(k);
            choose|m: int| 0 <= m < c.len() && (#[trigger] c[m]).path@ == row_key(rows[j])->0
        } else if exists|j: int| 0 <= j < rules.len() && (#[trigger] rules[j]).app.path@ == k {
            let j = choose|j: int| 0 <= j < rules.len() && (#[trigger] rules[j]).app.path@ == k;
            assert(names[j] == k);
            choose|m: int| 0 <= m < c.len() && (#[trigger] c[m]).path@ == names[j]
        } else {
            let j = choose|j: int| 0 <= j < disabled.len() && (#[trigger] disabled[j])@ == k;
            assert(names[rules.len() + j] == k);
            choose|m: int| 0 <= m < c.len() && (#[trigger] c[m]).path@ == names[rules.len() + j]
        };
        assert(0 <= m < c.len() && c[m].path@ == k);
        assert(with_startup(c[m], d[m], disabled, startup));
        assert(covered(r, d, m));
        let i = choose|i: int| 0 <= i < r.len() && r[i] == d[m];
        assert(r[i].path@ == k);
    }
}

/// Filling in the startup state keeps keys distinct.
proof fn lemma_marked_distinct(
    c: Seq<Choice>,
    d: Seq<Choice>,
    rows: Seq<ProcessRow>,
    names: Seq<Seq<char>>,
    disabled: Seq<String>,
    startup: Seq<RunEntry>,
)
    requires
        collected(c, rows, names),
        d.len() == c.len(),
        forall|m: int| 0 <= m < c.len() ==> with_startup(c[m], #[trigger] d[m], disabled, startup),
    ensures
        forall|a: int, b: int| 0 <= a < b < d.len() ==> (#[trigger] d[a]).path@ != (#[trigger] d[b]).path@,
{
    reveal(collected);
    assert forall|a: int, b: int| 0 <= a < b < d.len() implies (#[trigger] d[a]).path@ != (#[trigger] d[b]).path@ by {
        assert(with_startup(c[a], d[a], disabled, startup));
        assert(with_startup(c[b], d[b], disabled, startup));
    }
}

/// The Settings list: one entry per listed app, in list order.
pub fn app_list(rows: &[ProcessRow], rules: &[Rule], disabled: &[String], startup: &[RunEntry]) -> (r: Vec<Choice>)
    ensures
        forall|i: int|
            0 <= i < r@.len() ==> listed(rows@, rules@, disabled@, (#[trigger] r@[i]).path@) && entry_matches(r@[i], rows@, disabled@, startup@),
        forall|k: Seq<char>| #[trigger] listed(rows@, rules@, disabled@, k) ==> exists|i: int| 0 <= i < r@.len() && (#[trigger] r@[i]).path@ == k,
        in_list_order(r@),
{
    let mut out = group_rows(rows);
    proof {
        lemma_collected_start(out@, rows@);
    }
    let Ghost(names) = add_rule_paths(&mut out, rows, rules);
    let Ghost(all) = add_disabled_paths(&mut out, rows, disabled, Ghost(names));
    let ghost c = out@;
    proof {
        assert forall|q: int| 0 <= q < rules@.len() implies #[trigger] all[q] == rules@[q].app.path@ by {
            assert(all[q] == names[q]);
        }
    }
    mark_startup(&mut out, disabled, startup);
    let ghost d = out@;
    proof {
        lemma_marked_distinct(c, d, rows@, all, disabled@, startup@);
    }
    let r = sort_list(&mut out);
    proof {
        lemma_list_result(rows@, rules@, disabled@, startup@, c, d, r@, all);
    }
    r
}

/// The Game Mode state a list row shows: the first saved permission for the app, with
/// an expired one shown as such.
pub open spec fn game_text(rules: Seq<Rule>, path: Seq<char>, now: u64) -> Seq<char> {
    match rule_for(rules, path, 0) {
        Some(i) => if !rule_active(rules[i], now) {
            "Keep (approval expired)"@
        } else {
            match rules[i].action {
                RuleAction::Close => "Close"@,
                RuleAction::ReduceLoad => "Lower priority"@,
            }
        },
        None => "Keep"@,
    }
}

/// One row of the Settings list, without its GPU reading.
pub open spec fn line_spec(c: Choice, rules: Seq<Rule>, now: u64) -> Seq<char> {
    let category = if c.essential {
        "Windows / core"@
    } else if c.protected {
        "Protected app"@
    } else {
        describe_spec(ascii_lower_seq(c.name@)).0
    };
    let startup = if c.startup_disabled {
        "Disabled"@
    } else if c.startup_enabled {
        "Keep"@
    } else {
        "N/A"@
    };
    let safety = if c.essential {
        "ESSENTIAL — KEEP"@
    } else if c.protected {
        "PROTECTED — KEEP"@
    } else {
        "OPTIONAL"@
    };
    safety + " | "@ + c.name@ + " — "@ + category + " | Game: "@ + game_text(rules, c.path@, now) + " | Startup: "@
        + startup + " | RECOMMENDED: "@ + recommendation_spec(c) + (if c.id is None {
        " | Not running"@
    } else {
        ""@
    })
}

/// One row of the Settings list, without its GPU reading.
pub fn list_line(c: &Choice, rules: &[Rule], now: u64) -> (r: String)
    ensures
        r@ == line_spec(*c, rules@, now),
{
    let game = match rule_index(rules, c.path.as_str()) {
        Some(i) => if !rules[i].active(now) {
            "Keep (approval expired)"
        } else {
            match rules[i].action {
                RuleAction::Close => "Close",
                RuleAction::ReduceLoad => "Lower priority",
            }
        },
        None => "Keep",
    };
    let category = if c.essential {
        "Windows / core"
    } else if c.protected {
        "Protected app"
    } else {
        describe(c.name.as_str()).0
    };
    let startup = if c.startup_disabled {
        "Disabled"
    } else if c.startup_enabled {
        "Keep"
    } else {
        "N/A"
    };
    let safety = if c.essential {
        "ESSENTIAL — KEEP"
    } else if c.protected {
        "PROTECTED — KEEP"
    } else {
        "OPTIONAL"
    };
    let mut out: Vec<char> = Vec::new();
    append(&mut out, safety);
    append(&mut out, " | ");
    append(&mut out, c.name.as_str());
    append(&mut out, " — ");
    append(&mut out, category);
    append(&mut out, " | Game: ");
    append(&mut out, game);
    append(&mut out, " | Startup: ");
    append(&mut out, startup);
    append(&mut out, " | RECOMMENDED: ");
    append(&mut out, recommendation(c));
    append(&mut out, if c.id.is_none() {
        " | Not running"
    } else {
        ""
    });
    string_of(&out)
}

} // verus!
