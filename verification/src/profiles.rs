//! Saved recipes, not saved permission. Resolving always produces a new, unapproved preview.
use crate::applications::{app_key, eligible, eligible_spec, key_file, key_path, same_user_session, same_user_session_spec, AppKey};
use crate::model::{ActionKind, AppResult, ApprovedAction, Identity, Options, ProcessRow};
use crate::policy::{complete_identity, complete_identity_spec, normalized, normalized_path, reserved_name, reserved_name_spec, same_process, same_process_spec, valid_timeout, MAX_ACTIONS, MAX_PATH_CHARS};
use crate::sorting::{inverse_of, sort_by_pid, stable_sort_by_pid, stably_sorted_from};
use crate::text::{after_last, chars_of, concat, last_field, lemma_lex_irreflexive, lemma_lex_total, lemma_lex_transitive, lex_less, lex_lt, utf8_len, utf8_len_at_most};
use vstd::prelude::*;

verus! {

pub const PROFILE_SCHEMA: u32 = 1;

/// Most saved profiles.
pub const MAX_PROFILES: usize = 32;

/// Most executables one profile may name.
pub const MAX_TARGETS: usize = 32;

/// Longest file identifier a profile may carry, in UTF-8 bytes.
pub const MAX_FILE_ID_BYTES: usize = 256;

#[derive(Clone, Copy, Debug, PartialEq, Eq, Structural)]
pub enum RecipeAction {
    Close,
    LowerPriorities,
}

/// One executable of a recipe and what to do with its running processes.
#[derive(Debug)]
pub struct RecipeTarget {
    pub app: AppKey,
    pub action: RecipeAction,
}

impl Clone for RecipeTarget {
    fn clone(&self) -> (r: Self)
        ensures
            r == *self,
    {
        RecipeTarget { app: self.app.clone(), action: self.action }
    }
}

/// A saved recipe for one game executable.
#[derive(Debug)]
pub struct GameProfile {
    pub schema: u32,
    pub game: AppKey,
    pub targets: Vec<RecipeTarget>,
    pub options: Options,
}

impl Clone for GameProfile {
    fn clone(&self) -> (r: Self)
        ensures
            r.schema == self.schema,
            r.game == self.game,
            r.targets@ == self.targets@,
            r.options == self.options,
    {
        let targets = self.targets.clone();
        assert(targets@ =~= self.targets@);
        GameProfile { schema: self.schema, game: self.game.clone(), targets, options: self.options.clone() }
    }
}

/// A resolved recipe awaiting review: nothing in it is approved yet.
#[derive(Debug)]
pub struct Preview {
    pub actions: Vec<ApprovedAction>,
    pub options: Options,
    pub notices: Vec<String>,
}

/// An executable a profile may name: a bounded canonical path that is not protected
/// infrastructure, and a bounded file identifier.
pub open spec fn key_valid(path: Seq<char>, file: Seq<char>) -> bool {
    &&& 0 < path.len() <= MAX_PATH_CHARS
    &&& 0 < file.len()
    &&& utf8_len(file) <= MAX_FILE_ID_BYTES
    &&& path == normalized(path)
    &&& !reserved_name_spec(after_last(path, '\\'))
}

fn valid_key(key: &AppKey) -> (r: bool)
    ensures
        r == key_valid(key.path@, key.image_file_id@),
{
    let path_len = chars_of(key.path.as_str()).len();
    if path_len == 0 || path_len > MAX_PATH_CHARS || chars_of(key.image_file_id.as_str()).len() == 0 {
        return false;
    }
    if !utf8_len_at_most(key.image_file_id.as_str(), MAX_FILE_ID_BYTES) {
        return false;
    }
    if key.path != normalized_path(key.path.as_str()) {
        return false;
    }
    let name = last_field(key.path.as_str(), '\\');
    !reserved_name(name.as_str())
}

/// Some non-experimental lowering policy is chosen.
pub open spec fn lowers(o: Options) -> bool {
    o.cpu_priority || o.eco_qos || o.memory_priority
}

/// What one profile entry must satisfy.
pub open spec fn target_valid(p: GameProfile, t: RecipeTarget) -> bool {
    &&& key_valid(t.app.path@, t.app.image_file_id@)
    &&& t.app.path@ != p.game.path@
    &&& t.action == RecipeAction::LowerPriorities ==> lowers(p.options)
}

/// A loadable profile: current schema, a valid game, at most 32 distinct valid entries
/// that never name the game, a normal close timeout, and no experimental GPU or
/// automatic-launch permission.
pub open spec fn profile_valid(p: GameProfile) -> bool {
    &&& p.schema == PROFILE_SCHEMA
    &&& key_valid(p.game.path@, p.game.image_file_id@)
    &&& p.targets@.len() <= MAX_TARGETS
    &&& !p.options.gpu_priority
    &&& !p.options.launch_game
    &&& valid_timeout(p.options.close_timeout_ms)
    &&& forall|i: int| 0 <= i < p.targets@.len() ==> target_valid(p, #[trigger] p.targets@[i])
    &&& forall|i: int, j: int| 0 <= i < j < p.targets@.len()
        ==> (#[trigger] p.targets@[i]).app.path@ != (#[trigger] p.targets@[j]).app.path@
}

pub fn validate(p: &GameProfile) -> (r: AppResult<()>)
    ensures
        r is Ok <==> profile_valid(*p),
{
    if p.schema != PROFILE_SCHEMA || !valid_key(&p.game) || p.targets.len() > MAX_TARGETS || p.options.gpu_priority
        || p.options.launch_game || p.options.close_timeout_ms < 1000 || p.options.close_timeout_ms > 15000 {
        return Err("Invalid profile. Profiles cannot retain experimental or automatic-launch permission.".to_string());
    }
    let n = p.targets.len();
    let mut i: usize = 0;
    while i < n
        invariant
            n == p.targets@.len(),
            i <= n,
            forall|m: int| 0 <= m < i ==> target_valid(*p, #[trigger] p.targets@[m]),
            forall|a: int, b: int| 0 <= a < b < i
                ==> (#[trigger] p.targets@[a]).app.path@ != (#[trigger] p.targets@[b]).app.path@,
        decreases n - i,
    {
        let t = &p.targets[i];
        if !valid_key(&t.app) || t.app.path == p.game.path {
            return Err("Invalid, duplicate or game-targeting profile entry.".to_string());
        }
        let mut j: usize = 0;
        while j < i
            invariant
                n == p.targets@.len(),
                j <= i < n,
                t == p.targets@[i as int],
                forall|m: int| 0 <= m < j ==> (#[trigger] p.targets@[m]).app.path@ != t.app.path@,
            decreases i - j,
        {
            if p.targets[j].app.path == t.app.path {
                return Err("Invalid, duplicate or game-targeting profile entry.".to_string());
            }
            j = j + 1;
        }
        if t.action == RecipeAction::LowerPriorities && !(p.options.cpu_priority || p.options.eco_qos
            || p.options.memory_priority) {
            return Err("A saved lowering recipe needs a nonexperimental policy.".to_string());
        }
        i = i + 1;
    }
    Ok(())
}

pub open spec fn recipe_of(k: ActionKind) -> RecipeAction {
    if k == ActionKind::LowerPriorities {
        RecipeAction::LowerPriorities
    } else {
        RecipeAction::Close
    }
}

/// Every action can be saved: no force, complete targets, and one file identity and one
/// action per executable path.
#[verifier::opaque]
pub open spec fn capturable(actions: Seq<ApprovedAction>) -> bool {
    &&& forall|k: int| 0 <= k < actions.len() ==> (#[trigger] actions[k]).action != ActionKind::ForceClose
        && complete_identity_spec(actions[k].target)
    &&& forall|k: int, l: int| 0 <= k < actions.len() && 0 <= l < actions.len()
        && key_path((#[trigger] actions[k]).target) == key_path((#[trigger] actions[l]).target)
        ==> key_file(actions[k].target) == key_file(actions[l].target) && actions[k].action == actions[l].action
}

/// The executable paths the actions name.
pub open spec fn action_paths(actions: Seq<ApprovedAction>) -> Set<Seq<char>> {
    Set::new(|p: Seq<char>| exists|k: int| 0 <= k < actions.len() && key_path((#[trigger] actions[k]).target) == p)
}

/// The entry `t` records action `a`.
pub open spec fn records(t: RecipeTarget, a: ApprovedAction) -> bool {
    &&& t.app.path@ == key_path(a.target)
    &&& t.app.image_file_id@ == key_file(a.target)
    &&& t.action == recipe_of(a.action)
}

/// Entries in strictly increasing path order.
pub open spec fn path_sorted(t: Seq<RecipeTarget>) -> bool {
    forall|i: int, j: int| 0 <= i < j < t.len() ==> lex_lt((#[trigger] t[i]).app.path@, (#[trigger] t[j]).app.path@)
}

/// Entry `i` records action `origin[i]`, and action `q` has its path at entry `place[q]`.
pub open spec fn recipe_by(t: Seq<RecipeTarget>, actions: Seq<ApprovedAction>, origin: Seq<int>, place: Seq<int>) -> bool {
    &&& origin.len() == t.len()
    &&& place.len() == actions.len()
    &&& forall|i: int| 0 <= i < t.len() ==> 0 <= #[trigger] origin[i] < actions.len() && records(t[i], actions[origin[i]])
    &&& forall|q: int| 0 <= q < actions.len() ==> 0 <= #[trigger] place[q] < t.len()
        && t[place[q]].app.path@ == key_path(actions[q].target)
}

/// `t` holds one entry per executable path of `actions`, in path order (the order of a
/// map keyed by path).
pub open spec fn recipe_of_actions(t: Seq<RecipeTarget>, actions: Seq<ApprovedAction>) -> bool {
    &&& path_sorted(t)
    &&& exists|origin: Seq<int>, place: Seq<int>| #[trigger] recipe_by(t, actions, origin, place)
}

/// When a capture succeeds: the actions can be saved, the game is complete and nameable,
/// at most 32 executables are named, none of them the game, each valid, lowering only
/// with a lowering policy, and a normal close timeout.
pub open spec fn capture_ok(game: Identity, actions: Seq<ApprovedAction>, options: Options) -> bool {
    &&& capturable(actions)
    &&& complete_identity_spec(game)
    &&& key_valid(key_path(game), key_file(game))
    &&& action_paths(actions).len() <= MAX_TARGETS
    &&& valid_timeout(options.close_timeout_ms)
    &&& forall|k: int| 0 <= k < actions.len() ==> {
        let a = #[trigger] actions[k];
        &&& key_valid(key_path(a.target), key_file(a.target))
        &&& key_path(a.target) != key_path(game)
        &&& a.action == ActionKind::LowerPriorities ==> lowers(options)
    }
}

proof fn lemma_capturable_step(actions: Seq<ApprovedAction>, k: int)
    requires
        0 <= k < actions.len(),
        capturable(actions.take(k)),
        actions[k].action != ActionKind::ForceClose,
        complete_identity_spec(actions[k].target),
        forall|q: int| 0 <= q < k && key_path((#[trigger] actions[q]).target) == key_path(actions[k].target)
            ==> key_file(actions[q].target) == key_file(actions[k].target) && actions[q].action == actions[k].action,
    ensures
        capturable(actions.take(k + 1)),
{
    reveal(capturable);
    let pre = actions.take(k);
    let next = actions.take(k + 1);
    assert forall|q: int| 0 <= q < k implies next[q] == pre[q] && pre[q] == actions[q] by {}
    assert forall|x: int, y: int| 0 <= x < next.len() && 0 <= y < next.len()
        && key_path((#[trigger] next[x]).target) == key_path((#[trigger] next[y]).target)
        implies key_file(next[x].target) == key_file(next[y].target) && next[x].action == next[y].action by {
        if x < k && y < k {
            assert(pre[x] == next[x] && pre[y] == next[y]);
        } else if x < k {
            assert(next[x] == actions[x]);
        } else if y < k {
            assert(next[y] == actions[y]);
        }
    }
}

proof fn lemma_capturable_pair(actions: Seq<ApprovedAction>, k: int, x: int, y: int)
    requires
        0 <= x < k <= actions.len(),
        0 <= y < k,
        capturable(actions.take(k)),
        key_path(actions[x].target) == key_path(actions[y].target),
    ensures
        key_file(actions[x].target) == key_file(actions[y].target),
        actions[x].action == actions[y].action,
{
    reveal(capturable);
    let pre = actions.take(k);
    assert(pre[x] == actions[x] && pre[y] == actions[y]);
}

proof fn lemma_not_capturable_at(actions: Seq<ApprovedAction>, k: int)
    requires
        0 <= k < actions.len(),
        actions[k].action == ActionKind::ForceClose || !complete_identity_spec(actions[k].target),
    ensures
        !capturable(actions),
{
    reveal(capturable);
}

/// The loop state of `capture` after `k` actions.
pub open spec fn capture_inv(t: Seq<RecipeTarget>, actions: Seq<ApprovedAction>, k: int, origin: Seq<int>, place: Seq<int>) -> bool {
    &&& 0 <= k <= actions.len()
    &&& path_sorted(t)
    &&& recipe_by(t, actions.take(k), origin, place)
    &&& capturable(actions.take(k))
}

proof fn lemma_capture_mismatch(t: Seq<RecipeTarget>, actions: Seq<ApprovedAction>, k: int, pos: int, origin: Seq<int>, place: Seq<int>)
    requires
        capture_inv(t, actions, k, origin, place),
        k < actions.len(),
        0 <= pos < t.len(),
        t[pos].app.path@ == key_path(actions[k].target),
        !records(t[pos], actions[k]),
    ensures
        !capturable(actions),
{
    reveal(capturable);
    let q = origin[pos];
    assert(actions.take(k)[q] == actions[q]);
    assert(records(t[pos], actions[q]));
}

proof fn lemma_capture_existing(t: Seq<RecipeTarget>, actions: Seq<ApprovedAction>, k: int, pos: int, origin: Seq<int>, place: Seq<int>)
    requires
        capture_inv(t, actions, k, origin, place),
        k < actions.len(),
        actions[k].action != ActionKind::ForceClose,
        complete_identity_spec(actions[k].target),
        0 <= pos < t.len(),
        records(t[pos], actions[k]),
    ensures
        capture_inv(t, actions, k + 1, origin, place.push(pos)),
{
    let pre = actions.take(k);
    let next = actions.take(k + 1);
    let np = place.push(pos);
    assert forall|q: int| 0 <= q < k implies next[q] == actions[q] && pre[q] == actions[q] by {}
    let q0 = origin[pos];
    assert(pre[q0] == actions[q0]);
    assert(records(t[pos], actions[q0]));
    assert forall|z: int| 0 <= z < k && key_path((#[trigger] actions[z]).target) == key_path(actions[k].target)
        implies key_file(actions[z].target) == key_file(actions[k].target) && actions[z].action == actions[k].action by {
        lemma_capturable_pair(actions, k, z, q0);
        reveal(capturable);
        assert(pre[q0].action != ActionKind::ForceClose);
    }
    lemma_capturable_step(actions, k);
    assert forall|i: int| 0 <= i < t.len() implies 0 <= #[trigger] origin[i] < next.len() && records(t[i], next[origin[i]]) by {
        assert(pre[origin[i]] == next[origin[i]]);
    }
    assert forall|q: int| 0 <= q < next.len() implies 0 <= #[trigger] np[q] < t.len()
        && t[np[q]].app.path@ == key_path(next[q].target) by {
        if q < k {
            assert(pre[q] == next[q]);
        }
    }
    assert(recipe_by(t, next, origin, np));
}

proof fn lemma_capture_insert(t: Seq<RecipeTarget>, actions: Seq<ApprovedAction>, k: int, pos: int, x: RecipeTarget, origin: Seq<int>, place: Seq<int>)
    requires
        capture_inv(t, actions, k, origin, place),
        k < actions.len(),
        actions[k].action != ActionKind::ForceClose,
        complete_identity_spec(actions[k].target),
        0 <= pos <= t.len(),
        records(x, actions[k]),
        forall|z: int| 0 <= z < pos ==> lex_lt((#[trigger] t[z]).app.path@, x.app.path@),
        pos < t.len() ==> !lex_lt(t[pos].app.path@, x.app.path@) && t[pos].app.path@ != x.app.path@,
    ensures
        capture_inv(
            t.insert(pos, x),
            actions,
            k + 1,
            origin.insert(pos, k),
            Seq::new((k + 1) as nat, |q: int| if q == k { pos } else if place[q] >= pos { place[q] + 1 } else { place[q] }),
        ),
{
    let n = t.insert(pos, x);
    let no = origin.insert(pos, k);
    let np = Seq::new((k + 1) as nat, |q: int| if q == k { pos } else if place[q] >= pos { place[q] + 1 } else { place[q] });
    let pre = actions.take(k);
    let next = actions.take(k + 1);
    assert forall|q: int| 0 <= q < k implies next[q] == actions[q] && pre[q] == actions[q] by {}
    if pos < t.len() {
        lemma_lex_total(t[pos].app.path@, x.app.path@);
    }
    assert forall|z: int| pos <= z < t.len() implies lex_lt(x.app.path@, (#[trigger] t[z]).app.path@) by {
        lemma_lex_total(t[pos].app.path@, x.app.path@);
        if z > pos {
            lemma_lex_transitive(x.app.path@, t[pos].app.path@, t[z].app.path@);
        }
    }
    assert forall|z: int| 0 <= z < t.len() implies (#[trigger] t[z]).app.path@ != x.app.path@ by {
        lemma_lex_irreflexive(x.app.path@);
    }
    assert forall|i: int, j: int| 0 <= i < j < n.len()
        implies lex_lt((#[trigger] n[i]).app.path@, (#[trigger] n[j]).app.path@) by {
        if j < pos {
            assert(n[i] == t[i] && n[j] == t[j]);
        } else if j == pos {
            assert(n[i] == t[i]);
        } else if i < pos {
            assert(n[i] == t[i] && n[j] == t[j - 1]);
            lemma_lex_transitive(t[i].app.path@, x.app.path@, t[j - 1].app.path@);
        } else if i == pos {
            assert(n[j] == t[j - 1]);
        } else {
            assert(n[i] == t[i - 1] && n[j] == t[j - 1]);
        }
    }
    assert forall|z: int| 0 <= z < k && key_path((#[trigger] actions[z]).target) == key_path(actions[k].target)
        implies key_file(actions[z].target) == key_file(actions[k].target) && actions[z].action == actions[k].action by {
        assert(pre[z] == actions[z]);
        assert(t[place[z]].app.path@ != x.app.path@);
    }
    lemma_capturable_step(actions, k);
    assert forall|i: int| 0 <= i < n.len() implies 0 <= #[trigger] no[i] < next.len() && records(n[i], next[no[i]]) by {
        if i < pos {
            assert(n[i] == t[i] && no[i] == origin[i]);
            assert(pre[origin[i]] == next[origin[i]]);
        } else if i == pos {
        } else {
            assert(n[i] == t[i - 1] && no[i] == origin[i - 1]);
            assert(pre[origin[i - 1]] == next[origin[i - 1]]);
        }
    }
    assert forall|q: int| 0 <= q < next.len() implies 0 <= #[trigger] np[q] < n.len()
        && n[np[q]].app.path@ == key_path(next[q].target) by {
        if q < k {
            assert(pre[q] == next[q]);
            if place[q] >= pos {
                assert(n[place[q] + 1] == t[place[q]]);
            } else {
                assert(n[place[q]] == t[place[q]]);
            }
        }
    }
    assert(recipe_by(n, next, no, np));
}

/// Saves the reviewed selection as a recipe: executables, not processes, and never force,
/// reopening, experimental GPU or automatic-launch permission.
pub fn capture(game: &Identity, actions: &[ApprovedAction], options: &Options) -> (r: AppResult<GameProfile>)
    ensures
        r is Ok <==> capture_ok(*game, actions@, *options),
        r matches Ok(p) ==> {
            &&& profile_valid(p)
            &&& p.schema == PROFILE_SCHEMA
            &&& p.game.path@ == key_path(*game)
            &&& p.game.image_file_id@ == key_file(*game)
            &&& recipe_of_actions(p.targets@, actions@)
            &&& p.options == Options { gpu_priority: false, launch_game: false, ..*options }
        },
{
    let mut targets: Vec<RecipeTarget> = Vec::new();
    let ghost mut origin: Seq<int> = Seq::empty();
    let ghost mut place: Seq<int> = Seq::empty();
    let mut k: usize = 0;
    proof {
        reveal(capturable);
        assert(actions@.take(0) =~= Seq::<ApprovedAction>::empty());
        assert(targets@ =~= Seq::<RecipeTarget>::empty());
    }
    while k < actions.len()
        invariant
            k <= actions@.len(),
            capture_inv(targets@, actions@, k as int, origin, place),
        decreases actions@.len() - k,
    {
        let a = &actions[k];
        let recipe = match a.action {
            ActionKind::ForceClose => {
                proof {
                    lemma_not_capturable_at(actions@, k as int);
                }
                return Err("Remove force actions before saving a profile; force permission is never saved.".to_string());
            },
            ActionKind::Close => RecipeAction::Close,
            ActionKind::LowerPriorities => RecipeAction::LowerPriorities,
        };
        let app = match app_key(&a.target) {
            Ok(key) => key,
            Err(e) => {
                proof {
                    lemma_not_capturable_at(actions@, k as int);
                }
                return Err(e);
            },
        };
        let path_chars = chars_of(app.path.as_str());
        let mut pos: usize = 0;
        while pos < targets.len() && lex_less(&chars_of(targets[pos].app.path.as_str()), &path_chars)
            invariant
                pos <= targets@.len(),
                path_chars@ == app.path@,
                forall|z: int| 0 <= z < pos ==> lex_lt((#[trigger] targets@[z]).app.path@, app.path@),
            decreases targets@.len() - pos,
        {
            pos = pos + 1;
        }
        let x = RecipeTarget { app, action: recipe };
        proof {
            assert(records(x, actions@[k as int]));
        }
        if pos < targets.len() && targets[pos].app.path == x.app.path {
            if targets[pos].action != x.action || targets[pos].app != x.app {
                proof {
                    lemma_capture_mismatch(targets@, actions@, k as int, pos as int, origin, place);
                }
                return Err("A profile cannot combine different file identities or actions at one executable path.".to_string());
            }
            proof {
                lemma_capture_existing(targets@, actions@, k as int, pos as int, origin, place);
                place = place.push(pos as int);
            }
        } else {
            proof {
                lemma_capture_insert(targets@, actions@, k as int, pos as int, x, origin, place);
                let kk = k as int;
                let pp = pos as int;
                let old_place = place;
                origin = origin.insert(pp, kk);
                place = Seq::new((kk + 1) as nat, |q: int| if q == kk { pp } else if old_place[q] >= pp { old_place[q] + 1 } else { old_place[q] });
            }
            targets.insert(pos, x);
        }
        k = k + 1;
    }
    proof {
        assert(actions@.take(k as int) =~= actions@);
        assert(recipe_by(targets@, actions@, origin, place));
    }
    let game_key = match app_key(game) {
        Ok(key) => key,
        Err(e) => return Err(e),
    };
    let profile = GameProfile {
        schema: PROFILE_SCHEMA,
        game: game_key,
        targets,
        options: Options {
            gpu_priority: false,
            cpu_priority: options.cpu_priority,
            eco_qos: options.eco_qos,
            memory_priority: options.memory_priority,
            launch_game: false,
            close_timeout_ms: options.close_timeout_ms,
        },
    };
    proof {
        lemma_capture_valid(*game, actions@, *options, profile, origin, place);
    }
    match validate(&profile) {
        Ok(()) => Ok(profile),
        Err(e) => Err(e),
    }
}

/// The entries of a recipe name each path of the actions exactly once.
proof fn lemma_recipe_count(t: Seq<RecipeTarget>, actions: Seq<ApprovedAction>, origin: Seq<int>, place: Seq<int>)
    requires
        path_sorted(t),
        recipe_by(t, actions, origin, place),
    ensures
        t.len() == action_paths(actions).len(),
        forall|i: int, j: int| 0 <= i < j < t.len() ==> (#[trigger] t[i]).app.path@ != (#[trigger] t[j]).app.path@,
{
    let tp = t.map_values(|x: RecipeTarget| x.app.path@);
    assert forall|i: int, j: int| 0 <= i < j < t.len() implies (#[trigger] t[i]).app.path@ != (#[trigger] t[j]).app.path@ by {
        lemma_lex_irreflexive(t[i].app.path@);
    }
    assert(tp.no_duplicates()) by {
        assert forall|i: int, j: int| 0 <= i < tp.len() && 0 <= j < tp.len() && i != j implies tp[i] != tp[j] by {
            if i < j {
                assert(t[i].app.path@ != t[j].app.path@);
            } else {
                assert(t[j].app.path@ != t[i].app.path@);
            }
        }
    }
    assert(tp.to_set() =~= action_paths(actions)) by {
        assert forall|q: Seq<char>| tp.to_set().contains(q) implies action_paths(actions).contains(q) by {
            assert(tp.contains(q));
            let i = choose|i: int| 0 <= i < tp.len() && tp[i] == q;
            let k = origin[i];
            assert(records(t[i], actions[k]));
            assert(key_path(actions[k].target) == q);
        }
        assert forall|q: Seq<char>| action_paths(actions).contains(q) implies tp.to_set().contains(q) by {
            let k = choose|k: int| 0 <= k < actions.len() && key_path((#[trigger] actions[k]).target) == q;
            let i = place[k];
            assert(tp[i] == q);
            assert(tp.contains(q));
        }
    }
    tp.unique_seq_to_set();
}

/// The captured profile is valid exactly when the capture conditions hold.
proof fn lemma_capture_valid(game: Identity, actions: Seq<ApprovedAction>, options: Options, p: GameProfile, origin: Seq<int>, place: Seq<int>)
    requires
        capturable(actions),
        complete_identity_spec(game),
        p.schema == PROFILE_SCHEMA,
        p.game.path@ == key_path(game),
        p.game.image_file_id@ == key_file(game),
        path_sorted(p.targets@),
        recipe_by(p.targets@, actions, origin, place),
        p.options == (Options { gpu_priority: false, launch_game: false, ..options }),
    ensures
        profile_valid(p) <==> capture_ok(game, actions, options),
        recipe_of_actions(p.targets@, actions),
{
    let t = p.targets@;
    lemma_recipe_count(t, actions, origin, place);
    if profile_valid(p) {
        assert forall|k: int| 0 <= k < actions.len() implies {
            let a = #[trigger] actions[k];
            &&& key_valid(key_path(a.target), key_file(a.target))
            &&& key_path(a.target) != key_path(game)
            &&& a.action == ActionKind::LowerPriorities ==> lowers(options)
        } by {
            let i = place[k];
            let z = origin[i];
            assert(records(t[i], actions[z]));
            assert(target_valid(p, t[i]));
            reveal(capturable);
            assert(key_path(actions[z].target) == key_path(actions[k].target));
        }
    }
    if capture_ok(game, actions, options) {
        assert forall|i: int| 0 <= i < t.len() implies target_valid(p, #[trigger] t[i]) by {
            let k = origin[i];
            assert(records(t[i], actions[k]));
            let a = actions[k];
            assert(key_valid(key_path(a.target), key_file(a.target)));
        }
    }
}

/// A running process of entry `t`: the entry's exact executable and file, in the game's session and logon.
pub open spec fn recipe_member(row: ProcessRow, t: RecipeTarget, game: Identity) -> bool {
    &&& complete_identity_spec(row.identity)
    &&& key_path(row.identity) == t.app.path@
    &&& key_file(row.identity) == t.app.image_file_id@
    &&& same_user_session_spec(row.identity, game)
}

pub open spec fn planned_kind(a: RecipeAction) -> ActionKind {
    match a {
        RecipeAction::Close => ActionKind::Close,
        RecipeAction::LowerPriorities => ActionKind::LowerPriorities,
    }
}

/// One unapproved action per running process of entry `t`, in snapshot order.
pub open spec fn member_actions(rows: Seq<ProcessRow>, t: RecipeTarget, game: Identity) -> Seq<ApprovedAction>
    decreases rows.len(),
{
    if rows.len() == 0 {
        Seq::empty()
    } else {
        let g = member_actions(rows.drop_last(), t, game);
        if recipe_member(rows.last(), t, game) {
            g.push(ApprovedAction { target: rows.last().identity, action: planned_kind(t.action), reopen: None })
        } else {
            g
        }
    }
}

/// Every running process of entry `t` may be offered.
pub open spec fn members_eligible(rows: Seq<ProcessRow>, t: RecipeTarget, game: Identity, protected: Seq<String>) -> bool {
    forall|k: int| 0 <= k < rows.len() && recipe_member(#[trigger] rows[k], t, game)
        ==> eligible_spec(rows[k], game, rows, protected)
}

pub open spec fn absent_notice(path: Seq<char>) -> Seq<char> {
    "Not included (not running, updated or unverifiable): "@ + path
}

pub open spec fn protected_notice(path: Seq<char>) -> Seq<char> {
    "Not included (protected group): "@ + path
}

pub open spec fn preview_notice() -> Seq<char> {
    "Preview only. Review every current process before Start. Force, reopening and experimental approvals were not restored."@
}

/// What entry `t` contributes: its processes when all of them may be offered; otherwise
/// a notice that it was left out because nothing matched or because part of it is protected.
pub open spec fn target_outcome(t: RecipeTarget, rows: Seq<ProcessRow>, game: Identity, protected: Seq<String>) -> (Seq<ApprovedAction>, Seq<Seq<char>>) {
    let acts = member_actions(rows, t, game);
    if acts.len() == 0 {
        (Seq::empty(), seq![absent_notice(t.app.path@)])
    } else if !members_eligible(rows, t, game, protected) {
        (Seq::empty(), seq![protected_notice(t.app.path@)])
    } else {
        (acts, Seq::empty())
    }
}

/// Every entry's contribution, in entry order.
pub open spec fn resolved(targets: Seq<RecipeTarget>, rows: Seq<ProcessRow>, game: Identity, protected: Seq<String>) -> (Seq<ApprovedAction>, Seq<Seq<char>>)
    decreases targets.len(),
{
    if targets.len() == 0 {
        (Seq::empty(), Seq::empty())
    } else {
        let before = resolved(targets.drop_last(), rows, game, protected);
        let here = target_outcome(targets.last(), rows, game, protected);
        (before.0 + here.0, before.1 + here.1)
    }
}

/// When a profile resolves: it is valid, the running game is its executable and is in the
/// snapshot, and the current processes it expands to number at most 32.
pub open spec fn resolve_ok(p: GameProfile, game: Identity, rows: Seq<ProcessRow>, protected: Seq<String>) -> bool {
    &&& profile_valid(p)
    &&& complete_identity_spec(game)
    &&& key_path(game) == p.game.path@
    &&& key_file(game) == p.game.image_file_id@
    &&& exists|k: int| 0 <= k < rows.len() && same_process_spec((#[trigger] rows[k]).identity, game)
    &&& resolved(p.targets@, rows, game, protected).0.len() <= MAX_ACTIONS
}

proof fn lemma_member_actions_shape(rows: Seq<ProcessRow>, t: RecipeTarget, game: Identity)
    ensures
        forall|i: int| 0 <= i < member_actions(rows, t, game).len() ==> (#[trigger] member_actions(rows, t, game)[i]).reopen is None
            && member_actions(rows, t, game)[i].action != ActionKind::ForceClose,
    decreases rows.len(),
{
    if rows.len() > 0 {
        lemma_member_actions_shape(rows.drop_last(), t, game);
    }
}

proof fn lemma_resolved_shape(targets: Seq<RecipeTarget>, rows: Seq<ProcessRow>, game: Identity, protected: Seq<String>)
    ensures
        forall|i: int| 0 <= i < resolved(targets, rows, game, protected).0.len() ==> (#[trigger] resolved(targets, rows, game, protected).0[i]).reopen is None
            && resolved(targets, rows, game, protected).0[i].action != ActionKind::ForceClose,
    decreases targets.len(),
{
    if targets.len() > 0 {
        lemma_resolved_shape(targets.drop_last(), rows, game, protected);
        lemma_member_actions_shape(rows, targets.last(), game);
        let a = resolved(targets.drop_last(), rows, game, protected).0;
        let b = target_outcome(targets.last(), rows, game, protected).0;
        assert forall|i: int| 0 <= i < (a + b).len() implies (#[trigger] (a + b)[i]).reopen is None && (a + b)[i].action != ActionKind::ForceClose by {
            if i >= a.len() {
                assert((a + b)[i] == b[i - a.len()]);
            }
        }
    }
}

proof fn lemma_resolved_prefix(targets: Seq<RecipeTarget>, rows: Seq<ProcessRow>, game: Identity, protected: Seq<String>, k: int)
    requires
        0 <= k <= targets.len(),
    ensures
        resolved(targets.take(k), rows, game, protected).0.len() <= resolved(targets, rows, game, protected).0.len(),
    decreases targets.len(),
{
    if k < targets.len() {
        lemma_resolved_prefix(targets.drop_last(), rows, game, protected, k);
        assert(targets.drop_last().take(k) =~= targets.take(k));
    } else {
        assert(targets.take(k) =~= targets);
    }
}

/// The running processes of one entry, with whether all of them may be offered.
fn gather_members(t: &RecipeTarget, game: &Identity, rows: &[ProcessRow], protected: &[String]) -> (res: (Vec<ApprovedAction>, bool))
    ensures
        res.0@ == member_actions(rows@, *t, *game),
        res.1 == members_eligible(rows@, *t, *game, protected@),
{
    let mut acts: Vec<ApprovedAction> = Vec::new();
    let mut all_ok = true;
    let mut k: usize = 0;
    proof {
        assert(rows@.take(0) =~= Seq::<ProcessRow>::empty());
    }
    while k < rows.len()
        invariant
            k <= rows@.len(),
            acts@ == member_actions(rows@.take(k as int), *t, *game),
            all_ok == forall|q: int| 0 <= q < k && recipe_member(#[trigger] rows@[q], *t, *game)
                ==> eligible_spec(rows@[q], *game, rows@, protected@),
        decreases rows@.len() - k,
    {
        proof {
            assert(rows@.take(k + 1).drop_last() =~= rows@.take(k as int));
            assert(rows@.take(k + 1).last() == rows@[k as int]);
        }
        let row = &rows[k];
        let member = match app_key(&row.identity) {
            Ok(key) => key == t.app && same_user_session(&row.identity, game),
            Err(_) => false,
        };
        if member {
            if !eligible(row, game, rows, protected) {
                all_ok = false;
            }
            acts.push(ApprovedAction {
                target: row.identity.clone(),
                action: match t.action {
                    RecipeAction::Close => ActionKind::Close,
                    RecipeAction::LowerPriorities => ActionKind::LowerPriorities,
                },
                reopen: None,
            });
        }
        k = k + 1;
    }
    proof {
        assert(rows@.take(k as int) =~= rows@);
    }
    (acts, all_ok)
}

/// Expands a profile against the current snapshot into a new, unapproved preview ordered by
/// process id. Entries with no matching process, or with any protected process, are left
/// out with a notice; nothing broader than the exact executables is ever matched.
pub fn resolve(profile: &GameProfile, game: &Identity, rows: &[ProcessRow], protected: &[String]) -> (r: AppResult<Preview>)
    ensures
        r is Ok <==> resolve_ok(*profile, *game, rows@, protected@),
        r matches Ok(pv) ==> {
            let out = resolved(profile.targets@, rows@, *game, protected@);
            &&& stable_sort_by_pid(pv.actions@, out.0)
            &&& pv.options == profile.options
            &&& pv.notices@.len() == out.1.len() + 1
            &&& forall|j: int| 0 <= j < out.1.len() ==> (#[trigger] pv.notices@[j])@ == out.1[j]
            &&& pv.notices@[out.1.len() as int]@ == preview_notice()
            &&& forall|q: int| 0 <= q < pv.actions@.len() ==> (#[trigger] pv.actions@[q]).reopen is None
                && pv.actions@[q].action != ActionKind::ForceClose
        },
{
    if let Err(e) = validate(profile) {
        return Err(e);
    }
    let key = match app_key(game) {
        Ok(k) => k,
        Err(e) => return Err(e),
    };
    let mut present = false;
    let mut k: usize = 0;
    while k < rows.len()
        invariant
            k <= rows@.len(),
            present == exists|q: int| 0 <= q < k && same_process_spec((#[trigger] rows@[q]).identity, *game),
        decreases rows@.len() - k,
    {
        if same_process(&rows[k].identity, game) {
            present = true;
        }
        k = k + 1;
    }
    if !(key == profile.game) || !present {
        return Err("The running game no longer matches this profile's executable. Review and save a new profile after an update.".to_string());
    }
    let ghost ts = profile.targets@;
    let mut actions: Vec<ApprovedAction> = Vec::new();
    let mut notices: Vec<String> = Vec::new();
    let mut i: usize = 0;
    proof {
        assert(ts.take(0) =~= Seq::<RecipeTarget>::empty());
    }
    while i < profile.targets.len()
        invariant
            ts == profile.targets@,
            i <= ts.len(),
            actions@ == resolved(ts.take(i as int), rows@, *game, protected@).0,
            notices@.len() == resolved(ts.take(i as int), rows@, *game, protected@).1.len(),
            forall|j: int| 0 <= j < notices@.len() ==> (#[trigger] notices@[j])@ == resolved(ts.take(i as int), rows@, *game, protected@).1[j],
            actions@.len() <= MAX_ACTIONS,
        decreases ts.len() - i,
    {
        let t = &profile.targets[i];
        let ghost before = resolved(ts.take(i as int), rows@, *game, protected@);
        proof {
            assert(ts.take(i + 1).drop_last() =~= ts.take(i as int));
            assert(ts.take(i + 1).last() == ts[i as int]);
        }
        let (acts, all_ok) = gather_members(t, game, rows, protected);
        if acts.len() == 0 {
            let n = concat("Not included (not running, updated or unverifiable): ", t.app.path.as_str());
            notices.push(n);
            proof {
                let after = resolved(ts.take(i + 1), rows@, *game, protected@);
                assert(actions@ =~= after.0);
                assert(after.1 =~= before.1.push(absent_notice(t.app.path@)));
            }
        } else if !all_ok {
            let n = concat("Not included (protected group): ", t.app.path.as_str());
            notices.push(n);
            proof {
                let after = resolved(ts.take(i + 1), rows@, *game, protected@);
                assert(actions@ =~= after.0);
                assert(after.1 =~= before.1.push(protected_notice(t.app.path@)));
            }
        } else {
            let ghost start = actions@;
            let mut g: usize = 0;
            while g < acts.len()
                invariant
                    g <= acts@.len(),
                    actions@ == start + acts@.take(g as int),
                decreases acts@.len() - g,
            {
                proof {
                    assert(start + acts@.take(g + 1) =~= (start + acts@.take(g as int)).push(acts@[g as int]));
                }
                actions.push(acts[g].clone());
                g = g + 1;
            }
            proof {
                assert(acts@.take(g as int) =~= acts@);
                let after = resolved(ts.take(i + 1), rows@, *game, protected@);
                assert(after.1 =~= before.1);
            }
        }
        if actions.len() > MAX_ACTIONS {
            proof {
                lemma_resolved_prefix(ts, rows@, *game, protected@, i + 1);
            }
            return Err("Profile expands to more than 32 current processes. No partial plan was loaded.".to_string());
        }
        i = i + 1;
    }
    proof {
        assert(ts.take(i as int) =~= ts);
    }
    let (sorted, Ghost(m), Ghost(inv)) = sort_by_pid(&actions);
    proof {
        assert(stable_sort_by_pid(sorted@, actions@));
        lemma_resolved_shape(ts, rows@, *game, protected@);
        assert forall|q: int| 0 <= q < sorted@.len() implies (#[trigger] sorted@[q]).reopen is None
            && sorted@[q].action != ActionKind::ForceClose by {
            assert(sorted@[q] == actions@[m[q]]);
        }
    }
    notices.push("Preview only. Review every current process before Start. Force, reopening and experimental approvals were not restored.".to_string());
    Ok(Preview { actions: sorted, options: profile.options.clone(), notices })
}

/// The action is for a running process of saved entry `t`, and it closes exactly when
/// that entry's saved action is Close and lowers exactly when it is LowerPriorities.
pub open spec fn keeps_entry_action(a: ApprovedAction, t: RecipeTarget, rows: Seq<ProcessRow>, game: Identity) -> bool {
    &&& exists|k: int| 0 <= k < rows.len() && (#[trigger] rows[k]).identity == a.target && recipe_member(rows[k], t, game)
    &&& (a.action == ActionKind::Close <==> t.action == RecipeAction::Close)
    &&& (a.action == ActionKind::LowerPriorities <==> t.action == RecipeAction::LowerPriorities)
}

/// The action comes from one of the saved entries, with that entry's action.
pub open spec fn from_some_entry(a: ApprovedAction, targets: Seq<RecipeTarget>, rows: Seq<ProcessRow>, game: Identity) -> bool {
    exists|t: int| 0 <= t < targets.len() && #[trigger] keeps_entry_action(a, targets[t], rows, game)
}

proof fn lemma_members_keep_action(rows: Seq<ProcessRow>, full: Seq<ProcessRow>, t: RecipeTarget, game: Identity)
    requires
        rows.len() <= full.len(),
        forall|k: int| 0 <= k < rows.len() ==> rows[k] == full[k],
    ensures
        forall|i: int|
            0 <= i < member_actions(rows, t, game).len() ==> keeps_entry_action(
                #[trigger] member_actions(rows, t, game)[i],
                t,
                full,
                game,
            ),
    decreases rows.len(),
{
    if rows.len() > 0 {
        let r = rows.drop_last();
        lemma_members_keep_action(r, full, t, game);
        let k = rows.len() - 1;
        assert(rows.last() == full[k]);
        let g = member_actions(r, t, game);
        let all = member_actions(rows, t, game);
        assert forall|i: int| 0 <= i < all.len() implies keeps_entry_action(#[trigger] all[i], t, full, game) by {
            if i < g.len() {
                assert(all[i] == g[i]);
            } else {
                assert(recipe_member(rows.last(), t, game));
                assert(all[i] == ApprovedAction {
                    target: rows.last().identity,
                    action: planned_kind(t.action),
                    reopen: None,
                });
                assert(full[k].identity == all[i].target);
            }
        }
    }
}

proof fn lemma_resolved_keep_action(
    targets: Seq<RecipeTarget>,
    all: Seq<RecipeTarget>,
    rows: Seq<ProcessRow>,
    game: Identity,
    protected: Seq<String>,
)
    requires
        targets.len() <= all.len(),
        forall|k: int| 0 <= k < targets.len() ==> targets[k] == all[k],
    ensures
        forall|i: int|
            0 <= i < resolved(targets, rows, game, protected).0.len() ==> from_some_entry(
                #[trigger] resolved(targets, rows, game, protected).0[i],
                all,
                rows,
                game,
            ),
    decreases targets.len(),
{
    if targets.len() > 0 {
        let front = targets.drop_last();
        lemma_resolved_keep_action(front, all, rows, game, protected);
        let before = resolved(front, rows, game, protected).0;
        let here = target_outcome(targets.last(), rows, game, protected).0;
        let ti = targets.len() - 1;
        assert(targets.last() == all[ti]);
        lemma_members_keep_action(rows, rows, targets.last(), game);
        assert forall|i: int| 0 <= i < (before + here).len() implies from_some_entry(
            #[trigger] (before + here)[i],
            all,
            rows,
            game,
        ) by {
            if i >= before.len() {
                assert((before + here)[i] == here[i - before.len()]);
                assert(keeps_entry_action(here[i - before.len()], all[ti], rows, game));
            } else {
                assert((before + here)[i] == before[i]);
            }
        }
    }
}

/// Resolving a saved profile keeps each entry's action: every previewed action is for a
/// running process of one of the saved entries, and closes exactly when that entry's
/// action is Close and lowers exactly when it is LowerPriorities.
pub proof fn law_resolve_keeps_recipe_actions(
    p: GameProfile,
    game: Identity,
    rows: Seq<ProcessRow>,
    protected: Seq<String>,
    actions: Seq<ApprovedAction>,
)
    requires
        stable_sort_by_pid(actions, resolved(p.targets@, rows, game, protected).0),
    ensures
        forall|q: int| 0 <= q < actions.len() ==> from_some_entry(#[trigger] actions[q], p.targets@, rows, game),
{
    let src = resolved(p.targets@, rows, game, protected).0;
    let m = choose|m: Seq<int>| #[trigger] stably_sorted_from(actions, src, m);
    lemma_resolved_keep_action(p.targets@, p.targets@, rows, game, protected);
    assert forall|q: int| 0 <= q < actions.len() implies from_some_entry(#[trigger] actions[q], p.targets@, rows, game) by {
        assert(actions[q] == src[m[q]]);
        assert(from_some_entry(src[m[q]], p.targets@, rows, game));
    }
}

proof fn lemma_members_have(rows: Seq<ProcessRow>, t: RecipeTarget, game: Identity, k: int)
    requires
        0 <= k < rows.len(),
        recipe_member(rows[k], t, game),
    ensures
        exists|j: int| 0 <= j < member_actions(rows, t, game).len() && (#[trigger] member_actions(rows, t, game)[j]).target
            == rows[k].identity,
    decreases rows.len(),
{
    let front = rows.drop_last();
    if k < rows.len() - 1 {
        assert(front[k] == rows[k]);
        lemma_members_have(front, t, game, k);
        let j = choose|j: int| 0 <= j < member_actions(front, t, game).len() && (#[trigger] member_actions(front, t, game)[j]).target
            == front[k].identity;
        assert(member_actions(rows, t, game)[j] == member_actions(front, t, game)[j]);
    } else {
        let j = member_actions(front, t, game).len() as int;
        assert(member_actions(rows, t, game)[j].target == rows.last().identity);
    }
}

proof fn lemma_resolved_has(
    targets: Seq<RecipeTarget>,
    rows: Seq<ProcessRow>,
    game: Identity,
    protected: Seq<String>,
    t: int,
    j: int,
)
    requires
        0 <= t < targets.len(),
        0 <= j < target_outcome(targets[t], rows, game, protected).0.len(),
    ensures
        exists|i: int| 0 <= i < resolved(targets, rows, game, protected).0.len() && #[trigger] resolved(
            targets,
            rows,
            game,
            protected,
        ).0[i] == target_outcome(targets[t], rows, game, protected).0[j],
    decreases targets.len(),
{
    let front = targets.drop_last();
    let before = resolved(front, rows, game, protected).0;
    let here = target_outcome(targets.last(), rows, game, protected).0;
    assert(resolved(targets, rows, game, protected).0 == before + here);
    if t < targets.len() - 1 {
        assert(front[t] == targets[t]);
        lemma_resolved_has(front, rows, game, protected, t, j);
        let i = choose|i: int| 0 <= i < before.len() && #[trigger] before[i] == target_outcome(front[t], rows, game, protected).0[j];
        assert((before + here)[i] == before[i]);
    } else {
        let i = before.len() + j;
        assert((before + here)[i] == here[j]);
    }
}

/// Resolving leaves out no running process of an entry it can offer: when every running
/// process of a saved entry may be offered, each of them is previewed.
pub proof fn law_resolve_covers_entries(
    p: GameProfile,
    game: Identity,
    rows: Seq<ProcessRow>,
    protected: Seq<String>,
    actions: Seq<ApprovedAction>,
    t: int,
    k: int,
)
    requires
        stable_sort_by_pid(actions, resolved(p.targets@, rows, game, protected).0),
        0 <= t < p.targets@.len(),
        0 <= k < rows.len(),
        recipe_member(rows[k], p.targets@[t], game),
        members_eligible(rows, p.targets@[t], game, protected),
    ensures
        exists|i: int| 0 <= i < actions.len() && (#[trigger] actions[i]).target == rows[k].identity,
{
    let src = resolved(p.targets@, rows, game, protected).0;
    let tg = p.targets@[t];
    lemma_members_have(rows, tg, game, k);
    let j = choose|j: int| 0 <= j < member_actions(rows, tg, game).len() && (#[trigger] member_actions(rows, tg, game)[j]).target
        == rows[k].identity;
    assert(target_outcome(tg, rows, game, protected).0 == member_actions(rows, tg, game));
    lemma_resolved_has(p.targets@, rows, game, protected, t, j);
    let g = choose|g: int| 0 <= g < src.len() && #[trigger] src[g] == target_outcome(tg, rows, game, protected).0[j];
    let m = choose|m: Seq<int>| #[trigger] stably_sorted_from(actions, src, m);
    crate::sorting::lemma_sorted_covers(actions, src, m, g);
    let i = choose|i: int| 0 <= i < actions.len() && m[i] == g && #[trigger] actions[i] == src[g];
    assert(actions[i].target == rows[k].identity);
}

/// A resolved preview lists its actions by increasing process id.
pub proof fn law_resolve_sorted_by_pid(
    p: GameProfile,
    game: Identity,
    rows: Seq<ProcessRow>,
    protected: Seq<String>,
    actions: Seq<ApprovedAction>,
)
    requires
        stable_sort_by_pid(actions, resolved(p.targets@, rows, game, protected).0),
    ensures
        forall|i: int, j: int| 0 <= i < j < actions.len() ==> (#[trigger] actions[i]).target.pid <= (#[trigger] actions[j]).target.pid,
{
    let src = resolved(p.targets@, rows, game, protected).0;
    let m = choose|m: Seq<int>| #[trigger] stably_sorted_from(actions, src, m);
}

/// Every snapshot row of the action's process may be offered.
pub open spec fn offered_ok(a: ApprovedAction, rows: Seq<ProcessRow>, game: Identity, protected: Seq<String>) -> bool {
    forall|k: int| 0 <= k < rows.len() && (#[trigger] rows[k]).identity == a.target ==> eligible_spec(rows[k], game, rows, protected)
}

proof fn lemma_resolved_offered(
    targets: Seq<RecipeTarget>,
    rows: Seq<ProcessRow>,
    game: Identity,
    protected: Seq<String>,
)
    ensures
        forall|i: int|
            0 <= i < resolved(targets, rows, game, protected).0.len() ==> offered_ok(
                #[trigger] resolved(targets, rows, game, protected).0[i],
                rows,
                game,
                protected,
            ),
    decreases targets.len(),
{
    if targets.len() > 0 {
        let front = targets.drop_last();
        lemma_resolved_offered(front, rows, game, protected);
        let before = resolved(front, rows, game, protected).0;
        let t = targets.last();
        let here = target_outcome(t, rows, game, protected).0;
        lemma_members_keep_action(rows, rows, t, game);
        assert forall|i: int| 0 <= i < (before + here).len() implies offered_ok(#[trigger] (before + here)[i], rows, game, protected) by {
            if i >= before.len() {
                let a = here[i - before.len()];
                assert((before + here)[i] == a);
                assert(members_eligible(rows, t, game, protected));
                assert(keeps_entry_action(a, t, rows, game));
                let j = choose|j: int| 0 <= j < rows.len() && (#[trigger] rows[j]).identity == a.target && recipe_member(rows[j], t, game);
                assert forall|k: int| 0 <= k < rows.len() && (#[trigger] rows[k]).identity == a.target implies eligible_spec(
                    rows[k],
                    game,
                    rows,
                    protected,
                ) by {
                    assert(recipe_member(rows[k], t, game));
                }
            } else {
                assert((before + here)[i] == before[i]);
            }
        }
    }
}

/// A resolved preview never offers a protected or guarded process: every snapshot row of a
/// previewed process is unprotected, outside the game's guarded family, and not at a
/// protected path.
pub proof fn law_resolve_spares_protected(
    p: GameProfile,
    game: Identity,
    rows: Seq<ProcessRow>,
    protected: Seq<String>,
    actions: Seq<ApprovedAction>,
)
    requires
        stable_sort_by_pid(actions, resolved(p.targets@, rows, game, protected).0),
    ensures
        forall|i: int, k: int|
            0 <= i < actions.len() && 0 <= k < rows.len() && (#[trigger] rows[k]).identity == (#[trigger] actions[i]).target
                ==> rows[k].protected_reason is None && !crate::policy::guarded_set(rows, game).contains(rows[k].identity.pid)
                && forall|q: int| 0 <= q < protected.len() ==> normalized((#[trigger] protected[q])@) != normalized(
                rows[k].identity.path@,
            ),
{
    let src = resolved(p.targets@, rows, game, protected).0;
    let m = choose|m: Seq<int>| #[trigger] stably_sorted_from(actions, src, m);
    lemma_resolved_offered(p.targets@, rows, game, protected);
    assert forall|i: int, k: int|
        0 <= i < actions.len() && 0 <= k < rows.len() && (#[trigger] rows[k]).identity == (#[trigger] actions[i]).target
        implies rows[k].protected_reason is None && !crate::policy::guarded_set(rows, game).contains(rows[k].identity.pid)
        && forall|q: int| 0 <= q < protected.len() ==> normalized((#[trigger] protected[q])@) != normalized(
        rows[k].identity.path@,
    ) by {
        assert(actions[i] == src[m[i]]);
        assert(offered_ok(src[m[i]], rows, game, protected));
        assert(eligible_spec(rows[k], game, rows, protected));
    }
}

} // verus!
