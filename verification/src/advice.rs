//! Plain-language advice shown beside each running app: what it usually is and what to do.
//! Advice never selects anything; every change still needs the user's explicit choice.
use crate::manual::{rule_active, Rule, RuleAction};
use crate::model::Identity;
use crate::text::{ascii_lower_seq, chars_equal, chars_of, contains, contains_seq, has_prefix, lower_ascii, starts_with};
use vstd::prelude::*;

verus! {

/// One app as the simple view lists it. GPU use is in hundredths of a percent.
#[derive(Debug)]
pub struct Choice {
    pub path: String,
    pub name: String,
    pub id: Option<Identity>,
    pub protected: bool,
    pub essential: bool,
    pub gpu_hundredths: Option<u32>,
    pub startup_enabled: bool,
    pub startup_disabled: bool,
}

fn lowered(s: &str) -> (r: Vec<char>)
    ensures
        r@ == ascii_lower_seq(s@),
{
    lower_ascii(&chars_of(s))
}

fn is(n: &Vec<char>, name: &str) -> (r: bool)
    ensures
        r == (n@ == name@),
{
    chars_equal(n, &chars_of(name))
}

fn has(n: &Vec<char>, part: &str) -> (r: bool)
    ensures
        r == contains_seq(n@, part@),
{
    contains(n, &chars_of(part))
}

fn begins(n: &Vec<char>, part: &str) -> (r: bool)
    ensures
        r == has_prefix(n@, part@),
{
    starts_with(n, &chars_of(part))
}

pub open spec fn browser(n: Seq<char>) -> bool {
    n == "chrome.exe"@ || n == "msedge.exe"@ || n == "firefox.exe"@ || n == "brave.exe"@
}

pub open spec fn overlay(n: Seq<char>) -> bool {
    contains_seq(n, "nvidia overlay"@) || n == "rtss.exe"@ || n == "rtsshooksloader64.exe"@
        || n == "msiafterburner.exe"@ || n == "radeonsoftware.exe"@
}

pub open spec fn developer_tool(n: Seq<char>) -> bool {
    n == "windowsterminal.exe"@ || n == "powershell.exe"@ || n == "cncmd.exe"@ || n == "code.exe"@
}

pub open spec fn apple_sync(n: Seq<char>) -> bool {
    n == "applephotostreams.exe"@ || n == "apsdaemon.exe"@ || n == "mdnsresponder.exe"@
}

pub open spec fn audio_hardware(n: Seq<char>) -> bool {
    contains_seq(n, "apogee"@) || contains_seq(n, "antelopeaudio"@)
}

/// What an app usually is and the usual advice for it, by its lowercase name.
pub open spec fn describe_spec(n: Seq<char>) -> (Seq<char>, Seq<char>) {
    if browser(n) {
        ("Web browser"@, "Usually a Game Mode-only choice"@)
    } else if overlay(n) {
        ("Overlay / monitoring"@, "Close for gaming only if you do not use its overlay or capture"@)
    } else if developer_tool(n) {
        ("Developer tool"@, "Usually a Game Mode-only choice"@)
    } else if apple_sync(n) {
        ("Apple sync / discovery"@, "Permanent startup cleanup can make sense if unused"@)
    } else if audio_hardware(n) {
        ("Audio hardware software"@, "Keep if you use that audio device"@)
    } else if has_prefix(n, "asus"@) {
        ("ASUS utility"@, "Review carefully; device hotkeys or power features may depend on it"@)
    } else if contains_seq(n, "nvbroadcast"@) {
        ("NVIDIA Broadcast"@, "Keep if you use microphone or camera effects"@)
    } else if n == "everything.exe"@ {
        ("File search utility"@, "Game Mode or startup cleanup if you do not need it"@)
    } else if n == "msedgewebview2.exe"@ {
        ("App web component"@, "Keep unless you understand which parent app owns it"@)
    } else if n == "postgres.exe"@ || n == "pg_ctl.exe"@ {
        ("Developer database"@, "Use a proper database stop; do not force-close it"@)
    } else {
        ("Optional app"@, "Review before changing"@)
    }
}

/// What an app is and what to consider before changing it (names compared ignoring ASCII case).
pub fn describe(name: &str) -> (r: (&'static str, &'static str))
    ensures
        (r.0@, r.1@) == describe_spec(ascii_lower_seq(name@)),
{
    let n = lowered(name);
    if is(&n, "chrome.exe") || is(&n, "msedge.exe") || is(&n, "firefox.exe") || is(&n, "brave.exe") {
        ("Web browser", "Usually a Game Mode-only choice")
    } else if has(&n, "nvidia overlay") || is(&n, "rtss.exe") || is(&n, "rtsshooksloader64.exe") || is(
        &n,
        "msiafterburner.exe",
    ) || is(&n, "radeonsoftware.exe") {
        ("Overlay / monitoring", "Close for gaming only if you do not use its overlay or capture")
    } else if is(&n, "windowsterminal.exe") || is(&n, "powershell.exe") || is(&n, "cncmd.exe") || is(&n, "code.exe") {
        ("Developer tool", "Usually a Game Mode-only choice")
    } else if is(&n, "applephotostreams.exe") || is(&n, "apsdaemon.exe") || is(&n, "mdnsresponder.exe") {
        ("Apple sync / discovery", "Permanent startup cleanup can make sense if unused")
    } else if has(&n, "apogee") || has(&n, "antelopeaudio") {
        ("Audio hardware software", "Keep if you use that audio device")
    } else if begins(&n, "asus") {
        ("ASUS utility", "Review carefully; device hotkeys or power features may depend on it")
    } else if has(&n, "nvbroadcast") {
        ("NVIDIA Broadcast", "Keep if you use microphone or camera effects")
    } else if is(&n, "everything.exe") {
        ("File search utility", "Game Mode or startup cleanup if you do not need it")
    } else if is(&n, "msedgewebview2.exe") {
        ("App web component", "Keep unless you understand which parent app owns it")
    } else if is(&n, "postgres.exe") || is(&n, "pg_ctl.exe") {
        ("Developer database", "Use a proper database stop; do not force-close it")
    } else {
        ("Optional app", "Review before changing")
    }
}

/// Windows components that must keep running.
pub open spec fn essential_name(n: Seq<char>) -> bool {
    ||| n == "system"@
    ||| n == "registry"@
    ||| n == "secure system"@
    ||| n == "memory compression"@
    ||| n == "smss.exe"@
    ||| n == "csrss.exe"@
    ||| n == "wininit.exe"@
    ||| n == "services.exe"@
    ||| n == "lsass.exe"@
    ||| n == "winlogon.exe"@
    ||| n == "svchost.exe"@
    ||| n == "dwm.exe"@
    ||| n == "audiodg.exe"@
    ||| n == "fontdrvhost.exe"@
    ||| n == "sihost.exe"@
    ||| n == "ctfmon.exe"@
    ||| n == "msmpeng.exe"@
    ||| n == "mssense.exe"@
    ||| n == "securityhealthservice.exe"@
}

/// An essential Windows process, by name or by a protection reason that says so.
pub open spec fn essential_spec(name: Seq<char>, reason: Option<Seq<char>>) -> bool {
    essential_name(ascii_lower_seq(name)) || match reason {
        Some(r) => contains_seq(ascii_lower_seq(r), "critical windows process"@) || contains_seq(
            ascii_lower_seq(r),
            "windows component: protected"@,
        ),
        None => false,
    }
}

pub fn essential_process(name: &str, reason: Option<&str>) -> (r: bool)
    ensures
        r == essential_spec(name@, match reason {
            Some(x) => Some(x@),
            None => None,
        }),
{
    let n = lowered(name);
    if is(&n, "system") || is(&n, "registry") || is(&n, "secure system") || is(&n, "memory compression") || is(
        &n,
        "smss.exe",
    ) || is(&n, "csrss.exe") || is(&n, "wininit.exe") || is(&n, "services.exe") || is(&n, "lsass.exe") || is(
        &n,
        "winlogon.exe",
    ) || is(&n, "svchost.exe") || is(&n, "dwm.exe") || is(&n, "audiodg.exe") || is(&n, "fontdrvhost.exe") || is(
        &n,
        "sihost.exe",
    ) || is(&n, "ctfmon.exe") || is(&n, "msmpeng.exe") || is(&n, "mssense.exe") || is(
        &n,
        "securityhealthservice.exe",
    ) {
        return true;
    }
    match reason {
        Some(text) => {
            let r = lowered(text);
            has(&r, "critical windows process") || has(&r, "windows component: protected")
        },
        None => false,
    }
}

/// Apps whose lowered priority is usually harmless while gaming.
pub open spec fn lowerable(n: Seq<char>) -> bool {
    ||| browser(n)
    ||| developer_tool(n)
    ||| n == "rtss.exe"@
    ||| n == "rtsshooksloader64.exe"@
    ||| n == "msiafterburner.exe"@
    ||| n == "radeonsoftware.exe"@
    ||| n == "everything.exe"@
    ||| n == "onedrive.exe"@
    ||| n == "dropbox.exe"@
    ||| n == "googledrivefs.exe"@
    ||| contains_seq(n, "nvidia overlay"@)
}

/// Sync-style apps whose startup entry can usually be disabled when unused.
pub open spec fn startup_cleanable(n: Seq<char>) -> bool {
    ||| apple_sync(n)
    ||| n == "everything.exe"@
    ||| n == "onedrive.exe"@
    ||| n == "dropbox.exe"@
    ||| n == "googledrivefs.exe"@
    ||| contains_seq(n, "updater"@)
}

/// Hardware and service software that should be reviewed rather than changed.
pub open spec fn review_only(n: Seq<char>) -> bool {
    ||| audio_hardware(n)
    ||| has_prefix(n, "asus"@)
    ||| contains_seq(n, "nvbroadcast"@)
    ||| n == "msedgewebview2.exe"@
    ||| n == "postgres.exe"@
    ||| n == "pg_ctl.exe"@
}

/// The recommendation: essential and protected apps are always kept; hardware and service
/// software is reviewed; unused sync apps lose their startup entry; busy or optional apps
/// (at least one percent of GPU) get a lower priority; everything else is reviewed.
pub open spec fn recommendation_spec(c: Choice) -> Seq<char> {
    let n = ascii_lower_seq(c.name@);
    if c.essential {
        "KEEP — REQUIRED"@
    } else if c.protected {
        "KEEP — PROTECTED"@
    } else if review_only(n) {
        "KEEP / REVIEW"@
    } else if c.startup_enabled && startup_cleanable(n) {
        "DISABLE STARTUP IF UNUSED"@
    } else if lowerable(n) || (c.gpu_hundredths matches Some(v) && v >= 100) {
        "LOWER PRIORITY"@
    } else {
        "KEEP / REVIEW"@
    }
}

pub fn recommendation(c: &Choice) -> (r: &'static str)
    ensures
        r@ == recommendation_spec(*c),
{
    if c.essential {
        return "KEEP — REQUIRED";
    }
    if c.protected {
        return "KEEP — PROTECTED";
    }
    let n = lowered(c.name.as_str());
    if has(&n, "apogee") || has(&n, "antelopeaudio") || begins(&n, "asus") || has(&n, "nvbroadcast") || is(
        &n,
        "msedgewebview2.exe",
    ) || is(&n, "postgres.exe") || is(&n, "pg_ctl.exe") {
        return "KEEP / REVIEW";
    }
    if c.startup_enabled && (is(&n, "applephotostreams.exe") || is(&n, "apsdaemon.exe") || is(&n, "mdnsresponder.exe")
        || is(&n, "everything.exe") || is(&n, "onedrive.exe") || is(&n, "dropbox.exe") || is(&n, "googledrivefs.exe")
        || has(&n, "updater")) {
        return "DISABLE STARTUP IF UNUSED";
    }
    let gpu_busy = match c.gpu_hundredths {
        Some(v) => v >= 100,
        None => false,
    };
    if is(&n, "chrome.exe") || is(&n, "msedge.exe") || is(&n, "firefox.exe") || is(&n, "brave.exe") || is(
        &n,
        "windowsterminal.exe",
    ) || is(&n, "powershell.exe") || is(&n, "cncmd.exe") || is(&n, "code.exe") || is(&n, "rtss.exe") || is(
        &n,
        "rtsshooksloader64.exe",
    ) || is(&n, "msiafterburner.exe") || is(&n, "radeonsoftware.exe") || is(&n, "everything.exe") || is(
        &n,
        "onedrive.exe",
    ) || is(&n, "dropbox.exe") || is(&n, "googledrivefs.exe") || has(&n, "nvidia overlay") || gpu_busy {
        return "LOWER PRIORITY";
    }
    "KEEP / REVIEW"
}

/// The first saved permission for this executable path at or after `from`.
pub open spec fn rule_for(rules: Seq<Rule>, path: Seq<char>, from: int) -> Option<int>
    decreases rules.len() - from,
{
    if from < 0 || from >= rules.len() {
        None
    } else if rules[from].app.path@ == path {
        Some(from)
    } else {
        rule_for(rules, path, from + 1)
    }
}

/// The Game Mode action in force for this app: the first saved permission for its path,
/// while it is active.
pub open spec fn action_in_force(rules: Seq<Rule>, path: Seq<char>, now: u64) -> Option<RuleAction> {
    match rule_for(rules, path, 0) {
        Some(i) => if rule_active(rules[i], now) {
            Some(rules[i].action)
        } else {
            None
        },
        None => None,
    }
}

/// Which of an app's Settings controls are offered and which are ticked.
#[derive(Debug)]
pub struct Controls {
    pub keep_checked: bool,
    pub reduce_checked: bool,
    pub close_checked: bool,
    pub startup_kept_checked: bool,
    pub startup_disabled_checked: bool,
    pub keep_enabled: bool,
    pub reduce_enabled: bool,
    pub close_enabled: bool,
    pub disable_startup_enabled: bool,
    pub restore_startup_enabled: bool,
}

/// The controls of one app's row. Nothing can be changed while a session runs; a
/// protected or essential app is a mandatory Keep, so it offers no Lower, Close or startup
/// cleanup, yet Keep stays offered to remove an older saved permission for it.
pub open spec fn controls_spec(c: Choice, rules: Seq<Rule>, now: u64, idle: bool) -> Controls {
    let active = action_in_force(rules, c.path@, now);
    let can_change = idle && !c.protected && c.id is Some;
    Controls {
        keep_checked: active is None,
        reduce_checked: active == Some(RuleAction::ReduceLoad),
        close_checked: active == Some(RuleAction::Close),
        startup_kept_checked: !c.startup_disabled,
        startup_disabled_checked: c.startup_disabled,
        keep_enabled: idle && (!c.protected || rule_for(rules, c.path@, 0) is Some),
        reduce_enabled: can_change,
        close_enabled: can_change,
        disable_startup_enabled: can_change && c.startup_enabled && !c.startup_disabled,
        restore_startup_enabled: idle && (c.startup_enabled || c.startup_disabled),
    }
}

/// The first saved permission for this path.
pub(crate) fn rule_index(rules: &[Rule], path: &str) -> (r: Option<usize>)
    ensures
        match r {
            Some(i) => i < rules@.len() && rule_for(rules@, path@, 0) == Some(i as int),
            None => rule_for(rules@, path@, 0) is None,
        },
{
    let mut i: usize = 0;
    while i < rules.len()
        invariant
            i <= rules@.len(),
            rule_for(rules@, path@, 0) == rule_for(rules@, path@, i as int),
        decreases rules@.len() - i,
    {
        if crate::text::str_equal(rules[i].app.path.as_str(), path) {
            return Some(i);
        }
        i = i + 1;
    }
    None
}

/// The Game Mode action in force for this app.
pub fn rule_action(rules: &[Rule], path: &str, now: u64) -> (r: Option<RuleAction>)
    ensures
        r == action_in_force(rules@, path@, now),
{
    match rule_index(rules, path) {
        Some(i) => if rules[i].active(now) {
            Some(rules[i].action)
        } else {
            None
        },
        None => None,
    }
}

/// The state of one app's Settings controls.
pub fn controls(c: &Choice, rules: &[Rule], now: u64, idle: bool) -> (r: Controls)
    ensures
        r == controls_spec(*c, rules@, now, idle),
{
    let active = rule_action(rules, c.path.as_str(), now);
    let configured = rule_index(rules, c.path.as_str()).is_some();
    let can_change = idle && !c.protected && c.id.is_some();
    Controls {
        keep_checked: active.is_none(),
        reduce_checked: active == Some(RuleAction::ReduceLoad),
        close_checked: active == Some(RuleAction::Close),
        startup_kept_checked: !c.startup_disabled,
        startup_disabled_checked: c.startup_disabled,
        keep_enabled: idle && (!c.protected || configured),
        reduce_enabled: can_change,
        close_enabled: can_change,
        disable_startup_enabled: can_change && c.startup_enabled && !c.startup_disabled,
        restore_startup_enabled: idle && (c.startup_enabled || c.startup_disabled),
    }
}

/// A protected or essential app offers no Lower, Close or startup cleanup; while no
/// session runs, an older saved permission for it can still be removed and a startup
/// entry the optimizer disabled can still be restored.
pub proof fn law_protected_rows_are_locked(c: Choice, rules: Seq<Rule>, now: u64, idle: bool)
    ensures
        c.protected ==> !controls_spec(c, rules, now, idle).reduce_enabled
            && !controls_spec(c, rules, now, idle).close_enabled
            && !controls_spec(c, rules, now, idle).disable_startup_enabled,
        idle && rule_for(rules, c.path@, 0) is Some ==> controls_spec(c, rules, now, idle).keep_enabled,
        idle && c.startup_disabled ==> controls_spec(c, rules, now, idle).restore_startup_enabled,
        !idle ==> !controls_spec(c, rules, now, idle).keep_enabled
            && !controls_spec(c, rules, now, idle).reduce_enabled
            && !controls_spec(c, rules, now, idle).close_enabled
            && !controls_spec(c, rules, now, idle).disable_startup_enabled
            && !controls_spec(c, rules, now, idle).restore_startup_enabled,
{
}

/// The explanation shown for the selected app.
pub open spec fn detail_spec(c: Choice, active: Option<RuleAction>) -> Seq<char> {
    let game = match active {
        Some(RuleAction::Close) => "Close"@,
        Some(RuleAction::ReduceLoad) => "Lower priority"@,
        None => "Keep"@,
    };
    let startup = if c.startup_disabled {
        "Disabled"@
    } else if c.startup_enabled {
        "Keep / starts with Windows"@
    } else {
        "No supported startup entry"@
    };
    let about = if c.essential {
        ("Windows / core"@, "Required; do not change"@)
    } else if c.protected {
        ("Protected app"@, "Kept outside optimizer actions"@)
    } else {
        describe_spec(ascii_lower_seq(c.name@))
    };
    let safety = if c.essential {
        "ESSENTIAL — KEEP. This Windows/core process is never an optimization target."@
    } else if c.protected {
        "PROTECTED — KEEP. Process Optimizer will not change this app."@
    } else {
        "Optional app."@
    };
    safety + " "@ + about.0 + ": "@ + about.1 + ". Current: Game Mode = "@ + game + "; Startup = "@ + startup
        + ". Recommended: "@ + recommendation_spec(c)
        + ". Turn OFF restores priority changes already applied."@
}

/// The explanation shown for the selected app, given the Game Mode action in force.
pub fn detail(c: &Choice, active: Option<RuleAction>) -> (r: String)
    ensures
        r@ == detail_spec(*c, active),
{
    let game = match active {
        Some(RuleAction::Close) => "Close",
        Some(RuleAction::ReduceLoad) => "Lower priority",
        None => "Keep",
    };
    let startup = if c.startup_disabled {
        "Disabled"
    } else if c.startup_enabled {
        "Keep / starts with Windows"
    } else {
        "No supported startup entry"
    };
    let about = if c.essential {
        ("Windows / core", "Required; do not change")
    } else if c.protected {
        ("Protected app", "Kept outside optimizer actions")
    } else {
        describe(c.name.as_str())
    };
    let safety = if c.essential {
        "ESSENTIAL — KEEP. This Windows/core process is never an optimization target."
    } else if c.protected {
        "PROTECTED — KEEP. Process Optimizer will not change this app."
    } else {
        "Optional app."
    };
    let mut out: Vec<char> = Vec::new();
    crate::text::append(&mut out, safety);
    crate::text::append(&mut out, " ");
    crate::text::append(&mut out, about.0);
    crate::text::append(&mut out, ": ");
    crate::text::append(&mut out, about.1);
    crate::text::append(&mut out, ". Current: Game Mode = ");
    crate::text::append(&mut out, game);
    crate::text::append(&mut out, "; Startup = ");
    crate::text::append(&mut out, startup);
    crate::text::append(&mut out, ". Recommended: ");
    crate::text::append(&mut out, recommendation(c));
    crate::text::append(&mut out, ". Turn OFF restores priority changes already applied.");
    crate::text::string_of(&out)
}

/// Disabling an app's startup entry is recommended only when that entry is enabled: with
/// the entry off, the same app never gets that recommendation.
pub proof fn law_startup_advice_needs_enabled_entry(c: Choice)
    ensures
        recommendation_spec(c) == "DISABLE STARTUP IF UNUSED"@ ==> c.startup_enabled,
{
    reveal_strlit("DISABLE STARTUP IF UNUSED");
    reveal_strlit("KEEP — REQUIRED");
    reveal_strlit("KEEP — PROTECTED");
    reveal_strlit("KEEP / REVIEW");
    reveal_strlit("LOWER PRIORITY");
    if !c.startup_enabled {
        let r = recommendation_spec(c);
        assert(r[0] != 'D');
        assert("DISABLE STARTUP IF UNUSED"@[0] == 'D');
    }
}

/// Essential and protected apps are always kept: their recommendation starts with "KEEP".
pub proof fn law_required_apps_are_kept(c: Choice)
    ensures
        c.essential || c.protected ==> recommendation_spec(c).len() >= 4 && recommendation_spec(c).take(4)
            == "KEEP"@,
{
    reveal_strlit("KEEP — REQUIRED");
    reveal_strlit("KEEP — PROTECTED");
    reveal_strlit("KEEP");
    if c.essential || c.protected {
        assert(recommendation_spec(c).take(4) =~= "KEEP"@);
    }
}

/// An enabled startup entry changes the recommendation at most to disabling that entry:
/// the same app with its entry on gets either what it gets with the entry off, or the
/// advice to disable the entry.
pub proof fn law_startup_entry_only_adds_disable(c: Choice)
    ensures
        ({
            let on = recommendation_spec(Choice { startup_enabled: true, ..c });
            let off = recommendation_spec(Choice { startup_enabled: false, ..c });
            on == off || on == "DISABLE STARTUP IF UNUSED"@
        }),
{
}

} // verus!
