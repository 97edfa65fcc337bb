//! Reversible current-user startup cleanup: reading stored commands and matching them to
//! reviewed executables. Only a plain executable token is ever matched; environment
//! references and shell commands are not.
use crate::manual::StartupValueKind;
use crate::model::{Fault, FaultKind, NativeResult};
use crate::policy::{normalized, normalized_path};
use crate::text::{append, append_chars, chars_of, decimal, decimal_seq, find_char, first_index, has_char, is_whitespace, slice_chars, string_of, trim, trim_seq, unicode_whitespace};
use vstd::prelude::*;

verus! {

/// One current-user startup value.
#[derive(Debug)]
pub struct RunEntry {
    pub value_name: String,
    pub command: String,
    pub kind: StartupValueKind,
    pub executable: Option<String>,
}

impl Clone for RunEntry {
    fn clone(&self) -> (r: Self)
        ensures
            r == *self,
    {
        RunEntry {
            value_name: self.value_name.clone(),
            command: self.command.clone(),
            kind: self.kind,
            executable: crate::model::clone_string_option(&self.executable),
        }
    }
}

/// `"<operation> failed with Windows error <code>."`
pub open spec fn fault_message(operation: Seq<char>, code: u32) -> Seq<char> {
    operation + " failed with Windows error "@ + decimal_seq(code as nat) + "."@
}

/// A denied fault naming the failed operation and its Windows error code.
pub fn fault(operation: &str, code: u32) -> (f: Fault)
    ensures
        f.kind == FaultKind::Denied,
        f.message@ == fault_message(operation@, code),
{
    let mut text: Vec<char> = Vec::new();
    append(&mut text, operation);
    append(&mut text, " failed with Windows error ");
    append_chars(&mut text, &decimal(code as u64));
    append(&mut text, ".");
    proof {
        assert(text@ =~= fault_message(operation@, code));
    }
    Fault { kind: FaultKind::Denied, message: string_of(&text) }
}

/// The little-endian 16-bit words of a byte buffer of even length.
pub open spec fn le_words(data: Seq<u8>) -> Seq<u16> {
    Seq::new((data.len() / 2) as nat, |i: int| (data[2 * i] + data[2 * i + 1] * 256) as u16)
}

/// The words before the first NUL, or all of them.
pub open spec fn until_nul(w: Seq<u16>) -> Seq<u16> {
    if exists|i: int| 0 <= i < w.len() && w[i] == 0 {
        w.take(choose|i: int| 0 <= i < w.len() && w[i] == 0 && forall|j: int| 0 <= j < i ==> w[j] != 0)
    } else {
        w
    }
}

/// UTF-16 decoding (`String::from_utf16`): surrogates must come as a high-low pair.
pub open spec fn utf16_decode(w: Seq<u16>) -> Option<Seq<char>>
    decreases w.len(),
{
    if w.len() == 0 {
        Some(Seq::empty())
    } else if w[0] < 0xD800 || w[0] > 0xDFFF {
        match utf16_decode(w.skip(1)) {
            Some(r) => Some(seq![(w[0] as u32) as char] + r),
            None => None,
        }
    } else if w[0] <= 0xDBFF && w.len() >= 2 && 0xDC00 <= w[1] <= 0xDFFF {
        match utf16_decode(w.skip(2)) {
            Some(r) => Some(seq![(0x10000 + (w[0] - 0xD800) * 0x400 + (w[1] - 0xDC00)) as char] + r),
            None => None,
        }
    } else {
        None
    }
}

/// Converts a Unicode scalar value (`char::from_u32`).
#[verifier::external_body]
fn char_from_u32(x: u32) -> (r: Option<char>)
    ensures
        vstd::utf8::is_scalar(x) ==> r == Some(x as char),
        !vstd::utf8::is_scalar(x) ==> r is None,
{
    char::from_u32(x)
}

/// Decodes a stored REG_SZ value: UTF-16LE up to the first NUL.
pub fn decode_string(data: &[u8]) -> (r: NativeResult<String>)
    ensures
        data@.len() % 2 != 0 ==> (r matches Err(f) && f.kind == FaultKind::Other
            && f.message@ == "Malformed UTF-16 startup value."@),
        data@.len() % 2 == 0 ==> match utf16_decode(until_nul(le_words(data@))) {
            Some(text) => r matches Ok(s) && s@ == text,
            None => r matches Err(f) && f.kind == FaultKind::Other && f.message@ == "Invalid UTF-16 startup value."@,
        },
{
    if data.len() % 2 != 0 {
        return Err(Fault::new(FaultKind::Other, "Malformed UTF-16 startup value."));
    }
    let ghost all = le_words(data@);
    let mut words: Vec<u16> = Vec::new();
    let mut k: usize = 0;
    let n: usize = data.len();
    let half = n / 2;
    let mut stop = false;
    while k < half && !stop
        invariant
            n == data@.len(),
            half == n / 2,
            data@.len() % 2 == 0,
            k <= half,
            all == le_words(data@),
            all.len() == half,
            words@ == all.take(k as int),
            forall|j: int| 0 <= j < k ==> all[j] != 0,
            stop ==> k < half && all[k as int] == 0,
        decreases half - k + (if stop { 0int } else { 1int }),
    {
        assert(2 * k + 1 < data@.len());
        let b: usize = k + k;
        let w: u16 = (data[b] as u16) + (data[b + 1] as u16) * 256;
        assert(w == all[k as int]);
        if w == 0 {
            stop = true;
        } else {
            proof {
                assert(all.take(k + 1) =~= all.take(k as int).push(w));
            }
            words.push(w);
            k = k + 1;
        }
    }
    proof {
        if stop {
            assert(until_nul(all) =~= all.take(k as int)) by {
                let c = choose|i: int| 0 <= i < all.len() && all[i] == 0 && forall|j: int| 0 <= j < i ==> all[j] != 0;
                assert(c == k);
            }
        } else {
            assert(words@ =~= all);
            assert(until_nul(all) == all);
        }
        assert(words@ == until_nul(all));
    }
    match decode_utf16(words.as_slice()) {
        Some(text) => Ok(text),
        None => Err(Fault::new(FaultKind::Other, "Invalid UTF-16 startup value.")),
    }
}

/// Decodes UTF-16 code units (`String::from_utf16`).
pub fn decode_utf16(words: &[u16]) -> (r: Option<String>)
    ensures
        match utf16_decode(words@) {
            Some(text) => r matches Some(s) && s@ == text,
            None => r is None,
        },
{
    let mut out: Vec<char> = Vec::new();
    let mut i: usize = 0;
    proof {
        assert(words@.skip(0) =~= words@);
        assert(out@ + Seq::<char>::empty() =~= out@);
    }
    while i < words.len()
        invariant
            i <= words@.len(),
            utf16_decode(words@) == match utf16_decode(words@.skip(i as int)) {
                Some(rest) => Some(out@ + rest),
                None => None::<Seq<char>>,
            },
        decreases words@.len() - i,
    {
        let w = words[i];
        let ghost tail = words@.skip(i as int);
        if w < 0xD800 || w > 0xDFFF {
            let c = match char_from_u32(w as u32) {
                Some(c) => c,
                None => return None,
            };
            proof {
                assert(tail.skip(1) =~= words@.skip(i + 1));
                match utf16_decode(words@.skip(i + 1)) {
                    Some(rest) => {
                        assert(out@.push(c) + rest =~= out@ + (seq![c] + rest));
                    },
                    None => {},
                }
            }
            out.push(c);
            i = i + 1;
        } else if w <= 0xDBFF && words.len() - i >= 2 && 0xDC00 <= words[i + 1] && words[i + 1] <= 0xDFFF {
            let lo = words[i + 1];
            let x: u32 = 0x10000 + ((w as u32) - 0xD800) * 0x400 + ((lo as u32) - 0xDC00);
            let c = match char_from_u32(x) {
                Some(c) => c,
                None => return None,
            };
            proof {
                assert(tail.skip(2) =~= words@.skip(i + 2));
                assert(tail[1] == lo);
                match utf16_decode(words@.skip(i + 2)) {
                    Some(rest) => {
                        assert(out@.push(c) + rest =~= out@ + (seq![c] + rest));
                    },
                    None => {},
                }
            }
            out.push(c);
            i = i + 2;
        } else {
            proof {
                assert(tail[0] == w);
                if tail.len() >= 2 {
                    assert(tail[1] == words@[i + 1]);
                }
                assert(utf16_decode(tail) is None);
            }
            return None;
        }
    }
    proof {
        assert(words@.skip(i as int) =~= Seq::<u16>::empty());
        assert(out@ + Seq::<char>::empty() =~= out@);
    }
    Some(string_of(&out))
}

/// The first whitespace position at or after `from` (the length when there is none).
pub open spec fn first_space(s: Seq<char>, from: int) -> int
    decreases s.len() - from,
{
    if from < 0 || from >= s.len() {
        s.len() as int
    } else if unicode_whitespace(s[from]) {
        from
    } else {
        first_space(s, from + 1)
    }
}

/// The executable token of trimmed, non-empty text: the quoted part of a quoted command
/// (none without a closing quote), else everything before the first whitespace.
pub open spec fn command_token(text: Seq<char>) -> Option<Seq<char>> {
    if text[0] == '"' {
        match first_index(text.skip(1), '"') {
            Some(e) => Some(text.skip(1).take(e)),
            None => None,
        }
    } else {
        Some(text.take(first_space(text, 0)))
    }
}

/// The canonical executable a stored command runs, when it names one plainly: no command
/// that starts with or holds an environment reference is matched.
pub open spec fn executable_of(command: Seq<char>) -> Option<Seq<char>> {
    let text = trim_seq(command);
    if text.len() == 0 || text[0] == '%' {
        None
    } else {
        match command_token(text) {
            Some(token) => if token.len() == 0 || token.contains('%') {
                None
            } else {
                Some(normalized(token))
            },
            None => None,
        }
    }
}

/// Conservative executable-token parsing of a startup command.
pub fn command_executable(command: &str) -> (r: Option<String>)
    ensures
        match executable_of(command@) {
            Some(p) => r matches Some(x) && x@ == p,
            None => r is None,
        },
{
    let text = trim(&chars_of(command));
    if text.len() == 0 || text[0] == '%' {
        return None;
    }
    let token = if text[0] == '"' {
        let rest = slice_chars(&text, 1, text.len());
        proof {
            assert(rest@ =~= text@.skip(1));
        }
        match find_char(&rest, '"') {
            Some(end) => {
                proof {
                    assert(first_index(rest@, '"') == Some(end as int)) by {
                        let c = choose|i: int| 0 <= i < rest@.len() && rest@[i] == '"' && forall|j: int| 0 <= j < i ==> rest@[j] != '"';
                        if c < end {
                        } else if c > end {
                        }
                    }
                }
                let t = slice_chars(&rest, 0, end);
                proof {
                    assert(t@ =~= rest@.take(end as int));
                }
                t
            },
            None => {
                return None;
            },
        }
    } else {
        let mut end: usize = 0;
        while end < text.len() && !is_whitespace(text[end])
            invariant
                end <= text@.len(),
                first_space(text@, 0) == first_space(text@, end as int),
            decreases text@.len() - end,
        {
            end = end + 1;
        }
        let t = slice_chars(&text, 0, end);
        proof {
            assert(t@ =~= text@.take(end as int));
        }
        t
    };
    if token.len() == 0 || has_char(&token, '%') {
        return None;
    }
    let s = string_of(&token);
    Some(normalized_path(s.as_str()))
}

/// Entries that run exactly this executable.
pub open spec fn matching_spec(es: Seq<RunEntry>, path: Seq<char>) -> Seq<RunEntry>
    decreases es.len(),
{
    if es.len() == 0 {
        Seq::empty()
    } else {
        let m = matching_spec(es.drop_last(), path);
        if es.last().executable matches Some(x) && x@ == normalized(path) {
            m.push(es.last())
        } else {
            m
        }
    }
}

/// The startup entries, in order, whose executable is this path.
pub fn matching(entries: &[RunEntry], path: &str) -> (r: Vec<RunEntry>)
    ensures
        r@ == matching_spec(entries@, path@),
{
    let p = normalized_path(path);
    let mut out: Vec<RunEntry> = Vec::new();
    let mut k: usize = 0;
    proof {
        assert(entries@.take(0) =~= Seq::<RunEntry>::empty());
    }
    while k < entries.len()
        invariant
            k <= entries@.len(),
            p@ == normalized(path@),
            out@ == matching_spec(entries@.take(k as int), path@),
        decreases entries@.len() - k,
    {
        proof {
            assert(entries@.take(k + 1).drop_last() =~= entries@.take(k as int));
            assert(entries@.take(k + 1).last() == entries@[k as int]);
        }
        let hit = match &entries[k].executable {
            Some(x) => *x == p,
            None => false,
        };
        if hit {
            out.push(entries[k].clone());
        }
        k = k + 1;
    }
    proof {
        assert(entries@.take(k as int) =~= entries@);
    }
    out
}

/// Registry value type of a plain string.
pub const REG_SZ: u32 = 1;

/// Registry value type of a string with environment references.
pub const REG_EXPAND_SZ: u32 = 2;

/// Largest stored startup command managed, in bytes.
pub const MAX_DATA_BYTES: usize = 65536;

/// The startup kind of a registry value type: plain and expandable strings only.
pub open spec fn startup_kind(kind: u32) -> Option<StartupValueKind> {
    if kind == REG_SZ {
        Some(StartupValueKind::String)
    } else if kind == REG_EXPAND_SZ {
        Some(StartupValueKind::ExpandString)
    } else {
        None
    }
}

/// The text of a stored string value: UTF-16LE of even length, up to the first NUL.
pub open spec fn stored_text(data: Seq<u8>) -> Option<Seq<char>> {
    if data.len() % 2 != 0 {
        None
    } else {
        utf16_decode(until_nul(le_words(data)))
    }
}

/// Checks a queried value's type and reported size before its data is read: only string
/// commands of a manageable size are handled.
pub fn value_kind(kind: u32, size: u32) -> (r: NativeResult<StartupValueKind>)
    ensures
        size > MAX_DATA_BYTES ==> (r matches Err(f) && f.kind == FaultKind::Other
            && f.message@ == "Startup value is too large to manage safely."@),
        size <= MAX_DATA_BYTES ==> match startup_kind(kind) {
            Some(k) => r matches Ok(x) && x == k,
            None => r matches Err(f) && f.kind == FaultKind::Unsupported
                && f.message@ == "Startup entry is not a string command."@,
        },
{
    if size as usize > MAX_DATA_BYTES {
        return Err(Fault::new(FaultKind::Other, "Startup value is too large to manage safely."));
    }
    if kind == REG_SZ {
        Ok(StartupValueKind::String)
    } else if kind == REG_EXPAND_SZ {
        Ok(StartupValueKind::ExpandString)
    } else {
        Err(Fault::new(FaultKind::Unsupported, "Startup entry is not a string command."))
    }
}

/// The entry an enumerated startup value stands for; values that are not strings are
/// skipped.
pub fn run_entry(name: &[u16], kind: u32, data: &[u8]) -> (r: NativeResult<Option<RunEntry>>)
    ensures
        startup_kind(kind) is None ==> (r matches Ok(e) && e is None),
        startup_kind(kind) matches Some(k) ==> match utf16_decode(name@) {
            None => r matches Err(f) && f.kind == FaultKind::Other
                && f.message@ == "Invalid startup value name."@,
            Some(n) => match stored_text(data@) {
                None => r matches Err(f) && f.kind == FaultKind::Other && f.message@ == (if data@.len()
                    % 2 != 0 {
                    "Malformed UTF-16 startup value."@
                } else {
                    "Invalid UTF-16 startup value."@
                }),
                Some(c) => r matches Ok(Some(e)) && e.value_name@ == n && e.command@ == c
                    && e.kind == k && match executable_of(c) {
                    Some(x) => e.executable matches Some(y) && y@ == x,
                    None => e.executable is None,
                },
            },
        },
{
    let k = if kind == REG_SZ {
        StartupValueKind::String
    } else if kind == REG_EXPAND_SZ {
        StartupValueKind::ExpandString
    } else {
        return Ok(None);
    };
    let value_name = match decode_utf16(name) {
        Some(n) => n,
        None => return Err(Fault::new(FaultKind::Other, "Invalid startup value name.")),
    };
    let command = decode_string(data)?;
    let executable = command_executable(command.as_str());
    Ok(Some(RunEntry { value_name, command, kind: k, executable }))
}

/// Whether a reviewed entry may be deleted, given what the registry now holds under its
/// name: nothing needs doing when the value is gone, the reviewed command may be deleted,
/// and a value that changed after review is never touched.
pub fn disable_step(entry: &RunEntry, current: &Option<(String, StartupValueKind)>) -> (r: NativeResult<bool>)
    ensures
        match current {
            None => r matches Ok(d) && !d,
            Some((c, k)) => if c@ == entry.command@ && *k == entry.kind {
                r matches Ok(d) && d
            } else {
                r matches Err(f) && f.kind == FaultKind::Denied
                    && f.message@ == "Startup entry changed after review; it was not disabled."@
            },
        },
{
    match current {
        None => Ok(false),
        Some((c, k)) => {
            if crate::text::str_equal(c.as_str(), entry.command.as_str()) && *k == entry.kind {
                Ok(true)
            } else {
                Err(Fault::new(FaultKind::Denied, "Startup entry changed after review; it was not disabled."))
            }
        },
    }
}

/// The outcome of a delete request, from what the registry holds afterwards.
pub fn disable_verified(after: &Option<(String, StartupValueKind)>) -> (r: NativeResult<()>)
    ensures
        after is None <==> r is Ok,
        r matches Err(f) ==> f.kind == FaultKind::Other
            && f.message@ == "Startup value still exists after disable request."@,
{
    match after {
        None => Ok(()),
        Some(_) => Err(Fault::new(FaultKind::Other, "Startup value still exists after disable request.")),
    }
}

/// Whether a backed-up command may be written back: nothing needs doing when the same
/// command is already there, it is written only where no value has the name, and a
/// different value under the name is never overwritten.
pub fn restore_step(
    command: &str,
    kind: &StartupValueKind,
    current: &Option<(String, StartupValueKind)>,
) -> (r: NativeResult<bool>)
    ensures
        match current {
            None => r matches Ok(w) && w,
            Some((c, k)) => if c@ == command@ && *k == *kind {
                r matches Ok(w) && !w
            } else {
                r matches Err(f) && f.kind == FaultKind::Denied && f.message@
                    == "A different startup value now uses this name; recovery will not overwrite it."@
            },
        },
{
    match current {
        None => Ok(true),
        Some((c, k)) => {
            if crate::text::str_equal(c.as_str(), command) && *k == *kind {
                Ok(false)
            } else {
                Err(Fault::new(
                    FaultKind::Denied,
                    "A different startup value now uses this name; recovery will not overwrite it.",
                ))
            }
        },
    }
}

/// The outcome of a write-back, from what the registry holds afterwards: only the exact
/// command and kind count as restored.
pub fn restore_verified(
    command: &str,
    kind: &StartupValueKind,
    after: &Option<(String, StartupValueKind)>,
) -> (r: NativeResult<()>)
    ensures
        r is Ok <==> (after matches Some((c, k)) && c@ == command@ && k == *kind),
        r matches Err(f) ==> f.kind == FaultKind::Other
            && f.message@ == "Startup value could not be verified after restore."@,
{
    match after {
        Some((c, k)) => {
            if crate::text::str_equal(c.as_str(), command) && *k == *kind {
                return Ok(());
            }
        },
        None => {},
    }
    Err(Fault::new(FaultKind::Other, "Startup value could not be verified after restore."))
}

proof fn lemma_utf16_front(s: Seq<char>)
    requires
        s.len() > 0,
    ensures
        crate::windows::utf16_seq(s) == crate::windows::utf16_units(s[0]) + crate::windows::utf16_seq(s.skip(1)),
    decreases s.len(),
{
    if s.len() == 1 {
        assert(s.drop_last() =~= Seq::<char>::empty());
        assert(s.skip(1) =~= Seq::<char>::empty());
        assert(crate::windows::utf16_units(s[0]) + Seq::<u16>::empty() =~= crate::windows::utf16_units(s[0]));
    } else {
        lemma_utf16_front(s.drop_last());
        assert(s.drop_last()[0] == s[0]);
        assert(s.drop_last().skip(1) =~= s.skip(1).drop_last());
        assert(s.skip(1).last() == s.last());
    }
}

proof fn lemma_utf16_units_decode(c: char, w: Seq<u16>)
    ensures
        utf16_decode(crate::windows::utf16_units(c) + w) == match utf16_decode(w) {
            Some(r) => Some(seq![c] + r),
            None => None::<Seq<char>>,
        },
{
    let n = c as u32;
    vstd::utf8::char_is_scalar(c);
    vstd::utf8::char_u32_cast(c, n);
    let u = crate::windows::utf16_units(c);
    let x = u + w;
    if n < 0x10000 {
        assert(x[0] == n as u16);
        assert(x.skip(1) =~= w);
        assert((n as u16) as u32 == n);
    } else {
        let m = n - 0x10000;
        assert(m < 0x100000);
        let hi = (0xD800 + m / 0x400) as u16;
        let lo = (0xDC00 + m % 0x400) as u16;
        assert(m / 0x400 < 0x400) by (nonlinear_arith)
            requires
                m < 0x100000,
        ;
        assert(m % 0x400 < 0x400) by (nonlinear_arith);
        assert(x[0] == hi && x[1] == lo);
        assert(x.skip(2) =~= w);
        assert(0x10000 + (hi - 0xD800) * 0x400 + (lo - 0xDC00) == n) by (nonlinear_arith)
            requires
                hi == 0xD800 + m / 0x400,
                lo == 0xDC00 + m % 0x400,
                n == m + 0x10000,
        ;
    }
}

/// Decoding the UTF-16 form of any text gives the text back: what `wide` writes,
/// `decode_string` reads unchanged.
pub proof fn law_utf16_round_trip(s: Seq<char>)
    ensures
        utf16_decode(crate::windows::utf16_seq(s)) == Some(s),
    decreases s.len(),
{
    if s.len() == 0 {
        assert(crate::windows::utf16_seq(s) =~= Seq::<u16>::empty());
    } else {
        lemma_utf16_front(s);
        law_utf16_round_trip(s.skip(1));
        lemma_utf16_units_decode(s[0], crate::windows::utf16_seq(s.skip(1)));
        assert(seq![s[0]] + s.skip(1) =~= s);
    }
}

} // verus!
