//! Release manifests: stable version ordering, repository-scoped asset URLs and
//! SHA-256 digests of downloaded files.
use crate::model::AppResult;
use crate::text::{ascii_lower_seq, chars_of, lower_ascii, string_of};
use sha2::{Digest, Sha256};
use vstd::prelude::*;

verus! {

pub const MANIFEST_SCHEMA: u32 = 1;

/// Largest manifest document accepted for parsing, in bytes.
pub const MAX_MANIFEST_BYTES: usize = 262144;

/// The `.`-separated fields of a character sequence.
pub open spec fn split_dots(s: Seq<char>) -> Seq<Seq<char>>
    decreases s.len(),
{
    if s.len() == 0 {
        seq![Seq::<char>::empty()]
    } else {
        let p = split_dots(s.drop_last());
        if s.last() == '.' {
            p.push(Seq::<char>::empty())
        } else {
            p.update(p.len() - 1, p.last().push(s.last()))
        }
    }
}

pub proof fn lemma_split_nonempty(s: Seq<char>)
    ensures
        split_dots(s).len() >= 1,
    decreases s.len(),
{
    if s.len() > 0 {
        lemma_split_nonempty(s.drop_last());
    }
}

pub open spec fn is_digit(c: char) -> bool {
    '0' <= c <= '9'
}

/// The number written by a sequence of decimal digits.
pub open spec fn decimal_value(s: Seq<char>) -> nat
    decreases s.len(),
{
    if s.len() == 0 {
        0
    } else {
        decimal_value(s.drop_last()) * 10 + ((s.last() as u32) - ('0' as u32)) as nat
    }
}

/// A version field: one or more ASCII digits whose value fits in 64 bits.
pub open spec fn valid_field(s: Seq<char>) -> bool {
    &&& s.len() > 0
    &&& forall|i: int| 0 <= i < s.len() ==> is_digit(#[trigger] s[i])
    &&& decimal_value(s) <= u64::MAX
}

/// The version text without one optional leading `v`.
pub open spec fn version_body(s: Seq<char>) -> Seq<char> {
    if s.len() > 0 && s[0] == 'v' {
        s.drop_first()
    } else {
        s
    }
}

/// A stable `major.minor.patch` version.
pub open spec fn valid_version(s: Seq<char>) -> bool {
    let f = split_dots(version_body(s));
    f.len() == 3 && valid_field(f[0]) && valid_field(f[1]) && valid_field(f[2])
}

/// The numeric fields of a valid version.
pub open spec fn version_numbers(s: Seq<char>) -> Seq<nat> {
    let f = split_dots(version_body(s));
    seq![decimal_value(f[0]), decimal_value(f[1]), decimal_value(f[2])]
}

/// The value of a digit field, if it is one and fits in 64 bits.
fn parse_field(s: &Vec<char>) -> (r: Option<u64>)
    ensures
        r is Some <==> valid_field(s@),
        r matches Some(v) ==> v == decimal_value(s@),
{
    if s.len() == 0 {
        return None;
    }
    let mut v: u64 = 0;
    let mut i: usize = 0;
    while i < s.len()
        invariant
            i <= s@.len(),
            forall|k: int| 0 <= k < i ==> is_digit(#[trigger] s@[k]),
            v == decimal_value(s@.take(i as int)),
        decreases s@.len() - i,
    {
        let c = s[i];
        proof {
            assert(s@.take(i + 1).drop_last() =~= s@.take(i as int));
        }
        if !('0' <= c && c <= '9') {
            return None;
        }
        let d: u64 = (c as u32 - '0' as u32) as u64;
        if v > (u64::MAX - d) / 10 {
            proof {
                assert(decimal_value(s@.take(i + 1)) > u64::MAX) by (nonlinear_arith)
                    requires
                        decimal_value(s@.take(i + 1)) == v * 10 + d,
                        v > (u64::MAX - d) / 10,
                        d <= 9,
                ;
                if forall|k: int| 0 <= k < s@.len() ==> is_digit(#[trigger] s@[k]) {
                    lemma_decimal_prefix_monotone(s@, i + 1);
                }
            }
            return None;
        }
        proof {
            assert(v * 10 + d <= u64::MAX) by (nonlinear_arith)
                requires
                    v <= (u64::MAX - d) / 10,
                    d <= 9,
            ;
        }
        v = v * 10 + d;
        i = i + 1;
    }
    proof {
        assert(s@.take(i as int) =~= s@);
    }
    Some(v)
}

/// A longer digit prefix never has a smaller value.
pub proof fn lemma_decimal_prefix_monotone(s: Seq<char>, n: int)
    requires
        0 <= n <= s.len(),
        forall|i: int| 0 <= i < s.len() ==> is_digit(#[trigger] s[i]),
    ensures
        decimal_value(s.take(n)) <= decimal_value(s),
    decreases s.len() - n,
{
    if n < s.len() {
        lemma_decimal_prefix_monotone(s, n + 1);
        assert(s.take(n + 1).drop_last() =~= s.take(n));
        let a = decimal_value(s.take(n));
        assert(decimal_value(s.take(n + 1)) >= a * 10) by (nonlinear_arith)
            requires
                decimal_value(s.take(n + 1)) == a * 10 + ((s[n] as u32) - ('0' as u32)) as nat,
        ;
        assert(a * 10 >= a) by (nonlinear_arith);
    } else {
        assert(s.take(n) =~= s);
    }
}

/// Splits on `.`.
fn split_on_dots(s: &Vec<char>) -> (r: Vec<Vec<char>>)
    ensures
        r@.len() == split_dots(s@).len(),
        forall|i: int| 0 <= i < r@.len() ==> (#[trigger] r@[i])@ == split_dots(s@)[i],
{
    let mut r: Vec<Vec<char>> = Vec::new();
    r.push(Vec::new());
    let mut i: usize = 0;
    proof {
        assert(s@.take(0) =~= Seq::<char>::empty());
    }
    while i < s.len()
        invariant
            i <= s@.len(),
            r@.len() == split_dots(s@.take(i as int)).len(),
            r@.len() >= 1,
            forall|k: int| 0 <= k < r@.len() ==> (#[trigger] r@[k])@ == split_dots(s@.take(i as int))[k],
        decreases s@.len() - i,
    {
        let c = s[i];
        proof {
            assert(s@.take(i + 1).drop_last() =~= s@.take(i as int));
            lemma_split_nonempty(s@.take(i as int));
        }
        if c == '.' {
            r.push(Vec::new());
            proof {
                assert forall|k: int| 0 <= k < r@.len() implies (#[trigger] r@[k])@ == split_dots(s@.take(i + 1))[k] by {
                    if k < r@.len() - 1 {
                    } else {
                        assert(r@[k]@ =~= Seq::<char>::empty());
                    }
                }
            }
        } else {
            let last = r.len() - 1;
            let mut cur = r.pop().unwrap();
            cur.push(c);
            r.push(cur);
            proof {
                assert forall|k: int| 0 <= k < r@.len() implies (#[trigger] r@[k])@ == split_dots(s@.take(i + 1))[k] by {
                    if k < last {
                    } else {
                    }
                }
            }
        }
        i = i + 1;
    }
    proof {
        assert(s@.take(i as int) =~= s@);
    }
    r
}

fn version_parts(value: &str) -> (r: AppResult<[u64; 3]>)
    ensures
        r is Ok <==> valid_version(value@),
        r matches Ok(v) ==> v@[0] == version_numbers(value@)[0] && v@[1] == version_numbers(value@)[1]
            && v@[2] == version_numbers(value@)[2],
{
    let all = chars_of(value);
    let body = if all.len() > 0 && all[0] == 'v' {
        let mut rest: Vec<char> = Vec::new();
        let mut i: usize = 1;
        while i < all.len()
            invariant
                1 <= i <= all@.len(),
                rest@ == all@.subrange(1, i as int),
            decreases all@.len() - i,
        {
            proof {
                assert(all@.subrange(1, i as int).push(all@[i as int]) =~= all@.subrange(1, i + 1));
            }
            rest.push(all[i]);
            i = i + 1;
        }
        proof {
            assert(all@.subrange(1, all@.len() as int) =~= all@.drop_first());
        }
        rest
    } else {
        all
    };
    let fields = split_on_dots(&body);
    if fields.len() != 3 {
        return Err("Version must contain exactly major.minor.patch.".to_string());
    }
    let a = parse_field(&fields[0]);
    let b = parse_field(&fields[1]);
    let c = parse_field(&fields[2]);
    match (a, b, c) {
        (Some(x), Some(y), Some(z)) => Ok([x, y, z]),
        _ => Err("Version must contain only numeric major.minor.patch fields.".to_string()),
    }
}

/// Lexicographic order on version numbers.
pub open spec fn version_greater(a: Seq<nat>, b: Seq<nat>) -> bool {
    a[0] > b[0] || (a[0] == b[0] && (a[1] > b[1] || (a[1] == b[1] && a[2] > b[2])))
}

/// Whether `candidate` is a later stable release than `current`.
pub fn is_newer(current: &str, candidate: &str) -> (r: AppResult<bool>)
    ensures
        r is Ok <==> valid_version(current@) && valid_version(candidate@),
        r matches Ok(b) ==> b == version_greater(version_numbers(candidate@), version_numbers(current@)),
{
    let x = version_parts(candidate)?;
    let y = version_parts(current)?;
    Ok(x[0] > y[0] || (x[0] == y[0] && (x[1] > y[1] || (x[1] == y[1] && x[2] > y[2]))))
}

pub const REPOSITORY: &'static str = "abrahamahn/process-optimizer";

/// An update manifest as published with a release.
#[derive(Debug)]
pub struct Manifest {
    pub schema: u32,
    pub version: String,
    pub app_url: String,
    pub app_sha256: String,
    pub updater_url: String,
    pub updater_sha256: String,
    pub installer_url: String,
}

impl Clone for Manifest {
    fn clone(&self) -> (r: Self)
        ensures
            r == *self,
    {
        Manifest {
            schema: self.schema,
            version: self.version.clone(),
            app_url: self.app_url.clone(),
            app_sha256: self.app_sha256.clone(),
            updater_url: self.updater_url.clone(),
            updater_sha256: self.updater_sha256.clone(),
            installer_url: self.installer_url.clone(),
        }
    }
}

pub open spec fn is_hex_digit(c: char) -> bool {
    ('0' <= c <= '9') || ('a' <= c <= 'f') || ('A' <= c <= 'F')
}

/// A SHA-256 digest written as 64 hexadecimal digits.
pub open spec fn valid_sha_spec(s: Seq<char>) -> bool {
    s.len() == 64 && forall|i: int| 0 <= i < s.len() ==> is_hex_digit(#[trigger] s[i])
}

fn valid_sha(value: &str) -> (r: bool)
    ensures
        r == valid_sha_spec(value@),
{
    let cs = chars_of(value);
    if cs.len() != 64 {
        return false;
    }
    let mut i: usize = 0;
    while i < cs.len()
        invariant
            cs@ == value@,
            i <= cs@.len(),
            forall|k: int| 0 <= k < i ==> is_hex_digit(#[trigger] cs@[k]),
        decreases cs@.len() - i,
    {
        let c = cs[i];
        if !(('0' <= c && c <= '9') || ('a' <= c && c <= 'f') || ('A' <= c && c <= 'F')) {
            return false;
        }
        i = i + 1;
    }
    true
}

/// The release download directory of a version: `https://github.com/<repository>/releases/download/v<version>/`.
pub open spec fn release_base(version: Seq<char>) -> Seq<char> {
    "https://github.com/"@ + REPOSITORY@ + "/releases/download/v"@ + version + "/"@
}

/// A manifest of this repository's release: current schema, stable version, valid
/// digests, and asset URLs inside that release only.
pub open spec fn manifest_valid(m: Manifest) -> bool {
    &&& m.schema == MANIFEST_SCHEMA
    &&& valid_version(m.version@)
    &&& valid_sha_spec(m.app_sha256@)
    &&& valid_sha_spec(m.updater_sha256@)
    &&& m.app_url@ == release_base(m.version@) + "process-optimizer.exe"@
    &&& m.updater_url@ == release_base(m.version@) + "process-optimizer-updater.exe"@
    &&& m.installer_url@ == release_base(m.version@) + "ProcessOptimizerSetup.exe"@
}

fn release_asset(version: &String, asset: &str) -> (r: String)
    ensures
        r@ == release_base(version@) + asset@,
{
    let mut u = String::from_str("https://github.com/");
    u.append(REPOSITORY);
    u.append("/releases/download/v");
    u.append(version.as_str());
    u.append("/");
    u.append(asset);
    u
}

impl Manifest {
    pub fn validate(&self) -> (r: AppResult<()>)
        ensures
            r is Ok <==> manifest_valid(*self),
    {
        if self.schema != MANIFEST_SCHEMA {
            return Err("Unsupported update manifest schema.".to_string());
        }
        version_parts(self.version.as_str())?;
        if !valid_sha(self.app_sha256.as_str()) || !valid_sha(self.updater_sha256.as_str()) {
            return Err("Update manifest contains an invalid SHA-256 digest.".to_string());
        }
        let app = release_asset(&self.version, "process-optimizer.exe");
        let updater = release_asset(&self.version, "process-optimizer-updater.exe");
        let installer = release_asset(&self.version, "ProcessOptimizerSetup.exe");
        if self.app_url != app || self.updater_url != updater || self.installer_url != installer {
            return Err("Update manifest points outside the expected GitHub release assets.".to_string());
        }
        Ok(())
    }
}

/// What `Sha256::digest` returns for the given bytes.
pub uninterp spec fn sha256_spec(data: Seq<u8>) -> Seq<u8>;

/// Calls `sha2::Sha256::digest`; a SHA-256 digest is 32 bytes long.
#[verifier::external_body]
fn sha256_digest(data: &[u8]) -> (r: Vec<u8>)
    ensures
        r@ == sha256_spec(data@),
        r@.len() == 32,
{
    Sha256::digest(data).to_vec()
}

/// The lowercase hexadecimal digit for a value below 16.
pub open spec fn hex_char(n: int) -> char {
    if n < 10 {
        (('0' as int) + n) as char
    } else {
        (('a' as int) + n - 10) as char
    }
}

/// Bytes written as lowercase hexadecimal, two digits each.
pub open spec fn hex_lower(b: Seq<u8>) -> Seq<char>
    decreases b.len(),
{
    if b.len() == 0 {
        Seq::empty()
    } else {
        hex_lower(b.drop_last()) + seq![hex_char((b.last() / 16) as int), hex_char((b.last() % 16) as int)]
    }
}

fn hex_digit(n: u8) -> (c: char)
    requires
        n < 16,
    ensures
        c == hex_char(n as int),
{
    if n < 10 {
        (48u8 + n) as char
    } else {
        (87u8 + n) as char
    }
}

/// The lowercase hexadecimal SHA-256 digest of the bytes.
pub fn sha256_bytes(bytes: &[u8]) -> (r: String)
    ensures
        r@ == hex_lower(sha256_spec(bytes@)),
{
    let d = sha256_digest(bytes);
    let mut out: Vec<char> = Vec::new();
    let mut i: usize = 0;
    while i < d.len()
        invariant
            i <= d@.len(),
            out@ == hex_lower(d@.take(i as int)),
        decreases d@.len() - i,
    {
        let byte = d[i];
        proof {
            assert(d@.take(i + 1).drop_last() =~= d@.take(i as int));
        }
        out.push(hex_digit(byte / 16));
        out.push(hex_digit(byte % 16));
        proof {
            assert(out@ =~= hex_lower(d@.take(i + 1)));
        }
        i = i + 1;
    }
    proof {
        assert(d@.take(i as int) =~= d@);
    }
    string_of(&out)
}

/// Checks that an expected digest is written as 64 hexadecimal digits; done before the
/// downloaded file is read.
pub fn expected_digest_check(expected: &str) -> (r: AppResult<()>)
    ensures
        r is Ok <==> valid_sha_spec(expected@),
{
    if !valid_sha(expected) {
        return Err("Expected update digest is invalid.".to_string());
    }
    Ok(())
}

/// Checks the size of a release manifest before it is parsed.
pub fn manifest_size_check(len: usize) -> (r: AppResult<()>)
    ensures
        r is Ok <==> len <= MAX_MANIFEST_BYTES,
{
    if len > MAX_MANIFEST_BYTES {
        return Err("Update manifest is unexpectedly large.".to_string());
    }
    Ok(())
}

/// Checks downloaded bytes against the expected digest, ignoring ASCII case.
pub fn verify_file(contents: &[u8], expected: &str) -> (r: AppResult<()>)
    ensures
        r is Ok <==> valid_sha_spec(expected@) && ascii_lower_seq(expected@) == hex_lower(
            sha256_spec(contents@),
        ),
{
    let digest = expected_digest_check(expected);
    if digest.is_err() {
        return digest;
    }
    let actual = sha256_bytes(contents);
    let a = lower_ascii(&chars_of(actual.as_str()));
    let e = lower_ascii(&chars_of(expected));
    proof {
        lemma_hex_lower_is_lower(sha256_spec(contents@));
    }
    if !crate::text::chars_equal(&a, &e) {
        return Err("Downloaded update failed SHA-256 verification.".to_string());
    }
    Ok(())
}

/// Lowercase hexadecimal is unchanged by ASCII lowercasing.
pub proof fn lemma_hex_lower_is_lower(b: Seq<u8>)
    ensures
        ascii_lower_seq(hex_lower(b)) == hex_lower(b),
    decreases b.len(),
{
    if b.len() > 0 {
        lemma_hex_lower_is_lower(b.drop_last());
        let h = hex_lower(b);
        assert(ascii_lower_seq(h) =~= h) by {
            assert forall|i: int| 0 <= i < h.len() implies crate::text::ascii_lower(#[trigger] h[i]) == h[i] by {
                let prev = hex_lower(b.drop_last());
                if i < prev.len() {
                    assert(ascii_lower_seq(prev)[i] == prev[i]);
                }
            }
        }
    }
}

/// No version is newer than itself, and of two versions at most one is newer.
pub proof fn law_newer_is_strict(a: Seq<nat>, b: Seq<nat>)
    ensures
        !version_greater(a, a),
        version_greater(a, b) ==> !version_greater(b, a),
{
}

/// Newer is transitive: a release newer than a newer release is newer still.
pub proof fn law_newer_is_transitive(a: Seq<nat>, b: Seq<nat>, c: Seq<nat>)
    requires
        version_greater(a, b),
        version_greater(b, c),
    ensures
        version_greater(a, c),
{
}

/// The first position at or after `from` holding `name`.
pub open spec fn find_arg(args: Seq<String>, name: Seq<char>, from: int) -> Option<int>
    decreases args.len() - from,
{
    if from < 0 || from >= args.len() {
        None
    } else if args[from]@ == name {
        Some(from)
    } else {
        find_arg(args, name, from + 1)
    }
}

/// The argument after the first `name` flag, or why there is none.
pub open spec fn value_spec(args: Seq<String>, name: Seq<char>) -> Result<Seq<char>, Seq<char>> {
    match find_arg(args, name, 0) {
        Some(i) => if i + 1 < args.len() {
            Ok(args[i + 1]@)
        } else {
            Err("Missing value for updater argument "@ + name + "."@)
        },
        None => Err("Missing updater argument "@ + name + "."@),
    }
}

/// The argument after the first `name` flag, if both are present.
pub fn value(args: &[String], name: &str) -> (r: Result<String, String>)
    ensures
        match value_spec(args@, name@) {
            Ok(v) => r matches Ok(x) && x@ == v,
            Err(e) => r matches Err(m) && m@ == e,
        },
{
    let mut i: usize = 0;
    while i < args.len()
        invariant
            i <= args@.len(),
            find_arg(args@, name@, 0) == find_arg(args@, name@, i as int),
        decreases args@.len() - i,
    {
        if crate::text::str_equal(args[i].as_str(), name) {
            if args.len() - i > 1 {
                return Ok(args[i + 1].clone());
            }
            let m = crate::text::concat("Missing value for updater argument ", name);
            return Err(crate::text::concat(m.as_str(), "."));
        }
        i = i + 1;
    }
    let m = crate::text::concat("Missing updater argument ", name);
    Err(crate::text::concat(m.as_str(), "."))
}

/// Whether the flag `name` is among the arguments.
pub fn has_flag(args: &[String], name: &str) -> (r: bool)
    ensures
        r == find_arg(args@, name@, 0) is Some,
{
    let mut i: usize = 0;
    while i < args.len()
        invariant
            i <= args@.len(),
            find_arg(args@, name@, 0) == find_arg(args@, name@, i as int),
        decreases args@.len() - i,
    {
        if crate::text::str_equal(args[i].as_str(), name) {
            return true;
        }
        i = i + 1;
    }
    false
}

/// What the updater was asked to install, where, and whom it waits for.
pub struct UpdaterArgs {
    pub install_dir: String,
    pub app: String,
    pub updater: String,
    pub app_sha256: String,
    pub updater_sha256: String,
    pub parent_pid: u32,
    pub no_restart: bool,
}

/// The updater's request, read in order: it must be launched with `--apply`, every
/// value flag must be present with its value, and the parent PID must be a number.
pub open spec fn updater_args_spec(args: Seq<String>) -> Result<
    (Seq<char>, Seq<char>, Seq<char>, Seq<char>, Seq<char>, u32, bool),
    Seq<char>,
> {
    if find_arg(args, "--apply"@, 0) is None {
        Err("Updater must be launched by Process Optimizer."@)
    } else {
        match value_spec(args, "--install-dir"@) {
            Err(e) => Err(e),
            Ok(dir) => match value_spec(args, "--app"@) {
                Err(e) => Err(e),
                Ok(app) => match value_spec(args, "--updater"@) {
                    Err(e) => Err(e),
                    Ok(upd) => match value_spec(args, "--app-sha256"@) {
                        Err(e) => Err(e),
                        Ok(app_hash) => match value_spec(args, "--updater-sha256"@) {
                            Err(e) => Err(e),
                            Ok(upd_hash) => match value_spec(args, "--parent-pid"@) {
                                Err(e) => Err(e),
                                Ok(p) => match crate::text::parse_u32_spec(p, 10) {
                                    None => Err("Updater parent PID is invalid."@),
                                    Some(pid) => Ok(
                                        (
                                            dir,
                                            app,
                                            upd,
                                            app_hash,
                                            upd_hash,
                                            pid,
                                            find_arg(args, "--test-no-restart"@, 0) is Some,
                                        ),
                                    ),
                                },
                            },
                        },
                    },
                },
            },
        }
    }
}

/// Reads the updater's command line.
pub fn updater_args(args: &[String]) -> (r: Result<UpdaterArgs, String>)
    ensures
        match updater_args_spec(args@) {
            Ok(t) => r matches Ok(u) && u.install_dir@ == t.0 && u.app@ == t.1 && u.updater@ == t.2
                && u.app_sha256@ == t.3 && u.updater_sha256@ == t.4 && u.parent_pid == t.5
                && u.no_restart == t.6,
            Err(e) => r matches Err(m) && m@ == e,
        },
{
    if !has_flag(args, "--apply") {
        return Err("Updater must be launched by Process Optimizer.".to_string());
    }
    let install_dir = match value(args, "--install-dir") {
        Ok(v) => v,
        Err(e) => return Err(e),
    };
    let app = match value(args, "--app") {
        Ok(v) => v,
        Err(e) => return Err(e),
    };
    let updater = match value(args, "--updater") {
        Ok(v) => v,
        Err(e) => return Err(e),
    };
    let app_sha256 = match value(args, "--app-sha256") {
        Ok(v) => v,
        Err(e) => return Err(e),
    };
    let updater_sha256 = match value(args, "--updater-sha256") {
        Ok(v) => v,
        Err(e) => return Err(e),
    };
    let pid_text = match value(args, "--parent-pid") {
        Ok(v) => v,
        Err(e) => return Err(e),
    };
    let parent_pid = match crate::text::parse_u32(&crate::text::chars_of(pid_text.as_str()), 10) {
        Some(p) => p,
        None => return Err("Updater parent PID is invalid.".to_string()),
    };
    let no_restart = has_flag(args, "--test-no-restart");
    Ok(UpdaterArgs { install_dir, app, updater, app_sha256, updater_sha256, parent_pid, no_restart })
}


/// The arguments the application hands the downloaded updater, in order.
pub open spec fn updater_command_spec(
    install_dir: Seq<char>,
    app: Seq<char>,
    updater: Seq<char>,
    app_sha256: Seq<char>,
    updater_sha256: Seq<char>,
    parent_pid: u32,
) -> Seq<Seq<char>> {
    seq![
        "--apply"@, "--install-dir"@, install_dir, "--app"@, app, "--updater"@, updater,
        "--app-sha256"@, app_sha256, "--updater-sha256"@, updater_sha256, "--parent-pid"@,
        crate::text::decimal_seq(parent_pid as nat),
    ]
}

/// The command line for the updater: install `app` and `updater` (with their expected
/// digests) into `install_dir` once the process `parent_pid` has exited.
pub fn updater_command(
    install_dir: &str,
    app: &str,
    updater: &str,
    app_sha256: &str,
    updater_sha256: &str,
    parent_pid: u32,
) -> (r: Vec<String>)
    ensures
        r@.len() == 13,
        forall|k: int| 0 <= k < 13 ==> (#[trigger] r@[k])@ == updater_command_spec(
            install_dir@, app@, updater@, app_sha256@, updater_sha256@, parent_pid)[k],
{
    let mut r: Vec<String> = Vec::new();
    r.push("--apply".to_string());
    r.push("--install-dir".to_string());
    r.push(install_dir.to_string());
    r.push("--app".to_string());
    r.push(app.to_string());
    r.push("--updater".to_string());
    r.push(updater.to_string());
    r.push("--app-sha256".to_string());
    r.push(app_sha256.to_string());
    r.push("--updater-sha256".to_string());
    r.push(updater_sha256.to_string());
    r.push("--parent-pid".to_string());
    r.push(string_of(&crate::text::decimal(parent_pid as u64)));
    r
}

/// The flags of the updater's command line.
pub open spec fn updater_flag(v: Seq<char>) -> bool {
    ||| v == "--apply"@
    ||| v == "--install-dir"@
    ||| v == "--app"@
    ||| v == "--updater"@
    ||| v == "--app-sha256"@
    ||| v == "--updater-sha256"@
    ||| v == "--parent-pid"@
    ||| v == "--test-no-restart"@
}

proof fn lemma_find_first(args: Seq<String>, name: Seq<char>, from: int, i: int)
    requires
        0 <= from <= i < args.len(),
        args[i]@ == name,
        forall|j: int| from <= j < i ==> (#[trigger] args[j])@ != name,
    ensures
        find_arg(args, name, from) == Some(i),
    decreases i - from,
{
    if from < i {
        lemma_find_first(args, name, from + 1, i);
    }
}

proof fn lemma_find_none(args: Seq<String>, name: Seq<char>, from: int)
    requires
        0 <= from,
        forall|j: int| from <= j < args.len() ==> (#[trigger] args[j])@ != name,
    ensures
        find_arg(args, name, from) is None,
    decreases args.len() - from,
{
    if from < args.len() {
        lemma_find_none(args, name, from + 1);
    }
}

proof fn lemma_decimal_digits(n: nat)
    ensures
        crate::text::decimal_seq(n).len() > 0,
        crate::text::decimal_seq(n)[0] != '+',
        all_decimal(crate::text::decimal_seq(n)),
        crate::text::digits_value(crate::text::decimal_seq(n), 10) == n,
    decreases n,
{
    let d = crate::text::decimal_seq(n);
    let m = n % 10;
    assert(crate::text::digit_of(crate::text::digit_char(m)) == m) by {
        assert('0' as u32 == 48 && '1' as u32 == 49 && '2' as u32 == 50 && '3' as u32 == 51 && '4' as u32 == 52);
        assert('5' as u32 == 53 && '6' as u32 == 54 && '7' as u32 == 55 && '8' as u32 == 56 && '9' as u32 == 57);
    }
    if n < 10 {
        assert(d.drop_last() =~= Seq::<char>::empty());
        assert(crate::text::digits_value(d.drop_last(), 10) == 0);
        assert(d.last() == crate::text::digit_char(m));
    } else {
        lemma_decimal_digits(n / 10);
        assert(d.drop_last() =~= crate::text::decimal_seq(n / 10));
        assert(d.last() == crate::text::digit_char(m));
        assert(crate::text::digits_value(d.drop_last(), 10) == n / 10);
        assert((n / 10) * 10 + m == n);
    }
    assert(crate::text::digits_value(d, 10) == crate::text::digits_value(d.drop_last(), 10) * 10 + crate::text::digit_of(d.last()) as nat);
}

/// Every character is a decimal digit.
pub open spec fn all_decimal(s: Seq<char>) -> bool {
    crate::text::all_digits(s, 10)
}

/// A number written in decimal reads back as itself.
proof fn lemma_decimal_parses(n: u32)
    ensures
        crate::text::parse_u32_spec(crate::text::decimal_seq(n as nat), 10) == Some(n),
{
    lemma_decimal_digits(n as nat);
}

/// What the application hands the updater is what the updater reads back: the
/// installation directory, both files with their digests and the PID it waits for,
/// without the test switch. No value may itself be one of the updater's flags.
pub proof fn law_updater_reads_its_command(
    args: Seq<String>,
    install_dir: Seq<char>,
    app: Seq<char>,
    updater: Seq<char>,
    app_sha256: Seq<char>,
    updater_sha256: Seq<char>,
    parent_pid: u32,
)
    requires
        args.len() == 13,
        forall|k: int| 0 <= k < 13 ==> (#[trigger] args[k])@ == updater_command_spec(
            install_dir, app, updater, app_sha256, updater_sha256, parent_pid)[k],
        !updater_flag(install_dir),
        !updater_flag(app),
        !updater_flag(updater),
        !updater_flag(app_sha256),
        !updater_flag(updater_sha256),
    ensures
        updater_args_spec(args) == Ok::<(Seq<char>, Seq<char>, Seq<char>, Seq<char>, Seq<char>, u32, bool), Seq<char>>(
            (install_dir, app, updater, app_sha256, updater_sha256, parent_pid, false),
        ),
{
    reveal_strlit("--apply");
    reveal_strlit("--install-dir");
    reveal_strlit("--app");
    reveal_strlit("--updater");
    reveal_strlit("--app-sha256");
    reveal_strlit("--updater-sha256");
    reveal_strlit("--parent-pid");
    reveal_strlit("--test-no-restart");
    assert("--apply"@.len() == 7 && "--install-dir"@.len() == 13 && "--app"@.len() == 5 && "--updater"@.len() == 9);
    assert("--app-sha256"@.len() == 12 && "--updater-sha256"@.len() == 16 && "--parent-pid"@.len() == 12);
    assert("--test-no-restart"@.len() == 17);
    assert("--app-sha256"@[2] == 'a' && "--parent-pid"@[2] == 'p');
    let c = updater_command_spec(install_dir, app, updater, app_sha256, updater_sha256, parent_pid);
    lemma_decimal_digits(parent_pid as nat);
    let pid = crate::text::decimal_seq(parent_pid as nat);
    assert(!updater_flag(pid)) by {
        assert(pid[0] != '-');
        assert("--apply"@[0] == '-');
    }
    assert forall|k: int| 0 <= k < 13 implies (#[trigger] args[k])@ == c[k] by {}
    lemma_find_first(args, "--apply"@, 0, 0);
    assert forall|j: int| 0 <= j < 1 implies (#[trigger] args[j])@ != "--install-dir"@ by {}
    lemma_find_first(args, "--install-dir"@, 0, 1);
    assert forall|j: int| 0 <= j < 3 implies (#[trigger] args[j])@ != "--app"@ by {}
    lemma_find_first(args, "--app"@, 0, 3);
    assert forall|j: int| 0 <= j < 5 implies (#[trigger] args[j])@ != "--updater"@ by {}
    lemma_find_first(args, "--updater"@, 0, 5);
    assert forall|j: int| 0 <= j < 7 implies (#[trigger] args[j])@ != "--app-sha256"@ by {}
    lemma_find_first(args, "--app-sha256"@, 0, 7);
    assert forall|j: int| 0 <= j < 9 implies (#[trigger] args[j])@ != "--updater-sha256"@ by {}
    lemma_find_first(args, "--updater-sha256"@, 0, 9);
    assert forall|j: int| 0 <= j < 11 implies (#[trigger] args[j])@ != "--parent-pid"@ by {}
    lemma_find_first(args, "--parent-pid"@, 0, 11);
    assert forall|j: int| 0 <= j < 13 implies (#[trigger] args[j])@ != "--test-no-restart"@ by {}
    lemma_find_none(args, "--test-no-restart"@, 0);
    lemma_decimal_parses(parent_pid);
}

} // verus!
