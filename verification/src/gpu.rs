//! Reading GPU performance-counter instance names, and adapter memory summaries.
//! Missing or invalid measurements stay unknown; they never become zero.
use crate::model::GpuReading;
use crate::text::{chars_equal, chars_of, digits_value, has_prefix, join_seq, parse_u32, parse_u32_spec, split_on, split_seq, string_of, lemma_split_seq_nonempty};
use vstd::prelude::*;

verus! {

/// One counter instance: the process, its adapter and, for engine counters, the engine.
#[derive(Debug)]
pub struct Instance {
    pub pid: u32,
    pub adapter: String,
    pub engine: Option<String>,
}

/// The first position at or after `from` holding `p`.
pub open spec fn find_piece(pieces: Seq<Seq<char>>, p: Seq<char>, from: int) -> Option<int>
    decreases pieces.len() - from,
{
    if from < 0 || from >= pieces.len() {
        None
    } else if pieces[from] == p {
        Some(from)
    } else {
        find_piece(pieces, p, from + 1)
    }
}

/// The piece right after the first `p`, if both exist.
pub open spec fn piece_after(pieces: Seq<Seq<char>>, p: Seq<char>) -> Option<Seq<char>> {
    match find_piece(pieces, p, 0) {
        Some(i) => if pieces.len() - i > 1 {
            Some(pieces[i + 1])
        } else {
            None
        },
        None => None,
    }
}

pub open spec fn pid_word() -> Seq<char> {
    seq!['p', 'i', 'd']
}

pub open spec fn luid_word() -> Seq<char> {
    seq!['l', 'u', 'i', 'd']
}

pub open spec fn phys_word() -> Seq<char> {
    seq!['p', 'h', 'y', 's']
}

pub open spec fn eng_word() -> Seq<char> {
    seq!['e', 'n', 'g']
}

pub open spec fn engtype_word() -> Seq<char> {
    seq!['e', 'n', 'g', 't', 'y', 'p', 'e']
}

pub open spec fn hex_marker() -> Seq<char> {
    seq!['0', 'x']
}

/// The engine type: every piece after the first `engtype`, rejoined with `_`; empty when absent.
pub open spec fn engine_kind(pieces: Seq<Seq<char>>) -> Seq<char> {
    match find_piece(pieces, engtype_word(), 0) {
        Some(j) => join_seq(pieces.skip(j + 1), '_'),
        None => Seq::empty(),
    }
}

/// `hi:lo/phys<n>`, with `unknown` when the name carries no physical index.
pub open spec fn adapter_name(pieces: Seq<Seq<char>>, hi: Seq<char>, lo: Seq<char>) -> Seq<char> {
    let phys = match piece_after(pieces, phys_word()) {
        Some(p) => p,
        None => seq!['u', 'n', 'k', 'n', 'o', 'w', 'n'],
    };
    hi + seq![':'] + lo + seq!['/', 'p', 'h', 'y', 's'] + phys
}

/// `<index>/<kind>` after the first `eng`, if an index follows it.
pub open spec fn engine_name(pieces: Seq<Seq<char>>) -> Option<Seq<char>> {
    match piece_after(pieces, eng_word()) {
        Some(index) => Some(index + seq!['/'] + engine_kind(pieces)),
        None => None,
    }
}

/// A valid hexadecimal LUID half: `0x` and a hexadecimal `u32`.
pub open spec fn luid_half(s: Seq<char>) -> bool {
    has_prefix(s, hex_marker()) && parse_u32_spec(s.skip(2), 16) is Some
}

/// What an instance name such as `pid_42_luid_0x0_0x12AB_phys_0_eng_2_engtype_3D` denotes:
/// the decimal PID after a leading `pid`, the two hexadecimal halves after the first `luid`,
/// then the adapter and engine labels built from them.
pub open spec fn instance_of(name: Seq<char>) -> Option<(u32, Seq<char>, Option<Seq<char>>)> {
    let pieces = split_seq(name, '_');
    if pieces[0] != pid_word() || pieces.len() < 2 {
        None
    } else {
        match parse_u32_spec(pieces[1], 10) {
            None => None,
            Some(pid) => match find_piece(pieces, luid_word(), 0) {
                None => None,
                Some(l) => if l + 2 >= pieces.len() || !luid_half(pieces[l + 1]) || !luid_half(
                    pieces[l + 2],
                ) {
                    None
                } else {
                    Some(
                        (
                            pid,
                            adapter_name(pieces, pieces[l + 1], pieces[l + 2]),
                            engine_name(pieces),
                        ),
                    )
                },
            },
        }
    }
}

/// The first position whose piece equals `word`.
fn find_word(pieces: &Vec<Vec<char>>, word: &Vec<char>) -> (r: Option<usize>)
    ensures
        match r {
            Some(i) => i < pieces@.len() && find_piece(pieces@.map_values(|v: Vec<char>| v@), word@, 0)
                == Some(i as int),
            None => find_piece(pieces@.map_values(|v: Vec<char>| v@), word@, 0) is None,
        },
{
    let ghost ps = pieces@.map_values(|v: Vec<char>| v@);
    let mut i: usize = 0;
    while i < pieces.len()
        invariant
            i <= pieces@.len(),
            ps == pieces@.map_values(|v: Vec<char>| v@),
            find_piece(ps, word@, 0) == find_piece(ps, word@, i as int),
        decreases pieces@.len() - i,
    {
        if chars_equal(&pieces[i], word) {
            return Some(i);
        }
        i = i + 1;
    }
    None
}

/// The piece after the first `word`, as `position` then `get(i + 1)` find it.
fn word_after(pieces: &Vec<Vec<char>>, word: &Vec<char>) -> (r: Option<Vec<char>>)
    ensures
        match r {
            Some(v) => piece_after(pieces@.map_values(|v: Vec<char>| v@), word@) == Some(v@),
            None => piece_after(pieces@.map_values(|v: Vec<char>| v@), word@) is None,
        },
{
    match find_word(pieces, word) {
        Some(i) => if pieces.len() - i > 1 {
            Some(pieces[i + 1].clone())
        } else {
            None
        },
        None => None,
    }
}

/// Every piece from `from` on, joined with `_`.
fn join_from(pieces: &Vec<Vec<char>>, from: usize) -> (r: Vec<char>)
    requires
        from <= pieces@.len(),
    ensures
        r@ == join_seq(pieces@.map_values(|v: Vec<char>| v@).skip(from as int), '_'),
{
    let ghost ps = pieces@.map_values(|v: Vec<char>| v@);
    let mut out: Vec<char> = Vec::new();
    let mut k: usize = from;
    proof {
        assert(ps.skip(from as int).take(0) =~= Seq::<Seq<char>>::empty());
    }
    while k < pieces.len()
        invariant
            from <= k <= pieces@.len(),
            ps == pieces@.map_values(|v: Vec<char>| v@),
            out@ == join_seq(ps.skip(from as int).take(k - from), '_'),
        decreases pieces@.len() - k,
    {
        let ghost n: int = k - from;
        let ghost parts = ps.skip(from as int).take(n + 1);
        proof {
            assert(parts.drop_last() =~= ps.skip(from as int).take(n));
            assert(parts.last() == pieces@[k as int]@);
        }
        if k > from {
            out.push('_');
        }
        let piece = &pieces[k];
        let ghost before = out@;
        let mut m: usize = 0;
        while m < piece.len()
            invariant
                m <= piece@.len(),
                out@ == before + piece@.take(m as int),
            decreases piece@.len() - m,
        {
            proof {
                assert(before + piece@.take(m + 1) =~= (before + piece@.take(m as int)).push(piece@[m as int]));
            }
            out.push(piece[m]);
            m = m + 1;
        }
        proof {
            assert(piece@.take(m as int) =~= piece@);
            if n == 0 {
                assert(before =~= Seq::<char>::empty());
                assert(out@ =~= parts[0]);
            }
        }
        k = k + 1;
    }
    proof {
        assert(ps.skip(from as int).take(k - from) =~= ps.skip(from as int));
    }
    out
}

fn cat(a: &Vec<char>, b: &Vec<char>) -> (r: Vec<char>)
    ensures
        r@ == a@ + b@,
{
    let mut out = a.clone();
    let mut i: usize = 0;
    proof {
        assert(out@ =~= a@ + b@.take(0));
    }
    while i < b.len()
        invariant
            i <= b@.len(),
            out@ == a@ + b@.take(i as int),
        decreases b@.len() - i,
    {
        proof {
            assert(a@ + b@.take(i + 1) =~= (a@ + b@.take(i as int)).push(b@[i as int]));
        }
        out.push(b[i]);
        i = i + 1;
    }
    proof {
        assert(b@.take(i as int) =~= b@);
    }
    out
}

fn luid_half_check(s: &Vec<char>) -> (r: bool)
    ensures
        r == luid_half(s@),
{
    if s.len() < 2 || s[0] != '0' || s[1] != 'x' {
        proof {
            if s@.len() >= 2 {
                assert(s@.take(2)[0] == s@[0]);
                assert(s@.take(2)[1] == s@[1]);
            }
        }
        return false;
    }
    proof {
        assert(s@.take(2) =~= hex_marker());
    }
    let digits = crate::text::slice_chars(s, 2, s.len());
    proof {
        assert(digits@ =~= s@.skip(2));
    }
    parse_u32(&digits, 16).is_some()
}

/// Parses a GPU counter instance name; anything malformed is `None`, never a guess.
pub fn parse_instance(name: &str) -> (r: Option<Instance>)
    ensures
        match instance_of(name@) {
            Some((pid, adapter, engine)) => r matches Some(x) && x.pid == pid && x.adapter@ == adapter
                && match engine {
                Some(e) => x.engine matches Some(xe) && xe@ == e,
                None => x.engine is None,
            },
            None => r is None,
        },
{
    let chars = chars_of(name);
    let pieces = split_on(&chars, '_');
    let ghost ps = pieces@.map_values(|v: Vec<char>| v@);
    proof {
        lemma_split_seq_nonempty(chars@, '_');
        assert(ps =~= split_seq(name@, '_'));
    }
    let pid_w: Vec<char> = vec!['p', 'i', 'd'];
    let luid_w: Vec<char> = vec!['l', 'u', 'i', 'd'];
    let phys_w: Vec<char> = vec!['p', 'h', 'y', 's'];
    let eng_w: Vec<char> = vec!['e', 'n', 'g'];
    let engtype_w: Vec<char> = vec!['e', 'n', 'g', 't', 'y', 'p', 'e'];
    proof {
        assert(pid_w@ =~= pid_word());
        assert(luid_w@ =~= luid_word());
        assert(phys_w@ =~= phys_word());
        assert(eng_w@ =~= eng_word());
        assert(engtype_w@ =~= engtype_word());
    }
    if !chars_equal(&pieces[0], &pid_w) || pieces.len() < 2 {
        return None;
    }
    let pid = match parse_u32(&pieces[1], 10) {
        Some(p) => p,
        None => return None,
    };
    let l = match find_word(&pieces, &luid_w) {
        Some(l) => l,
        None => return None,
    };
    if pieces.len() - l <= 2 {
        return None;
    }
    let hi = &pieces[l + 1];
    let lo = &pieces[l + 2];
    if !luid_half_check(hi) || !luid_half_check(lo) {
        return None;
    }
    let phys = match word_after(&pieces, &phys_w) {
        Some(p) => p,
        None => vec!['u', 'n', 'k', 'n', 'o', 'w', 'n'],
    };
    let mut adapter = cat(hi, &vec![':']);
    adapter = cat(&adapter, lo);
    adapter = cat(&adapter, &vec!['/', 'p', 'h', 'y', 's']);
    adapter = cat(&adapter, &phys);
    proof {
        assert(adapter@ =~= adapter_name(ps, ps[l + 1], ps[l + 2]));
    }
    let engine = match word_after(&pieces, &eng_w) {
        Some(index) => {
            let kind = match find_word(&pieces, &engtype_w) {
                Some(j) => join_from(&pieces, j + 1),
                None => Vec::new(),
            };
            let e = cat(&cat(&index, &vec!['/']), &kind);
            proof {
                assert(kind@ =~= engine_kind(ps));
                assert(e@ =~= index@ + seq!['/'] + engine_kind(ps));
            }
            Some(string_of(&e))
        },
        None => None,
    };
    Some(Instance { pid, adapter: string_of(&adapter), engine })
}

/// Readings that carry a dedicated-memory figure.
pub open spec fn last_dedicated(rs: Seq<GpuReading>) -> Option<(Seq<char>, u64)>
    decreases rs.len(),
{
    if rs.len() == 0 {
        None
    } else {
        match rs.last().dedicated_bytes {
            Some(b) => Some((rs.last().adapter@, b)),
            None => last_dedicated(rs.drop_last()),
        }
    }
}

/// Every reading with a dedicated-memory figure belongs to adapter `a`.
pub open spec fn one_adapter(rs: Seq<GpuReading>, a: Seq<char>) -> bool {
    forall|i: int| 0 <= i < rs.len() && (#[trigger] rs[i]).dedicated_bytes is Some ==> rs[i].adapter@ == a
}

/// Dedicated memory is reported once per adapter; a single number exists only when exactly
/// one adapter reported it, and it is that adapter's latest figure.
pub open spec fn dedicated_summary(rs: Seq<GpuReading>) -> Option<u64> {
    match last_dedicated(rs) {
        Some((a, b)) => if one_adapter(rs, a) {
            Some(b)
        } else {
            None
        },
        None => None,
    }
}

/// The dedicated memory of the one adapter that reported any; `None` when none or several did.
pub fn dedicated_allocations(readings: &[GpuReading]) -> (r: Option<u64>)
    ensures
        r == dedicated_summary(readings@),
{
    let mut last: Option<usize> = None;
    let mut i: usize = 0;
    while i < readings.len()
        invariant
            i <= readings@.len(),
            match last {
                Some(k) => k < i && readings@[k as int].dedicated_bytes is Some && last_dedicated(
                    readings@.take(i as int),
                ) == Some((readings@[k as int].adapter@, readings@[k as int].dedicated_bytes->0)),
                None => last_dedicated(readings@.take(i as int)) is None,
            },
        decreases readings@.len() - i,
    {
        proof {
            assert(readings@.take(i + 1).drop_last() =~= readings@.take(i as int));
        }
        if readings[i].dedicated_bytes.is_some() {
            last = Some(i);
        }
        i = i + 1;
    }
    proof {
        assert(readings@.take(i as int) =~= readings@);
    }
    let k = match last {
        Some(k) => k,
        None => return None,
    };
    let bytes = match readings[k].dedicated_bytes {
        Some(b) => b,
        None => return None,
    };
    let adapter = &readings[k].adapter;
    let mut j: usize = 0;
    while j < readings.len()
        invariant
            j <= readings@.len(),
            k < readings@.len(),
            adapter == readings@[k as int].adapter,
            last_dedicated(readings@) == Some((adapter@, bytes)),
            forall|m: int| 0 <= m < j && (#[trigger] readings@[m]).dedicated_bytes is Some
                ==> readings@[m].adapter@ == adapter@,
        decreases readings@.len() - j,
    {
        if readings[j].dedicated_bytes.is_some() && readings[j].adapter != *adapter {
            proof {
                let rj = readings@[j as int];
                assert(rj.dedicated_bytes is Some && rj.adapter@ != adapter@);
                assert(!one_adapter(readings@, adapter@));
            }
            return None;
        }
        j = j + 1;
    }
    Some(bytes)
}

} // verus!
