//! Stable ordering of selected actions by process id.
use crate::model::ApprovedAction;
use vstd::prelude::*;

verus! {

/// `out` is `src` rearranged by the position map `m` (out[i] is src[m[i]]), ordered by PID,
/// with equal PIDs kept in their original order.
pub open spec fn stably_sorted_from(out: Seq<ApprovedAction>, src: Seq<ApprovedAction>, m: Seq<int>) -> bool {
    &&& m.len() == out.len()
    &&& out.len() == src.len()
    &&& forall|i: int| 0 <= i < out.len() ==> 0 <= #[trigger] m[i] < src.len() && out[i] == src[m[i]]
    &&& forall|i: int, j: int| 0 <= i < j < out.len() ==> #[trigger] m[i] != #[trigger] m[j]
    &&& forall|i: int, j: int| 0 <= i < j < out.len()
        ==> (#[trigger] out[i]).target.pid <= (#[trigger] out[j]).target.pid
    &&& forall|i: int, j: int|
        0 <= i < j < out.len() && (#[trigger] out[i]).target.pid == (#[trigger] out[j]).target.pid
            ==> m[i] < m[j]
}

/// `inv` undoes the position map `m` on the first `n` positions.
pub open spec fn inverse_of(m: Seq<int>, inv: Seq<int>, n: int) -> bool {
    &&& inv.len() == n
    &&& forall|k: int| 0 <= k < n ==> 0 <= #[trigger] inv[k] < m.len() && m[inv[k]] == k
}

/// `out` is a stable ordering of `src` by PID.
pub open spec fn stable_sort_by_pid(out: Seq<ApprovedAction>, src: Seq<ApprovedAction>) -> bool {
    exists|m: Seq<int>| #[trigger] stably_sorted_from(out, src, m)
}

/// Sorts by PID, keeping actions with equal PIDs in their given order (`sort_by_key`).
pub fn sort_by_pid(src: &Vec<ApprovedAction>) -> (res: (Vec<ApprovedAction>, Ghost<Seq<int>>, Ghost<Seq<int>>))
    ensures
        stably_sorted_from(res.0@, src@, res.1@),
        inverse_of(res.1@, res.2@, src@.len() as int),
{
    let mut out: Vec<ApprovedAction> = Vec::new();
    let ghost mut m: Seq<int> = Seq::empty();
    let ghost mut inv: Seq<int> = Seq::empty();
    let mut j: usize = 0;
    while j < src.len()
        invariant
            j <= src@.len(),
            stably_sorted_from(out@, src@.take(j as int), m),
            inverse_of(m, inv, j as int),
        decreases src@.len() - j,
    {
        let x = src[j].clone();
        let pid = x.target.pid;
        let mut pos: usize = 0;
        while pos < out.len() && out[pos].target.pid <= pid
            invariant
                pos <= out@.len(),
                forall|k: int| 0 <= k < pos ==> (#[trigger] out@[k]).target.pid <= pid,
            decreases out@.len() - pos,
        {
            pos = pos + 1;
        }
        let ghost old_out = out@;
        let ghost old_m = m;
        let ghost old_inv = inv;
        let ghost p = pos as int;
        let ghost jj = j as int;
        assert(forall|k: int| p <= k < old_out.len() ==> (#[trigger] old_out[k]).target.pid > pid) by {
            assert forall|k: int| p <= k < old_out.len() implies (#[trigger] old_out[k]).target.pid > pid by {
                if k > p {
                    assert(old_out[p].target.pid <= old_out[k].target.pid);
                }
            }
        }
        out.insert(pos, x);
        proof {
            m = old_m.insert(p, jj);
            inv = Seq::new(
                (jj + 1) as nat,
                |k: int|
                    if k == jj {
                        p
                    } else if old_inv[k] >= p {
                        old_inv[k] + 1
                    } else {
                        old_inv[k]
                    },
            );
            let src_j = src@.take(jj + 1);
            assert forall|k: int| 0 <= k < jj implies src_j[k] == src@.take(jj)[k] by {}
            assert(src_j[jj] == x);
            assert(out@.len() == jj + 1);
            assert forall|i: int| 0 <= i < out@.len() implies 0 <= #[trigger] m[i] < src_j.len() && out@[i] == src_j[m[i]] by {
                if i < p {
                    assert(out@[i] == old_out[i]);
                    assert(m[i] == old_m[i]);
                } else if i == p {
                } else {
                    assert(out@[i] == old_out[i - 1]);
                    assert(m[i] == old_m[i - 1]);
                }
            }
            assert forall|a: int, b: int| 0 <= a < b < out@.len() implies #[trigger] m[a] != #[trigger] m[b] by {
                if a < p && b < p {
                    assert(old_m[a] != old_m[b]);
                } else if a < p && b > p {
                    assert(old_m[a] != old_m[b - 1]);
                } else if a > p && b > p {
                    assert(old_m[a - 1] != old_m[b - 1]);
                }
            }
            assert forall|a: int, b: int| 0 <= a < b < out@.len()
                implies (#[trigger] out@[a]).target.pid <= (#[trigger] out@[b]).target.pid by {
                if a < p && b < p {
                    assert(old_out[a].target.pid <= old_out[b].target.pid);
                } else if a < p && b > p {
                    assert(old_out[a].target.pid <= old_out[b - 1].target.pid);
                } else if a > p && b > p {
                    assert(old_out[a - 1].target.pid <= old_out[b - 1].target.pid);
                } else if a == p {
                    assert(old_out[b - 1].target.pid > pid);
                } else {
                    assert(old_out[a].target.pid <= pid);
                }
            }
            assert forall|a: int, b: int|
                0 <= a < b < out@.len() && (#[trigger] out@[a]).target.pid == (#[trigger] out@[b]).target.pid
                implies m[a] < m[b] by {
                if a < p && b < p {
                    assert(old_out[a].target.pid == old_out[b].target.pid);
                } else if a < p && b > p {
                    assert(old_out[a].target.pid == old_out[b - 1].target.pid);
                } else if a > p && b > p {
                    assert(old_out[a - 1].target.pid == old_out[b - 1].target.pid);
                } else if a == p {
                    assert(old_out[b - 1].target.pid > pid);
                } else {
                    assert(0 <= old_m[a] < jj);
                }
            }
            assert(stably_sorted_from(out@, src_j, m));
            assert forall|k: int| 0 <= k < jj + 1 implies 0 <= #[trigger] inv[k] < m.len() && m[inv[k]] == k by {
                if k < jj {
                    let q = old_inv[k];
                    assert(old_m[q] == k);
                    if q >= p {
                        assert(m[q + 1] == old_m[q]);
                    } else {
                        assert(m[q] == old_m[q]);
                    }
                }
            }
        }
        j = j + 1;
    }
    proof {
        assert(src@.take(j as int) =~= src@);
    }
    (out, Ghost(m), Ghost(inv))
}

/// A stable ordering misses nothing: every source position is taken by some output position.
pub proof fn lemma_sorted_covers(out: Seq<ApprovedAction>, src: Seq<ApprovedAction>, m: Seq<int>, k: int)
    requires
        stably_sorted_from(out, src, m),
        0 <= k < src.len(),
    ensures
        exists|i: int| 0 <= i < out.len() && m[i] == k && #[trigger] out[i] == src[k],
{
    let n = src.len() as int;
    assert(m.no_duplicates()) by {
        assert forall|i: int, j: int| 0 <= i < m.len() && 0 <= j < m.len() && i != j implies m[i] != m[j] by {
            if i < j {
                assert(m[i] != m[j]);
            } else {
                assert(m[j] != m[i]);
            }
        }
    }
    m.unique_seq_to_set();
    let r = vstd::set_lib::set_int_range(0, n);
    vstd::set_lib::lemma_int_range(0, n);
    assert(m.to_set().subset_of(r)) by {
        assert forall|x: int| m.to_set().contains(x) implies r.contains(x) by {
            let i = choose|i: int| 0 <= i < m.len() && m[i] == x;
            assert(0 <= m[i] < n);
        }
    }
    vstd::set_lib::lemma_len_subset(m.to_set(), r);
    vstd::set_lib::lemma_subset_equality(m.to_set(), r);
    assert(r.contains(k));
    assert(m.to_set().contains(k));
    let i = choose|i: int| 0 <= i < m.len() && m[i] == k;
    assert(out[i] == src[m[i]]);
}

} // verus!
