//! Partition-point search over ascending tables.

use vstd::prelude::*;

verus! {

/// Ascending order (repeats allowed).
pub open spec fn ascending(s: Seq<int>) -> bool {
    forall|i: int, j: int| 0 <= i <= j < s.len() ==> s[i] <= s[j]
}

/// The partition point of `s` for `x`: one past the last element that is
/// at most `x`, scanning from the end (0 when there is none). On an
/// ascending sequence this is the number of elements at most `x`.
pub open spec fn upper_bound(s: Seq<int>, x: int) -> int
    decreases s.len(),
{
    if s.len() == 0 {
        0
    } else if s.last() <= x {
        s.len() as int
    } else {
        upper_bound(s.drop_last(), x)
    }
}

/// Whether `p` splits `s` into elements at most `x` and elements above it.
pub open spec fn splits_at(s: Seq<int>, x: int, p: int) -> bool {
    &&& 0 <= p <= s.len()
    &&& forall|j: int| 0 <= j < p ==> s[j] <= x
    &&& forall|j: int| p <= j < s.len() ==> s[j] > x
}

/// Every position that splits `s` for `x` is `upper_bound(s, x)`.
pub proof fn lemma_split_is_upper_bound(s: Seq<int>, x: int, p: int)
    requires
        splits_at(s, x, p),
    ensures
        upper_bound(s, x) == p,
    decreases s.len(),
{
    if s.len() > 0 {
        if p == s.len() {
        } else {
            let t = s.drop_last();
            assert(splits_at(t, x, p));
            lemma_split_is_upper_bound(t, x, p);
        }
    }
}

/// On an ascending sequence `upper_bound` splits it.
pub proof fn lemma_upper_bound_splits(s: Seq<int>, x: int)
    requires
        ascending(s),
    ensures
        splits_at(s, x, upper_bound(s, x)),
    decreases s.len(),
{
    if s.len() > 0 {
        if s.last() <= x {
            assert forall|j: int| 0 <= j < s.len() implies s[j] <= x by {
                assert(s[j] <= s[s.len() - 1]);
            }
        } else {
            let t = s.drop_last();
            assert(ascending(t));
            lemma_upper_bound_splits(t, x);
            let p = upper_bound(t, x);
            assert forall|j: int| p <= j < s.len() implies s[j] > x by {
                if j < s.len() - 1 {
                    assert(t[j] == s[j]);
                }
            }
            assert forall|j: int| 0 <= j < p implies s[j] <= x by {
                assert(t[j] == s[j]);
            }
        }
    }
}

/// The partition point of an ascending `u32` table for `x`.
pub fn partition_point_u32(s: &[u32], x: u32) -> (p: usize)
    ensures
        p <= s@.len(),
        p == 0 || s@[p - 1] <= x,
        p == s@.len() || s@[p as int] > x,
        ascending(s@.map_values(|v: u32| v as int)) ==> p == upper_bound(
            s@.map_values(|v: u32| v as int),
            x as int,
        ),
{
    let ghost t = s@.map_values(|v: u32| v as int);
    let mut lo: usize = 0;
    let mut hi: usize = s.len();
    while lo < hi
        invariant
            lo <= hi <= s@.len(),
            lo == 0 || s@[lo - 1] <= x,
            hi == s@.len() || s@[hi as int] > x,
            ascending(t) ==> (forall|j: int| 0 <= j < lo ==> s@[j] <= x),
            ascending(t) ==> (forall|j: int| hi <= j < s@.len() ==> s@[j] > x),
            t == s@.map_values(|v: u32| v as int),
        decreases hi - lo,
    {
        let mid = lo + (hi - lo) / 2;
        if s[mid] <= x {
            proof {
                if ascending(t) {
                    assert forall|j: int| 0 <= j < mid + 1 implies s@[j] <= x by {
                        assert(t[j] <= t[mid as int]);
                    }
                }
            }
            lo = mid + 1;
        } else {
            proof {
                if ascending(t) {
                    assert forall|j: int| mid <= j < s@.len() implies s@[j] > x by {
                        assert(t[mid as int] <= t[j]);
                    }
                }
            }
            hi = mid;
        }
    }
    proof {
        if ascending(t) {
            assert(splits_at(t, x as int, lo as int));
            lemma_split_is_upper_bound(t, x as int, lo as int);
        }
    }
    lo
}

/// The partition point of an ascending `u64` table for `x`.
pub fn partition_point_u64(s: &[u64], x: u64) -> (p: usize)
    ensures
        p <= s@.len(),
        p == 0 || s@[p - 1] <= x,
        p == s@.len() || s@[p as int] > x,
        ascending(s@.map_values(|v: u64| v as int)) ==> p == upper_bound(
            s@.map_values(|v: u64| v as int),
            x as int,
        ),
{
    let ghost t = s@.map_values(|v: u64| v as int);
    let mut lo: usize = 0;
    let mut hi: usize = s.len();
    while lo < hi
        invariant
            lo <= hi <= s@.len(),
            lo == 0 || s@[lo - 1] <= x,
            hi == s@.len() || s@[hi as int] > x,
            ascending(t) ==> (forall|j: int| 0 <= j < lo ==> s@[j] <= x),
            ascending(t) ==> (forall|j: int| hi <= j < s@.len() ==> s@[j] > x),
            t == s@.map_values(|v: u64| v as int),
        decreases hi - lo,
    {
        let mid = lo + (hi - lo) / 2;
        if s[mid] <= x {
            proof {
                if ascending(t) {
                    assert forall|j: int| 0 <= j < mid + 1 implies s@[j] <= x by {
                        assert(t[j] <= t[mid as int]);
                    }
                }
            }
            lo = mid + 1;
        } else {
            proof {
                if ascending(t) {
                    assert forall|j: int| mid <= j < s@.len() implies s@[j] > x by {
                        assert(t[mid as int] <= t[j]);
                    }
                }
            }
            hi = mid;
        }
    }
    proof {
        if ascending(t) {
            assert(splits_at(t, x as int, lo as int));
            lemma_split_is_upper_bound(t, x as int, lo as int);
        }
    }
    lo
}

/// The partition point of an ascending `u128` table for `x`.
pub fn partition_point_u128(s: &[u128], x: u128) -> (p: usize)
    ensures
        p <= s@.len(),
        p == 0 || s@[p - 1] <= x,
        p == s@.len() || s@[p as int] > x,
        ascending(s@.map_values(|v: u128| v as int)) ==> p == upper_bound(
            s@.map_values(|v: u128| v as int),
            x as int,
        ),
{
    let ghost t = s@.map_values(|v: u128| v as int);
    let mut lo: usize = 0;
    let mut hi: usize = s.len();
    while lo < hi
        invariant
            lo <= hi <= s@.len(),
            lo == 0 || s@[lo - 1] <= x,
            hi == s@.len() || s@[hi as int] > x,
            ascending(t) ==> (forall|j: int| 0 <= j < lo ==> s@[j] <= x),
            ascending(t) ==> (forall|j: int| hi <= j < s@.len() ==> s@[j] > x),
            t == s@.map_values(|v: u128| v as int),
        decreases hi - lo,
    {
        let mid = lo + (hi - lo) / 2;
        if s[mid] <= x {
            proof {
                if ascending(t) {
                    assert forall|j: int| 0 <= j < mid + 1 implies s@[j] <= x by {
                        assert(t[j] <= t[mid as int]);
                    }
                }
            }
            lo = mid + 1;
        } else {
            proof {
                if ascending(t) {
                    assert forall|j: int| mid <= j < s@.len() implies s@[j] > x by {
                        assert(t[mid as int] <= t[j]);
                    }
                }
            }
            hi = mid;
        }
    }
    proof {
        if ascending(t) {
            assert(splits_at(t, x as int, lo as int));
            lemma_split_is_upper_bound(t, x as int, lo as int);
        }
    }
    lo
}

/// Whether a `u32` table is ascending, checked.
pub fn is_ascending_u32(s: &[u32]) -> (r: bool)
    ensures
        r == ascending(s@.map_values(|v: u32| v as int)),
{
    let ghost t = s@.map_values(|v: u32| v as int);
    let mut i: usize = 1;
    if s.len() == 0 {
        return true;
    }
    while i < s.len()
        invariant
            1 <= i <= s@.len(),
            t == s@.map_values(|v: u32| v as int),
            forall|a: int, b: int| 0 <= a <= b < i ==> t[a] <= t[b],
        decreases s@.len() - i,
    {
        proof {
            assert(t[i - 1] == s@[i - 1] as int);
            assert(t[i as int] == s@[i as int] as int);
        }
        if s[i - 1] > s[i] {
            return false;
        }
        proof {
            assert forall|a: int, b: int| 0 <= a <= b < i + 1 implies t[a] <= t[b] by {
                if b == i && a < i {
                    assert(t[a] <= t[i - 1]);
                }
            }
        }
        i = i + 1;
    }
    true
}

/// Whether a `u64` table is ascending, checked.
pub fn is_ascending_u64(s: &[u64]) -> (r: bool)
    ensures
        r == ascending(s@.map_values(|v: u64| v as int)),
{
    let ghost t = s@.map_values(|v: u64| v as int);
    let mut i: usize = 1;
    if s.len() == 0 {
        return true;
    }
    while i < s.len()
        invariant
            1 <= i <= s@.len(),
            t == s@.map_values(|v: u64| v as int),
            forall|a: int, b: int| 0 <= a <= b < i ==> t[a] <= t[b],
        decreases s@.len() - i,
    {
        proof {
            assert(t[i - 1] == s@[i - 1] as int);
            assert(t[i as int] == s@[i as int] as int);
        }
        if s[i - 1] > s[i] {
            return false;
        }
        proof {
            assert forall|a: int, b: int| 0 <= a <= b < i + 1 implies t[a] <= t[b] by {
                if b == i && a < i {
                    assert(t[a] <= t[i - 1]);
                }
            }
        }
        i = i + 1;
    }
    true
}

/// The partition point of an ascending table of `(u32, u32)` pairs, keyed
/// by the first member, for `x`.
pub fn partition_point_pairs_u32(s: &[(u32, u32)], x: u32) -> (p: usize)
    ensures
        p <= s@.len(),
        p == 0 || s@[p - 1].0 <= x,
        p == s@.len() || s@[p as int].0 > x,
        ascending(s@.map_values(|v: (u32, u32)| v.0 as int)) ==> p == upper_bound(
            s@.map_values(|v: (u32, u32)| v.0 as int),
            x as int,
        ),
{
    let ghost t = s@.map_values(|v: (u32, u32)| v.0 as int);
    let mut lo: usize = 0;
    let mut hi: usize = s.len();
    while lo < hi
        invariant
            lo <= hi <= s@.len(),
            lo == 0 || s@[lo - 1].0 <= x,
            hi == s@.len() || s@[hi as int].0 > x,
            ascending(t) ==> (forall|j: int| 0 <= j < lo ==> s@[j].0 <= x),
            ascending(t) ==> (forall|j: int| hi <= j < s@.len() ==> s@[j].0 > x),
            t == s@.map_values(|v: (u32, u32)| v.0 as int),
        decreases hi - lo,
    {
        let mid = lo + (hi - lo) / 2;
        if s[mid].0 <= x {
            proof {
                if ascending(t) {
                    assert forall|j: int| 0 <= j < mid + 1 implies s@[j].0 <= x by {
                        assert(t[j] <= t[mid as int]);
                    }
                }
            }
            lo = mid + 1;
        } else {
            proof {
                if ascending(t) {
                    assert forall|j: int| mid <= j < s@.len() implies s@[j].0 > x by {
                        assert(t[mid as int] <= t[j]);
                    }
                }
            }
            hi = mid;
        }
    }
    proof {
        if ascending(t) {
            assert(splits_at(t, x as int, lo as int));
            lemma_split_is_upper_bound(t, x as int, lo as int);
        }
    }
    lo
}

/// Whether a table of `(u32, u32)` pairs ascends by its first member.
pub fn is_ascending_pairs_u32(s: &[(u32, u32)]) -> (r: bool)
    ensures
        r == ascending(s@.map_values(|v: (u32, u32)| v.0 as int)),
{
    let ghost t = s@.map_values(|v: (u32, u32)| v.0 as int);
    let mut i: usize = 1;
    if s.len() == 0 {
        return true;
    }
    while i < s.len()
        invariant
            1 <= i <= s@.len(),
            t == s@.map_values(|v: (u32, u32)| v.0 as int),
            forall|a: int, b: int| 0 <= a <= b < i ==> t[a] <= t[b],
        decreases s@.len() - i,
    {
        proof {
            assert(t[i - 1] == s@[i - 1].0 as int);
            assert(t[i as int] == s@[i as int].0 as int);
        }
        if s[i - 1].0 > s[i].0 {
            return false;
        }
        proof {
            assert forall|a: int, b: int| 0 <= a <= b < i + 1 implies t[a] <= t[b] by {
                if b == i && a < i {
                    assert(t[a] <= t[i - 1]);
                }
            }
        }
        i = i + 1;
    }
    true
}

/// The partition point of an ascending table of `(u128, u32)` pairs, keyed
/// by the first member, for `x`.
pub fn partition_point_pairs_u128(s: &[(u128, u32)], x: u128) -> (p: usize)
    ensures
        p <= s@.len(),
        p == 0 || s@[p - 1].0 <= x,
        p == s@.len() || s@[p as int].0 > x,
        ascending(s@.map_values(|v: (u128, u32)| v.0 as int)) ==> p == upper_bound(
            s@.map_values(|v: (u128, u32)| v.0 as int),
            x as int,
        ),
{
    let ghost t = s@.map_values(|v: (u128, u32)| v.0 as int);
    let mut lo: usize = 0;
    let mut hi: usize = s.len();
    while lo < hi
        invariant
            lo <= hi <= s@.len(),
            lo == 0 || s@[lo - 1].0 <= x,
            hi == s@.len() || s@[hi as int].0 > x,
            ascending(t) ==> (forall|j: int| 0 <= j < lo ==> s@[j].0 <= x),
            ascending(t) ==> (forall|j: int| hi <= j < s@.len() ==> s@[j].0 > x),
            t == s@.map_values(|v: (u128, u32)| v.0 as int),
        decreases hi - lo,
    {
        let mid = lo + (hi - lo) / 2;
        if s[mid].0 <= x {
            proof {
                if ascending(t) {
                    assert forall|j: int| 0 <= j < mid + 1 implies s@[j].0 <= x by {
                        assert(t[j] <= t[mid as int]);
                    }
                }
            }
            lo = mid + 1;
        } else {
            proof {
                if ascending(t) {
                    assert forall|j: int| mid <= j < s@.len() implies s@[j].0 > x by {
                        assert(t[mid as int] <= t[j]);
                    }
                }
            }
            hi = mid;
        }
    }
    proof {
        if ascending(t) {
            assert(splits_at(t, x as int, lo as int));
            lemma_split_is_upper_bound(t, x as int, lo as int);
        }
    }
    lo
}

/// Whether a table of `(u128, u32)` pairs ascends by its first member.
pub fn is_ascending_pairs_u128(s: &[(u128, u32)]) -> (r: bool)
    ensures
        r == ascending(s@.map_values(|v: (u128, u32)| v.0 as int)),
{
    let ghost t = s@.map_values(|v: (u128, u32)| v.0 as int);
    let mut i: usize = 1;
    if s.len() == 0 {
        return true;
    }
    while i < s.len()
        invariant
            1 <= i <= s@.len(),
            t == s@.map_values(|v: (u128, u32)| v.0 as int),
            forall|a: int, b: int| 0 <= a <= b < i ==> t[a] <= t[b],
        decreases s@.len() - i,
    {
        proof {
            assert(t[i - 1] == s@[i - 1].0 as int);
            assert(t[i as int] == s@[i as int].0 as int);
        }
        if s[i - 1].0 > s[i].0 {
            return false;
        }
        proof {
            assert forall|a: int, b: int| 0 <= a <= b < i + 1 implies t[a] <= t[b] by {
                if b == i && a < i {
                    assert(t[a] <= t[i - 1]);
                }
            }
        }
        i = i + 1;
    }
    true
}


/// Whether `p` lists each position below `n` exactly once.
pub open spec fn is_perm(p: Seq<int>, n: nat) -> bool {
    &&& p.len() == n
    &&& forall|a: int| 0 <= a < n ==> 0 <= #[trigger] p[a] < n
    &&& forall|a: int, b: int| 0 <= a < b < n ==> p[a] != p[b]
}

/// Whether `after` rearranges `before` by the positions `p` so that keys
/// ascend and equal keys keep their order.
pub open spec fn stably_sorted_by(before: Seq<(u64, usize)>, after: Seq<(u64, usize)>, p: Seq<int>) -> bool {
    &&& is_perm(p, before.len())
    &&& after.len() == before.len()
    &&& forall|a: int| 0 <= a < after.len() ==> #[trigger] after[a] == before[p[a]]
    &&& forall|a: int, b: int| 0 <= a < b < after.len() ==> after[a].0 <= after[b].0
    &&& forall|a: int, b: int|
        0 <= a < b < after.len() && after[a].0 == after[b].0 ==> p[a] < p[b]
}

/// `slice::sort_by_key` on the first component of each pair. Its
/// documentation promises a sort that is stable: the pairs are rearranged
/// so that keys ascend, and pairs with equal keys keep their relative order.
#[verifier::external_body]
pub(crate) fn sort_by_first(v: &mut Vec<(u64, usize)>)
    ensures
        exists|p: Seq<int>| #[trigger] stably_sorted_by(old(v)@, final(v)@, p),
{
    v.sort_by_key(|t| t.0);
}

} // verus!
