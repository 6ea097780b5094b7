//! IP → threat intelligence over the IPBlocklist `intel.bin` format.
//!
//! Layout: a 4-byte version (6), nineteen `u64` header words, then the
//! sections: a CIDR table bucketed by the upper 16 bits, a table of long
//! ranges, the IPv6 table, the value table (flag bits, provider and source
//! ids) and the strings. A lookup takes the partition point of the starts
//! and scans back while the running maximum of the ends still reaches the
//! address.

use vstd::prelude::*;

use crate::search::{is_perm, sort_by_first, stably_sorted_by};
use crate::text::{lossy_string, lower, utf8_lossy};
use crate::wire::{le_at, u16le, u32le, u64le, u128_le};
use crate::{DbError, IpAddress};

verus! {

// ---------------------------------------------------------------------------
// The layout
// ---------------------------------------------------------------------------

/// Whether the blob is long enough for its header and carries version 6.
pub open spec fn intel_header_ok(b: Seq<u8>) -> bool {
    b.len() >= 160 && le_at(b, 0, 4) == 6
}

/// Header word `k`: five counts (CIDR rows, long rows, IPv6 rows, values,
/// strings), then the offsets of the sections.
pub open spec fn ih(b: Seq<u8>, k: int) -> int {
    le_at(b, 8 + 8 * k, 8) as int
}

/// Entry `i` of the section of 16-bit entries at header word `k`.
pub open spec fn sec16(b: Seq<u8>, k: int, i: int) -> int {
    le_at(b, ih(b, k) + 2 * i, 2) as int
}

/// Entry `i` of the section of 32-bit entries at header word `k`.
pub open spec fn sec32(b: Seq<u8>, k: int, i: int) -> int {
    le_at(b, ih(b, k) + 4 * i, 4) as int
}

/// Entry `i` of the section of 128-bit entries at header word `k`.
pub open spec fn sec128(b: Seq<u8>, k: int, i: int) -> int {
    le_at(b, ih(b, k) + 16 * i, 16) as int
}

/// Whether `n` entries of `w` bytes from header word `k` lie in the blob.
pub open spec fn sec_fits(b: Seq<u8>, k: int, n: int, w: int) -> bool {
    n == 0 || ih(b, k) + w * n <= b.len()
}

/// The number of IPv4 rows: CIDR rows, then long rows.
pub open spec fn v4_total(b: Seq<u8>) -> int {
    ih(b, 0) + ih(b, 1)
}

/// Whether bucket `x` of the CIDR table covers row `i`.
pub open spec fn in_bucket(b: Seq<u8>, x: int, i: int) -> bool {
    sec32(b, 5, x) <= i < sec32(b, 5, x + 1)
}

/// The last bucket at or below `x` that covers row `i`.
pub open spec fn last_bucket(b: Seq<u8>, i: int, x: int) -> Option<int>
    decreases x + 1,
{
    if x < 0 {
        None
    } else if in_bucket(b, x, i) {
        Some(x)
    } else {
        last_bucket(b, i, x - 1)
    }
}

/// Row `i` as bucket `x` writes it: start, end and value id.
pub open spec fn bucket_row(b: Seq<u8>, x: int, i: int) -> (int, int, int) {
    let start = x * 65536 + sec16(b, 6, i);
    (start, start + sec16(b, 7, i), sec16(b, 8, i))
}

/// Row `i` once the buckets below `x` are written: that of the last one
/// that covers it, or zeros.
pub open spec fn row_after(b: Seq<u8>, i: int, x: int) -> (int, int, int) {
    match last_bucket(b, i, x - 1) {
        None => (0, 0, 0),
        Some(y) => bucket_row(b, y, i),
    }
}

/// Row `i` of the IPv4 table in file order.
pub open spec fn raw_v4_row(b: Seq<u8>, i: int) -> (int, int, int) {
    if i >= ih(b, 0) {
        let k = i - ih(b, 0);
        (sec32(b, 9, k), sec32(b, 10, k), sec16(b, 11, k))
    } else {
        row_after(b, i, 65536)
    }
}

/// The IPv4 table in file order.
pub open spec fn raw_v4(b: Seq<u8>) -> Seq<(int, int, int)> {
    Seq::new(v4_total(b) as nat, |i: int| raw_v4_row(b, i))
}

/// The IPv6 table.
pub open spec fn raw_v6(b: Seq<u8>) -> Seq<(int, int, int)> {
    Seq::new(ih(b, 2) as nat, |i: int| (sec128(b, 12, i), sec128(b, 13, i), sec16(b, 14, i)))
}

/// The value table: flag bits, provider id, source id and a spare word.
pub open spec fn raw_values(b: Seq<u8>) -> Seq<(u32, u32, u32, u32)> {
    Seq::new(
        ih(b, 3) as nat,
        |i: int|
            (
                sec32(b, 15, 4 * i) as u32,
                sec32(b, 15, 4 * i + 1) as u32,
                sec32(b, 15, 4 * i + 2) as u32,
                sec32(b, 15, 4 * i + 3) as u32,
            ),
    )
}

/// Where string `i` starts in the blob.
pub open spec fn str_start(b: Seq<u8>, i: int) -> int {
    ih(b, 17) + sec32(b, 16, 2 * i)
}

/// Where string `i` ends in the blob.
pub open spec fn str_end(b: Seq<u8>, i: int) -> int {
    str_start(b, i) + sec32(b, 16, 2 * i + 1)
}

/// The strings, each decoded with replacement of invalid UTF-8.
pub open spec fn raw_strings(b: Seq<u8>) -> Seq<Seq<char>> {
    Seq::new(ih(b, 4) as nat, |i: int| utf8_lossy(b.subrange(str_start(b, i), str_end(b, i))))
}

/// Whether bucket `x` can write row `i`: the row exists, its entries lie in
/// the blob and its end fits 32 bits.
pub open spec fn bucket_entry_ok(b: Seq<u8>, x: int, i: int) -> bool {
    &&& 0 <= i < v4_total(b)
    &&& ih(b, 6) + 2 * i + 2 <= b.len()
    &&& ih(b, 7) + 2 * i + 2 <= b.len()
    &&& ih(b, 8) + 2 * i + 2 <= b.len()
    &&& bucket_row(b, x, i).1 < 0x1_0000_0000
}

/// Whether every bucket writes only rows it can.
pub open spec fn buckets_ok(b: Seq<u8>) -> bool {
    forall|x: int, i: int| 0 <= x < 65536 && #[trigger] in_bucket(b, x, i) ==> bucket_entry_ok(b, x, i)
}

/// Whether parsing reads nothing past the blob, overflows no row end and
/// meets no value id past the value table: where this is false, parsing
/// is not defined.
pub open spec fn intel_defined(b: Seq<u8>) -> bool {
    intel_header_ok(b) ==> {
        &&& sec_fits(b, 5, 65537, 4)
        &&& v4_total(b) <= usize::MAX
        &&& buckets_ok(b)
        &&& sec_fits(b, 9, ih(b, 1), 4)
        &&& sec_fits(b, 10, ih(b, 1), 4)
        &&& sec_fits(b, 11, ih(b, 1), 2)
        &&& sec_fits(b, 12, ih(b, 2), 16)
        &&& sec_fits(b, 13, ih(b, 2), 16)
        &&& sec_fits(b, 14, ih(b, 2), 2)
        &&& sec_fits(b, 15, ih(b, 3), 16)
        &&& sec_fits(b, 16, ih(b, 4), 8)
        &&& forall|i: int| 0 <= i < ih(b, 4) ==> #[trigger] str_end(b, i) <= b.len()
        &&& forall|i: int| 0 <= i < v4_total(b) ==> #[trigger] raw_v4_row(b, i).2 < ih(b, 3)
    }
}

// ---------------------------------------------------------------------------
// Reading the sections
// ---------------------------------------------------------------------------

/// The nineteen header words.
fn read_header(b: &[u8]) -> (h: Vec<u64>)
    requires
        b@.len() >= 160,
    ensures
        h@.len() == 19,
        forall|k: int| 0 <= k < 19 ==> h@[k] == ih(b@, k),
{
    let mut h: Vec<u64> = Vec::new();
    let mut k: usize = 0;
    while k < 19
        invariant
            k <= 19,
            b@.len() >= 160,
            h@.len() == k,
            forall|j: int| 0 <= j < k ==> h@[j] == ih(b@, j),
        decreases 19 - k,
    {
        h.push(u64le(b, 8 + 8 * k));
        k = k + 1;
    }
    h
}

/// `n` zeros.
fn zeros_u32(n: usize) -> (v: Vec<u32>)
    ensures
        v@.len() == n,
        forall|i: int| 0 <= i < n ==> v@[i] == 0,
{
    let mut v: Vec<u32> = Vec::new();
    let mut i: usize = 0;
    while i < n
        invariant
            i <= n,
            v@.len() == i,
            forall|j: int| 0 <= j < i ==> v@[j] == 0,
        decreases n - i,
    {
        v.push(0);
        i = i + 1;
    }
    v
}

/// `n` zeros.
fn zeros_u16(n: usize) -> (v: Vec<u16>)
    ensures
        v@.len() == n,
        forall|i: int| 0 <= i < n ==> v@[i] == 0,
{
    let mut v: Vec<u16> = Vec::new();
    let mut i: usize = 0;
    while i < n
        invariant
            i <= n,
            v@.len() == i,
            forall|j: int| 0 <= j < i ==> v@[j] == 0,
        decreases n - i,
    {
        v.push(0);
        i = i + 1;
    }
    v
}

/// Row `i` of three parallel tables.
pub open spec fn row3(s: Seq<u32>, e: Seq<u32>, v: Seq<u16>, i: int) -> (int, int, int) {
    (s[i] as int, e[i] as int, v[i] as int)
}

/// Writes the CIDR rows bucket by bucket into `total` zero rows; `None`
/// where a bucket writes a row it cannot.
fn fill_buckets(b: &[u8], h: &Vec<u64>, bounds: &Vec<u32>, total: usize) -> (r: Option<
    (Vec<u32>, Vec<u32>, Vec<u16>),
>)
    requires
        h@.len() == 19,
        forall|k: int| 0 <= k < 19 ==> h@[k] == ih(b@, k),
        bounds@.len() == 65537,
        forall|x: int| 0 <= x <= 65536 ==> bounds@[x] == sec32(b@, 5, x),
        total == v4_total(b@),
    ensures
        r is None <==> !buckets_ok(b@),
        r matches Some(t) ==> {
            &&& t.0@.len() == total
            &&& t.1@.len() == total
            &&& t.2@.len() == total
            &&& forall|i: int| 0 <= i < total ==> #[trigger] row3(t.0@, t.1@, t.2@, i) == row_after(b@, i, 65536)
        },
{
    let mut starts = zeros_u32(total);
    let mut ends = zeros_u32(total);
    let mut vals = zeros_u16(total);
    let blen: usize = b.len();
    let len = blen as u128;
    let h6 = h[6] as u128;
    let h7 = h[7] as u128;
    let h8 = h[8] as u128;
    let mut x: usize = 0;
    while x < 65536
        invariant
            x <= 65536,
            len == b@.len(),
            len <= usize::MAX,
            h6 == ih(b@, 6),
            h7 == ih(b@, 7),
            h8 == ih(b@, 8),
            h6 < 0x1_0000_0000_0000_0000,
            h7 < 0x1_0000_0000_0000_0000,
            h8 < 0x1_0000_0000_0000_0000,
            bounds@.len() == 65537,
            forall|y: int| 0 <= y <= 65536 ==> bounds@[y] == sec32(b@, 5, y),
            total == v4_total(b@),
            starts@.len() == total,
            ends@.len() == total,
            vals@.len() == total,
            forall|i: int| 0 <= i < total ==> #[trigger] row3(starts@, ends@, vals@, i) == row_after(b@, i, x as int),
            forall|y: int, i: int| 0 <= y < x && #[trigger] in_bucket(b@, y, i) ==> bucket_entry_ok(b@, y, i),
        decreases 65536 - x,
    {
        let a = bounds[x] as u64;
        let e = bounds[x + 1] as u64;
        let mut j: u64 = a;
        while j < e
            invariant
                x < 65536,
                a == sec32(b@, 5, x as int),
                e == sec32(b@, 5, x + 1),
                a <= j,
                j <= e || j == a,
                len == b@.len(),
                len <= usize::MAX,
                h6 == ih(b@, 6),
                h7 == ih(b@, 7),
                h8 == ih(b@, 8),
                h6 < 0x1_0000_0000_0000_0000,
                h7 < 0x1_0000_0000_0000_0000,
                h8 < 0x1_0000_0000_0000_0000,
                total == v4_total(b@),
                starts@.len() == total,
                ends@.len() == total,
                vals@.len() == total,
                forall|i: int|
                    0 <= i < total ==> #[trigger] row3(starts@, ends@, vals@, i) == if a <= i < j {
                        bucket_row(b@, x as int, i)
                    } else {
                        row_after(b@, i, x as int)
                    },
                forall|i: int| a <= i < j ==> bucket_entry_ok(b@, x as int, i),
                forall|y: int, i: int| 0 <= y < x && #[trigger] in_bucket(b@, y, i) ==> bucket_entry_ok(b@, y, i),
            decreases e - j,
        {
            proof {
                assert(in_bucket(b@, x as int, j as int));
            }
            if j >= total as u64 {
                return None;
            }
            let jj = j as u128;
            if h6 + 2 * jj + 2 > len || h7 + 2 * jj + 2 > len || h8 + 2 * jj + 2 > len {
                return None;
            }
            let o6 = (h6 + 2 * jj) as usize;
            let o7 = (h7 + 2 * jj) as usize;
            let o8 = (h8 + 2 * jj) as usize;
            assert(o6 == ih(b@, 6) + 2 * j && o7 == ih(b@, 7) + 2 * j && o8 == ih(b@, 8) + 2 * j);
            let lo = u16le(b, o6) as u32;
            let ln = u16le(b, o7) as u32;
            let v = u16le(b, o8);
            assert(lo == sec16(b@, 6, j as int) && ln == sec16(b@, 7, j as int) && v == sec16(b@, 8, j as int));
            let xx = x as u32;
            let st = (xx << 16u32) | lo;
            proof {
                assert((xx << 16u32) | lo == xx * 65536 + lo) by (bit_vector)
                    requires
                        xx < 65536,
                        lo < 65536,
                ;
            }
            if st as u64 + ln as u64 >= 0x1_0000_0000 {
                return None;
            }
            let idx = j as usize;
            let ghost s0 = starts@;
            let ghost e0 = ends@;
            let ghost v0 = vals@;
            starts.set(idx, st);
            ends.set(idx, st + ln);
            vals.set(idx, v);
            proof {
                assert(row3(starts@, ends@, vals@, j as int) == bucket_row(b@, x as int, j as int));
                assert forall|i: int| 0 <= i < total && i != j implies #[trigger] row3(starts@, ends@, vals@, i)
                    == row3(s0, e0, v0, i) by {}
            }
            j = j + 1;
        }
        proof {
            assert forall|i: int| 0 <= i < total implies #[trigger] row3(starts@, ends@, vals@, i) == row_after(b@, i, x + 1) by {
                if in_bucket(b@, x as int, i) {
                    assert(last_bucket(b@, i, x as int) == Some(x as int));
                } else {
                    assert(last_bucket(b@, i, x as int) == last_bucket(b@, i, x - 1));
                }
            }
            assert forall|y: int, i: int| 0 <= y < x + 1 && #[trigger] in_bucket(b@, y, i) implies bucket_entry_ok(b@, y, i) by {
                if y == x {
                    assert(a <= i < j);
                }
            }
        }
        x = x + 1;
    }
    Some((starts, ends, vals))
}

/// Writes the long rows after the CIDR rows.
fn fill_long(b: &[u8], h: &Vec<u64>, starts: &mut Vec<u32>, ends: &mut Vec<u32>, vals: &mut Vec<u16>)
    requires
        h@.len() == 19,
        forall|k: int| 0 <= k < 19 ==> h@[k] == ih(b@, k),
        v4_total(b@) <= usize::MAX,
        old(starts)@.len() == v4_total(b@),
        old(ends)@.len() == v4_total(b@),
        old(vals)@.len() == v4_total(b@),
        sec_fits(b@, 9, ih(b@, 1), 4),
        sec_fits(b@, 10, ih(b@, 1), 4),
        sec_fits(b@, 11, ih(b@, 1), 2),
    ensures
        final(starts)@.len() == v4_total(b@),
        final(ends)@.len() == v4_total(b@),
        final(vals)@.len() == v4_total(b@),
        forall|i: int|
            0 <= i < v4_total(b@) ==> #[trigger] row3(final(starts)@, final(ends)@, final(vals)@, i) == if i
                >= ih(b@, 0) {
                (sec32(b@, 9, i - ih(b@, 0)), sec32(b@, 10, i - ih(b@, 0)), sec16(b@, 11, i - ih(b@, 0)))
            } else {
                row3(old(starts)@, old(ends)@, old(vals)@, i)
            },
{
    let blen: usize = b.len();
    let cidr_n = h[0] as usize;
    let long_n = h[1] as usize;
    let h9 = h[9] as usize;
    let h10 = h[10] as usize;
    let h11 = h[11] as usize;
    let ghost s0 = starts@;
    let ghost e0 = ends@;
    let ghost v0 = vals@;
    let mut k: usize = 0;
    while k < long_n
        invariant
            k <= long_n,
            blen == b@.len(),
            cidr_n == ih(b@, 0),
            long_n == ih(b@, 1),
            cidr_n + long_n == v4_total(b@),
            v4_total(b@) <= usize::MAX,
            long_n > 0 ==> h9 == ih(b@, 9) && h9 + 4 * long_n <= b@.len(),
            long_n > 0 ==> h10 == ih(b@, 10) && h10 + 4 * long_n <= b@.len(),
            long_n > 0 ==> h11 == ih(b@, 11) && h11 + 2 * long_n <= b@.len(),
            starts@.len() == v4_total(b@),
            ends@.len() == v4_total(b@),
            vals@.len() == v4_total(b@),
            forall|i: int|
                0 <= i < v4_total(b@) ==> #[trigger] row3(starts@, ends@, vals@, i) == if ih(b@, 0) <= i < ih(b@, 0) + k {
                    (sec32(b@, 9, i - ih(b@, 0)), sec32(b@, 10, i - ih(b@, 0)), sec16(b@, 11, i - ih(b@, 0)))
                } else {
                    row3(s0, e0, v0, i)
                },
        decreases long_n - k,
    {
        let st = u32le(b, h9 + 4 * k);
        let en = u32le(b, h10 + 4 * k);
        let v = u16le(b, h11 + 2 * k);
        let ghost s1 = starts@;
        let ghost e1 = ends@;
        let ghost v1 = vals@;
        starts.set(cidr_n + k, st);
        ends.set(cidr_n + k, en);
        vals.set(cidr_n + k, v);
        proof {
            assert forall|i: int| 0 <= i < v4_total(b@) && i != cidr_n + k implies #[trigger] row3(starts@, ends@, vals@, i)
                == row3(s1, e1, v1, i) by {}
            assert(row3(starts@, ends@, vals@, cidr_n + k) == (
                sec32(b@, 9, k as int),
                sec32(b@, 10, k as int),
                sec16(b@, 11, k as int),
            ));
        }
        k = k + 1;
    }
}

/// The IPv6 table.
fn read_v6(b: &[u8], h: &Vec<u64>) -> (r: (Vec<u128>, Vec<u128>, Vec<u16>))
    requires
        h@.len() == 19,
        forall|k: int| 0 <= k < 19 ==> h@[k] == ih(b@, k),
        sec_fits(b@, 12, ih(b@, 2), 16),
        sec_fits(b@, 13, ih(b@, 2), 16),
        sec_fits(b@, 14, ih(b@, 2), 2),
    ensures
        r.0@.len() == ih(b@, 2),
        r.1@.len() == ih(b@, 2),
        r.2@.len() == ih(b@, 2),
        forall|i: int|
            0 <= i < ih(b@, 2) ==> (r.0@[i] as int, r.1@[i] as int, r.2@[i] as int) == raw_v6(b@)[i],
{
    let mut starts: Vec<u128> = Vec::new();
    let mut ends: Vec<u128> = Vec::new();
    let mut vals: Vec<u16> = Vec::new();
    if h[2] == 0 {
        return (starts, ends, vals);
    }
    let blen: usize = b.len();
    let n = h[2] as usize;
    let h12 = h[12] as usize;
    let h13 = h[13] as usize;
    let h14 = h[14] as usize;
    let mut i: usize = 0;
    while i < n
        invariant
            i <= n,
            blen == b@.len(),
            n == ih(b@, 2),
            h12 == ih(b@, 12) && h12 + 16 * n <= b@.len(),
            h13 == ih(b@, 13) && h13 + 16 * n <= b@.len(),
            h14 == ih(b@, 14) && h14 + 2 * n <= b@.len(),
            starts@.len() == i,
            ends@.len() == i,
            vals@.len() == i,
            forall|j: int|
                0 <= j < i ==> (starts@[j] as int, ends@[j] as int, vals@[j] as int) == raw_v6(b@)[j],
        decreases n - i,
    {
        starts.push(u128_le(b, h12 + 16 * i));
        ends.push(u128_le(b, h13 + 16 * i));
        vals.push(u16le(b, h14 + 2 * i));
        i = i + 1;
    }
    (starts, ends, vals)
}

/// The value table.
fn read_values(b: &[u8], h: &Vec<u64>) -> (r: Vec<(u32, u32, u32, u32)>)
    requires
        h@.len() == 19,
        forall|k: int| 0 <= k < 19 ==> h@[k] == ih(b@, k),
        sec_fits(b@, 15, ih(b@, 3), 16),
    ensures
        r@ == raw_values(b@),
{
    let mut out: Vec<(u32, u32, u32, u32)> = Vec::new();
    if h[3] == 0 {
        assert(out@ =~= raw_values(b@));
        return out;
    }
    let blen: usize = b.len();
    let n = h[3] as usize;
    let h15 = h[15] as usize;
    let mut i: usize = 0;
    while i < n
        invariant
            i <= n,
            blen == b@.len(),
            n == ih(b@, 3),
            h15 == ih(b@, 15) && h15 + 16 * n <= b@.len(),
            out@.len() == i,
            forall|j: int| 0 <= j < i ==> out@[j] == raw_values(b@)[j],
        decreases n - i,
    {
        let o = h15 + 16 * i;
        out.push((u32le(b, o), u32le(b, o + 4), u32le(b, o + 8), u32le(b, o + 12)));
        i = i + 1;
    }
    assert(out@ =~= raw_values(b@));
    out
}

/// The strings; `None` where one runs past the blob.
fn read_strings(b: &[u8], h: &Vec<u64>) -> (r: Option<Vec<String>>)
    requires
        h@.len() == 19,
        forall|k: int| 0 <= k < 19 ==> h@[k] == ih(b@, k),
        sec_fits(b@, 16, ih(b@, 4), 8),
    ensures
        r is None <==> exists|i: int| 0 <= i < ih(b@, 4) && #[trigger] str_end(b@, i) > b@.len(),
        r matches Some(v) ==> v@.map_values(|t: String| t@) == raw_strings(b@),
{
    let mut out: Vec<String> = Vec::new();
    let blen: usize = b.len();
    if h[4] == 0 {
        assert(out@.map_values(|t: String| t@) =~= raw_strings(b@));
        return Some(out);
    }
    let n = h[4] as usize;
    let h16 = h[16] as usize;
    let body = h[17] as u128;
    let len = b.len();
    let mut i: usize = 0;
    while i < n
        invariant
            i <= n,
            n == ih(b@, 4),
            len == b@.len(),
            body == ih(b@, 17),
            body < 0x1_0000_0000_0000_0000,
            h16 == ih(b@, 16) && h16 + 8 * n <= b@.len(),
            out@.len() == i,
            forall|j: int| 0 <= j < i ==> #[trigger] out@[j]@ == raw_strings(b@)[j],
            forall|j: int| 0 <= j < i ==> #[trigger] str_end(b@, j) <= b@.len(),
        decreases n - i,
    {
        let o = u32le(b, h16 + 8 * i) as u128;
        let l = u32le(b, h16 + 8 * i + 4) as u128;
        assert(o == sec32(b@, 16, 2 * i) && l == sec32(b@, 16, 2 * i + 1));
        if body + o + l > len as u128 {
            assert(str_end(b@, i as int) > b@.len());
            return None;
        }
        let lo = (body + o) as usize;
        let hi = (body + o + l) as usize;
        let t = lossy_string(&b[lo..hi]);
        out.push(t);
        i = i + 1;
    }
    assert(out@.map_values(|t: String| t@) =~= raw_strings(b@));
    Some(out)
}

// ---------------------------------------------------------------------------
// Flag counts, ordering and running maxima
// ---------------------------------------------------------------------------

/// The rows of three parallel tables.
pub open spec fn rows3(s: Seq<u32>, e: Seq<u32>, v: Seq<u16>) -> Seq<(int, int, int)> {
    Seq::new(s.len(), |i: int| row3(s, e, v, i))
}

/// The rows of three parallel IPv6 tables.
pub open spec fn rows6(s: Seq<u128>, e: Seq<u128>, v: Seq<u16>) -> Seq<(int, int, int)> {
    Seq::new(s.len(), |i: int| (s[i] as int, e[i] as int, v[i] as int))
}

/// Whether flag `f` is set in `bits`.
pub open spec fn has_flag(bits: u32, f: u32) -> bool {
    bits & (1u32 << f) != 0
}

/// How many rows carry a value with flag `f`.
pub open spec fn flag_count(rows: Seq<(int, int, int)>, values: Seq<(u32, u32, u32, u32)>, f: u32) -> nat
    decreases rows.len(),
{
    if rows.len() == 0 {
        0
    } else {
        flag_count(rows.drop_last(), values, f) + if has_flag(values[rows.last().2].0, f) {
            1nat
        } else {
            0nat
        }
    }
}

/// Counts, per flag, the rows whose value carries it; `None` where a row
/// names a value past the table.
fn count_flags(s: &Vec<u32>, e: &Vec<u32>, v: &Vec<u16>, values: &Vec<(u32, u32, u32, u32)>) -> (r: Option<
    Vec<u64>,
>)
    requires
        s@.len() == e@.len() == v@.len(),
    ensures
        r is None <==> exists|i: int| 0 <= i < v@.len() && #[trigger] v@[i] >= values@.len(),
        r matches Some(c) ==> c@.len() == 20 && forall|f: u32|
            f < 20 ==> #[trigger] c@[f as int] == flag_count(rows3(s@, e@, v@), values@, f),
{
    let n = v.len();
    let ghost rows = rows3(s@, e@, v@);
    let mut counts: Vec<u64> = Vec::new();
    let mut f: u32 = 0;
    while f < 20
        invariant
            f <= 20,
            counts@.len() == f,
            forall|g: int| 0 <= g < f ==> counts@[g] == 0,
        decreases 20 - f,
    {
        counts.push(0);
        f = f + 1;
    }
    let mut k: usize = 0;
    while k < n
        invariant
            k <= n == v@.len() == s@.len() == e@.len(),
            rows == rows3(s@, e@, v@),
            counts@.len() == 20,
            forall|g: u32| g < 20 ==> #[trigger] counts@[g as int] == flag_count(rows.take(k as int), values@, g),
            forall|g: int| 0 <= g < 20 ==> counts@[g] <= k,
            forall|i: int| 0 <= i < k ==> v@[i] < values@.len(),
        decreases n - k,
    {
        let vid = v[k] as usize;
        if vid >= values.len() {
            return None;
        }
        let bits = values[vid].0;
        proof {
            assert(rows.take(k + 1).drop_last() =~= rows.take(k as int));
            assert(rows.take(k + 1).last() == rows[k as int]);
        }
        let mut g: u32 = 0;
        while g < 20
            invariant
                g <= 20,
                k < n == v@.len() == s@.len() == e@.len(),
                rows == rows3(s@, e@, v@),
                vid == v@[k as int],
                vid < values@.len(),
                bits == values@[vid as int].0,
                counts@.len() == 20,
                rows.take(k + 1).drop_last() == rows.take(k as int),
                rows.take(k + 1).last() == rows[k as int],
                forall|h: u32|
                    h < 20 ==> #[trigger] counts@[h as int] == flag_count(
                        rows.take(if h < g { k + 1 } else { k as int }),
                        values@,
                        h,
                    ),
                forall|h: int| 0 <= h < 20 ==> counts@[h] <= k + 1,
                forall|h: int| g <= h < 20 ==> counts@[h] <= k,
            decreases 20 - g,
        {
            if bits & (1u32 << g) != 0 {
                let c = counts[g as usize];
                counts.set(g as usize, c + 1);
            }
            proof {
                assert(flag_count(rows.take(k + 1), values@, g) == flag_count(rows.take(k as int), values@, g)
                    + if has_flag(bits, g) { 1nat } else { 0nat });
            }
            g = g + 1;
        }
        k = k + 1;
    }
    proof {
        assert(rows.take(n as int) =~= rows);
    }
    Some(counts)
}

/// Whether `after` holds the rows of `before` rearranged by the positions
/// `p` so that starts ascend, rows with equal starts keeping their order.
pub open spec fn sorted_rows_of(after: Seq<(int, int, int)>, before: Seq<(int, int, int)>, p: Seq<int>) -> bool {
    &&& is_perm(p, before.len())
    &&& after.len() == before.len()
    &&& forall|a: int| 0 <= a < after.len() ==> #[trigger] after[a] == before[p[a]]
    &&& forall|a: int, b: int| 0 <= a < b < after.len() ==> after[a].0 <= after[b].0
    &&& forall|a: int, b: int| 0 <= a < b < after.len() && after[a].0 == after[b].0 ==> p[a] < p[b]
}

/// The rows ordered by start, rows with equal starts keeping their order.
fn sort_rows(s: &Vec<u32>, e: &Vec<u32>, v: &Vec<u16>) -> (r: (Vec<u32>, Vec<u32>, Vec<u16>))
    requires
        s@.len() == e@.len() == v@.len(),
    ensures
        r.0@.len() == r.1@.len() == r.2@.len() == s@.len(),
        exists|p: Seq<int>| #[trigger] sorted_rows_of(rows3(r.0@, r.1@, r.2@), rows3(s@, e@, v@), p),
{
    let n = s.len();
    let mut pairs: Vec<(u64, usize)> = Vec::new();
    let mut k: usize = 0;
    while k < n
        invariant
            k <= n == s@.len(),
            pairs@.len() == k,
            forall|i: int| 0 <= i < k ==> #[trigger] pairs@[i] == (s@[i] as u64, i as usize),
        decreases n - k,
    {
        pairs.push((s[k] as u64, k));
        k = k + 1;
    }
    let ghost before = pairs@;
    sort_by_first(&mut pairs);
    let ghost p = choose|p: Seq<int>| stably_sorted_by(before, pairs@, p);
    assert(stably_sorted_by(before, pairs@, p));
    let mut out_s: Vec<u32> = Vec::new();
    let mut out_e: Vec<u32> = Vec::new();
    let mut out_v: Vec<u16> = Vec::new();
    let mut a: usize = 0;
    while a < n
        invariant
            a <= n == s@.len() == e@.len() == v@.len(),
            stably_sorted_by(before, pairs@, p),
            before.len() == n,
            forall|i: int| 0 <= i < n ==> #[trigger] before[i] == (s@[i] as u64, i as usize),
            out_s@.len() == a,
            out_e@.len() == a,
            out_v@.len() == a,
            forall|c: int|
                0 <= c < a ==> #[trigger] row3(out_s@, out_e@, out_v@, c) == row3(s@, e@, v@, p[c]),
        decreases n - a,
    {
        let idx = pairs[a].1;
        proof {
            assert(pairs@[a as int] == before[p[a as int]]);
            assert(0 <= p[a as int] < n);
            assert(idx as int == p[a as int]);
        }
        let ghost s0 = out_s@;
        let ghost e0 = out_e@;
        let ghost v0 = out_v@;
        out_s.push(s[idx]);
        out_e.push(e[idx]);
        out_v.push(v[idx]);
        proof {
            assert forall|c: int| 0 <= c < a + 1 implies #[trigger] row3(out_s@, out_e@, out_v@, c) == row3(
                s@,
                e@,
                v@,
                p[c],
            ) by {
                if c < a {
                    assert(row3(out_s@, out_e@, out_v@, c) == row3(s0, e0, v0, c));
                }
            }
        }
        a = a + 1;
    }
    proof {
        let after = rows3(out_s@, out_e@, out_v@);
        let orig = rows3(s@, e@, v@);
        assert forall|c: int| 0 <= c < n implies #[trigger] after[c] == orig[p[c]] by {
            assert(row3(out_s@, out_e@, out_v@, c) == row3(s@, e@, v@, p[c]));
        }
        assert forall|c: int, d: int| 0 <= c < d < n implies after[c].0 <= after[d].0 by {
            assert(pairs@[c] == before[p[c]]);
            assert(pairs@[d] == before[p[d]]);
        }
        assert forall|c: int, d: int| 0 <= c < d < n && after[c].0 == after[d].0 implies p[c] < p[d] by {
            assert(pairs@[c] == before[p[c]]);
            assert(pairs@[d] == before[p[d]]);
        }
        assert(sorted_rows_of(after, orig, p));
    }
    let r = (out_s, out_e, out_v);
    assert(sorted_rows_of(rows3(r.0@, r.1@, r.2@), rows3(s@, e@, v@), p));
    r
}

/// The running maximum of `s` up to position `i`, starting from zero.
pub open spec fn prefix_max(s: Seq<int>, i: int) -> int
    decreases i + 1,
{
    if i < 0 {
        0
    } else {
        let m = prefix_max(s, i - 1);
        if s[i] > m {
            s[i]
        } else {
            m
        }
    }
}

/// The running maximum of the 32-bit ends, starting from zero.
pub fn max_prefix_u32(values: &Vec<u32>) -> (r: Vec<u32>)
    ensures
        r@.len() == values@.len(),
        forall|i: int|
            0 <= i < values@.len() ==> #[trigger] r@[i] as int == prefix_max(
                values@.map_values(|x: u32| x as int),
                i,
            ),
{
    let ghost vs = values@.map_values(|x: u32| x as int);
    let mut out: Vec<u32> = Vec::new();
    let mut max: u32 = 0;
    let mut i: usize = 0;
    while i < values.len()
        invariant
            i <= values@.len(),
            vs == values@.map_values(|x: u32| x as int),
            out@.len() == i,
            max == prefix_max(vs, i - 1),
            forall|j: int| 0 <= j < i ==> #[trigger] out@[j] as int == prefix_max(vs, j),
        decreases values@.len() - i,
    {
        if values[i] > max {
            max = values[i];
        }
        out.push(max);
        i = i + 1;
    }
    out
}

/// The running maximum of the 128-bit ends, starting from zero.
pub fn max_prefix_u128(values: &Vec<u128>) -> (r: Vec<u128>)
    ensures
        r@.len() == values@.len(),
        forall|i: int|
            0 <= i < values@.len() ==> #[trigger] r@[i] as int == prefix_max(
                values@.map_values(|x: u128| x as int),
                i,
            ),
{
    let ghost vs = values@.map_values(|x: u128| x as int);
    let mut out: Vec<u128> = Vec::new();
    let mut max: u128 = 0;
    let mut i: usize = 0;
    while i < values.len()
        invariant
            i <= values@.len(),
            vs == values@.map_values(|x: u128| x as int),
            out@.len() == i,
            max == prefix_max(vs, i - 1),
            forall|j: int| 0 <= j < i ==> #[trigger] out@[j] as int == prefix_max(vs, j),
        decreases values@.len() - i,
    {
        if values[i] > max {
            max = values[i];
        }
        out.push(max);
        i = i + 1;
    }
    out
}

// ---------------------------------------------------------------------------
// The database
// ---------------------------------------------------------------------------

/// IPBlocklist intel database.
pub struct Intel {
    v4_starts: Vec<u32>,
    v4_ends: Vec<u32>,
    v4_max_end: Vec<u32>,
    v4_vals: Vec<u16>,
    v6_starts: Vec<u128>,
    v6_ends: Vec<u128>,
    v6_max_end: Vec<u128>,
    v6_vals: Vec<u16>,
    value_table: Vec<(u32, u32, u32, u32)>,
    strings: Vec<String>,
    flag_counts: Vec<u64>,
}

impl Intel {
    /// The IPv4 rows (start, end, value id), ordered by start.
    pub closed spec fn v4_rows(&self) -> Seq<(int, int, int)> {
        rows3(self.v4_starts@, self.v4_ends@, self.v4_vals@)
    }

    /// The IPv6 rows (start, end, value id).
    pub closed spec fn v6_rows(&self) -> Seq<(int, int, int)> {
        rows6(self.v6_starts@, self.v6_ends@, self.v6_vals@)
    }

    /// The value table.
    pub closed spec fn values(&self) -> Seq<(u32, u32, u32, u32)> {
        self.value_table@
    }

    /// The strings.
    pub closed spec fn texts(&self) -> Seq<Seq<char>> {
        self.strings@.map_values(|t: String| t@)
    }

    /// Per flag, how many IPv4 rows carry it.
    pub closed spec fn counts(&self) -> Seq<u64> {
        self.flag_counts@
    }

    /// Whether this database is what the blob `b` holds: the IPv4 rows in
    /// file order sorted by start, rows with equal starts keeping their
    /// order, and the other tables as they are.
    pub open spec fn parsed_from(&self, b: Seq<u8>) -> bool {
        &&& exists|p: Seq<int>| #[trigger] sorted_rows_of(self.v4_rows(), raw_v4(b), p)
        &&& self.v6_rows() == raw_v6(b)
        &&& self.values() == raw_values(b)
        &&& self.texts() == raw_strings(b)
        &&& self.counts().len() == 20
        &&& forall|f: u32| f < 20 ==> #[trigger] self.counts()[f as int] == flag_count(raw_v4(b), raw_values(b), f)
    }

    #[verifier::type_invariant]
    closed spec fn inv(&self) -> bool {
        let n4 = self.v4_starts@.len();
        let n6 = self.v6_starts@.len();
        &&& self.v4_ends@.len() == n4
        &&& self.v4_max_end@.len() == n4
        &&& self.v4_vals@.len() == n4
        &&& self.v6_ends@.len() == n6
        &&& self.v6_max_end@.len() == n6
        &&& self.v6_vals@.len() == n6
        &&& self.flag_counts@.len() == 20
        &&& forall|a: int, c: int| 0 <= a <= c < n4 ==> self.v4_starts@[a] <= self.v4_starts@[c]
        &&& forall|i: int|
            0 <= i < n4 ==> #[trigger] self.v4_max_end@[i] as int == prefix_max(
                self.v4_ends@.map_values(|x: u32| x as int),
                i,
            )
        &&& forall|i: int|
            0 <= i < n6 ==> #[trigger] self.v6_max_end@[i] as int == prefix_max(
                self.v6_ends@.map_values(|x: u128| x as int),
                i,
            )
        &&& forall|i: int| 0 <= i < n4 ==> #[trigger] self.v4_vals@[i] < self.value_table@.len()
    }

    /// Parses the blob after its header; `None` where parsing is not
    /// defined.
    fn parse_body(b: &[u8]) -> (r: Option<Intel>)
        requires
            intel_header_ok(b@),
        ensures
            r is None <==> !intel_defined(b@),
            r matches Some(db) ==> db.parsed_from(b@),
    {
        let blen: usize = b.len();
        let len = blen as u128;
        let h = read_header(b);
        let h5 = h[5] as u128;
        if h5 + 4 * 65537 > len {
            return None;
        }
        if h[0] as u128 + h[1] as u128 > usize::MAX as u128 {
            return None;
        }
        let total = (h[0] + h[1]) as usize;
        let bounds = crate::wire::read_u32_array(b, h5 as usize, 65537);
        let (mut starts, mut ends, mut vals) = match fill_buckets(b, &h, &bounds, total) {
            None => return None,
            Some(t) => t,
        };
        let long_n = h[1] as u128;
        if long_n > 0 && (h[9] as u128 + 4 * long_n > len || h[10] as u128 + 4 * long_n > len || h[11] as u128
            + 2 * long_n > len) {
            return None;
        }
        let ghost s0 = starts@;
        let ghost e0 = ends@;
        let ghost v0 = vals@;
        fill_long(b, &h, &mut starts, &mut ends, &mut vals);
        proof {
            assert forall|i: int| 0 <= i < total implies #[trigger] row3(starts@, ends@, vals@, i) == raw_v4_row(b@, i) by {
                if i < ih(b@, 0) {
                    assert(row3(s0, e0, v0, i) == row_after(b@, i, 65536));
                }
            }
            assert(rows3(starts@, ends@, vals@) =~= raw_v4(b@));
        }
        let v6_n = h[2] as u128;
        if v6_n > 0 && (h[12] as u128 + 16 * v6_n > len || h[13] as u128 + 16 * v6_n > len || h[14] as u128
            + 2 * v6_n > len) {
            return None;
        }
        let (v6_starts, v6_ends, v6_vals) = read_v6(b, &h);
        let val_n = h[3] as u128;
        if val_n > 0 && h[15] as u128 + 16 * val_n > len {
            return None;
        }
        let value_table = read_values(b, &h);
        let str_n = h[4] as u128;
        if str_n > 0 && h[16] as u128 + 8 * str_n > len {
            return None;
        }
        let strings = match read_strings(b, &h) {
            None => return None,
            Some(t) => t,
        };
        let flag_counts = match count_flags(&starts, &ends, &vals, &value_table) {
            None => {
                proof {
                    let i = choose|i: int| 0 <= i < vals@.len() && #[trigger] vals@[i] >= value_table@.len();
                    assert(value_table@.len() == ih(b@, 3));
                    assert(row3(starts@, ends@, vals@, i) == raw_v4_row(b@, i));
                    assert(raw_v4_row(b@, i).2 >= ih(b@, 3));
                }
                return None;
            },
            Some(c) => c,
        };
        proof {
            assert forall|i: int| 0 <= i < v4_total(b@) implies #[trigger] raw_v4_row(b@, i).2 < ih(b@, 3) by {
                assert(row3(starts@, ends@, vals@, i) == raw_v4_row(b@, i));
                if !(vals@[i] < value_table@.len()) {
                    assert(exists|j: int| 0 <= j < vals@.len() && #[trigger] vals@[j] >= value_table@.len());
                }
            }
        }
        let (v4_starts, v4_ends, v4_vals) = sort_rows(&starts, &ends, &vals);
        let v4_max_end = max_prefix_u32(&v4_ends);
        let v6_max_end = max_prefix_u128(&v6_ends);
        let ghost p = choose|p: Seq<int>| #[trigger] sorted_rows_of(rows3(v4_starts@, v4_ends@, v4_vals@), rows3(starts@, ends@, vals@), p);
        proof {
            let after = rows3(v4_starts@, v4_ends@, v4_vals@);
            let before = rows3(starts@, ends@, vals@);
            assert forall|a: int, c: int| 0 <= a <= c < total implies v4_starts@[a] <= v4_starts@[c] by {
                if a < c {
                    assert(after[a].0 <= after[c].0);
                }
            }
            assert forall|a: int| 0 <= a < total implies #[trigger] v4_vals@[a] < value_table@.len() by {
                assert(after[a] == before[p[a]]);
                assert(row3(starts@, ends@, vals@, p[a]) == before[p[a]]);
            }
            assert(rows6(v6_starts@, v6_ends@, v6_vals@) =~= raw_v6(b@));
        }
        let db = Intel {
            v4_starts,
            v4_ends,
            v4_max_end,
            v4_vals,
            v6_starts,
            v6_ends,
            v6_max_end,
            v6_vals,
            value_table,
            strings,
            flag_counts,
        };
        assert(sorted_rows_of(db.v4_rows(), raw_v4(b@), p));
        assert(db.texts() == raw_strings(b@));
        assert(db.values() == raw_values(b@));
        assert(db.v6_rows() == raw_v6(b@));
        Some(db)
    }

    /// Whether parsing the blob is defined: it reads nothing past its end,
    /// overflows no row and names no value past the value table.
    pub fn parse_defined(bytes: &Vec<u8>) -> (r: bool)
        ensures
            r == intel_defined(bytes@),
    {
        if bytes.len() < 160 || u32le(bytes.as_slice(), 0) != 6 {
            return true;
        }
        Self::parse_body(bytes.as_slice()).is_some()
    }

    /// Parses an `intel.bin` blob.
    pub fn parse(bytes: Vec<u8>) -> (r: Result<Intel, DbError>)
        requires
            intel_defined(bytes@),
        ensures
            r is Err <==> !intel_header_ok(bytes@),
            r matches Err(e) ==> e == DbError::BadIntel,
            r matches Ok(db) ==> db.parsed_from(bytes@),
    {
        if bytes.len() < 160 || u32le(bytes.as_slice(), 0) != 6 {
            return Err(DbError::BadIntel);
        }
        match Self::parse_body(bytes.as_slice()) {
            Some(db) => Ok(db),
            None => Err(DbError::BadIntel),
        }
    }
}

// ---------------------------------------------------------------------------
// Lookups
// ---------------------------------------------------------------------------

/// The flag names, by bit.
pub open spec fn flag_names() -> Seq<&'static str> {
    seq![
        "vpn",
        "proxy",
        "tor",
        "malware",
        "c2",
        "scanner",
        "brute_force",
        "spammer",
        "compromised",
        "datacenter",
        "cdn",
        "anycast",
        "crawler",
        "bot",
        "cloud",
        "private_relay",
        "anonymizer",
        "mobile",
        "isp",
        "government",
    ]
}

/// The name of flag `i`.
pub fn flag_name(i: u32) -> (r: &'static str)
    requires
        i < 20,
    ensures
        r@ == flag_names()[i as int]@,
{
    match i {
        0 => "vpn",
        1 => "proxy",
        2 => "tor",
        3 => "malware",
        4 => "c2",
        5 => "scanner",
        6 => "brute_force",
        7 => "spammer",
        8 => "compromised",
        9 => "datacenter",
        10 => "cdn",
        11 => "anycast",
        12 => "crawler",
        13 => "bot",
        14 => "cloud",
        15 => "private_relay",
        16 => "anonymizer",
        17 => "mobile",
        18 => "isp",
        _ => "government",
    }
}

/// The names of the flags below `n` that `bits` sets, in flag order.
pub open spec fn flags_set(bits: u32, n: int) -> Seq<Seq<char>>
    decreases n,
{
    if n <= 0 {
        seq![]
    } else {
        flags_set(bits, n - 1) + if has_flag(bits, (n - 1) as u32) {
            seq![flag_names()[n - 1]@]
        } else {
            seq![]
        }
    }
}

/// The rows below `i` that contain `ip`, from the last down.
pub open spec fn hits_below(rows: Seq<(int, int, int)>, ip: int, i: int) -> Seq<int>
    decreases i,
{
    if i <= 0 {
        seq![]
    } else {
        let rest = hits_below(rows, ip, i - 1);
        if rows[i - 1].0 <= ip <= rows[i - 1].1 {
            seq![i - 1] + rest
        } else {
            rest
        }
    }
}

/// The positions of the rows that contain `ip`, from the last down.
pub open spec fn hits(rows: Seq<(int, int, int)>, ip: int) -> Seq<int> {
    hits_below(rows, ip, rows.len() as int)
}

/// The hits below `i` are positions below `i`, strictly descending.
proof fn lemma_hits_range(rows: Seq<(int, int, int)>, ip: int, i: int)
    requires
        0 <= i,
    ensures
        forall|k: int|
            0 <= k < hits_below(rows, ip, i).len() ==> 0 <= #[trigger] hits_below(rows, ip, i)[k] < i,
        forall|a: int, c: int|
            0 <= a < c < hits_below(rows, ip, i).len() ==> hits_below(rows, ip, i)[a] > hits_below(
                rows,
                ip,
                i,
            )[c],
    decreases i,
{
    if i > 0 {
        lemma_hits_range(rows, ip, i - 1);
        let rest = hits_below(rows, ip, i - 1);
        if rows[i - 1].0 <= ip <= rows[i - 1].1 {
            let h = seq![i - 1] + rest;
            assert(hits_below(rows, ip, i) == h);
            assert forall|k: int| 0 <= k < h.len() implies 0 <= #[trigger] h[k] < i by {
                if k > 0 {
                    assert(h[k] == rest[k - 1]);
                }
            }
            assert forall|a: int, c: int| 0 <= a < c < h.len() implies h[a] > h[c] by {
                assert(h[c] == rest[c - 1]);
                if a > 0 {
                    assert(h[a] == rest[a - 1]);
                }
            }
        }
    }
}

/// Rows that start past `ip` add no hit.
proof fn lemma_hits_past(rows: Seq<(int, int, int)>, ip: int, p: int, i: int)
    requires
        0 <= p <= i <= rows.len(),
        forall|k: int| p <= k < rows.len() ==> rows[k].0 > ip,
    ensures
        hits_below(rows, ip, i) == hits_below(rows, ip, p),
    decreases i,
{
    if i > p {
        lemma_hits_past(rows, ip, p, i - 1);
    }
}

/// Rows that all end before `ip` hold no hit.
proof fn lemma_hits_none(rows: Seq<(int, int, int)>, ip: int, i: int)
    requires
        0 <= i <= rows.len(),
        forall|k: int| 0 <= k < i ==> rows[k].1 < ip,
    ensures
        hits_below(rows, ip, i) == Seq::<int>::empty(),
    decreases i,
{
    if i > 0 {
        lemma_hits_none(rows, ip, i - 1);
    }
}

/// The running maximum bounds every element up to it.
proof fn lemma_prefix_max_bounds(s: Seq<int>, j: int, k: int)
    requires
        0 <= k <= j < s.len(),
    ensures
        s[k] <= prefix_max(s, j),
    decreases j,
{
    if k < j {
        lemma_prefix_max_bounds(s, j - 1, k);
    }
}

/// Whether IPv6 starts ascend, as a lookup over them needs.
pub open spec fn v6_ascending(rows: Seq<(int, int, int)>) -> bool {
    forall|a: int, c: int| 0 <= a <= c < rows.len() ==> rows[a].0 <= rows[c].0
}

/// A single matching range from one source.
pub struct IntelMatch {
    /// Source feed identifier.
    pub source: String,
    /// Provider name.
    pub provider: String,
    /// First and last address of the range.
    pub range: (IpAddress, IpAddress),
    /// The flag bits of the range.
    pub bits: u32,
    /// Names of the flags set on this range, in flag order.
    pub flags: Vec<&'static str>,
}

/// What a match says: its texts, range, bits and flag names.
pub struct MatchView {
    pub source: Seq<char>,
    pub provider: Seq<char>,
    pub range: (IpAddress, IpAddress),
    pub bits: u32,
    pub flags: Seq<Seq<char>>,
}

/// What each of a sequence of matches says.
pub open spec fn views(ms: Seq<IntelMatch>) -> Seq<MatchView> {
    ms.map_values(|m: IntelMatch| m@)
}

impl View for IntelMatch {
    type V = MatchView;

    open spec fn view(&self) -> MatchView {
        MatchView {
            source: self.source@,
            provider: self.provider@,
            range: self.range,
            bits: self.bits,
            flags: self.flags@.map_values(|t: &'static str| t@),
        }
    }
}

impl Intel {
    /// What the match for `row` says, `v6` telling its family: its range,
    /// and the flags, provider and source of its value.
    pub open spec fn match_view_of(&self, row: (int, int, int), v6: bool) -> MatchView {
        let value = self.values()[row.2];
        MatchView {
            source: self.texts()[value.2 as int],
            provider: self.texts()[value.1 as int],
            range: if v6 {
                (IpAddress::V6(row.0 as u128), IpAddress::V6(row.1 as u128))
            } else {
                (IpAddress::V4(row.0 as u32), IpAddress::V4(row.1 as u32))
            },
            bits: value.0,
            flags: flags_set(value.0, 20),
        }
    }

    /// Whether the value of `row` and its strings exist.
    pub open spec fn row_readable(&self, row: (int, int, int)) -> bool {
        &&& 0 <= row.2 < self.values().len()
        &&& self.values()[row.2].1 < self.texts().len()
        &&& self.values()[row.2].2 < self.texts().len()
    }

    /// Whether the IPv6 starts ascend.
    pub fn tables_ascending(&self) -> (r: bool)
        ensures
            r == v6_ascending(self.v6_rows()),
    {
        proof {
            use_type_invariant(self);
        }
        let n = self.v6_starts.len();
        if n == 0 {
            return true;
        }
        let mut i: usize = 1;
        while i < n
            invariant
                1 <= i <= n == self.v6_starts@.len(),
                self.v6_rows().len() == n,
                forall|a: int, c: int| 0 <= a <= c < i ==> self.v6_rows()[a].0 <= self.v6_rows()[c].0,
            decreases n - i,
        {
            if self.v6_starts[i - 1] > self.v6_starts[i] {
                assert(self.v6_rows()[i - 1].0 > self.v6_rows()[i as int].0);
                return false;
            }
            proof {
                assert forall|a: int, c: int| 0 <= a <= c < i + 1 implies self.v6_rows()[a].0 <= self.v6_rows()[c].0 by {
                    if c == i && a < c {
                        assert(self.v6_rows()[a].0 <= self.v6_rows()[i - 1].0);
                    }
                }
            }
            i = i + 1;
        }
        true
    }

    /// Positions of the IPv4 rows that contain `ip`, from the last down.
    fn collect_v4(&self, ip: u32) -> (r: Vec<usize>)
        ensures
            r@.map_values(|k: usize| k as int) == hits(self.v4_rows(), ip as int),
    {
        proof {
            use_type_invariant(self);
        }
        let ghost rows = self.v4_rows();
        let ghost ends = self.v4_ends@.map_values(|x: u32| x as int);
        let ghost starts = self.v4_starts@.map_values(|x: u32| x as int);
        let mut i = crate::search::partition_point_u32(self.v4_starts.as_slice(), ip);
        proof {
            assert(crate::search::ascending(starts));
            crate::search::lemma_upper_bound_splits(starts, ip as int);
            lemma_hits_past(rows, ip as int, i as int, rows.len() as int);
        }
        let mut out: Vec<usize> = Vec::new();
        while i > 0
            invariant
                i <= rows.len(),
                rows == self.v4_rows(),
                rows.len() == self.v4_max_end@.len() == self.v4_ends@.len(),
                ends == self.v4_ends@.map_values(|x: u32| x as int),
                forall|k: int| 0 <= k < rows.len() ==> #[trigger] rows[k].1 == ends[k],
                forall|k: int|
                    0 <= k < rows.len() ==> #[trigger] self.v4_max_end@[k] as int == prefix_max(ends, k),
                forall|k: int| 0 <= k < i ==> #[trigger] rows[k].0 <= ip,
                out@.map_values(|k: usize| k as int) + hits_below(rows, ip as int, i as int) == hits(rows, ip as int),
            decreases i,
        {
            i = i - 1;
            if self.v4_max_end[i] < ip {
                proof {
                    assert forall|k: int| 0 <= k < i + 1 implies rows[k].1 < ip by {
                        lemma_prefix_max_bounds(ends, i as int, k);
                    }
                    lemma_hits_none(rows, ip as int, i + 1);
                    assert(out@.map_values(|k: usize| k as int) =~= hits(rows, ip as int));
                }
                return out;
            }
            let ghost before = out@.map_values(|k: usize| k as int);
            if self.v4_ends[i] >= ip {
                out.push(i);
                proof {
                    assert(out@.map_values(|k: usize| k as int) =~= before.push(i as int));
                    assert(before.push(i as int) + hits_below(rows, ip as int, i as int) =~= before + hits_below(
                        rows,
                        ip as int,
                        i + 1,
                    ));
                }
            }
        }
        proof {
            assert(out@.map_values(|k: usize| k as int) =~= hits(rows, ip as int));
        }
        out
    }

    /// Positions of the IPv6 rows that contain `ip`, from the last down.
    fn collect_v6(&self, ip: u128) -> (r: Vec<usize>)
        requires
            v6_ascending(self.v6_rows()),
        ensures
            r@.map_values(|k: usize| k as int) == hits(self.v6_rows(), ip as int),
    {
        proof {
            use_type_invariant(self);
        }
        let ghost rows = self.v6_rows();
        let ghost ends = self.v6_ends@.map_values(|x: u128| x as int);
        let ghost starts = self.v6_starts@.map_values(|x: u128| x as int);
        let mut i = crate::search::partition_point_u128(self.v6_starts.as_slice(), ip);
        proof {
            assert(crate::search::ascending(starts)) by {
                assert forall|a: int, c: int| 0 <= a <= c < starts.len() implies starts[a] <= starts[c] by {
                    assert(rows[a].0 <= rows[c].0);
                }
            }
            crate::search::lemma_upper_bound_splits(starts, ip as int);
            assert forall|k: int| i <= k < rows.len() implies rows[k].0 > ip by {
                assert(starts[k] > ip);
            }
            lemma_hits_past(rows, ip as int, i as int, rows.len() as int);
        }
        let mut out: Vec<usize> = Vec::new();
        while i > 0
            invariant
                i <= rows.len(),
                rows == self.v6_rows(),
                rows.len() == self.v6_max_end@.len() == self.v6_ends@.len(),
                ends == self.v6_ends@.map_values(|x: u128| x as int),
                forall|k: int| 0 <= k < rows.len() ==> #[trigger] rows[k].1 == ends[k],
                forall|k: int|
                    0 <= k < rows.len() ==> #[trigger] self.v6_max_end@[k] as int == prefix_max(ends, k),
                forall|k: int| 0 <= k < i ==> #[trigger] rows[k].0 <= ip,
                out@.map_values(|k: usize| k as int) + hits_below(rows, ip as int, i as int) == hits(rows, ip as int),
            decreases i,
        {
            i = i - 1;
            if self.v6_max_end[i] < ip {
                proof {
                    assert forall|k: int| 0 <= k < i + 1 implies rows[k].1 < ip by {
                        lemma_prefix_max_bounds(ends, i as int, k);
                    }
                    lemma_hits_none(rows, ip as int, i + 1);
                    assert(out@.map_values(|k: usize| k as int) =~= hits(rows, ip as int));
                }
                return out;
            }
            let ghost before = out@.map_values(|k: usize| k as int);
            if self.v6_ends[i] >= ip {
                out.push(i);
                proof {
                    assert(out@.map_values(|k: usize| k as int) =~= before.push(i as int));
                    assert(before.push(i as int) + hits_below(rows, ip as int, i as int) =~= before + hits_below(
                        rows,
                        ip as int,
                        i + 1,
                    ));
                }
            }
        }
        proof {
            assert(out@.map_values(|k: usize| k as int) =~= hits(rows, ip as int));
        }
        out
    }
}

/// The address as a number.
pub open spec fn ip_value(ip: IpAddress) -> int {
    match ip {
        IpAddress::V4(a) => a as int,
        IpAddress::V6(a) => a as int,
    }
}

impl Intel {
    /// The table that holds addresses of the family of `ip`.
    pub open spec fn table_of(&self, ip: IpAddress) -> Seq<(int, int, int)> {
        match ip {
            IpAddress::V4(_) => self.v4_rows(),
            IpAddress::V6(_) => self.v6_rows(),
        }
    }

    /// The positions of the rows that contain `ip`, from the last down.
    pub open spec fn hits_of(&self, ip: IpAddress) -> Seq<int> {
        hits(self.table_of(ip), ip_value(ip))
    }

    /// Whether every row that contains `ip` has its value and strings.
    pub open spec fn matches_defined(&self, ip: IpAddress) -> bool {
        forall|k: int|
            0 <= k < self.hits_of(ip).len() ==> #[trigger] self.row_readable(
                self.table_of(ip)[self.hits_of(ip)[k]],
            )
    }

    /// Whether a lookup of `ip` can run: IPv6 starts ascend where `ip` is
    /// IPv6.
    pub open spec fn search_ready(&self, ip: IpAddress) -> bool {
        ip is V6 ==> v6_ascending(self.v6_rows())
    }

    /// The match for a row with value `vid` and the given range.
    fn make_match(&self, vid: u16, range: (IpAddress, IpAddress)) -> (m: IntelMatch)
        requires
            (vid as int) < self.values().len(),
            self.values()[vid as int].1 < self.texts().len(),
            self.values()[vid as int].2 < self.texts().len(),
        ensures
            m@.range == range,
            m@.bits == self.values()[vid as int].0,
            m@.flags == flags_set(self.values()[vid as int].0, 20),
            m@.provider == self.texts()[self.values()[vid as int].1 as int],
            m@.source == self.texts()[self.values()[vid as int].2 as int],
    {
        let entry = self.value_table[vid as usize];
        let bits = entry.0;
        let mut flags: Vec<&'static str> = Vec::new();
        let mut i: u32 = 0;
        while i < 20
            invariant
                i <= 20,
                flags@.map_values(|t: &'static str| t@) == flags_set(bits, i as int),
            decreases 20 - i,
        {
            if bits & (1u32 << i) != 0 {
                let ghost before = flags@.map_values(|t: &'static str| t@);
                let name = flag_name(i);
                flags.push(name);
                assert(flags@.map_values(|t: &'static str| t@) =~= before.push(name@));
            } else {
                assert(flags_set(bits, i + 1) =~= flags_set(bits, i as int));
            }
            i = i + 1;
        }
        IntelMatch {
            source: self.strings[entry.2 as usize].clone(),
            provider: self.strings[entry.1 as usize].clone(),
            range,
            bits,
            flags,
        }
    }

    /// Whether every row that contains `ip` has its value and strings:
    /// where this is false, the matches of `ip` are not defined.
    pub fn matches_ok(&self, ip: IpAddress) -> (r: bool)
        requires
            self.search_ready(ip),
        ensures
            r == self.matches_defined(ip),
    {
        proof {
            use_type_invariant(self);
        }
        let found = match ip {
            IpAddress::V4(a) => self.collect_v4(a),
            IpAddress::V6(a) => self.collect_v6(a),
        };
        let ghost table = self.table_of(ip);
        let ghost hs = self.hits_of(ip);
        assert(found@.map_values(|k: usize| k as int) == hs);
        proof {
            lemma_hits_range(table, ip_value(ip), table.len() as int);
        }
        let mut i: usize = 0;
        while i < found.len()
            invariant
                i <= found@.len() == hs.len(),
                table == self.table_of(ip),
                hs == self.hits_of(ip),
                found@.map_values(|k: usize| k as int) == hs,
                forall|k: int| 0 <= k < hs.len() ==> 0 <= #[trigger] hs[k] < table.len(),
                table.len() == match ip {
                    IpAddress::V4(_) => self.v4_vals@.len(),
                    IpAddress::V6(_) => self.v6_vals@.len(),
                },
                forall|k: int| 0 <= k < i ==> #[trigger] self.row_readable(table[hs[k]]),
            decreases found@.len() - i,
        {
            let row = found[i];
            assert(hs[i as int] == row as int);
            let vid = match ip {
                IpAddress::V4(_) => self.v4_vals[row],
                IpAddress::V6(_) => self.v6_vals[row],
            };
            assert(table[row as int].2 == vid as int);
            if vid as usize >= self.value_table.len() {
                assert(!self.row_readable(table[hs[i as int]]));
                return false;
            }
            let entry = self.value_table[vid as usize];
            if entry.1 as usize >= self.strings.len() || entry.2 as usize >= self.strings.len() {
                assert(!self.row_readable(table[hs[i as int]]));
                return false;
            }
            i = i + 1;
        }
        true
    }

    /// What the matches of `ip` say, from the last matching row down.
    pub open spec fn expected_matches(&self, ip: IpAddress) -> Seq<MatchView> {
        Seq::new(
            self.hits_of(ip).len(),
            |k: int| self.match_view_of(self.table_of(ip)[self.hits_of(ip)[k]], ip is V6),
        )
    }

    /// The matches for `ip`, from the last matching row down: for each row
    /// that contains `ip`, its range and the flags, provider and source of
    /// its value.
    pub fn matches(&self, ip: IpAddress) -> (r: Vec<IntelMatch>)
        requires
            self.search_ready(ip),
            self.matches_defined(ip),
        ensures
            views(r@) == self.expected_matches(ip),
    {
        proof {
            use_type_invariant(self);
        }
        let found = match ip {
            IpAddress::V4(a) => self.collect_v4(a),
            IpAddress::V6(a) => self.collect_v6(a),
        };
        let ghost table = self.table_of(ip);
        let ghost hs = self.hits_of(ip);
        proof {
            lemma_hits_range(table, ip_value(ip), table.len() as int);
        }
        let mut out: Vec<IntelMatch> = Vec::new();
        let mut i: usize = 0;
        while i < found.len()
            invariant
                i <= found@.len() == hs.len(),
                table == self.table_of(ip),
                hs == self.hits_of(ip),
                self.matches_defined(ip),
                found@.map_values(|k: usize| k as int) == hs,
                table.len() == match ip {
                    IpAddress::V4(_) => self.v4_vals@.len(),
                    IpAddress::V6(_) => self.v6_vals@.len(),
                },
                self.v4_rows().len() == self.v4_vals@.len(),
                self.v6_rows().len() == self.v6_vals@.len(),
                self.v4_ends@.len() == self.v4_vals@.len() == self.v4_starts@.len(),
                self.v6_ends@.len() == self.v6_vals@.len() == self.v6_starts@.len(),
                forall|k: int| 0 <= k < hs.len() ==> 0 <= #[trigger] hs[k] < table.len(),
                out@.len() == i,
                forall|k: int| 0 <= k < i ==> #[trigger] out@[k]@ == self.match_view_of(table[hs[k]], ip is V6),
            decreases found@.len() - i,
        {
            let row = found[i];
            assert(hs[i as int] == row as int);
            assert(self.row_readable(table[hs[i as int]]));
            let m = match ip {
                IpAddress::V4(_) => self.make_match(
                    self.v4_vals[row],
                    (IpAddress::V4(self.v4_starts[row]), IpAddress::V4(self.v4_ends[row])),
                ),
                IpAddress::V6(_) => self.make_match(
                    self.v6_vals[row],
                    (IpAddress::V6(self.v6_starts[row]), IpAddress::V6(self.v6_ends[row])),
                ),
            };
            out.push(m);
            i = i + 1;
        }
        assert(views(out@) =~= self.expected_matches(ip));
        out
    }
}

// ---------------------------------------------------------------------------
// Reports
// ---------------------------------------------------------------------------

/// The heaviest weight key among the flags below `n` that `bits` sets,
/// starting from zero.
pub open spec fn key_upto(bits: u32, wk: Seq<u64>, n: int) -> int
    decreases n,
{
    if n <= 0 {
        0
    } else {
        let k = key_upto(bits, wk, n - 1);
        if has_flag(bits, (n - 1) as u32) && wk[n - 1] > k {
            wk[n - 1] as int
        } else {
            k
        }
    }
}

/// The weight key of a match with flag bits `bits`, given one key per flag.
pub open spec fn match_key(bits: u32, wk: Seq<u64>) -> int {
    key_upto(bits, wk, 20)
}

/// Whether `after` holds the matches of `before` rearranged by `p`,
/// heaviest first, matches of equal weight keeping their order.
pub open spec fn heaviest_first(after: Seq<MatchView>, before: Seq<MatchView>, wk: Seq<u64>, p: Seq<int>) -> bool {
    &&& is_perm(p, before.len())
    &&& after.len() == before.len()
    &&& forall|a: int| 0 <= a < after.len() ==> #[trigger] after[a] == before[p[a]]
    &&& forall|a: int, b: int|
        0 <= a < b < after.len() ==> match_key(after[a].bits, wk) >= match_key(after[b].bits, wk)
    &&& forall|a: int, b: int|
        0 <= a < b < after.len() && match_key(after[a].bits, wk) == match_key(after[b].bits, wk) ==> p[a]
            < p[b]
}

/// `acc` followed by the flags of `bits` from `f` up that it lacks, in
/// flag order.
pub open spec fn add_flags(acc: Seq<u32>, bits: u32, f: int) -> Seq<u32>
    decreases 20 - f,
{
    if f < 0 || f >= 20 {
        acc
    } else {
        let next = if has_flag(bits, f as u32) && !acc.contains(f as u32) {
            acc.push(f as u32)
        } else {
            acc
        };
        add_flags(next, bits, f + 1)
    }
}

/// The flags of the first `n` matches, each taken where first seen.
pub open spec fn flags_seen(bits: Seq<u32>, n: int) -> Seq<u32>
    decreases n,
{
    if n <= 0 {
        seq![]
    } else {
        add_flags(flags_seen(bits, n - 1), bits[n - 1], 0)
    }
}

/// The names of flags.
pub open spec fn names_of(fs: Seq<u32>) -> Seq<Seq<char>> {
    fs.map_values(|f: u32| flag_names()[f as int]@)
}

/// Whether `after` holds the flags of `before` rearranged by `p`, highest
/// rank key first, flags of equal rank keeping their order.
pub open spec fn ranked_from(after: Seq<u32>, before: Seq<u32>, rk: Seq<u64>, p: Seq<int>) -> bool {
    &&& is_perm(p, before.len())
    &&& after.len() == before.len()
    &&& forall|a: int| 0 <= a < after.len() ==> #[trigger] after[a] == before[p[a]]
    &&& forall|a: int, b: int| 0 <= a < b < after.len() ==> rk[after[a] as int] >= rk[after[b] as int]
    &&& forall|a: int, b: int|
        0 <= a < b < after.len() && rk[after[a] as int] == rk[after[b] as int] ==> p[a] < p[b]
}

/// How many distinct elements `s` has.
pub open spec fn distinct_count<T>(s: Seq<T>) -> nat
    decreases s.len(),
{
    if s.len() == 0 {
        0
    } else {
        distinct_count(s.drop_last()) + if s.drop_last().contains(s.last()) {
            0nat
        } else {
            1nat
        }
    }
}

/// The `(provider, source)` pair of each match.
pub open spec fn source_pairs(vs: Seq<MatchView>) -> Seq<(Seq<char>, Seq<char>)> {
    vs.map_values(|v: MatchView| (v.provider, v.source))
}

/// The non-empty providers among the first `n`, each where first seen.
pub open spec fn providers_upto(ps: Seq<Seq<char>>, n: int) -> Seq<Seq<char>>
    decreases n,
{
    if n <= 0 {
        seq![]
    } else {
        let acc = providers_upto(ps, n - 1);
        let p = ps[n - 1];
        if p.len() > 0 && !acc.contains(p) {
            acc.push(p)
        } else {
            acc
        }
    }
}

/// Whether a name is `tor` in any ASCII case.
pub open spec fn is_tor(s: Seq<char>) -> bool {
    s.len() == 3 && lower(s[0]) == 't' && lower(s[1]) == 'o' && lower(s[2]) == 'r'
}

/// The first position from `i` on that holds a Tor name.
pub open spec fn tor_from(s: Seq<Seq<char>>, i: int) -> Option<int>
    decreases s.len() - i,
{
    if i < 0 || i >= s.len() {
        None
    } else if is_tor(s[i]) {
        Some(i)
    } else {
        tor_from(s, i + 1)
    }
}

/// The providers with the first Tor name moved to the front.
pub open spec fn pin_tor(s: Seq<Seq<char>>) -> Seq<Seq<char>> {
    match tor_from(s, 0) {
        None => s,
        Some(i) => seq![s[i]] + s.remove(i),
    }
}

/// The integer parts of a threat report for one IP.
pub struct IntelReport {
    /// Total matching ranges across all sources.
    pub detections: usize,
    /// Distinct `(provider, source)` pairs.
    pub sources: usize,
    /// First non-empty provider (Tor pinned first if present).
    pub top_provider: String,
    /// Unique providers in detection order, Tor first.
    pub providers: Vec<String>,
    /// All flags seen, in first-seen order.
    pub flags: Vec<&'static str>,
    /// The flags seen, by number, heaviest first.
    pub ranked: Vec<u32>,
    /// The five heaviest flags.
    pub reasons: Vec<&'static str>,
    /// Underlying per-range matches, heaviest first.
    pub matches: Vec<IntelMatch>,
}

/// Whether `rep` reports the matches `vs`, given a weight key and a rank
/// key per flag: the matches heaviest first, their flags where first seen,
/// those ranked, the five heaviest, the distinct sources and the providers.
pub open spec fn report_of(rep: IntelReport, vs: Seq<MatchView>, wk: Seq<u64>, rk: Seq<u64>) -> bool {
    let sorted = views(rep.matches@);
    let seen = flags_seen(sorted.map_values(|v: MatchView| v.bits), sorted.len() as int);
    let provs = pin_tor(providers_upto(sorted.map_values(|v: MatchView| v.provider), sorted.len() as int));
    &&& rep.detections == vs.len()
    &&& exists|p: Seq<int>| #[trigger] heaviest_first(views(rep.matches@), vs, wk, p)
    &&& rep.flags@.map_values(|t: &'static str| t@) == names_of(seen)
    &&& exists|q: Seq<int>| #[trigger] ranked_from(rep.ranked@, seen, rk, q)
    &&& rep.reasons@.map_values(|t: &'static str| t@) == names_of(
        rep.ranked@.take(if rep.ranked@.len() < 5 { rep.ranked@.len() as int } else { 5 }),
    )
    &&& rep.sources == distinct_count(source_pairs(sorted))
    &&& rep.providers@.map_values(|t: String| t@) == provs
    &&& rep.top_provider@ == if provs.len() > 0 {
        provs[0]
    } else {
        Seq::<char>::empty()
    }
}

/// The weight key of a match with flag bits `bits`.
fn weight_key(bits: u32, wk: &Vec<u64>) -> (r: u64)
    requires
        wk@.len() == 20,
    ensures
        r == match_key(bits, wk@),
{
    let mut key: u64 = 0;
    let mut f: u32 = 0;
    while f < 20
        invariant
            f <= 20,
            wk@.len() == 20,
            key == key_upto(bits, wk@, f as int),
        decreases 20 - f,
    {
        if bits & (1u32 << f) != 0 && wk[f as usize] > key {
            key = wk[f as usize];
        }
        f = f + 1;
    }
    key
}

/// A match that says nothing, to fill a slot that was moved out: empty
/// texts and flags, no bits, the range `0.0.0.0-0.0.0.0`.
fn blank_match() -> (m: IntelMatch)
    ensures
        m@ == (MatchView {
            source: Seq::<char>::empty(),
            provider: Seq::<char>::empty(),
            range: (IpAddress::V4(0), IpAddress::V4(0)),
            bits: 0,
            flags: Seq::<Seq<char>>::empty(),
        }),
{
    let m = IntelMatch {
        source: String::new(),
        provider: String::new(),
        range: (IpAddress::V4(0), IpAddress::V4(0)),
        bits: 0,
        flags: Vec::new(),
    };
    assert(m@.flags =~= Seq::<Seq<char>>::empty());
    m
}

/// The matches heaviest first, matches of equal weight keeping their order.
fn order_matches(ms: Vec<IntelMatch>, wk: &Vec<u64>) -> (r: Vec<IntelMatch>)
    requires
        wk@.len() == 20,
    ensures
        exists|p: Seq<int>| #[trigger] heaviest_first(views(r@), views(ms@), wk@, p),
{
    let n = ms.len();
    let ghost orig = views(ms@);
    let mut pairs: Vec<(u64, usize)> = Vec::new();
    let mut i: usize = 0;
    while i < n
        invariant
            i <= n == ms@.len(),
            wk@.len() == 20,
            pairs@.len() == i,
            forall|j: int|
                0 <= j < i ==> #[trigger] pairs@[j] == ((u64::MAX - match_key(ms@[j].bits, wk@)) as u64, j as usize),
        decreases n - i,
    {
        let key = weight_key(ms[i].bits, wk);
        pairs.push((u64::MAX - key, i));
        i = i + 1;
    }
    let ghost before = pairs@;
    sort_by_first(&mut pairs);
    let ghost p = choose|p: Seq<int>| stably_sorted_by(before, pairs@, p);
    assert(stably_sorted_by(before, pairs@, p));
    let mut src = ms;
    let mut out: Vec<IntelMatch> = Vec::new();
    let mut a: usize = 0;
    while a < n
        invariant
            a <= n == src@.len() == orig.len(),
            stably_sorted_by(before, pairs@, p),
            before.len() == n,
            forall|j: int|
                0 <= j < n ==> #[trigger] before[j] == ((u64::MAX - match_key(orig[j].bits, wk@)) as u64, j as usize),
            forall|j: int| 0 <= j < n && (forall|c: int| 0 <= c < a ==> p[c] != j) ==> #[trigger] src@[j]@ == orig[j],
            out@.len() == a,
            forall|c: int| 0 <= c < a ==> #[trigger] out@[c]@ == orig[p[c]],
        decreases n - a,
    {
        let idx = pairs[a].1;
        proof {
            assert(pairs@[a as int] == before[p[a as int]]);
            assert(idx as int == p[a as int]);
            assert forall|c: int| 0 <= c < a implies p[c] != idx by {}
        }
        let mut m = blank_match();
        let ghost src0 = src@;
        std::mem::swap(&mut m, &mut src[idx]);
        assert(m@ == orig[p[a as int]]);
        out.push(m);
        proof {
            assert forall|j: int| 0 <= j < n && (forall|c: int| 0 <= c < a + 1 ==> p[c] != j) implies #[trigger] src@[j]@
                == orig[j] by {
                assert(p[a as int] != j);
                assert(src@[j] == src0[j]);
            }
        }
        a = a + 1;
    }
    proof {
        let after = views(out@);
        assert forall|c: int| 0 <= c < n implies #[trigger] after[c] == orig[p[c]] by {}
        assert forall|c: int, d: int| 0 <= c < d < n implies match_key(after[c].bits, wk@) >= match_key(
            after[d].bits,
            wk@,
        ) by {
            assert(pairs@[c] == before[p[c]]);
            assert(pairs@[d] == before[p[d]]);
            assert(0 <= match_key(after[c].bits, wk@) <= u64::MAX) by {
                lemma_key_range(after[c].bits, wk@, 20);
            }
            assert(0 <= match_key(after[d].bits, wk@) <= u64::MAX) by {
                lemma_key_range(after[d].bits, wk@, 20);
            }
        }
        assert forall|c: int, d: int|
            0 <= c < d < n && match_key(after[c].bits, wk@) == match_key(after[d].bits, wk@) implies p[c] < p[d] by {
            assert(pairs@[c] == before[p[c]]);
            assert(pairs@[d] == before[p[d]]);
        }
        assert(heaviest_first(after, orig, wk@, p));
    }
    let r = out;
    assert(heaviest_first(views(r@), views(ms@), wk@, p));
    r
}

/// A weight key lies between zero and the largest `u64`.
proof fn lemma_key_range(bits: u32, wk: Seq<u64>, n: int)
    ensures
        0 <= key_upto(bits, wk, n) <= u64::MAX,
    decreases n,
{
    if n > 0 {
        lemma_key_range(bits, wk, n - 1);
    }
}

/// Whether `v` holds `x`.
fn contains_u32(v: &Vec<u32>, x: u32) -> (r: bool)
    ensures
        r == v@.contains(x),
{
    let mut i: usize = 0;
    while i < v.len()
        invariant
            i <= v@.len(),
            forall|j: int| 0 <= j < i ==> v@[j] != x,
        decreases v@.len() - i,
    {
        if v[i] == x {
            assert(v@[i as int] == x);
            return true;
        }
        i = i + 1;
    }
    false
}

/// Flags added to flag numbers stay flag numbers.
proof fn lemma_add_flags_small(acc: Seq<u32>, bits: u32, f: int)
    requires
        forall|j: int| 0 <= j < acc.len() ==> acc[j] < 20,
    ensures
        forall|j: int| 0 <= j < add_flags(acc, bits, f).len() ==> #[trigger] add_flags(acc, bits, f)[j] < 20,
    decreases 20 - f,
{
    if 0 <= f < 20 {
        let next = if has_flag(bits, f as u32) && !acc.contains(f as u32) {
            acc.push(f as u32)
        } else {
            acc
        };
        assert forall|j: int| 0 <= j < next.len() implies next[j] < 20 by {
            if j < acc.len() {
                assert(next[j] == acc[j]);
            }
        }
        lemma_add_flags_small(next, bits, f + 1);
        assert(add_flags(acc, bits, f) == add_flags(next, bits, f + 1));
    }
}

/// The flags seen are flag numbers.
proof fn lemma_seen_small(bits: Seq<u32>, n: int)
    ensures
        forall|j: int| 0 <= j < flags_seen(bits, n).len() ==> #[trigger] flags_seen(bits, n)[j] < 20,
    decreases n,
{
    if n > 0 {
        lemma_seen_small(bits, n - 1);
        lemma_add_flags_small(flags_seen(bits, n - 1), bits[n - 1], 0);
    }
}

/// The flags of the matches, each where first seen.
fn seen_flags(ms: &Vec<IntelMatch>) -> (r: Vec<u32>)
    ensures
        r@ == flags_seen(views(ms@).map_values(|v: MatchView| v.bits), ms@.len() as int),
        forall|j: int| 0 <= j < r@.len() ==> #[trigger] r@[j] < 20,
{
    let ghost bits = views(ms@).map_values(|v: MatchView| v.bits);
    let mut acc: Vec<u32> = Vec::new();
    let mut i: usize = 0;
    while i < ms.len()
        invariant
            i <= ms@.len(),
            bits == views(ms@).map_values(|v: MatchView| v.bits),
            acc@ == flags_seen(bits, i as int),
        decreases ms@.len() - i,
    {
        let b = ms[i].bits;
        assert(bits[i as int] == b);
        let ghost start = acc@;
        let mut f: u32 = 0;
        while f < 20
            invariant
                f <= 20,
                add_flags(start, b, 0) == add_flags(acc@, b, f as int),
            decreases 20 - f,
        {
            if b & (1u32 << f) != 0 && !contains_u32(&acc, f) {
                acc.push(f);
            }
            f = f + 1;
        }
        i = i + 1;
    }
    proof {
        lemma_seen_small(bits, ms@.len() as int);
    }
    acc
}

/// The flags, highest rank key first, flags of equal rank keeping their
/// order.
fn rank_flags(seen: &Vec<u32>, rk: &Vec<u64>) -> (r: Vec<u32>)
    requires
        rk@.len() == 20,
        forall|j: int| 0 <= j < seen@.len() ==> #[trigger] seen@[j] < 20,
    ensures
        exists|q: Seq<int>| #[trigger] ranked_from(r@, seen@, rk@, q),
        forall|j: int| 0 <= j < r@.len() ==> #[trigger] r@[j] < 20,
{
    let n = seen.len();
    let mut pairs: Vec<(u64, usize)> = Vec::new();
    let mut i: usize = 0;
    while i < n
        invariant
            i <= n == seen@.len(),
            rk@.len() == 20,
            forall|j: int| 0 <= j < n ==> #[trigger] seen@[j] < 20,
            pairs@.len() == i,
            forall|j: int|
                0 <= j < i ==> #[trigger] pairs@[j] == ((u64::MAX - rk@[seen@[j] as int]) as u64, j as usize),
        decreases n - i,
    {
        pairs.push((u64::MAX - rk[seen[i] as usize], i));
        i = i + 1;
    }
    let ghost before = pairs@;
    sort_by_first(&mut pairs);
    let ghost q = choose|q: Seq<int>| stably_sorted_by(before, pairs@, q);
    assert(stably_sorted_by(before, pairs@, q));
    let mut out: Vec<u32> = Vec::new();
    let mut a: usize = 0;
    while a < n
        invariant
            a <= n == seen@.len(),
            stably_sorted_by(before, pairs@, q),
            before.len() == n,
            forall|j: int|
                0 <= j < n ==> #[trigger] before[j] == ((u64::MAX - rk@[seen@[j] as int]) as u64, j as usize),
            out@.len() == a,
            forall|c: int| 0 <= c < a ==> #[trigger] out@[c] == seen@[q[c]],
        decreases n - a,
    {
        let idx = pairs[a].1;
        proof {
            assert(pairs@[a as int] == before[q[a as int]]);
        }
        out.push(seen[idx]);
        a = a + 1;
    }
    proof {
        assert forall|c: int, d: int| 0 <= c < d < n implies rk@[out@[c] as int] >= rk@[out@[d] as int] by {
            assert(pairs@[c] == before[q[c]]);
            assert(pairs@[d] == before[q[d]]);
        }
        assert forall|c: int, d: int|
            0 <= c < d < n && rk@[out@[c] as int] == rk@[out@[d] as int] implies q[c] < q[d] by {
            assert(pairs@[c] == before[q[c]]);
            assert(pairs@[d] == before[q[d]]);
        }
        assert forall|j: int| 0 <= j < out@.len() implies #[trigger] out@[j] < 20 by {
            assert(out@[j] == seen@[q[j]]);
        }
    }
    let r = out;
    assert(ranked_from(r@, seen@, rk@, q));
    r
}

/// The names of the first `n` flags.
fn names_upto(fs: &Vec<u32>, n: usize) -> (r: Vec<&'static str>)
    requires
        n <= fs@.len(),
        forall|j: int| 0 <= j < fs@.len() ==> #[trigger] fs@[j] < 20,
    ensures
        r@.map_values(|t: &'static str| t@) == names_of(fs@.take(n as int)),
{
    let mut out: Vec<&'static str> = Vec::new();
    let mut i: usize = 0;
    while i < n
        invariant
            i <= n <= fs@.len(),
            forall|j: int| 0 <= j < fs@.len() ==> #[trigger] fs@[j] < 20,
            out@.map_values(|t: &'static str| t@) == names_of(fs@.take(i as int)),
        decreases n - i,
    {
        let ghost before = out@.map_values(|t: &'static str| t@);
        let name = flag_name(fs[i]);
        out.push(name);
        proof {
            assert(out@.map_values(|t: &'static str| t@) =~= before.push(name@));
            assert(names_of(fs@.take(i + 1)) =~= names_of(fs@.take(i as int)).push(flag_names()[fs@[i as int] as int]@));
        }
        i = i + 1;
    }
    out
}

/// How many distinct `(provider, source)` pairs the matches carry. The
/// pairs are compared over the vector itself: a hash set keyed by text has
/// no specification that a count could be proved against.
fn count_sources(ms: &Vec<IntelMatch>) -> (r: usize)
    ensures
        r == distinct_count(source_pairs(views(ms@))),
{
    let ghost pairs = source_pairs(views(ms@));
    let n = ms.len();
    let mut count: usize = 0;
    let mut k: usize = 0;
    while k < n
        invariant
            k <= n == ms@.len() == pairs.len(),
            pairs == source_pairs(views(ms@)),
            count <= k,
            count == distinct_count(pairs.take(k as int)),
        decreases n - k,
    {
        let mut dup = false;
        let mut j: usize = 0;
        while j < k
            invariant
                j <= k < n == ms@.len() == pairs.len(),
                pairs == source_pairs(views(ms@)),
                dup <==> exists|i: int| 0 <= i < j && pairs[i] == pairs[k as int],
            decreases k - j,
        {
            if ms[j].provider == ms[k].provider && ms[j].source == ms[k].source {
                assert(pairs[j as int] == pairs[k as int]);
                dup = true;
            }
            j = j + 1;
        }
        proof {
            let t = pairs.take(k + 1);
            assert(t.drop_last() =~= pairs.take(k as int));
            assert(t.last() == pairs[k as int]);
            if dup {
                let i = choose|i: int| 0 <= i < k && pairs[i] == pairs[k as int];
                assert(pairs.take(k as int)[i] == pairs[k as int]);
            } else {
                assert(!pairs.take(k as int).contains(pairs[k as int]));
            }
        }
        if !dup {
            count = count + 1;
        }
        k = k + 1;
    }
    proof {
        assert(pairs.take(n as int) =~= pairs);
    }
    count
}

/// Whether `v` holds a text equal to `x`.
fn contains_text(v: &Vec<String>, x: &String) -> (r: bool)
    ensures
        r == v@.map_values(|t: String| t@).contains(x@),
{
    let ghost tv = v@.map_values(|t: String| t@);
    let mut i: usize = 0;
    while i < v.len()
        invariant
            i <= v@.len(),
            tv == v@.map_values(|t: String| t@),
            forall|j: int| 0 <= j < i ==> tv[j] != x@,
        decreases v@.len() - i,
    {
        if v[i] == *x {
            assert(tv[i as int] == x@);
            return true;
        }
        i = i + 1;
    }
    false
}

/// The non-empty providers of the matches, each where first seen.
fn collect_providers(ms: &Vec<IntelMatch>) -> (r: Vec<String>)
    ensures
        r@.map_values(|t: String| t@) == providers_upto(
            views(ms@).map_values(|v: MatchView| v.provider),
            ms@.len() as int,
        ),
{
    let ghost ps = views(ms@).map_values(|v: MatchView| v.provider);
    let mut out: Vec<String> = Vec::new();
    let mut i: usize = 0;
    while i < ms.len()
        invariant
            i <= ms@.len() == ps.len(),
            ps == views(ms@).map_values(|v: MatchView| v.provider),
            out@.map_values(|t: String| t@) == providers_upto(ps, i as int),
        decreases ms@.len() - i,
    {
        let p = &ms[i].provider;
        assert(ps[i as int] == p@);
        if !p.as_str().is_empty() && !contains_text(&out, p) {
            let ghost before = out@.map_values(|t: String| t@);
            out.push(p.clone());
            assert(out@.map_values(|t: String| t@) =~= before.push(p@));
        }
        i = i + 1;
    }
    out
}

/// Whether a name is `tor` in any ASCII case.
fn is_tor_text(s: &String) -> (r: bool)
    ensures
        r == is_tor(s@),
{
    let c = crate::text::to_chars(s.as_str());
    c.len() == 3 && crate::text::to_lower(c[0]) == 't' && crate::text::to_lower(c[1]) == 'o'
        && crate::text::to_lower(c[2]) == 'r'
}

/// The providers with the first Tor name moved to the front.
fn pin_tor_first(ps: Vec<String>) -> (r: Vec<String>)
    ensures
        r@.map_values(|t: String| t@) == pin_tor(ps@.map_values(|t: String| t@)),
{
    let ghost tv = ps@.map_values(|t: String| t@);
    let mut i: usize = 0;
    while i < ps.len()
        invariant
            i <= ps@.len() == tv.len(),
            tv == ps@.map_values(|t: String| t@),
            tor_from(tv, 0) == tor_from(tv, i as int),
        decreases ps@.len() - i,
    {
        if is_tor_text(&ps[i]) {
            let mut out = ps;
            let t = out.remove(i);
            out.insert(0, t);
            assert(out@.map_values(|t: String| t@) =~= seq![tv[i as int]] + tv.remove(i as int));
            return out;
        }
        i = i + 1;
    }
    ps
}

/// Summarises matches, given a weight key and a rank key per flag: orders
/// them heaviest first, gathers their flags where first seen and ranks
/// them, counts distinct sources, and lists providers with Tor first.
pub fn build_report(ms: Vec<IntelMatch>, weight_keys: &Vec<u64>, rank_keys: &Vec<u64>) -> (r: IntelReport)
    requires
        weight_keys@.len() == 20,
        rank_keys@.len() == 20,
    ensures
        report_of(r, views(ms@), weight_keys@, rank_keys@),
{
    let detections = ms.len();
    let sorted = order_matches(ms, weight_keys);
    let seen = seen_flags(&sorted);
    let flags = names_upto(&seen, seen.len());
    let ranked = rank_flags(&seen, rank_keys);
    let top = if ranked.len() < 5 {
        ranked.len()
    } else {
        5
    };
    let reasons = names_upto(&ranked, top);
    let sources = count_sources(&sorted);
    let providers = pin_tor_first(collect_providers(&sorted));
    let top_provider = if providers.len() > 0 {
        providers[0].clone()
    } else {
        String::new()
    };
    proof {
        assert(seen@.take(seen@.len() as int) =~= seen@);
    }
    let ghost p = choose|p: Seq<int>| #[trigger] heaviest_first(views(sorted@), views(ms@), weight_keys@, p);
    let ghost q = choose|q: Seq<int>| #[trigger] ranked_from(ranked@, seen@, rank_keys@, q);
    let r = IntelReport {
        detections,
        sources,
        top_provider,
        providers,
        flags,
        ranked,
        reasons,
        matches: sorted,
    };
    assert(views(r.matches@).len() == views(ms@).len());
    assert(r.detections == views(ms@).len());
    assert(heaviest_first(views(r.matches@), views(ms@), weight_keys@, p));
    assert(ranked_from(r.ranked@, seen@, rank_keys@, q));
    r
}

impl Intel {
    /// The threat report of `ip` from its matches, given a weight key and a
    /// rank key per flag; `None` where no range contains `ip`.
    pub fn lookup(&self, ip: IpAddress, weight_keys: &Vec<u64>, rank_keys: &Vec<u64>) -> (r: Option<IntelReport>)
        requires
            self.search_ready(ip),
            self.matches_defined(ip),
            weight_keys@.len() == 20,
            rank_keys@.len() == 20,
        ensures
            r is None <==> self.hits_of(ip).len() == 0,
            r matches Some(rep) ==> report_of(rep, self.expected_matches(ip), weight_keys@, rank_keys@),
    {
        let ms = self.matches(ip);
        assert(views(ms@).len() == ms@.len());
        if ms.len() == 0 {
            return None;
        }
        Some(build_report(ms, weight_keys, rank_keys))
    }

    /// Per flag, how many IPv4 rows carry it; the number of IPv4 rows.
    pub fn flag_counts(&self) -> (r: (Vec<u64>, usize))
        ensures
            r.0@ == self.counts(),
            r.1 == self.v4_rows().len(),
    {
        (self.flag_counts.clone(), self.v4_starts.len())
    }
}

// ---------------------------------------------------------------------------
// Laws
// ---------------------------------------------------------------------------

/// A lookup reports a row exactly when the row's range contains the
/// address, ends included, and it reports each such row once, the last one
/// first.
pub proof fn law_hits_exact(rows: Seq<(int, int, int)>, ip: int)
    ensures
        forall|k: int|
            #![trigger hits(rows, ip).contains(k)]
            hits(rows, ip).contains(k) <==> 0 <= k < rows.len() && rows[k].0 <= ip <= rows[k].1,
        forall|a: int, c: int| 0 <= a < c < hits(rows, ip).len() ==> hits(rows, ip)[a] > hits(rows, ip)[c],
{
    lemma_hits_members(rows, ip, rows.len() as int);
    lemma_hits_range(rows, ip, rows.len() as int);
}

/// The members of the hits below `i`.
proof fn lemma_hits_members(rows: Seq<(int, int, int)>, ip: int, i: int)
    requires
        0 <= i <= rows.len(),
    ensures
        forall|k: int|
            #![trigger hits_below(rows, ip, i).contains(k)]
            hits_below(rows, ip, i).contains(k) <==> 0 <= k < i && rows[k].0 <= ip <= rows[k].1,
    decreases i,
{
    if i > 0 {
        lemma_hits_members(rows, ip, i - 1);
        let rest = hits_below(rows, ip, i - 1);
        let h = hits_below(rows, ip, i);
        assert forall|k: int| h.contains(k) <==> 0 <= k < i && rows[k].0 <= ip <= rows[k].1 by {
            if rows[i - 1].0 <= ip <= rows[i - 1].1 {
                assert(h == seq![i - 1] + rest);
                if h.contains(k) {
                    let j = choose|j: int| 0 <= j < h.len() && h[j] == k;
                    if j > 0 {
                        assert(rest[j - 1] == k);
                        assert(rest.contains(k));
                    }
                }
                if 0 <= k < i && rows[k].0 <= ip <= rows[k].1 {
                    if k == i - 1 {
                        assert(h[0] == k);
                    } else {
                        assert(rest.contains(k));
                        let j = choose|j: int| 0 <= j < rest.len() && rest[j] == k;
                        assert(h[j + 1] == k);
                    }
                }
            } else {
                assert(h == rest);
            }
        }
    }
}

/// The weight key of a match is the heaviest key among its flags: at least
/// the key of each flag it carries, and zero or the key of one of them.
pub proof fn law_match_key_is_heaviest(bits: u32, wk: Seq<u64>)
    ensures
        forall|f: u32| f < 20 && #[trigger] has_flag(bits, f) ==> match_key(bits, wk) >= wk[f as int],
        match_key(bits, wk) == 0 || exists|f: u32| f < 20 && has_flag(bits, f) && match_key(bits, wk) == wk[f as int],
{
    lemma_key_upto(bits, wk, 20);
}

/// What `key_upto` bounds and attains.
proof fn lemma_key_upto(bits: u32, wk: Seq<u64>, n: int)
    requires
        0 <= n <= 20,
    ensures
        forall|f: u32| f < n && #[trigger] has_flag(bits, f) ==> key_upto(bits, wk, n) >= wk[f as int],
        key_upto(bits, wk, n) == 0 || exists|f: u32| f < n && has_flag(bits, f) && key_upto(bits, wk, n) == wk[f as int],
    decreases n,
{
    if n > 0 {
        lemma_key_upto(bits, wk, n - 1);
        let f = (n - 1) as u32;
        if has_flag(bits, f) && wk[n - 1] > key_upto(bits, wk, n - 1) {
            assert(has_flag(bits, f) && key_upto(bits, wk, n) == wk[f as int]);
        }
    }
}

/// The running maximum bounds every end up to it and never falls: the
/// reverse scan of a lookup may stop at the first position whose running
/// maximum lies below the address.
pub proof fn law_prefix_max(s: Seq<int>, j: int, k: int)
    requires
        0 <= k <= j < s.len(),
    ensures
        s[k] <= prefix_max(s, j),
        prefix_max(s, k) <= prefix_max(s, j),
    decreases j,
{
    lemma_prefix_max_bounds(s, j, k);
    if k < j {
        law_prefix_max(s, j - 1, k);
    }
}

/// Pinning Tor is a move to the front: where the first Tor name among the
/// providers sits at `i`, the result holds that name first, then the
/// providers before it and after it, each in its detection order.
pub proof fn law_pin_tor_moves_to_front(s: Seq<Seq<char>>, i: int)
    requires
        0 <= i < s.len(),
        is_tor(s[i]),
        forall|j: int| 0 <= j < i ==> !is_tor(#[trigger] s[j]),
    ensures
        pin_tor(s).len() == s.len(),
        pin_tor(s)[0] == s[i],
        forall|j: int| 0 <= j < i ==> #[trigger] pin_tor(s)[j + 1] == s[j],
        forall|j: int| i < j < s.len() ==> #[trigger] pin_tor(s)[j] == s[j],
{
    lemma_tor_from(s, 0);
    assert(tor_from(s, 0) == Some(i)) by {
        if let Some(k) = tor_from(s, 0) {
            assert(!(k < i));
            if k > i {
                lemma_tor_first(s, 0, i);
            }
        } else {
            assert(!is_tor(s[i]));
        }
    }
}

/// Providers with no Tor name keep their detection order untouched.
pub proof fn law_pin_tor_without_tor(s: Seq<Seq<char>>)
    requires
        forall|j: int| 0 <= j < s.len() ==> !is_tor(#[trigger] s[j]),
    ensures
        pin_tor(s) == s,
{
    lemma_tor_from(s, 0);
    if let Some(k) = tor_from(s, 0) {
        assert(is_tor(s[k]));
    }
}

/// No Tor name lies between `from` and the first one `tor_from` finds.
proof fn lemma_tor_first(s: Seq<Seq<char>>, from: int, j: int)
    requires
        0 <= from <= j < s.len(),
        is_tor(s[j]),
    ensures
        tor_from(s, from) matches Some(k) && k <= j,
    decreases j - from,
{
    if !is_tor(s[from]) {
        lemma_tor_first(s, from + 1, j);
    }
}

/// A sequence has no more distinct elements than elements: a report
/// counts no more distinct sources than detections.
pub proof fn law_distinct_at_most_len<T>(s: Seq<T>)
    ensures
        distinct_count(s) <= s.len(),
    decreases s.len(),
{
    if s.len() > 0 {
        law_distinct_at_most_len(s.drop_last());
    }
}

/// Whether no two elements of `s` are equal.
pub open spec fn no_repeats<T>(s: Seq<T>) -> bool {
    forall|a: int, c: int| 0 <= a < c < s.len() ==> s[a] != s[c]
}

/// What adding the flags of `bits` from `f` on keeps and gains.
proof fn lemma_add_flags(acc: Seq<u32>, bits: u32, f: int)
    requires
        0 <= f,
        no_repeats(acc),
    ensures
        no_repeats(add_flags(acc, bits, f)),
        forall|x: u32|
            #![trigger add_flags(acc, bits, f).contains(x)]
            add_flags(acc, bits, f).contains(x) <==> acc.contains(x) || (f <= x < 20 && has_flag(bits, x)),
    decreases 20 - f,
{
    if f < 20 {
        let next = if has_flag(bits, f as u32) && !acc.contains(f as u32) {
            acc.push(f as u32)
        } else {
            acc
        };
        assert(no_repeats(next)) by {
            if has_flag(bits, f as u32) && !acc.contains(f as u32) {
                assert forall|a: int, c: int| 0 <= a < c < next.len() implies next[a] != next[c] by {
                    if c == acc.len() {
                        assert(next[a] == acc[a]);
                    }
                }
            }
        }
        assert forall|x: u32| next.contains(x) <==> acc.contains(x) || (x == f && has_flag(bits, x)) by {
            if has_flag(bits, f as u32) && !acc.contains(f as u32) {
                if next.contains(x) {
                    let j = choose|j: int| 0 <= j < next.len() && next[j] == x;
                    if j < acc.len() {
                        assert(acc[j] == x);
                    }
                }
                if acc.contains(x) {
                    let j = choose|j: int| 0 <= j < acc.len() && acc[j] == x;
                    assert(next[j] == x);
                }
                if x == f {
                    assert(next[acc.len() as int] == x);
                }
            }
        }
        lemma_add_flags(next, bits, f + 1);
        assert(add_flags(acc, bits, f) == add_flags(next, bits, f + 1));
    }
}

/// The flags seen are distinct, and a flag is seen exactly when one of the
/// first `n` matches carries it.
proof fn lemma_flags_seen(bits: Seq<u32>, n: int)
    requires
        0 <= n <= bits.len(),
    ensures
        no_repeats(flags_seen(bits, n)),
        forall|x: u32|
            #![trigger flags_seen(bits, n).contains(x)]
            flags_seen(bits, n).contains(x) <==> x < 20 && exists|m: int| 0 <= m < n && has_flag(bits[m], x),
    decreases n,
{
    if n > 0 {
        lemma_flags_seen(bits, n - 1);
        lemma_add_flags(flags_seen(bits, n - 1), bits[n - 1], 0);
        assert forall|x: u32|
            flags_seen(bits, n).contains(x) <==> x < 20 && exists|m: int| 0 <= m < n && has_flag(bits[m], x) by {
            if x < 20 && has_flag(bits[n - 1], x) {
                assert(exists|m: int| 0 <= m < n && has_flag(bits[m], x));
            }
            if x < 20 && exists|m: int| 0 <= m < n && has_flag(bits[m], x) {
                let m = choose|m: int| 0 <= m < n && has_flag(bits[m], x);
                if m < n - 1 {
                    assert(flags_seen(bits, n - 1).contains(x));
                }
            }
            if flags_seen(bits, n - 1).contains(x) {
                let m = choose|m: int| 0 <= m < n - 1 && has_flag(bits[m], x);
                assert(0 <= m < n && has_flag(bits[m], x));
            }
        }
    }
}

/// The providers gathered are non-empty and distinct, and hold exactly the
/// non-empty names among the first `n`.
proof fn lemma_providers(ps: Seq<Seq<char>>, n: int)
    requires
        0 <= n <= ps.len(),
    ensures
        no_repeats(providers_upto(ps, n)),
        forall|j: int| 0 <= j < providers_upto(ps, n).len() ==> #[trigger] providers_upto(ps, n)[j].len() > 0,
        forall|x: Seq<char>|
            #![trigger providers_upto(ps, n).contains(x)]
            providers_upto(ps, n).contains(x) <==> x.len() > 0 && exists|m: int| 0 <= m < n && ps[m] == x,
    decreases n,
{
    if n > 0 {
        lemma_providers(ps, n - 1);
        let acc = providers_upto(ps, n - 1);
        let p = ps[n - 1];
        let cur = providers_upto(ps, n);
        if p.len() > 0 && !acc.contains(p) {
            assert(cur == acc.push(p));
            assert forall|a: int, c: int| 0 <= a < c < cur.len() implies cur[a] != cur[c] by {
                if c == acc.len() {
                    assert(cur[a] == acc[a]);
                }
            }
            assert forall|j: int| 0 <= j < cur.len() implies #[trigger] cur[j].len() > 0 by {
                if j < acc.len() {
                    assert(cur[j] == acc[j]);
                }
            }
        }
        assert forall|x: Seq<char>| cur.contains(x) <==> x.len() > 0 && exists|m: int| 0 <= m < n && ps[m] == x by {
            if cur.contains(x) {
                let j = choose|j: int| 0 <= j < cur.len() && cur[j] == x;
                if p.len() > 0 && !acc.contains(p) && j == acc.len() {
                    assert(ps[n - 1] == x);
                } else {
                    assert(acc[j] == x);
                    assert(acc.contains(x));
                    let m = choose|m: int| 0 <= m < n - 1 && ps[m] == x;
                    assert(0 <= m < n && ps[m] == x);
                }
            }
            if x.len() > 0 && exists|m: int| 0 <= m < n && ps[m] == x {
                let m = choose|m: int| 0 <= m < n && ps[m] == x;
                if m < n - 1 {
                    assert(acc.contains(x));
                    let j = choose|j: int| 0 <= j < acc.len() && acc[j] == x;
                    assert(cur[j] == x);
                } else if acc.contains(x) {
                    let j = choose|j: int| 0 <= j < acc.len() && acc[j] == x;
                    assert(cur[j] == x);
                } else {
                    assert(cur[acc.len() as int] == x);
                }
            }
        }
    }
}

/// The first Tor name from `i` on is one, and none comes before it.
proof fn lemma_tor_from(s: Seq<Seq<char>>, i: int)
    requires
        0 <= i,
    ensures
        tor_from(s, i) matches Some(j) ==> i <= j < s.len() && is_tor(s[j]),
        tor_from(s, i) is None ==> forall|j: int| i <= j < s.len() ==> !is_tor(#[trigger] s[j]),
    decreases s.len() - i,
{
    if i < s.len() && !is_tor(s[i]) {
        lemma_tor_from(s, i + 1);
    }
}

/// Moving the first Tor name to the front keeps the names, their number
/// and their distinctness, and puts a Tor name first where there is one.
proof fn lemma_pin_tor(s: Seq<Seq<char>>)
    ensures
        pin_tor(s).len() == s.len(),
        forall|x: Seq<char>| #![trigger pin_tor(s).contains(x)] pin_tor(s).contains(x) <==> s.contains(x),
        no_repeats(s) ==> no_repeats(pin_tor(s)),
        (exists|j: int| 0 <= j < s.len() && is_tor(#[trigger] s[j])) ==> is_tor(pin_tor(s)[0]),
{
    lemma_tor_from(s, 0);
    match tor_from(s, 0) {
        None => {},
        Some(i) => {
            let t = pin_tor(s);
            let r = s.remove(i);
            assert(t == seq![s[i]] + r);
            assert forall|j: int| 0 <= j < r.len() implies #[trigger] r[j] == if j < i { s[j] } else { s[j + 1] } by {}
            assert forall|x: Seq<char>| t.contains(x) <==> s.contains(x) by {
                if t.contains(x) {
                    let j = choose|j: int| 0 <= j < t.len() && t[j] == x;
                    if j == 0 {
                        assert(s[i] == x);
                    } else if j - 1 < i {
                        assert(s[j - 1] == x);
                    } else {
                        assert(s[j] == x);
                    }
                }
                if s.contains(x) {
                    let j = choose|j: int| 0 <= j < s.len() && s[j] == x;
                    if j == i {
                        assert(t[0] == x);
                    } else if j < i {
                        assert(t[j + 1] == x);
                    } else {
                        assert(t[j] == x);
                    }
                }
            }
            if no_repeats(s) {
                assert forall|a: int, c: int| 0 <= a < c < t.len() implies t[a] != t[c] by {
                    let sa = if a == 0 { i } else if a - 1 < i { a - 1 } else { a };
                    let sc = if c - 1 < i { c - 1 } else { c };
                    assert(t[a] == s[sa]);
                    assert(t[c] == s[sc]);
                    assert(sa != sc);
                }
            }
        },
    }
}

/// What a report promises of its parts: no more distinct sources than
/// detections; as many ranked flags as flags seen, distinct and each
/// carried by a match; at most five reasons; providers non-empty and
/// distinct, each one a match's; and where a match names Tor, in any ASCII
/// case, the top provider is that Tor name.
pub proof fn law_report_parts(rep: IntelReport, vs: Seq<MatchView>, wk: Seq<u64>, rk: Seq<u64>)
    requires
        report_of(rep, vs, wk, rk),
    ensures
        rep.sources <= rep.detections,
        rep.ranked@.len() == rep.flags@.len(),
        rep.reasons@.len() == if rep.flags@.len() < 5 { rep.flags@.len() } else { 5 },
        no_repeats(rep.ranked@),
        forall|x: u32|
            #![trigger rep.ranked@.contains(x)]
            rep.ranked@.contains(x) <==> x < 20 && exists|m: int|
                0 <= m < rep.matches@.len() && has_flag(#[trigger] rep.matches@[m].bits, x),
        no_repeats(rep.providers@.map_values(|t: String| t@)),
        forall|j: int| 0 <= j < rep.providers@.len() ==> #[trigger] rep.providers@[j]@.len() > 0,
        (exists|m: int| 0 <= m < rep.matches@.len() && is_tor(#[trigger] rep.matches@[m].provider@))
            ==> is_tor(rep.top_provider@),
{
    let sorted = views(rep.matches@);
    let bits = sorted.map_values(|v: MatchView| v.bits);
    let n = sorted.len() as int;
    let seen = flags_seen(bits, n);
    let ps = sorted.map_values(|v: MatchView| v.provider);
    let provs = providers_upto(ps, n);
    let p = choose|p: Seq<int>| #[trigger] heaviest_first(sorted, vs, wk, p);
    let q = choose|q: Seq<int>| #[trigger] ranked_from(rep.ranked@, seen, rk, q);
    law_distinct_at_most_len(source_pairs(sorted));
    lemma_flags_seen(bits, n);
    lemma_providers(ps, n);
    lemma_pin_tor(provs);
    let names = rep.flags@.map_values(|t: &'static str| t@);
    assert(names == names_of(seen));
    assert(names.len() == rep.flags@.len());
    assert(rep.ranked@.len() == seen.len());
    let top = if rep.ranked@.len() < 5 { rep.ranked@.len() as int } else { 5 };
    assert(rep.reasons@.map_values(|t: &'static str| t@).len() == rep.reasons@.len());
    assert(names_of(rep.ranked@.take(top)).len() == top);
    assert forall|a: int, c: int| 0 <= a < c < rep.ranked@.len() implies rep.ranked@[a] != rep.ranked@[c] by {
        assert(rep.ranked@[a] == seen[q[a]]);
        assert(rep.ranked@[c] == seen[q[c]]);
    }
    // ranked: a rearrangement of the flags seen
    assert forall|x: u32| rep.ranked@.contains(x) <==> seen.contains(x) by {
        if rep.ranked@.contains(x) {
            let j = choose|j: int| 0 <= j < rep.ranked@.len() && rep.ranked@[j] == x;
            assert(seen[q[j]] == x);
        }
        if seen.contains(x) {
            let i = choose|i: int| 0 <= i < seen.len() && seen[i] == x;
            lemma_perm_onto(q, seen.len(), i);
            let j = choose|j: int| 0 <= j < seen.len() && q[j] == i;
            assert(rep.ranked@[j] == x);
        }
    }
    assert forall|m: int| 0 <= m < rep.matches@.len() implies #[trigger] rep.matches@[m].bits == bits[m] by {}
    assert forall|x: u32|
        rep.ranked@.contains(x) <==> x < 20 && exists|m: int|
            0 <= m < rep.matches@.len() && has_flag(#[trigger] rep.matches@[m].bits, x) by {
        if x < 20 && exists|m: int| 0 <= m < rep.matches@.len() && has_flag(#[trigger] rep.matches@[m].bits, x) {
            let m = choose|m: int| 0 <= m < rep.matches@.len() && has_flag(#[trigger] rep.matches@[m].bits, x);
            assert(bits[m] == rep.matches@[m].bits);
            assert(seen.contains(x));
        }
        if seen.contains(x) {
            let m = choose|m: int| 0 <= m < n && has_flag(bits[m], x);
            assert(bits[m] == rep.matches@[m].bits);
        }
    }
    // the top provider
    if exists|m: int| 0 <= m < rep.matches@.len() && is_tor(#[trigger] rep.matches@[m].provider@) {
        let m = choose|m: int| 0 <= m < rep.matches@.len() && is_tor(#[trigger] rep.matches@[m].provider@);
        assert(ps[m] == rep.matches@[m].provider@);
        assert(provs.contains(ps[m]));
        let j = choose|j: int| 0 <= j < provs.len() && provs[j] == ps[m];
        assert(is_tor(provs[j]));
    }
    let shown = rep.providers@.map_values(|t: String| t@);
    assert forall|j: int| 0 <= j < rep.providers@.len() implies #[trigger] rep.providers@[j]@.len() > 0 by {
        assert(shown[j] == rep.providers@[j]@);
        assert(pin_tor(provs).contains(shown[j]));
    }
}

/// A permutation of the positions below `n` reaches each of them.
proof fn lemma_perm_onto(p: Seq<int>, n: nat, i: int)
    requires
        is_perm(p, n),
        0 <= i < n,
    ensures
        exists|j: int| 0 <= j < n && p[j] == i,
{
    if forall|j: int| 0 <= j < n ==> p[j] != i {
        let r = vstd::set_lib::set_int_range(0, n as int).remove(i);
        vstd::set_lib::lemma_int_range(0, n as int);
        assert(r.len() == n - 1);
        assert(p.no_duplicates());
        p.unique_seq_to_set();
        assert(p.to_set().len() == n);
        assert(p.to_set().subset_of(r));
        vstd::set_lib::lemma_len_subset(p.to_set(), r);
        assert(false);
    }
}

impl Intel {
    /// Every match of a lookup covers the address, and there is one match
    /// for each row of the address's family that covers it.
    pub proof fn law_matches_cover(&self, ip: IpAddress)
        ensures
            forall|k: int|
                0 <= k < self.expected_matches(ip).len() ==> ip_value(
                    (#[trigger] self.expected_matches(ip)[k]).range.0,
                ) <= ip_value(ip) <= ip_value(self.expected_matches(ip)[k].range.1),
            self.expected_matches(ip).len() == self.hits_of(ip).len(),
            forall|j: int|
                #![trigger self.hits_of(ip).contains(j)]
                self.hits_of(ip).contains(j) <==> 0 <= j < self.table_of(ip).len() && self.table_of(ip)[j].0
                    <= ip_value(ip) <= self.table_of(ip)[j].1,
    {
        let table = self.table_of(ip);
        let hs = self.hits_of(ip);
        law_hits_exact(table, ip_value(ip));
        lemma_hits_range(table, ip_value(ip), table.len() as int);
        assert forall|k: int| 0 <= k < self.expected_matches(ip).len() implies ip_value(
            (#[trigger] self.expected_matches(ip)[k]).range.0,
        ) <= ip_value(ip) <= ip_value(self.expected_matches(ip)[k].range.1) by {
            let row = table[hs[k]];
            assert(hs.contains(hs[k]));
            match ip {
                IpAddress::V4(_) => {
                    assert(row == (
                        self.v4_starts@[hs[k]] as int,
                        self.v4_ends@[hs[k]] as int,
                        self.v4_vals@[hs[k]] as int,
                    ));
                },
                IpAddress::V6(_) => {
                    assert(row == (
                        self.v6_starts@[hs[k]] as int,
                        self.v6_ends@[hs[k]] as int,
                        self.v6_vals@[hs[k]] as int,
                    ));
                },
            }
        }
    }
}

/// Taking one row out takes its flag out of the count.
proof fn lemma_flag_count_remove(s: Seq<(int, int, int)>, values: Seq<(u32, u32, u32, u32)>, f: u32, j: int)
    requires
        0 <= j < s.len(),
    ensures
        flag_count(s, values, f) == flag_count(s.remove(j), values, f) + if has_flag(values[s[j].2].0, f) {
            1nat
        } else {
            0nat
        },
    decreases s.len(),
{
    if j == s.len() - 1 {
        assert(s.remove(j) =~= s.drop_last());
    } else {
        lemma_flag_count_remove(s.drop_last(), values, f, j);
        assert(s.drop_last().remove(j) =~= s.remove(j).drop_last());
        assert(s.remove(j).last() == s.last());
        assert(s.drop_last()[j] == s[j]);
    }
}

/// Counting flags does not depend on the order of the rows: rows
/// rearranged by a permutation, as the IPv4 table sorted by start is,
/// carry each flag as often as before.
pub proof fn law_flag_count_any_order(
    after: Seq<(int, int, int)>,
    before: Seq<(int, int, int)>,
    p: Seq<int>,
    values: Seq<(u32, u32, u32, u32)>,
    f: u32,
)
    requires
        is_perm(p, before.len()),
        after.len() == before.len(),
        forall|a: int| 0 <= a < after.len() ==> #[trigger] after[a] == before[p[a]],
    ensures
        flag_count(after, values, f) == flag_count(before, values, f),
    decreases after.len(),
{
    let n = after.len() as int;
    if n > 0 {
        let j = p[n - 1];
        let b2 = before.remove(j);
        let a2 = after.drop_last();
        let p2 = Seq::new((n - 1) as nat, |a: int| if p[a] < j { p[a] } else { p[a] - 1 });
        assert forall|a: int| 0 <= a < n - 1 implies p[a] != j by {}
        assert(is_perm(p2, b2.len())) by {
            assert forall|a: int, c: int| 0 <= a < c < n - 1 implies p2[a] != p2[c] by {
                assert(p[a] != p[c]);
            }
        }
        assert forall|a: int| 0 <= a < a2.len() implies #[trigger] a2[a] == b2[p2[a]] by {
            assert(a2[a] == before[p[a]]);
        }
        law_flag_count_any_order(a2, b2, p2, values, f);
        lemma_flag_count_remove(before, values, f, j);
    }
}

} // verus!
