//! IP → `(latitude, longitude)` lookup over the IP2X `geo.bin` format.
//!
//! Layout: a 24-byte header (`GEO1`, index width in bits at byte 6, then the
//! point, IPv4-row, IPv6-row and IPv4-group counts), the point table (two
//! signed 24-bit coordinates in thousandths of a degree per point), the IPv4
//! group bases, the group offsets into the delta area, the 24-bit deltas,
//! the bit-packed IPv4 point indices, the IPv6 /64 keys and the bit-packed
//! IPv6 point indices. Coordinates come back in thousandths of a degree.

use vstd::prelude::*;
use vstd::arithmetic::power2::pow2;
use vstd::bits::{
    low_bits_mask,
    lemma_u64_shr_is_div,
    lemma_u64_shl_is_mul,
    lemma_u64_low_bits_mask_is_mod,
    lemma_u64_pow2_no_overflow,
};

use crate::search::{
    ascending,
    upper_bound,
    partition_point_u32,
    partition_point_u64,
    is_ascending_u32,
    is_ascending_u64,
    splits_at,
    lemma_split_is_upper_bound,
    lemma_upper_bound_splits,
};
use crate::wire::{le_at, fits, i24_value, u24le, u32le, i24le, read_u32_array, read_u64_array};
use crate::{DbError, IpAddress};

verus! {

/// Whether the blob starts with a complete header and the `GEO1` magic.
pub open spec fn geo_header_ok(b: Seq<u8>) -> bool {
    &&& b.len() >= 24
    &&& b[0] == 0x47u8
    &&& b[1] == 0x45u8
    &&& b[2] == 0x4fu8
    &&& b[3] == 0x31u8
}

/// Width in bits of one packed point index.
pub open spec fn geo_bits(b: Seq<u8>) -> nat {
    b[6] as nat
}

pub open spec fn geo_n_pts(b: Seq<u8>) -> nat {
    le_at(b, 8, 4)
}

pub open spec fn geo_n4(b: Seq<u8>) -> nat {
    le_at(b, 12, 4)
}

pub open spec fn geo_n6(b: Seq<u8>) -> nat {
    le_at(b, 16, 4)
}

pub open spec fn geo_nb4(b: Seq<u8>) -> nat {
    le_at(b, 20, 4)
}

pub open spec fn geo_bases_off(b: Seq<u8>) -> int {
    24 + 6 * (geo_n_pts(b) as int)
}

pub open spec fn geo_off4_off(b: Seq<u8>) -> int {
    geo_bases_off(b) + 4 * geo_nb4(b)
}

pub open spec fn geo_deltas_off(b: Seq<u8>) -> int {
    geo_off4_off(b) + 4 * (geo_nb4(b) + 1)
}

/// The `g`-th offset into the delta area.
pub open spec fn geo_off4(b: Seq<u8>, g: int) -> int {
    le_at(b, geo_off4_off(b) + 4 * g, 4) as int
}

pub open spec fn geo_v4_idx_off(b: Seq<u8>) -> int {
    geo_deltas_off(b) + geo_off4(b, geo_nb4(b) as int)
}

pub open spec fn geo_keys_off(b: Seq<u8>) -> int {
    geo_v4_idx_off(b) + (geo_n4(b) * geo_bits(b) + 7) / 8 + 4
}

pub open spec fn geo_v6_idx_off(b: Seq<u8>) -> int {
    geo_keys_off(b) + 8 * geo_n6(b)
}

/// The IPv4 group bases.
pub open spec fn geo_bases(b: Seq<u8>) -> Seq<int> {
    Seq::new(geo_nb4(b), |g: int| le_at(b, geo_bases_off(b) + 4 * g, 4) as int)
}

/// The IPv6 /64 keys.
pub open spec fn geo_keys(b: Seq<u8>) -> Seq<int> {
    Seq::new(geo_n6(b), |r: int| le_at(b, geo_keys_off(b) + 8 * r, 8) as int)
}

/// The 24-bit deltas of IPv4 group `g`.
pub open spec fn geo_group_deltas(b: Seq<u8>, g: int) -> Seq<int> {
    let begin = geo_off4(b, g);
    let end = geo_off4(b, g + 1);
    Seq::new(
        ((end - begin) / 3) as nat,
        |k: int| le_at(b, geo_deltas_off(b) + begin + 3 * k, 3) as int,
    )
}

/// Whether reading the blob meets no out-of-range read or shift: the
/// inputs on which parsing does not fail hard.
pub open spec fn geo_parse_defined(b: Seq<u8>) -> bool {
    geo_header_ok(b) ==> {
        &&& geo_bits(b) < 64
        &&& geo_deltas_off(b) <= b.len()
        &&& (geo_n6(b) == 0 || geo_keys_off(b) + 8 * geo_n6(b) <= b.len())
    }
}

/// The bit-packed index of `row` in the table at `base`.
pub open spec fn geo_packed(b: Seq<u8>, base: int, row: int) -> nat {
    let bit = row * geo_bits(b);
    (le_at(b, base + bit / 8, 4) / pow2((bit % 8) as nat)) % pow2(geo_bits(b))
}

/// Point `index`: no coordinates for index 0, else its two coordinates;
/// `None` where the point lies past the end of the blob.
pub open spec fn geo_point(b: Seq<u8>, index: nat) -> Option<Option<(i32, i32)>> {
    if index == 0 {
        Some(None)
    } else if 24 + 6 * index + 6 <= b.len() {
        Some(
            Some(
                (
                    i24_value(le_at(b, 24 + 6 * (index as int), 3) as int) as i32,
                    i24_value(le_at(b, 24 + 6 * (index as int) + 3, 3) as int) as i32,
                ),
            ),
        )
    } else {
        None
    }
}

/// The point of `row` of the packed table at `base`; `None` where a read
/// leaves the blob.
pub open spec fn geo_row_point(b: Seq<u8>, base: int, row: int) -> Option<Option<(i32, i32)>> {
    if base + (row * geo_bits(b)) / 8 + 4 <= b.len() {
        geo_point(b, geo_packed(b, base, row))
    } else {
        None
    }
}

/// The binary search of the deltas `ds` for `t` within `[lo, hi)`: where
/// `ds` ascends, the number of deltas at most `t`.
pub open spec fn delta_search(ds: Seq<int>, t: int, lo: int, hi: int) -> int
    decreases hi - lo,
{
    if lo < 0 || lo >= hi {
        lo
    } else {
        let mid = (lo + hi) / 2;
        if ds[mid] <= t {
            delta_search(ds, t, mid + 1, hi)
        } else {
            delta_search(ds, t, lo, mid)
        }
    }
}

/// IPv4 lookup: the group is the last whose base is at most `ip`, the row
/// within it found by binary search of the group's deltas for `ip - base`.
/// `None` where the group's deltas or a read leave the blob.
pub open spec fn geo_lookup_v4(b: Seq<u8>, ip: u32) -> Option<Option<(i32, i32)>> {
    let g = upper_bound(geo_bases(b), ip as int);
    if g == 0 {
        Some(None)
    } else {
        let grp = g - 1;
        let begin = geo_off4(b, grp);
        let end = geo_off4(b, grp + 1);
        if !(begin <= end && geo_deltas_off(b) + end <= b.len()) {
            None
        } else {
            let ds = geo_group_deltas(b, grp);
            let l = delta_search(ds, ip - geo_bases(b)[grp], 0, ds.len() as int);
            if l == 0 {
                Some(None)
            } else {
                geo_row_point(b, geo_v4_idx_off(b), begin / 3 + l - 1)
            }
        }
    }
}

/// IPv6 lookup: the row is the last whose /64 key is at most the address's
/// upper 64 bits.
pub open spec fn geo_lookup_v6(b: Seq<u8>, ip: u128) -> Option<Option<(i32, i32)>> {
    let r = upper_bound(geo_keys(b), (ip as nat / pow2(64)) as int);
    if r == 0 {
        Some(None)
    } else {
        geo_row_point(b, geo_v6_idx_off(b), r - 1)
    }
}

/// The lookup of either address family.
pub open spec fn geo_lookup(b: Seq<u8>, ip: IpAddress) -> Option<Option<(i32, i32)>> {
    match ip {
        IpAddress::V4(a) => geo_lookup_v4(b, a),
        IpAddress::V6(a) => geo_lookup_v6(b, a),
    }
}

/// The group bases and the IPv6 keys are ascending, as the format promises
/// and the searches need.
pub open spec fn geo_tables_ascending(b: Seq<u8>) -> bool {
    ascending(geo_bases(b)) && ascending(geo_keys(b))
}

/// IP → `(lat, lon)` reverse lookup over a loaded `geo.bin`.
pub struct IpGeo {
    bytes: Vec<u8>,
    idx_bits: u32,
    idx_mask: u64,
    pts_off: usize,
    bases4: Vec<u32>,
    off4: Vec<u32>,
    deltas4_off: usize,
    v4_idx_off: u64,
    v6_keys: Vec<u64>,
    v6_idx_off: u64,
}

impl View for IpGeo {
    type V = Seq<u8>;

    closed spec fn view(&self) -> Seq<u8> {
        self.bytes@
    }
}

impl IpGeo {
    #[verifier::type_invariant]
    closed spec fn inv(&self) -> bool {
        let b = self.bytes@;
        &&& geo_header_ok(b)
        &&& geo_parse_defined(b)
        &&& self.idx_bits == geo_bits(b)
        &&& self.idx_mask == low_bits_mask(geo_bits(b))
        &&& self.pts_off == 24
        &&& self.bases4@.map_values(|v: u32| v as int) == geo_bases(b)
        &&& self.off4@.len() == geo_nb4(b) + 1
        &&& forall|g: int| 0 <= g <= geo_nb4(b) ==> self.off4@[g] == geo_off4(b, g)
        &&& self.deltas4_off == geo_deltas_off(b)
        &&& self.v4_idx_off == geo_v4_idx_off(b)
        &&& self.v6_keys@.map_values(|v: u64| v as int) == geo_keys(b)
        &&& self.v6_idx_off == geo_v6_idx_off(b)
    }

    /// Whether parsing the blob meets no out-of-range read or shift: where
    /// this is false, parsing is not defined.
    pub fn parse_defined(bytes: &Vec<u8>) -> (r: bool)
        ensures
            r == geo_parse_defined(bytes@),
    {
        let len = bytes.len();
        if len < 24 || bytes[0] != 0x47u8 || bytes[1] != 0x45u8 || bytes[2] != 0x4fu8
            || bytes[3] != 0x31u8 {
            return true;
        }
        let bits = bytes[6] as u128;
        if bits >= 64 {
            return false;
        }
        let n_pts = u32le(bytes.as_slice(), 8) as u128;
        let n4 = u32le(bytes.as_slice(), 12) as u128;
        let n6 = u32le(bytes.as_slice(), 16) as u128;
        let nb4 = u32le(bytes.as_slice(), 20) as u128;
        let deltas_off = 24 + 6 * n_pts + 4 * nb4 + 4 * (nb4 + 1);
        if deltas_off > len as u128 {
            return false;
        }
        if n6 == 0 {
            return true;
        }
        let last = u32le(bytes.as_slice(), (deltas_off - 4) as usize) as u128;
        proof {
            assert(n4 * bits <= 0xffff_ffff * 64) by (nonlinear_arith)
                requires
                    n4 <= 0xffff_ffff,
                    bits < 64,
            ;
        }
        let keys_off = deltas_off + last + (n4 * bits + 7) / 8 + 4;
        keys_off + 8 * n6 <= len as u128
    }

    /// Parse a `geo.bin` blob into a queryable database.
    pub fn parse(bytes: Vec<u8>) -> (r: Result<IpGeo, DbError>)
        requires
            geo_parse_defined(bytes@),
        ensures
            r is Err <==> !geo_header_ok(bytes@),
            r matches Err(e) ==> e == DbError::BadIpGeo,
            r matches Ok(db) ==> db@ == bytes@,
    {
        if bytes.len() < 24 || bytes[0] != 0x47u8 || bytes[1] != 0x45u8 || bytes[2] != 0x4fu8
            || bytes[3] != 0x31u8 {
            return Err(DbError::BadIpGeo);
        }
        let ghost b = bytes@;
        let idx_bits = bytes[6] as u32;
        proof {
            lemma_u64_pow2_no_overflow(idx_bits as nat);
            lemma_u64_shl_is_mul(1u64, idx_bits as u64);
        }
        let idx_mask = (1u64 << (idx_bits as u64)) - 1;
        let n_pts = u32le(&bytes, 8) as u64;
        let n4 = u32le(&bytes, 12) as u64;
        let n6 = u32le(&bytes, 16) as u64;
        let nb4 = u32le(&bytes, 20) as u64;

        let mut offset: u64 = 24;
        let pts_off: usize = 24;
        offset = offset + n_pts * 6;

        let bases4 = read_u32_array(&bytes, offset as usize, nb4 as usize);
        offset = offset + nb4 * 4;

        let off4 = read_u32_array(&bytes, offset as usize, (nb4 + 1) as usize);
        offset = offset + (nb4 + 1) * 4;

        let deltas_len = off4[nb4 as usize] as u64;
        let deltas4_off = offset as usize;
        offset = offset + deltas_len;

        let v4_idx_off = offset;
        proof {
            assert(n4 * idx_bits < 0x1_0000_0000_0000) by (nonlinear_arith)
                requires
                    n4 < 0x1_0000_0000,
                    idx_bits < 64,
            ;
        }
        offset = offset + (n4 * idx_bits as u64 + 7) / 8 + 4;

        let v6_keys = if n6 == 0 {
            Vec::new()
        } else {
            read_u64_array(&bytes, offset as usize, n6 as usize)
        };
        offset = offset + n6 * 8;

        let v6_idx_off = offset;
        proof {
            assert(bases4@.map_values(|v: u32| v as int) =~= geo_bases(b));
            assert(v6_keys@.map_values(|v: u64| v as int) =~= geo_keys(b));
        }
        Ok(
            IpGeo {
                bytes,
                idx_bits,
                idx_mask,
                pts_off,
                bases4,
                off4,
                deltas4_off,
                v4_idx_off,
                v6_keys,
                v6_idx_off,
            },
        )
    }

    /// Whether the group bases and the IPv6 keys are ascending.
    pub fn tables_ascending(&self) -> (r: bool)
        ensures
            r == geo_tables_ascending(self@),
    {
        proof {
            use_type_invariant(self);
        }
        is_ascending_u32(self.bases4.as_slice()) && is_ascending_u64(self.v6_keys.as_slice())
    }

    /// The point behind packed `row` of the table at `base`, if every read
    /// stays inside the blob.
    fn row_point(&self, base: usize, row: u64) -> (r: Option<Option<(i32, i32)>>)
        requires
            base <= self@.len(),
            row < 0x1_0000_0000_0000,
        ensures
            r == geo_row_point(self@, base as int, row as int),
    {
        proof {
            use_type_invariant(self);
            assert(row * self.idx_bits < 0x40_0000_0000_0000) by (nonlinear_arith)
                requires
                    row < 0x1_0000_0000_0000,
                    self.idx_bits < 64,
            ;
        }
        let len = self.bytes.len();
        let bit = row * self.idx_bits as u64;
        if len < 4 || base > len - 4 || bit / 8 > (len - 4 - base) as u64 {
            return None;
        }
        let byte = base + (bit / 8) as usize;
        let shift = bit % 8;
        let word = u32le(&self.bytes, byte) as u64;
        proof {
            lemma_u64_shr_is_div(word, shift);
            lemma_u64_low_bits_mask_is_mod(word >> shift, self.idx_bits as nat);
            lemma_u64_pow2_no_overflow(self.idx_bits as nat);
        }
        let index = (word >> shift) & self.idx_mask;
        self.point(index)
    }

    /// Point `index`, if it lies inside the blob.
    fn point(&self, index: u64) -> (r: Option<Option<(i32, i32)>>)
        ensures
            r == geo_point(self@, index as nat),
    {
        proof {
            use_type_invariant(self);
        }
        if index == 0 {
            return Some(None);
        }
        let len = self.bytes.len();
        if len < 30 || index > ((len - 30) / 6) as u64 {
            return None;
        }
        let offset = self.pts_off + index as usize * 6;
        let lat = i24le(&self.bytes, offset);
        let lon = i24le(&self.bytes, offset + 3);
        Some(Some((lat, lon)))
    }

    /// The IPv4 lookup, or `None` where the blob does not define it.
    #[verifier::loop_isolation(false)]
    fn walk_v4(&self, ip: u32) -> (r: Option<Option<(i32, i32)>>)
        requires
            geo_tables_ascending(self@),
        ensures
            r == geo_lookup_v4(self@, ip),
    {
        proof {
            use_type_invariant(self);
        }
        let ghost b = self.bytes@;
        let g = partition_point_u32(self.bases4.as_slice(), ip);
        if g == 0 {
            return Some(None);
        }
        let group = g - 1;
        let base = self.bases4[group];
        let begin = self.off4[group] as usize;
        let end = self.off4[group + 1] as usize;
        let target = ip - base;
        let len = self.bytes.len();
        if !(begin <= end && end <= len && self.deltas4_off <= len - end) {
            return None;
        }
        let start = self.deltas4_off + begin;
        let count = (end - begin) / 3;
        let ghost ds = geo_group_deltas(b, group as int);
        proof {
            assert(ds.len() == count);
        }
        let mut lo: usize = 0;
        let mut hi: usize = count;
        while lo < hi
            invariant
                lo <= hi <= count,
                count == ds.len(),
                start + 3 * count <= len,
                len == b.len(),
                b == self.bytes@,
                start == geo_deltas_off(b) + geo_off4(b, group as int),
                ds == geo_group_deltas(b, group as int),
                delta_search(ds, target as int, 0, count as int) == delta_search(ds, target as int, lo as int, hi as int),
            decreases hi - lo,
        {
            let mid = (lo + hi) / 2;
            let v = u24le(&self.bytes, start + mid * 3);
            proof {
                assert(ds[mid as int] == v);
            }
            if v <= target {
                lo = mid + 1;
            } else {
                hi = mid;
            }
        }
        proof {
            assert(geo_bases(b)[group as int] == base);
        }
        if lo == 0 {
            return Some(None);
        }
        let row = (begin / 3 + (lo - 1)) as u64;
        if self.v4_idx_off > len as u64 {
            return None;
        }
        self.row_point(self.v4_idx_off as usize, row)
    }

    /// The IPv6 lookup, or `None` where the blob does not define it.
    fn walk_v6(&self, ip: u128) -> (r: Option<Option<(i32, i32)>>)
        requires
            geo_tables_ascending(self@),
        ensures
            r == geo_lookup_v6(self@, ip),
    {
        proof {
            use_type_invariant(self);
        }
        let key = (ip / 0x1_0000_0000_0000_0000) as u64;
        proof {
            assert(pow2(64) == 0x1_0000_0000_0000_0000) by {
                vstd::arithmetic::power2::lemma2_to64();
            }
        }
        let row = partition_point_u64(self.v6_keys.as_slice(), key);
        if row == 0 {
            return Some(None);
        }
        if self.v6_idx_off > self.bytes.len() as u64 {
            return None;
        }
        proof {
            crate::wire::lemma_le_at_bound(self.bytes@, 16, 4);
        }
        self.row_point(self.v6_idx_off as usize, (row - 1) as u64)
    }

    /// Whether the blob defines the lookup of `ip` (no read leaves it).
    pub fn lookup_defined(&self, ip: IpAddress) -> (r: bool)
        requires
            geo_tables_ascending(self@),
        ensures
            r == (geo_lookup(self@, ip) is Some),
    {
        match ip {
            IpAddress::V4(a) => self.walk_v4(a).is_some(),
            IpAddress::V6(a) => self.walk_v6(a).is_some(),
        }
    }

    /// Look up the coordinates of an IPv4 or IPv6 address, in thousandths
    /// of a degree.
    pub fn lookup(&self, ip: IpAddress) -> (r: Option<(i32, i32)>)
        requires
            geo_tables_ascending(self@),
            geo_lookup(self@, ip) is Some,
        ensures
            r == geo_lookup(self@, ip)->0,
    {
        let w = match ip {
            IpAddress::V4(a) => self.walk_v4(a),
            IpAddress::V6(a) => self.walk_v6(a),
        };
        match w {
            Some(p) => p,
            None => None,
        }
    }
}

/// On ascending deltas the binary search finds how many deltas are at most
/// the target: the IPv4 row is the last whose delta does not pass it.
pub proof fn law_delta_search_counts(ds: Seq<int>, t: int)
    requires
        ascending(ds),
    ensures
        delta_search(ds, t, 0, ds.len() as int) == upper_bound(ds, t),
{
    lemma_upper_bound_splits(ds, t);
    lemma_delta_search_between(ds, t, 0, ds.len() as int);
    lemma_split_is_upper_bound(ds, t, delta_search(ds, t, 0, ds.len() as int));
}

/// A search that starts between the deltas at most `t` and those above it
/// ends at the split.
proof fn lemma_delta_search_between(ds: Seq<int>, t: int, lo: int, hi: int)
    requires
        ascending(ds),
        0 <= lo <= hi <= ds.len(),
        forall|j: int| 0 <= j < lo ==> ds[j] <= t,
        forall|j: int| hi <= j < ds.len() ==> ds[j] > t,
    ensures
        splits_at(ds, t, delta_search(ds, t, lo, hi)),
    decreases hi - lo,
{
    if lo < hi {
        let mid = (lo + hi) / 2;
        if ds[mid] <= t {
            assert forall|j: int| 0 <= j < mid + 1 implies ds[j] <= t by {
                assert(ds[j] <= ds[mid]);
            }
            lemma_delta_search_between(ds, t, mid + 1, hi);
        } else {
            assert forall|j: int| mid <= j < ds.len() implies ds[j] > t by {
                assert(ds[mid] <= ds[j]);
            }
            lemma_delta_search_between(ds, t, lo, mid);
        }
    }
}

/// The point that IPv4 group `k` gives an address `t` past its base: the
/// row found by binary search of the group's deltas for `t`, no point
/// before the first delta, `None` where the deltas leave the blob.
pub open spec fn geo_group_point(b: Seq<u8>, k: int, t: int) -> Option<Option<(i32, i32)>> {
    let begin = geo_off4(b, k);
    let end = geo_off4(b, k + 1);
    if !(begin <= end && geo_deltas_off(b) + end <= b.len()) {
        None
    } else {
        let ds = geo_group_deltas(b, k);
        let l = delta_search(ds, t, 0, ds.len() as int);
        if l == 0 {
            Some(None)
        } else {
            geo_row_point(b, geo_v4_idx_off(b), begin / 3 + l - 1)
        }
    }
}

/// An IPv4 lookup reads the last group whose base is at most the address:
/// where group `k` has a base at most `ip` and the next base (if any) lies
/// above it, the answer is group `k`'s point for `ip - base`; below the
/// first base there is no point.
pub proof fn law_v4_last_group(b: Seq<u8>, ip: u32, k: int)
    requires
        ascending(geo_bases(b)),
        0 <= k < geo_bases(b).len(),
        geo_bases(b)[k] <= ip,
        k + 1 == geo_bases(b).len() || geo_bases(b)[k + 1] > ip,
    ensures
        geo_lookup_v4(b, ip) == geo_group_point(b, k, ip - geo_bases(b)[k]),
{
    let bs = geo_bases(b);
    assert forall|j: int| 0 <= j < k + 1 implies bs[j] <= ip by {
        assert(bs[j] <= bs[k]);
    }
    assert forall|j: int| k + 1 <= j < bs.len() implies bs[j] > ip by {
        assert(bs[k + 1] <= bs[j]);
    }
    assert(splits_at(bs, ip as int, k + 1));
    lemma_split_is_upper_bound(bs, ip as int, k + 1);
}

/// An address below every group base has no point.
pub proof fn law_v4_below_bases(b: Seq<u8>, ip: u32)
    requires
        ascending(geo_bases(b)),
        geo_bases(b).len() == 0 || geo_bases(b)[0] > ip,
    ensures
        geo_lookup_v4(b, ip) == Some(None::<(i32, i32)>),
{
    let bs = geo_bases(b);
    assert forall|j: int| 0 <= j < bs.len() implies bs[j] > ip by {
        assert(bs[0] <= bs[j]);
    }
    assert(splits_at(bs, ip as int, 0));
    lemma_split_is_upper_bound(bs, ip as int, 0);
}

/// Within a group whose deltas ascend, an address `t` past the base gets
/// the point of the last row whose delta is at most `t`, and no point
/// where every delta lies above `t`.
pub proof fn law_v4_last_row(b: Seq<u8>, k: int, t: int, j: int)
    requires
        geo_off4(b, k) <= geo_off4(b, k + 1),
        geo_deltas_off(b) + geo_off4(b, k + 1) <= b.len(),
        ascending(geo_group_deltas(b, k)),
        -1 <= j < geo_group_deltas(b, k).len(),
        j >= 0 ==> geo_group_deltas(b, k)[j] <= t,
        j + 1 == geo_group_deltas(b, k).len() || geo_group_deltas(b, k)[j + 1] > t,
    ensures
        j == -1 ==> geo_group_point(b, k, t) == Some(None::<(i32, i32)>),
        j >= 0 ==> geo_group_point(b, k, t) == geo_row_point(
            b,
            geo_v4_idx_off(b),
            geo_off4(b, k) / 3 + j,
        ),
{
    let ds = geo_group_deltas(b, k);
    assert forall|m: int| 0 <= m < j + 1 implies ds[m] <= t by {
        assert(ds[m] <= ds[j]);
    }
    assert forall|m: int| j + 1 <= m < ds.len() implies ds[m] > t by {
        assert(ds[j + 1] <= ds[m]);
    }
    assert(splits_at(ds, t, j + 1));
    lemma_split_is_upper_bound(ds, t, j + 1);
    law_delta_search_counts(ds, t);
}

/// An IPv6 address gets the point of the last row whose /64 key is at most
/// its upper 64 bits, and no point below the first key.
pub proof fn law_v6_last_key(b: Seq<u8>, ip: u128, k: int)
    requires
        ascending(geo_keys(b)),
        -1 <= k < geo_keys(b).len(),
        k >= 0 ==> geo_keys(b)[k] <= ip as nat / pow2(64),
        k + 1 == geo_keys(b).len() || geo_keys(b)[k + 1] > ip as nat / pow2(64),
    ensures
        k == -1 ==> geo_lookup_v6(b, ip) == Some(None::<(i32, i32)>),
        k >= 0 ==> geo_lookup_v6(b, ip) == geo_row_point(b, geo_v6_idx_off(b), k),
{
    let ks = geo_keys(b);
    let x = (ip as nat / pow2(64)) as int;
    assert forall|j: int| 0 <= j < k + 1 implies ks[j] <= x by {
        assert(ks[j] <= ks[k]);
    }
    assert forall|j: int| k + 1 <= j < ks.len() implies ks[j] > x by {
        assert(ks[k + 1] <= ks[j]);
    }
    assert(splits_at(ks, x, k + 1));
    lemma_split_is_upper_bound(ks, x, k + 1);
}

/// IPv6 addresses are located by their /64 prefix: for two addresses with
/// the same upper 64 bits, a lookup is defined for both or for neither, and
/// gives both the same answer.
pub proof fn law_v6_by_prefix(db: &IpGeo, a: u128, c: u128)
    requires
        a as nat / pow2(64) == c as nat / pow2(64),
    ensures
        geo_lookup(db@, IpAddress::V6(a)) == geo_lookup(db@, IpAddress::V6(c)),
{
}

} // verus!
